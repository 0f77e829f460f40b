//! Laws of method calls on the shims: what each method gives, and what it leaves behind.

use vstd::prelude::*;
use vstd::utf8::encode_utf8;
use crate::hash_map::{distinct_keys, entry_value, key_position};
use crate::hash_map::{law_lookup_after_removing, lemma_key_position};
use crate::hash_set::{distinct_items, with_item, without_item};
use crate::hash_set::{law_member_after_adding, law_member_after_removing, lemma_item_position};
use crate::instant::inst_millis;
use crate::java_laws::{law_lookup_after_rebinding, law_rebinding_keeps_keys_distinct};
use crate::javamap::{
    builder_call, call_effect, contents, deque_call, formatter_parse, future_call, gives,
    is_chain_method, iterator_call, list_call, map_call, native_get, rebound_all, seq_items,
    set_call, Native,
};
use crate::javamap::lemma_first_item;
use crate::value::{same, Val};

verus! {

proof fn lemma_map_names()
    ensures
        "get"@.len() == 3,
        "get"@[0] == 'g',
        "put"@.len() == 3,
        "put"@[0] == 'p',
        "putAll"@.len() == 6,
        "putAll"@[0] == 'p',
        "containsKey"@.len() == 11,
        "containsKey"@[0] == 'c',
        "putIfAbsent"@.len() == 11,
        "putIfAbsent"@[0] == 'p',
        "remove"@.len() == 6,
        "remove"@[0] == 'r',
        "size"@.len() == 4,
        "isEmpty"@.len() == 7,
        "clear"@.len() == 5,
        "values"@.len() == 6,
        "values"@[0] == 'v',
        "keySet"@.len() == 6,
        "keySet"@[0] == 'k',
        "entrySet"@.len() == 8,
{
    reveal_strlit("get");
    reveal_strlit("put");
    reveal_strlit("putAll");
    reveal_strlit("containsKey");
    reveal_strlit("putIfAbsent");
    reveal_strlit("remove");
    reveal_strlit("size");
    reveal_strlit("isEmpty");
    reveal_strlit("clear");
    reveal_strlit("values");
    reveal_strlit("keySet");
    reveal_strlit("entrySet");
}

proof fn lemma_list_names()
    ensures
        "add"@.len() == 3,
        "add"@[0] == 'a',
        "addAll"@.len() == 6,
        "addAll"@[0] == 'a',
        "get"@.len() == 3,
        "get"@[0] == 'g',
        "set"@.len() == 3,
        "set"@[0] == 's',
        "remove"@.len() == 6,
        "remove"@[0] == 'r',
        "contains"@.len() == 8,
        "indexOf"@.len() == 7,
        "indexOf"@[0] == 'i',
        "indexOf"@[1] == 'n',
        "size"@.len() == 4,
        "isEmpty"@.len() == 7,
        "isEmpty"@[0] == 'i',
        "isEmpty"@[1] == 's',
        "clear"@.len() == 5,
        "toArray"@.len() == 7,
        "toArray"@[0] == 't',
{
    reveal_strlit("add");
    reveal_strlit("addAll");
    reveal_strlit("get");
    reveal_strlit("set");
    reveal_strlit("remove");
    reveal_strlit("contains");
    reveal_strlit("indexOf");
    reveal_strlit("size");
    reveal_strlit("isEmpty");
    reveal_strlit("clear");
    reveal_strlit("toArray");
}

proof fn lemma_set_names()
    ensures
        "add"@.len() == 3,
        "addAll"@.len() == 6,
        "addAll"@[0] == 'a',
        "contains"@.len() == 8,
        "remove"@.len() == 6,
        "remove"@[0] == 'r',
        "size"@.len() == 4,
        "isEmpty"@.len() == 7,
        "isEmpty"@[0] == 'i',
        "clear"@.len() == 5,
        "toArray"@.len() == 7,
        "toArray"@[0] == 't',
{
    reveal_strlit("add");
    reveal_strlit("addAll");
    reveal_strlit("contains");
    reveal_strlit("remove");
    reveal_strlit("size");
    reveal_strlit("isEmpty");
    reveal_strlit("clear");
    reveal_strlit("toArray");
}

proof fn lemma_deque_names()
    ensures
        "push"@.len() == 4,
        "push"@[0] == 'p',
        "push"@[1] == 'u',
        "addFirst"@.len() == 8,
        "add"@.len() == 3,
        "add"@[0] == 'a',
        "addLast"@.len() == 7,
        "addLast"@[0] == 'a',
        "offer"@.len() == 5,
        "offer"@[0] == 'o',
        "pop"@.len() == 3,
        "pop"@[0] == 'p',
        "removeFirst"@.len() == 11,
        "poll"@.len() == 4,
        "poll"@[0] == 'p',
        "poll"@[1] == 'o',
        "pollFirst"@.len() == 9,
        "pollFirst"@[1] == 'o',
        "peek"@.len() == 4,
        "peek"@[0] == 'p',
        "peek"@[1] == 'e',
        "peekFirst"@.len() == 9,
        "peekFirst"@[1] == 'e',
        "isEmpty"@.len() == 7,
        "isEmpty"@[0] == 'i',
        "size"@.len() == 4,
        "size"@[0] == 's',
        "clear"@.len() == 5,
        "clear"@[0] == 'c',
{
    reveal_strlit("push");
    reveal_strlit("addFirst");
    reveal_strlit("add");
    reveal_strlit("addLast");
    reveal_strlit("offer");
    reveal_strlit("pop");
    reveal_strlit("removeFirst");
    reveal_strlit("poll");
    reveal_strlit("pollFirst");
    reveal_strlit("peek");
    reveal_strlit("peekFirst");
    reveal_strlit("isEmpty");
    reveal_strlit("size");
    reveal_strlit("clear");
}

proof fn lemma_builder_names()
    ensures
        "append"@.len() == 6,
        "append"@[0] == 'a',
        "toString"@.len() == 8,
        "length"@.len() == 6,
        "length"@[0] == 'l',
        "setLength"@.len() == 9,
{
    reveal_strlit("append");
    reveal_strlit("toString");
    reveal_strlit("length");
    reveal_strlit("setLength");
}

proof fn lemma_iterator_names()
    ensures
        "hasNext"@.len() == 7,
        "next"@.len() == 4,
{
    reveal_strlit("hasNext");
    reveal_strlit("next");
}


/// The entries bind the key.
pub open spec fn binds(entries: Seq<(Val, Val)>, key: Val) -> bool {
    exists|i: int| 0 <= i < entries.len() && same((#[trigger] entries[i]).0, key)
}

/// One of the items equals the value.
pub open spec fn holds(items: Seq<Val>, v: Val) -> bool {
    exists|i: int| 0 <= i < items.len() && same(#[trigger] items[i], v)
}

proof fn lemma_binds(entries: Seq<(Val, Val)>, key: Val)
    ensures
        key_position(entries, key) is Some <==> binds(entries, key),
{
    lemma_key_position(entries, key);
}

/// What a map tells of itself, and that asking changes nothing: whether it binds a key, its size,
/// its keys and its values in the same order.
pub proof fn law_map_is_asked(entries: Seq<(Val, Val)>, key: Val, heap: Seq<Native>)
    ensures
        map_call(entries, "containsKey"@, seq![key], heap) == (
            entries,
            gives(Val::Bool(binds(entries, key))),
        ),
        !binds(entries, key) ==> map_call(entries, "get"@, seq![key], heap) == (
            entries,
            gives(Val::Nil),
        ),
        forall|i: int|
            distinct_keys(entries) && 0 <= i < entries.len() && same((#[trigger] entries[i]).0, key)
                ==> map_call(entries, "get"@, seq![key], heap) == (entries, gives(entries[i].1)),
        entries.len() <= i64::MAX ==> map_call(entries, "size"@, Seq::empty(), heap) == (
            entries,
            gives(Val::Long(entries.len() as i64)),
        ),
        map_call(entries, "isEmpty"@, Seq::empty(), heap) == (
            entries,
            gives(Val::Bool(entries.len() == 0)),
        ),
        map_call(entries, "keySet"@, Seq::empty(), heap) == (
            entries,
            gives(Val::Vector(Seq::new(entries.len(), |i: int| entries[i].0))),
        ),
        map_call(entries, "values"@, Seq::empty(), heap) == (
            entries,
            gives(Val::Vector(Seq::new(entries.len(), |i: int| entries[i].1))),
        ),
        map_call(entries, "entrySet"@, Seq::empty(), heap) == (
            entries,
            gives(
                Val::Vector(
                    Seq::new(
                        entries.len(),
                        |i: int| Val::Vector(seq![entries[i].0, entries[i].1]),
                    ),
                ),
            ),
        ),
{
    lemma_map_names();
    lemma_binds(entries, key);
    lemma_key_position(entries, key);
    assert forall|i: int|
        distinct_keys(entries) && 0 <= i < entries.len() && same(
            (#[trigger] entries[i]).0,
            key,
        ) implies map_call(entries, "get"@, seq![key], heap) == (entries, gives(entries[i].1)) by {
        crate::hash_map::lemma_position_of(entries, key, i);
    }
    assert(entries.map_values(|e: (Val, Val)| e.0) =~= Seq::new(
        entries.len(),
        |i: int| entries[i].0,
    ));
    assert(entries.map_values(|e: (Val, Val)| e.1) =~= Seq::new(
        entries.len(),
        |i: int| entries[i].1,
    ));
    assert(crate::javamap::entry_vectors(entries) =~= Seq::new(
        entries.len(),
        |i: int| Val::Vector(seq![entries[i].0, entries[i].1]),
    ));
}

/// What changing a map does to each key. `.put` binds and gives the value before, `.putIfAbsent`
/// leaves a binding that is there, `.remove` unbinds, and `.clear` leaves nothing.
pub proof fn law_map_is_changed(
    entries: Seq<(Val, Val)>,
    key: Val,
    value: Val,
    other: Val,
    heap: Seq<Native>,
)
    requires
        distinct_keys(entries),
    ensures
        ({
            let before = match entry_value(entries, key) {
                Some(v) => v,
                None => Val::Nil,
            };
            let put = map_call(entries, "put"@, seq![key, value], heap);
            let absent = map_call(entries, "putIfAbsent"@, seq![key, value], heap);
            let removed = map_call(entries, "remove"@, seq![key], heap);
            &&& put.1 == gives(before)
            &&& distinct_keys(put.0)
            &&& entry_value(put.0, other) == if same(key, other) {
                Some(value)
            } else {
                entry_value(entries, other)
            }
            &&& absent.1 == gives(before)
            &&& binds(entries, key) ==> absent.0 == entries
            &&& !binds(entries, key) ==> absent.0 == put.0
            &&& removed.1 == gives(before)
            &&& entry_value(removed.0, other) == if same(key, other) {
                None
            } else {
                entry_value(entries, other)
            }
            &&& map_call(entries, "clear"@, Seq::empty(), heap) == (
                Seq::<(Val, Val)>::empty(),
                gives(Val::Nil),
            )
        }),
{
    lemma_map_names();
    lemma_binds(entries, key);
    lemma_key_position(entries, key);
    law_rebinding_keeps_keys_distinct(entries, key, value);
    law_lookup_after_rebinding(entries, key, value, other);
    law_lookup_after_removing(entries, key, other);
}

/// `.putAll` binds every entry of the other map, a later one over an earlier one, and leaves the
/// keys that the other map does not bind.
pub proof fn law_map_takes_all(
    entries: Seq<(Val, Val)>,
    more: Seq<(Val, Val)>,
    key: Val,
    heap: Seq<Native>,
)
    requires
        distinct_keys(entries),
        distinct_keys(more),
    ensures
        ({
            let all = map_call(entries, "putAll"@, seq![Val::HashMap(more)], heap);
            &&& all.1 == gives(Val::Nil)
            &&& distinct_keys(all.0)
            &&& entry_value(all.0, key) == if binds(more, key) {
                entry_value(more, key)
            } else {
                entry_value(entries, key)
            }
        }),
{
    lemma_map_names();
    lemma_all_bound(entries, more, key);
}

proof fn lemma_all_bound(entries: Seq<(Val, Val)>, more: Seq<(Val, Val)>, key: Val)
    requires
        distinct_keys(entries),
    ensures
        distinct_keys(rebound_all(entries, more)),
        entry_value(rebound_all(entries, more), key) == if binds(more, key) {
            entry_value(more, key)
        } else {
            entry_value(entries, key)
        },
    decreases more.len(),
{
    lemma_binds(more, key);
    if more.len() > 0 {
        let rest = more.drop_last();
        lemma_all_bound(entries, rest, key);
        lemma_binds(rest, key);
        law_rebinding_keeps_keys_distinct(
            rebound_all(entries, rest),
            more.last().0,
            more.last().1,
        );
        law_lookup_after_rebinding(
            rebound_all(entries, rest),
            more.last().0,
            more.last().1,
            key,
        );
        lemma_key_position(rest, key);
    }
}

/// What a list tells of itself, and that asking changes nothing.
pub proof fn law_list_is_asked(items: Seq<Val>, v: Val, i: i64, heap: Seq<Native>)
    requires
        items.len() <= i64::MAX,
    ensures
        0 <= i < items.len() ==> list_call(items, "get"@, seq![Val::Long(i)], heap) == (
            items,
            gives(items[i as int]),
        ),
        !(0 <= i < items.len()) ==> list_call(items, "get"@, seq![Val::Long(i)], heap).1 matches Some(
            Err(_),
        ),
        list_call(items, "contains"@, seq![v], heap) == (items, gives(Val::Bool(holds(items, v)))),
        list_call(items, "indexOf"@, seq![v], heap).0 == items,
        !holds(items, v) ==> list_call(items, "indexOf"@, seq![v], heap).1 == gives(
            Val::Long((-1) as i64),
        ),
        0 <= i < items.len() && same(items[i as int], v) && (forall|j: int|
            0 <= j < i ==> !same(#[trigger] items[j], v)) ==> list_call(
            items,
            "indexOf"@,
            seq![v],
            heap,
        ).1 == gives(Val::Long(i)),
        list_call(items, "size"@, Seq::empty(), heap) == (
            items,
            gives(Val::Long(items.len() as i64)),
        ),
        list_call(items, "isEmpty"@, Seq::empty(), heap) == (
            items,
            gives(Val::Bool(items.len() == 0)),
        ),
        list_call(items, "toArray"@, Seq::empty(), heap) == (items, gives(Val::ObjectArray(items))),
{
    lemma_list_names();
    lemma_first_item(items, v);
}

/// What changing a list does: `.add` puts a value at the end or at a position, `.set` in place of
/// another, `.remove` takes an element out by its position, and `.clear` all of them.
pub proof fn law_list_is_changed(
    items: Seq<Val>,
    v: Val,
    i: i64,
    more: Seq<Val>,
    heap: Seq<Native>,
)
    ensures
        list_call(items, "add"@, seq![v], heap) == (items.push(v), gives(Val::Bool(true))),
        0 <= i <= items.len() ==> list_call(items, "add"@, seq![Val::Long(i), v], heap) == (
            items.take(i as int).push(v) + items.skip(i as int),
            gives(Val::Nil),
        ),
        !(0 <= i <= items.len()) ==> {
            let r = list_call(items, "add"@, seq![Val::Long(i), v], heap);
            r.0 == items && r.1 matches Some(Err(_))
        },
        list_call(items, "addAll"@, seq![Val::Vector(more)], heap) == (
            items + more,
            gives(Val::Bool(more.len() > 0)),
        ),
        0 <= i < items.len() ==> list_call(items, "set"@, seq![Val::Long(i), v], heap) == (
            items.update(i as int, v),
            gives(items[i as int]),
        ),
        !(0 <= i < items.len()) ==> {
            let r = list_call(items, "set"@, seq![Val::Long(i), v], heap);
            r.0 == items && r.1 matches Some(Err(_))
        },
        0 <= i < items.len() ==> list_call(items, "remove"@, seq![Val::Long(i)], heap) == (
            items.take(i as int) + items.skip(i + 1),
            gives(items[i as int]),
        ),
        list_call(items, "clear"@, Seq::empty(), heap) == (Seq::<Val>::empty(), gives(Val::Nil)),
{
    lemma_list_names();
    if 0 <= i <= items.len() {
        assert(items.insert(i as int, v) =~= items.take(i as int).push(v) + items.skip(i as int));
    }
    if 0 <= i < items.len() {
        assert(items.remove(i as int) =~= items.take(i as int) + items.skip(i + 1));
    }
}

/// `.remove` of a value that is no position takes the first equal element out, and says whether
/// there was one.
pub proof fn law_list_removes_a_value(items: Seq<Val>, v: Val, i: int, heap: Seq<Native>)
    requires
        !(v is Long),
    ensures
        !holds(items, v) ==> list_call(items, "remove"@, seq![v], heap) == (
            items,
            gives(Val::Bool(false)),
        ),
        0 <= i < items.len() && same(items[i], v) && (forall|j: int|
            0 <= j < i ==> !same(#[trigger] items[j], v)) ==> list_call(
            items,
            "remove"@,
            seq![v],
            heap,
        ) == (items.take(i) + items.skip(i + 1), gives(Val::Bool(true))),
{
    lemma_list_names();
    lemma_first_item(items, v);
    if 0 <= i < items.len() {
        assert(items.remove(i) =~= items.take(i) + items.skip(i + 1));
    }
}

/// A set holds what was added and not removed; `.add` and `.remove` say whether they changed it.
pub proof fn law_set_calls(items: Seq<Val>, v: Val, other: Val, heap: Seq<Native>)
    requires
        distinct_items(items),
        items.len() <= i64::MAX,
    ensures
        ({
            let added = set_call(items, "add"@, seq![v], heap);
            let removed = set_call(items, "remove"@, seq![v], heap);
            &&& added.1 == gives(Val::Bool(!holds(items, v)))
            &&& holds(added.0, other) <==> holds(items, other) || same(v, other)
            &&& removed.1 == gives(Val::Bool(holds(items, v)))
            &&& holds(removed.0, other) <==> holds(items, other) && !same(v, other)
            &&& set_call(items, "contains"@, seq![v], heap) == (
                items,
                gives(Val::Bool(holds(items, v))),
            )
            &&& set_call(items, "size"@, Seq::empty(), heap) == (
                items,
                gives(Val::Long(items.len() as i64)),
            )
            &&& set_call(items, "isEmpty"@, Seq::empty(), heap) == (
                items,
                gives(Val::Bool(items.len() == 0)),
            )
            &&& set_call(items, "clear"@, Seq::empty(), heap) == (
                Seq::<Val>::empty(),
                gives(Val::Nil),
            )
        }),
{
    lemma_set_names();
    lemma_item_position(items, v);
    lemma_item_position(items, other);
    lemma_item_position(with_item(items, v), other);
    lemma_item_position(without_item(items, v), other);
    law_member_after_adding(items, v, other);
    law_member_after_removing(items, v, other);
}

/// A deque gives its head: `.push` puts a value in front, `.add` at the end, `.pop` and `.poll`
/// take the head away and `.peek` leaves it. On an empty deque `.pop` fails, the others give nil.
pub proof fn law_deque_calls(items: Seq<Val>, v: Val)
    requires
        items.len() <= i64::MAX,
    ensures
        deque_call(items, "push"@, seq![v]) == (seq![v] + items, gives(Val::Nil)),
        deque_call(items, "addFirst"@, seq![v]) == (seq![v] + items, gives(Val::Nil)),
        deque_call(items, "add"@, seq![v]) == (items.push(v), gives(Val::Bool(true))),
        deque_call(items, "addLast"@, seq![v]) == (items.push(v), gives(Val::Bool(true))),
        deque_call(items, "offer"@, seq![v]) == (items.push(v), gives(Val::Bool(true))),
        items.len() > 0 ==> {
            &&& deque_call(items, "pop"@, Seq::empty()) == (items.skip(1), gives(items[0]))
            &&& deque_call(items, "removeFirst"@, Seq::empty()) == (items.skip(1), gives(items[0]))
            &&& deque_call(items, "poll"@, Seq::empty()) == (items.skip(1), gives(items[0]))
            &&& deque_call(items, "pollFirst"@, Seq::empty()) == (items.skip(1), gives(items[0]))
            &&& deque_call(items, "peek"@, Seq::empty()) == (items, gives(items[0]))
            &&& deque_call(items, "peekFirst"@, Seq::empty()) == (items, gives(items[0]))
        },
        items.len() == 0 ==> {
            &&& deque_call(items, "pop"@, Seq::empty()).1 matches Some(Err(_))
            &&& deque_call(items, "poll"@, Seq::empty()) == (items, gives(Val::Nil))
            &&& deque_call(items, "peek"@, Seq::empty()) == (items, gives(Val::Nil))
        },
        deque_call(items, "isEmpty"@, Seq::empty()) == (items, gives(Val::Bool(items.len() == 0))),
        deque_call(items, "size"@, Seq::empty()) == (items, gives(Val::Long(items.len() as i64))),
        deque_call(items, "clear"@, Seq::empty()) == (Seq::<Val>::empty(), gives(Val::Nil)),
{
    lemma_deque_names();
    assert(items.insert(0, v) =~= seq![v] + items);
    if items.len() > 0 {
        assert(items.remove(0) =~= items.skip(1));
    }
}

/// An iterator says whether elements are left, and fails where none is.
pub proof fn law_iterator_ends(items: Seq<Val>)
    ensures
        iterator_call(items, "hasNext"@) == (items, gives(Val::Bool(items.len() > 0))),
        items.len() == 0 ==> iterator_call(items, "next"@).1 matches Some(Err(_)),
{
    lemma_iterator_names();
}

/// A string builder tells its text and length, and cuts its text; a length that is negative or not
/// below its own changes nothing.
pub proof fn law_builder_calls(buf: Seq<char>, n: i64)
    requires
        buf.len() <= i64::MAX,
    ensures
        builder_call(buf, "toString"@, Seq::empty(), Seq::empty()) == (buf, gives(Val::Str(buf))),
        builder_call(buf, "length"@, Seq::empty(), Seq::empty()) == (
            buf,
            gives(Val::Long(buf.len() as i64)),
        ),
        ({
            let cut = builder_call(buf, "setLength"@, seq![Val::Long(n)], seq![Seq::empty()]);
            &&& cut.1 == gives(Val::Nil)
            &&& 0 <= n < buf.len() ==> cut.0 == buf.take(n as int)
            &&& !(0 <= n < buf.len()) ==> cut.0 == buf
        }),
{
    lemma_builder_names();
}

/// `get` on a shim: the value under a key, a member itself, or the element at a position, and nil
/// where there is none.
pub proof fn law_shims_are_looked_up(
    entries: Seq<(Val, Val)>,
    items: Seq<Val>,
    key: Val,
    i: i64,
)
    ensures
        native_get(Native::HashTable(entries), key) == Some(
            match entry_value(entries, key) {
                Some(v) => v,
                None => Val::Nil,
            },
        ),
        native_get(Native::HashItems(items), key) == Some(
            if holds(items, key) {
                key
            } else {
                Val::Nil
            },
        ),
        native_get(Native::ArrayList(items), Val::Long(i)) == Some(
            if 0 <= i < items.len() {
                items[i as int]
            } else {
                Val::Nil
            },
        ),
{
    lemma_item_position(items, key);
}

/// A future gives what was delivered to it, and fails to give anything before; delivering tells
/// whether it was the first time.
pub proof fn law_future_calls(slot: Option<Val>, v: Val)
    ensures
        future_call(slot, "isDone"@, Seq::empty()) == (slot, gives(Val::Bool(slot is Some))),
        slot matches Some(w) ==> future_call(slot, "get"@, Seq::empty()) == (slot, gives(w))
            && future_call(slot, "join"@, Seq::empty()) == (slot, gives(w)) && future_call(
            slot,
            "complete"@,
            seq![v],
        ) == (slot, gives(Val::Bool(false))),
        slot is None ==> (future_call(slot, "get"@, Seq::empty()).1 matches Some(Err(_)))
            && future_call(slot, "complete"@, seq![v]) == (Some(v), gives(Val::Bool(true))),
{
    lemma_future_names();
}

proof fn lemma_future_names()
    ensures
        "complete"@.len() == 8,
        "get"@.len() == 3,
        "join"@.len() == 4,
        "isDone"@.len() == 6,
{
    reveal_strlit("complete");
    reveal_strlit("get");
    reveal_strlit("join");
    reveal_strlit("isDone");
}

/// The elements of a value: those of a sequence, a set or an array, the entries of a map as vectors,
/// the characters of a string, and none of nil; the elements of a shim are what it holds.
pub proof fn law_elements(
    items: Seq<Val>,
    entries: Seq<(Val, Val)>,
    s: Seq<char>,
    longs: Seq<i64>,
    doubles: Seq<u64>,
    heap: Seq<Native>,
    h: u64,
)
    ensures
        seq_items(Val::Nil, heap) == Some(Seq::<Val>::empty()),
        seq_items(Val::List(items), heap) == Some(items),
        seq_items(Val::Vector(items), heap) == Some(items),
        seq_items(Val::HashSet(items), heap) == Some(items),
        seq_items(Val::ObjectArray(items), heap) == Some(items),
        seq_items(Val::HashMap(entries), heap) == Some(
            Seq::new(entries.len(), |i: int| Val::Vector(seq![entries[i].0, entries[i].1])),
        ),
        seq_items(Val::Str(s), heap) matches Some(cs) && cs.len() == s.len() && forall|i: int|
            0 <= i < s.len() ==> #[trigger] cs[i] == Val::Char(s[i]),
        seq_items(Val::LongArray(longs), heap) == Some(
            Seq::new(longs.len(), |i: int| Val::Long(longs[i])),
        ),
        seq_items(Val::DoubleArray(doubles), heap) == Some(
            Seq::new(doubles.len(), |i: int| Val::Double(doubles[i])),
        ),
        h < heap.len() && heap[h as int] == Native::ArrayList(items) ==> seq_items(
            Val::NativeObject(h),
            heap,
        ) == Some(items),
        h < heap.len() && heap[h as int] == Native::HashItems(items) ==> seq_items(
            Val::NativeObject(h),
            heap,
        ) == Some(items),
        h >= heap.len() ==> seq_items(Val::NativeObject(h), heap) is None,
{
    assert(crate::javamap::entry_vectors(entries) =~= Seq::new(
        entries.len(),
        |i: int| Val::Vector(seq![entries[i].0, entries[i].1]),
    ));
    assert(longs.map_values(|n: i64| Val::Long(n)) =~= Seq::new(
        longs.len(),
        |i: int| Val::Long(longs[i]),
    ));
    assert(doubles.map_values(|d: u64| Val::Double(d)) =~= Seq::new(
        doubles.len(),
        |i: int| Val::Double(doubles[i]),
    ));
}

/// What a string builder takes from its arguments, one after the other: a string or a character
/// itself, nothing of nil, and any other value as it prints.
pub proof fn law_appended_contents(args: Seq<Val>, v: Val, printed: Seq<Seq<char>>, p: Seq<char>)
    requires
        printed.len() == args.len(),
    ensures
        contents(args.push(v), printed.push(p)) == contents(args, printed) + (match v {
            Val::Nil => Seq::empty(),
            Val::Str(s) => s,
            Val::Char(c) => seq![c],
            _ => p,
        }),
    decreases args.len(),
{
    assert(args.push(v).drop_last() =~= args);
    lemma_contents_take(args, printed, p);
}

proof fn lemma_contents_take(args: Seq<Val>, printed: Seq<Seq<char>>, p: Seq<char>)
    requires
        printed.len() >= args.len(),
    ensures
        contents(args, printed.push(p)) == contents(args, printed),
    decreases args.len(),
{
    if args.len() > 0 {
        lemma_contents_take(args.drop_last(), printed, p);
        assert(printed.push(p)[args.len() - 1] == printed[args.len() - 1]);
    }
}

/// A method call changes the object that it is made on, and no other.
pub proof fn law_calls_spare_other_objects(
    before: Seq<Native>,
    h: int,
    method: Seq<char>,
    args: Seq<Val>,
    printed: Seq<Seq<char>>,
    after: Seq<Native>,
    result: Option<Result<Val, crate::value::Failure>>,
    i: int,
)
    requires
        call_effect(before, h, method, args, printed, after, result),
        0 <= h < before.len(),
        0 <= i < before.len(),
        i != h,
    ensures
        after.len() >= before.len(),
        after[i] == before[i],
{
}

proof fn lemma_formatter_names()
    ensures
        "appendPattern"@.len() == 13,
        "appendPattern"@[0] == 'a',
        "appendPattern"@[6] == 'P',
        "optionalStart"@.len() == 13,
        "optionalStart"@[0] == 'o',
        "optionalEnd"@.len() == 11,
        "optionalEnd"@[0] == 'o',
        "appendFraction"@.len() == 14,
        "appendOffset"@.len() == 12,
        "appendOffset"@[0] == 'a',
        "parseDefaulting"@.len() == 15,
        "toFormatter"@.len() == 11,
        "toFormatter"@[0] == 't',
        "withZone"@.len() == 8,
        "appendValue"@.len() == 11,
        "appendValue"@[0] == 'a',
        "appendLiteral"@.len() == 13,
        "appendLiteral"@[0] == 'a',
        "appendLiteral"@[6] == 'L',
        "parseLenient"@.len() == 12,
        "parseLenient"@[0] == 'p',
        "parseStrict"@.len() == 11,
        "parseStrict"@[0] == 'p',
        "parse"@.len() == 5,
        "format"@.len() == 6,
{
    reveal_strlit("appendPattern");
    reveal_strlit("optionalStart");
    reveal_strlit("optionalEnd");
    reveal_strlit("appendFraction");
    reveal_strlit("appendOffset");
    reveal_strlit("parseDefaulting");
    reveal_strlit("toFormatter");
    reveal_strlit("withZone");
    reveal_strlit("appendValue");
    reveal_strlit("appendLiteral");
    reveal_strlit("parseLenient");
    reveal_strlit("parseStrict");
    reveal_strlit("parse");
    reveal_strlit("format");
}

/// The methods that configure a formatter; parsing and formatting are none of them.
pub proof fn law_formatter_chain()
    ensures
        is_chain_method("appendPattern"@),
        is_chain_method("optionalStart"@),
        is_chain_method("optionalEnd"@),
        is_chain_method("appendFraction"@),
        is_chain_method("appendOffset"@),
        is_chain_method("parseDefaulting"@),
        is_chain_method("toFormatter"@),
        is_chain_method("withZone"@),
        is_chain_method("appendValue"@),
        is_chain_method("appendLiteral"@),
        is_chain_method("parseLenient"@),
        is_chain_method("parseStrict"@),
        !is_chain_method("parse"@),
        !is_chain_method("format"@),
{
    lemma_formatter_names();
}

/// A formatter reads the instant that a text writes, and fails on any other text or value.
pub proof fn law_formatter_reads(s: Seq<char>, v: Val)
    ensures
        inst_millis(encode_utf8(s)) matches Some(ms) ==> formatter_parse(seq![Val::Str(s)])
            == gives(Val::Instant(ms as i64)),
        inst_millis(encode_utf8(s)) is None ==> (formatter_parse(seq![Val::Str(s)]) matches Some(
            Err(_),
        )),
        !(v is Str) ==> (formatter_parse(seq![v]) matches Some(Err(_))),
        formatter_parse(Seq::empty()) matches Some(Err(_)),
{
}

} // verus!
