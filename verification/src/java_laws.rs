//! What calls on the shims have to do with each other.

use vstd::prelude::*;
use crate::hash_map::{distinct_keys, entry_value, key_position, lemma_key_position, lemma_position_of};
use crate::javamap::{
    builder_call, deque_call, future_call, gives, iterator_call, list_call, map_call, Native,
};
use crate::tables::rebound;
use crate::value::{law_same_symmetric, law_same_transitive, same, Val};

verus! {

/// Binding a key in a table keeps the keys distinct.
pub proof fn law_rebinding_keeps_keys_distinct(entries: Seq<(Val, Val)>, key: Val, value: Val)
    requires
        distinct_keys(entries),
    ensures
        distinct_keys(rebound(entries, key, value)),
{
    lemma_key_position(entries, key);
    let after = rebound(entries, key, value);
    assert forall|i: int, j: int| 0 <= i < j < after.len() implies !same(
        (#[trigger] after[i]).0,
        (#[trigger] after[j]).0,
    ) by {
        assert(i < entries.len() && after[i].0 == entries[i].0);
        if j < entries.len() {
            assert(after[j].0 == entries[j].0);
        }
    }
}

/// What was bound in a table is read back: the value under the bound key, any other key as before.
pub proof fn law_lookup_after_rebinding(
    entries: Seq<(Val, Val)>,
    key: Val,
    value: Val,
    other: Val,
)
    requires
        distinct_keys(entries),
    ensures
        entry_value(rebound(entries, key, value), other) == if same(key, other) {
            Some(value)
        } else {
            entry_value(entries, other)
        },
{
    let after = rebound(entries, key, value);
    law_rebinding_keeps_keys_distinct(entries, key, value);
    lemma_key_position(entries, key);
    lemma_key_position(entries, other);
    lemma_key_position(after, other);
    if same(key, other) {
        match key_position(entries, key) {
            Some(i) => {
                law_same_transitive(entries[i].0, key, other);
                assert(after[i].0 == entries[i].0);
                lemma_position_of(after, other, i);
            },
            None => {
                assert(after[entries.len() as int] == (key, value));
                lemma_position_of(after, other, entries.len() as int);
            },
        }
    } else {
        match key_position(entries, other) {
            Some(i) => {
                if key_position(entries, key) == Some(i) {
                    law_same_symmetric(entries[i].0, key);
                    law_same_transitive(key, entries[i].0, other);
                }
                assert(after[i] == entries[i]);
                lemma_position_of(after, other, i);
            },
            None => {
                if key_position(after, other) is Some {
                    let j = key_position(after, other)->0;
                    if j < entries.len() {
                        assert(after[j].0 == entries[j].0);
                    }
                }
            },
        }
    }
}

/// A map's `.get` gives back what `.put` put under an equal key.
pub proof fn law_put_then_get(
    entries: Seq<(Val, Val)>,
    key: Val,
    value: Val,
    other: Val,
    heap: Seq<Native>,
)
    requires
        distinct_keys(entries),
        same(key, other),
    ensures
        map_call(
            map_call(entries, "put"@, seq![key, value], heap).0,
            "get"@,
            seq![other],
            heap,
        ).1 == gives(value),
{
    reveal_strlit("put");
    reveal_strlit("get");
    assert("put"@[0] == 'p' && "get"@[0] == 'g');
    law_lookup_after_rebinding(entries, key, value, other);
}

/// A list's `.get` gives back what `.set` set at the same index.
pub proof fn law_set_then_get(items: Seq<Val>, i: i64, value: Val, heap: Seq<Native>)
    requires
        0 <= i < items.len(),
    ensures
        list_call(
            list_call(items, "set"@, seq![Val::Long(i), value], heap).0,
            "get"@,
            seq![Val::Long(i)],
            heap,
        ).1 == gives(value),
{
    reveal_strlit("set");
    reveal_strlit("get");
    reveal_strlit("add");
    reveal_strlit("addAll");
    assert("set"@[0] == 's' && "get"@[0] == 'g' && "add"@[0] == 'a' && "addAll"@.len() == 6);
}

/// A deque is a stack: `.pop` gives back what `.push` pushed, and leaves what was there before.
pub proof fn law_push_then_pop(items: Seq<Val>, value: Val)
    ensures
        deque_call(deque_call(items, "push"@, seq![value]).0, "pop"@, Seq::empty()) == (
            items,
            gives(value),
        ),
{
    reveal_strlit("push");
    reveal_strlit("pop");
    reveal_strlit("add");
    reveal_strlit("addFirst");
    reveal_strlit("addLast");
    reveal_strlit("offer");
    assert("pop"@.len() == 3 && "add"@.len() == 3 && "pop"@[0] == 'p' && "add"@[0] == 'a');
    assert("push"@.len() == 4 && "addFirst"@.len() == 8 && "addLast"@.len() == 7 && "offer"@.len()
        == 5);
    assert(items.insert(0, value).remove(0) =~= items);
}

/// A future is delivered once: what was delivered first stays.
pub proof fn law_delivered_once(first: Val, second: Val)
    ensures
        ({
            let once = future_call(None, "complete"@, seq![first]);
            let twice = future_call(once.0, "complete"@, seq![second]);
            &&& once.1 == gives(Val::Bool(true))
            &&& twice.1 == gives(Val::Bool(false))
            &&& future_call(twice.0, "get"@, Seq::empty()).1 == gives(first)
        }),
{
    reveal_strlit("complete");
    reveal_strlit("get");
    assert("complete"@.len() == 8 && "get"@.len() == 3);
}

/// An iterator yields the elements in order: after `.next` the rest is left.
pub proof fn law_iterator_yields_in_order(items: Seq<Val>)
    requires
        items.len() > 0,
    ensures
        iterator_call(items, "next"@) == (items.skip(1), gives(items[0])),
{
    reveal_strlit("next");
    reveal_strlit("hasNext");
    assert("next"@.len() == 4 && "hasNext"@.len() == 7);
    assert(items.remove(0) =~= items.skip(1));
}

/// A string builder holds what was appended to it.
pub proof fn law_append_then_read(buf: Seq<char>, text: Seq<char>)
    ensures
        builder_call(
            builder_call(buf, "append"@, seq![Val::Str(text)], seq![Seq::empty()]).0,
            "toString"@,
            Seq::empty(),
            Seq::empty(),
        ).1 == gives(Val::Str(buf + text)),
{
    reveal_strlit("append");
    reveal_strlit("toString");
    assert("append"@.len() == 6 && "toString"@.len() == 8);
    let args = seq![Val::Str(text)];
    let printed = seq![Seq::<char>::empty()];
    assert(args.drop_last() =~= Seq::empty());
    assert(crate::javamap::contents(args.drop_last(), printed) =~= Seq::empty());
    assert(crate::javamap::contents(args, printed) =~= text);
}

} // verus!
