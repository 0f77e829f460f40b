//! What holds of a store over its life: whatever calls brought it to where it is.

use vstd::prelude::*;
use crate::bytes::lex_lt;
use crate::codec::{storable, Datum};
use crate::store_laws::{
    admissible, aid_room, collision_free, empty_db, encodable, fits_pattern, has_datom, held_after,
    keeps_many, keyed, op_value, reopened, sound,
};
use crate::store_laws::{
    law_attr_scan_key_order, law_empty_is_sound, law_intern, law_intern_keeps_datoms,
    law_intern_keeps_largest, law_reopen, law_reopened, law_search, law_transact,
};
use crate::store_model::{
    find_attr, intern, max_added, searched, stored_max_eid, transacted, AttrProps, DatomView, Db,
    Fault, OpView,
};

verus! {

/// What is done to a store.
pub enum Step {
    /// `set_attr`.
    Declare { name: Seq<char>, props: AttrProps },
    /// `transact`.
    Transact { ops: Seq<OpView> },
    /// The store is closed, and opened over its tables.
    Reopen,
}

/// The state after a step; one that fails changes nothing.
pub open spec fn stepped(db: Db, step: Step) -> Db {
    match step {
        Step::Declare { name, props } => match intern(db, name, Some(props)) {
            Ok((next, _, _)) => next,
            Err(_) => db,
        },
        Step::Transact { ops } => match transacted(db, ops) {
            Ok(next) => next,
            Err(_) => db,
        },
        Step::Reopen => reopened(db),
    }
}

/// The state of a new store after some steps.
pub open spec fn reached(steps: Seq<Step>) -> Db
    decreases steps.len(),
{
    if steps.len() == 0 {
        empty_db()
    } else {
        stepped(reached(steps.drop_last()), steps.last())
    }
}

/// Every step finds ids left, and no two giants share a digest.
pub open spec fn orderly(steps: Seq<Step>) -> bool
    decreases steps.len(),
{
    steps.len() > 0 ==> {
        &&& orderly(steps.drop_last())
        &&& match steps.last() {
            Step::Declare { .. } => aid_room(reached(steps.drop_last()).ix),
            Step::Transact { ops } => admissible(reached(steps.drop_last()), ops),
            Step::Reopen => true,
        }
    }
}

/// A transaction goes through: every value can be stored.
pub open spec fn goes_through(ops: Seq<OpView>) -> bool {
    forall|i: int| 0 <= i < ops.len() ==> encodable(op_value(#[trigger] ops[i]))
}

/// Whether an attribute keeps every value, as it was last declared.
pub open spec fn declared_many(steps: Seq<Step>, a: Seq<char>) -> bool
    decreases steps.len(),
{
    steps.len() > 0 && match steps.last() {
        Step::Declare { name, props } => if name == a {
            props.cardinality_many
        } else {
            declared_many(steps.drop_last(), a)
        },
        _ => declared_many(steps.drop_last(), a),
    }
}

/// Whether a datom is asserted after some operations, told from whether it was before: an add
/// brings its datom, and drops every other value of its entity where the attribute keeps but one;
/// a retract drops its datom.
pub open spec fn told(before: bool, many: bool, ops: Seq<OpView>, d: DatomView) -> bool
    decreases ops.len(),
{
    if ops.len() == 0 {
        before
    } else {
        let held = told(before, many, ops.drop_last(), d);
        match ops.last() {
            OpView::Add { e, a, v } => d == (DatomView { e, a, v }) || (held && !(d.e == e && d.a
                == a && !many)),
            OpView::Retract { e, a, v } => held && d != (DatomView { e, a, v }),
        }
    }
}

/// Whether a datom is asserted after some steps: only transactions that go through count.
pub open spec fn asserted(steps: Seq<Step>, d: DatomView) -> bool
    decreases steps.len(),
{
    steps.len() > 0 && match steps.last() {
        Step::Transact { ops } => if goes_through(ops) {
            told(
                asserted(steps.drop_last(), d),
                declared_many(steps.drop_last(), d.a),
                ops,
                d,
            )
        } else {
            asserted(steps.drop_last(), d)
        },
        _ => asserted(steps.drop_last(), d),
    }
}

/// The largest entity id that was added; zero where none was.
pub open spec fn largest(steps: Seq<Step>) -> u64
    decreases steps.len(),
{
    if steps.len() == 0 {
        0
    } else {
        match steps.last() {
            Step::Transact { ops } => if goes_through(ops) {
                max_added(largest(steps.drop_last()), ops)
            } else {
                largest(steps.drop_last())
            },
            _ => largest(steps.drop_last()),
        }
    }
}

/// What operations tell of a datom does not depend on other datoms.
proof fn lemma_told(db: Db, ops: Seq<OpView>, d: DatomView)
    ensures
        held_after(db, ops, d) == told(has_datom(db, d), keeps_many(db.attrs, d.a), ops, d),
    decreases ops.len(),
{
    if ops.len() > 0 {
        lemma_told(db, ops.drop_last(), d);
    }
}

/// The properties of attributes survive a transaction.
proof fn lemma_transact_keeps_many(db: Db, ops: Seq<OpView>)
    requires
        sound(db),
        admissible(db, ops),
    ensures
        transacted(db, ops) matches Ok(next) ==> forall|a: Seq<char>| #[trigger]
            keeps_many(next.attrs, a) == keeps_many(db.attrs, a),
{
    crate::store_laws::law_apply_all(db, ops);
}

/// Whatever was done to a new store, its state is sound, it holds exactly the datoms that the steps
/// assert, its attributes are as they were declared last, and it knows the largest entity id that
/// was ever added.
pub proof fn law_history(steps: Seq<Step>)
    requires
        orderly(steps),
    ensures
        sound(reached(steps)),
        forall|d: DatomView| #[trigger] has_datom(reached(steps), d) <==> asserted(steps, d),
        forall|a: Seq<char>| #[trigger]
            keeps_many(reached(steps).attrs, a) == declared_many(steps, a),
        stored_max_eid(reached(steps).ix.meta) == largest(steps),
    decreases steps.len(),
{
    if steps.len() == 0 {
        law_empty_is_sound();
    } else {
        let init = steps.drop_last();
        let db = reached(init);
        let next = reached(steps);
        law_history(init);
        match steps.last() {
            Step::Declare { name, props } => {
                law_intern(db, name, Some(props));
                law_intern_keeps_largest(db, name, Some(props));
                assert forall|d: DatomView| #[trigger] has_datom(next, d) <==> asserted(
                    steps,
                    d,
                ) by {
                    law_intern_keeps_datoms(db, name, Some(props), d);
                    assert(has_datom(db, d) <==> asserted(init, d));
                }
                assert forall|a: Seq<char>| #[trigger]
                    keeps_many(next.attrs, a) == declared_many(steps, a) by {
                    assert(keeps_many(db.attrs, a) == declared_many(init, a));
                    if a != name {
                        assert(find_attr(next.attrs, a) == find_attr(db.attrs, a));
                    }
                }
            },
            Step::Transact { ops } => {
                law_transact(db, ops);
                lemma_transact_keeps_many(db, ops);
                assert(transacted(db, ops) is Ok <==> goes_through(ops));
                assert forall|d: DatomView| #[trigger] has_datom(next, d) <==> asserted(
                    steps,
                    d,
                ) by {
                    lemma_told(db, ops, d);
                    assert(has_datom(db, d) <==> asserted(init, d));
                    assert(keeps_many(db.attrs, d.a) == declared_many(init, d.a));
                }
                assert forall|a: Seq<char>| #[trigger]
                    keeps_many(next.attrs, a) == declared_many(steps, a) by {
                    assert(keeps_many(db.attrs, a) == declared_many(init, a));
                }
            },
            Step::Reopen => {
                law_reopened(db);
                assert forall|d: DatomView| #[trigger] has_datom(next, d) <==> asserted(
                    steps,
                    d,
                ) by {
                    assert(has_datom(db, d) <==> asserted(init, d));
                }
                assert forall|a: Seq<char>| #[trigger]
                    keeps_many(next.attrs, a) == declared_many(steps, a) by {
                    assert(keeps_many(db.attrs, a) == declared_many(init, a));
                    assert(find_attr(next.attrs, a) == find_attr(db.attrs, a));
                }
            },
        }
    }
}

/// An entity id was added by a transaction that went through.
pub open spec fn was_added(steps: Seq<Step>, e: u64) -> bool {
    exists|k: int, i: int| #[trigger] adds_at(steps, k, i, e)
}

/// Operation `i` of step `k` adds a datom of the entity, and its transaction went through.
pub open spec fn adds_at(steps: Seq<Step>, k: int, i: int, e: u64) -> bool {
    0 <= k < steps.len() && (steps[k] matches Step::Transact { ops } && goes_through(ops) && 0 <= i
        < ops.len() && (ops[i] matches OpView::Add { e: f, .. } && f == e))
}

/// The largest of a start and the entity ids that are added is one of them, and none is larger.
proof fn lemma_max_added(start: u64, ops: Seq<OpView>)
    ensures
        max_added(start, ops) >= start,
        forall|i: int|
            0 <= i < ops.len() && (#[trigger] ops[i]) is Add ==> ops[i]->Add_e <= max_added(
                start,
                ops,
            ),
        max_added(start, ops) == start || exists|i: int|
            0 <= i < ops.len() && (#[trigger] ops[i]) is Add && ops[i]->Add_e == max_added(
                start,
                ops,
            ),
    decreases ops.len(),
{
    if ops.len() > 0 {
        let init = ops.drop_last();
        lemma_max_added(start, init);
        let top = max_added(start, ops);
        assert forall|i: int| 0 <= i < ops.len() && (#[trigger] ops[i]) is Add implies ops[i]->Add_e
            <= top by {
            if i < init.len() {
                assert(init[i] == ops[i]);
            }
        }
        if top != start {
            if top == max_added(start, init) {
                let i = choose|i: int|
                    0 <= i < init.len() && (#[trigger] init[i]) is Add && init[i]->Add_e == top;
                assert(ops[i] == init[i]);
            } else {
                assert(ops[ops.len() - 1] is Add);
            }
        }
    }
}

/// The largest entity id is one that was added, or zero where none was; none that was added is
/// larger, retracted since or not.
pub proof fn law_largest_added(steps: Seq<Step>)
    ensures
        forall|e: u64| #[trigger] was_added(steps, e) ==> e <= largest(steps),
        was_added(steps, largest(steps)) || (largest(steps) == 0 && forall|e: u64|
            #[trigger] was_added(steps, e) ==> e == 0),
    decreases steps.len(),
{
    if steps.len() > 0 {
        let init = steps.drop_last();
        let last = steps.len() - 1;
        law_largest_added(init);
        if let Step::Transact { ops } = steps.last() {
            lemma_max_added(largest(init), ops);
        }
        assert forall|e: u64| #[trigger] was_added(steps, e) implies e <= largest(steps) by {
            let (k, i) = choose|k: int, i: int| #[trigger] adds_at(steps, k, i, e);
            if k < last {
                assert(adds_at(init, k, i, e));
                assert(was_added(init, e));
            } else {
                let ops = steps.last()->Transact_ops;
                assert(ops[i] is Add);
            }
        }
        if was_added(init, largest(init)) {
            let (k, i) = choose|k: int, i: int| #[trigger] adds_at(init, k, i, largest(init));
            assert(adds_at(steps, k, i, largest(init)));
        }
        if largest(steps) != largest(init) {
            let ops = steps.last()->Transact_ops;
            let i = choose|i: int|
                0 <= i < ops.len() && (#[trigger] ops[i]) is Add && ops[i]->Add_e == largest(steps);
            assert(adds_at(steps, last, i, largest(steps)));
        }
    }
}

/// In every state that a store is brought to, a search finds exactly the asserted datoms that the
/// pattern fits, each once; an attribute that was never declared or used gives none.
pub proof fn law_search_finds_what_is_asserted(
    steps: Seq<Step>,
    e: Option<u64>,
    a: Option<Seq<char>>,
    v: Option<Datum>,
)
    requires
        orderly(steps),
        v matches Some(w) ==> storable(w) && encodable(w) && collision_free(reached(steps).ix, w),
    ensures
        searched(reached(steps), e, a, v) matches Ok(ds) && {
            &&& ds.no_duplicates()
            &&& forall|d: DatomView| #[trigger]
                ds.contains(d) <==> (asserted(steps, d) && fits_pattern(e, a, v, d))
            &&& a matches Some(n) ==> find_attr(reached(steps).attrs, n) is None ==> ds.len()
                == 0
        },
{
    let db = reached(steps);
    law_history(steps);
    law_search(db, e, a, v);
    let ds = searched(db, e, a, v)->Ok_0;
    assert forall|d: DatomView| #[trigger] ds.contains(d) <==> (asserted(steps, d) && fits_pattern(
        e,
        a,
        v,
        d,
    )) by {
        assert(has_datom(db, d) <==> asserted(steps, d));
    }
    if let Some(n) = a {
        if find_attr(db.attrs, n) is None && ds.len() > 0 {
            assert(ds.contains(ds[0]));
            assert(has_datom(db, ds[0]));
        }
    }
}

/// In every state that a store is brought to, an attribute's datoms are found in the order of their
/// values' key forms, and those of one value in the order of the entities.
pub proof fn law_search_ascends(steps: Seq<Step>, a: Seq<char>, i: int, j: int)
    requires
        orderly(steps),
        searched(reached(steps), None, Some(a), None) matches Ok(ds) && 0 <= i < j < ds.len(),
    ensures
        searched(reached(steps), None, Some(a), None) matches Ok(ds) && exists|
            x: Seq<u8>,
            y: Seq<u8>,
        |
            #![trigger keyed(reached(steps).ix, ds[i].v, x), keyed(reached(steps).ix, ds[j].v, y)]
            keyed(reached(steps).ix, ds[i].v, x) && keyed(reached(steps).ix, ds[j].v, y) && (lex_lt(
                x,
                y,
            ) || (x == y && ds[i].v == ds[j].v && ds[i].e < ds[j].e)),
{
    law_history(steps);
    law_attr_scan_key_order(reached(steps), a, i, j);
}

/// One operation, as a transaction.
pub open spec fn one(op: OpView) -> Step {
    Step::Transact { ops: seq![op] }
}

/// Where an attribute keeps one value, a second add replaces the first: the entity then has the
/// second value alone, no search finds the first, and the datoms of every other entity or
/// attribute are as they were.
pub proof fn law_add_replaces(
    steps: Seq<Step>,
    e: u64,
    a: Seq<char>,
    v1: Datum,
    v2: Datum,
    f: Option<u64>,
    b: Option<Seq<char>>,
    w: Option<Datum>,
)
    requires
        orderly(
            steps.push(one(OpView::Add { e, a, v: v1 })).push(one(OpView::Add { e, a, v: v2 })),
        ),
        !declared_many(steps, a),
        v1 != v2,
        encodable(v1),
        encodable(v2),
        w matches Some(x) ==> storable(x) && encodable(x) && collision_free(
            reached(
                steps.push(one(OpView::Add { e, a, v: v1 })).push(one(OpView::Add { e, a, v: v2 })),
            ).ix,
            x,
        ),
    ensures
        ({
            let after = steps.push(one(OpView::Add { e, a, v: v1 })).push(
                one(OpView::Add { e, a, v: v2 }),
            );
            &&& searched(reached(after), Some(e), Some(a), None) == Ok::<Seq<DatomView>, Fault>(
                seq![DatomView { e, a, v: v2 }],
            )
            &&& searched(reached(after), f, b, w) matches Ok(ds) && !ds.contains(
                DatomView { e, a, v: v1 },
            )
            &&& forall|d: DatomView|
                !(d.e == e && d.a == a) ==> #[trigger] asserted(after, d) == asserted(steps, d)
        }),
{
    let first = OpView::Add { e, a, v: v1 };
    let second = OpView::Add { e, a, v: v2 };
    let mid = steps.push(one(first));
    let after = mid.push(one(second));
    assert(mid.drop_last() =~= steps);
    assert(after.drop_last() =~= mid);
    assert(goes_through(seq![first]));
    assert(goes_through(seq![second]));
    assert(declared_many(mid, a) == declared_many(steps, a));
    assert forall|d: DatomView| #[trigger] asserted(after, d) == (d == (DatomView {
        e,
        a,
        v: v2,
    }) || (asserted(steps, d) && !(d.e == e && d.a == a))) by {
        lemma_told_once(asserted(steps, d), declared_many(steps, d.a), first, d);
        lemma_told_once(asserted(mid, d), declared_many(mid, d.a), second, d);
        assert(declared_many(mid, d.a) == declared_many(steps, d.a));
    }
    law_search_finds_what_is_asserted(after, Some(e), Some(a), None);
    law_search_finds_what_is_asserted(after, f, b, w);
    let d2 = DatomView { e, a, v: v2 };
    let d1 = DatomView { e, a, v: v1 };
    assert(!asserted(after, d1));
    let ds = searched(reached(after), Some(e), Some(a), None)->Ok_0;
    assert(asserted(after, d2));
    assert(ds.contains(d2));
    assert forall|i: int| 0 <= i < ds.len() implies ds[i] == d2 by {
        assert(ds.contains(ds[i]));
        assert(asserted(after, ds[i]));
    }
    if ds.len() > 1 {
        assert(ds[0] == ds[1]);
    }
    assert(ds =~= seq![d2]);
}

proof fn lemma_told_once(before: bool, many: bool, op: OpView, d: DatomView)
    ensures
        told(before, many, seq![op], d) == (match op {
            OpView::Add { e, a, v } => d == (DatomView { e, a, v }) || (before && !(d.e == e && d.a
                == a && !many)),
            OpView::Retract { e, a, v } => before && d != (DatomView { e, a, v }),
        }),
{
    reveal_with_fuel(told, 2);
    assert(seq![op].drop_last() =~= Seq::empty());
    assert(seq![op].last() == op);
}

/// A new store starts at the state that no step has touched.
pub proof fn law_store_starts_new(flags: crate::lmdb::EnvFlags)
    requires
        (flags.0 | crate::lmdb::MDB_NOTLS) & crate::lmdb::MDB_RDONLY == 0,
    ensures
        crate::store::opened_store(Seq::empty(), flags) == Ok::<Db, Fault>(reached(Seq::empty())),
{
    crate::store::law_new_store(flags);
}

/// A store that some steps brought to where it is opens again where one more step, reopening, would
/// bring it.
pub proof fn law_store_reopens(
    store: crate::store::Store,
    image: Seq<crate::lmdb::Table>,
    flags: crate::lmdb::EnvFlags,
    steps: Seq<Step>,
)
    requires
        orderly(steps),
        store.wf(),
        store.db() == reached(steps),
        store.has_image(image),
        (flags.0 | crate::lmdb::MDB_NOTLS) & crate::lmdb::MDB_RDONLY == 0,
    ensures
        crate::store::opened_store(image, flags) == Ok::<Db, Fault>(
            reached(steps.push(Step::Reopen)),
        ),
        orderly(steps.push(Step::Reopen)),
{
    law_history(steps);
    law_reopen(store, image, flags);
    assert(steps.push(Step::Reopen).drop_last() =~= steps);
}

} // verus!
