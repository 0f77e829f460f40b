//! The small map: its entries in a row, promoted to a hash map when there are too many.

use vstd::prelude::*;
use crate::hash_map::{distinct_keys, key_position, with_entries, with_entry};
use crate::hash_map::{lemma_key_position, lemma_position_of, law_binding_keeps_keys_distinct};
use crate::hash_map::PersistentHashMap;
use crate::value::{equal, pairs_copy, Value};
use crate::value::{pair_vals, same, Val};

verus! {

/// The number of entries up to which a map stays an array map.
pub const ARRAY_MAP_THRESHOLD: usize = 8;

/// A map of few entries, in insertion order.
#[derive(Debug)]
pub struct PersistentArrayMap {
    pairs: Vec<(Value, Value)>,
}

/// The map after an association: still small, or promoted.
#[derive(Debug)]
pub enum AssocResult {
    Array(PersistentArrayMap),
    Promoted(PersistentHashMap),
}

impl PersistentArrayMap {
    /// The entries in insertion order.
    pub closed spec fn view(&self) -> Seq<(Val, Val)> {
        pair_vals(self.pairs@)
    }

    #[verifier::type_invariant]
    spec fn sound(&self) -> bool {
        &&& distinct_keys(pair_vals(self.pairs@))
        &&& self.pairs@.len() <= ARRAY_MAP_THRESHOLD
    }

    pub fn empty() -> (r: Self)
        ensures
            r.view().len() == 0,
    {
        PersistentArrayMap { pairs: Vec::new() }
    }

    /// The position of the entry whose key equals `key`.
    fn position(&self, key: &Value) -> (r: Option<usize>)
        ensures
            (match r {
                Some(i) => Some(i as int),
                None => None,
            }) == key_position(self.view(), key.view()),
    {
        proof {
            use_type_invariant(self);
        }
        for i in 0..self.pairs.len()
            invariant
                self.view() == pair_vals(self.pairs@),
                distinct_keys(self.view()),
                forall|j: int| 0 <= j < i ==> !same((#[trigger] self.view()[j]).0, key.view()),
        {
            if equal(&self.pairs[i].0, key) {
                proof {
                    assert(same(self.view()[i as int].0, key.view()));
                    lemma_position_of(self.view(), key.view(), i as int);
                }
                return Some(i);
            }
        }
        proof {
            lemma_key_position(self.view(), key.view());
        }
        None
    }

    /// A map with `key` bound to `value`; a ninth entry promotes it.
    pub fn assoc(&self, key: Value, value: Value) -> (r: AssocResult)
        ensures
            match r {
                AssocResult::Array(m) => m.view() == with_entry(
                    self.view(),
                    key.view(),
                    value.view(),
                ),
                AssocResult::Promoted(m) => m.view() == with_entry(
                    with_entries(Seq::empty(), self.view()),
                    key.view(),
                    value.view(),
                ),
            },
            r is Promoted <==> self.view().len() == ARRAY_MAP_THRESHOLD && key_position(
                self.view(),
                key.view(),
            ) is None,
    {
        proof {
            use_type_invariant(self);
            law_binding_keeps_keys_distinct(self.view(), key.view(), value.view());
            lemma_key_position(self.view(), key.view());
        }
        let ghost entry = (key.view(), value.view());
        let found = self.position(&key);
        let mut pairs = pairs_copy(&self.pairs);
        match found {
            Some(i) => {
                pairs.set(i, (key, value));
                assert(pair_vals(pairs@) =~= self.view().update(i as int, entry));
                AssocResult::Array(PersistentArrayMap { pairs })
            },
            None => if pairs.len() < ARRAY_MAP_THRESHOLD {
                pairs.push((key, value));
                assert(pair_vals(pairs@) =~= self.view().push(entry));
                AssocResult::Array(PersistentArrayMap { pairs })
            } else {
                AssocResult::Promoted(PersistentHashMap::from_pairs(pairs).assoc(key, value))
            },
        }
    }

    /// A copy of the entries, in insertion order.
    pub fn entries(&self) -> (r: Vec<(Value, Value)>)
        ensures
            pair_vals(r@) == self.view(),
    {
        pairs_copy(&self.pairs)
    }
}

impl PersistentHashMap {
    /// Promote from an array map when the threshold is exceeded.
    pub fn from_array_map(am: &PersistentArrayMap) -> (r: Self)
        ensures
            r.view() == with_entries(Seq::empty(), am.view()),
            distinct_keys(r.view()),
            r.issued() <= am.view().len(),
    {
        PersistentHashMap::from_pairs(am.entries())
    }
}

} // verus!
