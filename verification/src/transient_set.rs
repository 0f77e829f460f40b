//! A set under construction: it takes elements in place until it is made persistent, once.

use vstd::prelude::*;
use crate::hash_set::{with_item, without_item};
use crate::hash_set::PersistentHashSet;
use crate::value::Val;
use crate::value::{Value, ValueError, ValueResult};

verus! {

#[derive(Debug)]
pub struct TransientSet {
    set: PersistentHashSet,
    persisted: bool,
}

impl TransientSet {
    /// The elements in insertion order.
    pub closed spec fn view(&self) -> Seq<Val> {
        self.set.view()
    }

    /// How many sequence numbers were given out.
    pub closed spec fn issued(&self) -> nat {
        self.set.issued()
    }

    /// The set was made persistent, and takes no more changes.
    pub closed spec fn persisted(&self) -> bool {
        self.persisted
    }

    pub fn new() -> (r: Self)
        ensures
            r.view().len() == 0,
            r.issued() == 0,
            !r.persisted(),
    {
        TransientSet { set: PersistentHashSet::empty(), persisted: false }
    }

    pub fn new_from_set(set: &PersistentHashSet) -> (r: TransientSet)
        ensures
            r.view() == set.view(),
            r.issued() == set.issued(),
            !r.persisted(),
    {
        TransientSet { set: set.clone(), persisted: false }
    }

    pub fn conj(&mut self, value: Value) -> (r: ValueResult<()>)
        requires
            old(self).issued() < u64::MAX,
        ensures
            match r {
                Ok(_) => !old(self).persisted() && final(self).view() == with_item(
                    old(self).view(),
                    value.view(),
                ),
                Err(e) => old(self).persisted() && e.view() is TransientAlreadyPersisted
                    && final(self).view() == old(self).view(),
            },
            old(self).issued() <= final(self).issued() <= old(self).issued() + 1,
            final(self).persisted() == old(self).persisted(),
    {
        if self.persisted {
            return Err(ValueError::TransientAlreadyPersisted);
        }
        self.set.conj_mut(value);
        Ok(())
    }

    pub fn disj(&mut self, value: &Value) -> (r: ValueResult<()>)
        ensures
            match r {
                Ok(_) => !old(self).persisted() && final(self).view() == without_item(
                    old(self).view(),
                    value.view(),
                ),
                Err(e) => old(self).persisted() && e.view() is TransientAlreadyPersisted
                    && final(self).view() == old(self).view(),
            },
            final(self).issued() == old(self).issued(),
            final(self).persisted() == old(self).persisted(),
    {
        if self.persisted {
            return Err(ValueError::TransientAlreadyPersisted);
        }
        self.set = self.set.disj(value);
        Ok(())
    }

    /// The finished set; a second call fails.
    pub fn persistent(&mut self) -> (r: ValueResult<PersistentHashSet>)
        ensures
            match r {
                Ok(s) => !old(self).persisted() && s.view() == old(self).view() && s.issued()
                    == old(self).issued(),
                Err(e) => old(self).persisted() && e.view() is TransientAlreadyPersisted,
            },
            final(self).persisted(),
            final(self).view() == old(self).view(),
            final(self).issued() == old(self).issued(),
    {
        if self.persisted {
            return Err(ValueError::TransientAlreadyPersisted);
        }
        self.persisted = true;
        Ok(self.set.clone())
    }

    pub fn count(&self) -> (r: usize)
        ensures
            r == self.view().len(),
    {
        self.set.count()
    }
}

impl Clone for TransientSet {
    fn clone(&self) -> (r: Self)
        ensures
            r.view() == self.view(),
            r.issued() == self.issued(),
            r.persisted() == self.persisted(),
    {
        TransientSet { set: self.set.clone(), persisted: self.persisted }
    }
}

impl Default for TransientSet {
    fn default() -> (r: Self)
        ensures
            r.view().len() == 0,
            r.issued() == 0,
            !r.persisted(),
    {
        TransientSet::new()
    }
}

} // verus!
