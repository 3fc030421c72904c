use vstd::prelude::*;
use crate::entity::{Entity, IndexEntity};

verus! {

/// Maps an entity's slot index to an optional `IndexEntity`. Storage grows
/// on the first write into a range; reads past it see an empty slot.
#[derive(Debug)]
pub struct SparseArray {
    slots: Vec<Option<IndexEntity>>,
}

impl SparseArray {
    /// What slot `i` holds.
    pub closed spec fn slot(&self, i: int) -> Option<IndexEntity> {
        if 0 <= i < self.slots@.len() {
            self.slots@[i]
        } else {
            None
        }
    }

    /// The slot of `e`, when its version matches `e`.
    pub open spec fn lookup(&self, e: Entity) -> Option<IndexEntity> {
        match self.slot(e.index as int) {
            Some(ie) => if ie.version == e.version {
                Some(ie)
            } else {
                None
            },
            None => None,
        }
    }

    pub fn new() -> (r: SparseArray)
        ensures
            forall|i: int| r.slot(i).is_none(),
    {
        SparseArray { slots: Vec::new() }
    }

    pub fn get_slot(&self, index: u32) -> (r: Option<IndexEntity>)
        ensures
            r == self.slot(index as int),
    {
        let i = index as usize;
        if i < self.slots.len() {
            self.slots[i]
        } else {
            None
        }
    }

    pub fn get_index_entity(&self, entity: Entity) -> (r: Option<IndexEntity>)
        ensures
            r == self.lookup(entity),
    {
        match self.get_slot(entity.index) {
            Some(ie) => if ie.version == entity.version {
                Some(ie)
            } else {
                None
            },
            None => None,
        }
    }

    pub fn contains(&self, entity: Entity) -> (r: bool)
        ensures
            r == self.lookup(entity).is_some(),
    {
        self.get_index_entity(entity).is_some()
    }

    /// Writes slot `index`, allocating room for it if needed.
    pub fn set_slot(&mut self, index: u32, value: Option<IndexEntity>)
        ensures
            forall|i: int|
                #![trigger final(self).slot(i)]
                final(self).slot(i) == if i == index as int {
                    value
                } else {
                    old(self).slot(i)
                },
    {
        let i = index as usize;
        while self.slots.len() <= i
            invariant
                forall|k: int| #![trigger self.slot(k)] self.slot(k) == old(self).slot(k),
            decreases i + 1 - self.slots.len(),
        {
            let ghost prev = self.slots@;
            let ghost before = *self;
            self.slots.push(None);
            assert forall|k: int| #![trigger self.slot(k)] self.slot(k) == old(self).slot(k) by {
                assert(before.slot(k) == old(self).slot(k));
                if 0 <= k < prev.len() {
                    assert(self.slots@[k] == prev[k]);
                }
            }
        }
        let ghost prev = self.slots@;
        let ghost before = *self;
        self.slots[i] = value;
        assert forall|k: int| #![trigger self.slot(k)]
            self.slot(k) == if k == index as int { value } else { old(self).slot(k) } by {
            assert(before.slot(k) == old(self).slot(k));
            if 0 <= k < prev.len() && k != i {
                assert(self.slots@[k] == prev[k]);
            }
        }
    }

    /// Empties the slot of `entity` and returns its dense index, if `entity`
    /// was present.
    pub fn remove(&mut self, entity: Entity) -> (r: Option<usize>)
        ensures
            match old(self).lookup(entity) {
                Some(ie) => r == Some(ie.dense as usize) && forall|i: int|
                    #![trigger final(self).slot(i)]
                    final(self).slot(i) == if i == entity.index as int {
                        None
                    } else {
                        old(self).slot(i)
                    },
                None => r.is_none() && *final(self) == *old(self),
            },
    {
        match self.get_index_entity(entity) {
            Some(ie) => {
                self.set_slot(entity.index, None);
                Some(ie.dense as usize)
            },
            None => None,
        }
    }

    pub fn clear(&mut self)
        ensures
            forall|i: int| final(self).slot(i).is_none(),
    {
        self.slots.clear();
    }
}

} // verus!
