use vstd::prelude::*;
use crate::registry::ResourceTypeId;

verus! {

/// Singleton values keyed by resource type.
pub struct ResourceStorage<T> {
    entries: Vec<(ResourceTypeId, T)>,
}

impl<T> ResourceStorage<T> {
    pub closed spec fn entries_seq(&self) -> Seq<(ResourceTypeId, T)> {
        self.entries@
    }

    pub open spec fn wf(&self) -> bool {
        forall|i: int, j: int|
            0 <= i < self.entries_seq().len() && 0 <= j < self.entries_seq().len() && i != j
                ==> (#[trigger] self.entries_seq()[i]).0 != (#[trigger] self.entries_seq()[j]).0
    }

    /// The resource stored under `id`, if any.
    pub open spec fn get_spec(&self, id: ResourceTypeId) -> Option<T> {
        if exists|i: int| 0 <= i < self.entries_seq().len() && (#[trigger] self.entries_seq()[i]).0 == id {
            Some(
                self.entries_seq()[choose|i: int|
                    0 <= i < self.entries_seq().len() && (#[trigger] self.entries_seq()[i]).0 == id].1,
            )
        } else {
            None
        }
    }

    pub fn new() -> (r: Self)
        ensures
            r.wf(),
            forall|id: ResourceTypeId| #[trigger] r.get_spec(id).is_none(),
    {
        ResourceStorage { entries: Vec::new() }
    }

    fn find(&self, id: ResourceTypeId) -> (r: Option<usize>)
        requires
            self.wf(),
        ensures
            r.is_some() == self.get_spec(id).is_some(),
            r.is_some() ==> r.unwrap() < self.entries_seq().len() && self.entries_seq()[r.unwrap() as int].0 == id
                && self.get_spec(id) == Some(self.entries_seq()[r.unwrap() as int].1),
    {
        let mut i: usize = 0;
        while i < self.entries.len()
            invariant
                self.wf(),
                i <= self.entries@.len(),
                forall|k: int| 0 <= k < i ==> (#[trigger] self.entries@[k]).0 != id,
            decreases self.entries.len() - i,
        {
            if self.entries[i].0 == id {
                proof {
                    let j = choose|j: int| 0 <= j < self.entries_seq().len() && (#[trigger] self.entries_seq()[j]).0 == id;
                    assert(self.entries_seq()[i as int].0 == id);
                }
                return Some(i);
            }
            i = i + 1;
        }
        None
    }

    pub fn contains(&self, id: ResourceTypeId) -> (r: bool)
        requires
            self.wf(),
        ensures
            r == self.get_spec(id).is_some(),
    {
        self.find(id).is_some()
    }

    pub fn get(&self, id: ResourceTypeId) -> (r: Option<&T>)
        requires
            self.wf(),
        ensures
            r.is_some() == self.get_spec(id).is_some(),
            r.is_some() ==> self.get_spec(id) == Some(*r.unwrap()),
    {
        match self.find(id) {
            Some(i) => Some(&self.entries[i].1),
            None => None,
        }
    }

    /// Stores `value` under `id` and returns the resource it replaced.
    pub fn insert(&mut self, id: ResourceTypeId, value: T) -> (r: Option<T>)
        requires
            old(self).wf(),
        ensures
            final(self).wf(),
            r == old(self).get_spec(id),
            final(self).get_spec(id) == Some(value),
            forall|k: ResourceTypeId| k != id ==> #[trigger] final(self).get_spec(k) == old(self).get_spec(k),
    {
        match self.find(id) {
            Some(i) => {
                let mut v = value;
                std::mem::swap(&mut v, &mut self.entries[i].1);
                proof {
                    self.lemma_update(old(self), i as int);
                }
                Some(v)
            },
            None => {
                self.entries.push((id, value));
                proof {
                    let n = old(self).entries_seq().len();
                    assert forall|a: int, b: int|
                        0 <= a < self.entries_seq().len() && 0 <= b < self.entries_seq().len() && a != b
                            implies (#[trigger] self.entries_seq()[a]).0 != (#[trigger] self.entries_seq()[b]).0 by {
                        if a < n && b < n {
                            assert(old(self).entries_seq()[a] == self.entries_seq()[a]);
                            assert(old(self).entries_seq()[b] == self.entries_seq()[b]);
                        } else if a < n {
                            assert(old(self).entries_seq()[a] == self.entries_seq()[a]);
                        } else {
                            assert(old(self).entries_seq()[b] == self.entries_seq()[b]);
                        }
                    }
                    assert(self.entries_seq()[n as int].0 == id);
                    assert forall|k: ResourceTypeId| k != id implies #[trigger] self.get_spec(k) == old(self).get_spec(k) by {
                        if old(self).get_spec(k).is_some() {
                            let j = choose|j: int| 0 <= j < old(self).entries_seq().len() && (#[trigger] old(self).entries_seq()[j]).0 == k;
                            assert(self.entries_seq()[j] == old(self).entries_seq()[j]);
                        }
                        if self.get_spec(k).is_some() {
                            let j = choose|j: int| 0 <= j < self.entries_seq().len() && (#[trigger] self.entries_seq()[j]).0 == k;
                            assert(self.entries_seq()[j] == old(self).entries_seq()[j]);
                        }
                    }
                }
                None
            },
        }
    }

    /// The entry at `i` took a new value under the same key.
    proof fn lemma_update(&self, before: &Self, i: int)
        requires
            before.wf(),
            0 <= i < before.entries_seq().len(),
            self.entries_seq().len() == before.entries_seq().len(),
            self.entries_seq()[i].0 == before.entries_seq()[i].0,
            forall|k: int| 0 <= k < self.entries_seq().len() && k != i ==> #[trigger] self.entries_seq()[k] == before.entries_seq()[k],
        ensures
            self.wf(),
            self.get_spec(self.entries_seq()[i].0) == Some(self.entries_seq()[i].1),
            forall|k: ResourceTypeId| k != self.entries_seq()[i].0 ==> #[trigger] self.get_spec(k) == before.get_spec(k),
    {
        assert forall|a: int, b: int|
            0 <= a < self.entries_seq().len() && 0 <= b < self.entries_seq().len() && a != b
                implies (#[trigger] self.entries_seq()[a]).0 != (#[trigger] self.entries_seq()[b]).0 by {
            assert(before.entries_seq()[a].0 == self.entries_seq()[a].0);
            assert(before.entries_seq()[b].0 == self.entries_seq()[b].0);
        }
        let id = self.entries_seq()[i].0;
        let j = choose|j: int| 0 <= j < self.entries_seq().len() && (#[trigger] self.entries_seq()[j]).0 == id;
        assert forall|k: ResourceTypeId| k != id implies #[trigger] self.get_spec(k) == before.get_spec(k) by {
            if before.get_spec(k).is_some() {
                let j = choose|j: int| 0 <= j < before.entries_seq().len() && (#[trigger] before.entries_seq()[j]).0 == k;
                assert(self.entries_seq()[j] == before.entries_seq()[j]);
            }
            if self.get_spec(k).is_some() {
                let j = choose|j: int| 0 <= j < self.entries_seq().len() && (#[trigger] self.entries_seq()[j]).0 == k;
                assert(self.entries_seq()[j] == before.entries_seq()[j]);
            }
        }
    }

    /// Removes the resource stored under `id` and returns it.
    pub fn remove(&mut self, id: ResourceTypeId) -> (r: Option<T>)
        requires
            old(self).wf(),
        ensures
            final(self).wf(),
            r == old(self).get_spec(id),
            final(self).get_spec(id).is_none(),
            forall|k: ResourceTypeId| k != id ==> #[trigger] final(self).get_spec(k) == old(self).get_spec(k),
    {
        match self.find(id) {
            Some(i) => {
                let e = self.entries.swap_remove(i);
                proof {
                    let n = old(self).entries_seq().len();
                    let o = old(self).entries_seq();
                    assert forall|a: int, b: int|
                        0 <= a < self.entries_seq().len() && 0 <= b < self.entries_seq().len() && a != b
                            implies (#[trigger] self.entries_seq()[a]).0 != (#[trigger] self.entries_seq()[b]).0 by {
                        let oa = if a == i { n - 1 } else { a };
                        let ob = if b == i { n - 1 } else { b };
                        assert(self.entries_seq()[a] == o[oa]);
                        assert(self.entries_seq()[b] == o[ob]);
                    }
                    assert forall|k: ResourceTypeId| k != id implies #[trigger] self.get_spec(k) == old(self).get_spec(k) by {
                        if old(self).get_spec(k).is_some() {
                            let j = choose|j: int| 0 <= j < o.len() && (#[trigger] o[j]).0 == k;
                            let nj = if j == n - 1 { i as int } else { j };
                            assert(self.entries_seq()[nj] == o[j]);
                        }
                        if self.get_spec(k).is_some() {
                            let j = choose|j: int| 0 <= j < self.entries_seq().len() && (#[trigger] self.entries_seq()[j]).0 == k;
                            let oj = if j == i { n - 1 } else { j };
                            assert(self.entries_seq()[j] == o[oj]);
                        }
                    }
                    if self.get_spec(id).is_some() {
                        let j = choose|j: int| 0 <= j < self.entries_seq().len() && (#[trigger] self.entries_seq()[j]).0 == id;
                        let oj = if j == i { n - 1 } else { j };
                        assert(self.entries_seq()[j] == o[oj]);
                    }
                }
                Some(e.1)
            },
            None => None,
        }
    }

    pub fn clear(&mut self)
        ensures
            final(self).wf(),
            forall|id: ResourceTypeId| #[trigger] final(self).get_spec(id).is_none(),
    {
        self.entries.clear();
    }
}

} // verus!
