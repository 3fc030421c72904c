use vstd::prelude::*;
use crate::entity::{Entity, IndexEntity};
use crate::sparse_array::SparseArray;
use crate::ticks::{ChangeTicks, Ticks};
use crate::utils::vec_swap;

verus! {

/// Identifies a component type at run time.
pub type ComponentTypeId = u64;

/// The storage of one component type: a sparse array from entity slot to
/// dense position, and three parallel vectors holding, per position, the
/// owning entity, its change ticks and its component payload.
pub struct TypeErasedSparseSet<C> {
    type_id: ComponentTypeId,
    sparse: SparseArray,
    dense: Vec<Entity>,
    ticks: Vec<ChangeTicks>,
    data: Vec<C>,
}

impl<C> TypeErasedSparseSet<C> {
    pub closed spec fn type_id_spec(&self) -> ComponentTypeId {
        self.type_id
    }

    pub closed spec fn sparse_view(&self) -> SparseArray {
        self.sparse
    }

    /// The entities owning a component, in dense order.
    pub closed spec fn dense_seq(&self) -> Seq<Entity> {
        self.dense@
    }

    pub closed spec fn ticks_seq(&self) -> Seq<ChangeTicks> {
        self.ticks@
    }

    pub closed spec fn data_seq(&self) -> Seq<C> {
        self.data@
    }

    pub open spec fn len_spec(&self) -> int {
        self.dense_seq().len() as int
    }

    /// Every dense entity is found through its sparse slot, and every sparse
    /// slot names the dense entity that sits at its position.
    pub open spec fn wf(&self) -> bool {
        &&& self.ticks_seq().len() == self.dense_seq().len()
        &&& self.data_seq().len() == self.dense_seq().len()
        &&& self.dense_seq().len() <= u32::MAX
        &&& forall|i: int|
            #![trigger self.dense_seq()[i]]
            0 <= i < self.len_spec() ==> self.sparse_view().slot(self.dense_seq()[i].index as int)
                == Some(IndexEntity { dense: i as u32, version: self.dense_seq()[i].version })
        &&& forall|k: int|
            #![trigger self.sparse_view().slot(k)]
            self.sparse_view().slot(k).is_some() ==> {
                let ie = self.sparse_view().slot(k).unwrap();
                &&& ie.dense < self.len_spec()
                &&& self.dense_seq()[ie.dense as int].index == k
                &&& self.dense_seq()[ie.dense as int].version == ie.version
            }
    }

    /// The component of `e`, if it owns one.
    pub open spec fn value_of(&self, e: Entity) -> Option<C> {
        match self.sparse_view().lookup(e) {
            Some(ie) => Some(self.data_seq()[ie.dense as int]),
            None => None,
        }
    }

    /// `e` owns a component here.
    pub open spec fn has(&self, e: Entity) -> bool {
        self.dense_seq().contains(e)
    }

    /// The dense position of the entity holding slot `k`, if any.
    pub open spec fn pos_of_slot(&self, k: int) -> Option<int> {
        match self.sparse_view().slot(k) {
            Some(ie) => Some(ie.dense as int),
            None => None,
        }
    }

    pub proof fn lemma_has(&self, e: Entity)
        requires
            self.wf(),
        ensures
            self.has(e) <==> self.sparse_view().lookup(e).is_some(),
            self.sparse_view().lookup(e).is_some() ==> self.dense_seq()[self.sparse_view().lookup(
                e,
            ).unwrap().dense as int] == e,
    {
        if self.has(e) {
            let i = choose|i: int| 0 <= i < self.dense_seq().len() && self.dense_seq()[i] == e;
            assert(self.sparse_view().slot(self.dense_seq()[i].index as int).is_some());
        }
        if self.sparse_view().lookup(e).is_some() {
            let ie = self.sparse_view().slot(e.index as int).unwrap();
            assert(self.dense_seq()[ie.dense as int] == e);
        }
    }

    /// The dense position of `e`.
    pub open spec fn pos(&self, e: Entity) -> int {
        self.sparse_view().lookup(e).unwrap().dense as int
    }

    /// The entity at position `i` is found at position `i`.
    pub proof fn lemma_pos(&self, i: int)
        requires
            self.wf(),
            0 <= i < self.len_spec(),
        ensures
            self.has(self.dense_seq()[i]),
            self.pos(self.dense_seq()[i]) == i,
    {
        self.lemma_has(self.dense_seq()[i]);
    }

    /// An entity that owns a component sits at its position.
    pub proof fn lemma_at_pos(&self, e: Entity)
        requires
            self.wf(),
            self.has(e),
        ensures
            0 <= self.pos(e) < self.len_spec(),
            self.dense_seq()[self.pos(e)] == e,
    {
        self.lemma_has(e);
    }

    /// Two dense positions never hold the same slot index.
    pub proof fn lemma_distinct_indices(&self, i: int, j: int)
        requires
            self.wf(),
            0 <= i < self.len_spec(),
            0 <= j < self.len_spec(),
            i != j,
        ensures
            self.dense_seq()[i].index != self.dense_seq()[j].index,
    {
        let a = self.dense_seq()[i];
        let b = self.dense_seq()[j];
    }

    /// No entity owns two components here.
    pub proof fn lemma_no_duplicates(&self)
        requires
            self.wf(),
        ensures
            self.dense_seq().no_duplicates(),
            self.dense_seq().len() == self.dense_seq().to_set().len(),
    {
        assert forall|i: int, j: int|
            0 <= i < self.len_spec() && 0 <= j < self.len_spec() && i != j implies self.dense_seq()[i]
            != self.dense_seq()[j] by {
            self.lemma_distinct_indices(i, j);
        }
        self.dense_seq().unique_seq_to_set();
    }

    pub fn new(type_id: ComponentTypeId) -> (r: Self)
        ensures
            r.wf(),
            r.type_id_spec() == type_id,
            r.dense_seq().len() == 0,
    {
        TypeErasedSparseSet {
            type_id,
            sparse: SparseArray::new(),
            dense: Vec::new(),
            ticks: Vec::new(),
            data: Vec::new(),
        }
    }

    pub fn component_type_id(&self) -> (r: ComponentTypeId)
        ensures
            r == self.type_id_spec(),
    {
        self.type_id
    }

    pub fn len(&self) -> (r: usize)
        ensures
            r == self.len_spec(),
    {
        self.dense.len()
    }

    pub fn is_empty(&self) -> (r: bool)
        ensures
            r == (self.len_spec() == 0),
    {
        self.dense.len() == 0
    }

    pub fn contains(&self, entity: Entity) -> (r: bool)
        requires
            self.wf(),
        ensures
            r == self.has(entity),
    {
        proof {
            self.lemma_has(entity);
        }
        self.sparse.contains(entity)
    }

    /// The slot of `entity`: its dense position, when it owns a component.
    pub fn get_index_entity(&self, entity: Entity) -> (r: Option<IndexEntity>)
        requires
            self.wf(),
        ensures
            r.is_some() == self.has(entity),
            r.is_some() ==> r.unwrap().dense < self.len_spec() && self.dense_seq()[r.unwrap().dense as int]
                == entity && r.unwrap().version == entity.version,
    {
        proof {
            self.lemma_has(entity);
        }
        self.sparse.get_index_entity(entity)
    }

    /// The dense position of `entity`, when it owns a component.
    pub fn get_index(&self, entity: Entity) -> (r: Option<usize>)
        requires
            self.wf(),
        ensures
            r.is_some() == self.has(entity),
            r.is_some() ==> r.unwrap() < self.len_spec() && self.dense_seq()[r.unwrap() as int]
                == entity,
    {
        match self.get_index_entity(entity) {
            Some(ie) => Some(ie.dense as usize),
            None => None,
        }
    }

    pub fn entities(&self) -> (r: &[Entity])
        ensures
            r@ == self.dense_seq(),
    {
        self.dense.as_slice()
    }

    pub fn ticks(&self) -> (r: &[ChangeTicks])
        ensures
            r@ == self.ticks_seq(),
    {
        self.ticks.as_slice()
    }

    pub fn components(&self) -> (r: &[C])
        ensures
            r@ == self.data_seq(),
    {
        self.data.as_slice()
    }

    pub fn get(&self, entity: Entity) -> (r: Option<&C>)
        requires
            self.wf(),
        ensures
            r.is_some() == self.has(entity),
            r.is_some() ==> exists|i: int|
                0 <= i < self.len_spec() && self.dense_seq()[i] == entity && *r.unwrap()
                    == self.data_seq()[i],
            r.is_some() ==> self.value_of(entity) == Some(*r.unwrap()),
    {
        match self.get_index(entity) {
            Some(i) => Some(&self.data[i]),
            None => None,
        }
    }

    pub fn get_ticks(&self, entity: Entity) -> (r: Option<ChangeTicks>)
        requires
            self.wf(),
        ensures
            r.is_some() == self.has(entity),
            r.is_some() ==> exists|i: int|
                0 <= i < self.len_spec() && self.dense_seq()[i] == entity && r.unwrap()
                    == self.ticks_seq()[i],
    {
        match self.get_index(entity) {
            Some(i) => Some(self.ticks[i]),
            None => None,
        }
    }

    /// Stores `component` for `entity`. When `entity` already owns one it is
    /// overwritten, its change tick set to `tick`, and the old one returned;
    /// otherwise the component is appended with both ticks set to `tick`.
    pub fn insert(&mut self, entity: Entity, component: C, tick: Ticks) -> (r: Option<C>)
        requires
            old(self).wf(),
            old(self).has(entity) || old(self).len_spec() < u32::MAX,
        ensures
            final(self).wf(),
            final(self).type_id_spec() == old(self).type_id_spec(),
            final(self).has(entity),
            forall|x: Entity|
                #![trigger final(self).has(x)]
                final(self).has(x) <==> (x == entity || (old(self).has(x) && x.index != entity.index)),
            final(self).value_of(entity) == Some(component),
            forall|x: Entity|
                #![trigger final(self).value_of(x)]
                x.index != entity.index ==> final(self).value_of(x) == old(self).value_of(x),
            match old(self).sparse_view().slot(entity.index as int) {
                Some(ie) => {
                    &&& final(self).dense_seq() == old(self).dense_seq().update(ie.dense as int, entity)
                    &&& final(self).data_seq() == old(self).data_seq().update(ie.dense as int, component)
                    &&& ie.version == entity.version ==> {
                        &&& final(self).ticks_seq() == old(self).ticks_seq().update(
                            ie.dense as int,
                            ChangeTicks { inserted: old(self).ticks_seq()[ie.dense as int].inserted, changed: tick },
                        )
                        &&& r == Some(old(self).data_seq()[ie.dense as int])
                    }
                    &&& ie.version != entity.version ==> {
                        &&& final(self).ticks_seq() == old(self).ticks_seq().update(
                            ie.dense as int,
                            ChangeTicks { inserted: tick, changed: tick },
                        )
                        &&& r.is_none()
                    }
                },
                None => {
                    &&& final(self).dense_seq() == old(self).dense_seq().push(entity)
                    &&& final(self).data_seq() == old(self).data_seq().push(component)
                    &&& final(self).ticks_seq() == old(self).ticks_seq().push(
                        ChangeTicks { inserted: tick, changed: tick },
                    )
                    &&& r.is_none()
                },
            },
    {
        let ghost pre = *self;
        proof {
            self.lemma_has(entity);
        }
        match self.sparse.get_slot(entity.index) {
            Some(ie) => {
                let p = ie.dense as usize;
                let same = ie.version == entity.version;
                let mut c = component;
                std::mem::swap(&mut c, &mut self.data[p]);
                self.dense[p] = entity;
                if same {
                    let inserted = self.ticks[p].inserted;
                    self.ticks[p] = ChangeTicks { inserted, changed: tick };
                } else {
                    self.ticks[p] = ChangeTicks { inserted: tick, changed: tick };
                }
                self.sparse.set_slot(entity.index, Some(IndexEntity { dense: ie.dense, version: entity.version }));
                proof {
                    assert forall|i: int|
                        #![trigger self.dense_seq()[i]]
                        0 <= i < self.len_spec() implies self.sparse_view().slot(self.dense_seq()[i].index as int)
                        == Some(IndexEntity { dense: i as u32, version: self.dense_seq()[i].version }) by {
                        if i != p as int {
                            pre.lemma_distinct_indices(i, p as int);
                        }
                    }
                    assert forall|k: int|
                        #![trigger self.sparse_view().slot(k)]
                        self.sparse_view().slot(k).is_some() implies {
                            let ie2 = self.sparse_view().slot(k).unwrap();
                            &&& ie2.dense < self.len_spec()
                            &&& self.dense_seq()[ie2.dense as int].index == k
                            &&& self.dense_seq()[ie2.dense as int].version == ie2.version
                        } by {
                        assert(pre.sparse_view().slot(k).is_some());
                    }
                    assert(self.dense_seq()[p as int] == entity);
                    assert forall|x: Entity|
                        #![trigger self.has(x)]
                        self.has(x) <==> (x == entity || (pre.has(x) && x.index != entity.index)) by {
                        self.lemma_has(x);
                        pre.lemma_has(x);
                    }
                }
                if same {
                    Some(c)
                } else {
                    None
                }
            },
            None => {
                let n = self.dense.len();
                self.dense.push(entity);
                self.ticks.push(ChangeTicks { inserted: tick, changed: tick });
                self.data.push(component);
                self.sparse.set_slot(entity.index, Some(IndexEntity { dense: n as u32, version: entity.version }));
                proof {
                    assert forall|i: int|
                        #![trigger self.dense_seq()[i]]
                        0 <= i < self.len_spec() implies self.sparse_view().slot(self.dense_seq()[i].index as int)
                        == Some(IndexEntity { dense: i as u32, version: self.dense_seq()[i].version }) by {
                        if i < n as int {
                            assert(pre.dense_seq()[i] == self.dense_seq()[i]);
                            assert(pre.sparse_view().slot(pre.dense_seq()[i].index as int).is_some());
                        }
                    }
                    assert forall|k: int|
                        #![trigger self.sparse_view().slot(k)]
                        self.sparse_view().slot(k).is_some() implies {
                            let ie2 = self.sparse_view().slot(k).unwrap();
                            &&& ie2.dense < self.len_spec()
                            &&& self.dense_seq()[ie2.dense as int].index == k
                            &&& self.dense_seq()[ie2.dense as int].version == ie2.version
                        } by {
                        if k != entity.index as int {
                            assert(pre.sparse_view().slot(k).is_some());
                        }
                    }
                    assert(self.dense_seq()[n as int] == entity);
                    assert forall|x: Entity|
                        #![trigger self.has(x)]
                        self.has(x) <==> (x == entity || (pre.has(x) && x.index != entity.index)) by {
                        self.lemma_has(x);
                        pre.lemma_has(x);
                    }
                }
                None
            },
        }
    }

    /// Removes the component of `entity` by moving the last element into
    /// its place, and returns the component with its ticks.
    pub fn remove(&mut self, entity: Entity) -> (r: Option<(C, ChangeTicks)>)
        requires
            old(self).wf(),
        ensures
            final(self).wf(),
            final(self).type_id_spec() == old(self).type_id_spec(),
            !final(self).has(entity),
            forall|x: Entity|
                #![trigger final(self).has(x)]
                final(self).has(x) <==> (old(self).has(x) && x != entity),
            r.is_some() == old(self).has(entity),
            final(self).value_of(entity).is_none(),
            r.is_some() ==> r.unwrap().0 == old(self).value_of(entity).unwrap(),
            forall|x: Entity|
                #![trigger final(self).value_of(x)]
                x != entity ==> final(self).value_of(x) == old(self).value_of(x),
            match old(self).sparse_view().lookup(entity) {
                Some(ie) => {
                    let p = ie.dense as int;
                    &&& old(self).dense_seq()[p] == entity
                    &&& r == Some((old(self).data_seq()[p], old(self).ticks_seq()[p]))
                    &&& final(self).dense_seq() == old(self).dense_seq().update(p, old(self).dense_seq().last()).drop_last()
                    &&& final(self).data_seq() == old(self).data_seq().update(p, old(self).data_seq().last()).drop_last()
                    &&& final(self).ticks_seq() == old(self).ticks_seq().update(p, old(self).ticks_seq().last()).drop_last()
                },
                None => r.is_none() && *final(self) == *old(self),
            },
    {
        proof {
            self.lemma_has(entity);
        }
        let ghost pre = *self;
        let ie = match self.sparse.get_index_entity(entity) {
            Some(ie) => ie,
            None => {
                proof {
                    self.lemma_has(entity);
                }
                return None;
            },
        };
        let p = ie.dense as usize;
        let last = self.dense.len() - 1;
        let moved = self.dense[last];
        let _ = self.dense.swap_remove(p);
        let t = self.ticks.swap_remove(p);
        let c = self.data.swap_remove(p);
        if p != last {
            proof {
                pre.lemma_distinct_indices(p as int, last as int);
            }
            self.sparse.set_slot(moved.index, Some(IndexEntity { dense: p as u32, version: moved.version }));
        }
        self.sparse.set_slot(entity.index, None);
        proof {
            assert forall|i: int|
                #![trigger self.dense_seq()[i]]
                0 <= i < self.len_spec() implies self.sparse_view().slot(self.dense_seq()[i].index as int)
                == Some(IndexEntity { dense: i as u32, version: self.dense_seq()[i].version }) by {
                if i != p as int {
                    pre.lemma_distinct_indices(i, p as int);
                    pre.lemma_distinct_indices(i, last as int);
                    assert(pre.dense_seq()[i] == self.dense_seq()[i]);
                } else {
                    pre.lemma_distinct_indices(p as int, last as int);
                }
            }
            assert forall|k: int|
                #![trigger self.sparse_view().slot(k)]
                self.sparse_view().slot(k).is_some() implies {
                    let ie2 = self.sparse_view().slot(k).unwrap();
                    &&& ie2.dense < self.len_spec()
                    &&& self.dense_seq()[ie2.dense as int].index == k
                    &&& self.dense_seq()[ie2.dense as int].version == ie2.version
                } by {
                if k != moved.index as int || p == last {
                    assert(pre.sparse_view().slot(k).is_some());
                }
            }
            self.lemma_has(entity);
            assert forall|x: Entity|
                #![trigger self.has(x)]
                self.has(x) <==> (pre.has(x) && x != entity) by {
                self.lemma_has(x);
                pre.lemma_has(x);
            }
        }
        Some((c, t))
    }

    /// Removes the component of `entity`, if it owns one, and drops it.
    pub fn delete(&mut self, entity: Entity) -> (r: bool)
        requires
            old(self).wf(),
        ensures
            final(self).wf(),
            final(self).type_id_spec() == old(self).type_id_spec(),
            !final(self).has(entity),
            forall|x: Entity|
                #![trigger final(self).has(x)]
                final(self).has(x) <==> (old(self).has(x) && x != entity),
            r == old(self).has(entity),
            final(self).value_of(entity).is_none(),
            forall|x: Entity|
                #![trigger final(self).value_of(x)]
                x != entity ==> final(self).value_of(x) == old(self).value_of(x),
            !r ==> *final(self) == *old(self),
    {
        proof {
            self.lemma_has(entity);
        }
        self.remove(entity).is_some()
    }

    /// Exchanges the entities, ticks and components at two dense positions.
    pub fn swap(&mut self, a: usize, b: usize)
        requires
            old(self).wf(),
            a < old(self).len_spec(),
            b < old(self).len_spec(),
        ensures
            final(self).wf(),
            final(self).type_id_spec() == old(self).type_id_spec(),
            final(self).dense_seq() == old(self).dense_seq().update(a as int, old(self).dense_seq()[b as int]).update(
                b as int, old(self).dense_seq()[a as int]),
            final(self).ticks_seq() == old(self).ticks_seq().update(a as int, old(self).ticks_seq()[b as int]).update(
                b as int, old(self).ticks_seq()[a as int]),
            final(self).data_seq() == old(self).data_seq().update(a as int, old(self).data_seq()[b as int]).update(
                b as int, old(self).data_seq()[a as int]),
            forall|x: Entity| #[trigger] final(self).has(x) == old(self).has(x),
            forall|x: Entity| #[trigger] final(self).value_of(x) == old(self).value_of(x),
    {
        if a == b {
            assert forall|x: Entity| #[trigger] self.has(x) == old(self).has(x) by {}
            assert(self.dense_seq() =~= self.dense_seq().update(a as int, self.dense_seq()[b as int]).update(b as int, self.dense_seq()[a as int]));
            assert(self.ticks_seq() =~= self.ticks_seq().update(a as int, self.ticks_seq()[b as int]).update(b as int, self.ticks_seq()[a as int]));
            assert(self.data_seq() =~= self.data_seq().update(a as int, self.data_seq()[b as int]).update(b as int, self.data_seq()[a as int]));
            return;
        }
        let ghost pre = *self;
        proof {
            pre.lemma_distinct_indices(a as int, b as int);
        }
        let ea = self.dense[a];
        let eb = self.dense[b];
        self.sparse.set_slot(ea.index, Some(IndexEntity { dense: b as u32, version: ea.version }));
        self.sparse.set_slot(eb.index, Some(IndexEntity { dense: a as u32, version: eb.version }));
        self.dense[a] = eb;
        self.dense[b] = ea;
        let ta = self.ticks[a];
        let tb = self.ticks[b];
        self.ticks[a] = tb;
        self.ticks[b] = ta;
        vec_swap(&mut self.data, a, b);
        proof {
            assert forall|i: int|
                #![trigger self.dense_seq()[i]]
                0 <= i < self.len_spec() implies self.sparse_view().slot(self.dense_seq()[i].index as int)
                == Some(IndexEntity { dense: i as u32, version: self.dense_seq()[i].version }) by {
                if i != a as int && i != b as int {
                    pre.lemma_distinct_indices(i, a as int);
                    pre.lemma_distinct_indices(i, b as int);
                    assert(pre.dense_seq()[i] == self.dense_seq()[i]);
                }
            }
            assert forall|k: int|
                #![trigger self.sparse_view().slot(k)]
                self.sparse_view().slot(k).is_some() implies {
                    let ie2 = self.sparse_view().slot(k).unwrap();
                    &&& ie2.dense < self.len_spec()
                    &&& self.dense_seq()[ie2.dense as int].index == k
                    &&& self.dense_seq()[ie2.dense as int].version == ie2.version
                } by {
                if k != ea.index as int && k != eb.index as int {
                    assert(pre.sparse_view().slot(k).is_some());
                }
            }
            assert forall|x: Entity| #[trigger] self.has(x) == pre.has(x) by {
                self.lemma_has(x);
                pre.lemma_has(x);
            }
        }
    }

    /// Removes every entity and component.
    pub fn clear(&mut self)
        requires
            old(self).wf(),
        ensures
            final(self).wf(),
            final(self).type_id_spec() == old(self).type_id_spec(),
            final(self).dense_seq().len() == 0,
    {
        self.sparse.clear();
        self.dense.clear();
        self.ticks.clear();
        self.data.clear();
    }
}

} // verus!
