use vstd::prelude::*;
use crate::components::{group_match, step_match, ComponentStorages};
use crate::entity::Entity;
use crate::entity_storage::EntityStorage;
use crate::group::{ComponentGroupInfo, GroupFamily, Layout};
use crate::group_mask::{range_bits, GroupMask};
use crate::query::{iter, ChangeFilter, ComponentView, DenseIter, Iter};
use crate::registry::ResourceTypeId;
use crate::resources::ResourceStorage;
use crate::storage::ComponentTypeId;
use crate::ticks::Ticks;

verus! {

/// Uniquely identifies a `World` while the program runs.
#[derive(Clone, Copy, PartialEq, Eq, Structural, Debug, Hash)]
pub struct WorldId {
    pub id: u64,
}

impl WorldId {
    pub fn new(id: u64) -> (r: WorldId)
        ensures
            r.id == id,
    {
        WorldId { id }
    }
}

/// Returned when an operation names an entity that is not live.
#[derive(Clone, Copy, PartialEq, Eq, Structural, Debug)]
pub struct NoSuchEntity;

/// The value that a list of components sets for type `t`: the last one
/// listed of that type.
pub open spec fn set_value<T>(comps: Seq<(ComponentTypeId, T)>, t: ComponentTypeId) -> Option<T>
    decreases comps.len(),
{
    if comps.len() == 0 {
        None
    } else if comps.last().0 == t {
        Some(comps.last().1)
    } else {
        set_value(comps.drop_last(), t)
    }
}

/// Every listed type names a component that `e` owns, and no type is
/// listed twice.
pub open spec fn all_present<T>(w: World<T>, e: Entity, types: Seq<ComponentTypeId>) -> bool {
    forall|k: int|
        0 <= k < types.len() ==> w.component(e, #[trigger] types[k]).is_some() && !types.subrange(0, k).contains(
            types[k],
        )
}

/// How many entities of `list` are in `live`, each counted once.
pub open spec fn destroyed_count(live: Seq<Entity>, list: Seq<Entity>) -> int
    decreases list.len(),
{
    if list.len() == 0 {
        0
    } else {
        destroyed_count(live, list.drop_last()) + if live.contains(list.last()) && !list.drop_last().contains(
            list.last(),
        ) {
            1int
        } else {
            0int
        }
    }
}

/// Container for entities, components and resources.
pub struct World<T> {
    id: WorldId,
    tick: Ticks,
    entities: EntityStorage,
    components: ComponentStorages<T>,
    resources: ResourceStorage<T>,
}

impl<T> World<T> {
    pub closed spec fn id_spec(&self) -> WorldId {
        self.id
    }

    pub closed spec fn tick_spec(&self) -> Ticks {
        self.tick
    }

    pub closed spec fn entities_spec(&self) -> EntityStorage {
        self.entities
    }

    pub closed spec fn components_spec(&self) -> ComponentStorages<T> {
        self.components
    }

    pub closed spec fn resources_spec(&self) -> ResourceStorage<T> {
        self.resources
    }

    /// The parts are well formed, and only live entities own components.
    pub open spec fn wf(&self) -> bool {
        &&& self.entities_spec().wf()
        &&& self.components_spec().wf()
        &&& self.resources_spec().wf()
        &&& self.entities_spec().settled_live().len() <= u32::MAX
        &&& forall|x: Entity| #[trigger] self.components_spec().has_any(x) ==> self.entities_spec().live().contains(x)
        &&& self.components_spec().grouped()
        &&& self.components_spec().families_disjoint()
        &&& self.entities_spec().allocator_spec().pending_seq().len() == 0
    }

    pub open spec fn live(&self, e: Entity) -> bool {
        self.entities_spec().live().contains(e)
    }

    pub open spec fn component(&self, e: Entity, t: ComponentTypeId) -> Option<T> {
        self.components_spec().component_of(e, t)
    }

    pub open spec fn resource(&self, id: ResourceTypeId) -> Option<T> {
        self.resources_spec().get_spec(id)
    }

    /// Room for one more entity.
    pub open spec fn has_room(&self) -> bool {
        &&& self.entities_spec().has_room()
        &&& self.entities_spec().allocator_spec().can_allocate()
    }

    /// A storage never holds more components than there are live entities.
    proof fn lemma_storage_room(&self, t: ComponentTypeId, e: Entity)
        requires
            self.wf(),
            self.components_spec().registered(t),
            self.live(e),
        ensures
            self.components_spec().has_room(t, e),
    {
        let s = self.components_spec().storages_seq()[self.components_spec().index_of(t).unwrap()];
        let live = self.entities_spec().live();
        if !s.has(e) {
            s.lemma_no_duplicates();
            self.entities_spec().live_set().lemma_no_duplicates();
            assert(s.dense_seq().to_set().subset_of(live.to_set().remove(e))) by {
                assert forall|x: Entity| s.dense_seq().to_set().contains(x) implies live.to_set().remove(e).contains(x) by {
                    assert(s.has(x));
                    assert(self.components_spec().has_any(x));
                }
            }
            vstd::set_lib::lemma_len_subset(s.dense_seq().to_set(), live.to_set().remove(e));
        }
    }

    /// Creates an empty world with the given identifier.
    pub fn new(id: WorldId) -> (r: Self)
        ensures
            r.wf(),
            r.id_spec() == id,
            r.tick_spec() == 0,
            r.entities_spec().live().len() == 0,
            r.entities_spec().settled_live().len() == 0,
            r.entities_spec().free_slots() == u32::MAX,
            r.has_room(),
            forall|e: Entity, t: ComponentTypeId| #[trigger] r.component(e, t).is_none(),
    {
        let w = World {
            id,
            tick: 0,
            entities: EntityStorage::new(),
            components: ComponentStorages::new(),
            resources: ResourceStorage::new(),
        };
        proof {
            assert(w.entities_spec().allocator_spec().pending_seq().len() == 0);
            assert forall|e: Entity, t: ComponentTypeId| #[trigger] w.component(e, t).is_none() by {}
        }
        w
    }

    /// Returns the `WorldId` which uniquely identifies this `World`.
    pub fn id(&self) -> (r: WorldId)
        ensures
            r == self.id_spec(),
    {
        self.id
    }

    pub fn tick(&self) -> (r: Ticks)
        ensures
            r == self.tick_spec(),
    {
        self.tick
    }

    /// Advances the world tick, wrapping around.
    pub fn increment_tick(&mut self)
        ensures
            final(self).tick_spec() == (if old(self).tick_spec() == u32::MAX {
                0
            } else {
                old(self).tick_spec() + 1
            }),
            final(self).id_spec() == old(self).id_spec(),
            final(self).entities_spec() == old(self).entities_spec(),
            final(self).components_spec() == old(self).components_spec(),
            final(self).resources_spec() == old(self).resources_spec(),
    {
        if self.tick == u32::MAX {
            self.tick = 0;
        } else {
            self.tick = self.tick + 1;
        }
    }

    /// Creates a component storage for `type_id` if one doesn't already exist.
    pub fn register(&mut self, type_id: ComponentTypeId)
        requires
            old(self).wf(),
        ensures
            final(self).wf(),
            final(self).components_spec().registered(type_id),
            forall|t: ComponentTypeId| #[trigger] old(self).components_spec().registered(t) ==> final(self).components_spec().registered(t),
            forall|e: Entity, t: ComponentTypeId| #[trigger] final(self).component(e, t) == old(self).component(e, t),
            final(self).resources_spec() == old(self).resources_spec(),
            final(self).entities_spec() == old(self).entities_spec(),
            final(self).id_spec() == old(self).id_spec(),
            final(self).tick_spec() == old(self).tick_spec(),
    {
        let ghost pre = *self;
        let _ = self.components.register(type_id);
        proof {
            self.components_spec().lemma_disjoint_kept(&pre.components_spec());
            assert forall|x: Entity| #[trigger] self.components_spec().has_any(x) implies self.entities_spec().live().contains(x) by {
                let k = choose|k: int| 0 <= k < self.components_spec().storages_seq().len()
                    && (#[trigger] self.components_spec().storages_seq()[k]).has(x);
                if k < pre.components_spec().storages_seq().len() {
                    assert(self.components_spec().storages_seq()[k] == pre.components_spec().storages_seq()[k]);
                    assert(pre.components_spec().has_any(x));
                } else {
                    assert(self.components_spec().storages_seq()[k] == self.components_spec().storages_seq().last());
                }
            }
            assert forall|e: Entity, t: ComponentTypeId| #[trigger] self.component(e, t) == pre.component(e, t) by {
                if pre.components_spec().registered(t) {
                } else if self.components_spec().registered(t) {
                    let j = self.components_spec().index_of(t).unwrap();
                    assert(t == type_id);
                    self.components_spec().storages_seq()[j].lemma_has(e);
                }
            }
        }
    }

    /// Checks whether a component type is registered.
    pub fn is_registered(&self, type_id: &ComponentTypeId) -> (r: bool)
        requires
            self.wf(),
        ensures
            r == self.components_spec().registered(*type_id),
    {
        self.components.is_registered(*type_id)
    }

    /// Returns `true` if `entity` exists in the `World`.
    pub fn contains_entity(&self, entity: Entity) -> (r: bool)
        requires
            self.wf(),
        ensures
            r == self.live(entity),
    {
        self.entities.contains(entity)
    }

    /// Returns all the live entities of the world.
    pub fn entities(&self) -> (r: &[Entity])
        ensures
            r@ == self.entities_spec().live(),
    {
        self.entities.entities()
    }

    /// Makes live the entities that were handed out for deferred creation.
    pub fn maintain(&mut self)
        requires
            old(self).wf(),
        ensures
            final(self).wf(),
            final(self).entities_spec().live() == old(self).entities_spec().settled_live(),
            final(self).entities_spec().allocator_spec().pending_seq().len() == 0,
            final(self).entities_spec().free_slots() == old(self).entities_spec().free_slots(),
            forall|e: Entity, t: ComponentTypeId| #[trigger] final(self).component(e, t) == old(self).component(e, t),
            final(self).id_spec() == old(self).id_spec(),
            final(self).tick_spec() == old(self).tick_spec(),
            final(self).resources_spec() == old(self).resources_spec(),
    {
        let ghost pre = *self;
        self.entities.maintain();
        proof {
            assert forall|x: Entity| #[trigger] self.components_spec().has_any(x) implies self.entities_spec().live().contains(x) by {
                assert(pre.entities_spec().live().contains(x));
                let i = choose|i: int| 0 <= i < pre.entities_spec().live().len() && pre.entities_spec().live()[i] == x;
                assert(self.entities_spec().live()[i] == x);
            }
            assert(self.entities_spec().settled_live() =~= self.entities_spec().live());
        }
    }

    /// Stores one component for a live entity, keeping the world's invariant.
    fn insert_one(&mut self, entity: Entity, type_id: ComponentTypeId, component: T)
        requires
            old(self).wf(),
            old(self).live(entity),
        ensures
            final(self).wf(),
            final(self).component(entity, type_id) == Some(component),
            forall|x: Entity, t: ComponentTypeId|
                #![trigger final(self).component(x, t)]
                (x != entity || t != type_id) ==> final(self).component(x, t) == old(self).component(x, t),
            final(self).entities_spec() == old(self).entities_spec(),
            final(self).id_spec() == old(self).id_spec(),
            final(self).tick_spec() == old(self).tick_spec(),
            final(self).resources_spec() == old(self).resources_spec(),
    {
        let ghost pre = *self;
        proof {
            if pre.components_spec().registered(type_id) {
                pre.lemma_storage_room(type_id, entity);
            }
        }
        let tick = self.tick;
        proof {
            assert forall|x: Entity| #[trigger] pre.components_spec().has_any(x) && x.index == entity.index implies x == entity by {
                let live = pre.entities_spec().live();
                assert(live.contains(x));
                let i = choose|i: int| 0 <= i < live.len() && live[i] == x;
                let j = choose|j: int| 0 <= j < live.len() && live[j] == entity;
                if i != j {
                    pre.entities_spec().live_set().lemma_distinct_indices(i, j);
                }
            }
        }
        let _ = self.components.insert_grouped(entity, type_id, component, tick);
        let ghost inserted = *self;
        proof {
            assert forall|x: Entity, t: ComponentTypeId| #[trigger] self.component(x, t) == inserted.component(x, t) by {
                assert(self.components_spec().component_of(x, t) == inserted.components_spec().component_of(x, t));
            }
            assert forall|x: Entity| #[trigger] self.components_spec().has_any(x) implies self.entities_spec().live().contains(x) by {
                assert(inserted.components_spec().has_any(x));
            }
        }
        proof {
            assert forall|x: Entity, t: ComponentTypeId|
                (x != entity || t != type_id) implies #[trigger] inserted.component(x, t) == pre.component(x, t) by {
                if t == type_id && x.index == entity.index {
                    // x is not live: two live entities never share a slot
                    let live = pre.entities_spec().live();
                    if pre.component(x, t).is_some() {
                        pre.components_spec().lemma_component_has_any(x, t);
                        let i = choose|i: int| 0 <= i < live.len() && live[i] == x;
                        let j = choose|j: int| 0 <= j < live.len() && live[j] == entity;
                        if i != j {
                            pre.entities_spec().live_set().lemma_distinct_indices(i, j);
                        }
                    }
                    let j = inserted.components_spec().index_of(t).unwrap();
                    inserted.components_spec().storages_seq()[j].lemma_has(x);
                    inserted.components_spec().storages_seq()[j].lemma_has(entity);
                }
            }
        }
    }

    /// Appends the given components to `entity` if it is live; for a type
    /// listed twice the later component stays.
    pub fn insert_components(&mut self, entity: Entity, components: Vec<(ComponentTypeId, T)>) -> (r: Result<(), NoSuchEntity>)
        requires
            old(self).wf(),
        ensures
            final(self).wf(),
            r.is_err() == !old(self).live(entity),
            forall|x: Entity, t: ComponentTypeId|
                #![trigger final(self).component(x, t)]
                final(self).component(x, t) == (if r.is_ok() && x == entity && set_value(components@, t).is_some() {
                    set_value(components@, t)
                } else {
                    old(self).component(x, t)
                }),
            final(self).entities_spec() == old(self).entities_spec(),
            final(self).id_spec() == old(self).id_spec(),
            final(self).tick_spec() == old(self).tick_spec(),
            final(self).resources_spec() == old(self).resources_spec(),
    {
        if !self.entities.contains(entity) {
            return Err(NoSuchEntity);
        }
        self.insert_all(entity, components);
        Ok(())
    }

    fn insert_all(&mut self, entity: Entity, components: Vec<(ComponentTypeId, T)>)
        requires
            old(self).wf(),
            old(self).live(entity),
        ensures
            final(self).wf(),
            forall|x: Entity, t: ComponentTypeId|
                #![trigger final(self).component(x, t)]
                final(self).component(x, t) == (if x == entity && set_value(components@, t).is_some() {
                    set_value(components@, t)
                } else {
                    old(self).component(x, t)
                }),
            final(self).entities_spec() == old(self).entities_spec(),
            final(self).id_spec() == old(self).id_spec(),
            final(self).tick_spec() == old(self).tick_spec(),
            final(self).resources_spec() == old(self).resources_spec(),
    {
        let ghost input = components@;
        let mut pending = components;
        let mut rev: Vec<(ComponentTypeId, T)> = Vec::new();
        while pending.len() > 0
            invariant
                pending@ + rev@.reverse() == input,
            decreases pending@.len(),
        {
            let c = pending.pop().unwrap();
            rev.push(c);
            proof {
                assert(pending@ + rev@.reverse() =~= input);
            }
        }
        let ghost pre = *self;
        let ghost mut done: int = 0;
        proof {
            assert(rev@.reverse() =~= input);
        }
        while rev.len() > 0
            invariant
                self.wf(),
                self.live(entity),
                0 <= done <= input.len(),
                rev@.reverse() == input.subrange(done, input.len() as int),
                forall|x: Entity, t: ComponentTypeId|
                    #![trigger self.component(x, t)]
                    self.component(x, t) == (if x == entity && set_value(input.subrange(0, done), t).is_some() {
                        set_value(input.subrange(0, done), t)
                    } else {
                        pre.component(x, t)
                    }),
                self.entities_spec() == pre.entities_spec(),
                self.id_spec() == pre.id_spec(),
                self.tick_spec() == pre.tick_spec(),
                self.resources_spec() == pre.resources_spec(),
            decreases rev@.len(),
        {
            let ghost rev_old = rev@;
            let (t, c) = rev.pop().unwrap();
            proof {
                assert(rev_old.reverse().len() == rev_old.len());
                assert(done < input.len());
                assert(input.subrange(done, input.len() as int)[0] == input[done]);
                assert(input[done] == (t, c));
                assert(input.subrange(0, done + 1).drop_last() =~= input.subrange(0, done));
            }
            self.insert_one(entity, t, c);
            proof {
                done = done + 1;
                assert(rev@ =~= rev_old.drop_last());
                assert(rev@.reverse() =~= rev_old.reverse().subrange(1, rev_old.len() as int));
                assert(rev@.reverse() =~= input.subrange(done, input.len() as int));
            }
        }
        proof {
            assert(input.subrange(0, done) =~= input);
        }
    }

    /// Creates an entity with the given components and returns it.
    pub fn create_entity(&mut self, components: Vec<(ComponentTypeId, T)>) -> (r: Entity)
        requires
            old(self).wf(),
            old(self).has_room(),
        ensures
            final(self).wf(),
            !old(self).entities_spec().settled_live().contains(r),
            final(self).entities_spec().live() == old(self).entities_spec().settled_live().push(r),
            forall|t: ComponentTypeId| #[trigger] final(self).component(r, t) == set_value(components@, t),
            forall|x: Entity, t: ComponentTypeId|
                #![trigger final(self).component(x, t)]
                x != r ==> final(self).component(x, t) == old(self).component(x, t),
            final(self).id_spec() == old(self).id_spec(),
            final(self).tick_spec() == old(self).tick_spec(),
            final(self).entities_spec().free_slots() == old(self).entities_spec().free_slots() - 1,
            final(self).entities_spec().allocator_spec().pending_seq().len() == 0,
            final(self).resources_spec() == old(self).resources_spec(),
    {
        let ghost pre = *self;
        let entity = self.entities.create();
        proof {
            assert forall|x: Entity| #[trigger] self.components_spec().has_any(x) implies self.entities_spec().live().contains(x) by {
                assert(pre.entities_spec().live().contains(x));
                let i = choose|i: int| 0 <= i < pre.entities_spec().live().len() && pre.entities_spec().live()[i] == x;
                assert(self.entities_spec().live()[i] == x);
            }
            assert(self.entities_spec().allocator_spec().pending_seq().len() == 0) by {
                lemma_settled_empty(self.entities_spec());
            }
            assert(self.entities_spec().live().last() == entity);
            assert forall|t: ComponentTypeId| #[trigger] pre.component(entity, t).is_none() by {
                if pre.component(entity, t).is_some() {
                    pre.components_spec().lemma_component_has_any(entity, t);
                    assert(pre.entities_spec().live().contains(entity));
                    assert(pre.entities_spec().settled_live().contains(entity)) by {
                        let i = choose|i: int| 0 <= i < pre.entities_spec().live().len() && pre.entities_spec().live()[i] == entity;
                        assert(pre.entities_spec().settled_live()[i] == entity);
                    }
                }
            }
        }
        proof {
            assert forall|t: ComponentTypeId| #[trigger] self.component(entity, t).is_none() by {
                assert(pre.component(entity, t).is_none());
            }
        }
        self.insert_all(entity, components);
        entity
    }

    /// Whether `create_entity` may be called: a slot is free and the entity
    /// count stays below `u32::MAX`.
    pub fn can_create_entity(&self) -> (r: bool)
        requires
            self.wf(),
        ensures
            r == self.has_room(),
    {
        self.entities.can_create()
    }

    /// Creates one entity for each component list, in order, and returns
    /// them.
    pub fn create_entities(&mut self, batch: Vec<Vec<(ComponentTypeId, T)>>) -> (r: Vec<Entity>)
        requires
            old(self).wf(),
            old(self).entities_spec().settled_live().len() + batch@.len() < u32::MAX,
            old(self).entities_spec().free_slots() >= batch@.len(),
        ensures
            final(self).wf(),
            r@.len() == batch@.len(),
            final(self).entities_spec().live() == old(self).entities_spec().settled_live() + r@,
            r@.no_duplicates(),
            forall|k: int, t: ComponentTypeId|
                0 <= k < r@.len() ==> #[trigger] final(self).component(r@[k], t) == set_value(batch@[k]@, t),
            forall|x: Entity, t: ComponentTypeId|
                #![trigger final(self).component(x, t)]
                !r@.contains(x) ==> final(self).component(x, t) == old(self).component(x, t),
            final(self).id_spec() == old(self).id_spec(),
            final(self).tick_spec() == old(self).tick_spec(),
            final(self).resources_spec() == old(self).resources_spec(),
    {
        let ghost start = *self;
        self.maintain();
        let ghost pre = *self;
        proof {
            assert(pre.entities_spec().settled_live() =~= pre.entities_spec().live());
        }
        let ghost input = batch@;
        let mut pending = batch;
        let mut rev: Vec<Vec<(ComponentTypeId, T)>> = Vec::new();
        while pending.len() > 0
            invariant
                pending@ + rev@.reverse() == input,
            decreases pending@.len(),
        {
            let c = pending.pop().unwrap();
            rev.push(c);
            proof {
                assert(pending@ + rev@.reverse() =~= input);
            }
        }
        proof {
            assert(rev@.reverse() =~= input);
        }
        let mut out: Vec<Entity> = Vec::new();
        let ghost mut done: int = 0;
        while rev.len() > 0
            invariant
                self.wf(),
                0 <= done <= input.len(),
                rev@.reverse() == input.subrange(done, input.len() as int),
                out@.len() == done,
                self.entities_spec().live() == pre.entities_spec().settled_live() + out@,
                self.entities_spec().allocator_spec().pending_seq().len() == 0,
                self.entities_spec().settled_live().len() + (input.len() - done) < u32::MAX,
                self.entities_spec().free_slots() >= input.len() - done,
                forall|k: int, t: ComponentTypeId|
                    0 <= k < done ==> #[trigger] self.component(out@[k], t) == set_value(input[k]@, t),
                forall|x: Entity, t: ComponentTypeId|
                    #![trigger self.component(x, t)]
                    !out@.contains(x) ==> self.component(x, t) == pre.component(x, t),
                self.id_spec() == pre.id_spec(),
                self.tick_spec() == pre.tick_spec(),
                self.resources_spec() == pre.resources_spec(),
            decreases rev@.len(),
        {
            let ghost rev_old = rev@;
            let comps = rev.pop().unwrap();
            let ghost before = *self;
            proof {
                assert(rev_old.reverse().len() == rev_old.len());
                assert(done < input.len());
                assert(input.subrange(done, input.len() as int)[0] == input[done]);
                assert(comps == input[done]);
                assert(before.entities_spec().settled_live() =~= before.entities_spec().live());
            }
            let ghost out_before = out@;
            let e = self.create_entity(comps);
            out.push(e);
            proof {
                assert(out@.drop_last() =~= out_before);
                assert(rev@ =~= rev_old.drop_last());
                assert(rev@.reverse() =~= rev_old.reverse().subrange(1, rev_old.len() as int));
                let old_out = out@.drop_last();
                assert(before.entities_spec().settled_live() =~= pre.entities_spec().settled_live() + old_out);
                assert(self.entities_spec().live() =~= pre.entities_spec().settled_live() + out@);
                assert(self.entities_spec().settled_live() =~= self.entities_spec().live());
                assert forall|k: int, t: ComponentTypeId| 0 <= k < done + 1 implies #[trigger] self.component(out@[k], t)
                    == set_value(input[k]@, t) by {
                    if k < done {
                        assert(out@[k] == old_out[k]);
                        assert(before.component(old_out[k], t) == set_value(input[k]@, t));
                        assert(old_out[k] != e) by {
                            assert(before.entities_spec().settled_live().contains(old_out[k])) by {
                                assert(before.entities_spec().settled_live()[pre.entities_spec().settled_live().len() + k] == old_out[k]);
                            }
                        }
                    }
                }
                assert forall|x: Entity, t: ComponentTypeId| !out@.contains(x) implies #[trigger] self.component(x, t)
                    == pre.component(x, t) by {
                    assert(x != e) by {
                        assert(out@[done] == e);
                    }
                    assert(!old_out.contains(x)) by {
                        if old_out.contains(x) {
                            let m = choose|m: int| 0 <= m < old_out.len() && old_out[m] == x;
                            assert(out@[m] == x);
                        }
                    }
                    assert(!out_before.contains(x));
                    assert(self.component(x, t) == before.component(x, t));
                    assert(before.component(x, t) == pre.component(x, t));
                }
                done = done + 1;
                assert(rev@.reverse() =~= input.subrange(done, input.len() as int));
            }
        }
        proof {
            assert(done == input.len());
            self.entities_spec().live_set().lemma_no_duplicates();
            assert forall|p: int, q: int| 0 <= p < q < out@.len() implies out@[p] != out@[q] by {
                let base = pre.entities_spec().settled_live().len();
                assert(self.entities_spec().live()[base + p] == out@[p]);
                assert(self.entities_spec().live()[base + q] == out@[q]);
            }
            assert forall|x: Entity, t: ComponentTypeId| !out@.contains(x) implies #[trigger] self.component(x, t)
                == start.component(x, t) by {
                assert(self.component(x, t) == pre.component(x, t));
                assert(pre.component(x, t) == start.component(x, t));
            }
        }
        out
    }

    /// Whether `create_entities` may be called with `n` component lists.
    pub fn can_create_entities(&self, n: usize) -> (r: bool)
        requires
            self.wf(),
        ensures
            r == (self.entities_spec().settled_live().len() + n < u32::MAX && self.entities_spec().free_slots() >= n),
    {
        self.entities.room_for(n)
    }

    /// Removes `entity` and all of its components. Returns whether it was
    /// live (counting entities handed out for deferred creation).
    pub fn destroy_entity(&mut self, entity: Entity) -> (r: bool)
        requires
            old(self).wf(),
        ensures
            final(self).wf(),
            r == old(self).entities_spec().settled_live().contains(entity),
            forall|x: Entity| #[trigger] final(self).live(x) <==> (old(self).entities_spec().settled_live().contains(x) && x != entity),
            r == old(self).live(entity),
            forall|x: Entity| #[trigger] final(self).live(x) <==> (old(self).live(x) && x != entity),
            final(self).entities_spec().allocator_spec().pending_seq().len() == 0,
            forall|t: ComponentTypeId| #[trigger] final(self).component(entity, t).is_none(),
            forall|x: Entity, t: ComponentTypeId|
                #![trigger final(self).component(x, t)]
                x != entity ==> final(self).component(x, t) == old(self).component(x, t),
            final(self).id_spec() == old(self).id_spec(),
            final(self).tick_spec() == old(self).tick_spec(),
            final(self).resources_spec() == old(self).resources_spec(),
    {
        let ghost pre = *self;
        let r = self.entities.destroy(entity);
        let ghost destroyed = *self;
        self.components.remove_entity_grouped(entity);
        proof {
            assert forall|x: Entity| #[trigger] self.components_spec().has_any(x) implies self.entities_spec().live().contains(x) by {
                assert(pre.components_spec().has_any(x));
                assert(pre.entities_spec().live().contains(x));
                let i = choose|i: int| 0 <= i < pre.entities_spec().live().len() && pre.entities_spec().live()[i] == x;
                assert(pre.entities_spec().settled_live()[i] == x);
            }
            lemma_settled_len(pre.entities_spec(), self.entities_spec(), entity);
            lemma_settled_empty(self.entities_spec());
            assert forall|t: ComponentTypeId| #[trigger] self.component(entity, t).is_none() by {
                assert(self.components_spec().component_of(entity, t).is_none());
            }
        }
        r
    }

    /// Removes all entities (and their components) listed. Returns the
    /// number of entities that were live.
    pub fn destroy_entities(&mut self, entities: &Vec<Entity>) -> (r: usize)
        requires
            old(self).wf(),
        ensures
            final(self).wf(),
            r <= entities@.len(),
            r == destroyed_count(old(self).entities_spec().live(), entities@),
            forall|x: Entity| #[trigger] final(self).live(x) <==> (old(self).live(x) && !entities@.contains(x)),
            forall|k: int| 0 <= k < entities@.len() ==> !final(self).live(#[trigger] entities@[k]),
            forall|x: Entity, t: ComponentTypeId|
                #![trigger final(self).component(x, t)]
                !entities@.contains(x) ==> final(self).component(x, t) == old(self).component(x, t),
            final(self).id_spec() == old(self).id_spec(),
            final(self).tick_spec() == old(self).tick_spec(),
            final(self).resources_spec() == old(self).resources_spec(),
    {
        let mut count: usize = 0;
        let mut i: usize = 0;
        while i < entities.len()
            invariant
                self.wf(),
                i <= entities@.len(),
                count <= i,
                count == destroyed_count(old(self).entities_spec().live(), entities@.subrange(0, i as int)),
                forall|x: Entity| #[trigger] self.live(x) <==> (old(self).live(x) && !entities@.subrange(0, i as int).contains(x)),
                forall|k: int| 0 <= k < i ==> !self.live(#[trigger] entities@[k]),
                forall|x: Entity, t: ComponentTypeId|
                    #![trigger self.component(x, t)]
                    !entities@.subrange(0, i as int).contains(x) ==> self.component(x, t) == old(self).component(x, t),
                self.id_spec() == old(self).id_spec(),
                self.tick_spec() == old(self).tick_spec(),
                self.resources_spec() == old(self).resources_spec(),
            decreases entities.len() - i,
        {
            let e = entities[i];
            let ghost before = *self;
            proof {
                assert(before.entities_spec().settled_live() =~= before.entities_spec().live());
            }
            let destroyed = self.destroy_entity(e);
            if destroyed {
                count = count + 1;
            }
            i = i + 1;
            proof {
                let pre_list = entities@.subrange(0, i - 1);
                let list = entities@.subrange(0, i as int);
                assert(list.drop_last() =~= pre_list);
                assert(list.last() == e);
                assert(destroyed == before.live(e));
                assert forall|x: Entity| #[trigger] self.live(x) <==> (old(self).live(x) && !list.contains(x)) by {
                    assert(self.live(x) <==> (before.live(x) && x != e));
                    assert(list.contains(x) <==> (pre_list.contains(x) || x == e)) by {
                        if list.contains(x) && x != e {
                            let k = choose|k: int| 0 <= k < list.len() && list[k] == x;
                            assert(pre_list[k] == x);
                        }
                        if pre_list.contains(x) {
                            let k = choose|k: int| 0 <= k < pre_list.len() && pre_list[k] == x;
                            assert(list[k] == x);
                        }
                        if x == e {
                            assert(list[i - 1] == e);
                        }
                    }
                }
                assert forall|x: Entity, t: ComponentTypeId|
                    !entities@.subrange(0, i as int).contains(x) implies #[trigger] self.component(x, t) == old(self).component(x, t) by {
                    assert(!entities@.subrange(0, i - 1).contains(x)) by {
                        if entities@.subrange(0, i - 1).contains(x) {
                            let k = choose|k: int| 0 <= k < i - 1 && #[trigger] entities@.subrange(0, i - 1)[k] == x;
                            assert(entities@.subrange(0, i as int)[k] == x);
                        }
                    }
                    assert(x != e) by {
                        assert(entities@.subrange(0, i as int)[i - 1] == e);
                    }
                }
            }
        }
        proof {
            assert(entities@.subrange(0, i as int) =~= entities@);
        }
        count
    }

    /// Removes the listed components from `entity`, and returns them, in the
    /// order listed, when all of them were present and none listed twice.
    pub fn remove_components(&mut self, entity: Entity, types: &Vec<ComponentTypeId>) -> (r: Option<Vec<T>>)
        requires
            old(self).wf(),
        ensures
            final(self).wf(),
            r.is_some() == all_present(*old(self), entity, types@),
            r.is_some() ==> r.unwrap()@.len() == types@.len() && forall|k: int|
                0 <= k < types@.len() ==> old(self).component(entity, #[trigger] types@[k]) == Some(
                    r.unwrap()@[k],
                ),
            forall|x: Entity, t: ComponentTypeId|
                #![trigger final(self).component(x, t)]
                final(self).component(x, t) == (if x == entity && types@.contains(t) {
                    None
                } else {
                    old(self).component(x, t)
                }),
            final(self).entities_spec() == old(self).entities_spec(),
            final(self).id_spec() == old(self).id_spec(),
            final(self).tick_spec() == old(self).tick_spec(),
            final(self).resources_spec() == old(self).resources_spec(),
    {
        let ghost pre = *self;
        let mut out: Vec<T> = Vec::new();
        let mut ok = true;
        let mut i: usize = 0;
        while i < types.len()
            invariant
                self.wf(),
                i <= types@.len(),
                ok ==> out@.len() == i,
                ok == (forall|k: int|
                    0 <= k < i ==> pre.component(entity, #[trigger] types@[k]).is_some()
                        && !types@.subrange(0, k).contains(types@[k])),
                ok ==> forall|k: int| 0 <= k < i ==> pre.component(entity, #[trigger] types@[k]) == Some(out@[k]),
                forall|x: Entity, t: ComponentTypeId|
                    #![trigger self.component(x, t)]
                    self.component(x, t) == (if x == entity && types@.subrange(0, i as int).contains(t) {
                        None
                    } else {
                        pre.component(x, t)
                    }),
                self.entities_spec() == pre.entities_spec(),
                self.id_spec() == pre.id_spec(),
                self.tick_spec() == pre.tick_spec(),
                self.resources_spec() == pre.resources_spec(),
            decreases types.len() - i,
        {
            let t = types[i];
            let ghost grouped = *self;
            let ghost mid = *self;
            proof {
                assert forall|x: Entity, t2: ComponentTypeId| #[trigger] mid.component(x, t2) == grouped.component(x, t2) by {
                    assert(mid.components_spec().component_of(x, t2) == grouped.components_spec().component_of(x, t2));
                }
                assert forall|x: Entity| #[trigger] mid.components_spec().has_any(x) implies mid.entities_spec().live().contains(x) by {
                    assert(grouped.components_spec().has_any(x));
                }
            }
            let removed = self.components.remove_grouped(entity, t);
            proof {
                assert forall|x: Entity| #[trigger] self.components_spec().has_any(x) implies self.entities_spec().live().contains(x) by {
                    assert(mid.components_spec().has_any(x));
                }
                assert(types@.subrange(0, i + 1) =~= types@.subrange(0, i as int).push(t));
                assert forall|x: Entity, t2: ComponentTypeId|
                    #![trigger self.component(x, t2)]
                    self.component(x, t2) == (if x == entity && types@.subrange(0, i + 1).contains(t2) {
                        None
                    } else {
                        pre.component(x, t2)
                    }) by {
                    let sa = types@.subrange(0, i as int);
                    let sb = types@.subrange(0, i + 1);
                    assert(sb == sa.push(t));
                    assert(sb.contains(t2) <==> (sa.contains(t2) || t2 == t)) by {
                        if t2 == t {
                            assert(sb[i as int] == t);
                        }
                        if sa.contains(t2) {
                            let k = choose|k: int| 0 <= k < sa.len() && #[trigger] sa[k] == t2;
                            assert(sb[k] == t2);
                        }
                        if sb.contains(t2) {
                            let k = choose|k: int| 0 <= k < sb.len() && #[trigger] sb[k] == t2;
                            if k < i {
                                assert(sa[k] == t2);
                            }
                        }
                    }
                    if x == entity && t2 == t {
                        assert(self.component(x, t2).is_none());
                    } else {
                        assert(self.component(x, t2) == mid.component(x, t2));
                    }
                }
                assert(mid.component(entity, t) == (if types@.subrange(0, i as int).contains(t) {
                    None
                } else {
                    pre.component(entity, t)
                }));
            }
            match removed {
                Some(c) => {
                    if ok {
                        out.push(c);
                    }
                },
                None => {
                    ok = false;
                },
            }
            proof {
                assert(types@[i as int] == t);
                assert(types@.subrange(0, i as int) == types@.subrange(0, i as int));
            }
            i = i + 1;
            proof {
                assert forall|k: int| 0 <= k < i - 1 implies #[trigger] types@[k] == types@[k] by {}
            }
        }
        proof {
            assert(types@.subrange(0, i as int) =~= types@);
        }
        if ok {
            Some(out)
        } else {
            None
        }
    }

    /// Removes the listed components from `entity` and drops them.
    pub fn delete_components(&mut self, entity: Entity, types: &Vec<ComponentTypeId>)
        requires
            old(self).wf(),
        ensures
            final(self).wf(),
            forall|x: Entity, t: ComponentTypeId|
                #![trigger final(self).component(x, t)]
                final(self).component(x, t) == (if x == entity && types@.contains(t) {
                    None
                } else {
                    old(self).component(x, t)
                }),
            final(self).entities_spec() == old(self).entities_spec(),
            final(self).id_spec() == old(self).id_spec(),
            final(self).tick_spec() == old(self).tick_spec(),
            final(self).resources_spec() == old(self).resources_spec(),
    {
        let _ = self.remove_components(entity, types);
    }

    /// Arranges the storages as `layout` describes and groups the live
    /// entities accordingly.
    pub fn set_layout(&mut self, layout: &Layout)
        requires
            old(self).wf(),
            layout.wf(),
        ensures
            final(self).wf(),
            final(self).components_spec().families_seq().len() == layout.families_seq().len(),
            final(self).components_spec().layout_is(layout),
            forall|x: Entity, t: ComponentTypeId| #[trigger] final(self).component(x, t) == old(self).component(x, t),
            final(self).resources_spec() == old(self).resources_spec(),
            final(self).entities_spec() == old(self).entities_spec(),
            final(self).id_spec() == old(self).id_spec(),
            final(self).tick_spec() == old(self).tick_spec(),
    {
        let ghost pre = *self;
        let entities = self.entities.entities();
        proof {
            pre.entities_spec().live_set().lemma_no_duplicates();
        }
        self.components.set_layout(layout, entities);
        proof {
            assert forall|x: Entity| #[trigger] self.components_spec().has_any(x) implies self.entities_spec().live().contains(x) by {
                assert(pre.components_spec().has_any(x));
            }
        }
    }

    /// Creates an empty world whose storages are arranged as `layout`
    /// describes.
    pub fn with_layout(id: WorldId, layout: &Layout) -> (r: Self)
        requires
            layout.wf(),
        ensures
            r.wf(),
            r.id_spec() == id,
            r.entities_spec().live().len() == 0,
            r.components_spec().families_seq().len() == layout.families_seq().len(),
            r.components_spec().layout_is(layout),
    {
        let mut world = World::new(id);
        world.set_layout(layout);
        world
    }

    /// How the storage of `type_id` takes part in a group family.
    pub fn group_info(&self, type_id: ComponentTypeId) -> (r: Option<ComponentGroupInfo>)
        requires
            self.wf(),
        ensures
            r.is_some() <==> self.components_spec().registered(type_id) && exists|f: int, j: int|
                0 <= f < self.components_spec().families_seq().len() && 0 <= j
                    < self.components_spec().families_seq()[f].storages@.len() && #[trigger] self.components_spec().st(f, j)
                    == self.components_spec().index_of(type_id).unwrap(),
            r.is_some() ==> self.components_spec().describes(type_id, r.unwrap()),
    {
        self.components.group_info(type_id)
    }

    /// The group family at position `f` of the layout.
    pub fn family(&self, f: usize) -> (r: &GroupFamily)
        requires
            self.wf(),
            f < self.components_spec().families_seq().len(),
        ensures
            *r == self.components_spec().families_seq()[f as int],
            r.wf(),
    {
        self.components.family(f)
    }

    /// Borrows a view over the storage of `type_id`, for a system whose
    /// last run was at `change_tick`.
    pub fn borrow(&self, type_id: ComponentTypeId, change_tick: Ticks) -> (r: ComponentView<'_, T>)
        requires
            self.wf(),
            self.components_spec().registered(type_id),
        ensures
            r.storage_spec() == self.components_spec().storages_seq()[self.components_spec().index_of(type_id).unwrap()],
            r.storage_spec().wf(),
            r.world_tick_spec() == self.tick_spec(),
            r.change_tick_spec() == change_tick,
            forall|e: Entity| #[trigger] r.storage_spec().has(e) == self.component(e, type_id).is_some(),
    {
        let storage = self.components.storage(type_id).unwrap();
        let info = self.components.group_info(type_id);
        proof {
            assert forall|e: Entity| #[trigger] storage.has(e) == self.component(e, type_id).is_some() by {
                storage.lemma_has(e);
            }
        }
        ComponentView::new(storage, info, self.tick, change_tick)
    }

    /// The entities that own a component of every type of `gets` and of
    /// none of `excludes`, each once. When the types match a group the answer
    /// is a range of the grouped storage of `gets[0]`; otherwise the shortest
    /// storage of `gets` drives a walk that probes the others.
    pub fn query(&self, gets: &Vec<ComponentTypeId>, excludes: &Vec<ComponentTypeId>) -> (r: Iter)
        requires
            self.wf(),
            gets@.len() > 0,
            forall|k: int| 0 <= k < gets@.len() ==> self.components_spec().registered(#[trigger] gets@[k]),
            forall|k: int| 0 <= k < excludes@.len() ==> self.components_spec().registered(#[trigger] excludes@[k]),
        ensures
            ({
                let v = match r {
                    Iter::Sparse(v) => v@,
                    Iter::Dense(d) => d.entities@,
                };
                &&& v.no_duplicates()
                &&& forall|e: Entity| #[trigger] v.contains(e) <==> ((forall|k: int| 0 <= k < gets@.len()
                    ==> self.component(e, #[trigger] gets@[k]).is_some()) && (forall|k: int|
                    0 <= k < excludes@.len() ==> self.component(e, #[trigger] excludes@[k]).is_none()))
            }),
            r is Dense <==> exists|f: int, g: int|
                #![trigger group_match(self.components_spec(), gets@, excludes@, f, g)]
                #![trigger step_match(self.components_spec(), gets@, excludes@, f, g)]
                group_match(self.components_spec(), gets@, excludes@, f, g) || step_match(
                    self.components_spec(),
                    gets@,
                    excludes@,
                    f,
                    g,
                ),
            forall|f: int, g: int|
                #[trigger] group_match(self.components_spec(), gets@, excludes@, f, g) ==> r is Dense
                    && r->Dense_0.start == 0 && r->Dense_0.end == self.components_spec().glen(f, g),
            forall|f: int, g: int|
                #[trigger] step_match(self.components_spec(), gets@, excludes@, f, g) ==> r is Dense
                    && r->Dense_0.start == self.components_spec().glen(f, g + 1) && r->Dense_0.end
                    == self.components_spec().glen(f, g),
            r is Dense ==> ({
                let s = self.components_spec().storages_seq()[self.components_spec().index_of(gets@[0]).unwrap()];
                &&& r->Dense_0.start <= r->Dense_0.end <= s.len_spec()
                &&& r->Dense_0.entities@ == s.dense_seq().subrange(r->Dense_0.start as int, r->Dense_0.end as int)
            }),
    {
        if let Some((start, end)) = self.components.dense_range(gets, excludes) {
            let storage = self.components.storage(gets[0]).unwrap();
            let all = storage.entities();
            let mut entities: Vec<Entity> = Vec::new();
            let mut i: usize = start;
            while i < end
                invariant
                    start <= i <= end <= all@.len(),
                    entities@ == all@.subrange(start as int, i as int),
                decreases end - i,
            {
                entities.push(all[i]);
                i = i + 1;
                proof {
                    assert(entities@ =~= all@.subrange(start as int, i as int));
                }
            }
            proof {
                storage.lemma_no_duplicates();
                let v = entities@;
                assert forall|p: int, q: int| 0 <= p < q < v.len() implies v[p] != v[q] by {
                    assert(v[p] == all@[start + p]);
                    assert(v[q] == all@[start + q]);
                }
                assert forall|e: Entity| #[trigger] v.contains(e) <==> ((forall|k: int| 0 <= k < gets@.len()
                    ==> self.component(e, #[trigger] gets@[k]).is_some()) && (forall|k: int|
                    0 <= k < excludes@.len() ==> self.component(e, #[trigger] excludes@[k]).is_none())) by {
                    if v.contains(e) {
                        let p = choose|p: int| 0 <= p < v.len() && v[p] == e;
                        assert(all@[start + p] == e);
                        assert(crate::components::query_matches(self.components_spec(), gets@, excludes@, all@[start + p]));
                    }
                    if crate::components::query_matches(self.components_spec(), gets@, excludes@, e) {
                        assert(self.component(e, gets@[0]).is_some());
                        self.components_spec().lemma_component_has(e, gets@[0]);
                        storage.lemma_at_pos(e);
                        let i = storage.pos(e);
                        assert(all@[i] == e);
                        assert(start <= i < end);
                        assert(v[i - start] == e);
                    }
                }
            }
            return Iter::Dense(DenseIter { start, end, entities });
        }
        let mut get_views: Vec<ComponentView<'_, T>> = Vec::new();
        let mut k: usize = 0;
        while k < gets.len()
            invariant
                self.wf(),
                k <= gets@.len(),
                get_views@.len() == k,
                forall|j: int| 0 <= j < gets@.len() ==> self.components_spec().registered(#[trigger] gets@[j]),
                forall|j: int|
                    0 <= j < k ==> (#[trigger] get_views@[j]).storage_spec().wf() && forall|e: Entity|
                        #[trigger] get_views@[j].storage_spec().has(e) == self.component(e, gets@[j]).is_some(),
            decreases gets.len() - k,
        {
            get_views.push(self.borrow(gets[k], 0));
            k = k + 1;
        }
        let mut exclude_views: Vec<ComponentView<'_, T>> = Vec::new();
        let mut k: usize = 0;
        while k < excludes.len()
            invariant
                self.wf(),
                k <= excludes@.len(),
                exclude_views@.len() == k,
                forall|j: int| 0 <= j < excludes@.len() ==> self.components_spec().registered(#[trigger] excludes@[j]),
                forall|j: int|
                    0 <= j < k ==> (#[trigger] exclude_views@[j]).storage_spec().wf() && forall|e: Entity|
                        #[trigger] exclude_views@[j].storage_spec().has(e) == self.component(e, excludes@[j]).is_some(),
            decreases excludes.len() - k,
        {
            exclude_views.push(self.borrow(excludes[k], 0));
            k = k + 1;
        }
        let r = iter(&get_views, &exclude_views, ChangeFilter::Passthrough);
        proof {
            assert(r is Sparse);
            let v = r->Sparse_0;
            assert forall|e: Entity| #[trigger] v@.contains(e) <==> ((forall|k: int| 0 <= k < gets@.len()
                ==> self.component(e, #[trigger] gets@[k]).is_some()) && (forall|k: int|
                0 <= k < excludes@.len() ==> self.component(e, #[trigger] excludes@[k]).is_none())) by {
                assert(crate::query::query_matches(get_views@, exclude_views@, ChangeFilter::Passthrough, e)
                    <==> crate::query::owns_all(get_views@, e) && crate::query::owns_none(exclude_views@, e));
                assert(crate::query::owns_all(get_views@, e) <==> (forall|k: int| 0 <= k < gets@.len()
                    ==> self.component(e, #[trigger] gets@[k]).is_some())) by {
                    if crate::query::owns_all(get_views@, e) {
                        assert forall|k: int| 0 <= k < gets@.len() implies self.component(e, #[trigger] gets@[k]).is_some() by {
                            assert(get_views@[k].storage_spec().has(e));
                        }
                    }
                    if forall|k: int| 0 <= k < gets@.len() ==> self.component(e, #[trigger] gets@[k]).is_some() {
                        assert forall|k: int| 0 <= k < get_views@.len() implies (#[trigger] get_views@[k]).storage_spec().has(e) by {
                            assert(self.component(e, gets@[k]).is_some());
                        }
                    }
                }
                assert(crate::query::owns_none(exclude_views@, e) <==> (forall|k: int| 0 <= k < excludes@.len()
                    ==> self.component(e, #[trigger] excludes@[k]).is_none())) by {
                    if crate::query::owns_none(exclude_views@, e) {
                        assert forall|k: int| 0 <= k < excludes@.len() implies self.component(e, #[trigger] excludes@[k]).is_none() by {
                            assert(!exclude_views@[k].storage_spec().has(e));
                        }
                    }
                    if forall|k: int| 0 <= k < excludes@.len() ==> self.component(e, #[trigger] excludes@[k]).is_none() {
                        assert forall|k: int| 0 <= k < exclude_views@.len() implies !(#[trigger] exclude_views@[k]).storage_spec().has(e) by {
                            assert(self.component(e, excludes@[k]).is_none());
                        }
                    }
                }
            }
        }
        r
    }

    /// The component of type `type_id` owned by `entity`.
    pub fn get_component(&self, entity: Entity, type_id: ComponentTypeId) -> (r: Option<&T>)
        requires
            self.wf(),
        ensures
            r.is_some() == self.component(entity, type_id).is_some(),
            r.is_some() ==> self.component(entity, type_id) == Some(*r.unwrap()),
    {
        match self.components.storage(type_id) {
            Some(s) => {
                proof {
                    s.lemma_has(entity);
                }
                s.get(entity)
            },
            None => None,
        }
    }

    /// Removes all entities and components in the world.
    pub fn clear_entities(&mut self)
        requires
            old(self).wf(),
        ensures
            final(self).wf(),
            final(self).entities_spec().live().len() == 0,
            forall|x: Entity, t: ComponentTypeId| #[trigger] final(self).component(x, t).is_none(),
            final(self).resources_spec() == old(self).resources_spec(),
            final(self).id_spec() == old(self).id_spec(),
            final(self).tick_spec() == old(self).tick_spec(),
    {
        let ghost pre = *self;
        self.entities.clear();
        self.components.clear();
        proof {
            assert(self.entities_spec().settled_live().len() == 0);
            self.components_spec().lemma_disjoint_kept(&pre.components_spec());
        }
    }

    /// Inserts a resource and returns the previous one, if any.
    pub fn insert_resource(&mut self, id: ResourceTypeId, resource: T) -> (r: Option<T>)
        requires
            old(self).wf(),
        ensures
            final(self).wf(),
            r == old(self).resource(id),
            final(self).resource(id) == Some(resource),
            forall|k: ResourceTypeId| k != id ==> #[trigger] final(self).resource(k) == old(self).resource(k),
            final(self).entities_spec() == old(self).entities_spec(),
            final(self).components_spec() == old(self).components_spec(),
            final(self).id_spec() == old(self).id_spec(),
            final(self).tick_spec() == old(self).tick_spec(),
    {
        self.resources.insert(id, resource)
    }

    /// Removes a resource and returns it, if it was present.
    pub fn remove_resource(&mut self, id: ResourceTypeId) -> (r: Option<T>)
        requires
            old(self).wf(),
        ensures
            final(self).wf(),
            r == old(self).resource(id),
            final(self).resource(id).is_none(),
            forall|k: ResourceTypeId| k != id ==> #[trigger] final(self).resource(k) == old(self).resource(k),
            final(self).entities_spec() == old(self).entities_spec(),
            final(self).components_spec() == old(self).components_spec(),
            final(self).id_spec() == old(self).id_spec(),
            final(self).tick_spec() == old(self).tick_spec(),
    {
        self.resources.remove(id)
    }

    /// Removes a resource. Returns whether it was present.
    pub fn delete_resource(&mut self, id: &ResourceTypeId) -> (r: bool)
        requires
            old(self).wf(),
        ensures
            final(self).wf(),
            r == old(self).resource(*id).is_some(),
            final(self).resource(*id).is_none(),
            forall|k: ResourceTypeId| k != *id ==> #[trigger] final(self).resource(k) == old(self).resource(k),
            final(self).entities_spec() == old(self).entities_spec(),
            final(self).components_spec() == old(self).components_spec(),
            final(self).id_spec() == old(self).id_spec(),
            final(self).tick_spec() == old(self).tick_spec(),
    {
        self.resources.remove(*id).is_some()
    }

    pub fn contains_resource(&self, id: &ResourceTypeId) -> (r: bool)
        requires
            self.wf(),
        ensures
            r == self.resource(*id).is_some(),
    {
        self.resources.contains(*id)
    }

    pub fn resource_ref(&self, id: ResourceTypeId) -> (r: Option<&T>)
        requires
            self.wf(),
        ensures
            r.is_some() == self.resource(id).is_some(),
            r.is_some() ==> self.resource(id) == Some(*r.unwrap()),
    {
        self.resources.get(id)
    }

    /// Removes all resources.
    pub fn clear_resources(&mut self)
        requires
            old(self).wf(),
        ensures
            final(self).wf(),
            forall|k: ResourceTypeId| #[trigger] final(self).resource(k).is_none(),
            final(self).entities_spec() == old(self).entities_spec(),
            final(self).components_spec() == old(self).components_spec(),
            final(self).id_spec() == old(self).id_spec(),
            final(self).tick_spec() == old(self).tick_spec(),
    {
        self.resources.clear();
    }

    /// Removes all entities, components and resources.
    pub fn clear(&mut self)
        requires
            old(self).wf(),
        ensures
            final(self).wf(),
            final(self).entities_spec().live().len() == 0,
            forall|x: Entity, t: ComponentTypeId| #[trigger] final(self).component(x, t).is_none(),
            forall|k: ResourceTypeId| #[trigger] final(self).resource(k).is_none(),
            final(self).id_spec() == old(self).id_spec(),
    {
        self.clear_entities();
        let ghost mid = *self;
        self.clear_resources();
        proof {
            assert forall|x: Entity, t: ComponentTypeId| #[trigger] self.component(x, t).is_none() by {
                assert(mid.component(x, t).is_none());
            }
        }
    }
}

/// Every storage that holds a component for `e` finds it through the
/// sparse slot of `e`'s index, which carries `e`'s version and points at the
/// dense position where `e` sits.
pub proof fn lemma_storages_agree<T>(w: World<T>, e: Entity, t: ComponentTypeId)
    requires
        w.wf(),
        w.component(e, t).is_some(),
    ensures
        w.live(e),
        ({
            let s = w.components_spec().storages_seq()[w.components_spec().index_of(t).unwrap()];
            let ie = s.sparse_view().slot(e.index as int).unwrap();
            &&& s.sparse_view().slot(e.index as int).is_some()
            &&& ie.version == e.version
            &&& ie.dense < s.len_spec()
            &&& s.dense_seq()[ie.dense as int] == e
        }),
{
    w.components_spec().lemma_component_has_any(e, t);
    let s = w.components_spec().storages_seq()[w.components_spec().index_of(t).unwrap()];
    s.lemma_has(e);
}

/// Group-Prefix: for every group of every family, in each storage the
/// group spans, the first `glen(f, g)` entities are exactly those that own a
/// component in every storage of the group. Every operation on a world
/// keeps it, so it holds after any sequence of insertions, removals and
/// destructions.
pub proof fn lemma_group_prefix<T>(w: World<T>, f: int, g: int, j: int)
    requires
        w.wf(),
        0 <= f < w.components_spec().families_seq().len(),
        0 <= g < w.components_spec().ngroups(f),
        0 <= j < w.components_spec().ar(f, g),
    ensures
        ({
            let c = w.components_spec();
            let s = c.fstorage(f, j);
            &&& c.glen(f, g) <= s.len_spec()
            &&& forall|i: int|
                0 <= i < s.len_spec() ==> (i < c.glen(f, g) <==> c.in_group(f, g, #[trigger] s.dense_seq()[i]))
        }),
{
    w.components_spec().lemma_group_prefix(f, g, j);
}

proof fn lemma_settled_empty(s: EntityStorage)
    requires
        s.allocator_spec().settled(),
    ensures
        s.allocator_spec().pending_seq().len() == 0,
{
}

proof fn lemma_settled_len(before: EntityStorage, after: EntityStorage, e: Entity)
    requires
        before.settled_live().len() <= u32::MAX,
        after.wf(),
        after.allocator_spec().settled(),
        forall|x: Entity| #[trigger] after.live().contains(x) <==> (before.settled_live().contains(x) && x != e),
        before.wf(),
    ensures
        after.settled_live().len() <= u32::MAX,
{
    lemma_allocate_unique_settled(before);
    after.live_set().lemma_no_duplicates();
    assert(after.allocator_spec().pending_seq().len() == 0);
    assert(after.settled_live() =~= after.live());
    assert(after.live().to_set().subset_of(before.settled_live().to_set()));
    before.settled_live().lemma_cardinality_of_set();
    vstd::set_lib::lemma_len_subset(after.live().to_set(), before.settled_live().to_set());
}

proof fn lemma_allocate_unique_settled(s: EntityStorage)
    requires
        s.wf(),
    ensures
        s.settled_live().to_set().finite(),
{
}

} // verus!
