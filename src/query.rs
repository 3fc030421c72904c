use vstd::prelude::*;
use crate::entity::Entity;
use crate::group::ComponentGroupInfo;
use crate::storage::TypeErasedSparseSet;
use crate::ticks::{tick_is_newer, ChangeTicks, Ticks};

verus! {

/// A shared view over the storage of one component type, with the ticks
/// that change detection compares against.
pub struct ComponentView<'a, T> {
    storage: &'a TypeErasedSparseSet<T>,
    group_info: Option<ComponentGroupInfo>,
    world_tick: Ticks,
    change_tick: Ticks,
}

impl<'a, T> ComponentView<'a, T> {
    pub closed spec fn storage_spec(&self) -> TypeErasedSparseSet<T> {
        *self.storage
    }

    pub closed spec fn group_info_spec(&self) -> Option<ComponentGroupInfo> {
        self.group_info
    }

    pub closed spec fn world_tick_spec(&self) -> Ticks {
        self.world_tick
    }

    pub closed spec fn change_tick_spec(&self) -> Ticks {
        self.change_tick
    }

    pub fn new(
        storage: &'a TypeErasedSparseSet<T>,
        group_info: Option<ComponentGroupInfo>,
        world_tick: Ticks,
        change_tick: Ticks,
    ) -> (r: Self)
        ensures
            r.storage_spec() == *storage,
            r.group_info_spec() == group_info,
            r.world_tick_spec() == world_tick,
            r.change_tick_spec() == change_tick,
    {
        ComponentView { storage, group_info, world_tick, change_tick }
    }

    /// Returns the change ticks of `entity`'s component.
    pub fn get_ticks(&self, entity: Entity) -> (r: Option<ChangeTicks>)
        requires
            self.storage_spec().wf(),
        ensures
            r.is_some() == self.storage_spec().has(entity),
            r.is_some() ==> exists|i: int|
                0 <= i < self.storage_spec().len_spec() && self.storage_spec().dense_seq()[i] == entity
                    && r.unwrap() == self.storage_spec().ticks_seq()[i],
    {
        self.storage.get_ticks(entity)
    }

    /// Returns the component of `entity`.
    pub fn get(&self, entity: Entity) -> (r: Option<&'a T>)
        requires
            self.storage_spec().wf(),
        ensures
            r.is_some() == self.storage_spec().has(entity),
            r.is_some() ==> self.storage_spec().value_of(entity) == Some(*r.unwrap()),
    {
        self.storage.get(entity)
    }

    /// Returns the component and change ticks of `entity`.
    pub fn get_with_ticks(&self, entity: Entity) -> (r: Option<(&'a T, ChangeTicks)>)
        requires
            self.storage_spec().wf(),
        ensures
            r.is_some() == self.storage_spec().has(entity),
            r.is_some() ==> {
                let i = self.storage_spec().pos(entity);
                &&& *r.unwrap().0 == self.storage_spec().data_seq()[i]
                &&& r.unwrap().1 == self.storage_spec().ticks_seq()[i]
            },
    {
        match self.storage.get_index(entity) {
            Some(i) => {
                proof {
                    self.storage_spec().lemma_pos(i as int);
                }
                Some((&self.storage.components()[i], self.storage.ticks()[i]))
            },
            None => None,
        }
    }

    pub fn contains(&self, entity: Entity) -> (r: bool)
        requires
            self.storage_spec().wf(),
        ensures
            r == self.storage_spec().has(entity),
    {
        self.storage.contains(entity)
    }

    /// Returns the number of components in the view.
    pub fn len(&self) -> (r: usize)
        ensures
            r == self.storage_spec().len_spec(),
    {
        self.storage.len()
    }

    /// Returns `true` if the view is empty.
    pub fn is_empty(&self) -> (r: bool)
        ensures
            r == (self.storage_spec().len_spec() == 0),
    {
        self.storage.is_empty()
    }

    /// Returns all entities in the view, in dense order.
    pub fn entities(&self) -> (r: &'a [Entity])
        ensures
            r@ == self.storage_spec().dense_seq(),
    {
        self.storage.entities()
    }

    /// Returns all components in the view, in dense order.
    pub fn components(&self) -> (r: &'a [T])
        ensures
            r@ == self.storage_spec().data_seq(),
    {
        self.storage.components()
    }

    /// Returns all change ticks in the view, in dense order.
    pub fn ticks(&self) -> (r: &'a [ChangeTicks])
        ensures
            r@ == self.storage_spec().ticks_seq(),
    {
        self.storage.ticks()
    }

    pub fn group_info(&self) -> (r: Option<ComponentGroupInfo>)
        ensures
            r == self.group_info_spec(),
    {
        self.group_info
    }

    /// The world tick and the tick of the last run of the system.
    pub fn change_detection_ticks(&self) -> (r: (Ticks, Ticks))
        ensures
            r == (self.world_tick_spec(), self.change_tick_spec()),
    {
        (self.world_tick, self.change_tick)
    }
}

/// Returns the shortest of the slices, the first of them on a tie.
pub fn shortest_entity_slice<'a>(slices: &Vec<&'a [Entity]>) -> (r: Option<&'a [Entity]>)
    ensures
        r.is_none() <==> slices@.len() == 0,
        r.is_some() ==> exists|i: int| 0 <= i < slices@.len() && slices@[i]@ == r.unwrap()@,
        r.is_some() ==> forall|i: int| 0 <= i < slices@.len() ==> r.unwrap()@.len() <= (#[trigger] slices@[i])@.len(),
{
    if slices.len() == 0 {
        return None;
    }
    let mut best: &'a [Entity] = slices[0];
    let mut i: usize = 1;
    while i < slices.len()
        invariant
            1 <= i <= slices@.len(),
            exists|k: int| 0 <= k < slices@.len() && slices@[k]@ == best@,
            forall|k: int| 0 <= k < i ==> best@.len() <= (#[trigger] slices@[k])@.len(),
        decreases slices.len() - i,
    {
        if slices[i].len() < best.len() {
            best = slices[i];
        }
        i = i + 1;
    }
    Some(best)
}

/// A change-detection filter on the first view of a query.
#[derive(Clone, Copy, PartialEq, Eq, Structural, Debug)]
pub enum ChangeFilter {
    /// Every component passes.
    Passthrough,
    /// The component was inserted since the last run.
    Added,
    /// The component was changed since the last run.
    Mutated,
}

pub open spec fn filter_accepts(filter: ChangeFilter, ticks: ChangeTicks, world_tick: Ticks, last_run: Ticks) -> bool {
    match filter {
        ChangeFilter::Passthrough => true,
        ChangeFilter::Added => tick_is_newer(ticks.inserted, world_tick, last_run),
        ChangeFilter::Mutated => tick_is_newer(ticks.changed, world_tick, last_run),
    }
}

pub fn accepts(filter: ChangeFilter, ticks: ChangeTicks, world_tick: Ticks, last_run: Ticks) -> (r: bool)
    ensures
        r == filter_accepts(filter, ticks, world_tick, last_run),
{
    match filter {
        ChangeFilter::Passthrough => true,
        ChangeFilter::Added => ticks.added(world_tick, last_run),
        ChangeFilter::Mutated => ticks.mutated(world_tick, last_run),
    }
}

/// The entities of a query, walked either as a range of a group or by
/// probing the storages.
pub enum Iter {
    /// Entities found by probing every storage, driven by the shortest one.
    Sparse(Vec<Entity>),
    /// A range of the dense entities of a grouped storage.
    Dense(DenseIter),
}

/// The range `start..end` of the dense entities of a grouped storage.
pub struct DenseIter {
    pub start: usize,
    pub end: usize,
    pub entities: Vec<Entity>,
}

impl Iter {
    /// Returns `true` if the iterator is dense.
    pub fn is_dense(&self) -> (r: bool)
        ensures
            r == (*self is Dense),
    {
        match self {
            Iter::Dense(_) => true,
            Iter::Sparse(_) => false,
        }
    }

    /// The entities the query yields, in order.
    pub fn entities(&self) -> (r: &[Entity])
        ensures
            r@ == match *self {
                Iter::Dense(d) => d.entities@,
                Iter::Sparse(v) => v@,
            },
    {
        match self {
            Iter::Dense(d) => d.entities.as_slice(),
            Iter::Sparse(v) => v.as_slice(),
        }
    }
}

/// `e` owns a component in every view of `views`.
pub open spec fn owns_all<'a, T>(views: Seq<ComponentView<'a, T>>, e: Entity) -> bool {
    forall|k: int| 0 <= k < views.len() ==> (#[trigger] views[k]).storage_spec().has(e)
}

/// `e` owns a component in no view of `views`.
pub open spec fn owns_none<'a, T>(views: Seq<ComponentView<'a, T>>, e: Entity) -> bool {
    forall|k: int| 0 <= k < views.len() ==> !(#[trigger] views[k]).storage_spec().has(e)
}

/// The component of `e` in the first view passes the filter.
pub open spec fn passes<'a, T>(views: Seq<ComponentView<'a, T>>, filter: ChangeFilter, e: Entity) -> bool {
    let v = views[0];
    let s = v.storage_spec();
    let i = s.sparse_view().lookup(e).unwrap().dense as int;
    filter_accepts(filter, s.ticks_seq()[i], v.world_tick_spec(), v.change_tick_spec())
}

/// What a query matches: an entity that owns every component it gets and
/// none that it excludes, and passes the filter.
pub open spec fn query_matches<'a, T>(
    gets: Seq<ComponentView<'a, T>>,
    excludes: Seq<ComponentView<'a, T>>,
    filter: ChangeFilter,
    e: Entity,
) -> bool {
    owns_all(gets, e) && owns_none(excludes, e) && passes(gets, filter, e)
}

fn matches_at<'a, T>(
    gets: &Vec<ComponentView<'a, T>>,
    excludes: &Vec<ComponentView<'a, T>>,
    filter: ChangeFilter,
    e: Entity,
) -> (r: bool)
    requires
        gets@.len() > 0,
        forall|k: int| 0 <= k < gets@.len() ==> (#[trigger] gets@[k]).storage_spec().wf(),
        forall|k: int| 0 <= k < excludes@.len() ==> (#[trigger] excludes@[k]).storage_spec().wf(),
    ensures
        r == query_matches(gets@, excludes@, filter, e),
{
    let mut k: usize = 0;
    while k < gets.len()
        invariant
            k <= gets@.len(),
            forall|j: int| 0 <= j < gets@.len() ==> (#[trigger] gets@[j]).storage_spec().wf(),
            forall|j: int| 0 <= j < k ==> (#[trigger] gets@[j]).storage_spec().has(e),
        decreases gets.len() - k,
    {
        if !gets[k].contains(e) {
            return false;
        }
        k = k + 1;
    }
    let mut k: usize = 0;
    while k < excludes.len()
        invariant
            k <= excludes@.len(),
            forall|j: int| 0 <= j < excludes@.len() ==> (#[trigger] excludes@[j]).storage_spec().wf(),
            forall|j: int| 0 <= j < k ==> !(#[trigger] excludes@[j]).storage_spec().has(e),
        decreases excludes.len() - k,
    {
        if excludes[k].contains(e) {
            return false;
        }
        k = k + 1;
    }
    let v = &gets[0];
    proof {
        v.storage_spec().lemma_has(e);
    }
    let i = v.storage.get_index(e).unwrap();
    let (world_tick, last_run) = v.change_detection_ticks();
    accepts(filter, v.ticks()[i], world_tick, last_run)
}

/// Evaluates a query over views: the shortest storage of the gotten views
/// drives a walk that probes every view, and yields each entity that owns a
/// component in every gotten view and in no excluded one and whose first
/// component passes the filter.
pub fn iter<'a, T>(
    gets: &Vec<ComponentView<'a, T>>,
    excludes: &Vec<ComponentView<'a, T>>,
    filter: ChangeFilter,
) -> (r: Iter)
    requires
        gets@.len() > 0,
        forall|k: int| 0 <= k < gets@.len() ==> (#[trigger] gets@[k]).storage_spec().wf(),
        forall|k: int| 0 <= k < excludes@.len() ==> (#[trigger] excludes@[k]).storage_spec().wf(),
    ensures
        r is Sparse,
        forall|e: Entity| #[trigger] r->Sparse_0@.contains(e) <==> query_matches(gets@, excludes@, filter, e),
        r->Sparse_0@.no_duplicates(),
{
    let mut slices: Vec<&'a [Entity]> = Vec::new();
    let mut k: usize = 0;
    while k < gets.len()
        invariant
            k <= gets@.len(),
            slices@.len() == k,
            forall|j: int| 0 <= j < k ==> (#[trigger] slices@[j])@ == gets@[j].storage_spec().dense_seq(),
        decreases gets.len() - k,
    {
        slices.push(gets[k].entities());
        k = k + 1;
    }
    let driver = shortest_entity_slice(&slices).unwrap();
    let ghost d = choose|i: int| 0 <= i < slices@.len() && slices@[i]@ == driver@;
    proof {
        gets@[d].storage_spec().lemma_no_duplicates();
    }
    let mut out: Vec<Entity> = Vec::new();
    let mut i: usize = 0;
    while i < driver.len()
        invariant
            0 <= d < gets@.len(),
            driver@ == gets@[d].storage_spec().dense_seq(),
            driver@.no_duplicates(),
            i <= driver@.len(),
            gets@.len() > 0,
            forall|j: int| 0 <= j < gets@.len() ==> (#[trigger] gets@[j]).storage_spec().wf(),
            forall|j: int| 0 <= j < excludes@.len() ==> (#[trigger] excludes@[j]).storage_spec().wf(),
            forall|e: Entity| #[trigger] out@.contains(e) <==> (driver@.subrange(0, i as int).contains(e)
                && query_matches(gets@, excludes@, filter, e)),
            out@.no_duplicates(),
        decreases driver.len() - i,
    {
        let e = driver[i];
        let ghost before = out@;
        let m = matches_at(gets, excludes, filter, e);
        if m {
            proof {
                assert(!before.contains(e)) by {
                    if before.contains(e) {
                        let k = choose|k: int| 0 <= k < i && #[trigger] driver@.subrange(0, i as int)[k] == e;
                        assert(driver@[k] == driver@[i as int]);
                    }
                }
            }
            out.push(e);
        }
        i = i + 1;
        proof {
            assert forall|x: Entity| #[trigger] out@.contains(x) <==> (driver@.subrange(0, i as int).contains(x)
                && query_matches(gets@, excludes@, filter, x)) by {
                if driver@.subrange(0, i as int).contains(x) && x != e {
                    let k = choose|k: int| 0 <= k < i && #[trigger] driver@.subrange(0, i as int)[k] == x;
                    assert(driver@.subrange(0, i - 1)[k] == x);
                }
                if driver@.subrange(0, i - 1).contains(x) {
                    let k = choose|k: int| 0 <= k < i - 1 && #[trigger] driver@.subrange(0, i - 1)[k] == x;
                    assert(driver@.subrange(0, i as int)[k] == x);
                }
                assert(driver@.subrange(0, i as int)[i - 1] == e);
                assert(out@ == if m { before.push(e) } else { before });
                assert(before.contains(x) <==> (driver@.subrange(0, i - 1).contains(x)
                    && query_matches(gets@, excludes@, filter, x)));
                if x == e && m {
                    assert(out@[before.len() as int] == e);
                }
                if out@.contains(x) && x != e {
                    let k = choose|k: int| 0 <= k < out@.len() && #[trigger] out@[k] == x;
                    assert(before[k] == x);
                }
                if before.contains(x) {
                    let k = choose|k: int| 0 <= k < before.len() && #[trigger] before[k] == x;
                    assert(out@[k] == x);
                }
            }
        }
    }
    proof {
        assert(driver@.subrange(0, i as int) =~= driver@);
        assert forall|e: Entity| #[trigger] out@.contains(e) <==> query_matches(gets@, excludes@, filter, e) by {
            if query_matches(gets@, excludes@, filter, e) {
                assert(gets@[d].storage_spec().has(e));
            }
        }
    }
    Iter::Sparse(out)
}

} // verus!
