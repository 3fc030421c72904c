use vstd::prelude::*;
use crate::entity::Entity;
use crate::storage::TypeErasedSparseSet;

verus! {

/// Issues generational entities. Destroyed entities come back with their
/// next version; a slot whose version is exhausted is retired. Entities
/// handed out by `allocate_atomic` are reported by the next `maintain`.
pub struct EntityAllocator {
    current_id: u32,
    last_id: u32,
    recycled: Vec<Entity>,
    recycled_len: usize,
}

impl EntityAllocator {
    pub closed spec fn current_id_spec(&self) -> u32 {
        self.current_id
    }

    pub closed spec fn last_id_spec(&self) -> u32 {
        self.last_id
    }

    pub closed spec fn recycled_seq(&self) -> Seq<Entity> {
        self.recycled@
    }

    pub closed spec fn recycled_len_spec(&self) -> int {
        self.recycled_len as int
    }

    pub open spec fn wf(&self) -> bool {
        &&& self.recycled_len_spec() <= self.recycled_seq().len()
        &&& self.last_id_spec() <= self.current_id_spec()
        &&& self.current_id_spec() > self.last_id_spec() ==> self.recycled_len_spec() == 0
        &&& forall|j: int|
            #![trigger self.recycled_seq()[j]]
            0 <= j < self.recycled_seq().len() ==> self.recycled_seq()[j].index < self.last_id_spec()
                && self.recycled_seq()[j].wf()
        &&& forall|j: int, k: int|
            0 <= j < self.recycled_seq().len() && 0 <= k < self.recycled_seq().len() && j != k
                ==> #[trigger] self.recycled_seq()[j].index != #[trigger] self.recycled_seq()[k].index
    }

    /// No entity was handed out by `allocate_atomic` since the last `maintain`.
    pub open spec fn settled(&self) -> bool {
        &&& self.recycled_len_spec() == self.recycled_seq().len()
        &&& self.current_id_spec() == self.last_id_spec()
    }

    /// The entities handed out by `allocate_atomic` since the last
    /// `maintain`, in the order they were handed out.
    pub open spec fn pending_seq(&self) -> Seq<Entity> {
        self.pending_recycled() + self.pending_fresh()
    }

    /// Recycled entities handed out since the last `maintain`.
    pub open spec fn pending_recycled(&self) -> Seq<Entity> {
        let n = self.recycled_seq().len();
        Seq::new((n - self.recycled_len_spec()) as nat, |i: int| self.recycled_seq()[n - 1 - i])
    }

    /// Fresh slots handed out since the last `maintain`.
    pub open spec fn pending_fresh(&self) -> Seq<Entity> {
        Seq::new(
            (self.current_id_spec() - self.last_id_spec()) as nat,
            |i: int| Entity { index: (self.last_id_spec() + i) as u32, version: 1 },
        )
    }

    /// Slot indices that no live or pending entity uses: recycled ones not yet
    /// handed out, and the ones at or past `current_id`.
    pub open spec fn can_allocate(&self) -> bool {
        self.recycled_len_spec() > 0 || self.current_id_spec() < u32::MAX
    }

    pub fn new() -> (r: Self)
        ensures
            r.wf(),
            r.settled(),
            r.current_id_spec() == 0,
            r.recycled_seq().len() == 0,
    {
        EntityAllocator { current_id: 0, last_id: 0, recycled: Vec::new(), recycled_len: 0 }
    }

    /// Takes the most recently recycled entity, or else a fresh slot.
    pub fn allocate(&mut self) -> (r: Option<Entity>)
        requires
            old(self).wf(),
            old(self).settled(),
        ensures
            final(self).wf(),
            final(self).settled(),
            old(self).recycled_seq().len() > 0 ==> {
                &&& r == Some(old(self).recycled_seq().last())
                &&& final(self).recycled_seq() == old(self).recycled_seq().drop_last()
                &&& final(self).current_id_spec() == old(self).current_id_spec()
            },
            old(self).recycled_seq().len() == 0 && old(self).current_id_spec() < u32::MAX ==> {
                &&& r == Some(Entity { index: old(self).current_id_spec(), version: 1 })
                &&& final(self).recycled_seq() == old(self).recycled_seq()
                &&& final(self).current_id_spec() == old(self).current_id_spec() + 1
            },
            old(self).recycled_seq().len() == 0 && old(self).current_id_spec() == u32::MAX ==> {
                &&& r.is_none()
                &&& final(self).recycled_seq() == old(self).recycled_seq()
                &&& final(self).current_id_spec() == old(self).current_id_spec()
            },
    {
        match self.recycled.pop() {
            Some(entity) => {
                self.recycled_len = self.recycled_len - 1;
                Some(entity)
            },
            None => {
                if self.current_id == u32::MAX {
                    return None;
                }
                let id = self.current_id;
                self.current_id = id + 1;
                self.last_id = id + 1;
                Some(Entity::with_index(id))
            },
        }
    }

    /// Hands out an entity without touching the recycled list itself: the
    /// next recycled entity not yet handed out, or else a fresh slot. Fails
    /// only when neither remains.
    pub fn allocate_atomic(&mut self) -> (r: Option<Entity>)
        requires
            old(self).wf(),
        ensures
            final(self).wf(),
            final(self).recycled_seq() == old(self).recycled_seq(),
            final(self).last_id_spec() == old(self).last_id_spec(),
            old(self).recycled_len_spec() > 0 ==> {
                &&& r == Some(old(self).recycled_seq()[old(self).recycled_len_spec() - 1])
                &&& final(self).recycled_len_spec() == old(self).recycled_len_spec() - 1
                &&& final(self).current_id_spec() == old(self).current_id_spec()
            },
            old(self).recycled_len_spec() == 0 && old(self).current_id_spec() < u32::MAX ==> {
                &&& r == Some(Entity { index: old(self).current_id_spec(), version: 1 })
                &&& final(self).recycled_len_spec() == 0
                &&& final(self).current_id_spec() == old(self).current_id_spec() + 1
            },
            r.is_none() <==> !old(self).can_allocate(),
            r.is_none() ==> *final(self) == *old(self),
            r.is_some() ==> {
                &&& !old(self).pending_seq().contains(r.unwrap())
                &&& final(self).pending_seq() == old(self).pending_seq().push(r.unwrap())
            },
    {
        let ghost pre = *self;
        if self.recycled_len > 0 {
            let n = self.recycled_len - 1;
            self.recycled_len = n;
            let e = self.recycled[n];
            proof {
                let len = pre.recycled_seq().len();
                assert(pre.current_id_spec() == pre.last_id_spec());
                assert forall|i: int| 0 <= i < pre.pending_seq().len() implies #[trigger] pre.pending_seq()[i] != e by {
                    assert(pre.pending_seq()[i] == pre.recycled_seq()[len - 1 - i]);
                }
                assert(self.pending_seq() =~= pre.pending_seq().push(e));
            }
            Some(e)
        } else if self.current_id < u32::MAX {
            let id = self.current_id;
            self.current_id = id + 1;
            proof {
                let len = pre.recycled_seq().len();
                let e = Entity { index: id, version: 1 };
                assert forall|i: int| 0 <= i < pre.pending_seq().len() implies #[trigger] pre.pending_seq()[i] != e by {
                    if i < len {
                        assert(pre.pending_seq()[i] == pre.recycled_seq()[len - 1 - i]);
                    }
                }
                assert(self.pending_seq() =~= pre.pending_seq().push(e));
            }
            Some(Entity::with_index(id))
        } else {
            None
        }
    }

    /// Recycles `entity` with its next version, or retires its slot when the
    /// version is exhausted.
    pub fn deallocate(&mut self, entity: Entity)
        requires
            old(self).wf(),
            old(self).settled(),
            entity.wf(),
            entity.index < old(self).last_id_spec(),
            forall|j: int|
                0 <= j < old(self).recycled_seq().len() ==> #[trigger] old(self).recycled_seq()[j].index
                    != entity.index,
        ensures
            final(self).wf(),
            final(self).settled(),
            final(self).current_id_spec() == old(self).current_id_spec(),
            entity.version < u32::MAX ==> final(self).recycled_seq() == old(self).recycled_seq().push(
                Entity { index: entity.index, version: (entity.version + 1) as u32 },
            ),
            entity.version == u32::MAX ==> final(self).recycled_seq() == old(self).recycled_seq(),
    {
        if let Some(next) = entity.with_next_version() {
            self.recycled.push(next);
            self.recycled_len = self.recycled.len();
        }
    }

    pub fn clear(&mut self)
        ensures
            final(self).wf(),
            final(self).settled(),
            final(self).current_id_spec() == 0,
            final(self).recycled_seq().len() == 0,
    {
        self.current_id = 0;
        self.last_id = 0;
        self.recycled.clear();
        self.recycled_len = 0;
    }

    /// Settles the entities handed out by `allocate_atomic` and returns them,
    /// in the order they were handed out.
    pub fn maintain(&mut self) -> (r: Vec<Entity>)
        requires
            old(self).wf(),
        ensures
            final(self).wf(),
            final(self).settled(),
            r@ == old(self).pending_seq(),
            final(self).recycled_seq() == old(self).recycled_seq().subrange(0, old(self).recycled_len_spec()),
            final(self).current_id_spec() == old(self).current_id_spec(),
    {
        let ghost pre = *self;
        let mut out: Vec<Entity> = Vec::new();
        let remaining = self.recycled_len;
        while self.recycled.len() > remaining
            invariant
                remaining == pre.recycled_len_spec(),
                self.recycled_len == remaining,
                self.current_id == pre.current_id_spec(),
                self.last_id == pre.last_id_spec(),
                remaining <= self.recycled@.len() <= pre.recycled_seq().len(),
                self.recycled@ == pre.recycled_seq().subrange(0, self.recycled@.len() as int),
                out@ == pre.pending_seq().subrange(0, pre.recycled_seq().len() - self.recycled@.len()),
                pre.wf(),
            decreases self.recycled@.len(),
        {
            let e = self.recycled.pop().unwrap();
            out.push(e);
            proof {
                assert(out@ =~= pre.pending_seq().subrange(0, pre.recycled_seq().len() - self.recycled@.len()));
                assert(self.recycled@ =~= pre.recycled_seq().subrange(0, self.recycled@.len() as int));
            }
        }
        let mut id = self.last_id;
        while id < self.current_id
            invariant
                pre.last_id_spec() <= id <= self.current_id == pre.current_id_spec(),
                self.last_id == pre.last_id_spec(),
                self.recycled_len == remaining,
                remaining == pre.recycled_len_spec(),
                self.recycled@ == pre.recycled_seq().subrange(0, remaining as int),
                out@ == pre.pending_seq().subrange(0, pre.recycled_seq().len() - remaining + (id - pre.last_id_spec())),
                pre.wf(),
            decreases self.current_id - id,
        {
            let ghost k = pre.recycled_seq().len() - remaining + (id - pre.last_id_spec());
            proof {
                assert(pre.pending_fresh()[id - pre.last_id_spec()] == Entity { index: id, version: 1 });
                assert(pre.pending_recycled().len() == pre.recycled_seq().len() - remaining);
                assert(pre.pending_fresh().len() == pre.current_id_spec() - pre.last_id_spec());
                assert(pre.pending_seq()[k] == pre.pending_fresh()[k - pre.pending_recycled().len()]);
            }
            out.push(Entity::with_index(id));
            id = id + 1;
            proof {
                assert(out@ =~= pre.pending_seq().subrange(0, pre.recycled_seq().len() - remaining + (id - pre.last_id_spec())));
            }
        }
        self.last_id = self.current_id;
        proof {
            assert(out@ =~= pre.pending_seq());
        }
        out
    }
}

/// The count of entities handed out since the last `maintain` is the
/// decrease of the recycled length plus the increase of the slot counter,
/// and none of them was handed out twice.
pub proof fn lemma_allocate_atomic_unique(a: EntityAllocator)
    requires
        a.wf(),
    ensures
        a.pending_seq().no_duplicates(),
        forall|i: int, j: int|
            0 <= i < a.pending_seq().len() && 0 <= j < a.pending_seq().len() && i != j
                ==> #[trigger] a.pending_seq()[i].index != #[trigger] a.pending_seq()[j].index,
        a.pending_seq().len() == (a.recycled_seq().len() - a.recycled_len_spec()) + (
        a.current_id_spec() - a.last_id_spec()),
{
    let p = a.pending_seq();
    let n = a.recycled_seq().len();
    let rl = a.recycled_len_spec();
    assert forall|i: int, j: int| 0 <= i < p.len() && 0 <= j < p.len() && i != j implies p[i].index != p[j].index by {
        if i < n - rl && j < n - rl {
            assert(p[i] == a.recycled_seq()[n - 1 - i]);
            assert(p[j] == a.recycled_seq()[n - 1 - j]);
        } else if i < n - rl {
            assert(p[i] == a.recycled_seq()[n - 1 - i]);
        } else if j < n - rl {
            assert(p[j] == a.recycled_seq()[n - 1 - j]);
        }
    }
    assert forall|i: int, j: int| 0 <= i < p.len() && 0 <= j < p.len() && i != j implies p[i] != p[j] by {
        assert(p[i].index != p[j].index);
    }
}

/// The live entities of a world and the allocator that issues them.
pub struct EntityStorage {
    storage: TypeErasedSparseSet<()>,
    allocator: EntityAllocator,
}

impl EntityStorage {
    pub closed spec fn live_set(&self) -> TypeErasedSparseSet<()> {
        self.storage
    }

    pub closed spec fn allocator_spec(&self) -> EntityAllocator {
        self.allocator
    }

    /// The live entities, in storage order.
    pub open spec fn live(&self) -> Seq<Entity> {
        self.live_set().dense_seq()
    }

    /// The live entities once the pending ones are settled.
    pub open spec fn settled_live(&self) -> Seq<Entity> {
        self.live() + self.allocator_spec().pending_seq()
    }

    pub open spec fn wf(&self) -> bool {
        &&& self.live_set().wf()
        &&& self.allocator_spec().wf()
        &&& forall|i: int|
            #![trigger self.live()[i]]
            0 <= i < self.live().len() ==> self.live()[i].index < self.allocator_spec().last_id_spec()
                && self.live()[i].wf()
        &&& forall|i: int, j: int|
            0 <= i < self.live().len() && 0 <= j < self.allocator_spec().recycled_seq().len()
                ==> #[trigger] self.live()[i].index
                != #[trigger] self.allocator_spec().recycled_seq()[j].index
    }

    /// How many more entities the allocator can hand out.
    pub open spec fn free_slots(&self) -> int {
        self.allocator_spec().recycled_len_spec() + (u32::MAX - self.allocator_spec().current_id_spec())
    }

    /// Room for the entities that `maintain` settles and one more.
    pub open spec fn has_room(&self) -> bool {
        self.settled_live().len() < u32::MAX
    }

    pub fn new() -> (r: Self)
        ensures
            r.wf(),
            r.live().len() == 0,
            r.allocator_spec().pending_seq().len() == 0,
            r.allocator_spec().current_id_spec() == 0,
            r.allocator_spec().recycled_len_spec() == 0,
    {
        EntityStorage { storage: TypeErasedSparseSet::new(0), allocator: EntityAllocator::new() }
    }

    /// Inserts the entities handed out by `create_atomic` since the last
    /// call, in the order they were handed out.
    pub fn maintain(&mut self)
        requires
            old(self).wf(),
            old(self).settled_live().len() <= u32::MAX,
        ensures
            final(self).wf(),
            final(self).allocator_spec().settled(),
            final(self).live() == old(self).settled_live(),
            final(self).allocator_spec().current_id_spec() == old(self).allocator_spec().current_id_spec(),
            final(self).allocator_spec().recycled_len_spec() == old(self).allocator_spec().recycled_len_spec(),
            final(self).allocator_spec().recycled_seq() == old(self).allocator_spec().recycled_seq().subrange(
                0,
                old(self).allocator_spec().recycled_len_spec(),
            ),
    {
        let ghost pre = *self;
        proof {
            lemma_allocate_atomic_unique(pre.allocator);
        }
        let pending = self.allocator.maintain();
        let mut k: usize = 0;
        while k < pending.len()
            invariant
                pre.wf(),
                pending@ == pre.allocator.pending_seq(),
                k <= pending@.len(),
                pre.live().len() + pending@.len() <= u32::MAX,
                self.storage.wf(),
                self.storage.dense_seq() == pre.live() + pending@.subrange(0, k as int),
                self.allocator.wf(),
                self.allocator.settled(),
                self.allocator.recycled_seq() == pre.allocator.recycled_seq().subrange(0, pre.allocator.recycled_len_spec()),
                self.allocator.current_id_spec() == pre.allocator.current_id_spec(),
                forall|i: int, j: int|
                    0 <= i < pending@.len() && 0 <= j < pending@.len() && i != j
                        ==> #[trigger] pending@[i].index != #[trigger] pending@[j].index,
            decreases pending.len() - k,
        {
            let e = pending[k];
            proof {
                let n = pre.allocator.recycled_seq().len();
                let rl = pre.allocator.recycled_len_spec();
                let np = pre.allocator.pending_recycled().len();
                if (k as int) < np {
                    assert(e == pre.allocator.pending_recycled()[k as int]);
                    assert(e == pre.allocator.recycled_seq()[n - 1 - k]);
                } else {
                    assert(e == pre.allocator.pending_fresh()[k - np]);
                }
                if self.storage.sparse_view().slot(e.index as int).is_some() {
                    let ie = self.storage.sparse_view().slot(e.index as int).unwrap();
                    let d = ie.dense as int;
                    assert(self.storage.dense_seq()[d].index == e.index);
                    if d < pre.live().len() {
                        assert(self.storage.dense_seq()[d] == pre.live()[d]);
                        if (k as int) < np {
                            assert(pre.live()[d].index != pre.allocator.recycled_seq()[n - 1 - k].index);
                        }
                        assert(false);
                    } else {
                        assert(self.storage.dense_seq()[d] == pending@[d - pre.live().len()]);
                        assert(false);
                    }
                }
            }
            let _ = self.storage.insert(e, (), 0);
            k = k + 1;
            proof {
                assert(self.storage.dense_seq() =~= pre.live() + pending@.subrange(0, k as int));
            }
        }
        proof {
            assert(pending@.subrange(0, k as int) =~= pending@);
            let n = pre.allocator.recycled_seq().len();
            let rl = pre.allocator.recycled_len_spec();
            let np = pre.allocator.pending_recycled().len();
            assert forall|i: int|
                #![trigger self.live()[i]]
                0 <= i < self.live().len() implies self.live()[i].index < self.allocator_spec().last_id_spec()
                    && self.live()[i].wf() by {
                if i >= pre.live().len() {
                    let q = i - pre.live().len();
                    if q < np {
                        assert(pending@[q] == pre.allocator.recycled_seq()[n - 1 - q]);
                    } else {
                        assert(pending@[q] == pre.allocator.pending_fresh()[q - np]);
                    }
                } else {
                    assert(self.live()[i] == pre.live()[i]);
                }
            }
            assert forall|i: int, j: int|
                0 <= i < self.live().len() && 0 <= j < self.allocator_spec().recycled_seq().len()
                    implies #[trigger] self.live()[i].index
                    != #[trigger] self.allocator_spec().recycled_seq()[j].index by {
                assert(self.allocator_spec().recycled_seq()[j] == pre.allocator.recycled_seq()[j]);
                if i >= pre.live().len() {
                    let q = i - pre.live().len();
                    if q < np {
                        assert(pending@[q] == pre.allocator.recycled_seq()[n - 1 - q]);
                    } else {
                        assert(pending@[q] == pre.allocator.pending_fresh()[q - np]);
                    }
                } else {
                    assert(self.live()[i] == pre.live()[i]);
                }
            }
        }
    }

    /// Creates a live entity.
    pub fn create(&mut self) -> (r: Entity)
        requires
            old(self).wf(),
            old(self).has_room(),
            old(self).allocator_spec().can_allocate(),
        ensures
            final(self).wf(),
            final(self).live() == old(self).settled_live().push(r),
            !old(self).settled_live().contains(r),
            final(self).allocator_spec().settled(),
            final(self).free_slots() == old(self).free_slots() - 1,
            old(self).allocator_spec().recycled_len_spec() > 0 ==> r == old(self).allocator_spec().recycled_seq()[
                old(self).allocator_spec().recycled_len_spec() - 1],
            old(self).allocator_spec().recycled_len_spec() == 0 ==> r == (Entity {
                index: old(self).allocator_spec().current_id_spec(),
                version: 1,
            }),
    {
        let ghost pre = *self;
        self.maintain();
        let ghost mid = *self;
        let entity = self.allocator.allocate().unwrap();
        proof {
            let rec = mid.allocator.recycled_seq();
            if rec.len() > 0 {
                assert(entity == rec[rec.len() - 1]);
            }
            if self.storage.sparse_view().slot(entity.index as int).is_some() {
                let ie = self.storage.sparse_view().slot(entity.index as int).unwrap();
                assert(self.storage.dense_seq()[ie.dense as int].index == entity.index);
                assert(false);
            }
            if mid.settled_live().contains(entity) {
                let i = choose|i: int| 0 <= i < mid.live().len() && mid.live()[i] == entity;
                assert(mid.storage.sparse_view().slot(mid.live()[i].index as int).is_some());
                assert(false);
            }
        }
        let _ = self.storage.insert(entity, (), 0);
        proof {
            assert(mid.allocator.pending_seq() =~= Seq::<Entity>::empty());
            assert(mid.settled_live() =~= mid.live());
            assert forall|i: int|
                #![trigger self.live()[i]]
                0 <= i < self.live().len() implies self.live()[i].index < self.allocator_spec().last_id_spec()
                    && self.live()[i].wf() by {
                if i < mid.live().len() {
                    assert(self.live()[i] == mid.live()[i]);
                }
            }
            assert forall|i: int, j: int|
                0 <= i < self.live().len() && 0 <= j < self.allocator_spec().recycled_seq().len()
                    implies #[trigger] self.live()[i].index
                    != #[trigger] self.allocator_spec().recycled_seq()[j].index by {
                assert(self.allocator_spec().recycled_seq()[j] == mid.allocator.recycled_seq()[j]);
                if i < mid.live().len() {
                    assert(self.live()[i] == mid.live()[i]);
                } else {
                    let rec = mid.allocator.recycled_seq();
                    if rec.len() > 0 {
                        assert(entity == rec[rec.len() - 1]);
                    }
                }
            }
        }
        entity
    }

    /// Hands out an entity that becomes live at the next `maintain`.
    pub fn create_atomic(&mut self) -> (r: Entity)
        requires
            old(self).wf(),
            old(self).allocator_spec().can_allocate(),
        ensures
            final(self).wf(),
            final(self).live() == old(self).live(),
            final(self).settled_live() == old(self).settled_live().push(r),
            !old(self).settled_live().contains(r),
    {
        let ghost pre = *self;
        let e = self.allocator.allocate_atomic().unwrap();
        proof {
            if pre.live().contains(e) {
                let i = choose|i: int| 0 <= i < pre.live().len() && pre.live()[i] == e;
                let a = pre.allocator;
                if a.recycled_len_spec() > 0 {
                    assert(pre.live()[i].index != a.recycled_seq()[a.recycled_len_spec() - 1].index);
                }
                assert(false);
            }
            assert(self.settled_live() =~= pre.settled_live().push(e));
        }
        e
    }

    /// Settles pending entities, then destroys `entity` if it is live.
    /// Returns whether it was.
    pub fn destroy(&mut self, entity: Entity) -> (r: bool)
        requires
            old(self).wf(),
            old(self).settled_live().len() <= u32::MAX,
        ensures
            final(self).wf(),
            r == old(self).settled_live().contains(entity),
            final(self).allocator_spec().settled(),
            r && entity.version < u32::MAX ==> final(self).allocator_spec().recycled_seq() == old(
                self,
            ).allocator_spec().recycled_seq().subrange(0, old(self).allocator_spec().recycled_len_spec()).push(
                Entity { index: entity.index, version: (entity.version + 1) as u32 },
            ),
            !r || entity.version == u32::MAX ==> final(self).allocator_spec().recycled_seq() == old(
                self,
            ).allocator_spec().recycled_seq().subrange(0, old(self).allocator_spec().recycled_len_spec()),
            forall|x: Entity|
                #![trigger final(self).live().contains(x)]
                final(self).live().contains(x) <==> (old(self).settled_live().contains(x) && x != entity),
    {
        self.maintain();
        let ghost mid = *self;
        proof {
            assert forall|x: Entity| mid.live().contains(x) == mid.live_set().has(x) by {}
        }
        if self.storage.delete(entity) {
            proof {
                let i = choose|i: int| 0 <= i < mid.live().len() && mid.live()[i] == entity;
                assert forall|j: int|
                    0 <= j < mid.allocator.recycled_seq().len() implies #[trigger] mid.allocator.recycled_seq()[j].index
                        != entity.index by {
                    assert(mid.live()[i].index != mid.allocator.recycled_seq()[j].index);
                }
            }
            self.allocator.deallocate(entity);
            proof {
                assert forall|i: int|
                    #![trigger self.live()[i]]
                    0 <= i < self.live().len() implies self.live()[i].index < self.allocator_spec().last_id_spec()
                        && self.live()[i].wf() by {
                    assert(self.live_set().has(self.live()[i]));
                    assert(mid.live_set().has(self.live()[i]));
                }
                assert forall|i: int, j: int|
                    0 <= i < self.live().len() && 0 <= j < self.allocator_spec().recycled_seq().len()
                        implies #[trigger] self.live()[i].index
                        != #[trigger] self.allocator_spec().recycled_seq()[j].index by {
                    assert(self.live_set().has(self.live()[i]));
                    assert(mid.live_set().has(self.live()[i]));
                    let m = choose|m: int| 0 <= m < mid.live().len() && mid.live()[m] == self.live()[i];
                    if j < mid.allocator.recycled_seq().len() {
                        assert(self.allocator_spec().recycled_seq()[j] == mid.allocator.recycled_seq()[j]);
                    } else {
                        let d = choose|d: int| 0 <= d < mid.live().len() && mid.live()[d] == entity;
                        if m != d {
                            mid.storage.lemma_distinct_indices(m, d);
                        }
                    }
                }
            }
            proof {
                assert forall|x: Entity| #[trigger] self.live().contains(x) <==> (mid.live().contains(x) && x != entity) by {
                    assert(self.live_set().has(x) == self.live().contains(x));
                }
            }
            true
        } else {
            proof {
                assert forall|x: Entity| #[trigger] self.live().contains(x) <==> (mid.live().contains(x) && x != entity) by {
                    if x == entity {
                        assert(!mid.live_set().has(x));
                    }
                }
            }
            false
        }
    }

    pub fn clear(&mut self)
        ensures
            final(self).wf(),
            final(self).live().len() == 0,
            final(self).allocator_spec().pending_seq().len() == 0,
    {
        self.storage = TypeErasedSparseSet::new(0);
        self.allocator.clear();
    }

    pub fn contains(&self, entity: Entity) -> (r: bool)
        requires
            self.wf(),
        ensures
            r == self.live().contains(entity),
    {
        self.storage.contains(entity)
    }

    pub fn entities(&self) -> (r: &[Entity])
        ensures
            r@ == self.live(),
    {
        self.storage.entities()
    }

    pub fn len(&self) -> (r: usize)
        ensures
            r == self.live().len(),
    {
        self.storage.len()
    }

    /// Whether `create` may be called.
    pub fn can_create(&self) -> (r: bool)
        requires
            self.wf(),
        ensures
            r == (self.has_room() && self.allocator_spec().can_allocate()),
    {
        let live = self.storage.len();
        let unsettled = self.allocator.recycled.len() - self.allocator.recycled_len;
        let fresh = self.allocator.current_id - self.allocator.last_id;
        proof {
            lemma_allocate_atomic_unique(self.allocator);
        }
        if live as u64 >= u32::MAX as u64 || unsettled as u64 >= u32::MAX as u64 {
            return false;
        }
        (live as u64 + unsettled as u64 + fresh as u64) < u32::MAX as u64 && self.can_allocate()
    }

    /// Whether `n` more entities can be created one after another.
    pub fn room_for(&self, n: usize) -> (r: bool)
        requires
            self.wf(),
        ensures
            r == (self.settled_live().len() + n < u32::MAX && self.free_slots() >= n),
    {
        let live = self.storage.len();
        let unsettled = self.allocator.recycled.len() - self.allocator.recycled_len;
        let fresh = self.allocator.current_id - self.allocator.last_id;
        proof {
            lemma_allocate_atomic_unique(self.allocator);
        }
        if live as u128 + unsettled as u128 + fresh as u128 + n as u128 >= u32::MAX as u128 {
            return false;
        }
        (self.allocator.recycled_len as u128) + ((u32::MAX - self.allocator.current_id) as u128) >= n as u128
    }

    pub fn can_allocate(&self) -> (r: bool)
        ensures
            r == self.allocator_spec().can_allocate(),
    {
        self.allocator.recycled_len > 0 || self.allocator.current_id < u32::MAX
    }
}

} // verus!
