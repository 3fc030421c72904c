use vstd::prelude::*;
use crate::entity::Entity;
use crate::group::{ComponentGroupInfo, Group, GroupFamily, Layout};
use crate::group_mask::{range_bits, GroupMask};
use crate::storage::{ComponentTypeId, TypeErasedSparseSet};
use crate::ticks::Ticks;

verus! {

/// `e` is set aside in every family and counted in no group.
pub open spec fn ungrouped<T>(c: ComponentStorages<T>, e: Entity) -> bool {
    &&& c.wf()
    &&& forall|f: int| 0 <= f < c.families_seq().len() ==> #[trigger] c.family_state(f, Set::empty().insert(e))
    &&& forall|f: int, g: int|
        0 <= f < c.families_seq().len() && 0 <= g < c.ngroups(f) ==> #[trigger] c.outside(f, g, e, c.glen(f, g))
}

/// `x` owns a component of every type of `gets` and of none of `excludes`.
pub open spec fn query_matches<T>(c: ComponentStorages<T>, gets: Seq<ComponentTypeId>, excludes: Seq<ComponentTypeId>, x: Entity) -> bool {
    &&& forall|k: int| 0 <= k < gets.len() ==> c.component_of(x, #[trigger] gets[k]).is_some()
    &&& forall|k: int| 0 <= k < excludes.len() ==> c.component_of(x, #[trigger] excludes[k]).is_none()
}

/// The gotten types name exactly the first `a` storages of family `f`.
pub open spec fn gets_span<T>(c: ComponentStorages<T>, gets: Seq<ComponentTypeId>, f: int, a: int) -> bool {
    &&& forall|k: int|
        #![trigger gets[k]]
        0 <= k < gets.len() ==> exists|j: int|
            #![trigger c.st(f, j)]
            0 <= j < a && c.st(f, j) == c.index_of(gets[k]).unwrap()
    &&& forall|j: int|
        #![trigger slot_of(c, f, j)]
        0 <= j < a ==> exists|k: int|
            #![trigger gets[k]]
            0 <= k < gets.len() && c.index_of(gets[k]).unwrap() == slot_of(c, f, j)
}

/// The registry position of the `j`-th storage of family `f`.
pub open spec fn slot_of<T>(c: ComponentStorages<T>, f: int, j: int) -> int {
    c.st(f, j)
}

/// The gotten types name exactly the storages of group `g` of family `f`.
pub open spec fn spans_group<T>(c: ComponentStorages<T>, gets: Seq<ComponentTypeId>, f: int, g: int) -> bool {
    &&& 0 <= f < c.families_seq().len()
    &&& 0 <= g < c.ngroups(f)
    &&& gets_span(c, gets, f, c.ar(f, g))
}

/// The query asks for exactly group `g` of family `f`.
pub open spec fn group_match<T>(c: ComponentStorages<T>, gets: Seq<ComponentTypeId>, excludes: Seq<ComponentTypeId>, f: int, g: int) -> bool {
    &&& 0 <= f < c.families_seq().len()
    &&& 0 <= g < c.ngroups(f)
    &&& gets_span(c, gets, f, c.ar(f, g))
    &&& excludes.len() == 0
}

/// The query asks for group `g` of family `f` without the one storage that
/// group `g + 1` adds.
pub open spec fn step_match<T>(c: ComponentStorages<T>, gets: Seq<ComponentTypeId>, excludes: Seq<ComponentTypeId>, f: int, g: int) -> bool {
    &&& 0 <= f < c.families_seq().len()
    &&& 0 <= g && g + 1 < c.ngroups(f)
    &&& gets_span(c, gets, f, c.ar(f, g))
    &&& excludes.len() == 1
    &&& c.ar(f, g + 1) == c.ar(f, g) + 1
    &&& c.index_of(excludes[0]).unwrap() == c.st(f, c.ar(f, g))
}

/// The registry of component storages, one per component type.
pub struct ComponentStorages<T> {
    storages: Vec<TypeErasedSparseSet<T>>,
    families: Vec<GroupFamily>,
}

impl<T> ComponentStorages<T> {
    pub closed spec fn storages_seq(&self) -> Seq<TypeErasedSparseSet<T>> {
        self.storages@
    }

    pub closed spec fn families_seq(&self) -> Seq<GroupFamily> {
        self.families@
    }

    /// Every family is well formed and names registered storages.
    pub open spec fn families_wf(&self) -> bool {
        forall|f: int|
            0 <= f < self.families_seq().len() ==> {
                let fam = #[trigger] self.families_seq()[f];
                &&& fam.wf()
                &&& forall|j: int| 0 <= j < fam.storages@.len() ==> #[trigger] fam.storages@[j] < self.storages_seq().len()
            }
    }

    /// Every storage keeps its sparse and dense sides in agreement, and no
    /// two storages hold the same component type.
    pub open spec fn wf(&self) -> bool {
        &&& forall|i: int|
            0 <= i < self.storages_seq().len() ==> (#[trigger] self.storages_seq()[i]).wf()
        &&& forall|i: int, j: int|
            0 <= i < self.storages_seq().len() && 0 <= j < self.storages_seq().len() && i != j
                ==> (#[trigger] self.storages_seq()[i]).type_id_spec()
                != (#[trigger] self.storages_seq()[j]).type_id_spec()
        &&& self.families_wf()
    }

    /// The position of the storage of `type_id`, if it is registered.
    pub open spec fn index_of(&self, type_id: ComponentTypeId) -> Option<int> {
        if exists|i: int|
            0 <= i < self.storages_seq().len() && (#[trigger] self.storages_seq()[i]).type_id_spec()
                == type_id {
            Some(
                choose|i: int|
                    0 <= i < self.storages_seq().len() && (#[trigger] self.storages_seq()[i]).type_id_spec()
                        == type_id,
            )
        } else {
            None
        }
    }

    pub open spec fn registered(&self, type_id: ComponentTypeId) -> bool {
        self.index_of(type_id).is_some()
    }

    /// `e` owns a component of type `type_id`.
    pub open spec fn has_component(&self, e: Entity, type_id: ComponentTypeId) -> bool {
        self.registered(type_id) && self.storages_seq()[self.index_of(type_id).unwrap()].has(e)
    }

    /// The component of type `type_id` that `e` owns, if any.
    pub open spec fn component_of(&self, e: Entity, type_id: ComponentTypeId) -> Option<T> {
        if self.registered(type_id) {
            self.storages_seq()[self.index_of(type_id).unwrap()].value_of(e)
        } else {
            None
        }
    }

    /// The storage of `type_id` can take a component for `e`.
    pub open spec fn has_room(&self, type_id: ComponentTypeId, e: Entity) -> bool {
        self.registered(type_id) ==> (self.storages_seq()[self.index_of(type_id).unwrap()].has(e)
            || self.storages_seq()[self.index_of(type_id).unwrap()].len_spec() < u32::MAX)
    }

    /// Owning a component means owning one in some storage.
    pub proof fn lemma_component_has_any(&self, e: Entity, type_id: ComponentTypeId)
        requires
            self.wf(),
            self.component_of(e, type_id).is_some(),
        ensures
            self.has_any(e),
    {
        let j = self.index_of(type_id).unwrap();
        self.storages_seq()[j].lemma_has(e);
    }

    /// Both registries hold the same components at the same storages; only
    /// dense positions and group lengths may differ.
    pub open spec fn same_views(&self, other: &Self) -> bool {
        &&& self.storages_seq().len() == other.storages_seq().len()
        &&& forall|k: int|
            0 <= k < self.storages_seq().len() ==> (#[trigger] self.storages_seq()[k]).type_id_spec()
                == other.storages_seq()[k].type_id_spec() && self.storages_seq()[k].len_spec()
                == other.storages_seq()[k].len_spec()
        &&& forall|k: int, x: Entity|
            0 <= k < self.storages_seq().len() ==> #[trigger] self.storages_seq()[k].has(x) == other.storages_seq()[k].has(x)
        &&& forall|t: ComponentTypeId| #[trigger] self.index_of(t) == other.index_of(t)
        &&& forall|x: Entity, t: ComponentTypeId| #[trigger] self.component_of(x, t) == other.component_of(x, t)
        &&& forall|x: Entity| #[trigger] self.has_any(x) == other.has_any(x)
    }

    /// Both registries have families over the same storages with the same
    /// groups; only group lengths may differ.
    pub open spec fn same_shape(&self, other: &Self) -> bool {
        &&& self.families_seq().len() == other.families_seq().len()
        &&& forall|f: int|
            0 <= f < self.families_seq().len() ==> (#[trigger] self.families_seq()[f]).storages@
                == other.families_seq()[f].storages@ && self.families_seq()[f].arity_seq()
                == other.families_seq()[f].arity_seq()
    }

    /// The position in the registry of the `j`-th storage of family `f`.
    pub open spec fn st(&self, f: int, j: int) -> int {
        self.families_seq()[f].storages@[j] as int
    }

    /// The `j`-th storage of family `f`.
    pub open spec fn fstorage(&self, f: int, j: int) -> TypeErasedSparseSet<T> {
        self.storages_seq()[self.st(f, j)]
    }

    pub open spec fn ar(&self, f: int, g: int) -> int {
        self.families_seq()[f].groups@[g].arity as int
    }

    pub open spec fn glen(&self, f: int, g: int) -> int {
        self.families_seq()[f].groups@[g].len as int
    }

    pub open spec fn ngroups(&self, f: int) -> int {
        self.families_seq()[f].groups@.len() as int
    }

    /// The dense position of `x` in the `j`-th storage of family `f`.
    pub open spec fn pos(&self, f: int, j: int, x: Entity) -> int {
        self.fstorage(f, j).pos(x)
    }

    /// `x` owns a component in every storage that group `g` of family `f`
    /// spans.
    pub open spec fn in_group(&self, f: int, g: int, x: Entity) -> bool {
        forall|j: int| 0 <= j < self.ar(f, g) ==> #[trigger] self.fstorage(f, j).has(x)
    }

    /// Wherever `x` owns a component among the storages of group `g`, it
    /// sits before position `len`.
    pub open spec fn inside(&self, f: int, g: int, x: Entity, len: int) -> bool {
        forall|j: int| 0 <= j < self.ar(f, g) && #[trigger] self.fstorage(f, j).has(x) ==> self.pos(f, j, x) < len
    }

    /// Wherever `x` owns a component among the storages of group `g`, it
    /// sits at or after position `len`.
    pub open spec fn outside(&self, f: int, g: int, x: Entity, len: int) -> bool {
        forall|j: int| 0 <= j < self.ar(f, g) && #[trigger] self.fstorage(f, j).has(x) ==> self.pos(f, j, x) >= len
    }

    /// The first `len` positions of the `j`-th storage of family `f` hold
    /// exactly the members of group `g`, the entities of `skip` aside.
    pub open spec fn prefix_at(&self, f: int, g: int, j: int, len: int, skip: Set<Entity>) -> bool {
        &&& 0 <= len <= self.fstorage(f, j).len_spec()
        &&& forall|i: int|
            0 <= i < self.fstorage(f, j).len_spec() && !skip.contains(self.fstorage(f, j).dense_seq()[i]) ==> (i
                < len <==> self.in_group(f, g, #[trigger] self.fstorage(f, j).dense_seq()[i]))
    }

    /// An entity left aside is either counted in group `g` and a member,
    /// or kept after the group's entities.
    pub open spec fn status(&self, f: int, g: int, x: Entity) -> bool {
        (self.in_group(f, g, x) && self.inside(f, g, x, self.glen(f, g))) || self.outside(f, g, x, self.glen(f, g))
    }

    /// A group spanning more storages never counts more entities.
    pub open spec fn lens_nested(&self, f: int) -> bool {
        forall|g1: int, g2: int| 0 <= g1 < g2 < self.ngroups(f) ==> #[trigger] self.glen(f, g2) <= #[trigger] self.glen(f, g1)
    }

    /// Every group of family `f` keeps its members first in each storage it
    /// spans, the entities of `skip` aside, which are counted only where they
    /// are members.
    pub open spec fn family_state(&self, f: int, skip: Set<Entity>) -> bool {
        &&& self.lens_nested(f)
        &&& forall|g: int, j: int|
            0 <= g < self.ngroups(f) && 0 <= j < self.ar(f, g) ==> #[trigger] self.prefix_at(f, g, j, self.glen(f, g), skip)
        &&& forall|g: int, x: Entity| 0 <= g < self.ngroups(f) && skip.contains(x) ==> #[trigger] self.status(f, g, x)
    }

    /// Group-Prefix holds for every group of every family.
    pub closed spec fn grouped(&self) -> bool {
        forall|f: int| 0 <= f < self.families_seq().len() ==> #[trigger] self.family_state(f, Set::empty())
    }

    /// No storage belongs to two families.
    pub open spec fn families_disjoint(&self) -> bool {
        forall|f1: int, j1: int, f2: int, j2: int|
            0 <= f1 < self.families_seq().len() && 0 <= f2 < self.families_seq().len() && f1 != f2 && 0 <= j1
                < self.families_seq()[f1].storages@.len() && 0 <= j2 < self.families_seq()[f2].storages@.len()
                ==> #[trigger] self.st(f1, j1) != #[trigger] self.st(f2, j2)
    }

    /// Membership of a group implies membership of every group before it.
    pub proof fn lemma_in_group_nested(&self, f: int, h1: int, h2: int, x: Entity)
        requires
            self.wf(),
            0 <= f < self.families_seq().len(),
            0 <= h1 <= h2 < self.ngroups(f),
            self.in_group(f, h2, x),
        ensures
            self.in_group(f, h1, x),
            self.ar(f, h1) <= self.ar(f, h2),
    {
        let fam = self.families_seq()[f];
        assert(fam.wf());
        if h1 < h2 {
            fam.lemma_arity_increasing(h1, h2);
        }
        assert forall|j: int| 0 <= j < self.ar(f, h1) implies #[trigger] self.fstorage(f, j).has(x) by {
            assert(self.fstorage(f, j).has(x));
        }
    }

    /// Facts that a well formed registry gives about family `f`.
    pub proof fn lemma_family_facts(&self, f: int, g: int)
        requires
            self.wf(),
            0 <= f < self.families_seq().len(),
            0 <= g < self.ngroups(f),
        ensures
            1 <= self.ar(f, g) <= self.families_seq()[f].storages@.len(),
            forall|j: int|
                0 <= j < self.families_seq()[f].storages@.len() ==> 0 <= #[trigger] self.st(f, j)
                    < self.storages_seq().len() && self.fstorage(f, j).wf(),
    {
        let fam = self.families_seq()[f];
        assert(fam.wf());
        fam.lemma_arity_bound(g);
        assert(fam.groups@[g].arity == fam.arity_seq()[g]);
        assert forall|j: int|
            0 <= j < self.families_seq()[f].storages@.len() implies 0 <= #[trigger] self.st(f, j)
                < self.storages_seq().len() && self.fstorage(f, j).wf() by {
            assert(fam.storages@[j] < self.storages_seq().len());
        }
    }

    /// Where an entity sits after `e`, at `p`, was exchanged with the entity
    /// at `q`.
    pub proof fn lemma_swap_positions(sb: TypeErasedSparseSet<T>, sa: TypeErasedSparseSet<T>, p: int, q: int, e: Entity, z: Entity)
        requires
            sb.wf(),
            sa.wf(),
            0 <= q < sb.len_spec(),
            0 <= p < sb.len_spec(),
            sb.dense_seq()[p] == e,
            sa.dense_seq() == sb.dense_seq().update(p, sb.dense_seq()[q]).update(q, e),
            sb.has(z),
        ensures
            sa.has(z),
            sa.pos(z) == (if z == e {
                q
            } else if z == sb.dense_seq()[q] {
                p
            } else {
                sb.pos(z)
            }),
    {
        sb.lemma_at_pos(z);
        let i = sb.pos(z);
        let x = sb.dense_seq()[q];
        let j = if z == e {
            q
        } else if z == x {
            p
        } else {
            i
        };
        if z != e && z != x {
            assert(i != p);
            assert(i != q);
        }
        assert(sa.dense_seq()[j] == z);
        sa.lemma_pos(j);
    }

    /// Grouping `e` into group `g`: in each storage of the group, `e` traded
    /// places with the entity just after the group's members, and the group
    /// grew by one.
    proof fn lemma_group_step(b: &Self, a: &Self, f: int, g: int, e: Entity, skip: Set<Entity>)
        requires
            b.wf(),
            a.wf(),
            0 <= f < b.families_seq().len(),
            0 <= g < b.ngroups(f),
            a.families_seq().len() == b.families_seq().len(),
            a.families_seq()[f].storages@ == b.families_seq()[f].storages@,
            a.ngroups(f) == b.ngroups(f),
            forall|h: int| 0 <= h < b.ngroups(f) ==> #[trigger] a.ar(f, h) == b.ar(f, h),
            forall|h: int| 0 <= h < b.ngroups(f) && h != g ==> #[trigger] a.glen(f, h) == b.glen(f, h),
            a.glen(f, g) == b.glen(f, g) + 1,
            a.storages_seq().len() == b.storages_seq().len(),
            forall|k: int, x: Entity|
                0 <= k < b.storages_seq().len() ==> #[trigger] a.storages_seq()[k].has(x) == b.storages_seq()[k].has(x),
            forall|j: int|
                b.ar(f, g) <= j < b.families_seq()[f].storages@.len() ==> #[trigger] a.fstorage(f, j) == b.fstorage(f, j),
            forall|j: int|
                0 <= j < b.ar(f, g) ==> #[trigger] a.fstorage(f, j).dense_seq() == b.fstorage(f, j).dense_seq().update(
                    b.pos(f, j, e),
                    b.fstorage(f, j).dense_seq()[b.glen(f, g)],
                ).update(b.glen(f, g), e),
            b.family_state(f, skip),
            skip.contains(e),
            forall|h: int| 0 <= h < g ==> #[trigger] b.in_group(f, h, e),
            forall|h: int| 0 <= h < g ==> #[trigger] b.inside(f, h, e, b.glen(f, h)),
            b.in_group(f, g, e),
            b.outside(f, g, e, b.glen(f, g)),
        ensures
            a.family_state(f, skip),
            forall|h: int| 0 <= h <= g ==> #[trigger] a.in_group(f, h, e),
            forall|h: int| 0 <= h <= g ==> #[trigger] a.inside(f, h, e, a.glen(f, h)),
    {
        let q = b.glen(f, g);
        let n = b.ngroups(f);
        b.lemma_family_facts(f, g);
        a.lemma_family_facts(f, g);
        assert forall|h: int, x: Entity| 0 <= h < n implies #[trigger] a.in_group(f, h, x) == b.in_group(f, h, x) by {
            assert forall|j: int|
                #![trigger a.fstorage(f, j).has(x)]
                #![trigger b.fstorage(f, j).has(x)]
                0 <= j < a.ar(f, h) implies a.fstorage(f, j).has(x) == b.fstorage(f, j).has(x) by {
                b.lemma_family_facts(f, h);
                assert(a.st(f, j) == b.st(f, j));
            }
        }
        // where e sat, and the room after each group
        assert forall|j: int| 0 <= j < b.ar(f, g) implies #[trigger] b.fstorage(f, j).has(e) && q <= b.pos(f, j, e)
            < b.fstorage(f, j).len_spec() && b.fstorage(f, j).dense_seq()[b.pos(f, j, e)] == e by {
            assert(b.fstorage(f, j).has(e));
            b.fstorage(f, j).lemma_at_pos(e);
        }
        assert(b.prefix_at(f, g, 0, q, skip));
        assert forall|h: int| 0 <= h < g implies q < #[trigger] b.glen(f, h) by {
            assert(b.in_group(f, h, e));
            assert(b.inside(f, h, e, b.glen(f, h)));
            b.lemma_family_facts(f, h);
            b.lemma_in_group_nested(f, h, g, e);
            assert(b.fstorage(f, 0).has(e));
            assert(q <= b.pos(f, 0, e));
            assert(b.pos(f, 0, e) < b.glen(f, h));
        }
        assert forall|h: int| g < h < n implies #[trigger] b.glen(f, h) <= q by {
            assert(b.lens_nested(f));
        }
        // the storages of the group keep their length and well-formedness
        assert forall|j: int| 0 <= j < b.ar(f, g) implies #[trigger] a.fstorage(f, j).len_spec() == b.fstorage(f, j).len_spec() by {
            assert(b.fstorage(f, j).has(e));
            assert(q <= b.pos(f, j, e) < b.fstorage(f, j).len_spec());
            assert(a.fstorage(f, j).dense_seq().len() == b.fstorage(f, j).dense_seq().len());
        }
        // nested lengths
        assert forall|g1: int, g2: int| 0 <= g1 < g2 < a.ngroups(f) implies #[trigger] a.glen(f, g2) <= #[trigger] a.glen(f, g1) by {
            assert(b.glen(f, g2) <= b.glen(f, g1));
        }
        // prefixes
        assert forall|h: int, j: int| 0 <= h < a.ngroups(f) && 0 <= j < a.ar(f, h) implies #[trigger] a.prefix_at(f, h, j, a.glen(f, h), skip) by {
            b.lemma_family_facts(f, h);
            assert(b.prefix_at(f, h, j, b.glen(f, h), skip));
            if j >= b.ar(f, g) {
                assert(a.fstorage(f, j) == b.fstorage(f, j));
                if h <= g {
                    b.lemma_in_group_nested(f, h, g, e);
                }
                assert forall|i: int|
                    0 <= i < a.fstorage(f, j).len_spec() && !skip.contains(a.fstorage(f, j).dense_seq()[i]) implies (i
                        < a.glen(f, h) <==> a.in_group(f, h, #[trigger] a.fstorage(f, j).dense_seq()[i])) by {
                    assert(b.fstorage(f, j).dense_seq()[i] == a.fstorage(f, j).dense_seq()[i]);
                }
            } else {
                let sb = b.fstorage(f, j);
                let sa = a.fstorage(f, j);
                let pj = b.pos(f, j, e);
                let x = sb.dense_seq()[q];
                assert(b.fstorage(f, j).has(e));
                assert(q <= pj < sb.len_spec());
                if h < g {
                    assert(b.inside(f, h, e, b.glen(f, h)));
                    b.lemma_in_group_nested(f, h, g, e);
                }
                if h > g {
                    b.families_seq()[f].lemma_arity_increasing(g, h);
                }
                assert forall|i: int|
                    0 <= i < sa.len_spec() && !skip.contains(sa.dense_seq()[i]) implies (i < a.glen(f, h) <==> a.in_group(
                        f,
                        h,
                        #[trigger] sa.dense_seq()[i],
                    )) by {
                    if i != pj && i != q {
                        assert(sa.dense_seq()[i] == sb.dense_seq()[i]);
                    } else if i == pj && pj != q {
                        assert(sa.dense_seq()[i] == x);
                        assert(!skip.contains(sb.dense_seq()[q]));
                    }
                }
            }
        }
        // the entities left aside
        assert forall|h: int, z: Entity| 0 <= h < a.ngroups(f) && skip.contains(z) implies #[trigger] a.status(f, h, z) by {
            b.lemma_family_facts(f, h);
            assert(b.status(f, h, z));
            if z == e {
                if h <= g {
                    b.lemma_in_group_nested(f, h, g, e);
                    assert forall|j: int| 0 <= j < a.ar(f, h) && #[trigger] a.fstorage(f, j).has(e) implies a.pos(f, j, e)
                        < a.glen(f, h) by {
                        b.lemma_in_group_nested(f, h, g, e);
                        assert(b.fstorage(f, j).has(e));
                        assert(q <= b.pos(f, j, e) < b.fstorage(f, j).len_spec());
                        Self::lemma_swap_positions(b.fstorage(f, j), a.fstorage(f, j), b.pos(f, j, e), q, e, e);
                    }
                } else {
                    assert(!b.inside(f, h, e, b.glen(f, h))) by {
                        b.families_seq()[f].lemma_arity_increasing(g, h);
                        assert(b.fstorage(f, 0).has(e));
                        assert(q <= b.pos(f, 0, e));
                    }
                    assert forall|j: int| 0 <= j < a.ar(f, h) && #[trigger] a.fstorage(f, j).has(e) implies a.pos(f, j, e)
                        >= a.glen(f, h) by {
                        if j < b.ar(f, g) {
                            assert(b.fstorage(f, j).has(e));
                            assert(q <= b.pos(f, j, e) < b.fstorage(f, j).len_spec());
                            Self::lemma_swap_positions(b.fstorage(f, j), a.fstorage(f, j), b.pos(f, j, e), q, e, e);
                        } else {
                            assert(a.fstorage(f, j) == b.fstorage(f, j));
                            assert(b.fstorage(f, j).has(e));
                        }
                    }
                }
            } else {
                let was_in = b.in_group(f, h, z) && b.inside(f, h, z, b.glen(f, h));
                assert forall|j: int| 0 <= j < a.ar(f, h) && #[trigger] a.fstorage(f, j).has(z) implies (if was_in {
                    a.pos(f, j, z) < a.glen(f, h)
                } else {
                    a.pos(f, j, z) >= a.glen(f, h)
                }) by {
                    assert(b.fstorage(f, j).has(z));
                    if j < b.ar(f, g) {
                        let sb = b.fstorage(f, j);
                        assert(b.fstorage(f, j).has(e));
                        assert(q <= b.pos(f, j, e) < b.fstorage(f, j).len_spec());
                        Self::lemma_swap_positions(sb, a.fstorage(f, j), b.pos(f, j, e), q, e, z);
                        sb.lemma_at_pos(z);
                        if z == sb.dense_seq()[q] {
                            sb.lemma_pos(q);
                        }
                        if h < g {
                            assert(b.inside(f, h, e, b.glen(f, h)));
                            b.lemma_in_group_nested(f, h, g, e);
                            assert(b.fstorage(f, j).has(e));
                        }
                        if h > g {
                            b.families_seq()[f].lemma_arity_increasing(g, h);
                        }
                    } else {
                        assert(a.fstorage(f, j) == b.fstorage(f, j));
                    }
                }
                if was_in {
                    assert(a.in_group(f, h, z));
                    assert(a.inside(f, h, z, a.glen(f, h)));
                } else {
                    assert(a.outside(f, h, z, a.glen(f, h)));
                }
            }
        }
        assert forall|h: int| 0 <= h <= g implies #[trigger] a.in_group(f, h, e) by {
            b.lemma_in_group_nested(f, h, g, e);
        }
        assert forall|h: int| 0 <= h <= g implies #[trigger] a.inside(f, h, e, a.glen(f, h)) by {
            b.lemma_in_group_nested(f, h, g, e);
            assert forall|j: int| 0 <= j < a.ar(f, h) && #[trigger] a.fstorage(f, j).has(e) implies a.pos(f, j, e) < a.glen(f, h) by {
                b.lemma_in_group_nested(f, h, g, e);
                assert(b.fstorage(f, j).has(e));
                assert(q <= b.pos(f, j, e) < b.fstorage(f, j).len_spec());
                Self::lemma_swap_positions(b.fstorage(f, j), a.fstorage(f, j), b.pos(f, j, e), q, e, e);
            }
        }
    }

    /// Taking `e` out of group `g`: in each storage of the group, `e` traded
    /// places with the group's last member, and the group shrank by one.
    proof fn lemma_ungroup_step(b: &Self, a: &Self, f: int, g: int, e: Entity, skip: Set<Entity>)
        requires
            b.wf(),
            a.wf(),
            0 <= f < b.families_seq().len(),
            0 <= g < b.ngroups(f),
            a.families_seq().len() == b.families_seq().len(),
            a.families_seq()[f].storages@ == b.families_seq()[f].storages@,
            a.ngroups(f) == b.ngroups(f),
            forall|h: int| 0 <= h < b.ngroups(f) ==> #[trigger] a.ar(f, h) == b.ar(f, h),
            forall|h: int| 0 <= h < b.ngroups(f) && h != g ==> #[trigger] a.glen(f, h) == b.glen(f, h),
            b.glen(f, g) >= 1,
            a.glen(f, g) == b.glen(f, g) - 1,
            a.storages_seq().len() == b.storages_seq().len(),
            forall|k: int, x: Entity|
                0 <= k < b.storages_seq().len() ==> #[trigger] a.storages_seq()[k].has(x) == b.storages_seq()[k].has(x),
            forall|j: int|
                b.ar(f, g) <= j < b.families_seq()[f].storages@.len() ==> #[trigger] a.fstorage(f, j) == b.fstorage(f, j),
            forall|j: int|
                0 <= j < b.ar(f, g) ==> #[trigger] a.fstorage(f, j).dense_seq() == b.fstorage(f, j).dense_seq().update(
                    b.pos(f, j, e),
                    b.fstorage(f, j).dense_seq()[b.glen(f, g) - 1],
                ).update(b.glen(f, g) - 1, e),
            b.family_state(f, skip),
            skip.contains(e),
            b.in_group(f, g, e),
            b.inside(f, g, e, b.glen(f, g)),
            forall|h: int| 0 <= h < g ==> #[trigger] b.inside(f, h, e, b.glen(f, h)),
            forall|h: int| g < h < b.ngroups(f) ==> #[trigger] b.outside(f, h, e, b.glen(f, h)),
        ensures
            a.family_state(f, skip),
            forall|h: int| 0 <= h < g ==> #[trigger] a.inside(f, h, e, a.glen(f, h)),
            forall|h: int| g <= h < a.ngroups(f) ==> #[trigger] a.outside(f, h, e, a.glen(f, h)),
    {
        let q = b.glen(f, g) - 1;
        let n = b.ngroups(f);
        b.lemma_family_facts(f, g);
        a.lemma_family_facts(f, g);
        assert forall|h: int, x: Entity| 0 <= h < n implies #[trigger] a.in_group(f, h, x) == b.in_group(f, h, x) by {
            assert forall|j: int|
                #![trigger a.fstorage(f, j).has(x)]
                #![trigger b.fstorage(f, j).has(x)]
                0 <= j < a.ar(f, h) implies a.fstorage(f, j).has(x) == b.fstorage(f, j).has(x) by {
                b.lemma_family_facts(f, h);
                assert(a.st(f, j) == b.st(f, j));
            }
        }
        assert forall|j: int| 0 <= j < b.ar(f, g) implies #[trigger] b.fstorage(f, j).has(e) && b.pos(f, j, e) <= q
            && q < b.fstorage(f, j).len_spec() && b.fstorage(f, j).dense_seq()[b.pos(f, j, e)] == e by {
            assert(b.fstorage(f, j).has(e));
            b.fstorage(f, j).lemma_at_pos(e);
            assert(b.prefix_at(f, g, j, b.glen(f, g), skip));
        }
        assert forall|h: int| 0 <= h < g implies q < #[trigger] b.glen(f, h) by {
            assert(b.lens_nested(f));
        }
        assert forall|h: int| g < h < n implies #[trigger] b.glen(f, h) <= b.pos(f, 0, e) by {
            assert(b.outside(f, h, e, b.glen(f, h)));
            b.families_seq()[f].lemma_arity_increasing(g, h);
            assert(b.fstorage(f, 0).has(e));
        }
        assert(b.pos(f, 0, e) <= q) by {
            assert(b.fstorage(f, 0).has(e));
        }
        assert forall|j: int| 0 <= j < b.ar(f, g) implies #[trigger] a.fstorage(f, j).len_spec() == b.fstorage(f, j).len_spec() by {
            assert(b.fstorage(f, j).has(e));
            assert(a.fstorage(f, j).dense_seq().len() == b.fstorage(f, j).dense_seq().len());
        }
        assert forall|g1: int, g2: int| 0 <= g1 < g2 < a.ngroups(f) implies #[trigger] a.glen(f, g2) <= #[trigger] a.glen(f, g1) by {
            assert(b.glen(f, g2) <= b.glen(f, g1));
        }
        assert forall|h: int, j: int| 0 <= h < a.ngroups(f) && 0 <= j < a.ar(f, h) implies #[trigger] a.prefix_at(f, h, j, a.glen(f, h), skip) by {
            b.lemma_family_facts(f, h);
            assert(b.prefix_at(f, h, j, b.glen(f, h), skip));
            if j >= b.ar(f, g) {
                assert(a.fstorage(f, j) == b.fstorage(f, j));
                if h <= g {
                    b.lemma_in_group_nested(f, h, g, e);
                }
                assert forall|i: int|
                    0 <= i < a.fstorage(f, j).len_spec() && !skip.contains(a.fstorage(f, j).dense_seq()[i]) implies (i
                        < a.glen(f, h) <==> a.in_group(f, h, #[trigger] a.fstorage(f, j).dense_seq()[i])) by {
                    assert(b.fstorage(f, j).dense_seq()[i] == a.fstorage(f, j).dense_seq()[i]);
                }
            } else {
                let sb = b.fstorage(f, j);
                let sa = a.fstorage(f, j);
                let pj = b.pos(f, j, e);
                let x = sb.dense_seq()[q];
                assert(b.fstorage(f, j).has(e));
                assert(pj <= q < sb.len_spec());
                if h < g {
                    b.lemma_in_group_nested(f, h, g, e);
                }
                if h > g {
                    b.families_seq()[f].lemma_arity_increasing(g, h);
                    assert(b.outside(f, h, e, b.glen(f, h)));
                    assert(b.glen(f, h) <= pj);
                }
                assert forall|i: int|
                    0 <= i < sa.len_spec() && !skip.contains(sa.dense_seq()[i]) implies (i < a.glen(f, h) <==> a.in_group(
                        f,
                        h,
                        #[trigger] sa.dense_seq()[i],
                    )) by {
                    if i != pj && i != q {
                        assert(sa.dense_seq()[i] == sb.dense_seq()[i]);
                    } else if i == pj && pj != q {
                        assert(sa.dense_seq()[i] == x);
                        assert(!skip.contains(sb.dense_seq()[q]));
                    }
                }
            }
        }
        assert forall|h: int, z: Entity| 0 <= h < a.ngroups(f) && skip.contains(z) implies #[trigger] a.status(f, h, z) by {
            b.lemma_family_facts(f, h);
            assert(b.status(f, h, z));
            if z == e {
                if h < g {
                    b.lemma_in_group_nested(f, h, g, e);
                    assert(b.inside(f, h, e, b.glen(f, h)));
                    assert forall|j: int| 0 <= j < a.ar(f, h) && #[trigger] a.fstorage(f, j).has(e) implies a.pos(f, j, e)
                        < a.glen(f, h) by {
                        assert(b.fstorage(f, j).has(e));
                        assert(b.pos(f, j, e) <= q < b.fstorage(f, j).len_spec());
                        Self::lemma_swap_positions(b.fstorage(f, j), a.fstorage(f, j), b.pos(f, j, e), q, e, e);
                    }
                    assert(a.in_group(f, h, e));
                } else {
                    if h > g {
                        b.families_seq()[f].lemma_arity_increasing(g, h);
                        assert(b.outside(f, h, e, b.glen(f, h)));
                    }
                    assert forall|j: int| 0 <= j < a.ar(f, h) && #[trigger] a.fstorage(f, j).has(e) implies a.pos(f, j, e)
                        >= a.glen(f, h) by {
                        assert(b.fstorage(f, j).has(e));
                        if j < b.ar(f, g) {
                            assert(b.pos(f, j, e) <= q < b.fstorage(f, j).len_spec());
                            Self::lemma_swap_positions(b.fstorage(f, j), a.fstorage(f, j), b.pos(f, j, e), q, e, e);
                        } else {
                            assert(a.fstorage(f, j) == b.fstorage(f, j));
                        }
                    }
                }
            } else {
                let was_in = b.in_group(f, h, z) && b.inside(f, h, z, b.glen(f, h));
                assert forall|j: int| 0 <= j < a.ar(f, h) && #[trigger] a.fstorage(f, j).has(z) implies (if was_in {
                    a.pos(f, j, z) < a.glen(f, h)
                } else {
                    a.pos(f, j, z) >= a.glen(f, h)
                }) by {
                    assert(b.fstorage(f, j).has(z));
                    if j < b.ar(f, g) {
                        let sb = b.fstorage(f, j);
                        assert(b.fstorage(f, j).has(e));
                        assert(b.pos(f, j, e) <= q < b.fstorage(f, j).len_spec());
                        Self::lemma_swap_positions(sb, a.fstorage(f, j), b.pos(f, j, e), q, e, z);
                        sb.lemma_at_pos(z);
                        sb.lemma_pos(q);
                        if h < g {
                            b.lemma_in_group_nested(f, h, g, e);
                        }
                        if h > g {
                            b.families_seq()[f].lemma_arity_increasing(g, h);
                            assert(b.outside(f, h, e, b.glen(f, h)));
                        }
                    } else {
                        assert(a.fstorage(f, j) == b.fstorage(f, j));
                    }
                }
                if was_in {
                    assert(a.in_group(f, h, z));
                    assert(a.inside(f, h, z, a.glen(f, h)));
                } else {
                    assert(a.outside(f, h, z, a.glen(f, h)));
                }
            }
        }
        assert forall|h: int| 0 <= h < g implies #[trigger] a.inside(f, h, e, a.glen(f, h)) by {
            b.lemma_in_group_nested(f, h, g, e);
            assert(b.inside(f, h, e, b.glen(f, h)));
            assert forall|j: int| 0 <= j < a.ar(f, h) && #[trigger] a.fstorage(f, j).has(e) implies a.pos(f, j, e) < a.glen(f, h) by {
                assert(b.fstorage(f, j).has(e));
                assert(b.pos(f, j, e) <= q < b.fstorage(f, j).len_spec());
                Self::lemma_swap_positions(b.fstorage(f, j), a.fstorage(f, j), b.pos(f, j, e), q, e, e);
            }
        }
        assert forall|h: int| g <= h < a.ngroups(f) implies #[trigger] a.outside(f, h, e, a.glen(f, h)) by {
            assert(a.status(f, h, e));
            b.lemma_family_facts(f, h);
            if h > g {
                b.families_seq()[f].lemma_arity_increasing(g, h);
                assert(b.outside(f, h, e, b.glen(f, h)));
            }
            assert forall|j: int| 0 <= j < a.ar(f, h) && #[trigger] a.fstorage(f, j).has(e) implies a.pos(f, j, e)
                >= a.glen(f, h) by {
                assert(b.fstorage(f, j).has(e));
                if j < b.ar(f, g) {
                    assert(b.pos(f, j, e) <= q < b.fstorage(f, j).len_spec());
                    Self::lemma_swap_positions(b.fstorage(f, j), a.fstorage(f, j), b.pos(f, j, e), q, e, e);
                } else {
                    assert(a.fstorage(f, j) == b.fstorage(f, j));
                }
            }
        }
    }

    /// `e` is counted in exactly the groups of family `f` it is a member of.
    pub open spec fn placed(&self, f: int, e: Entity) -> bool {
        forall|g: int|
            0 <= g < self.ngroups(f) ==> (if #[trigger] self.in_group(f, g, e) {
                self.inside(f, g, e, self.glen(f, g))
            } else {
                self.outside(f, g, e, self.glen(f, g))
            })
    }

    /// Where Group-Prefix holds for all but `skip`, every entity outside
    /// `skip` is counted in exactly the groups it is a member of.
    pub proof fn lemma_placed(&self, f: int, skip: Set<Entity>, e: Entity)
        requires
            self.wf(),
            0 <= f < self.families_seq().len(),
            self.family_state(f, skip),
            !skip.contains(e),
        ensures
            self.placed(f, e),
    {
        assert forall|g: int| 0 <= g < self.ngroups(f) implies (if #[trigger] self.in_group(f, g, e) {
            self.inside(f, g, e, self.glen(f, g))
        } else {
            self.outside(f, g, e, self.glen(f, g))
        }) by {
            self.lemma_family_facts(f, g);
            assert forall|j: int| 0 <= j < self.ar(f, g) && #[trigger] self.fstorage(f, j).has(e) implies (self.pos(f, j, e)
                < self.glen(f, g) <==> self.in_group(f, g, e)) by {
                self.fstorage(f, j).lemma_at_pos(e);
                assert(self.prefix_at(f, g, j, self.glen(f, g), skip));
            }
        }
    }

    /// Setting `e` aside keeps the family's state.
    pub proof fn lemma_widen(&self, f: int, skip: Set<Entity>, e: Entity)
        requires
            self.wf(),
            0 <= f < self.families_seq().len(),
            self.family_state(f, skip),
        ensures
            self.family_state(f, skip.insert(e)),
    {
        if !skip.contains(e) {
            self.lemma_placed(f, skip, e);
        }
        assert forall|g: int, j: int|
            0 <= g < self.ngroups(f) && 0 <= j < self.ar(f, g) implies #[trigger] self.prefix_at(f, g, j, self.glen(f, g), skip.insert(e)) by {
            assert(self.prefix_at(f, g, j, self.glen(f, g), skip));
        }
        assert forall|g: int, x: Entity| 0 <= g < self.ngroups(f) && skip.insert(e).contains(x) implies #[trigger] self.status(f, g, x) by {
            if x == e && !skip.contains(e) {
                assert(self.in_group(f, g, e) ==> self.inside(f, g, e, self.glen(f, g)));
            }
        }
    }

    /// An entity set aside that is counted in exactly the groups it is a
    /// member of needs no longer be set aside.
    pub proof fn lemma_narrow(&self, f: int, skip: Set<Entity>, e: Entity)
        requires
            self.wf(),
            0 <= f < self.families_seq().len(),
            self.family_state(f, skip),
            self.placed(f, e),
        ensures
            self.family_state(f, skip.remove(e)),
    {
        assert forall|g: int, j: int|
            0 <= g < self.ngroups(f) && 0 <= j < self.ar(f, g) implies #[trigger] self.prefix_at(f, g, j, self.glen(f, g), skip.remove(e)) by {
            assert(self.prefix_at(f, g, j, self.glen(f, g), skip));
            self.lemma_family_facts(f, g);
            let st = self.fstorage(f, j);
            assert forall|i: int|
                0 <= i < st.len_spec() && !skip.remove(e).contains(st.dense_seq()[i]) implies (i < self.glen(f, g)
                    <==> self.in_group(f, g, #[trigger] st.dense_seq()[i])) by {
                if st.dense_seq()[i] == e {
                    st.lemma_pos(i);
                    assert(self.in_group(f, g, e) ==> self.inside(f, g, e, self.glen(f, g)));
                }
            }
        }
    }

    /// A family whose storages and groups are unchanged has the same members,
    /// positions and placements.
    pub proof fn lemma_family_views(a: &Self, b: &Self, f: int)
        requires
            b.wf(),
            0 <= f < b.families_seq().len(),
            f < a.families_seq().len(),
            a.families_seq()[f] == b.families_seq()[f],
            forall|j: int| 0 <= j < b.families_seq()[f].storages@.len() ==> #[trigger] a.fstorage(f, j) == b.fstorage(f, j),
        ensures
            forall|g: int, x: Entity| 0 <= g < b.ngroups(f) ==> #[trigger] a.in_group(f, g, x) == b.in_group(f, g, x),
            forall|g: int, x: Entity|
                #![trigger a.outside(f, g, x, a.glen(f, g))]
                #![trigger a.inside(f, g, x, a.glen(f, g))]
                0 <= g < b.ngroups(f) ==> a.outside(f, g, x, a.glen(f, g)) == b.outside(f, g, x, b.glen(f, g))
                    && a.inside(f, g, x, a.glen(f, g)) == b.inside(f, g, x, b.glen(f, g)),
            forall|x: Entity| #[trigger] a.placed(f, x) == b.placed(f, x),
    {
        assert forall|g: int, x: Entity| 0 <= g < b.ngroups(f) implies #[trigger] a.in_group(f, g, x) == b.in_group(f, g, x) by {
            b.lemma_family_facts(f, g);
            assert forall|j: int|
                #![trigger a.fstorage(f, j).has(x)]
                #![trigger b.fstorage(f, j).has(x)]
                0 <= j < a.ar(f, g) implies a.fstorage(f, j).has(x) == b.fstorage(f, j).has(x) by {
                assert(a.fstorage(f, j) == b.fstorage(f, j));
            }
        }
        assert forall|g: int, x: Entity|
            #![trigger a.outside(f, g, x, a.glen(f, g))]
            #![trigger a.inside(f, g, x, a.glen(f, g))]
            #![trigger b.outside(f, g, x, b.glen(f, g))]
            #![trigger b.inside(f, g, x, b.glen(f, g))]
            0 <= g < b.ngroups(f) implies a.outside(f, g, x, a.glen(f, g)) == b.outside(f, g, x, b.glen(f, g))
            && a.inside(f, g, x, a.glen(f, g)) == b.inside(f, g, x, b.glen(f, g)) by {
            b.lemma_family_facts(f, g);
            assert(a.glen(f, g) == b.glen(f, g));
            assert forall|j: int|
                #![trigger a.fstorage(f, j).has(x)]
                #![trigger b.fstorage(f, j).has(x)]
                0 <= j < a.ar(f, g) implies a.fstorage(f, j) == b.fstorage(f, j) by {}
        }
        assert forall|x: Entity| #[trigger] a.placed(f, x) == b.placed(f, x) by {
            if a.placed(f, x) {
                assert forall|g: int| 0 <= g < b.ngroups(f) implies (if #[trigger] b.in_group(f, g, x) {
                    b.inside(f, g, x, b.glen(f, g))
                } else {
                    b.outside(f, g, x, b.glen(f, g))
                }) by {
                    assert(a.in_group(f, g, x) == b.in_group(f, g, x));
                    assert(a.inside(f, g, x, a.glen(f, g)) == b.inside(f, g, x, b.glen(f, g)));
                }
            }
            if b.placed(f, x) {
                assert forall|g: int| 0 <= g < a.ngroups(f) implies (if #[trigger] a.in_group(f, g, x) {
                    a.inside(f, g, x, a.glen(f, g))
                } else {
                    a.outside(f, g, x, a.glen(f, g))
                }) by {
                    assert(a.in_group(f, g, x) == b.in_group(f, g, x));
                    assert(a.inside(f, g, x, a.glen(f, g)) == b.inside(f, g, x, b.glen(f, g)));
                }
            }
        }
    }

    /// A family whose storages and groups are unchanged keeps its state.
    pub proof fn lemma_family_frame(a: &Self, b: &Self, f: int, skip: Set<Entity>)
        requires
            b.wf(),
            0 <= f < b.families_seq().len(),
            f < a.families_seq().len(),
            a.families_seq()[f] == b.families_seq()[f],
            forall|j: int| 0 <= j < b.families_seq()[f].storages@.len() ==> #[trigger] a.fstorage(f, j) == b.fstorage(f, j),
            b.family_state(f, skip),
        ensures
            a.family_state(f, skip),
            forall|x: Entity| #[trigger] a.placed(f, x) == b.placed(f, x),
            forall|g: int, x: Entity| 0 <= g < b.ngroups(f) ==> #[trigger] a.outside(f, g, x, a.glen(f, g)) == b.outside(f, g, x, b.glen(f, g)),
    {
        Self::lemma_family_views(a, b, f);
        assert forall|g: int, j: int|
            0 <= g < a.ngroups(f) && 0 <= j < a.ar(f, g) implies #[trigger] a.prefix_at(f, g, j, a.glen(f, g), skip) by {
            b.lemma_family_facts(f, g);
            assert(b.prefix_at(f, g, j, b.glen(f, g), skip));
            assert(a.fstorage(f, j) == b.fstorage(f, j));
        }
        assert forall|g: int, x: Entity| 0 <= g < a.ngroups(f) && skip.contains(x) implies #[trigger] a.status(f, g, x) by {
            assert(b.status(f, g, x));
            assert(a.in_group(f, g, x) == b.in_group(f, g, x));
            assert(a.inside(f, g, x, a.glen(f, g)) == b.inside(f, g, x, b.glen(f, g)));
        }
        assert forall|g1: int, g2: int| 0 <= g1 < g2 < a.ngroups(f) implies #[trigger] a.glen(f, g2) <= #[trigger] a.glen(f, g1) by {
            assert(b.glen(f, g2) <= b.glen(f, g1));
        }
    }

    /// In a grouped registry any entity can be set aside, and it is counted
    /// in exactly the groups it is a member of.
    pub proof fn lemma_ungroup_ready(&self, e: Entity)
        requires
            self.wf(),
            self.grouped(),
        ensures
            forall|f: int| 0 <= f < self.families_seq().len() ==> #[trigger] self.family_state(f, Set::empty().insert(e)),
            forall|f: int| 0 <= f < self.families_seq().len() ==> #[trigger] self.placed(f, e),
    {
        assert forall|f: int| 0 <= f < self.families_seq().len() implies #[trigger] self.family_state(f, Set::empty().insert(e)) by {
            assert(self.family_state(f, Set::empty()));
            self.lemma_widen(f, Set::empty(), e);
        }
        assert forall|f: int| 0 <= f < self.families_seq().len() implies #[trigger] self.placed(f, e) by {
            assert(self.family_state(f, Set::empty()));
            self.lemma_placed(f, Set::empty(), e);
        }
    }

    /// Storages with the same entities in the same order place them alike.
    pub proof fn lemma_same_dense_pos(sb: TypeErasedSparseSet<T>, sa: TypeErasedSparseSet<T>, z: Entity)
        requires
            sb.wf(),
            sa.wf(),
            sa.dense_seq().len() >= sb.dense_seq().len(),
            forall|i: int| 0 <= i < sb.len_spec() ==> #[trigger] sa.dense_seq()[i] == sb.dense_seq()[i],
            sb.has(z),
        ensures
            sa.has(z),
            sa.pos(z) == sb.pos(z),
    {
        sb.lemma_at_pos(z);
        sa.lemma_pos(sb.pos(z));
    }

    /// Storage `k` gained `e` at its end, or already held it: with `e` set
    /// aside every family still holds.
    proof fn lemma_insert_transition(b: &Self, a: &Self, k: int, e: Entity)
        requires
            b.wf(),
            a.wf(),
            b.grouped(),
            0 <= k < b.storages_seq().len(),
            a.families_seq() == b.families_seq(),
            a.storages_seq().len() == b.storages_seq().len(),
            forall|m: int| 0 <= m < b.storages_seq().len() && m != k ==> #[trigger] a.storages_seq()[m] == b.storages_seq()[m],
            a.storages_seq()[k].dense_seq() == (if b.storages_seq()[k].has(e) {
                b.storages_seq()[k].dense_seq()
            } else {
                b.storages_seq()[k].dense_seq().push(e)
            }),
            forall|x: Entity| #[trigger] a.storages_seq()[k].has(x) == (b.storages_seq()[k].has(x) || x == e),
        ensures
            forall|f: int| 0 <= f < a.families_seq().len() ==> #[trigger] a.family_state(f, Set::empty().insert(e)),
    {
        let skip = Set::<Entity>::empty().insert(e);
        assert forall|f: int| 0 <= f < a.families_seq().len() implies #[trigger] a.family_state(f, skip) by {
            assert(b.family_state(f, Set::empty()));
            b.lemma_placed(f, Set::empty(), e);
            b.lemma_widen(f, Set::empty(), e);
            assert(Set::<Entity>::empty().insert(e) =~= skip);
            b.lemma_family_facts(f, 0);
            let nst = b.families_seq()[f].storages@.len();
            assert forall|h: int, x: Entity| 0 <= h < b.ngroups(f) && x != e implies #[trigger] a.in_group(f, h, x) == b.in_group(f, h, x) by {
                b.lemma_family_facts(f, h);
                assert forall|j: int|
                    #![trigger a.fstorage(f, j).has(x)]
                    #![trigger b.fstorage(f, j).has(x)]
                    0 <= j < a.ar(f, h) implies a.fstorage(f, j).has(x) == b.fstorage(f, j).has(x) by {
                    if b.st(f, j) != k {
                        assert(a.fstorage(f, j) == b.fstorage(f, j));
                    }
                }
            }
            assert forall|j: int| 0 <= j < nst implies #[trigger] a.fstorage(f, j).len_spec() >= b.fstorage(f, j).len_spec()
                && forall|i: int| 0 <= i < b.fstorage(f, j).len_spec() ==> #[trigger] a.fstorage(f, j).dense_seq()[i]
                    == b.fstorage(f, j).dense_seq()[i] by {
                if b.st(f, j) != k {
                    assert(a.fstorage(f, j) == b.fstorage(f, j));
                }
            }
            assert forall|g: int, j: int| 0 <= g < a.ngroups(f) && 0 <= j < a.ar(f, g) implies #[trigger] a.prefix_at(
                f,
                g,
                j,
                a.glen(f, g),
                skip,
            ) by {
                b.lemma_family_facts(f, g);
                assert(b.prefix_at(f, g, j, b.glen(f, g), skip));
                let sa = a.fstorage(f, j);
                let sb = b.fstorage(f, j);
                assert(a.fstorage(f, j).len_spec() >= b.fstorage(f, j).len_spec());
                assert forall|i: int| 0 <= i < sa.len_spec() && !skip.contains(sa.dense_seq()[i]) implies (i < a.glen(f, g)
                    <==> a.in_group(f, g, #[trigger] sa.dense_seq()[i])) by {
                    if i < sb.len_spec() {
                        assert(sa.dense_seq()[i] == sb.dense_seq()[i]);
                    } else {
                        assert(b.st(f, j) == k);
                    }
                }
            }
            assert forall|g: int, x: Entity| 0 <= g < a.ngroups(f) && skip.contains(x) implies #[trigger] a.status(f, g, x) by {
                assert(x == e);
                b.lemma_family_facts(f, g);
                assert forall|j: int| 0 <= j < a.ar(f, g) && #[trigger] a.fstorage(f, j).has(e) && b.fstorage(f, j).has(e)
                    implies a.pos(f, j, e) == b.pos(f, j, e) by {
                    Self::lemma_same_dense_pos(b.fstorage(f, j), a.fstorage(f, j), e);
                }
                if b.in_group(f, g, e) {
                    assert forall|j: int|
                        #![trigger a.fstorage(f, j).has(e)]
                        0 <= j < a.ar(f, g) implies a.fstorage(f, j).has(e) == b.fstorage(f, j).has(e) by {
                        assert(b.fstorage(f, j).has(e));
                    }
                    assert(a.in_group(f, g, e));
                    assert(b.inside(f, g, e, b.glen(f, g)));
                    assert(a.inside(f, g, e, a.glen(f, g)));
                } else {
                    assert(b.outside(f, g, e, b.glen(f, g)));
                    assert forall|j: int| 0 <= j < a.ar(f, g) && #[trigger] a.fstorage(f, j).has(e) implies a.pos(f, j, e)
                        >= a.glen(f, g) by {
                        if !b.fstorage(f, j).has(e) {
                            assert(b.st(f, j) == k);
                            assert(b.prefix_at(f, g, j, b.glen(f, g), Set::empty()));
                            a.fstorage(f, j).lemma_pos(b.fstorage(f, j).len_spec());
                        }
                    }
                    assert(a.outside(f, g, e, a.glen(f, g)));
                }
            }
            assert forall|g1: int, g2: int| 0 <= g1 < g2 < a.ngroups(f) implies #[trigger] a.glen(f, g2) <= #[trigger] a.glen(f, g1) by {
                assert(b.glen(f, g2) <= b.glen(f, g1));
            }
        }
    }

    /// Storage `k` lost `e`, its last entity taking `e`'s place; `e` was
    /// outside every group, and stays so.
    proof fn lemma_remove_transition(b: &Self, a: &Self, k: int, e: Entity)
        requires
            b.wf(),
            a.wf(),
            0 <= k < b.storages_seq().len(),
            a.families_seq() == b.families_seq(),
            a.storages_seq().len() == b.storages_seq().len(),
            forall|m: int| 0 <= m < b.storages_seq().len() && m != k ==> #[trigger] a.storages_seq()[m] == b.storages_seq()[m],
            b.storages_seq()[k].has(e) ==> a.storages_seq()[k].dense_seq() == b.storages_seq()[k].dense_seq().update(
                b.storages_seq()[k].pos(e),
                b.storages_seq()[k].dense_seq().last(),
            ).drop_last(),
            !b.storages_seq()[k].has(e) ==> a.storages_seq()[k] == b.storages_seq()[k],
            forall|x: Entity| #[trigger] a.storages_seq()[k].has(x) == (b.storages_seq()[k].has(x) && x != e),
            forall|f: int| 0 <= f < b.families_seq().len() ==> #[trigger] b.family_state(f, Set::empty().insert(e)),
            forall|f: int, g: int|
                0 <= f < b.families_seq().len() && 0 <= g < b.ngroups(f) ==> #[trigger] b.outside(f, g, e, b.glen(f, g)),
        ensures
            forall|f: int| 0 <= f < a.families_seq().len() ==> #[trigger] a.family_state(f, Set::empty().insert(e)),
            forall|f: int, g: int|
                0 <= f < a.families_seq().len() && 0 <= g < a.ngroups(f) ==> #[trigger] a.outside(f, g, e, a.glen(f, g)),
    {
        let skip = Set::<Entity>::empty().insert(e);
        let sbk = b.storages_seq()[k];
        if sbk.has(e) {
            sbk.lemma_at_pos(e);
        }
        assert forall|f: int, g: int| 0 <= f < a.families_seq().len() && 0 <= g < a.ngroups(f) implies #[trigger] a.outside(
            f,
            g,
            e,
            a.glen(f, g),
        ) by {
            assert(b.outside(f, g, e, b.glen(f, g)));
            b.lemma_family_facts(f, g);
            assert forall|j: int| 0 <= j < a.ar(f, g) && #[trigger] a.fstorage(f, j).has(e) implies a.pos(f, j, e)
                >= a.glen(f, g) by {
                assert(b.st(f, j) != k);
                assert(a.fstorage(f, j) == b.fstorage(f, j));
            }
        }
        assert forall|f: int| 0 <= f < a.families_seq().len() implies #[trigger] a.family_state(f, skip) by {
            assert(b.family_state(f, skip));
            b.lemma_family_facts(f, 0);
            assert forall|h: int, x: Entity| 0 <= h < b.ngroups(f) && x != e implies #[trigger] a.in_group(f, h, x) == b.in_group(f, h, x) by {
                b.lemma_family_facts(f, h);
                assert forall|j: int|
                    #![trigger a.fstorage(f, j).has(x)]
                    #![trigger b.fstorage(f, j).has(x)]
                    0 <= j < a.ar(f, h) implies a.fstorage(f, j).has(x) == b.fstorage(f, j).has(x) by {
                    if b.st(f, j) != k {
                        assert(a.fstorage(f, j) == b.fstorage(f, j));
                    }
                }
            }
            assert forall|g: int, j: int| 0 <= g < a.ngroups(f) && 0 <= j < a.ar(f, g) implies #[trigger] a.prefix_at(
                f,
                g,
                j,
                a.glen(f, g),
                skip,
            ) by {
                b.lemma_family_facts(f, g);
                assert(b.prefix_at(f, g, j, b.glen(f, g), skip));
                let sa = a.fstorage(f, j);
                let sb = b.fstorage(f, j);
                if b.st(f, j) != k || !sbk.has(e) {
                    assert(sa == sb);
                    assert forall|i: int| 0 <= i < sa.len_spec() && !skip.contains(sa.dense_seq()[i]) implies (i < a.glen(
                        f,
                        g,
                    ) <==> a.in_group(f, g, #[trigger] sa.dense_seq()[i])) by {
                        assert(sa.dense_seq()[i] == sb.dense_seq()[i]);
                    }
                } else {
                    let p = sb.pos(e);
                    let n = sb.len_spec();
                    assert(b.outside(f, g, e, b.glen(f, g)));
                    assert(p >= b.glen(f, g));
                    assert forall|i: int| 0 <= i < sa.len_spec() && !skip.contains(sa.dense_seq()[i]) implies (i < a.glen(
                        f,
                        g,
                    ) <==> a.in_group(f, g, #[trigger] sa.dense_seq()[i])) by {
                        if i != p {
                            assert(sa.dense_seq()[i] == sb.dense_seq()[i]);
                        } else {
                            assert(sa.dense_seq()[i] == sb.dense_seq()[n - 1]);
                            sb.lemma_pos(n - 1);
                            assert(sb.dense_seq()[n - 1] != e);
                        }
                    }
                }
            }
            assert forall|g: int, x: Entity| 0 <= g < a.ngroups(f) && skip.contains(x) implies #[trigger] a.status(f, g, x) by {
                assert(x == e);
                assert(a.outside(f, g, e, a.glen(f, g)));
            }
            assert forall|g1: int, g2: int| 0 <= g1 < g2 < a.ngroups(f) implies #[trigger] a.glen(f, g2) <= #[trigger] a.glen(f, g1) by {
                assert(b.glen(f, g2) <= b.glen(f, g1));
            }
        }
    }

    /// `e` owns a component in some storage.
    pub open spec fn has_any(&self, e: Entity) -> bool {
        exists|i: int| 0 <= i < self.storages_seq().len() && (#[trigger] self.storages_seq()[i]).has(e)
    }

    /// Registries with the same types at the same positions find every type
    /// at the same position.
    pub proof fn lemma_same_types(&self, other: &Self)
        requires
            self.storages_seq().len() == other.storages_seq().len(),
            forall|k: int|
                0 <= k < self.storages_seq().len() ==> (#[trigger] self.storages_seq()[k]).type_id_spec()
                    == other.storages_seq()[k].type_id_spec(),
            self.wf(),
        ensures
            forall|t: ComponentTypeId| #[trigger] self.index_of(t) == other.index_of(t),
    {
        assert forall|t: ComponentTypeId| #[trigger] self.index_of(t) == other.index_of(t) by {
            if self.registered(t) {
                let a = self.index_of(t).unwrap();
                assert(other.storages_seq()[a].type_id_spec() == t);
                let b = other.index_of(t).unwrap();
                assert(self.storages_seq()[b].type_id_spec() == t);
            }
            if other.registered(t) {
                let b = other.index_of(t).unwrap();
                assert(self.storages_seq()[b].type_id_spec() == t);
            }
        }
    }

    pub fn new() -> (r: Self)
        ensures
            r.wf(),
            r.grouped(),
            r.families_disjoint(),
            r.storages_seq().len() == 0,
    {
        ComponentStorages { storages: Vec::new(), families: Vec::new() }
    }

    /// Finds the storage of `type_id`.
    pub fn find(&self, type_id: ComponentTypeId) -> (r: Option<usize>)
        requires
            self.wf(),
        ensures
            r.is_some() == self.registered(type_id),
            r.is_some() ==> r.unwrap() == self.index_of(type_id).unwrap() && r.unwrap()
                < self.storages_seq().len() && self.storages_seq()[r.unwrap() as int].type_id_spec()
                == type_id,
    {
        let mut i: usize = 0;
        while i < self.storages.len()
            invariant
                self.wf(),
                i <= self.storages@.len(),
                forall|k: int| 0 <= k < i ==> (#[trigger] self.storages@[k]).type_id_spec() != type_id,
            decreases self.storages.len() - i,
        {
            if self.storages[i].component_type_id() == type_id {
                proof {
                    let j = self.index_of(type_id).unwrap();
                    assert(self.storages_seq()[j].type_id_spec() == type_id);
                    assert(self.storages_seq()[i as int].type_id_spec() == type_id);
                }
                return Some(i);
            }
            i = i + 1;
        }
        None
    }

    pub fn is_registered(&self, type_id: ComponentTypeId) -> (r: bool)
        requires
            self.wf(),
        ensures
            r == self.registered(type_id),
    {
        self.find(type_id).is_some()
    }

    /// Creates an empty storage for `type_id` unless one exists; returns
    /// its position.
    pub fn register(&mut self, type_id: ComponentTypeId) -> (r: usize)
        requires
            old(self).wf(),
        ensures
            final(self).wf(),
            final(self).registered(type_id),
            r == final(self).index_of(type_id).unwrap(),
            r < final(self).storages_seq().len(),
            old(self).registered(type_id) ==> final(self).storages_seq() == old(self).storages_seq(),
            !old(self).registered(type_id) ==> r == old(self).storages_seq().len(),
            final(self).families_seq() == old(self).families_seq(),
            forall|k: int| 0 <= k < old(self).storages_seq().len() ==> #[trigger] final(self).storages_seq()[k] == old(self).storages_seq()[k],
            old(self).grouped() ==> final(self).grouped(),
            forall|t: ComponentTypeId| #[trigger] old(self).registered(t) ==> final(self).registered(t)
                && final(self).index_of(t) == old(self).index_of(t),
            forall|t: ComponentTypeId| #[trigger] final(self).registered(t) ==> old(self).registered(t)
                || t == type_id,
            !old(self).registered(type_id) ==> {
                &&& final(self).storages_seq().len() == old(self).storages_seq().len() + 1
                &&& final(self).storages_seq().drop_last() == old(self).storages_seq()
                &&& final(self).storages_seq().last().dense_seq().len() == 0
                &&& final(self).storages_seq().last().type_id_spec() == type_id
            },
    {
        match self.find(type_id) {
            Some(i) => i,
            None => {
                let n = self.storages.len();
                self.storages.push(TypeErasedSparseSet::new(type_id));
                proof {
                    assert forall|f: int| 0 <= f < self.families_seq().len() implies {
                        let fam = #[trigger] self.families_seq()[f];
                        &&& fam.wf()
                        &&& forall|j: int| 0 <= j < fam.storages@.len() ==> #[trigger] fam.storages@[j] < self.storages_seq().len()
                    } by {
                        assert(old(self).families_seq()[f] == self.families_seq()[f]);
                    }
                    assert(self.storages_seq()[n as int].type_id_spec() == type_id);
                    assert(self.storages_seq().drop_last() =~= old(self).storages_seq());
                    let j = self.index_of(type_id).unwrap();
                    assert(j == n);
                    if old(self).grouped() {
                        assert forall|f: int| 0 <= f < self.families_seq().len() implies #[trigger] self.family_state(f, Set::empty()) by {
                            assert(old(self).family_state(f, Set::empty()));
                            old(self).lemma_family_facts(f, 0);
                            Self::lemma_family_frame(self, old(self), f, Set::empty());
                        }
                    }
                    assert forall|t: ComponentTypeId| #[trigger] old(self).registered(t) implies self.registered(t)
                        && self.index_of(t) == old(self).index_of(t) by {
                        let a = old(self).index_of(t).unwrap();
                        assert(self.storages_seq()[a].type_id_spec() == t);
                        let b = self.index_of(t).unwrap();
                        if b == n {
                            assert(t == type_id);
                        } else {
                            assert(old(self).storages_seq()[b].type_id_spec() == t);
                        }
                    }
                    assert forall|t: ComponentTypeId| #[trigger] self.registered(t) implies old(self).registered(t)
                        || t == type_id by {
                        let b = self.index_of(t).unwrap();
                        if b != n {
                            assert(old(self).storages_seq()[b].type_id_spec() == t);
                        }
                    }
                }
                n
            },
        }
    }

    /// Stores `component` of type `type_id` for `entity`, registering the
    /// type if needed, and returns the component it replaced.
    pub fn insert(&mut self, entity: Entity, type_id: ComponentTypeId, component: T, tick: Ticks) -> (r: Option<T>)
        requires
            old(self).wf(),
            old(self).has_room(type_id, entity),
        ensures
            final(self).wf(),
            final(self).registered(type_id),
            final(self).component_of(entity, type_id) == Some(component),
            forall|x: Entity, t: ComponentTypeId|
                #![trigger final(self).component_of(x, t)]
                (t != type_id || x.index != entity.index) ==> final(self).component_of(x, t) == old(
                    self,
                ).component_of(x, t),
            forall|t: ComponentTypeId| #[trigger] old(self).registered(t) ==> final(self).registered(t),
            forall|x: Entity| #[trigger] final(self).has_any(x) ==> old(self).has_any(x) || x == entity,
            final(self).families_seq() == old(self).families_seq(),
            old(self).grouped() && (forall|x: Entity| #[trigger] old(self).has_any(x) && x.index == entity.index ==> x == entity)
                ==> forall|f: int| 0 <= f < final(self).families_seq().len() ==> #[trigger] final(self).family_state(
                f,
                Set::empty().insert(entity),
            ),
    {
        let i = self.register(type_id);
        let ghost mid = *self;
        let r = self.storages[i].insert(entity, component, tick);
        proof {
            assert forall|f: int| 0 <= f < self.families_seq().len() implies {
                let fam = #[trigger] self.families_seq()[f];
                &&& fam.wf()
                &&& forall|j: int| 0 <= j < fam.storages@.len() ==> #[trigger] fam.storages@[j] < self.storages_seq().len()
            } by {
                assert(mid.families_seq()[f] == self.families_seq()[f]);
            }
            assert forall|k: int| 0 <= k < self.storages_seq().len() implies (#[trigger] self.storages_seq()[k]).wf() by {
                if k != i {
                    assert(self.storages_seq()[k] == mid.storages_seq()[k]);
                }
            }
            assert forall|k: int| 0 <= k < self.storages_seq().len() implies (#[trigger] self.storages_seq()[k]).type_id_spec()
                == mid.storages_seq()[k].type_id_spec() by {
                if k != i {
                    assert(self.storages_seq()[k] == mid.storages_seq()[k]);
                }
            }
            mid.lemma_same_types(self);
            assert forall|x: Entity, t: ComponentTypeId|
                (t != type_id || x.index != entity.index) implies #[trigger] self.component_of(x, t)
                    == old(self).component_of(x, t) by {
                if mid.registered(t) && !old(self).registered(t) {
                    let j = mid.index_of(t).unwrap();
                    assert(t == type_id);
                    mid.storages_seq()[j].lemma_has(x);
                }
            }
            assert forall|x: Entity| #[trigger] self.has_any(x) implies mid.has_any(x) || x == entity by {
                let k = choose|k: int| 0 <= k < self.storages_seq().len() && (#[trigger] self.storages_seq()[k]).has(x);
                if k != i {
                    assert(mid.storages_seq()[k] == self.storages_seq()[k]);
                } else {
                    assert(mid.storages_seq()[k].has(x) || x == entity);
                }
            }
            assert forall|x: Entity| #[trigger] mid.has_any(x) implies old(self).has_any(x) by {
                let k = choose|k: int| 0 <= k < mid.storages_seq().len() && (#[trigger] mid.storages_seq()[k]).has(x);
                if k < old(self).storages_seq().len() {
                    assert(mid.storages_seq()[k] == old(self).storages_seq()[k]);
                }
            }
            if old(self).grouped() && (forall|x: Entity| #[trigger] old(self).has_any(x) && x.index == entity.index ==> x == entity) {
                let sb = mid.storages_seq()[i as int];
                let sa = self.storages_seq()[i as int];
                assert forall|x: Entity| sb.has(x) && x.index == entity.index implies x == entity by {
                    if i < old(self).storages_seq().len() {
                        assert(old(self).storages_seq()[i as int] == sb);
                        assert(old(self).has_any(x));
                    } else {
                        assert(sb.dense_seq().len() == 0);
                    }
                }
                if sb.sparse_view().slot(entity.index as int).is_some() {
                    let ie = sb.sparse_view().slot(entity.index as int).unwrap();
                    assert(sb.dense_seq()[ie.dense as int].index == entity.index);
                    sb.lemma_pos(ie.dense as int);
                    assert(sb.dense_seq()[ie.dense as int] == entity);
                    assert(sb.has(entity));
                    assert(sa.dense_seq() =~= sb.dense_seq());
                } else {
                    sb.lemma_has(entity);
                }
                assert forall|x: Entity| #[trigger] sa.has(x) == (sb.has(x) || x == entity) by {}
                assert forall|m: int| 0 <= m < mid.storages_seq().len() && m != i implies #[trigger] self.storages_seq()[m] == mid.storages_seq()[m] by {}
                Self::lemma_insert_transition(&mid, self, i as int, entity);
            }
        }
        r
    }

    /// Removes the component of type `type_id` from `entity` and returns it.
    pub fn remove(&mut self, entity: Entity, type_id: ComponentTypeId) -> (r: Option<T>)
        requires
            old(self).wf(),
        ensures
            final(self).wf(),
            r == old(self).component_of(entity, type_id),
            final(self).component_of(entity, type_id).is_none(),
            forall|x: Entity, t: ComponentTypeId|
                #![trigger final(self).component_of(x, t)]
                (t != type_id || x != entity) ==> final(self).component_of(x, t) == old(self).component_of(x, t),
            forall|t: ComponentTypeId| #[trigger] final(self).registered(t) == old(self).registered(t),
            forall|x: Entity| #[trigger] final(self).has_any(x) ==> old(self).has_any(x),
            final(self).families_seq() == old(self).families_seq(),
            ungrouped(*old(self), entity) ==> ungrouped(*final(self), entity),
    {
        match self.find(type_id) {
            None => None,
            Some(i) => {
                let ghost mid = *self;
                let removed = self.storages[i].remove(entity);
                proof {
                    if ungrouped(mid, entity) {
                        let sb = mid.storages_seq()[i as int];
                        sb.lemma_has(entity);
                        assert forall|m: int| 0 <= m < mid.storages_seq().len() && m != i implies #[trigger] self.storages_seq()[m] == mid.storages_seq()[m] by {}
                        assert forall|x: Entity| #[trigger] self.storages_seq()[i as int].has(x) == (sb.has(x) && x != entity) by {}
                        Self::lemma_remove_transition(&mid, self, i as int, entity);
                    }
                    self.lemma_after_update(&mid, i as int);
                    mid.storages_seq()[i as int].lemma_has(entity);
                    assert forall|x: Entity| #[trigger] self.has_any(x) implies mid.has_any(x) by {
                        let k = choose|k: int| 0 <= k < self.storages_seq().len() && (#[trigger] self.storages_seq()[k]).has(x);
                        if k != i {
                            assert(mid.storages_seq()[k] == self.storages_seq()[k]);
                        } else {
                            assert(mid.storages_seq()[k].has(x));
                        }
                    }
                }
                match removed {
                    Some(pair) => Some(pair.0),
                    None => None,
                }
            },
        }
    }

    /// After storage `i` changed in place, keeping its type and shape, the
    /// registry is still well formed and finds every type where it did.
    proof fn lemma_after_update(&self, before: &Self, i: int)
        requires
            before.wf(),
            0 <= i < before.storages_seq().len(),
            self.storages_seq().len() == before.storages_seq().len(),
            self.storages_seq()[i].wf(),
            self.storages_seq()[i].type_id_spec() == before.storages_seq()[i].type_id_spec(),
            self.families_seq() == before.families_seq(),
            forall|k: int|
                0 <= k < self.storages_seq().len() && k != i ==> #[trigger] self.storages_seq()[k]
                    == before.storages_seq()[k],
        ensures
            self.wf(),
            forall|t: ComponentTypeId| #[trigger] self.index_of(t) == before.index_of(t),
            forall|x: Entity, t: ComponentTypeId|
                before.index_of(t) != Some(i) ==> #[trigger] self.component_of(x, t) == before.component_of(x, t),
    {
        assert forall|k: int| 0 <= k < self.storages_seq().len() implies (#[trigger] self.storages_seq()[k]).type_id_spec()
            == before.storages_seq()[k].type_id_spec() by {
            if k != i {
                assert(self.storages_seq()[k] == before.storages_seq()[k]);
            }
        }
        assert forall|k: int| 0 <= k < self.storages_seq().len() implies (#[trigger] self.storages_seq()[k]).wf() by {
            if k != i {
                assert(self.storages_seq()[k] == before.storages_seq()[k]);
            }
        }
        assert forall|a: int, b: int|
            0 <= a < self.storages_seq().len() && 0 <= b < self.storages_seq().len() && a != b
                implies (#[trigger] self.storages_seq()[a]).type_id_spec()
                != (#[trigger] self.storages_seq()[b]).type_id_spec() by {
            assert(before.storages_seq()[a].type_id_spec() != before.storages_seq()[b].type_id_spec());
        }
        before.lemma_same_types(self);
        assert forall|f: int| 0 <= f < self.families_seq().len() implies {
            let fam = #[trigger] self.families_seq()[f];
            &&& fam.wf()
            &&& forall|j: int| 0 <= j < fam.storages@.len() ==> #[trigger] fam.storages@[j] < self.storages_seq().len()
        } by {
            assert(before.families_seq()[f] == self.families_seq()[f]);
        }
    }

    /// Removes every component of `entity`.
    pub fn remove_entity(&mut self, entity: Entity)
        requires
            old(self).wf(),
        ensures
            final(self).wf(),
            forall|t: ComponentTypeId| #[trigger] final(self).component_of(entity, t).is_none(),
            forall|x: Entity, t: ComponentTypeId|
                #![trigger final(self).component_of(x, t)]
                x != entity ==> final(self).component_of(x, t) == old(self).component_of(x, t),
            forall|t: ComponentTypeId| #[trigger] final(self).registered(t) == old(self).registered(t),
            forall|x: Entity| #[trigger] final(self).has_any(x) <==> (old(self).has_any(x) && x != entity),
            final(self).families_seq() == old(self).families_seq(),
            ungrouped(*old(self), entity) ==> ungrouped(*final(self), entity),
    {
        let mut i: usize = 0;
        while i < self.storages.len()
            invariant
                self.families_seq() == old(self).families_seq(),
                ungrouped(*old(self), entity) ==> ungrouped(*self, entity),
                self.wf(),
                i <= self.storages_seq().len(),
                self.storages_seq().len() == old(self).storages_seq().len(),
                forall|t: ComponentTypeId| #[trigger] self.index_of(t) == old(self).index_of(t),
                forall|k: int| 0 <= k < i ==> !(#[trigger] self.storages_seq()[k]).has(entity),
                forall|k: int, x: Entity|
                    0 <= k < self.storages_seq().len() ==> (#[trigger] self.storages_seq()[k].has(x) <==> (
                    old(self).storages_seq()[k].has(x) && (x != entity || k >= i))),
                forall|k: int, x: Entity|
                    0 <= k < self.storages_seq().len() && x != entity ==> #[trigger] self.storages_seq()[k].value_of(x)
                        == old(self).storages_seq()[k].value_of(x),
                forall|k: int|
                    i <= k < self.storages_seq().len() ==> #[trigger] self.storages_seq()[k]
                        == old(self).storages_seq()[k],
            decreases self.storages.len() - i,
        {
            let ghost mid = *self;
            let _ = self.storages[i].remove(entity);
            proof {
                if ungrouped(mid, entity) {
                    let sb = mid.storages_seq()[i as int];
                    sb.lemma_has(entity);
                    assert forall|m: int| 0 <= m < mid.storages_seq().len() && m != i implies #[trigger] self.storages_seq()[m] == mid.storages_seq()[m] by {}
                    assert forall|x: Entity| #[trigger] self.storages_seq()[i as int].has(x) == (sb.has(x) && x != entity) by {}
                    Self::lemma_remove_transition(&mid, self, i as int, entity);
                }
                self.lemma_after_update(&mid, i as int);
                assert forall|k: int, x: Entity|
                    0 <= k < self.storages_seq().len() implies (#[trigger] self.storages_seq()[k].has(x) <==> (
                    old(self).storages_seq()[k].has(x) && (x != entity || k >= i + 1))) by {
                    if k != i {
                        assert(self.storages_seq()[k] == mid.storages_seq()[k]);
                    }
                }
                assert forall|k: int, x: Entity|
                    0 <= k < self.storages_seq().len() && x != entity implies #[trigger] self.storages_seq()[k].value_of(x)
                        == old(self).storages_seq()[k].value_of(x) by {
                    if k != i {
                        assert(self.storages_seq()[k] == mid.storages_seq()[k]);
                    }
                }
                assert forall|k: int| 0 <= k < i + 1 implies !(#[trigger] self.storages_seq()[k]).has(entity) by {
                    if k != i {
                        assert(self.storages_seq()[k] == mid.storages_seq()[k]);
                    }
                }
            }
            i = i + 1;
        }
        proof {
            assert forall|t: ComponentTypeId| #[trigger] self.component_of(entity, t).is_none() by {
                if self.registered(t) {
                    let j = self.index_of(t).unwrap();
                    assert(!self.storages_seq()[j].has(entity));
                    self.storages_seq()[j].lemma_has(entity);
                }
            }
            assert forall|x: Entity| #[trigger] self.has_any(x) <==> (old(self).has_any(x) && x != entity) by {
                if self.has_any(x) {
                    let k = choose|k: int| 0 <= k < self.storages_seq().len() && (#[trigger] self.storages_seq()[k]).has(x);
                    assert(old(self).storages_seq()[k].has(x));
                }
                if old(self).has_any(x) && x != entity {
                    let k = choose|k: int| 0 <= k < old(self).storages_seq().len() && (#[trigger] old(self).storages_seq()[k]).has(x);
                    assert(self.storages_seq()[k].has(x));
                }
            }
        }
    }

    /// Removes every component, keeping the registered storages.
    pub fn clear(&mut self)
        requires
            old(self).wf(),
        ensures
            final(self).wf(),
            final(self).same_shape(old(self)),
            final(self).grouped(),
            forall|f: int, g: int|
                0 <= f < final(self).families_seq().len() && 0 <= g < final(self).families_seq()[f].groups@.len()
                    ==> (#[trigger] final(self).families_seq()[f].groups@[g]).len == 0,
            forall|x: Entity, t: ComponentTypeId| #[trigger] final(self).component_of(x, t).is_none(),
            forall|t: ComponentTypeId| #[trigger] final(self).registered(t) == old(self).registered(t),
            forall|x: Entity| !(#[trigger] final(self).has_any(x)),
    {
        let mut i: usize = 0;
        while i < self.storages.len()
            invariant
                self.wf(),
                i <= self.storages_seq().len(),
                self.storages_seq().len() == old(self).storages_seq().len(),
                forall|t: ComponentTypeId| #[trigger] self.index_of(t) == old(self).index_of(t),
                forall|k: int| 0 <= k < i ==> (#[trigger] self.storages_seq()[k]).dense_seq().len() == 0,
                self.families_seq() == old(self).families_seq(),
            decreases self.storages.len() - i,
        {
            let ghost mid = *self;
            self.storages[i].clear();
            proof {
                self.lemma_after_update(&mid, i as int);
                assert forall|k: int| 0 <= k < i + 1 implies (#[trigger] self.storages_seq()[k]).dense_seq().len() == 0 by {
                    if k != i {
                        assert(self.storages_seq()[k] == mid.storages_seq()[k]);
                    }
                }
            }
            i = i + 1;
        }
        proof {
            assert forall|x: Entity, t: ComponentTypeId| #[trigger] self.component_of(x, t).is_none() by {
                if self.registered(t) {
                    let j = self.index_of(t).unwrap();
                    self.storages_seq()[j].lemma_has(x);
                }
            }
        }
        let ghost cleared = *self;
        let mut f: usize = 0;
        while f < self.families.len()
            invariant
                self.wf(),
                self.storages_seq() == cleared.storages_seq(),
                forall|k: int| 0 <= k < self.storages_seq().len() ==> (#[trigger] self.storages_seq()[k]).dense_seq().len() == 0,
                self.same_shape(old(self)),
                f <= self.families_seq().len(),
                forall|h: int, g: int|
                    0 <= h < f && 0 <= g < self.families_seq()[h].groups@.len()
                        ==> (#[trigger] self.families_seq()[h].groups@[g]).len == 0,
            decreases self.families_seq().len() - f,
        {
            let n = self.families[f].groups.len();
            let mut g: usize = 0;
            while g < n
                invariant
                    self.wf(),
                    self.storages_seq() == cleared.storages_seq(),
                    forall|k: int| 0 <= k < self.storages_seq().len() ==> (#[trigger] self.storages_seq()[k]).dense_seq().len() == 0,
                    self.same_shape(old(self)),
                    f < self.families_seq().len(),
                    n == self.families_seq()[f as int].groups@.len(),
                    g <= n,
                    forall|h: int, k: int|
                        0 <= h < f && 0 <= k < self.families_seq()[h].groups@.len()
                            ==> (#[trigger] self.families_seq()[h].groups@[k]).len == 0,
                    forall|k: int| 0 <= k < g ==> (#[trigger] self.families_seq()[f as int].groups@[k]).len == 0,
                decreases n - g,
            {
                let ghost mid = *self;
                self.families[f].set_group_len(g, 0);
                proof {
                    assert forall|h: int| 0 <= h < self.families_seq().len() implies {
                        let fam = #[trigger] self.families_seq()[h];
                        &&& fam.wf()
                        &&& forall|j: int| 0 <= j < fam.storages@.len() ==> #[trigger] fam.storages@[j] < self.storages_seq().len()
                    } by {
                        if h != f {
                            assert(self.families_seq()[h] == mid.families_seq()[h]);
                        } else {
                            assert(self.families_seq()[h].arity_seq() == mid.families_seq()[h].arity_seq());
                        }
                    }
                    assert forall|h: int| 0 <= h < self.families_seq().len() implies (#[trigger] self.families_seq()[h]).storages@
                        == old(self).families_seq()[h].storages@ && self.families_seq()[h].arity_seq()
                        == old(self).families_seq()[h].arity_seq() by {
                        if h != f {
                            assert(self.families_seq()[h] == mid.families_seq()[h]);
                        }
                    }
                    assert forall|h: int, k: int|
                        0 <= h < f && 0 <= k < self.families_seq()[h].groups@.len()
                            implies (#[trigger] self.families_seq()[h].groups@[k]).len == 0 by {
                        assert(self.families_seq()[h] == mid.families_seq()[h]);
                    }
                }
                g = g + 1;
            }
            f = f + 1;
        }
        proof {
            assert forall|x: Entity, t: ComponentTypeId| #[trigger] self.component_of(x, t).is_none() by {
                assert(self.component_of(x, t) == cleared.component_of(x, t));
            }
            assert forall|t: ComponentTypeId| #[trigger] self.registered(t) == old(self).registered(t) by {
                assert(self.registered(t) == cleared.registered(t));
            }
            assert forall|x: Entity| !(#[trigger] self.has_any(x)) by {
                assert(self.has_any(x) == cleared.has_any(x));
            }
            self.lemma_empty_grouped();
        }
    }

    /// Empty storages and empty groups satisfy Group-Prefix.
    proof fn lemma_empty_grouped(&self)
        requires
            self.wf(),
            forall|k: int| 0 <= k < self.storages_seq().len() ==> (#[trigger] self.storages_seq()[k]).dense_seq().len() == 0,
            forall|f: int, g: int|
                0 <= f < self.families_seq().len() && 0 <= g < self.families_seq()[f].groups@.len()
                    ==> (#[trigger] self.families_seq()[f].groups@[g]).len == 0,
        ensures
            self.grouped(),
    {
        assert forall|f: int| 0 <= f < self.families_seq().len() implies #[trigger] self.family_state(f, Set::empty()) by {
            self.lemma_family_facts(f, 0);
            assert forall|g: int, j: int| 0 <= g < self.ngroups(f) && 0 <= j < self.ar(f, g) implies #[trigger] self.prefix_at(
                f,
                g,
                j,
                self.glen(f, g),
                Set::empty(),
            ) by {
                self.lemma_family_facts(f, g);
                assert(self.families_seq()[f].groups@[g].len == 0);
                assert(self.fstorage(f, j).dense_seq().len() == 0);
            }
            assert forall|g1: int, g2: int| 0 <= g1 < g2 < self.ngroups(f) implies #[trigger] self.glen(f, g2) <= #[trigger] self.glen(f, g1) by {
                assert(self.families_seq()[f].groups@[g1].len == 0);
                assert(self.families_seq()[f].groups@[g2].len == 0);
            }
        }
    }

    /// The storage of `type_id`.
    pub fn storage(&self, type_id: ComponentTypeId) -> (r: Option<&TypeErasedSparseSet<T>>)
        requires
            self.wf(),
        ensures
            r.is_some() == self.registered(type_id),
            r.is_some() ==> *r.unwrap() == self.storages_seq()[self.index_of(type_id).unwrap()],
    {
        match self.find(type_id) {
            Some(i) => Some(&self.storages[i]),
            None => None,
        }
    }

    /// Registries with the same storages have the same views.
    pub proof fn lemma_same_storages(&self, other: &Self)
        requires
            self.storages_seq() == other.storages_seq(),
        ensures
            self.same_views(other),
    {
        assert forall|t: ComponentTypeId| #[trigger] self.index_of(t) == other.index_of(t) by {}
        assert forall|x: Entity, t: ComponentTypeId| #[trigger] self.component_of(x, t) == other.component_of(x, t) by {}
        assert forall|x: Entity| #[trigger] self.has_any(x) == other.has_any(x) by {}
    }

    pub proof fn lemma_same_views_trans(a: &Self, b: &Self, c: &Self)
        requires
            a.same_views(b),
            b.same_views(c),
        ensures
            a.same_views(c),
    {
        assert forall|k: int, x: Entity|
            0 <= k < a.storages_seq().len() implies #[trigger] a.storages_seq()[k].has(x) == c.storages_seq()[k].has(x) by {
            assert(a.storages_seq()[k].has(x) == b.storages_seq()[k].has(x));
        }
        assert forall|k: int|
            0 <= k < a.storages_seq().len() implies (#[trigger] a.storages_seq()[k]).type_id_spec()
                == c.storages_seq()[k].type_id_spec() && a.storages_seq()[k].len_spec()
                == c.storages_seq()[k].len_spec() by {
            assert(b.storages_seq()[k].type_id_spec() == c.storages_seq()[k].type_id_spec());
        }
        assert forall|t: ComponentTypeId| #[trigger] a.index_of(t) == c.index_of(t) by {
            assert(a.index_of(t) == b.index_of(t));
        }
        assert forall|x: Entity, t: ComponentTypeId| #[trigger] a.component_of(x, t) == c.component_of(x, t) by {
            assert(a.component_of(x, t) == b.component_of(x, t));
        }
        assert forall|x: Entity| #[trigger] a.has_any(x) == c.has_any(x) by {
            assert(a.has_any(x) == b.has_any(x));
        }
    }

    /// Exchanges two dense positions of storage `s`.
    fn swap_in(&mut self, s: usize, a: usize, b: usize)
        requires
            old(self).wf(),
            s < old(self).storages_seq().len(),
            a < old(self).storages_seq()[s as int].len_spec(),
            b < old(self).storages_seq()[s as int].len_spec(),
        ensures
            final(self).wf(),
            final(self).same_views(old(self)),
            final(self).families_seq() == old(self).families_seq(),
            final(self).storages_seq()[s as int].dense_seq() == old(self).storages_seq()[s as int].dense_seq().update(
                a as int,
                old(self).storages_seq()[s as int].dense_seq()[b as int],
            ).update(b as int, old(self).storages_seq()[s as int].dense_seq()[a as int]),
            forall|k: int| 0 <= k < old(self).storages_seq().len() && k != s ==> #[trigger] final(self).storages_seq()[k]
                == old(self).storages_seq()[k],
    {
        let ghost before = *self;
        self.storages[s].swap(a, b);
        proof {
            self.lemma_after_update(&before, s as int);
            assert forall|k: int, x: Entity|
                0 <= k < self.storages_seq().len() implies #[trigger] self.storages_seq()[k].has(x)
                == before.storages_seq()[k].has(x) by {
                if k != s {
                    assert(self.storages_seq()[k] == before.storages_seq()[k]);
                }
            }
            assert forall|k: int|
                0 <= k < self.storages_seq().len() implies (#[trigger] self.storages_seq()[k]).type_id_spec()
                    == before.storages_seq()[k].type_id_spec() && self.storages_seq()[k].len_spec()
                    == before.storages_seq()[k].len_spec() by {
                if k != s {
                    assert(self.storages_seq()[k] == before.storages_seq()[k]);
                }
            }
            assert forall|x: Entity, t: ComponentTypeId| #[trigger] self.component_of(x, t) == before.component_of(x, t) by {
                if before.index_of(t) == Some(s as int) {
                    assert(self.storages_seq()[s as int].value_of(x) == before.storages_seq()[s as int].value_of(x));
                }
            }
            assert forall|x: Entity| #[trigger] self.has_any(x) == before.has_any(x) by {
                if self.has_any(x) {
                    let k = choose|k: int| 0 <= k < self.storages_seq().len() && (#[trigger] self.storages_seq()[k]).has(x);
                    assert(before.storages_seq()[k].has(x));
                }
                if before.has_any(x) {
                    let k = choose|k: int| 0 <= k < before.storages_seq().len() && (#[trigger] before.storages_seq()[k]).has(x);
                    assert(self.storages_seq()[k].has(x));
                }
            }
        }
    }

    /// Whether `e` is a member of group `g` of family `f`.
    fn owns_all(&self, f: usize, g: usize, e: Entity) -> (r: bool)
        requires
            self.wf(),
            f < self.families_seq().len(),
            g < self.ngroups(f as int),
        ensures
            r == self.in_group(f as int, g as int, e),
    {
        proof {
            self.lemma_family_facts(f as int, g as int);
        }
        let fam = &self.families[f];
        let arity = fam.groups[g].arity;
        let mut j: usize = 0;
        while j < arity
            invariant
                self.wf(),
                f < self.families_seq().len(),
                *fam == self.families_seq()[f as int],
                arity == self.ar(f as int, g as int),
                arity <= fam.storages@.len(),
                forall|m: int|
                    0 <= m < fam.storages@.len() ==> 0 <= #[trigger] self.st(f as int, m) < self.storages_seq().len(),
                j <= arity,
                forall|m: int| 0 <= m < j ==> #[trigger] self.fstorage(f as int, m).has(e),
            decreases arity - j,
        {
            proof {
                assert(0 <= self.st(f as int, j as int) < self.storages_seq().len());
            }
            if !self.storages[fam.storages[j]].contains(e) {
                proof {
                    assert(!self.fstorage(f as int, j as int).has(e));
                }
                return false;
            }
            j = j + 1;
        }
        true
    }

    /// Storages outside family `f` are the same in both registries.
    pub open spec fn same_outside(&self, other: &Self, f: int) -> bool {
        &&& self.storages_seq().len() == other.storages_seq().len()
        &&& forall|k: int|
            0 <= k < self.storages_seq().len() && !self.families_seq()[f].storages@.contains(k as usize)
                ==> #[trigger] self.storages_seq()[k] == other.storages_seq()[k]
    }

    /// Families over the same storage lists stay disjoint.
    pub proof fn lemma_disjoint_kept(&self, before: &Self)
        requires
            before.families_disjoint(),
            self.same_shape(before),
        ensures
            self.families_disjoint(),
    {
        assert forall|f1: int, j1: int, f2: int, j2: int|
            0 <= f1 < self.families_seq().len() && 0 <= f2 < self.families_seq().len() && f1 != f2 && 0 <= j1
                < self.families_seq()[f1].storages@.len() && 0 <= j2 < self.families_seq()[f2].storages@.len()
                implies #[trigger] self.st(f1, j1) != #[trigger] self.st(f2, j2) by {
            assert(before.st(f1, j1) != before.st(f2, j2));
        }
    }

    /// After work confined to the storages of family `f`, every other family
    /// sees the same storages.
    proof fn lemma_outside_family(&self, after: &Self, f: int, h: int)
        requires
            self.wf(),
            self.families_disjoint(),
            0 <= f < self.families_seq().len(),
            0 <= h < self.families_seq().len(),
            h != f,
            after.same_outside(self, f),
            after.families_seq()[h] == self.families_seq()[h],
            after.families_seq()[f].storages@ == self.families_seq()[f].storages@,
        ensures
            forall|j: int| 0 <= j < self.families_seq()[h].storages@.len() ==> #[trigger] after.fstorage(h, j) == self.fstorage(h, j),
    {
        assert forall|j: int| 0 <= j < self.families_seq()[h].storages@.len() implies #[trigger] after.fstorage(h, j) == self.fstorage(h, j) by {
            let k = self.st(h, j);
            self.lemma_family_facts(h, 0);
            assert(!self.families_seq()[f].storages@.contains(k as usize)) by {
                if self.families_seq()[f].storages@.contains(k as usize) {
                    let m = choose|m: int| 0 <= m < self.families_seq()[f].storages@.len() && self.families_seq()[f].storages@[m] == k as usize;
                    assert(self.st(f, m) == self.st(h, j));
                }
            }
        }
    }

    /// Moves `e` into every group of family `f` it is a member of, nearest
    /// group first. `e` was set aside; afterwards it no longer needs be.
    fn group_entity(&mut self, f: usize, e: Entity, Ghost(skip): Ghost<Set<Entity>>)
        requires
            old(self).wf(),
            f < old(self).families_seq().len(),
            old(self).family_state(f as int, skip),
            skip.contains(e),
        ensures
            final(self).wf(),
            final(self).same_views(old(self)),
            final(self).same_shape(old(self)),
            final(self).family_state(f as int, skip.remove(e)),
            final(self).same_outside(old(self), f as int),
            forall|h: int| 0 <= h < old(self).families_seq().len() && h != f ==> #[trigger] final(self).families_seq()[h]
                == old(self).families_seq()[h],
    {
        let ghost start = *self;
        proof {
            self.lemma_same_storages(self);
        }
        let list = self.families[f].storages.clone();
        proof {
            assert(list@ =~= self.families_seq()[f as int].storages@);
            self.lemma_family_facts(f as int, 0);
        }
        let n_groups = self.families[f].groups.len();
        let mut g: usize = 0;
        let mut done = false;
        while g < n_groups && !done
            invariant
                done ==> forall|h: int| g <= h < n_groups ==> !(#[trigger] self.in_group(f as int, h, e)),
                self.wf(),
                self.same_views(&start),
                self.same_shape(&start),
                self.same_outside(&start, f as int),
                forall|h: int| 0 <= h < start.families_seq().len() && h != f ==> #[trigger] self.families_seq()[h]
                    == start.families_seq()[h],
                f < self.families_seq().len(),
                list@ == self.families_seq()[f as int].storages@,
                n_groups == self.ngroups(f as int),
                g <= n_groups,
                self.family_state(f as int, skip),
                skip.contains(e),
                forall|h: int| 0 <= h < g ==> #[trigger] self.in_group(f as int, h, e),
                forall|h: int| 0 <= h < g ==> #[trigger] self.inside(f as int, h, e, self.glen(f as int, h)),
            decreases n_groups - g + (if done {
                0int
            } else {
                1int
            }),
        {
            let ghost before = *self;
            let arity = self.families[f].groups[g].arity;
            proof {
                self.lemma_family_facts(f as int, g as int);
            }
            if !self.owns_all(f, g, e) {
                proof {
                    assert(!self.in_group(f as int, g as int, e));
                    assert forall|h: int| g <= h < n_groups implies !(#[trigger] self.in_group(f as int, h, e)) by {
                        if self.in_group(f as int, h, e) {
                            self.lemma_in_group_nested(f as int, g as int, h, e);
                        }
                    }
                }
                done = true;
                continue;
            }
            let len = self.families[f].groups[g].len;
            let first = list[0];
            proof {
                assert(self.fstorage(f as int, 0).has(e));
                self.fstorage(f as int, 0).lemma_at_pos(e);
                assert(self.status(f as int, g as int, e));
            }
            let p0 = self.storages[first].get_index(e).unwrap();
            if p0 >= len {
                proof {
                    assert(self.outside(f as int, g as int, e, self.glen(f as int, g as int)));
                }
                let mut j: usize = 0;
                while j < arity
                    invariant
                        self.wf(),
                        before.wf(),
                        self.same_views(&before),
                        self.families_seq() == before.families_seq(),
                        f < self.families_seq().len(),
                        g < n_groups,
                        n_groups == before.ngroups(f as int),
                        list@ == before.families_seq()[f as int].storages@,
                        arity == before.ar(f as int, g as int),
                        len == before.glen(f as int, g as int),
                        j <= arity <= list@.len(),
                        before.in_group(f as int, g as int, e),
                        before.outside(f as int, g as int, e, len as int),
                        forall|k: int|
                            0 <= k < self.storages_seq().len() && !list@.contains(k as usize) ==> #[trigger] self.storages_seq()[k]
                                == before.storages_seq()[k],
                        forall|m: int| j <= m < list@.len() ==> #[trigger] self.fstorage(f as int, m) == before.fstorage(f as int, m),
                        forall|m: int|
                            0 <= m < j ==> #[trigger] self.fstorage(f as int, m).dense_seq() == before.fstorage(f as int, m).dense_seq().update(
                                before.pos(f as int, m, e),
                                before.fstorage(f as int, m).dense_seq()[len as int],
                            ).update(len as int, e),
                    decreases arity - j,
                {
                    let s = list[j];
                    proof {
                        before.lemma_family_facts(f as int, g as int);
                        assert(before.fstorage(f as int, j as int).has(e));
                        before.fstorage(f as int, j as int).lemma_at_pos(e);
                        assert(self.fstorage(f as int, j as int) == before.fstorage(f as int, j as int));
                        assert(self.st(f as int, j as int) == s);
                    }
                    let p = self.storages[s].get_index(e).unwrap();
                    let ghost mid = *self;
                    self.swap_in(s, p, len);
                    proof {
                        let fam = before.families_seq()[f as int];
                        assert(fam.wf());
                        assert forall|k: int|
                            0 <= k < self.storages_seq().len() && !list@.contains(k as usize) implies #[trigger] self.storages_seq()[k]
                                == before.storages_seq()[k] by {
                            assert(k != s as int);
                            assert(mid.storages_seq()[k] == before.storages_seq()[k]);
                        }
                        assert forall|m: int| j + 1 <= m < list@.len() implies #[trigger] self.fstorage(f as int, m) == before.fstorage(f as int, m) by {
                            assert(list@[m] != list@[j as int]);
                            assert(mid.fstorage(f as int, m) == before.fstorage(f as int, m));
                        }
                        assert forall|m: int|
                            0 <= m < j + 1 implies #[trigger] self.fstorage(f as int, m).dense_seq() == before.fstorage(f as int, m).dense_seq().update(
                                before.pos(f as int, m, e),
                                before.fstorage(f as int, m).dense_seq()[len as int],
                            ).update(len as int, e) by {
                            if m < j {
                                assert(list@[m] != list@[j as int]);
                                assert(self.fstorage(f as int, m) == mid.fstorage(f as int, m));
                            } else {
                                assert(before.fstorage(f as int, m).dense_seq()[p as int] == e);
                            }
                        }
                        Self::lemma_same_views_trans(self, &mid, &before);
                    }
                    j = j + 1;
                }
                let ghost mid = *self;
                self.families[f].set_group_len(g, len + 1);
                proof {
                    assert(self.storages_seq() == mid.storages_seq());
                    assert forall|h: int| 0 <= h < self.families_seq().len() implies {
                        let fam = #[trigger] self.families_seq()[h];
                        &&& fam.wf()
                        &&& forall|j: int| 0 <= j < fam.storages@.len() ==> #[trigger] fam.storages@[j] < self.storages_seq().len()
                    } by {
                        if h != f {
                            assert(self.families_seq()[h] == mid.families_seq()[h]);
                        } else {
                            assert(self.families_seq()[h].arity_seq() == mid.families_seq()[h].arity_seq());
                        }
                    }
                    assert forall|h: int| 0 <= h < self.families_seq().len() implies (#[trigger] self.families_seq()[h]).storages@
                        == start.families_seq()[h].storages@ && self.families_seq()[h].arity_seq()
                        == start.families_seq()[h].arity_seq() by {
                        if h != f {
                            assert(self.families_seq()[h] == mid.families_seq()[h]);
                        }
                    }
                    assert forall|h: int| 0 <= h < start.families_seq().len() && h != f implies #[trigger] self.families_seq()[h]
                        == start.families_seq()[h] by {
                        assert(self.families_seq()[h] == mid.families_seq()[h]);
                    }
                    self.lemma_same_storages(&mid);
                    Self::lemma_same_views_trans(self, &mid, &before);
                    Self::lemma_same_views_trans(self, &before, &start);
                    assert forall|h: int| 0 <= h < before.ngroups(f as int) implies #[trigger] self.ar(f as int, h) == before.ar(f as int, h) by {
                        assert(self.families_seq()[f as int].arity_seq()[h] == before.families_seq()[f as int].arity_seq()[h]);
                    }
                    assert forall|m: int| arity <= m < list@.len() implies #[trigger] self.fstorage(f as int, m) == before.fstorage(f as int, m) by {
                        assert(mid.fstorage(f as int, m) == before.fstorage(f as int, m));
                    }
                    assert forall|m: int|
                        0 <= m < arity implies #[trigger] self.fstorage(f as int, m).dense_seq() == before.fstorage(f as int, m).dense_seq().update(
                            before.pos(f as int, m, e),
                            before.fstorage(f as int, m).dense_seq()[len as int],
                        ).update(len as int, e) by {
                        assert(mid.fstorage(f as int, m) == self.fstorage(f as int, m));
                    }
                    assert forall|k: int|
                        0 <= k < self.storages_seq().len() && !self.families_seq()[f as int].storages@.contains(k as usize)
                            implies #[trigger] self.storages_seq()[k] == start.storages_seq()[k] by {
                        assert(mid.storages_seq()[k] == before.storages_seq()[k]);
                    }
                    Self::lemma_group_step(&before, self, f as int, g as int, e, skip);
                }
            } else {
                proof {
                    assert(self.inside(f as int, g as int, e, self.glen(f as int, g as int))) by {
                        if self.outside(f as int, g as int, e, self.glen(f as int, g as int)) {
                            assert(self.fstorage(f as int, 0).has(e));
                        }
                    }
                }
            }
            g = g + 1;
        }
        proof {
            assert(self.placed(f as int, e)) by {
                assert forall|h: int| 0 <= h < self.ngroups(f as int) implies (if #[trigger] self.in_group(f as int, h, e) {
                    self.inside(f as int, h, e, self.glen(f as int, h))
                } else {
                    self.outside(f as int, h, e, self.glen(f as int, h))
                }) by {
                    assert(self.status(f as int, h, e));
                    if h >= g {
                        assert(done);
                        assert(!self.in_group(f as int, h, e));
                    }
                }
            }
            self.lemma_narrow(f as int, skip, e);
        }
    }

    /// Moves `e` out of every group of family `f` from `from_group` on,
    /// deepest group first. `e` was counted in exactly the groups it is a
    /// member of; afterwards it is counted in none from `from_group` on.
    fn ungroup_entity(&mut self, f: usize, e: Entity, from_group: usize, Ghost(skip): Ghost<Set<Entity>>)
        requires
            old(self).wf(),
            f < old(self).families_seq().len(),
            old(self).family_state(f as int, skip),
            skip.contains(e),
            old(self).placed(f as int, e),
        ensures
            final(self).wf(),
            final(self).same_views(old(self)),
            final(self).same_shape(old(self)),
            final(self).family_state(f as int, skip),
            final(self).same_outside(old(self), f as int),
            forall|h: int| 0 <= h < old(self).families_seq().len() && h != f ==> #[trigger] final(self).families_seq()[h]
                == old(self).families_seq()[h],
            forall|h: int| 0 <= h < from_group && h < final(self).ngroups(f as int) ==> (if #[trigger] final(self).in_group(f as int, h, e) {
                final(self).inside(f as int, h, e, final(self).glen(f as int, h))
            } else {
                final(self).outside(f as int, h, e, final(self).glen(f as int, h))
            }),
            forall|h: int| from_group <= h < final(self).ngroups(f as int) ==> #[trigger] final(self).outside(f as int, h, e, final(self).glen(f as int, h)),
    {
        let ghost start = *self;
        proof {
            self.lemma_same_storages(self);
        }
        let list = self.families[f].storages.clone();
        proof {
            assert(list@ =~= self.families_seq()[f as int].storages@);
            self.lemma_family_facts(f as int, 0);
        }
        let n_groups = self.families[f].groups.len();
        let mut g: usize = n_groups;
        while g > from_group
            invariant
                self.wf(),
                self.same_views(&start),
                self.same_shape(&start),
                self.same_outside(&start, f as int),
                forall|h: int| 0 <= h < start.families_seq().len() && h != f ==> #[trigger] self.families_seq()[h]
                    == start.families_seq()[h],
                f < self.families_seq().len(),
                list@ == self.families_seq()[f as int].storages@,
                n_groups == self.ngroups(f as int),
                g <= n_groups,
                from_group <= g || g == n_groups,
                self.family_state(f as int, skip),
                skip.contains(e),
                forall|h: int| 0 <= h < g ==> (if #[trigger] self.in_group(f as int, h, e) {
                    self.inside(f as int, h, e, self.glen(f as int, h))
                } else {
                    self.outside(f as int, h, e, self.glen(f as int, h))
                }),
                forall|h: int| g <= h < n_groups ==> #[trigger] self.outside(f as int, h, e, self.glen(f as int, h)),
            decreases g,
        {
            g = g - 1;
            let ghost before = *self;
            let arity = self.families[f].groups[g].arity;
            proof {
                self.lemma_family_facts(f as int, g as int);
            }
            if self.owns_all(f, g, e) {
                let len = self.families[f].groups[g].len;
                proof {
                    assert(self.in_group(f as int, g as int, e));
                    assert(self.inside(f as int, g as int, e, self.glen(f as int, g as int)));
                    assert(self.fstorage(f as int, 0).has(e));
                    self.fstorage(f as int, 0).lemma_at_pos(e);
                    assert forall|h: int| 0 <= h < g implies #[trigger] self.inside(f as int, h, e, self.glen(f as int, h)) by {
                        self.lemma_in_group_nested(f as int, h, g as int, e);
                    }
                }
                let last = len - 1;
                let mut j: usize = 0;
                while j < arity
                    invariant
                        self.wf(),
                        before.wf(),
                        self.same_views(&before),
                        self.families_seq() == before.families_seq(),
                        f < self.families_seq().len(),
                        g < n_groups,
                        n_groups == before.ngroups(f as int),
                        list@ == before.families_seq()[f as int].storages@,
                        arity == before.ar(f as int, g as int),
                        len == before.glen(f as int, g as int),
                        len >= 1,
                        last == len - 1,
                        j <= arity <= list@.len(),
                        before.family_state(f as int, skip),
                        before.in_group(f as int, g as int, e),
                        before.inside(f as int, g as int, e, len as int),
                        forall|k: int|
                            0 <= k < self.storages_seq().len() && !list@.contains(k as usize) ==> #[trigger] self.storages_seq()[k]
                                == before.storages_seq()[k],
                        forall|m: int| j <= m < list@.len() ==> #[trigger] self.fstorage(f as int, m) == before.fstorage(f as int, m),
                        forall|m: int|
                            0 <= m < j ==> #[trigger] self.fstorage(f as int, m).dense_seq() == before.fstorage(f as int, m).dense_seq().update(
                                before.pos(f as int, m, e),
                                before.fstorage(f as int, m).dense_seq()[last as int],
                            ).update(last as int, e),
                    decreases arity - j,
                {
                    let s = list[j];
                    proof {
                        before.lemma_family_facts(f as int, g as int);
                        assert(before.fstorage(f as int, j as int).has(e));
                        before.fstorage(f as int, j as int).lemma_at_pos(e);
                        assert(before.prefix_at(f as int, g as int, j as int, before.glen(f as int, g as int), skip));
                        assert(self.fstorage(f as int, j as int) == before.fstorage(f as int, j as int));
                        assert(self.st(f as int, j as int) == s);
                    }
                    let p = self.storages[s].get_index(e).unwrap();
                    let ghost mid = *self;
                    self.swap_in(s, p, last);
                    proof {
                        let fam = before.families_seq()[f as int];
                        assert(fam.wf());
                        assert forall|k: int|
                            0 <= k < self.storages_seq().len() && !list@.contains(k as usize) implies #[trigger] self.storages_seq()[k]
                                == before.storages_seq()[k] by {
                            assert(k != s as int);
                            assert(mid.storages_seq()[k] == before.storages_seq()[k]);
                        }
                        assert forall|m: int| j + 1 <= m < list@.len() implies #[trigger] self.fstorage(f as int, m) == before.fstorage(f as int, m) by {
                            assert(list@[m] != list@[j as int]);
                            assert(mid.fstorage(f as int, m) == before.fstorage(f as int, m));
                        }
                        assert forall|m: int|
                            0 <= m < j + 1 implies #[trigger] self.fstorage(f as int, m).dense_seq() == before.fstorage(f as int, m).dense_seq().update(
                                before.pos(f as int, m, e),
                                before.fstorage(f as int, m).dense_seq()[last as int],
                            ).update(last as int, e) by {
                            if m < j {
                                assert(list@[m] != list@[j as int]);
                                assert(self.fstorage(f as int, m) == mid.fstorage(f as int, m));
                            } else {
                                assert(before.fstorage(f as int, m).dense_seq()[p as int] == e);
                            }
                        }
                        Self::lemma_same_views_trans(self, &mid, &before);
                    }
                    j = j + 1;
                }
                let ghost mid = *self;
                self.families[f].set_group_len(g, last);
                proof {
                    assert(self.storages_seq() == mid.storages_seq());
                    assert forall|h: int| 0 <= h < self.families_seq().len() implies {
                        let fam = #[trigger] self.families_seq()[h];
                        &&& fam.wf()
                        &&& forall|j: int| 0 <= j < fam.storages@.len() ==> #[trigger] fam.storages@[j] < self.storages_seq().len()
                    } by {
                        if h != f {
                            assert(self.families_seq()[h] == mid.families_seq()[h]);
                        } else {
                            assert(self.families_seq()[h].arity_seq() == mid.families_seq()[h].arity_seq());
                        }
                    }
                    assert forall|h: int| 0 <= h < self.families_seq().len() implies (#[trigger] self.families_seq()[h]).storages@
                        == start.families_seq()[h].storages@ && self.families_seq()[h].arity_seq()
                        == start.families_seq()[h].arity_seq() by {
                        if h != f {
                            assert(self.families_seq()[h] == mid.families_seq()[h]);
                        }
                    }
                    assert forall|h: int| 0 <= h < start.families_seq().len() && h != f implies #[trigger] self.families_seq()[h]
                        == start.families_seq()[h] by {
                        assert(self.families_seq()[h] == mid.families_seq()[h]);
                    }
                    self.lemma_same_storages(&mid);
                    Self::lemma_same_views_trans(self, &mid, &before);
                    Self::lemma_same_views_trans(self, &before, &start);
                    assert forall|h: int| 0 <= h < before.ngroups(f as int) implies #[trigger] self.ar(f as int, h) == before.ar(f as int, h) by {
                        assert(self.families_seq()[f as int].arity_seq()[h] == before.families_seq()[f as int].arity_seq()[h]);
                    }
                    assert forall|m: int| arity <= m < list@.len() implies #[trigger] self.fstorage(f as int, m) == before.fstorage(f as int, m) by {
                        assert(mid.fstorage(f as int, m) == before.fstorage(f as int, m));
                    }
                    assert forall|m: int|
                        0 <= m < arity implies #[trigger] self.fstorage(f as int, m).dense_seq() == before.fstorage(f as int, m).dense_seq().update(
                            before.pos(f as int, m, e),
                            before.fstorage(f as int, m).dense_seq()[before.glen(f as int, g as int) - 1],
                        ).update(before.glen(f as int, g as int) - 1, e) by {
                        assert(mid.fstorage(f as int, m) == self.fstorage(f as int, m));
                    }
                    assert forall|k: int|
                        0 <= k < self.storages_seq().len() && !self.families_seq()[f as int].storages@.contains(k as usize)
                            implies #[trigger] self.storages_seq()[k] == start.storages_seq()[k] by {
                        assert(mid.storages_seq()[k] == before.storages_seq()[k]);
                    }
                    assert forall|h: int| g < h < before.ngroups(f as int) implies #[trigger] before.outside(f as int, h, e, before.glen(f as int, h)) by {}
                    Self::lemma_ungroup_step(&before, self, f as int, g as int, e, skip);
                    assert forall|h: int| 0 <= h < g implies (if #[trigger] self.in_group(f as int, h, e) {
                        self.inside(f as int, h, e, self.glen(f as int, h))
                    } else {
                        self.outside(f as int, h, e, self.glen(f as int, h))
                    }) by {
                        before.lemma_in_group_nested(f as int, h, g as int, e);
                        assert(self.in_group(f as int, h, e) == before.in_group(f as int, h, e)) by {
                            assert forall|m: int|
                                #![trigger self.fstorage(f as int, m).has(e)]
                                #![trigger before.fstorage(f as int, m).has(e)]
                                0 <= m < self.ar(f as int, h) implies self.fstorage(f as int, m).has(e) == before.fstorage(f as int, m).has(e) by {
                                before.lemma_family_facts(f as int, h);
                            }
                        }
                    }
                }
            } else {
                proof {
                    assert(!self.in_group(f as int, g as int, e));
                }
            }
        }
    }

    pub fn family(&self, f: usize) -> (r: &GroupFamily)
        requires
            self.wf(),
            f < self.families_seq().len(),
        ensures
            *r == self.families_seq()[f as int],
            r.wf(),
    {
        &self.families[f]
    }

    /// The family of storage `s` and its position there.
    pub fn family_position(&self, s: usize) -> (r: Option<(usize, usize)>)
        requires
            self.wf(),
        ensures
            r.is_some() ==> r.unwrap().0 < self.families_seq().len() && r.unwrap().1
                < self.families_seq()[r.unwrap().0 as int].storages@.len()
                && self.families_seq()[r.unwrap().0 as int].storages@[r.unwrap().1 as int] == s,
            r.is_none() ==> forall|f: int, j: int|
                0 <= f < self.families_seq().len() && 0 <= j < self.families_seq()[f].storages@.len()
                    ==> #[trigger] self.families_seq()[f].storages@[j] != s,
    {
        let mut f: usize = 0;
        while f < self.families.len()
            invariant
                f <= self.families_seq().len(),
                forall|h: int, j: int|
                    0 <= h < f && 0 <= j < self.families_seq()[h].storages@.len()
                        ==> #[trigger] self.families_seq()[h].storages@[j] != s,
            decreases self.families.len() - f,
        {
            let fam = &self.families[f];
            let mut j: usize = 0;
            while j < fam.storages.len()
                invariant
                    f < self.families_seq().len(),
                    *fam == self.families_seq()[f as int],
                    j <= fam.storages@.len(),
                    forall|k: int| 0 <= k < j ==> fam.storages@[k] != s,
                decreases fam.storages.len() - j,
            {
                if fam.storages[j] == s {
                    return Some((f, j));
                }
                j = j + 1;
            }
            f = f + 1;
        }
        None
    }

    /// The first group of family `f` that spans the storage at `position`.
    fn first_group_spanning(&self, f: usize, position: usize) -> (r: usize)
        requires
            self.wf(),
            f < self.families_seq().len(),
            position < self.families_seq()[f as int].storages@.len(),
        ensures
            r < self.families_seq()[f as int].groups@.len(),
            position < self.families_seq()[f as int].groups@[r as int].arity,
            forall|g: int| 0 <= g < r ==> #[trigger] self.families_seq()[f as int].groups@[g].arity <= position,
    {
        let fam = &self.families[f];
        let n = fam.groups.len();
        proof {
            assert(fam.arity_seq()[n - 1] == fam.storages@.len());
        }
        let mut g: usize = 0;
        while g < n - 1 && fam.groups[g].arity <= position
            invariant
                *fam == self.families_seq()[f as int],
                n == fam.groups@.len(),
                n >= 1,
                g < n,
                forall|h: int| 0 <= h < g ==> #[trigger] fam.groups@[h].arity <= position,
                fam.groups@[n - 1].arity == fam.storages@.len(),
                position < fam.storages@.len(),
            decreases n - g,
        {
            g = g + 1;
        }
        g
    }

    /// `info` names the family of the storage of `t`, the storage's bit in
    /// it, and the first group that spans it.
    pub open spec fn describes(&self, t: ComponentTypeId, info: ComponentGroupInfo) -> bool {
        let f = info.family as int;
        &&& f < self.families_seq().len()
        &&& info.group_offset < self.ngroups(f)
        &&& exists|j: int|
            0 <= j < self.families_seq()[f].storages@.len() && #[trigger] self.st(f, j) == self.index_of(t).unwrap()
                && info.storage_mask == GroupMask(range_bits(j, j + 1)) && j < self.ar(f, info.group_offset as int) && (
            info.group_offset == 0 || self.ar(f, info.group_offset - 1) <= j)
    }

    /// How the storage of `type_id` takes part in a group family, if it does.
    pub fn group_info(&self, type_id: ComponentTypeId) -> (r: Option<ComponentGroupInfo>)
        requires
            self.wf(),
        ensures
            r.is_some() <==> self.registered(type_id) && exists|f: int, j: int|
                0 <= f < self.families_seq().len() && 0 <= j < self.families_seq()[f].storages@.len()
                    && #[trigger] self.st(f, j) == self.index_of(type_id).unwrap(),
            r.is_some() ==> self.describes(type_id, r.unwrap()),
    {
        let s = match self.find(type_id) {
            Some(s) => s,
            None => {
                return None;
            },
        };
        match self.family_position(s) {
            Some((f, j)) => {
                let g = self.first_group_spanning(f, j);
                proof {
                    self.families_seq()[f as int].lemma_arity_bound(g as int);
                    assert(self.st(f as int, j as int) == s);
                    if g > 0 {
                        assert(self.families_seq()[f as int].groups@[g - 1].arity <= j);
                    }
                }
                let mask = GroupMask::from_to(j, j + 1);
                let info = ComponentGroupInfo::new(f, g, mask);
                proof {
                    assert(info.family == f);
                    assert(self.st(info.family as int, j as int) == self.index_of(type_id).unwrap());
                    assert(info.storage_mask == GroupMask(range_bits(j as int, j + 1)));
                    assert(self.st(info.family as int, j as int) == self.index_of(type_id).unwrap() && info.storage_mask == GroupMask(
                        range_bits(j as int, j + 1),
                    ) && j < self.ar(info.family as int, info.group_offset as int) && (info.group_offset == 0 || self.ar(
                        info.family as int,
                        info.group_offset - 1,
                    ) <= j));
                }
                Some(info)
            },
            None => {
                proof {
                    assert forall|f: int, j: int|
                        0 <= f < self.families_seq().len() && 0 <= j < self.families_seq()[f].storages@.len() implies #[trigger] self.st(f, j)
                            != s by {
                        assert(self.families_seq()[f].storages@[j] != s);
                    }
                }
                None
            },
        }
    }

    /// Work confined to the storages and groups of family `f` leaves every
    /// other family as it was.
    proof fn lemma_other_families(b: &Self, a: &Self, f: int)
        requires
            b.wf(),
            b.families_disjoint(),
            0 <= f < b.families_seq().len(),
            a.families_seq().len() == b.families_seq().len(),
            a.same_outside(b, f),
            a.families_seq()[f].storages@ == b.families_seq()[f].storages@,
            forall|h: int| 0 <= h < b.families_seq().len() && h != f ==> #[trigger] a.families_seq()[h] == b.families_seq()[h],
        ensures
            forall|h: int, skip: Set<Entity>|
                #![trigger a.family_state(h, skip)]
                0 <= h < b.families_seq().len() && h != f && b.family_state(h, skip) ==> a.family_state(h, skip),
            forall|h: int, x: Entity|
                #![trigger a.placed(h, x)]
                0 <= h < b.families_seq().len() && h != f ==> a.placed(h, x) == b.placed(h, x),
            forall|h: int, g: int, x: Entity|
                #![trigger a.outside(h, g, x, a.glen(h, g))]
                0 <= h < b.families_seq().len() && h != f && 0 <= g < b.ngroups(h) ==> a.outside(h, g, x, a.glen(h, g))
                    == b.outside(h, g, x, b.glen(h, g)),
    {
        assert forall|h: int, skip: Set<Entity>|
            #![trigger a.family_state(h, skip)]
            0 <= h < b.families_seq().len() && h != f && b.family_state(h, skip) implies a.family_state(h, skip) by {
            b.lemma_outside_family(a, f, h);
            Self::lemma_family_frame(a, b, h, skip);
        }
        assert forall|h: int, x: Entity|
            #![trigger a.placed(h, x)]
            0 <= h < b.families_seq().len() && h != f implies a.placed(h, x) == b.placed(h, x) by {
            b.lemma_outside_family(a, f, h);
            Self::lemma_family_views(a, b, h);
        }
        assert forall|h: int, g: int, x: Entity|
            #![trigger a.outside(h, g, x, a.glen(h, g))]
            0 <= h < b.families_seq().len() && h != f && 0 <= g < b.ngroups(h) implies a.outside(h, g, x, a.glen(h, g))
                == b.outside(h, g, x, b.glen(h, g)) by {
            b.lemma_outside_family(a, f, h);
            Self::lemma_family_views(a, b, h);
        }
    }

    /// Moves `e` into every group it is a member of, in every family.
    pub(crate) fn group_all(&mut self, e: Entity, Ghost(skip): Ghost<Set<Entity>>)
        requires
            old(self).wf(),
            old(self).families_disjoint(),
            forall|f: int| 0 <= f < old(self).families_seq().len() ==> #[trigger] old(self).family_state(f, skip),
            skip.contains(e),
        ensures
            final(self).wf(),
            final(self).families_disjoint(),
            final(self).same_views(old(self)),
            final(self).same_shape(old(self)),
            forall|f: int| 0 <= f < final(self).families_seq().len() ==> #[trigger] final(self).family_state(f, skip.remove(e)),
    {
        let ghost start = *self;
        proof {
            self.lemma_same_storages(self);
        }
        let mut f: usize = 0;
        while f < self.families.len()
            invariant
                self.wf(),
                self.same_views(&start),
                self.same_shape(&start),
                self.families_disjoint(),
                skip.contains(e),
                f <= self.families_seq().len(),
                forall|h: int| 0 <= h < f ==> #[trigger] self.family_state(h, skip.remove(e)),
                forall|h: int| f <= h < self.families_seq().len() ==> #[trigger] self.family_state(h, skip),
            decreases self.families_seq().len() - f,
        {
            let ghost before = *self;
            self.group_entity(f, e, Ghost(skip));
            proof {
                Self::lemma_same_views_trans(self, &before, &start);
                self.lemma_disjoint_kept(&before);
                Self::lemma_other_families(&before, self, f as int);
                assert forall|h: int| 0 <= h < f + 1 implies #[trigger] self.family_state(h, skip.remove(e)) by {
                    if h < f {
                        assert(before.family_state(h, skip.remove(e)));
                    }
                }
                assert forall|h: int| f + 1 <= h < self.families_seq().len() implies #[trigger] self.family_state(h, skip) by {
                    assert(before.family_state(h, skip));
                }
            }
            f = f + 1;
        }
    }

    /// Takes `e` out of every group of every family.
    pub(crate) fn ungroup_all(&mut self, e: Entity, Ghost(skip): Ghost<Set<Entity>>)
        requires
            old(self).wf(),
            old(self).families_disjoint(),
            forall|f: int| 0 <= f < old(self).families_seq().len() ==> #[trigger] old(self).family_state(f, skip),
            forall|f: int| 0 <= f < old(self).families_seq().len() ==> #[trigger] old(self).placed(f, e),
            skip.contains(e),
        ensures
            final(self).wf(),
            final(self).families_disjoint(),
            final(self).same_views(old(self)),
            final(self).same_shape(old(self)),
            forall|f: int| 0 <= f < final(self).families_seq().len() ==> #[trigger] final(self).family_state(f, skip),
            forall|f: int, g: int|
                0 <= f < final(self).families_seq().len() && 0 <= g < final(self).ngroups(f) ==> #[trigger] final(self).outside(
                    f,
                    g,
                    e,
                    final(self).glen(f, g),
                ),
    {
        let ghost start = *self;
        proof {
            self.lemma_same_storages(self);
        }
        let mut f: usize = 0;
        while f < self.families.len()
            invariant
                self.wf(),
                self.same_views(&start),
                self.same_shape(&start),
                self.families_disjoint(),
                skip.contains(e),
                f <= self.families_seq().len(),
                forall|h: int| 0 <= h < self.families_seq().len() ==> #[trigger] self.family_state(h, skip),
                forall|h: int| f <= h < self.families_seq().len() ==> #[trigger] self.placed(h, e),
                forall|h: int, g: int|
                    0 <= h < f && 0 <= g < self.ngroups(h) ==> #[trigger] self.outside(h, g, e, self.glen(h, g)),
            decreases self.families_seq().len() - f,
        {
            let ghost before = *self;
            self.ungroup_entity(f, e, 0, Ghost(skip));
            proof {
                Self::lemma_same_views_trans(self, &before, &start);
                self.lemma_disjoint_kept(&before);
                Self::lemma_other_families(&before, self, f as int);
                assert forall|h: int| 0 <= h < self.families_seq().len() implies #[trigger] self.family_state(h, skip) by {
                    if h != f {
                        assert(before.family_state(h, skip));
                    }
                }
                assert forall|h: int| f + 1 <= h < self.families_seq().len() implies #[trigger] self.placed(h, e) by {
                    assert(before.placed(h, e));
                }
                assert forall|h: int, g: int|
                    0 <= h < f + 1 && 0 <= g < self.ngroups(h) implies #[trigger] self.outside(h, g, e, self.glen(h, g)) by {
                    if h < f {
                        assert(before.outside(h, g, e, before.glen(h, g)));
                    }
                }
            }
            f = f + 1;
        }
    }

    /// The families are those of `layout`: family `f` spans the storages of
    /// the layout's component types in order, with the layout's arities.
    pub open spec fn layout_is(&self, layout: &Layout) -> bool {
        &&& self.families_seq().len() == layout.families_seq().len()
        &&& forall|h: int|
            0 <= h < layout.families_seq().len() ==> (#[trigger] self.families_seq()[h]).storages@.len()
                == layout.families_seq()[h].components@.len() && self.families_seq()[h].arity_seq()
                == layout.families_seq()[h].arities@
        &&& forall|h: int, j: int|
            0 <= h < layout.families_seq().len() && 0 <= j < layout.families_seq()[h].components@.len()
                ==> #[trigger] self.storages_seq()[self.st(h, j)].type_id_spec() == layout.families_seq()[h].components@[j]
    }

    /// With every group empty, a family holds with every entity set aside.
    proof fn lemma_empty_groups(&self, f: int)
        requires
            self.wf(),
            0 <= f < self.families_seq().len(),
            forall|g: int| 0 <= g < self.ngroups(f) ==> #[trigger] self.glen(f, g) == 0,
        ensures
            self.family_state(f, Set::full()),
    {
        assert forall|g: int, j: int| 0 <= g < self.ngroups(f) && 0 <= j < self.ar(f, g) implies #[trigger] self.prefix_at(
            f,
            g,
            j,
            self.glen(f, g),
            Set::full(),
        ) by {}
        assert forall|g: int, x: Entity| 0 <= g < self.ngroups(f) && Set::<Entity>::full().contains(x) implies #[trigger] self.status(
            f,
            g,
            x,
        ) by {
            assert(self.outside(f, g, x, self.glen(f, g)));
        }
        assert forall|g1: int, g2: int| 0 <= g1 < g2 < self.ngroups(f) implies #[trigger] self.glen(f, g2) <= #[trigger] self.glen(f, g1) by {}
    }

    /// Setting aside entities that no storage of the family holds changes
    /// nothing.
    proof fn lemma_skip_unused(&self, f: int, skip: Set<Entity>)
        requires
            self.wf(),
            0 <= f < self.families_seq().len(),
            self.family_state(f, skip),
            forall|x: Entity| #[trigger] self.has_any(x) ==> !skip.contains(x),
        ensures
            self.family_state(f, Set::empty()),
    {
        assert forall|g: int, j: int| 0 <= g < self.ngroups(f) && 0 <= j < self.ar(f, g) implies #[trigger] self.prefix_at(
            f,
            g,
            j,
            self.glen(f, g),
            Set::empty(),
        ) by {
            assert(self.prefix_at(f, g, j, self.glen(f, g), skip));
            self.lemma_family_facts(f, g);
            let st = self.fstorage(f, j);
            assert forall|i: int| 0 <= i < st.len_spec() implies !skip.contains(#[trigger] st.dense_seq()[i]) by {
                st.lemma_pos(i);
                assert(self.has_any(st.dense_seq()[i])) by {
                    assert(self.storages_seq()[self.st(f, j)].has(st.dense_seq()[i]));
                }
            }
        }
    }

    /// Replaces the group families by those of `layout`, registering their
    /// component types, and groups the given entities, which are all the
    /// entities that own components.
    #[verifier::rlimit(100)]
    pub fn set_layout(&mut self, layout: &Layout, entities: &[Entity])
        requires
            old(self).wf(),
            layout.wf(),
            entities@.no_duplicates(),
            forall|x: Entity| #[trigger] old(self).has_any(x) ==> entities@.contains(x),
        ensures
            final(self).wf(),
            final(self).families_disjoint(),
            final(self).grouped(),
            final(self).families_seq().len() == layout.families_seq().len(),
            final(self).layout_is(layout),
            forall|x: Entity, t: ComponentTypeId| #[trigger] final(self).component_of(x, t) == old(self).component_of(x, t),
            forall|t: ComponentTypeId| #[trigger] old(self).registered(t) ==> final(self).registered(t),
            forall|x: Entity| #[trigger] final(self).has_any(x) == old(self).has_any(x),
    {
        self.families = Vec::new();
        let fams = layout.families();
        let mut i: usize = 0;
        while i < fams.len()
            invariant
                self.wf(),
                layout.wf(),
                fams@ == layout.families_seq(),
                i <= fams@.len(),
                self.families_seq().len() == i,
                forall|h: int, j: int|
                    0 <= h < i && 0 <= j < self.families_seq()[h].storages@.len() ==> self.storages_seq()[#[trigger] self.st(h, j)].type_id_spec()
                        == layout.families_seq()[h].components@[j],
                forall|h: int| 0 <= h < i ==> #[trigger] self.families_seq()[h].storages@.len() == layout.families_seq()[h].components@.len(),
                forall|h: int| 0 <= h < i ==> #[trigger] self.families_seq()[h].arity_seq() == layout.families_seq()[h].arities@,
                forall|h: int, g: int| 0 <= h < i && 0 <= g < self.ngroups(h) ==> #[trigger] self.glen(h, g) == 0,
                forall|x: Entity, t: ComponentTypeId| #[trigger] self.component_of(x, t) == old(self).component_of(x, t),
                forall|t: ComponentTypeId| #[trigger] old(self).registered(t) ==> self.registered(t),
                forall|x: Entity| #[trigger] self.has_any(x) == old(self).has_any(x),
            decreases fams.len() - i,
        {
            let lf = &fams[i];
            proof {
                assert(layout.families_seq()[i as int] == *lf);
            }
            let ghost start_i = *self;
            let mut list: Vec<usize> = Vec::new();
            let mut k: usize = 0;
            while k < lf.components.len()
                invariant
                    self.wf(),
                    *lf == layout.families_seq()[i as int],
                    lf.components@.no_duplicates(),
                    self.families_seq() == start_i.families_seq(),
                    self.families_seq().len() == i,
                    start_i.storages_seq().len() <= self.storages_seq().len(),
                    forall|m: int| 0 <= m < start_i.storages_seq().len() ==> #[trigger] self.storages_seq()[m].type_id_spec()
                        == start_i.storages_seq()[m].type_id_spec(),
                    k <= lf.components@.len(),
                    list@.len() == k,
                    forall|a: int| 0 <= a < k ==> #[trigger] list@[a] < self.storages_seq().len()
                        && self.storages_seq()[list@[a] as int].type_id_spec() == lf.components@[a],
                    forall|x: Entity, t: ComponentTypeId| #[trigger] self.component_of(x, t) == old(self).component_of(x, t),
                    forall|t: ComponentTypeId| #[trigger] old(self).registered(t) ==> self.registered(t),
                    forall|x: Entity| #[trigger] self.has_any(x) == old(self).has_any(x),
                decreases lf.components.len() - k,
            {
                let ghost before = *self;
                let s = self.register(lf.components[k]);
                proof {
                    assert forall|a: int| 0 <= a < k implies #[trigger] list@[a] < self.storages_seq().len()
                        && self.storages_seq()[list@[a] as int].type_id_spec() == lf.components@[a] by {
                        if !before.registered(lf.components@[k as int]) {
                            assert(self.storages_seq()[list@[a] as int] == before.storages_seq()[list@[a] as int]);
                        }
                    }
                    assert forall|m: int| 0 <= m < start_i.storages_seq().len() implies #[trigger] self.storages_seq()[m].type_id_spec()
                        == start_i.storages_seq()[m].type_id_spec() by {
                        if !before.registered(lf.components@[k as int]) {
                            assert(self.storages_seq()[m] == before.storages_seq()[m]);
                        }
                    }
                    let j = self.index_of(lf.components@[k as int]).unwrap();
                    assert(self.storages_seq()[j].type_id_spec() == lf.components@[k as int]);
                    assert forall|x: Entity, t: ComponentTypeId| #[trigger] self.component_of(x, t) == before.component_of(x, t) by {
                        if self.registered(t) && !before.registered(t) {
                            let j2 = self.index_of(t).unwrap();
                            assert(j2 == before.storages_seq().len());
                            self.storages_seq()[j2].lemma_has(x);
                        }
                    }
                    assert forall|x: Entity| #[trigger] self.has_any(x) == before.has_any(x) by {
                        if self.has_any(x) {
                            let m = choose|m: int| 0 <= m < self.storages_seq().len() && (#[trigger] self.storages_seq()[m]).has(x);
                            if m < before.storages_seq().len() {
                                assert(self.storages_seq()[m] == before.storages_seq()[m]);
                            } else {
                                assert(self.storages_seq()[m] == self.storages_seq().last());
                            }
                        }
                        if before.has_any(x) {
                            let m = choose|m: int| 0 <= m < before.storages_seq().len() && (#[trigger] before.storages_seq()[m]).has(x);
                            assert(self.storages_seq()[m] == before.storages_seq()[m]);
                        }
                    }
                }
                list.push(s);
                k = k + 1;
            }
            let mut groups: Vec<Group> = Vec::new();
            let mut a: usize = 0;
            while a < lf.arities.len()
                invariant
                    a <= lf.arities@.len(),
                    groups@.len() == a,
                    forall|m: int| 0 <= m < a ==> #[trigger] groups@[m] == (Group { arity: lf.arities@[m], len: 0 }),
                decreases lf.arities.len() - a,
            {
                groups.push(Group { arity: lf.arities[a], len: 0 });
                a = a + 1;
            }
            let fam = GroupFamily { storages: list, groups };
            let ghost fam_g = fam;
            proof {
                assert(fam.arity_seq() =~= lf.arities@);
                assert forall|p: int, q: int| 0 <= p < q < fam.storages@.len() implies fam.storages@[p] != fam.storages@[q] by {
                    assert(lf.components@[p] != lf.components@[q]);
                }
                assert(fam.storages@.no_duplicates());
            }
            let ghost before = *self;
            self.families.push(fam);
            proof {
                assert(self.storages_seq() == before.storages_seq());
                assert forall|h: int| 0 <= h < self.families_seq().len() implies {
                    let fm = #[trigger] self.families_seq()[h];
                    &&& fm.wf()
                    &&& forall|j: int| 0 <= j < fm.storages@.len() ==> #[trigger] fm.storages@[j] < self.storages_seq().len()
                } by {
                    if h < i {
                        assert(self.families_seq()[h] == before.families_seq()[h]);
                    }
                }
                assert forall|h: int, j: int|
                    0 <= h < i + 1 && 0 <= j < self.families_seq()[h].storages@.len() implies self.storages_seq()[#[trigger] self.st(h, j)].type_id_spec()
                        == layout.families_seq()[h].components@[j] by {
                    if h < i {
                        assert(self.families_seq()[h] == start_i.families_seq()[h]);
                        assert(start_i.storages_seq()[start_i.st(h, j)].type_id_spec() == layout.families_seq()[h].components@[j]);
                        start_i.lemma_family_facts(h, 0);
                    }
                }
                assert forall|h: int| 0 <= h < i + 1 implies #[trigger] self.families_seq()[h].storages@.len() == layout.families_seq()[h].components@.len() by {
                    if h < i {
                        assert(self.families_seq()[h] == start_i.families_seq()[h]);
                    }
                }
                assert forall|h: int| 0 <= h < i + 1 implies #[trigger] self.families_seq()[h].arity_seq() == layout.families_seq()[h].arities@ by {
                    if h < i {
                        assert(self.families_seq()[h] == start_i.families_seq()[h]);
                    } else {
                        assert(self.families_seq()[h] == fam_g);
                    }
                }
                assert forall|h: int, g: int| 0 <= h < i + 1 && 0 <= g < self.ngroups(h) implies #[trigger] self.glen(h, g) == 0 by {
                    if h < i {
                        assert(self.families_seq()[h] == start_i.families_seq()[h]);
                        assert(start_i.glen(h, g) == 0);
                    } else {
                        assert(self.families_seq()[h] == fam_g);
                        assert(fam_g.groups@[g] == (Group { arity: lf.arities@[g], len: 0 }));
                    }
                }
                self.lemma_same_storages(&before);
            }
            i = i + 1;
        }
        proof {
            assert forall|f1: int, j1: int, f2: int, j2: int|
                0 <= f1 < self.families_seq().len() && 0 <= f2 < self.families_seq().len() && f1 != f2 && 0 <= j1
                    < self.families_seq()[f1].storages@.len() && 0 <= j2 < self.families_seq()[f2].storages@.len()
                    implies #[trigger] self.st(f1, j1) != #[trigger] self.st(f2, j2) by {
                let c1 = layout.families_seq()[f1].components@[j1];
                let c2 = layout.families_seq()[f2].components@[j2];
                assert(self.storages_seq()[self.st(f1, j1)].type_id_spec() == c1);
                assert(self.storages_seq()[self.st(f2, j2)].type_id_spec() == c2);
                if f1 < f2 {
                    assert(!layout.families_seq()[f1].components@.contains(c2));
                } else {
                    assert(!layout.families_seq()[f2].components@.contains(c1));
                }
            }
            assert forall|f: int| 0 <= f < self.families_seq().len() implies #[trigger] self.family_state(f, Set::full()) by {
                self.lemma_empty_groups(f);
            }
        }
        let ghost mut rest: Set<Entity> = Set::full();
        let ghost grouped_start = *self;
        proof {
            assert(grouped_start.layout_is(layout)) by {
                assert forall|h: int, j: int|
                    0 <= h < layout.families_seq().len() && 0 <= j < layout.families_seq()[h].components@.len()
                        implies #[trigger] grouped_start.storages_seq()[grouped_start.st(h, j)].type_id_spec()
                        == layout.families_seq()[h].components@[j] by {
                    assert(grouped_start.families_seq()[h].storages@.len() == layout.families_seq()[h].components@.len());
                }
            }
        }
        let mut n: usize = 0;
        while n < entities.len()
            invariant
                self.wf(),
                self.families_disjoint(),
                self.same_views(&grouped_start),
                self.same_shape(&grouped_start),
                self.families_seq().len() == layout.families_seq().len(),
                entities@.no_duplicates(),
                n <= entities@.len(),
                forall|x: Entity| #[trigger] rest.contains(x) <==> !entities@.subrange(0, n as int).contains(x),
                forall|f: int| 0 <= f < self.families_seq().len() ==> #[trigger] self.family_state(f, rest),
            decreases entities.len() - n,
        {
            let ghost before = *self;
            proof {
                assert(rest.contains(entities@[n as int])) by {
                    if entities@.subrange(0, n as int).contains(entities@[n as int]) {
                        let m = choose|m: int| 0 <= m < n && #[trigger] entities@.subrange(0, n as int)[m] == entities@[n as int];
                        assert(entities@[m] == entities@[n as int]);
                    }
                }
            }
            self.group_all(entities[n], Ghost(rest));
            proof {
                Self::lemma_same_views_trans(self, &before, &grouped_start);
                assert forall|h: int| 0 <= h < self.families_seq().len() implies (#[trigger] self.families_seq()[h]).storages@
                    == grouped_start.families_seq()[h].storages@ && self.families_seq()[h].arity_seq()
                    == grouped_start.families_seq()[h].arity_seq() by {
                    assert(before.families_seq()[h].storages@ == grouped_start.families_seq()[h].storages@);
                }
                let e = entities@[n as int];
                rest = rest.remove(e);
                assert forall|x: Entity| #[trigger] rest.contains(x) <==> !entities@.subrange(0, n + 1).contains(x) by {
                    let sa = entities@.subrange(0, n as int);
                    let sb = entities@.subrange(0, n + 1);
                    assert(sb =~= sa.push(e));
                    if sb.contains(x) && x != e {
                        let m = choose|m: int| 0 <= m < sb.len() && #[trigger] sb[m] == x;
                        assert(sa[m] == x);
                    }
                    if sa.contains(x) {
                        let m = choose|m: int| 0 <= m < sa.len() && #[trigger] sa[m] == x;
                        assert(sb[m] == x);
                    }
                    if x == e {
                        assert(sb[n as int] == e);
                    }
                }
            }
            n = n + 1;
        }
        proof {
            assert(entities@.subrange(0, n as int) =~= entities@);
            assert(self.layout_is(layout)) by {
                assert forall|h: int, j: int|
                    0 <= h < layout.families_seq().len() && 0 <= j < layout.families_seq()[h].components@.len()
                        implies #[trigger] self.storages_seq()[self.st(h, j)].type_id_spec()
                        == layout.families_seq()[h].components@[j] by {
                    assert(grouped_start.storages_seq()[grouped_start.st(h, j)].type_id_spec() == layout.families_seq()[h].components@[j]);
                    grouped_start.lemma_family_facts(h, 0);
                    assert(self.st(h, j) == grouped_start.st(h, j));
                }
                assert forall|h: int| 0 <= h < layout.families_seq().len() implies #[trigger] self.families_seq()[h].arity_seq()
                    == layout.families_seq()[h].arities@ by {
                    assert(grouped_start.families_seq()[h].arity_seq() == layout.families_seq()[h].arities@);
                }
            }
            assert forall|f: int| 0 <= f < self.families_seq().len() implies #[trigger] self.family_state(f, Set::empty()) by {
                assert forall|x: Entity| #[trigger] self.has_any(x) implies !rest.contains(x) by {
                    assert(grouped_start.has_any(x));
                }
                self.lemma_skip_unused(f, rest);
            }
            assert forall|x: Entity, t: ComponentTypeId| #[trigger] self.component_of(x, t) == old(self).component_of(x, t) by {
                assert(self.component_of(x, t) == grouped_start.component_of(x, t));
            }
            assert forall|t: ComponentTypeId| #[trigger] old(self).registered(t) implies self.registered(t) by {
                assert(self.index_of(t) == grouped_start.index_of(t));
            }
            assert forall|x: Entity| #[trigger] self.has_any(x) == old(self).has_any(x) by {
                assert(self.has_any(x) == grouped_start.has_any(x));
            }
        }
    }

    /// Group-Prefix: in a grouped registry, the first `glen(f, g)` entities
    /// of every storage that group `g` of family `f` spans are exactly the
    /// entities that own a component in all the storages of the group.
    pub proof fn lemma_group_prefix(&self, f: int, g: int, j: int)
        requires
            self.wf(),
            self.grouped(),
            0 <= f < self.families_seq().len(),
            0 <= g < self.ngroups(f),
            0 <= j < self.ar(f, g),
        ensures
            self.glen(f, g) <= self.fstorage(f, j).len_spec(),
            forall|i: int|
                0 <= i < self.fstorage(f, j).len_spec() ==> (i < self.glen(f, g) <==> self.in_group(
                    f,
                    g,
                    #[trigger] self.fstorage(f, j).dense_seq()[i],
                )),
    {
        assert(self.family_state(f, Set::empty()));
        assert(self.prefix_at(f, g, j, self.glen(f, g), Set::empty()));
    }

    /// Stores a component for `entity` and moves `entity` into the groups it
    /// now belongs to. No other entity in the registry shares `entity`'s slot.
    pub fn insert_grouped(&mut self, entity: Entity, type_id: ComponentTypeId, component: T, tick: Ticks) -> (r: Option<T>)
        requires
            old(self).wf(),
            old(self).grouped(),
            old(self).families_disjoint(),
            old(self).has_room(type_id, entity),
            forall|x: Entity| #[trigger] old(self).has_any(x) && x.index == entity.index ==> x == entity,
        ensures
            final(self).wf(),
            final(self).grouped(),
            final(self).families_disjoint(),
            final(self).families_seq().len() == old(self).families_seq().len(),
            final(self).registered(type_id),
            final(self).component_of(entity, type_id) == Some(component),
            forall|x: Entity, t: ComponentTypeId|
                #![trigger final(self).component_of(x, t)]
                (t != type_id || x.index != entity.index) ==> final(self).component_of(x, t) == old(
                    self,
                ).component_of(x, t),
            forall|t: ComponentTypeId| #[trigger] old(self).registered(t) ==> final(self).registered(t),
            forall|x: Entity| #[trigger] final(self).has_any(x) ==> old(self).has_any(x) || x == entity,
    {
        let r = self.insert(entity, type_id, component, tick);
        let ghost mid = *self;
        proof {
            self.lemma_disjoint_kept(old(self));
        }
        self.group_all(entity, Ghost(Set::empty().insert(entity)));
        proof {
            assert(Set::<Entity>::empty().insert(entity).remove(entity) =~= Set::<Entity>::empty());
            assert forall|x: Entity, t: ComponentTypeId| #[trigger] self.component_of(x, t) == mid.component_of(x, t) by {}
            assert forall|t: ComponentTypeId| #[trigger] self.registered(t) == mid.registered(t) by {
                assert(self.index_of(t) == mid.index_of(t));
            }
            assert forall|x: Entity| #[trigger] self.has_any(x) == mid.has_any(x) by {}
        }
        r
    }

    /// Takes `entity` out of its groups, removes its component of type
    /// `type_id`, and moves it back into the groups it still belongs to.
    pub fn remove_grouped(&mut self, entity: Entity, type_id: ComponentTypeId) -> (r: Option<T>)
        requires
            old(self).wf(),
            old(self).grouped(),
            old(self).families_disjoint(),
        ensures
            final(self).wf(),
            final(self).grouped(),
            final(self).families_disjoint(),
            final(self).families_seq().len() == old(self).families_seq().len(),
            r == old(self).component_of(entity, type_id),
            final(self).component_of(entity, type_id).is_none(),
            forall|x: Entity, t: ComponentTypeId|
                #![trigger final(self).component_of(x, t)]
                (t != type_id || x != entity) ==> final(self).component_of(x, t) == old(self).component_of(x, t),
            forall|t: ComponentTypeId| #[trigger] final(self).registered(t) == old(self).registered(t),
            forall|x: Entity| #[trigger] final(self).has_any(x) ==> old(self).has_any(x),
    {
        let ghost start = *self;
        proof {
            self.lemma_ungroup_ready(entity);
        }
        self.ungroup_all(entity, Ghost(Set::empty().insert(entity)));
        let ghost ungrouped_state = *self;
        let r = self.remove(entity, type_id);
        let ghost removed = *self;
        proof {
            self.lemma_disjoint_kept(&ungrouped_state);
            assert forall|x: Entity, t: ComponentTypeId| #[trigger] ungrouped_state.component_of(x, t) == start.component_of(x, t) by {}
            assert forall|t: ComponentTypeId| #[trigger] ungrouped_state.registered(t) == start.registered(t) by {
                assert(ungrouped_state.index_of(t) == start.index_of(t));
            }
            assert forall|x: Entity| #[trigger] ungrouped_state.has_any(x) == start.has_any(x) by {}
        }
        self.group_all(entity, Ghost(Set::empty().insert(entity)));
        proof {
            assert(Set::<Entity>::empty().insert(entity).remove(entity) =~= Set::<Entity>::empty());
            assert forall|x: Entity, t: ComponentTypeId| #[trigger] self.component_of(x, t) == removed.component_of(x, t) by {}
            assert forall|t: ComponentTypeId| #[trigger] self.registered(t) == removed.registered(t) by {
                assert(self.index_of(t) == removed.index_of(t));
            }
            assert forall|x: Entity| #[trigger] self.has_any(x) == removed.has_any(x) by {}
        }
        r
    }

    /// Takes `entity` out of its groups and removes all its components.
    pub fn remove_entity_grouped(&mut self, entity: Entity)
        requires
            old(self).wf(),
            old(self).grouped(),
            old(self).families_disjoint(),
        ensures
            final(self).wf(),
            final(self).grouped(),
            final(self).families_disjoint(),
            final(self).families_seq().len() == old(self).families_seq().len(),
            forall|t: ComponentTypeId| #[trigger] final(self).component_of(entity, t).is_none(),
            forall|x: Entity, t: ComponentTypeId|
                #![trigger final(self).component_of(x, t)]
                x != entity ==> final(self).component_of(x, t) == old(self).component_of(x, t),
            forall|t: ComponentTypeId| #[trigger] final(self).registered(t) == old(self).registered(t),
            forall|x: Entity| #[trigger] final(self).has_any(x) <==> (old(self).has_any(x) && x != entity),
    {
        let ghost start = *self;
        proof {
            self.lemma_ungroup_ready(entity);
        }
        self.ungroup_all(entity, Ghost(Set::empty().insert(entity)));
        let ghost ungrouped_state = *self;
        self.remove_entity(entity);
        let ghost removed = *self;
        proof {
            self.lemma_disjoint_kept(&ungrouped_state);
            assert forall|x: Entity, t: ComponentTypeId| #[trigger] ungrouped_state.component_of(x, t) == start.component_of(x, t) by {}
            assert forall|t: ComponentTypeId| #[trigger] ungrouped_state.registered(t) == start.registered(t) by {
                assert(ungrouped_state.index_of(t) == start.index_of(t));
            }
            assert forall|x: Entity| #[trigger] ungrouped_state.has_any(x) == start.has_any(x) by {}
        }
        self.group_all(entity, Ghost(Set::empty().insert(entity)));
        proof {
            assert(Set::<Entity>::empty().insert(entity).remove(entity) =~= Set::<Entity>::empty());
            assert forall|x: Entity, t: ComponentTypeId| #[trigger] self.component_of(x, t) == removed.component_of(x, t) by {}
            assert forall|t: ComponentTypeId| #[trigger] self.registered(t) == removed.registered(t) by {
                assert(self.index_of(t) == removed.index_of(t));
            }
            assert forall|x: Entity| #[trigger] self.has_any(x) == removed.has_any(x) by {}
        }
    }

    /// Owning a component of a registered type is owning one in its storage.
    pub proof fn lemma_component_has(&self, x: Entity, t: ComponentTypeId)
        requires
            self.wf(),
            self.registered(t),
        ensures
            self.component_of(x, t).is_some() == self.storages_seq()[self.index_of(t).unwrap()].has(x),
    {
        let i = self.index_of(t).unwrap();
        self.storages_seq()[i].lemma_has(x);
    }

    /// Where the gotten types span the first `a2` storages of family `f2`,
    /// that family is the one holding the first gotten type, and the covered
    /// positions are exactly those before `a2`.
    proof fn lemma_span_pinned(&self, gets: Seq<ComponentTypeId>, f: int, j0: int, covered: Seq<bool>, f2: int, a2: int)
        requires
            self.wf(),
            self.families_disjoint(),
            0 <= f < self.families_seq().len(),
            0 <= f2 < self.families_seq().len(),
            gets.len() > 0,
            0 <= j0 < self.families_seq()[f].storages@.len(),
            self.st(f, j0) == self.index_of(gets[0]).unwrap(),
            covered.len() == self.families_seq()[f].storages@.len(),
            forall|m: int| 0 <= m < covered.len() ==> (#[trigger] covered[m] <==> exists|q: int|
                0 <= q < gets.len() && self.index_of(gets[q]).unwrap() == self.st(f, m)),
            0 <= a2 <= self.families_seq()[f2].storages@.len(),
            gets_span(*self, gets, f2, a2),
        ensures
            f2 == f,
            forall|m: int| 0 <= m < covered.len() ==> (#[trigger] covered[m] <==> m < a2),
    {
        let j = choose|j: int| 0 <= j < a2 && #[trigger] self.st(f2, j) == self.index_of(gets[0]).unwrap();
        if f2 != f {
            assert(self.st(f, j0) != self.st(f2, j));
        }
        let fam = self.families_seq()[f];
        assert(fam.wf());
        assert forall|m: int| 0 <= m < covered.len() implies (#[trigger] covered[m] <==> m < a2) by {
            if m < a2 {
                assert(slot_of(*self, f2, m) == self.st(f2, m));
                let q = choose|q: int| 0 <= q < gets.len() && self.index_of(#[trigger] gets[q]).unwrap() == self.st(f, m);
            }
            if covered[m] {
                let q = choose|q: int| 0 <= q < gets.len() && self.index_of(gets[q]).unwrap() == self.st(f, m);
                let jj = choose|jj: int| 0 <= jj < a2 && #[trigger] self.st(f, jj) == self.index_of(gets[q]).unwrap();
                assert(fam.storages@[jj] == fam.storages@[m]);
            }
        }
    }

    /// Arities are strictly increasing, so one arity names one group.
    proof fn lemma_arity_unique(&self, f: int, g1: int, g2: int)
        requires
            self.wf(),
            0 <= f < self.families_seq().len(),
            0 <= g1 < self.ngroups(f),
            0 <= g2 < self.ngroups(f),
            self.ar(f, g1) == self.ar(f, g2),
        ensures
            g1 == g2,
    {
        let fam = self.families_seq()[f];
        assert(fam.wf());
        if g1 < g2 {
            fam.lemma_arity_increasing(g1, g2);
        }
        if g2 < g1 {
            fam.lemma_arity_increasing(g2, g1);
        }
    }

    /// The covered positions of family `f` are exactly those before `a`:
    /// the gotten types span the first `a` storages, and no other family or
    /// count.
    proof fn lemma_locate_done(&self, gets: Seq<ComponentTypeId>, f: int, j0: int, covered: Seq<bool>, a: int)
        requires
            self.wf(),
            self.families_disjoint(),
            0 <= f < self.families_seq().len(),
            gets.len() > 0,
            0 <= j0 < self.families_seq()[f].storages@.len(),
            self.st(f, j0) == self.index_of(gets[0]).unwrap(),
            covered.len() == self.families_seq()[f].storages@.len(),
            0 <= a <= covered.len(),
            forall|p: int| 0 <= p < a ==> #[trigger] covered[p],
            forall|p: int| a <= p < covered.len() ==> !(#[trigger] covered[p]),
            forall|m: int| 0 <= m < covered.len() ==> (#[trigger] covered[m] <==> exists|q: int|
                0 <= q < gets.len() && self.index_of(gets[q]).unwrap() == self.st(f, m)),
            forall|q: int| 0 <= q < gets.len() ==> exists|m: int|
                0 <= m < covered.len() && #[trigger] self.index_of(gets[q]).unwrap() == self.st(f, m),
        ensures
            j0 < a,
            gets_span(*self, gets, f, a),
            forall|fa: int, ga: int| #[trigger] spans_group(*self, gets, fa, ga) ==> fa == f && self.ar(fa, ga) == a,
    {
        let n = covered.len();
            assert forall|fa: int, ga: int| #[trigger] spans_group(*self, gets, fa, ga) implies fa == f && self.ar(fa, ga) == a by {
                self.lemma_family_facts(fa, ga);
                self.lemma_span_pinned(gets, f, j0, covered, fa, self.ar(fa, ga));
                let ar = self.ar(fa, ga);
                if ar < a {
                    assert(covered[ar]);
                }
                if ar > a {
                    assert(!covered[a]);
                }
            }
            let c = *self;
            assert(gets_span(c, gets, f, a)) by {
                assert forall|q: int|
                    #![trigger gets[q]]
                    0 <= q < gets.len() implies exists|jq: int|
                    #![trigger c.st(f, jq)]
                    0 <= jq < a && c.st(f, jq) == c.index_of(gets[q]).unwrap() by {
                    let jq = choose|jq: int| 0 <= jq < n && #[trigger] c.index_of(gets[q]).unwrap() == c.st(f, jq);
                    assert(covered[jq]);
                }
                assert forall|jq: int|
                    #![trigger slot_of(c, f, jq)]
                    0 <= jq < a implies exists|q: int|
                    #![trigger gets[q]]
                    0 <= q < gets.len() && c.index_of(gets[q]).unwrap() == slot_of(c, f, jq) by {
                    assert(covered[jq]);
                }
            }
            assert(covered[j0]) by {
                assert(c.index_of(gets[0]).unwrap() == c.st(f, j0));
            }
    }

    /// Finds the family whose first `a` storages are exactly the storages of
    /// the gotten types, if any: then no other family and no other count of
    /// storages spans them.
    #[verifier::rlimit(100)]
    fn locate(&self, gets: &Vec<ComponentTypeId>) -> (r: Option<(usize, usize, usize)>)
        requires
            self.wf(),
            self.families_disjoint(),
            gets@.len() > 0,
            forall|k: int| 0 <= k < gets@.len() ==> self.registered(#[trigger] gets@[k]),
        ensures
            r.is_none() ==> forall|fa: int, ga: int| !#[trigger] spans_group(*self, gets@, fa, ga),
            r.is_some() ==> {
                let (f, j0, a) = r.unwrap();
                &&& f < self.families_seq().len()
                &&& j0 < a <= self.families_seq()[f as int].storages@.len()
                &&& self.st(f as int, j0 as int) == self.index_of(gets@[0]).unwrap()
                &&& gets_span(*self, gets@, f as int, a as int)
                &&& forall|fa: int, ga: int| #[trigger] spans_group(*self, gets@, fa, ga) ==> fa == f && self.ar(fa, ga) == a
            },
    {
        let s0 = self.find(gets[0]).unwrap();
        let (f, j0) = match self.family_position(s0) {
            Some(p) => p,
            None => {
                proof {
                    assert forall|fa: int, ga: int|
                        !spans_group(*self, gets@, fa, ga) by {
                        if spans_group(*self, gets@, fa, ga) {
                            self.lemma_family_facts(fa, ga);
                            let j = choose|j: int| 0 <= j < self.ar(fa, ga) && #[trigger] self.st(fa, j) == self.index_of(gets@[0]).unwrap();
                            assert(self.families_seq()[fa].storages@[j] != s0);
                        }
                    }
                }
                return None;
            },
        };
        let fam = &self.families[f];
        let n = fam.storages.len();
        proof {
            self.lemma_family_facts(f as int, 0);
            assert(self.st(f as int, j0 as int) == self.index_of(gets@[0]).unwrap());
        }
        let mut covered: Vec<bool> = Vec::new();
        let mut j: usize = 0;
        while j < n
            invariant
                j <= n,
                covered@.len() == j,
                forall|m: int| 0 <= m < j ==> !(#[trigger] covered@[m]),
            decreases n - j,
        {
            covered.push(false);
            j = j + 1;
        }
        let mut k: usize = 0;
        while k < gets.len()
            invariant
                self.wf(),
                self.families_disjoint(),
                f < self.families_seq().len(),
                *fam == self.families_seq()[f as int],
                n == fam.storages@.len(),
                j0 < n,
                self.st(f as int, j0 as int) == self.index_of(gets@[0]).unwrap(),
                covered@.len() == n,
                k <= gets@.len(),
                forall|q: int| 0 <= q < gets@.len() ==> self.registered(#[trigger] gets@[q]),
                forall|m: int| 0 <= m < n ==> (#[trigger] covered@[m] <==> exists|q: int|
                    0 <= q < k && self.index_of(gets@[q]).unwrap() == self.st(f as int, m)),
                forall|q: int| 0 <= q < k ==> exists|m: int|
                    0 <= m < n && #[trigger] self.index_of(gets@[q]).unwrap() == self.st(f as int, m),
            decreases gets.len() - k,
        {
            let sk = self.find(gets[k]).unwrap();
            match self.family_position(sk) {
                Some((f2, jk)) => {
                    if f2 != f {
                        proof {
                            assert forall|fa: int, ga: int|
                                !spans_group(*self, gets@, fa, ga) by {
                                if spans_group(*self, gets@, fa, ga) {
                                    self.lemma_family_facts(fa, ga);
                                    let j = choose|j: int| 0 <= j < self.ar(fa, ga) && #[trigger] self.st(fa, j) == self.index_of(gets@[0]).unwrap();
                                    let jj = choose|jj: int| 0 <= jj < self.ar(fa, ga) && #[trigger] self.st(fa, jj) == self.index_of(gets@[k as int]).unwrap();
                                    if fa != f {
                                        assert(self.st(f as int, j0 as int) != self.st(fa, j));
                                    }
                                    assert(self.st(f2 as int, jk as int) != self.st(fa, jj));
                                }
                            }
                        }
                        return None;
                    }
                    let ghost before = covered@;
                    covered.set(jk, true);
                    proof {
                        assert(self.st(f as int, jk as int) == sk);
                        assert forall|m: int| 0 <= m < n implies (#[trigger] covered@[m] <==> exists|q: int|
                            0 <= q < k + 1 && self.index_of(gets@[q]).unwrap() == self.st(f as int, m)) by {
                            if m == jk {
                                assert(self.index_of(gets@[k as int]).unwrap() == self.st(f as int, m));
                            } else {
                                assert(covered@[m] == before[m]);
                                if exists|q: int| 0 <= q < k + 1 && self.index_of(gets@[q]).unwrap() == self.st(f as int, m) {
                                    let q = choose|q: int| 0 <= q < k + 1 && self.index_of(gets@[q]).unwrap() == self.st(f as int, m);
                                    if q == k {
                                        assert(self.families_seq()[f as int].storages@.no_duplicates());
                                        assert(self.families_seq()[f as int].wf());
                                    }
                                }
                            }
                        }
                        assert forall|q: int| 0 <= q < k + 1 implies exists|m: int|
                            0 <= m < n && #[trigger] self.index_of(gets@[q]).unwrap() == self.st(f as int, m) by {
                            if q == k {
                                assert(self.index_of(gets@[q]).unwrap() == self.st(f as int, jk as int));
                            }
                        }
                    }
                },
                None => {
                    proof {
                        assert forall|fa: int, ga: int|
                            !spans_group(*self, gets@, fa, ga) by {
                            if spans_group(*self, gets@, fa, ga) {
                                self.lemma_family_facts(fa, ga);
                                let jj = choose|jj: int| 0 <= jj < self.ar(fa, ga) && #[trigger] self.st(fa, jj) == self.index_of(gets@[k as int]).unwrap();
                                assert(self.families_seq()[fa].storages@[jj] != sk);
                            }
                        }
                    }
                    return None;
                },
            }
            k = k + 1;
        }
        // the covered positions must be a prefix of the family
        let mut a: usize = 0;
        while a < n && covered[a]
            invariant
                a <= n,
                covered@.len() == n,
                forall|m: int| 0 <= m < a ==> #[trigger] covered@[m],
            decreases n - a,
        {
            a = a + 1;
        }
        let mut m: usize = a;
        while m < n
            invariant
                self.wf(),
                self.families_disjoint(),
                f < self.families_seq().len(),
                *fam == self.families_seq()[f as int],
                n == fam.storages@.len(),
                j0 < n,
                self.st(f as int, j0 as int) == self.index_of(gets@[0]).unwrap(),
                a <= m <= n,
                covered@.len() == n,
                a == n || !covered@[a as int],
                forall|p: int| 0 <= p < a ==> #[trigger] covered@[p],
                forall|p: int| a <= p < m ==> !(#[trigger] covered@[p]),
                forall|p: int| 0 <= p < n ==> (#[trigger] covered@[p] <==> exists|q: int|
                    0 <= q < gets@.len() && self.index_of(gets@[q]).unwrap() == self.st(f as int, p)),
                forall|q: int| 0 <= q < gets@.len() ==> exists|p: int|
                    0 <= p < n && #[trigger] self.index_of(gets@[q]).unwrap() == self.st(f as int, p),
            decreases n - m,
        {
            if covered[m] {
                proof {
                    assert forall|fa: int, ga: int|
                        !spans_group(*self, gets@, fa, ga) by {
                        if spans_group(*self, gets@, fa, ga) {
                            self.lemma_family_facts(fa, ga);
                            self.lemma_span_pinned(gets@, f as int, j0 as int, covered@, fa, self.ar(fa, ga));
                            assert(covered@[a as int] <==> a < self.ar(fa, ga));
                            assert(covered@[m as int] <==> m < self.ar(fa, ga));
                        }
                    }
                }
                return None;
            }
            m = m + 1;
        }
        proof {
            self.lemma_locate_done(gets@, f as int, j0 as int, covered@, a as int);
        }
        Some((f, j0, a))
    }

    /// The dense range of a query whose types are all in one family: the
    /// members of the group spanning exactly the gotten types, or, with one
    /// excluded type that the next group adds, the members of the group that
    /// are not in the next one. The range is of the storage of `gets[0]`,
    /// and holds exactly the entities that the query matches.
    #[verifier::rlimit(100)]
    pub fn dense_range(&self, gets: &Vec<ComponentTypeId>, excludes: &Vec<ComponentTypeId>) -> (r: Option<(usize, usize)>)
        requires
            self.wf(),
            self.grouped(),
            gets@.len() > 0,
            forall|k: int| 0 <= k < gets@.len() ==> self.registered(#[trigger] gets@[k]),
            forall|k: int| 0 <= k < excludes@.len() ==> self.registered(#[trigger] excludes@[k]),
            self.families_disjoint(),
        ensures
            r.is_some() <==> exists|f: int, g: int|
                #![trigger group_match(*self, gets@, excludes@, f, g)]
                #![trigger step_match(*self, gets@, excludes@, f, g)]
                group_match(*self, gets@, excludes@, f, g) || step_match(*self, gets@, excludes@, f, g),
            forall|f: int, g: int|
                #[trigger] group_match(*self, gets@, excludes@, f, g) ==> r == Some((0usize, self.glen(f, g) as usize)),
            forall|f: int, g: int|
                #[trigger] step_match(*self, gets@, excludes@, f, g) ==> r == Some(
                    (self.glen(f, g + 1) as usize, self.glen(f, g) as usize),
                ),
            r.is_some() ==> {
                let s = self.storages_seq()[self.index_of(gets@[0]).unwrap()];
                let (lo, hi) = r.unwrap();
                &&& lo <= hi <= s.len_spec()
                &&& forall|i: int|
                    0 <= i < s.len_spec() ==> ((lo <= i < hi) <==> query_matches(*self, gets@, excludes@, #[trigger] s.dense_seq()[i]))
            },
    {
        let (f, j0, a) = match self.locate(gets) {
            Some(t) => t,
            None => {
                proof {
                    assert forall|fa: int, ga: int|
                        !group_match(*self, gets@, excludes@, fa, ga) && !step_match(*self, gets@, excludes@, fa, ga) by {
                        assert(!spans_group(*self, gets@, fa, ga));
                    }
                }
                return None;
            },
        };
        let fam = &self.families[f];
        let n = fam.storages.len();
        proof {
            self.lemma_family_facts(f as int, 0);
        }
        let ng = fam.groups.len();
        let mut g: usize = 0;
        while g < ng && fam.groups[g].arity != a
            invariant
                g <= ng,
                ng == fam.groups@.len(),
                forall|h: int| 0 <= h < g ==> (#[trigger] fam.groups@[h]).arity != a,
            decreases ng - g,
        {
            g = g + 1;
        }
        proof {
            assert forall|fa: int, ga: int|
                (group_match(*self, gets@, excludes@, fa, ga) || step_match(*self, gets@, excludes@, fa, ga))
                    implies fa == f && #[trigger] self.ar(fa, ga) == a by {
                assert(spans_group(*self, gets@, fa, ga));
            }
        }
        if g == ng {
            proof {
                assert forall|fa: int, ga: int|
                    !group_match(*self, gets@, excludes@, fa, ga) && !step_match(*self, gets@, excludes@, fa, ga) by {
                    if group_match(*self, gets@, excludes@, fa, ga) || step_match(*self, gets@, excludes@, fa, ga) {
                        assert(self.ar(fa, ga) == a);
                        assert(fam.groups@[ga].arity != a);
                    }
                }
            }
            return None;
        }
        proof {
            let c = *self;
            assert(c.ar(f as int, g as int) == a);
            assert forall|fa: int, ga: int|
                (group_match(*self, gets@, excludes@, fa, ga) || step_match(*self, gets@, excludes@, fa, ga))
                    implies fa == f && ga == g by {
                assert(self.ar(fa, ga) == a);
                self.lemma_arity_unique(f as int, g as int, ga);
            }
            assert(c.family_state(f as int, Set::empty()));
            assert(c.ar(f as int, g as int) == a);
            // the gotten types are exactly the storages of group g
            assert forall|x: Entity| (forall|q: int| 0 <= q < gets@.len() ==> c.component_of(x, #[trigger] gets@[q]).is_some())
                <==> c.in_group(f as int, g as int, x) by {
                if forall|q: int| 0 <= q < gets@.len() ==> c.component_of(x, #[trigger] gets@[q]).is_some() {
                    assert forall|p: int| 0 <= p < c.ar(f as int, g as int) implies #[trigger] c.fstorage(f as int, p).has(x) by {
                        assert(slot_of(c, f as int, p) == c.st(f as int, p));
                        let q = choose|q: int| 0 <= q < gets@.len() && c.index_of(#[trigger] gets@[q]).unwrap() == c.st(f as int, p);
                        c.lemma_component_has(x, gets@[q]);
                    }
                }
                if c.in_group(f as int, g as int, x) {
                    assert forall|q: int| 0 <= q < gets@.len() implies c.component_of(x, #[trigger] gets@[q]).is_some() by {
                        let p = choose|p: int| 0 <= p < a && #[trigger] c.st(f as int, p) == c.index_of(gets@[q]).unwrap();
                        c.lemma_component_has(x, gets@[q]);
                        assert(c.fstorage(f as int, p).has(x));
                    }
                }
            }
            assert(j0 < a);
            assert(c.fstorage(f as int, j0 as int) == c.storages_seq()[c.index_of(gets@[0]).unwrap()]);
            c.lemma_group_prefix(f as int, g as int, j0 as int);
        }
        if excludes.len() == 0 {
            proof {
                let c = *self;
                let st0 = c.fstorage(f as int, j0 as int);
                assert forall|i: int| 0 <= i < st0.len_spec() implies ((0 <= i < c.glen(f as int, g as int))
                    <==> query_matches(c, gets@, excludes@, #[trigger] st0.dense_seq()[i])) by {}
                assert(group_match(c, gets@, excludes@, f as int, g as int));
            }
            return Some((0, fam.groups[g].len));
        }
        let step = excludes.len() == 1 && g + 1 < ng && fam.groups[g + 1].arity == a + 1 && a < n
            && fam.storages[a] == self.find(excludes[0]).unwrap();
        if step {
            let se = self.find(excludes[0]).unwrap();
            {
                proof {
                    let c = *self;
                    assert(c.ar(f as int, g as int + 1) == a + 1);
                    c.lemma_group_prefix(f as int, g as int + 1, j0 as int);
                    assert(c.lens_nested(f as int)) by {
                        assert(c.family_state(f as int, Set::empty()));
                    }
                    assert(c.glen(f as int, g as int + 1) <= c.glen(f as int, g as int));
                    let st0 = c.fstorage(f as int, j0 as int);
                    assert forall|x: Entity| c.in_group(f as int, g as int + 1, x) <==> (c.in_group(f as int, g as int, x)
                        && c.fstorage(f as int, a as int).has(x)) by {
                        if c.in_group(f as int, g as int + 1, x) {
                            c.lemma_in_group_nested(f as int, g as int, g as int + 1, x);
                            assert(c.fstorage(f as int, a as int).has(x));
                        }
                        if c.in_group(f as int, g as int, x) && c.fstorage(f as int, a as int).has(x) {
                            assert forall|p: int| 0 <= p < c.ar(f as int, g as int + 1) implies #[trigger] c.fstorage(f as int, p).has(x) by {
                                if p < a {
                                    assert(c.fstorage(f as int, p).has(x));
                                }
                            }
                        }
                    }
                    assert forall|x: Entity| (forall|q: int| 0 <= q < excludes@.len() ==> c.component_of(x, #[trigger] excludes@[q]).is_none())
                        <==> !c.fstorage(f as int, a as int).has(x) by {
                        c.lemma_component_has(x, excludes@[0]);
                        assert(c.index_of(excludes@[0]).unwrap() == se);
                    }
                    assert forall|i: int| 0 <= i < st0.len_spec() implies ((c.glen(f as int, g as int + 1) <= i < c.glen(f as int, g as int))
                        <==> query_matches(c, gets@, excludes@, #[trigger] st0.dense_seq()[i])) by {}
                    assert(c.st(f as int, a as int) == se);
                    assert(step_match(c, gets@, excludes@, f as int, g as int));
                }
                return Some((fam.groups[g + 1].len, fam.groups[g].len));
            }
        }
        proof {
            assert forall|fa: int, ga: int|
                !group_match(*self, gets@, excludes@, fa, ga) && !step_match(*self, gets@, excludes@, fa, ga) by {
                if step_match(*self, gets@, excludes@, fa, ga) {
                    assert(fa == f && ga == g);
                    self.lemma_family_facts(f as int, g as int + 1);
                    assert(fam.groups@[g + 1].arity == a + 1);
                }
            }
        }
        None
    }
}

} // verus!
