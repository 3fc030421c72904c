use vstd::prelude::*;
use crate::group_mask::{excluding_mask, including_mask, GroupMask, QueryMask, StorageMask};
use crate::storage::ComponentTypeId;

verus! {

/// The most storages a group family may span.
pub const MAX_FAMILY_ARITY: usize = 16;

/// One group of a family: it spans the first `arity` storages of the family,
/// and its `len` entities own all of them and sit first in each.
#[derive(Clone, Copy, PartialEq, Eq, Structural, Debug)]
pub struct Group {
    pub arity: usize,
    pub len: usize,
}

/// A list of nested groups over an ordered list of storages.
pub struct GroupFamily {
    pub storages: Vec<usize>,
    pub groups: Vec<Group>,
}

/// Arities that describe nested groups over `n` storages: at least one
/// group, strictly increasing, the last spanning all storages.
pub open spec fn arities_ok(n: int, arities: Seq<usize>) -> bool {
    &&& arities.len() >= 1
    &&& arities[0] >= 1
    &&& forall|k: int| 0 <= k < arities.len() - 1 ==> #[trigger] arities[k] < arities[k + 1]
    &&& arities.last() == n
}

impl GroupFamily {
    pub open spec fn arity_seq(&self) -> Seq<usize> {
        Seq::new(self.groups@.len(), |g: int| self.groups@[g].arity)
    }

    /// The groups are nested and span at most `MAX_FAMILY_ARITY` storages.
    pub open spec fn wf(&self) -> bool {
        &&& self.storages@.len() <= MAX_FAMILY_ARITY
        &&& arities_ok(self.storages@.len() as int, self.arity_seq())
        &&& self.storages@.no_duplicates()
    }

    pub open spec fn group_range_spec(&self, g: int, mask: QueryMask) -> Option<(usize, usize)> {
        let group = self.groups@[g];
        if mask == including_mask(group.arity as int) {
            Some((0usize, group.len))
        } else if g > 0 && mask == excluding_mask(self.groups@[g - 1].arity as int, group.arity as int) {
            Some((group.len, self.groups@[g - 1].len))
        } else {
            None
        }
    }

    /// Sets the entity count of group `g`.
    pub fn set_group_len(&mut self, g: usize, len: usize)
        requires
            g < old(self).groups@.len(),
        ensures
            final(self).storages@ == old(self).storages@,
            final(self).groups@ == old(self).groups@.update(g as int, Group { arity: old(self).groups@[g as int].arity, len }),
            final(self).arity_seq() == old(self).arity_seq(),
    {
        let arity = self.groups[g].arity;
        self.groups.set(g, Group { arity, len });
        proof {
            assert(self.arity_seq() =~= old(self).arity_seq());
        }
    }

    pub fn group_count(&self) -> (r: usize)
        ensures
            r == self.groups@.len(),
    {
        self.groups.len()
    }

    /// The entity count of group `g`.
    pub fn group_len(&self, g: usize) -> (r: usize)
        requires
            g < self.groups@.len(),
        ensures
            r == self.groups@[g as int].len,
    {
        self.groups[g].len
    }

    /// The query mask that selects exactly the entities of group `g`.
    pub fn including_mask(&self, g: usize) -> (r: QueryMask)
        requires
            self.wf(),
            g < self.groups@.len(),
        ensures
            r == including_mask(self.groups@[g as int].arity as int),
    {
        proof {
            self.lemma_arity_bound(g as int);
        }
        QueryMask::including(self.groups[g].arity)
    }

    /// The query mask that selects the entities of group `g - 1` outside
    /// group `g`.
    pub fn excluding_mask(&self, g: usize) -> (r: QueryMask)
        requires
            self.wf(),
            0 < g < self.groups@.len(),
        ensures
            r == excluding_mask(self.groups@[g - 1].arity as int, self.groups@[g as int].arity as int),
    {
        proof {
            self.lemma_arity_bound(g as int);
            self.lemma_arity_bound(g - 1);
            self.lemma_arity_increasing(g - 1, g as int);
        }
        QueryMask::exclude(self.groups[g - 1].arity, self.groups[g].arity)
    }

    pub proof fn lemma_arity_increasing(&self, a: int, b: int)
        requires
            self.wf(),
            0 <= a < b < self.groups@.len(),
        ensures
            self.groups@[a].arity < self.groups@[b].arity,
        decreases b - a,
    {
        assert(self.arity_seq()[a] < self.arity_seq()[a + 1]);
        if a + 1 < b {
            self.lemma_arity_increasing(a + 1, b);
        }
    }

    pub proof fn lemma_arity_bound(&self, g: int)
        requires
            self.wf(),
            0 <= g < self.groups@.len(),
        ensures
            1 <= self.groups@[g].arity <= self.storages@.len() <= MAX_FAMILY_ARITY,
    {
        let n = self.groups@.len();
        assert(self.arity_seq()[0] >= 1);
        if g > 0 {
            self.lemma_arity_increasing(0, g);
        }
        if g < n - 1 {
            self.lemma_arity_increasing(g, n - 1);
        }
        assert(self.arity_seq()[n - 1] == self.storages@.len());
    }
}

/// Where a group sits in a family: the family, the group's position in it,
/// and the number of groups of the family.
#[derive(Clone, Copy, PartialEq, Eq, Structural, Debug)]
pub struct ParentGroup {
    pub group_id: usize,
    pub subgroup_index: usize,
    pub subgroup_len: usize,
}

impl ParentGroup {
    pub fn new(group_id: usize, subgroup_index: usize, subgroup_len: usize) -> (r: ParentGroup)
        ensures
            r.group_id == group_id,
            r.subgroup_index == subgroup_index,
            r.subgroup_len == subgroup_len,
    {
        ParentGroup { group_id, subgroup_index, subgroup_len }
    }

    pub fn group_id(&self) -> (r: usize)
        ensures
            r == self.group_id,
    {
        self.group_id
    }

    pub fn subgroup_index(&self) -> (r: usize)
        ensures
            r == self.subgroup_index,
    {
        self.subgroup_index
    }

    pub fn subgroup_len(&self) -> (r: usize)
        ensures
            r == self.subgroup_len,
    {
        self.subgroup_len
    }
}

/// How a storage takes part in a group family.
#[derive(Clone, Copy, PartialEq, Eq, Structural, Debug)]
pub struct ComponentGroupInfo {
    /// The family, by position in the layout.
    pub family: usize,
    /// The first group of the family that spans the storage.
    pub group_offset: usize,
    /// The bit of the storage within the family.
    pub storage_mask: StorageMask,
}

impl ComponentGroupInfo {
    pub fn new(family: usize, group_offset: usize, storage_mask: StorageMask) -> (r: ComponentGroupInfo)
        ensures
            r == (ComponentGroupInfo { family, group_offset, storage_mask }),
    {
        ComponentGroupInfo { family, group_offset, storage_mask }
    }
}

/// The union of the group information of the views of a query.
#[derive(Clone, Copy, PartialEq, Eq, Structural, Debug)]
pub struct QueryGroupInfo {
    pub family: usize,
    pub group_offset: usize,
    pub query_mask: QueryMask,
}

impl QueryGroupInfo {
    /// The group information of a query over one view.
    pub fn new(info: ComponentGroupInfo) -> (r: QueryGroupInfo)
        ensures
            r.family == info.family,
            r.group_offset == info.group_offset,
            r.query_mask == (QueryMask { included: info.storage_mask, excluded: GroupMask(0) }),
    {
        QueryGroupInfo {
            family: info.family,
            group_offset: info.group_offset,
            query_mask: QueryMask::new(info.storage_mask, GroupMask::empty()),
        }
    }

    /// Adds a view whose storage the query reads. `None` when the view's
    /// storage is in another family.
    pub fn including(self, info: ComponentGroupInfo) -> (r: Option<QueryGroupInfo>)
        ensures
            r.is_none() <==> self.family != info.family,
            r.is_some() ==> {
                let q = r.unwrap();
                &&& q.family == self.family
                &&& q.group_offset == if self.group_offset >= info.group_offset {
                    self.group_offset
                } else {
                    info.group_offset
                }
                &&& q.query_mask.excluded == self.query_mask.excluded
                &&& q.query_mask.included.0 == self.query_mask.included.0 | info.storage_mask.0
            },
    {
        if self.family != info.family {
            return None;
        }
        let offset = if self.group_offset >= info.group_offset {
            self.group_offset
        } else {
            info.group_offset
        };
        Some(
            QueryGroupInfo {
                family: self.family,
                group_offset: offset,
                query_mask: QueryMask::new(self.query_mask.included.union(info.storage_mask), self.query_mask.excluded),
            },
        )
    }

    /// Adds a view whose storage the query excludes. `None` when the view's
    /// storage is in another family.
    pub fn exclude(self, info: ComponentGroupInfo) -> (r: Option<QueryGroupInfo>)
        ensures
            r.is_none() <==> self.family != info.family,
            r.is_some() ==> {
                let q = r.unwrap();
                &&& q.family == self.family
                &&& q.group_offset == if self.group_offset >= info.group_offset {
                    self.group_offset
                } else {
                    info.group_offset
                }
                &&& q.query_mask.included == self.query_mask.included
                &&& q.query_mask.excluded.0 == self.query_mask.excluded.0 | info.storage_mask.0
            },
    {
        if self.family != info.family {
            return None;
        }
        let offset = if self.group_offset >= info.group_offset {
            self.group_offset
        } else {
            info.group_offset
        };
        Some(
            QueryGroupInfo {
                family: self.family,
                group_offset: offset,
                query_mask: QueryMask::new(self.query_mask.included, self.query_mask.excluded.union(info.storage_mask)),
            },
        )
    }

    /// The dense range of a grouped query: all of a group when the query
    /// asks for exactly its storages, or the part of the previous group
    /// outside it when the query excludes exactly the storages the group
    /// adds (its entities sit after those of the deeper group). `None` when
    /// the query matches no group.
    pub fn group_range(&self, family: &GroupFamily) -> (r: Option<(usize, usize)>)
        requires
            family.wf(),
            self.group_offset < family.groups@.len(),
        ensures
            r == family.group_range_spec(self.group_offset as int, self.query_mask),
    {
        let g = self.group_offset;
        if self.query_mask == family.including_mask(g) {
            Some((0, family.groups[g].len))
        } else if g > 0 && self.query_mask == family.excluding_mask(g) {
            Some((family.groups[g].len, family.groups[g - 1].len))
        } else {
            None
        }
    }
}

/// A family as a layout lists it: its component types in order, and the
/// arity of each of its nested groups.
pub struct LayoutFamily {
    pub components: Vec<ComponentTypeId>,
    pub arities: Vec<usize>,
}

/// Why a family was refused.
#[derive(Clone, Copy, PartialEq, Eq, Structural, Debug)]
pub enum LayoutError {
    /// The family spans more than `MAX_FAMILY_ARITY` component types.
    TooManyComponents,
    /// The arities do not describe nested groups over the family.
    InvalidArities,
    /// A component type is listed twice, or already in another family.
    DuplicateComponent,
}

/// Describes how component storages are grouped.
pub struct Layout {
    families: Vec<LayoutFamily>,
}

/// No component type of the family occurs twice or in an earlier family.
pub open spec fn components_fresh(components: Seq<ComponentTypeId>, families: Seq<LayoutFamily>) -> bool {
    &&& components.no_duplicates()
    &&& forall|f: int, i: int|
        0 <= f < families.len() && 0 <= i < components.len() ==> !(#[trigger] families[f]).components@.contains(
            #[trigger] components[i],
        )
}

impl Layout {
    pub closed spec fn families_seq(&self) -> Seq<LayoutFamily> {
        self.families@
    }

    /// Every family was checked when it was added: no component type is in
    /// two families.
    pub open spec fn wf(&self) -> bool {
        &&& forall|f: int|
            0 <= f < self.families_seq().len() ==> {
                let fam = #[trigger] self.families_seq()[f];
                &&& fam.components@.len() <= MAX_FAMILY_ARITY
                &&& arities_ok(fam.components@.len() as int, fam.arities@)
                &&& fam.components@.no_duplicates()
            }
        &&& forall|f1: int, f2: int, i: int|
            0 <= f1 < f2 < self.families_seq().len() && 0 <= i < self.families_seq()[f2].components@.len()
                ==> !(#[trigger] self.families_seq()[f1]).components@.contains(
                #[trigger] self.families_seq()[f2].components@[i],
            )
    }

    pub fn new() -> (r: Layout)
        ensures
            r.wf(),
            r.families_seq().len() == 0,
    {
        Layout { families: Vec::new() }
    }

    pub fn families(&self) -> (r: &[LayoutFamily])
        ensures
            r@ == self.families_seq(),
    {
        self.families.as_slice()
    }

    /// Adds a family after checking it.
    pub fn add_family(&mut self, components: Vec<ComponentTypeId>, arities: Vec<usize>) -> (r: Result<(), LayoutError>)
        requires
            old(self).wf(),
        ensures
            final(self).wf(),
            r == Err::<(), LayoutError>(LayoutError::TooManyComponents) <==> components@.len() > MAX_FAMILY_ARITY,
            r == Err::<(), LayoutError>(LayoutError::InvalidArities) <==> (components@.len() <= MAX_FAMILY_ARITY
                && !arities_ok(components@.len() as int, arities@)),
            r == Err::<(), LayoutError>(LayoutError::DuplicateComponent) <==> (components@.len() <= MAX_FAMILY_ARITY
                && arities_ok(components@.len() as int, arities@) && !components_fresh(
                components@,
                old(self).families_seq(),
            )),
            r.is_ok() ==> final(self).families_seq().len() == old(self).families_seq().len() + 1
                && final(self).families_seq().drop_last() == old(self).families_seq()
                && final(self).families_seq().last().components@ == components@
                && final(self).families_seq().last().arities@ == arities@,
            r.is_err() ==> final(self).families_seq() == old(self).families_seq(),
    {
        if components.len() > MAX_FAMILY_ARITY {
            return Err(LayoutError::TooManyComponents);
        }
        if !check_arities(components.len(), &arities) {
            return Err(LayoutError::InvalidArities);
        }
        if !self.fresh(&components) {
            return Err(LayoutError::DuplicateComponent);
        }
        self.families.push(LayoutFamily { components, arities });
        proof {
            assert(self.families_seq().drop_last() =~= old(self).families_seq());
            let n = old(self).families_seq().len();
            assert forall|f1: int, f2: int, i: int|
                0 <= f1 < f2 < self.families_seq().len() && 0 <= i < self.families_seq()[f2].components@.len()
                    implies !(#[trigger] self.families_seq()[f1]).components@.contains(
                    #[trigger] self.families_seq()[f2].components@[i],
                ) by {
                assert(self.families_seq()[f1] == old(self).families_seq()[f1]);
                if f2 < n {
                    assert(self.families_seq()[f2] == old(self).families_seq()[f2]);
                }
            }
        }
        Ok(())
    }

    fn fresh(&self, components: &Vec<ComponentTypeId>) -> (r: bool)
        ensures
            r == components_fresh(components@, self.families_seq()),
    {
        let n = components.len();
        let mut i: usize = 0;
        while i < n
            invariant
                n == components@.len(),
                i <= n,
                forall|a: int, b: int| 0 <= a < b < i ==> components@[a] != components@[b],
                forall|f: int, k: int|
                    0 <= f < self.families@.len() && 0 <= k < i ==> !(#[trigger] self.families@[f]).components@.contains(
                        #[trigger] components@[k],
                    ),
            decreases n - i,
        {
            let c = components[i];
            let mut j: usize = 0;
            while j < i
                invariant
                    i < n,
                    n == components@.len(),
                    c == components@[i as int],
                    j <= i,
                    forall|a: int| 0 <= a < j ==> components@[a] != c,
                decreases i - j,
            {
                if components[j] == c {
                    proof {
                        assert(!components@.no_duplicates());
                    }
                    return false;
                }
                j = j + 1;
            }
            let mut f: usize = 0;
            while f < self.families.len()
                invariant
                    i < n,
                    n == components@.len(),
                    c == components@[i as int],
                    f <= self.families@.len(),
                    forall|g: int| 0 <= g < f ==> !(#[trigger] self.families@[g]).components@.contains(c),
                decreases self.families.len() - f,
            {
                let fam = &self.families[f];
                let mut k: usize = 0;
                while k < fam.components.len()
                    invariant
                        k <= fam.components@.len(),
                        forall|m: int| 0 <= m < k ==> fam.components@[m] != c,
                        f < self.families@.len(),
                        *fam == self.families@[f as int],
                        i < n,
                        n == components@.len(),
                        c == components@[i as int],
                    decreases fam.components.len() - k,
                {
                    if fam.components[k] == c {
                        proof {
                            assert(fam.components@.contains(c));
                            assert(self.families_seq()[f as int].components@.contains(components@[i as int]));
                        }
                        return false;
                    }
                    k = k + 1;
                }
                f = f + 1;
            }
            i = i + 1;
        }
        true
    }
}

fn check_arities(n: usize, arities: &Vec<usize>) -> (r: bool)
    ensures
        r == arities_ok(n as int, arities@),
{
    let len = arities.len();
    if len == 0 || arities[0] < 1 || arities[len - 1] != n {
        return false;
    }
    let mut k: usize = 0;
    while k + 1 < len
        invariant
            len == arities@.len(),
            len >= 1,
            k + 1 <= len,
            forall|m: int| 0 <= m < k ==> #[trigger] arities@[m] < arities@[m + 1],
        decreases len - k,
    {
        if arities[k] >= arities[k + 1] {
            return false;
        }
        k = k + 1;
    }
    true
}

} // verus!
