use vstd::prelude::*;
use crate::storage::ComponentTypeId;

verus! {

/// Identifies a resource type at run time.
pub type ResourceTypeId = u64;

/// A kind of data that a system accesses.
#[derive(Clone, Copy, PartialEq, Eq, Structural, Debug, Hash)]
pub enum RegistryAccess {
    /// A command buffer for queueing commands.
    Commands,
    /// A shared view over the storage of a component type.
    Comp(ComponentTypeId),
    /// An exclusive view over the storage of a component type.
    CompMut(ComponentTypeId),
    /// A shared view over a resource.
    Res(ResourceTypeId),
    /// An exclusive view over a resource.
    ResMut(ResourceTypeId),
}

impl RegistryAccess {
    /// Two accesses conflict when they name the same component type, or the
    /// same resource type, and at least one of them is exclusive.
    pub open spec fn conflicts_spec(self, other: RegistryAccess) -> bool {
        match (self, other) {
            (RegistryAccess::Comp(a), RegistryAccess::CompMut(b)) => a == b,
            (RegistryAccess::CompMut(a), RegistryAccess::Comp(b)) => a == b,
            (RegistryAccess::CompMut(a), RegistryAccess::CompMut(b)) => a == b,
            (RegistryAccess::Res(a), RegistryAccess::ResMut(b)) => a == b,
            (RegistryAccess::ResMut(a), RegistryAccess::Res(b)) => a == b,
            (RegistryAccess::ResMut(a), RegistryAccess::ResMut(b)) => a == b,
            _ => false,
        }
    }

    /// Checks whether two accesses prevent two systems from running in
    /// parallel.
    pub fn conflicts(&self, other: &RegistryAccess) -> (r: bool)
        ensures
            r == self.conflicts_spec(*other),
    {
        match (self, other) {
            (RegistryAccess::Comp(a), RegistryAccess::CompMut(b)) => *a == *b,
            (RegistryAccess::CompMut(a), RegistryAccess::Comp(b)) => *a == *b,
            (RegistryAccess::CompMut(a), RegistryAccess::CompMut(b)) => *a == *b,
            (RegistryAccess::Res(a), RegistryAccess::ResMut(b)) => *a == *b,
            (RegistryAccess::ResMut(a), RegistryAccess::Res(b)) => *a == *b,
            (RegistryAccess::ResMut(a), RegistryAccess::ResMut(b)) => *a == *b,
            _ => false,
        }
    }

    /// The component type whose storage this access needs, if any.
    pub open spec fn component_type_id_spec(self) -> Option<ComponentTypeId> {
        match self {
            RegistryAccess::Comp(t) => Some(t),
            RegistryAccess::CompMut(t) => Some(t),
            _ => None,
        }
    }

    /// The component type whose storage this access needs, if any.
    pub fn component_type_id(&self) -> (r: Option<ComponentTypeId>)
        ensures
            r == self.component_type_id_spec(),
    {
        match self {
            RegistryAccess::Comp(t) => Some(*t),
            RegistryAccess::CompMut(t) => Some(*t),
            _ => None,
        }
    }
}

/// Some two accesses of the two lists conflict.
pub open spec fn accesses_conflict(a: Seq<RegistryAccess>, b: Seq<RegistryAccess>) -> bool {
    exists|i: int, j: int|
        0 <= i < a.len() && 0 <= j < b.len() && (#[trigger] a[i]).conflicts_spec(#[trigger] b[j])
}

/// Checks whether any access of `a` conflicts with any access of `b`.
pub fn any_conflict(a: &Vec<RegistryAccess>, b: &Vec<RegistryAccess>) -> (r: bool)
    ensures
        r == accesses_conflict(a@, b@),
{
    let mut i: usize = 0;
    while i < a.len()
        invariant
            i <= a@.len(),
            forall|x: int, y: int|
                0 <= x < i && 0 <= y < b@.len() ==> !(#[trigger] a@[x]).conflicts_spec(#[trigger] b@[y]),
        decreases a.len() - i,
    {
        let mut j: usize = 0;
        while j < b.len()
            invariant
                i < a@.len(),
                j <= b@.len(),
                forall|x: int, y: int|
                    0 <= x < i && 0 <= y < b@.len() ==> !(#[trigger] a@[x]).conflicts_spec(#[trigger] b@[y]),
                forall|y: int| 0 <= y < j ==> !a@[i as int].conflicts_spec(#[trigger] b@[y]),
            decreases b.len() - j,
        {
            if a[i].conflicts(&b[j]) {
                return true;
            }
            j = j + 1;
        }
        i = i + 1;
    }
    false
}

/// The error a system returned.
#[derive(Clone, PartialEq, Eq, Debug)]
pub struct SystemError {
    pub message: String,
}

/// The errors that the systems of one run returned, in encounter order.
#[derive(Clone, PartialEq, Eq, Debug)]
pub struct RunError {
    pub errors: Vec<SystemError>,
}

impl RunError {
    pub fn error_count(&self) -> (r: usize)
        ensures
            r == self.errors@.len(),
    {
        self.errors.len()
    }
}

} // verus!
