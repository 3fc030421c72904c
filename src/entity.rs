use vstd::prelude::*;

verus! {

/// An opaque identifier of a logical object: a slot index and the slot's
/// version. Two entities are equal only when both parts are equal.
#[derive(Clone, Copy, PartialEq, Eq, Structural, Debug, Hash)]
pub struct Entity {
    pub index: u32,
    pub version: u32,
}

impl Entity {
    /// Versions start at one; zero never names a live entity.
    pub open spec fn wf(self) -> bool {
        self.version >= 1
    }

    /// The first entity issued for a slot.
    pub fn with_index(index: u32) -> (r: Entity)
        ensures
            r.index == index,
            r.version == 1,
    {
        Entity { index, version: 1 }
    }

    pub fn new(index: u32, version: u32) -> (r: Entity)
        requires
            version >= 1,
        ensures
            r.index == index,
            r.version == version,
    {
        Entity { index, version }
    }

    pub fn index(&self) -> (r: usize)
        ensures
            r == self.index,
    {
        self.index as usize
    }

    pub fn version(&self) -> (r: u32)
        ensures
            r == self.version,
    {
        self.version
    }

    /// The entity that reuses this slot next, or `None` when the version is
    /// exhausted and the slot must be retired.
    pub fn with_next_version(&self) -> (r: Option<Entity>)
        ensures
            self.version < u32::MAX ==> r == Some(
                (Entity { index: self.index, version: (self.version + 1) as u32 }),
            ),
            self.version == u32::MAX ==> r.is_none(),
    {
        if self.version < u32::MAX {
            Some(Entity { index: self.index, version: self.version + 1 })
        } else {
            None
        }
    }
}

/// What a sparse slot holds: the dense position of an entity and the version
/// that the entity must carry to be present.
#[derive(Clone, Copy, PartialEq, Eq, Structural, Debug, Hash)]
pub struct IndexEntity {
    pub dense: u32,
    pub version: u32,
}

impl IndexEntity {
    pub fn new(dense: u32, version: u32) -> (r: IndexEntity)
        ensures
            r.dense == dense,
            r.version == version,
    {
        IndexEntity { dense, version }
    }

    pub fn dense(&self) -> (r: usize)
        ensures
            r == self.dense,
    {
        self.dense as usize
    }

    pub fn version(&self) -> (r: u32)
        ensures
            r == self.version,
    {
        self.version
    }
}

} // verus!
