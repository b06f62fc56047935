//! Storage coordinates, per-slot records and the lookup error.

use vstd::prelude::*;

verus! {

/// Storage coordinate of a slot's occupant: a block and a row inside it.
///
/// The allocator never interprets the two numbers, with one exception: a row
/// index of `u32::MAX` marks a slot that holds no row.
#[derive(Clone, Copy, Debug, PartialEq, Eq, Structural)]
pub struct Location {
    pub archetype: u32,
    pub index: u32,
}

impl Location {
    /// The marker value: block 0, row `u32::MAX`.
    pub open spec fn spec_unassigned() -> Location {
        Location { archetype: 0, index: u32::MAX }
    }

    /// True when the row index is the marker of "no row".
    pub open spec fn is_unassigned(self) -> bool {
        self.index == u32::MAX
    }

    /// The location of a slot that holds no row.
    #[verifier::when_used_as_spec(spec_unassigned)]
    pub fn unassigned() -> (loc: Location)
        ensures
            loc == Location::spec_unassigned(),
    {
        Location { archetype: 0, index: u32::MAX }
    }
}

/// What the table records for one slot.
#[derive(Clone, Copy, Debug, PartialEq, Eq, Structural)]
pub struct EntityMeta {
    /// The generation that a handle must carry to name the slot's occupant.
    pub generation: u32,
    /// Where the occupant's data lives, or the marker of "no row".
    pub location: Location,
}

impl EntityMeta {
    /// The record of a slot that was never used: generation 1, no row.
    pub open spec fn spec_empty() -> EntityMeta {
        EntityMeta { generation: 1, location: Location::spec_unassigned() }
    }

    /// The record that a brand-new slot starts with.
    #[verifier::when_used_as_spec(spec_empty)]
    pub fn empty() -> (meta: EntityMeta)
        ensures
            meta == EntityMeta::spec_empty(),
    {
        EntityMeta { generation: 1, location: Location::unassigned() }
    }
}

/// Error of the lookups and of `free`: the handle names no occupant.
#[derive(Clone, Copy, Debug, PartialEq, Eq, Structural)]
pub struct NoSuchEntity;

} // verus!
