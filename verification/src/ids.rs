//! Identities shared across systems.
use vstd::prelude::*;

verus! {

/// Identity of one component record in a [`crate::world::World`].
///
/// The default identity is null: it never names a live component.
#[derive(Debug, Clone, Copy, PartialEq, Eq, Hash, Structural)]
pub struct ComponentId {
    pub index: u64,
}

/// Index of the null identity.
pub const NULL_COMPONENT_INDEX: u64 = 0xFFFF_FFFF_FFFF_FFFF;

impl ComponentId {
    /// The null identity.
    pub fn null() -> (id: Self)
        ensures
            id.index == NULL_COMPONENT_INDEX,
    {
        ComponentId { index: NULL_COMPONENT_INDEX }
    }
}

impl Default for ComponentId {
    fn default() -> (id: Self)
        ensures
            id.index == NULL_COMPONENT_INDEX,
    {
        ComponentId { index: NULL_COMPONENT_INDEX }
    }
}

/// Identity of an imported skin.
#[derive(Debug, Clone, Copy, PartialEq, Eq, Hash, Structural)]
pub struct SkinId {
    pub index: u32,
}

} // verus!
