use vstd::prelude::*;

verus! {

/// Names an entity in a [`crate::World`]. A handle keeps naming the same
/// entity for as long as that entity is stored.
#[derive(Clone, Copy, Debug, PartialEq, Eq, Hash, Structural)]
pub struct EntityHandle {
    /// The slot in the store.
    pub index: usize,
    /// The generation of the slot when the entity was stored.
    pub generation: u64,
}

/// Names a collider in a [`crate::World`].
#[derive(Clone, Copy, Debug, PartialEq, Eq, Hash, Structural)]
pub struct ColliderHandle {
    /// The slot in the store.
    pub index: usize,
    /// The generation of the slot when the collider was stored.
    pub generation: u64,
}

} // verus!
