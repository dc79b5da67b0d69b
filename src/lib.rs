//! The discrete core of a rigid-body physics engine with continuous collision
//! detection: the store of entities and colliders behind stable handles, the
//! collider-to-entity link graph, the sleep / wake contact graph, the table
//! that picks a narrow-phase routine for a pair of collider kinds, and the
//! index topology of convex face meshes.
//!
//! Every quantity in the store is discrete (handles, flags, kinds, indices);
//! the continuous state of a body (positions, velocities, masses) is kept by
//! the caller next to the handle that this store hands out.


pub mod collider_type;
pub use collider_type::{contact_plan, ColliderType, ContactPlan, ContactRoutine};
mod arena;
pub mod handles;
pub use handles::{ColliderHandle, EntityHandle};
pub mod world;
pub use world::{ColliderNode, EntityNode, EntityView, HandleError, SettleStage, World};
pub mod mesh;
pub use mesh::MeshTopology;
