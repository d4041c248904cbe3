pub mod body;
pub mod body_set;
pub mod builder;
pub mod collider;
pub mod collider_set;
pub mod handle_arena;
pub mod slot_store;

pub use self::body::{Body, BodyStatus, ColliderList};
pub use self::body_set::{BodyHandle, BodySet};
pub use self::collider::{
    collision_manifold, is_colliding, is_penetrating, Collider, ColliderState,
};
pub use self::collider_set::{ColliderHandle, ColliderSet};
pub use self::handle_arena::HandleArena;
