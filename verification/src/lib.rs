//! A 2D collision engine for axis-aligned boxes on fixed-point coordinates.
//!
//! A world holds bodies and the colliders attached to them. A step moves
//! each kinematic body by its velocity, stops it at the solid colliders in
//! its way, one axis after the other, keeps a graph of the colliders that
//! touch, and reports as events where a contact began and where one ended.
//! Between steps the world answers queries: which colliders lie in a
//! region, and which a ray hits.
//!
//! Lengths are whole numbers of thousandths of a unit ([`SCALE`] steps make
//! one unit), and so are times, so every comparison and every sum in the
//! engine is exact. Stored coordinates are `i32`; intermediate results are
//! computed in wider integers and saturate when they are stored.
//!
//! Bodies and colliders are named by handles that stay valid until the
//! removal of what they name, and are never valid again after it.

pub mod collision;
pub mod describe;
pub mod event;
pub mod laws;
pub mod object;
pub mod query;
pub mod resolve;
pub mod vector;
pub mod world;

pub use self::collision::{collision_aabb_aabb, collision_aabb_aabb_manifold};
pub use self::collision::{contact_ray_aabb, Ray, Raycast};
pub use self::collision::{CollisionGraph, CollisionInfo, GraphEdge, Interaction};
pub use self::collision::{Contact, ContactManifold, AABB};
pub use self::event::{ContactEvent, EventLog};
pub use self::object::builder;
pub use self::object::{
    collision_manifold, is_colliding, is_penetrating, Body, BodyHandle, BodySet, BodyStatus,
    Collider, ColliderHandle, ColliderList, ColliderSet, ColliderState, HandleArena,
};
pub use self::vector::{Vec2, SCALE, TOLERANCE};
pub use self::world::{PhysicsWorld, RemoveError};
