pub mod aabb;
pub mod collision_graph;
pub mod graph_store;
pub mod ray;

pub use self::aabb::{collision_aabb_aabb, collision_aabb_aabb_manifold};
pub use self::aabb::{Contact, ContactManifold, AABB};
pub use self::collision_graph::{CollisionGraph, CollisionInfo, GraphEdge, Interaction};
pub use self::ray::{contact_ray_aabb, Ray, Raycast};
