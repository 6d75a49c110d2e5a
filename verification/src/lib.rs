//! A two-dimensional simulation world: bodies kept in a uniform grid for
//! proximity queries, a per-frame update and collision pass, and ray casting
//! along the grid.
//!
//! Coordinates, distances and times are whole numbers: the caller picks the
//! scale. Entities are known to the world by their bodies; what they do is
//! supplied from outside through [`Behaviors`].
//!
//! An update is made of steps that can also be taken one by one: `behave`
//! (and `advance` for one entity), `reclaim`, `clear_dynamic`, and `settle`
//! for the turn of each entity left (with `meet` for one pair and `reindex`
//! for the recording alone). The contract of `update` is stated over them.

pub mod body;
pub mod counting;
pub mod location;
pub mod query;
pub mod ray;
pub mod raycast;
pub mod sort;
pub mod spatial_hashing;
pub mod theorems;
pub mod traversal;
pub mod update;
pub mod world;

pub use crate::body::{Body, Flags, PhysicType};
pub use crate::location::Location;
pub use crate::ray::{Intersection, Line, Ray, RayHit};
pub use crate::raycast::QueryError;
pub use crate::spatial_hashing::SpatialHashing;
pub use crate::update::Behaviors;
pub use crate::world::World;
