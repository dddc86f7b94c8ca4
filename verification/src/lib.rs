//! A discrete-time collision engine for axis-aligned boxes on an integer lattice.
//!
//! Coordinates are fixed-point values stored in 32 bits. Every result is
//! computed exactly in a wider type and then clamped to the coordinate range,
//! so no operation of the engine can overflow. Time is counted in whole
//! ticks, and a velocity is a displacement per tick.
//!
//! A [`PhysicsWorld`] owns the bodies and the pairs of bodies that it tracks
//! from one step to the next. A step finds the pairs that may touch
//! (`broad`), moves the bodies without letting a body run through a solid one
//! (`ccd`, on top of `toi`), classifies every tracked pair and derives the
//! events of the step (`narrow`), and pushes overlapping solid bodies apart
//! (`resolve`). What holds of a step as a whole is proved in `rest`,
//! `masks` and `twobody`.

pub mod vector;
pub mod shape;
pub mod toi;
pub mod body;
pub mod builder;
pub mod event;
pub mod graph;
pub mod store;
pub mod world;
pub mod broad;
pub mod ccd;
pub mod narrow;
pub mod resolve;
pub mod rest;
pub mod masks;
pub mod twobody;
pub mod groups;
pub mod input;

pub use crate::body::{collided, collision_info, Body, BodyHandle, BodyState, BodyType, Shape};
pub use crate::builder::BodyBuilder;
pub use crate::event::PhysicsEvent;
pub use crate::graph::{CollisionGraph, Edge};
pub use crate::groups::{best_correction, classify_collision, BodyTag, CollisionData, CollisionGroup};
pub use crate::input::{Button, ButtonsState};
pub use crate::narrow::detect_collision;
pub use crate::shape::{collision_aabb_aabb, collision_aabb_aabb_manifold, Contact, ContactManifold};
pub use crate::store::MAX_BODIES;
pub use crate::toi::{time_of_impact, Toi};
pub use crate::vector::Vector;
pub use crate::world::{ContactInfo, PhysicsWorld};
