//! An octree over axis-aligned boxes on the integer lattice, for broad-phase
//! collision queries and ray casts.
//!
//! Boxes are kept under opaque identifiers. A node keeps a few records itself
//! and hands the others down to the octant of its center that holds them;
//! records that reach or cross the center stay where they are. Every
//! coordinate is a whole number of lattice steps, and every distance along a
//! ray an exact fraction, so that what the index answers is stated and proved
//! without rounding.
//!
//! `tree` holds the mathematical model of the index and `octree` the data
//! structure that implements it; `laws` states what follows for every tree,
//! and `slab` what a hit of a ray on a box means.

pub mod action;
pub mod bounding_box;
pub mod effects;
pub mod enclosure;
pub mod entity;
pub mod laws;
pub mod lemmas;
pub mod octree;
pub mod ratio;
pub mod ray;
pub mod slab;
pub mod systems;
pub mod tree;
pub mod vec3;
