//! Core of a small real-time simulation toy: broad-phase collision culling
//! (sweep-and-prune with a brute-force reference), narrow-phase elastic
//! response, boundary containment, an XPBD-style constraint solver for
//! soft-body lattices and tetrahedra, and a pendulum chain.
//!
//! All coordinates are fixed-point: an `i64` holds a real value scaled by
//! `fixed::SCALE`. Every routine states its exact integer result, so the
//! whole numeric pipeline is deterministic and verified free of overflow
//! and of division by zero.

pub mod collision;
pub mod fixed;
pub mod mesh_repo;
pub mod pendulum;
pub mod script;
pub mod settings;
pub mod softbody;
pub mod tetra;
pub mod timing;
pub mod vec2;
pub mod vec3;
