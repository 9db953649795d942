//! Fixed-timestep settings shared by the demos.

use vstd::prelude::*;

verus! {

/// Simulation updates per second.
pub const UPS: i64 = 60;

/// The fixed timestep, one sixtieth of a second as a fixed-point scalar.
pub const DT: i64 = 1092;

} // verus!
