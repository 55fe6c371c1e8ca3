//! A gravitational N-body engine over fixed-point arithmetic.
//!
//! Point masses attract each other under softened Newtonian gravity; a
//! symplectic leapfrog (kick-drift-kick) integrator advances the system by
//! fixed time steps.  All state is held in 128-bit fixed-point integers
//! (`SCALE` units per metre-equivalent), so every operation has an exact
//! integer meaning and the contracts below pin results down bit for bit.

pub mod math;
pub mod vec3;
pub mod body;
pub mod force;
pub mod integrate;
pub mod sim;
pub mod project;
