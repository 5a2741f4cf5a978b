//! A 2D particle-physics sandbox core: circular bodies under gravity,
//! integrated with the Verlet scheme, colliding with one another and with a
//! bounded world, advanced in fixed-size sub-steps.
//!
//! Coordinates are saturating fixed-point numbers (see [`fx`]), so every
//! solver step is a total, exactly specified function of the previous state.

pub mod camera;
pub mod fx;
pub mod laws;
pub mod object;
pub mod solver;
pub mod vec;
