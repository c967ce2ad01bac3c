//! A deterministic fixed-step gravitational N-body integrator with swept
//! collision detection between circular bodies.
//!
//! All quantities are integers in units that the caller chooses (a length
//! unit, a time unit, a mass unit), so that every run is bit-for-bit
//! reproducible and the conservation laws hold exactly rather than up to
//! rounding.

pub mod vector;
pub mod wide;
pub mod collision;
pub mod gravity;
pub mod catalog;
pub mod integrator;
pub mod simulation;
pub mod laws;
