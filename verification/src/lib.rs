//! Core of a small rigid-body physics engine: a world that advances a
//! population of rigid bodies through time, detects contacts between their
//! geometries, collects contact and joint constraints for an external solver,
//! and maintains an island-sleeping activation system.
//!
//! All quantities are fixed-point integers with [`fx::SCALE`] fractional
//! units per world unit, so every computation here is exact and verified.
//! Floating-point geometry backends live outside the library and talk to it
//! through these fixed-point values.

pub mod bodies_bodies;
pub mod body_damping;
pub mod body_force_generator;
pub mod body_smp_euler_integrator;
pub mod broad_phase;
pub mod constraint;
pub mod fx;
pub mod geom;
pub mod joint;
pub mod laws;
pub mod object;
pub mod pairwise;
pub mod signal;
pub mod swept_ball_motion_clamping;
pub mod tracked_set;
pub mod vect;
pub mod world;
