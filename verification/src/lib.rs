//! Search for low-energy configurations of an N-atom cluster under a
//! bond-order-corrected pairwise potential, by simulated annealing with a
//! Metropolis Monte Carlo walk.
//!
//! All physical quantities are held in a fixed-point representation
//! (`fx::Fx`, scaled by 2^32) so that every computation in this crate has an
//! exact, machine-checked meaning: each executable function is proved equal
//! to a mathematical specification over the integers.

pub mod engine;
pub mod fx;
pub mod point;
pub mod cluster;
pub mod potential;
pub mod rng;
pub mod series;
