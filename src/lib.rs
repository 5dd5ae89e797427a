//! Flocking simulation core: toroidal geometry, the three steering rules,
//! per-flock aggregation, velocity update and motion integration, all in
//! fixed-point integer arithmetic so that every step is exact.
pub mod fixed;
pub mod torus;
pub mod steering;
pub mod flock;
pub mod motion;
pub mod simulation;
