//! Grid pursuit for a tile world: a breadth-first flow field toward a goal cell, greedy path
//! extraction over it, pursuit steering, and axis-separated tile collision.
//!
//! Continuous coordinates are fixed-point integers, `UNITS_PER_TILE` units to a tile; elapsed
//! time is counted in microseconds.

pub mod geometry;
pub mod collision;
pub mod flow_field;
pub mod path;
pub mod steering;
pub mod agent;
pub mod level;
pub mod level_file;
