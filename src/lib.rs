//! Steady-state rainfall over a one-dimensional relief.
//!
//! Water is measured in whole drops: one unit of terrain height holds
//! `DROPS_PER_UNIT` drops, so every quantity the engine moves is an exact
//! integer and conservation holds without rounding.
use vstd::prelude::*;

pub mod bank;
pub mod column;
pub mod drops;

pub use bank::RainBank;
pub use column::{Column, DROPS_PER_UNIT};
pub mod env;
pub mod laws;
pub mod model;
pub mod render;

pub use env::{Environment, Topology};
