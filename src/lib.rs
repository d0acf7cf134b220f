//! A particle-life simulation kernel on a periodic two-dimensional domain,
//! computed in fixed-point arithmetic (`fixed::ONE` stands for 1.0).
//!
//! - `config`: the simulation configuration, checked at construction.
//! - `types`: particle types and their attraction table.
//! - `force`: the minimum-image displacement and the pairwise force law.
//! - `grid`: the periodic uniform grid that buckets particles by position.
//! - `quadtree`: a capacity-bounded region quadtree with disc queries.
//! - `particle`: the particle store and one tick (grid rebuild, force phase,
//!   integration).
//! - `schedule`: splitting the force phase across workers, and why the
//!   split is race-free and changes nothing in the result.
//! - `setup`: random generations.
use vstd::prelude::*;

pub mod config;
pub mod fixed;
pub mod force;
pub mod grid;
pub mod pairs;
pub mod particle;
pub mod quadtree;
pub mod schedule;
pub mod setup;
pub mod types;

verus! {

} // verus!
