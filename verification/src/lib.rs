//! Random walks on the integers with ternary steps {-1, 0, +1}, a walk on a
//! grid of cells, and statistics over the history of a walk.
//!
//! Every walk that consumes randomness takes a caller-supplied source
//! (`FnMut() -> u32` or `FnMut() -> u8`). Its contract pins the result down
//! up to the values drawn: the outcome is what the exact step functions
//! give for some sequence of draws that the source can return.

pub mod common;
pub mod simple;
pub mod reflecting;
pub mod absorbing;
pub mod correlated;
pub mod stats;
pub mod passage;
pub mod grid;
pub mod spatial;


pub use absorbing::AbsorbingWalk;
pub use correlated::CorrelatedWalk;
pub use grid::{Walk, random_walk, walk_distribution};
pub use passage::{FirstPassageTime, ReturnTimeDistribution};
pub use reflecting::ReflectingWalk;
pub use simple::{BiasedWalk, SimpleTernaryWalk};
pub use spatial::SpatialTernaryWalk;
pub use stats::{HistorySummary, state_counts};
