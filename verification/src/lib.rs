//! A fueled merge tree ("spine") that keeps the physical layout of an
//! append-only, time-versioned collection of update batches.
//!
//! Batches arrive in order of time. The spine keeps them in layers of
//! geometrically growing capacity and merges neighbours a bounded amount of
//! work at a time, so that no single insertion pays for a large merge, and
//! the number of batches stays logarithmic in the number of updates.
//!
//! The executable types live in [`frontier`], [`batch`], [`layer`] and
//! [`trace`]. Their contracts are stated over the mathematical model in
//! [`model`]; [`wellformed`] holds the invariant of the layers, and
//! [`fueling`], [`rolling`] and [`tidying`] prove that each step keeps it.
//! [`presence`] shows that a spine keeps the batches it has, [`progress`]
//! ranks the layers by how far they are from being reduced, and [`laws`]
//! states what holds of every spine.
pub mod batch;
pub mod catalog;
pub mod frontier;
pub mod fueling;
pub mod grow;
pub mod laws;
pub mod layer;
pub mod levels;
pub mod model;
pub mod presence;
pub mod progress;
pub mod rename;
pub mod rolling;
pub mod tidying;
pub mod trace;
pub mod wellformed;
