//! Incremental evaluation of map-filter-project operators over timestamped row
//! deltas.
//!
//! A row update is a row, a logical time and a signed multiplicity. A
//! map-filter-project operator maps, filters and projects the rows of its
//! input; where a predicate reads the clock, a row is in the output only for
//! some time, and the operator hands on the row's retraction when that time is
//! over, without new input. To that end it keeps the updates that are still to
//! come in an arrangement, and asks a scheduler to wake it when the next of
//! them is due.
//!
//! * [`repr`]: values, rows and updates.
//! * [`expr`]: scalar expressions and their evaluation on a row.
//! * [`linear`]: the description of an operator, its plan, and the evaluation
//!   of a plan on a row.
//! * [`arrangement`]: the time-ordered store of updates, with compaction.
//! * [`scheduler`]: the wake-ups of the operators.
//! * [`mfp`]: one activation of an operator.
//! * [`state`]: what the operators of one graph share.
//! * [`render`]: the context that holds a graph, and the rendering of plans.
//! * [`error`]: errors of rendering and of running.
//! * [`filters`]: facts about filtered sequences that the proofs share.

pub mod arrangement;
pub mod error;
pub mod expr;
pub mod filters;
pub mod linear;
pub mod mfp;
pub mod render;
pub mod repr;
pub mod scheduler;
pub mod state;
