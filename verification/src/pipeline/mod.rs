//! Discrete decisions of the four-step model pipeline: input checks,
//! zone connectivity, errors and progress reporting.
pub mod connectivity;
pub mod error;
pub mod phase;
pub mod preflight;
pub mod timings;
pub mod union_find;
