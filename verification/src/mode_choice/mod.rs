//! Mode choice (step 3): the errors the split reports.
pub mod error;
