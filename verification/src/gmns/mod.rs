//! Network data model based on GMNS (General Modeling Network Specification).
pub mod defaults;
pub mod error;
pub mod meso;
pub mod types;
