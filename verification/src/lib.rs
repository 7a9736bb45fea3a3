//! Macroscopic traffic demand model: the network data model, its
//! indexed graph, zone connectivity checks and the discrete decisions
//! of the four-step pipeline, with their contracts proved by Verus.
pub mod assignment;
pub mod config;
pub mod error;
pub mod gmns;
pub mod mode_choice;
pub mod od;
pub mod pipeline;
pub mod sorted_ids;
pub mod text;
