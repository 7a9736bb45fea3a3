//! Origin-destination matrices: the zone-indexed storage they share.
pub mod zone_matrix;
