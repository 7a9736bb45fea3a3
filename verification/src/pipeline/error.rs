//! Error types for the four-step pipeline orchestrator.
use vstd::prelude::*;
use vstd::string::StringExecFns;

use crate::gmns::types::ZoneID;
use crate::text::{
    id_list_text,
    joined_lists,
    list_views,
    nat_digits,
    push_id_list,
    push_joined_lists,
    push_usize,
};

verus! {

/// Structured reason for `PipelineError::InvalidInput` about the zones
/// and the network.
#[derive(Debug, Clone)]
pub enum InvalidInputReason {
    /// No zones were provided at all.
    NoZones,
    /// Zones exist but none of them has a centroid node in the network.
    ///
    /// `zone_count` is the total number of zones; `missing_ids` lists
    /// every zone ID that has no corresponding centroid node.
    NoCentroids { zone_count: usize, missing_ids: Vec<ZoneID> },
    /// All zones have zero population, employment, and households.
    ZeroAttributes { zone_ids: Vec<ZoneID> },
    /// Zone centroids form several strongly-connected components.
    ///
    /// `components` lists the zone IDs in each component, sorted by the
    /// smallest zone ID in each group.
    DisconnectedComponents { components: Vec<Vec<ZoneID>> },
}

/// The message of an invalid-input reason.
pub open spec fn reason_text(r: InvalidInputReason) -> Seq<char> {
    match r {
        InvalidInputReason::NoZones => "no zones provided: at least one zone is required"@,
        InvalidInputReason::NoCentroids { zone_count, missing_ids } => "no zone centroids found in network: "@
            + nat_digits(zone_count as nat)
            + " zones provided but none have a corresponding centroid node (zone_id on a network node); missing zone IDs: "@
            + id_list_text(missing_ids@),
        InvalidInputReason::ZeroAttributes { zone_ids } =>
            "all zones have zero population, employment, and households: trip generation will produce zero demand; affected zone IDs: "@
            + id_list_text(zone_ids@),
        InvalidInputReason::DisconnectedComponents { components } => nat_digits(
            components@.len(),
        )
            + " disconnected zone components detected: Furness requires every zone to exchange trips with every other zone; each component must be modeled separately; components: ["@
            + joined_lists(list_views(components@)) + "]"@,
    }
}

impl InvalidInputReason {
    /// The message of the reason.
    pub fn to_string(&self) -> (s: String)
        ensures
            s@ == reason_text(*self),
    {
        match self {
            InvalidInputReason::NoZones => "no zones provided: at least one zone is required".to_string(),
            InvalidInputReason::NoCentroids { zone_count, missing_ids } => {
                let mut s = "no zone centroids found in network: ".to_string();
                push_usize(&mut s, *zone_count);
                s.append(
                    " zones provided but none have a corresponding centroid node (zone_id on a network node); missing zone IDs: ",
                );
                push_id_list(&mut s, missing_ids.as_slice());
                s
            },
            InvalidInputReason::ZeroAttributes { zone_ids } => {
                let mut s =
                    "all zones have zero population, employment, and households: trip generation will produce zero demand; affected zone IDs: ".to_string();
                push_id_list(&mut s, zone_ids.as_slice());
                s
            },
            InvalidInputReason::DisconnectedComponents { components } => {
                let mut s = String::new();
                push_usize(&mut s, components.len());
                s.append(
                    " disconnected zone components detected: Furness requires every zone to exchange trips with every other zone; each component must be modeled separately; components: [",
                );
                push_joined_lists(&mut s, components.as_slice());
                s.append("]");
                s
            },
        }
    }
}

/// Pipeline orchestration errors.
#[derive(Debug, Clone)]
pub enum PipelineError {
    /// Missing result from a pipeline step.
    MissingResult(String),
    /// Invalid pipeline configuration.
    InvalidConfig(String),
    /// Invalid input data (zones, network, coefficients).
    InvalidInput(InvalidInputReason),
}

/// The message of a pipeline error.
pub open spec fn pipeline_error_text(e: PipelineError) -> Seq<char> {
    match e {
        PipelineError::MissingResult(msg) => "missing result: "@ + msg@,
        PipelineError::InvalidConfig(msg) => "invalid config: "@ + msg@,
        PipelineError::InvalidInput(reason) => "invalid input: "@ + reason_text(reason),
    }
}

impl PipelineError {
    /// The message of the error, e.g. `"missing result: no AUTO OD matrix"`.
    pub fn to_string(&self) -> (s: String)
        ensures
            s@ == pipeline_error_text(*self),
    {
        match self {
            PipelineError::MissingResult(msg) => {
                let mut s = "missing result: ".to_string();
                s.append(msg.as_str());
                s
            },
            PipelineError::InvalidConfig(msg) => {
                let mut s = "invalid config: ".to_string();
                s.append(msg.as_str());
                s
            },
            PipelineError::InvalidInput(reason) => {
                let r = reason.to_string();
                let mut s = "invalid input: ".to_string();
                s.append(r.as_str());
                s
            },
        }
    }
}

} // verus!
