//! Error types for the GMNS graph structure.
use vstd::prelude::*;
use vstd::string::StringExecFns;

use crate::text::{int_decimal, push_i64};

verus! {

/// Graph-related errors (nodes, links, zones).
#[derive(Debug, Clone)]
pub enum GraphError {
    /// Node not found by ID.
    NodeNotFound { node_id: i64 },
    /// Link not found by ID.
    LinkNotFound { link_id: i64 },
    /// Zone not found by ID.
    ZoneNotFound { zone_id: i64 },
    /// Duplicate entity ID.
    DuplicateId { entity: String, id: i64 },
    /// Invalid network topology.
    InvalidTopology(String),
}

/// The message of a graph error.
pub open spec fn graph_error_text(e: GraphError) -> Seq<char> {
    match e {
        GraphError::NodeNotFound { node_id } => "node not found: "@ + int_decimal(node_id as int),
        GraphError::LinkNotFound { link_id } => "link not found: "@ + int_decimal(link_id as int),
        GraphError::ZoneNotFound { zone_id } => "zone not found: "@ + int_decimal(zone_id as int),
        GraphError::DuplicateId { entity, id } => "duplicate "@ + entity@ + " id: "@ + int_decimal(
            id as int,
        ),
        GraphError::InvalidTopology(msg) => "invalid topology: "@ + msg@,
    }
}

impl GraphError {
    /// The message of the error, e.g. `"node not found: 42"`.
    pub fn to_string(&self) -> (s: String)
        ensures
            s@ == graph_error_text(*self),
    {
        match self {
            GraphError::NodeNotFound { node_id } => {
                let mut s = "node not found: ".to_string();
                push_i64(&mut s, *node_id);
                s
            },
            GraphError::LinkNotFound { link_id } => {
                let mut s = "link not found: ".to_string();
                push_i64(&mut s, *link_id);
                s
            },
            GraphError::ZoneNotFound { zone_id } => {
                let mut s = "zone not found: ".to_string();
                push_i64(&mut s, *zone_id);
                s
            },
            GraphError::DuplicateId { entity, id } => {
                let mut s = "duplicate ".to_string();
                s.append(entity.as_str());
                s.append(" id: ");
                push_i64(&mut s, *id);
                s
            },
            GraphError::InvalidTopology(msg) => {
                let mut s = "invalid topology: ".to_string();
                s.append(msg.as_str());
                s
            },
        }
    }
}

} // verus!
