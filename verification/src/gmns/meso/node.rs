//! A node of the mesoscopic network: a point along a road segment or
//! a point at an intersection.
use vstd::prelude::*;

use crate::gmns::types::{BoundaryType, ControlType, LinkID, NodeID, ZoneID};

verus! {

/// A node in the mesoscopic network.
///
/// The `incoming_links` and `outcoming_links` lists are maintained by
/// `Network::add_link`.
#[derive(Debug, Clone)]
pub struct Node {
    /// Unique node identifier.
    pub id: NodeID,
    /// Parent macro node (intersection); -1 for a mid-link segment node.
    pub macro_node_id: NodeID,
    /// Parent macro link (road segment); -1 for an intersection node.
    pub macro_link_id: LinkID,
    /// Associated zone ID; -1 if the node is not a zone centroid.
    pub zone_id: ZoneID,
    /// Traffic control type.
    pub control_type: ControlType,
    /// Boundary classification.
    pub boundary_type: BoundaryType,
    /// IDs of incoming links.
    pub incoming_links: Vec<LinkID>,
    /// IDs of outgoing links.
    pub outcoming_links: Vec<LinkID>,
}

/// The mathematical value of a node: its fields, with the link lists as sequences.
pub struct NodeView {
    pub id: NodeID,
    pub macro_node_id: NodeID,
    pub macro_link_id: LinkID,
    pub zone_id: ZoneID,
    pub control_type: ControlType,
    pub boundary_type: BoundaryType,
    pub incoming_links: Seq<LinkID>,
    pub outcoming_links: Seq<LinkID>,
}

impl View for Node {
    type V = NodeView;

    open spec fn view(&self) -> NodeView {
        NodeView {
            id: self.id,
            macro_node_id: self.macro_node_id,
            macro_link_id: self.macro_link_id,
            zone_id: self.zone_id,
            control_type: self.control_type,
            boundary_type: self.boundary_type,
            incoming_links: self.incoming_links@,
            outcoming_links: self.outcoming_links@,
        }
    }
}

/// The node that `Node::new(id)` starts from: no parent references,
/// no zone, no signal, no boundary and no links.
pub open spec fn default_node(id: NodeID) -> NodeView {
    NodeView {
        id,
        macro_node_id: -1i64,
        macro_link_id: -1i64,
        zone_id: -1i64,
        control_type: ControlType::NotSignal,
        boundary_type: BoundaryType::NoBoundary,
        incoming_links: Seq::empty(),
        outcoming_links: Seq::empty(),
    }
}

impl Node {
    /// Create a builder for a node with the given ID and default fields.
    pub fn new(id: NodeID) -> (b: NodeBuilder)
        ensures
            b@ == default_node(id),
    {
        NodeBuilder {
            instance: Node {
                id,
                macro_node_id: -1,
                macro_link_id: -1,
                zone_id: -1,
                control_type: ControlType::NotSignal,
                boundary_type: BoundaryType::NoBoundary,
                incoming_links: Vec::new(),
                outcoming_links: Vec::new(),
            },
        }
    }
}

/// Builder for `Node`.
pub struct NodeBuilder {
    instance: Node,
}

impl View for NodeBuilder {
    type V = NodeView;

    closed spec fn view(&self) -> NodeView {
        self.instance@
    }
}

impl NodeBuilder {
    /// Set the parent macro node.
    pub fn with_macro_node_id(self, macro_node_id: NodeID) -> (b: Self)
        ensures
            b@ == (NodeView { macro_node_id, ..self@ }),
    {
        let mut s = self;
        s.instance.macro_node_id = macro_node_id;
        s
    }

    /// Set the parent macro link.
    pub fn with_macro_link_id(self, macro_link_id: LinkID) -> (b: Self)
        ensures
            b@ == (NodeView { macro_link_id, ..self@ }),
    {
        let mut s = self;
        s.instance.macro_link_id = macro_link_id;
        s
    }

    /// Set the zone this node is the centroid of.
    pub fn with_zone_id(self, zone_id: ZoneID) -> (b: Self)
        ensures
            b@ == (NodeView { zone_id, ..self@ }),
    {
        let mut s = self;
        s.instance.zone_id = zone_id;
        s
    }

    /// Set the traffic control type.
    pub fn with_control_type(self, control_type: ControlType) -> (b: Self)
        ensures
            b@ == (NodeView { control_type, ..self@ }),
    {
        let mut s = self;
        s.instance.control_type = control_type;
        s
    }

    /// Set the boundary classification.
    pub fn with_boundary_type(self, boundary_type: BoundaryType) -> (b: Self)
        ensures
            b@ == (NodeView { boundary_type, ..self@ }),
    {
        let mut s = self;
        s.instance.boundary_type = boundary_type;
        s
    }

    /// Construct the final `Node`.
    pub fn build(self) -> (n: Node)
        ensures
            n@ == self@,
    {
        self.instance
    }
}

} // verus!
