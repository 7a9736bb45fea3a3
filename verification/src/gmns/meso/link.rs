//! A directed link of the mesoscopic network: a road segment or a
//! connection link (turn maneuver at an intersection).
use vstd::prelude::*;

use crate::gmns::types::{AgentType, LinkID, LinkType, MovementID, NodeID};

verus! {

/// A directed link in the mesoscopic network.
///
/// A road segment (`is_connection = false`) is a piece of road between
/// two nodes; a connection link (`is_connection = true`) is an allowed
/// turn at an intersection. A forbidden turn has no connection link, so
/// turn restrictions live in the topology.
#[derive(Debug, Clone)]
pub struct Link {
    /// Unique link identifier.
    pub id: LinkID,
    /// Source node ID.
    pub source_node_id: NodeID,
    /// Target node ID.
    pub target_node_id: NodeID,
    /// Whether this is a connection (turn) link at an intersection.
    pub is_connection: bool,
    /// Parent macro link; -1 if not applicable.
    pub macro_link_id: LinkID,
    /// Movement that generated this connection link; -1 for a road segment.
    pub movement_id: MovementID,
    /// Number of lanes.
    pub lanes_num: i32,
    /// Road type classification.
    pub link_type: LinkType,
    /// Agent types allowed on this link.
    pub allowed_agent_types: Vec<AgentType>,
}

/// The mathematical value of a link: its fields, with the agent list as a sequence.
pub struct LinkView {
    pub id: LinkID,
    pub source_node_id: NodeID,
    pub target_node_id: NodeID,
    pub is_connection: bool,
    pub macro_link_id: LinkID,
    pub movement_id: MovementID,
    pub lanes_num: i32,
    pub link_type: LinkType,
    pub allowed_agent_types: Seq<AgentType>,
}

impl View for Link {
    type V = LinkView;

    open spec fn view(&self) -> LinkView {
        LinkView {
            id: self.id,
            source_node_id: self.source_node_id,
            target_node_id: self.target_node_id,
            is_connection: self.is_connection,
            macro_link_id: self.macro_link_id,
            movement_id: self.movement_id,
            lanes_num: self.lanes_num,
            link_type: self.link_type,
            allowed_agent_types: self.allowed_agent_types@,
        }
    }
}

/// The link that `Link::new(id, source, target)` starts from: a road
/// segment with one lane, no parent references, undefined type and no
/// allowed agent types.
pub open spec fn default_link(id: LinkID, source: NodeID, target: NodeID) -> LinkView {
    LinkView {
        id,
        source_node_id: source,
        target_node_id: target,
        is_connection: false,
        macro_link_id: -1i64,
        movement_id: -1i64,
        lanes_num: 1,
        link_type: LinkType::Undefined,
        allowed_agent_types: Seq::empty(),
    }
}

impl Link {
    /// Create a builder for a link with the given ID, source and target.
    pub fn new(id: LinkID, source_node_id: NodeID, target_node_id: NodeID) -> (b: LinkBuilder)
        ensures
            b@ == default_link(id, source_node_id, target_node_id),
    {
        LinkBuilder {
            instance: Link {
                id,
                source_node_id,
                target_node_id,
                is_connection: false,
                macro_link_id: -1i64,
                movement_id: -1i64,
                lanes_num: 1,
                link_type: LinkType::Undefined,
                allowed_agent_types: Vec::new(),
            },
        }
    }
}

/// Builder for `Link`.
pub struct LinkBuilder {
    instance: Link,
}

impl View for LinkBuilder {
    type V = LinkView;

    closed spec fn view(&self) -> LinkView {
        self.instance@
    }
}

impl LinkBuilder {
    /// Mark the link as a connection (turn movement) link.
    pub fn with_is_connection(self, is_connection: bool) -> (b: Self)
        ensures
            b@ == (LinkView { is_connection, ..self@ }),
    {
        let mut s = self;
        s.instance.is_connection = is_connection;
        s
    }

    /// Set the parent macro link.
    pub fn with_macro_link_id(self, macro_link_id: LinkID) -> (b: Self)
        ensures
            b@ == (LinkView { macro_link_id, ..self@ }),
    {
        let mut s = self;
        s.instance.macro_link_id = macro_link_id;
        s
    }

    /// Set the movement (turn) ID.
    pub fn with_movement_id(self, movement_id: MovementID) -> (b: Self)
        ensures
            b@ == (LinkView { movement_id, ..self@ }),
    {
        let mut s = self;
        s.instance.movement_id = movement_id;
        s
    }

    /// Set the number of lanes.
    pub fn with_lanes_num(self, lanes: i32) -> (b: Self)
        ensures
            b@ == (LinkView { lanes_num: lanes, ..self@ }),
    {
        let mut s = self;
        s.instance.lanes_num = lanes;
        s
    }

    /// Set the road type.
    pub fn with_link_type(self, link_type: LinkType) -> (b: Self)
        ensures
            b@ == (LinkView { link_type, ..self@ }),
    {
        let mut s = self;
        s.instance.link_type = link_type;
        s
    }

    /// Set the agent types allowed on the link.
    pub fn with_allowed_agent_types(self, agents: Vec<AgentType>) -> (b: Self)
        ensures
            b@ == (LinkView { allowed_agent_types: agents@, ..self@ }),
    {
        let mut s = self;
        s.instance.allowed_agent_types = agents;
        s
    }

    /// Construct the final `Link`.
    pub fn build(self) -> (l: Link)
        ensures
            l@ == self@,
    {
        self.instance
    }
}

} // verus!
