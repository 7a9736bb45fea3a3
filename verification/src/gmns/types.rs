//! Identifier aliases and classification enums of the mesoscopic network.
use vstd::prelude::*;

verus! {

/// Unique identifier for a node.
pub type NodeID = i64;

/// Unique identifier for a link.
pub type LinkID = i64;

/// Unique identifier for a movement (turn maneuver).
pub type MovementID = i64;

/// Unique identifier for a zone.
pub type ZoneID = i64;

/// Agent type classification (mode of travel).
#[derive(Debug, Clone, Copy, PartialEq, Eq, Structural, Hash)]
pub enum AgentType {
    Undefined,
    Auto,
    Bike,
    Walk,
}

/// Lower-case name of a `AgentType` value.
pub open spec fn agent_type_name(x: AgentType) -> Seq<char> {
    match x {
        AgentType::Undefined => "undefined"@,
        AgentType::Auto => "auto"@,
        AgentType::Bike => "bike"@,
        AgentType::Walk => "walk"@,
    }
}

impl AgentType {
    /// The lower-case name of the value, e.g. `"auto"`.
    pub fn to_string(&self) -> (s: String)
        ensures
            s@ == agent_type_name(*self),
    {
        let name: &str = match self {
            AgentType::Undefined => "undefined",
            AgentType::Auto => "auto",
            AgentType::Bike => "bike",
            AgentType::Walk => "walk",
        };
        name.to_string()
    }
}

/// Road type classification derived from OSM highway tags.
#[derive(Debug, Clone, Copy, PartialEq, Eq, Structural)]
pub enum LinkType {
    Undefined,
    Motorway,
    Trunk,
    Primary,
    Secondary,
    Tertiary,
    Residential,
    LivingStreet,
    Service,
    Cycleway,
    Footway,
    Track,
    Unclassified,
    Connector,
    Railway,
    Aeroway,
}

/// Different agent types have different names.
pub proof fn law_agent_type_names_distinct(a: AgentType, b: AgentType)
    ensures
        agent_type_name(a) == agent_type_name(b) <==> a == b,
{
    reveal_strlit("undefined");
    reveal_strlit("auto");
    reveal_strlit("bike");
    reveal_strlit("walk");
    if agent_type_name(a) == agent_type_name(b) {
        assert(agent_type_name(a).len() == agent_type_name(b).len());
        assert(agent_type_name(a)[0] == agent_type_name(b)[0]);
    }
}

/// Lower-case name of a `LinkType` value.
pub open spec fn link_type_name(x: LinkType) -> Seq<char> {
    match x {
        LinkType::Undefined => "undefined"@,
        LinkType::Motorway => "motorway"@,
        LinkType::Trunk => "trunk"@,
        LinkType::Primary => "primary"@,
        LinkType::Secondary => "secondary"@,
        LinkType::Tertiary => "tertiary"@,
        LinkType::Residential => "residential"@,
        LinkType::LivingStreet => "living_street"@,
        LinkType::Service => "service"@,
        LinkType::Cycleway => "cycleway"@,
        LinkType::Footway => "footway"@,
        LinkType::Track => "track"@,
        LinkType::Unclassified => "unclassified"@,
        LinkType::Connector => "connector"@,
        LinkType::Railway => "railway"@,
        LinkType::Aeroway => "aeroway"@,
    }
}

impl LinkType {
    /// The lower-case name of the value, e.g. `"motorway"`.
    pub fn to_string(&self) -> (s: String)
        ensures
            s@ == link_type_name(*self),
    {
        let name: &str = match self {
            LinkType::Undefined => "undefined",
            LinkType::Motorway => "motorway",
            LinkType::Trunk => "trunk",
            LinkType::Primary => "primary",
            LinkType::Secondary => "secondary",
            LinkType::Tertiary => "tertiary",
            LinkType::Residential => "residential",
            LinkType::LivingStreet => "living_street",
            LinkType::Service => "service",
            LinkType::Cycleway => "cycleway",
            LinkType::Footway => "footway",
            LinkType::Track => "track",
            LinkType::Unclassified => "unclassified",
            LinkType::Connector => "connector",
            LinkType::Railway => "railway",
            LinkType::Aeroway => "aeroway",
        };
        name.to_string()
    }
}

/// Different link types have different names, so a name tells its link
/// type apart from every other.
pub proof fn law_link_type_names_distinct(a: LinkType, b: LinkType)
    ensures
        link_type_name(a) == link_type_name(b) <==> a == b,
{
    reveal_strlit("undefined");
    reveal_strlit("motorway");
    reveal_strlit("trunk");
    reveal_strlit("primary");
    reveal_strlit("secondary");
    reveal_strlit("tertiary");
    reveal_strlit("residential");
    reveal_strlit("living_street");
    reveal_strlit("service");
    reveal_strlit("cycleway");
    reveal_strlit("footway");
    reveal_strlit("track");
    reveal_strlit("unclassified");
    reveal_strlit("connector");
    reveal_strlit("railway");
    reveal_strlit("aeroway");
    if link_type_name(a) == link_type_name(b) {
        assert(link_type_name(a).len() == link_type_name(b).len());
        assert(link_type_name(a)[0] == link_type_name(b)[0]);
        assert(link_type_name(a)[2] == link_type_name(b)[2]);
    }
}

/// Traffic control type at a node or downstream end of a link.
#[derive(Debug, Clone, Copy, PartialEq, Eq, Structural)]
pub enum ControlType {
    NotSignal,
    IsSignal,
}

/// Lower-case name of a `ControlType` value.
pub open spec fn control_type_name(x: ControlType) -> Seq<char> {
    match x {
        ControlType::NotSignal => "not_signal"@,
        ControlType::IsSignal => "is_signal"@,
    }
}

impl ControlType {
    /// The lower-case name of the value, e.g. `"is_signal"`.
    pub fn to_string(&self) -> (s: String)
        ensures
            s@ == control_type_name(*self),
    {
        let name: &str = match self {
            ControlType::NotSignal => "not_signal",
            ControlType::IsSignal => "is_signal",
        };
        name.to_string()
    }
}

/// The two control types have different names.
pub proof fn law_control_type_names_distinct(a: ControlType, b: ControlType)
    ensures
        control_type_name(a) == control_type_name(b) <==> a == b,
{
    reveal_strlit("not_signal");
    reveal_strlit("is_signal");
    if control_type_name(a) == control_type_name(b) {
        assert(control_type_name(a).len() == control_type_name(b).len());
        assert(control_type_name(a)[0] == control_type_name(b)[0]);
    }
}

/// Boundary classification for nodes at network edges.
#[derive(Debug, Clone, Copy, PartialEq, Eq, Structural)]
pub enum BoundaryType {
    NoBoundary,
    IncomeOnly,
    OutcomeOnly,
    IncomeOutcome,
}

/// Lower-case name of a `BoundaryType` value.
pub open spec fn boundary_type_name(x: BoundaryType) -> Seq<char> {
    match x {
        BoundaryType::NoBoundary => "none"@,
        BoundaryType::IncomeOnly => "income_only"@,
        BoundaryType::OutcomeOnly => "outcome_only"@,
        BoundaryType::IncomeOutcome => "income_outcome"@,
    }
}

impl BoundaryType {
    /// The lower-case name of the value, e.g. `"income_only"`.
    pub fn to_string(&self) -> (s: String)
        ensures
            s@ == boundary_type_name(*self),
    {
        let name: &str = match self {
            BoundaryType::NoBoundary => "none",
            BoundaryType::IncomeOnly => "income_only",
            BoundaryType::OutcomeOnly => "outcome_only",
            BoundaryType::IncomeOutcome => "income_outcome",
        };
        name.to_string()
    }
}

/// Different boundary types have different names.
pub proof fn law_boundary_type_names_distinct(a: BoundaryType, b: BoundaryType)
    ensures
        boundary_type_name(a) == boundary_type_name(b) <==> a == b,
{
    reveal_strlit("none");
    reveal_strlit("income_only");
    reveal_strlit("outcome_only");
    reveal_strlit("income_outcome");
    if boundary_type_name(a) == boundary_type_name(b) {
        assert(boundary_type_name(a).len() == boundary_type_name(b).len());
        assert(boundary_type_name(a)[0] == boundary_type_name(b)[0]);
    }
}

} // verus!
