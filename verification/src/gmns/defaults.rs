//! Default lanes, free-flow speed and capacity for each link type.
use vstd::prelude::*;

use super::types::LinkType;

verus! {

/// Default parameters for a given link type.
#[derive(Debug, Clone, Copy, PartialEq, Eq, Structural)]
pub struct LinkDefaults {
    /// Number of lanes.
    pub lanes: i32,
    /// Free-flow speed in km/h (every default is a whole number).
    pub free_speed: u32,
    /// Capacity in vehicles per hour per lane.
    pub capacity: i32,
    /// Whether the link is one-way by default.
    pub one_way: bool,
}

/// The defaults of each link type.
pub open spec fn link_defaults_of(link_type: LinkType) -> LinkDefaults {
    match link_type {
        LinkType::Motorway => LinkDefaults { lanes: 4, free_speed: 120, capacity: 2300, one_way: false },
        LinkType::Trunk => LinkDefaults { lanes: 3, free_speed: 100, capacity: 2200, one_way: false },
        LinkType::Primary => LinkDefaults { lanes: 3, free_speed: 80, capacity: 1800, one_way: false },
        LinkType::Secondary => LinkDefaults { lanes: 2, free_speed: 60, capacity: 1600, one_way: false },
        LinkType::Tertiary => LinkDefaults { lanes: 2, free_speed: 40, capacity: 1200, one_way: false },
        LinkType::Residential => LinkDefaults { lanes: 1, free_speed: 30, capacity: 1000, one_way: false },
        LinkType::LivingStreet => LinkDefaults { lanes: 1, free_speed: 15, capacity: 800, one_way: false },
        LinkType::Service => LinkDefaults { lanes: 1, free_speed: 30, capacity: 800, one_way: false },
        LinkType::Cycleway => LinkDefaults { lanes: 1, free_speed: 5, capacity: 800, one_way: true },
        LinkType::Footway => LinkDefaults { lanes: 1, free_speed: 5, capacity: 800, one_way: true },
        LinkType::Track => LinkDefaults { lanes: 1, free_speed: 30, capacity: 800, one_way: true },
        LinkType::Unclassified => LinkDefaults { lanes: 1, free_speed: 30, capacity: 800, one_way: false },
        LinkType::Connector => LinkDefaults { lanes: 2, free_speed: 120, capacity: 9999, one_way: false },
        LinkType::Railway => LinkDefaults { lanes: 1, free_speed: 50, capacity: 1000, one_way: true },
        LinkType::Aeroway => LinkDefaults { lanes: 1, free_speed: 50, capacity: 1000, one_way: true },
        LinkType::Undefined => LinkDefaults { lanes: 1, free_speed: 30, capacity: 800, one_way: false },
    }
}

/// Default parameters for a given link type.
pub fn get_link_defaults(link_type: LinkType) -> (d: LinkDefaults)
    ensures
        d == link_defaults_of(link_type),
{
    match link_type {
        LinkType::Motorway => LinkDefaults { lanes: 4, free_speed: 120, capacity: 2300, one_way: false },
        LinkType::Trunk => LinkDefaults { lanes: 3, free_speed: 100, capacity: 2200, one_way: false },
        LinkType::Primary => LinkDefaults { lanes: 3, free_speed: 80, capacity: 1800, one_way: false },
        LinkType::Secondary => LinkDefaults { lanes: 2, free_speed: 60, capacity: 1600, one_way: false },
        LinkType::Tertiary => LinkDefaults { lanes: 2, free_speed: 40, capacity: 1200, one_way: false },
        LinkType::Residential => LinkDefaults { lanes: 1, free_speed: 30, capacity: 1000, one_way: false },
        LinkType::LivingStreet => LinkDefaults { lanes: 1, free_speed: 15, capacity: 800, one_way: false },
        LinkType::Service => LinkDefaults { lanes: 1, free_speed: 30, capacity: 800, one_way: false },
        LinkType::Cycleway => LinkDefaults { lanes: 1, free_speed: 5, capacity: 800, one_way: true },
        LinkType::Footway => LinkDefaults { lanes: 1, free_speed: 5, capacity: 800, one_way: true },
        LinkType::Track => LinkDefaults { lanes: 1, free_speed: 30, capacity: 800, one_way: true },
        LinkType::Unclassified => LinkDefaults { lanes: 1, free_speed: 30, capacity: 800, one_way: false },
        LinkType::Connector => LinkDefaults { lanes: 2, free_speed: 120, capacity: 9999, one_way: false },
        LinkType::Railway => LinkDefaults { lanes: 1, free_speed: 50, capacity: 1000, one_way: true },
        LinkType::Aeroway => LinkDefaults { lanes: 1, free_speed: 50, capacity: 1000, one_way: true },
        LinkType::Undefined => LinkDefaults { lanes: 1, free_speed: 30, capacity: 800, one_way: false },
    }
}

/// The defaults read column by column. Only cycleways, footways, tracks,
/// railways and aeroways are one-way. Motorways have 4 lanes, trunk and
/// primary roads 3, secondary and tertiary roads and connectors 2, every
/// other type 1. Free speed falls from 120 km/h on motorways through 100,
/// 80, 60 and 40 to 30 on residential streets; connectors run at 120,
/// railways and aeroways at 50, living streets at 15, cycleways and
/// footways at 5, the rest at 30. Capacity per lane is 2300 on motorways,
/// 2200, 1800, 1600 and 1200 down to tertiary roads, 1000 on residential
/// streets, railways and aeroways, 9999 on connectors and 800 elsewhere.
pub proof fn law_link_defaults_columns(t: LinkType)
    ensures
        link_defaults_of(t).one_way <==> (t == LinkType::Cycleway || t == LinkType::Footway
            || t == LinkType::Track || t == LinkType::Railway || t == LinkType::Aeroway),
        link_defaults_of(t).lanes == if t == LinkType::Motorway {
            4i32
        } else if t == LinkType::Trunk || t == LinkType::Primary {
            3i32
        } else if t == LinkType::Secondary || t == LinkType::Tertiary || t == LinkType::Connector {
            2i32
        } else {
            1i32
        },
        link_defaults_of(t).free_speed == if t == LinkType::Motorway || t == LinkType::Connector {
            120u32
        } else if t == LinkType::Trunk {
            100u32
        } else if t == LinkType::Primary {
            80u32
        } else if t == LinkType::Secondary {
            60u32
        } else if t == LinkType::Tertiary {
            40u32
        } else if t == LinkType::Railway || t == LinkType::Aeroway {
            50u32
        } else if t == LinkType::LivingStreet {
            15u32
        } else if t == LinkType::Cycleway || t == LinkType::Footway {
            5u32
        } else {
            30u32
        },
        link_defaults_of(t).capacity == if t == LinkType::Motorway {
            2300i32
        } else if t == LinkType::Trunk {
            2200i32
        } else if t == LinkType::Primary {
            1800i32
        } else if t == LinkType::Secondary {
            1600i32
        } else if t == LinkType::Tertiary {
            1200i32
        } else if t == LinkType::Residential || t == LinkType::Railway || t == LinkType::Aeroway {
            1000i32
        } else if t == LinkType::Connector {
            9999i32
        } else {
            800i32
        },
{
}

} // verus!
