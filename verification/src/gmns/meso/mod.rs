//! Mesoscopic network: nodes, links and the network container.
pub mod link;
pub mod network;
pub mod node;
