use macro_traffic_sim_core::gmns::error::GraphError;
use macro_traffic_sim_core::gmns::meso::link::Link;
use macro_traffic_sim_core::gmns::meso::network::Network;
use macro_traffic_sim_core::gmns::meso::node::Node;

fn node(id: i64, zone: i64) -> Node {
    Node::new(id).with_zone_id(zone).build()
}

#[test]
fn add_node_then_get_returns_it() {
    let mut net = Network::new();
    net.add_node(node(1, 10)).unwrap();
    let n = net.get_node(1).unwrap();
    assert_eq!(n.id, 1);
    assert_eq!(n.zone_id, 10);
    assert_eq!(net.node_count(), 1);
    assert_eq!(net.get_zone_centroid(10).unwrap(), 1);
}

#[test]
fn node_without_zone_is_no_centroid() {
    let mut net = Network::new();
    net.add_node(Node::new(5).build()).unwrap();
    assert!(net.zone_ids().is_empty());
    assert!(net.get_zone_centroid(-1).is_err());
}

#[test]
fn duplicate_node_is_refused_and_network_unchanged() {
    let mut net = Network::new();
    net.add_node(node(1, 10)).unwrap();
    let err = net.add_node(node(1, 20)).unwrap_err();
    assert_eq!(err.to_string(), "graph error: duplicate node id: 1");
    assert_eq!(net.node_count(), 1);
    assert_eq!(net.get_node(1).unwrap().zone_id, 10);
    assert!(net.get_zone_centroid(20).is_err());
}

#[test]
fn duplicate_link_is_refused() {
    let mut net = Network::new();
    net.add_node(node(1, 1)).unwrap();
    net.add_node(node(2, 2)).unwrap();
    net.add_link(Link::new(7, 1, 2).build()).unwrap();
    let err = net.add_link(Link::new(7, 2, 1).build()).unwrap_err();
    assert_eq!(err.to_string(), "graph error: duplicate link id: 7");
    assert_eq!(net.link_count(), 1);
    assert_eq!(net.link_target(7).unwrap(), 2);
    assert_eq!(net.outgoing_links(2).unwrap().len(), 0);
}

#[test]
fn add_link_updates_adjacency() {
    let mut net = Network::new();
    net.add_node(node(1, 1)).unwrap();
    net.add_node(node(2, 2)).unwrap();
    net.add_link(Link::new(100, 1, 2).build()).unwrap();
    net.add_link(Link::new(101, 2, 1).build()).unwrap();
    assert_eq!(net.outgoing_links(1).unwrap(), &[100]);
    assert_eq!(net.incoming_links(1).unwrap(), &[101]);
    assert_eq!(net.outgoing_links(2).unwrap(), &[101]);
    assert_eq!(net.incoming_links(2).unwrap(), &[100]);
    assert_eq!(net.link_source(100).unwrap(), 1);
    assert_eq!(net.link_target(100).unwrap(), 2);
    assert_eq!(net.link_count(), 2);
    assert!(net.endpoints_present());
}

#[test]
fn link_to_missing_node_is_stored_but_not_attached() {
    let mut net = Network::new();
    net.add_node(node(1, 1)).unwrap();
    net.add_link(Link::new(100, 1, 99).build()).unwrap();
    assert_eq!(net.outgoing_links(1).unwrap(), &[100]);
    assert_eq!(net.link_target(100).unwrap(), 99);
    assert!(!net.endpoints_present());
}

#[test]
fn missing_lookups_report_errors() {
    let net = Network::new();
    assert_eq!(net.get_node(42).unwrap_err().to_string(), "graph error: node not found: 42");
    assert_eq!(net.get_link(7).unwrap_err().to_string(), "graph error: link not found: 7");
    assert_eq!(net.get_zone_centroid(10).unwrap_err().to_string(), "graph error: zone not found: 10");
    assert_eq!(net.outgoing_links(3).unwrap_err().to_string(), "graph error: node not found: 3");
    assert!(matches!(
        net.link_source(8).unwrap_err(),
        macro_traffic_sim_core::error::SimError::Graph(GraphError::LinkNotFound { link_id: 8 })
    ));
}

#[test]
fn zone_ids_are_sorted_and_unique() {
    let mut net = Network::new();
    net.add_node(node(1, 5)).unwrap();
    net.add_node(node(2, 3)).unwrap();
    net.add_node(node(3, 9)).unwrap();
    net.add_node(node(4, 3)).unwrap();
    assert_eq!(net.zone_ids(), vec![3, 5, 9]);
    assert_eq!(net.get_zone_centroid(3).unwrap(), 4);
}
