use macro_traffic_sim_core::gmns::meso::link::Link;
use macro_traffic_sim_core::gmns::meso::network::Network;
use macro_traffic_sim_core::gmns::meso::node::Node;
use macro_traffic_sim_core::pipeline::connectivity::zone_scc;
use macro_traffic_sim_core::pipeline::error::{InvalidInputReason, PipelineError};
use macro_traffic_sim_core::pipeline::preflight::{check_zone_centroids, check_zone_connectivity};

fn network(zones: &[(i64, i64)], links: &[(i64, i64, i64)]) -> Network {
    let mut net = Network::new();
    for &(id, zone) in zones {
        net.add_node(Node::new(id).with_zone_id(zone).build()).unwrap();
    }
    for &(id, s, t) in links {
        net.add_link(Link::new(id, s, t).build()).unwrap();
    }
    net
}

#[test]
fn ring_is_one_component() {
    let net = network(&[(1, 1), (2, 2), (3, 3)], &[(10, 1, 2), (11, 2, 3), (12, 3, 1)]);
    assert_eq!(zone_scc(&net, &[3, 1, 2]), vec![vec![1, 2, 3]]);
    assert!(check_zone_connectivity(&net, &[1, 2, 3]).is_ok());
}

#[test]
fn two_islands_are_two_components() {
    let net = network(
        &[(1, 1), (2, 2), (3, 3), (4, 4)],
        &[(10, 1, 2), (11, 2, 1), (12, 3, 4), (13, 4, 3)],
    );
    assert_eq!(zone_scc(&net, &[4, 3, 2, 1]), vec![vec![1, 2], vec![3, 4]]);
    match check_zone_connectivity(&net, &[1, 2, 3, 4]) {
        Err(PipelineError::InvalidInput(InvalidInputReason::DisconnectedComponents { components })) => {
            assert_eq!(components, vec![vec![1, 2], vec![3, 4]]);
        }
        other => panic!("unexpected result: {:?}", other),
    }
}

#[test]
fn one_way_chain_splits_every_zone() {
    let net = network(&[(1, 1), (2, 2), (3, 3)], &[(10, 1, 2), (11, 2, 3)]);
    assert_eq!(zone_scc(&net, &[1, 2, 3]), vec![vec![1], vec![2], vec![3]]);
}

#[test]
fn zones_without_centroid_are_left_out() {
    let net = network(&[(1, 1), (2, 2)], &[(10, 1, 2), (11, 2, 1)]);
    assert_eq!(zone_scc(&net, &[1, 2, 9]), vec![vec![1, 2]]);
    assert_eq!(zone_scc(&net, &[9, 2]), vec![vec![2]]);
    assert_eq!(zone_scc(&net, &[8, 9]), vec![Vec::<i64>::new()]);
}

#[test]
fn centroid_check_outcomes() {
    let net = network(&[(1, 1)], &[]);
    assert!(matches!(
        check_zone_centroids(&net, &[]),
        Err(PipelineError::InvalidInput(InvalidInputReason::NoZones))
    ));
    match check_zone_centroids(&net, &[5, 6]) {
        Err(e @ PipelineError::InvalidInput(InvalidInputReason::NoCentroids { .. })) => {
            let msg = e.to_string();
            assert!(msg.contains("2 zones provided"));
            assert!(msg.ends_with("missing zone IDs: [5, 6]"));
        }
        other => panic!("unexpected result: {:?}", other),
    }
    assert!(check_zone_centroids(&net, &[5, 1]).is_ok());
}

#[test]
fn connectivity_error_message_lists_components() {
    let net = network(&[(1, 1), (2, 2), (3, 3)], &[(10, 1, 2), (11, 2, 1)]);
    let err = check_zone_connectivity(&net, &[1, 2, 3]).unwrap_err();
    let msg = err.to_string();
    assert!(msg.starts_with("invalid input: 2 disconnected zone components detected"));
    assert!(msg.ends_with("components: [[1, 2], [3]]"));
}

#[test]
fn later_node_of_a_zone_is_its_centroid() {
    let net = network(&[(10, 1), (11, 1), (20, 3)], &[(5, 11, 20), (6, 20, 11)]);
    assert_eq!(net.get_zone_centroid(1).unwrap(), 11);
    assert_eq!(zone_scc(&net, &[1, 3]), vec![vec![1, 3]]);
}

#[test]
fn components_partition_the_centroid_zones() {
    let net = network(
        &[(1, 5), (2, 3), (3, 8), (4, 1), (5, 9)],
        &[(10, 1, 2), (11, 2, 1), (12, 3, 4), (13, 4, 5), (14, 5, 3)],
    );
    let comps = zone_scc(&net, &[9, 8, 5, 3, 1, 77]);
    assert_eq!(comps, vec![vec![1, 8, 9], vec![3, 5]]);
    let mut all: Vec<i64> = comps.concat();
    all.sort();
    assert_eq!(all, vec![1, 3, 5, 8, 9]);
}

#[test]
fn zones_sharing_a_centroid_node_belong_together() {
    let mut net = network(&[(10, 1), (20, 3)], &[]);
    net.zone_centroids.insert(2, 10);
    assert_eq!(zone_scc(&net, &[1, 2]), vec![vec![1, 2]]);
    assert!(check_zone_connectivity(&net, &[2, 1]).is_ok());
    assert_eq!(zone_scc(&net, &[2, 3, 1]), vec![vec![1, 2], vec![3]]);
}
