use std::collections::HashMap;

use macro_traffic_sim_core::assignment::indexed_graph::IndexedGraph;
use macro_traffic_sim_core::assignment::shortest_path::{
    build_path, build_path_indexed, try_build_path, try_build_path_indexed, walk_ends_within,
    walk_ends_within_map,
};
use macro_traffic_sim_core::gmns::meso::link::Link;
use macro_traffic_sim_core::gmns::meso::network::Network;
use macro_traffic_sim_core::gmns::meso::node::Node;

fn two_link_network() -> Network {
    let mut net = Network::new();
    net.add_node(Node::new(1).with_zone_id(1).build()).unwrap();
    net.add_node(Node::new(2).with_zone_id(2).build()).unwrap();
    net.add_link(Link::new(100, 1, 2).build()).unwrap();
    net.add_link(Link::new(101, 2, 1).build()).unwrap();
    net
}

fn diamond_network() -> Network {
    let mut net = Network::new();
    for id in 1..=4 {
        net.add_node(Node::new(id).with_zone_id(id).build()).unwrap();
    }
    net.add_link(Link::new(100, 1, 2).build()).unwrap();
    net.add_link(Link::new(101, 1, 3).build()).unwrap();
    net.add_link(Link::new(102, 2, 4).build()).unwrap();
    net.add_link(Link::new(103, 3, 4).build()).unwrap();
    net
}

fn node_idx(graph: &IndexedGraph, zone: i64) -> usize {
    graph.zone_node_idx(zone).unwrap()
}

#[test]
fn indexed_graph_counts_and_roundtrips() {
    let net = two_link_network();
    let g = IndexedGraph::from_network(&net);
    assert_eq!(g.num_nodes, 2);
    assert_eq!(g.num_links, 2);
    assert_eq!(g.node_count(), 2);
    assert_eq!(g.link_count(), 2);
    for lid in [100, 101] {
        let i = g.link_idx(lid).unwrap();
        assert!(i < 2);
        assert_eq!(g.link_id(i), lid);
    }
    assert_eq!(g.link_idx(999), None);
    assert_ne!(g.link_idx(100), g.link_idx(101));
    assert_eq!(g.zone_ids(), &[1, 2]);
    assert_ne!(node_idx(&g, 1), node_idx(&g, 2));
    assert_eq!(g.zone_node_idx(3), None);
}

#[test]
fn indexed_graph_rows_hold_outgoing_links() {
    let net = diamond_network();
    let g = IndexedGraph::from_network(&net);
    let n1 = node_idx(&g, 1);
    let n2 = node_idx(&g, 2);
    let n3 = node_idx(&g, 3);
    let n4 = node_idx(&g, 4);
    let l100 = g.link_idx(100).unwrap();
    let l101 = g.link_idx(101).unwrap();
    let l102 = g.link_idx(102).unwrap();
    let mut row1: Vec<(usize, usize)> = g.out_edges(n1).to_vec();
    row1.sort();
    let mut expected = vec![(n2, l100), (n3, l101)];
    expected.sort();
    assert_eq!(row1, expected);
    assert_eq!(g.out_edges(n2), &[(n4, l102)]);
    assert!(g.out_edges(n4).is_empty());
    assert_eq!(g.link_source(l102), n2);
    assert_eq!(g.link_source(l100), n1);
}

#[test]
fn indexed_path_follows_predecessors() {
    let net = diamond_network();
    let g = IndexedGraph::from_network(&net);
    let mut pred: Vec<Option<usize>> = vec![None; g.num_nodes];
    pred[node_idx(&g, 2)] = g.link_idx(100);
    pred[node_idx(&g, 4)] = g.link_idx(102);
    let path = build_path_indexed(&pred, &g, node_idx(&g, 4));
    let ids: Vec<i64> = path.iter().map(|&li| g.link_id(li)).collect();
    assert_eq!(ids, vec![100, 102]);
    let empty = build_path_indexed(&pred, &g, node_idx(&g, 1));
    assert!(empty.is_empty());
}

#[test]
fn path_from_predecessor_map() {
    let net = diamond_network();
    let mut preds: HashMap<i64, Option<i64>> = HashMap::new();
    preds.insert(1, None);
    preds.insert(2, Some(100));
    preds.insert(3, Some(101));
    preds.insert(4, Some(102));
    assert_eq!(build_path(&preds, &net, 4), vec![100, 102]);
    assert_eq!(build_path(&preds, &net, 3), vec![101]);
    assert!(build_path(&preds, &net, 1).is_empty());
    assert!(build_path(&preds, &net, 77).is_empty());
}

#[test]
fn path_walk_stops_at_unknown_link() {
    let net = diamond_network();
    let mut preds: HashMap<i64, Option<i64>> = HashMap::new();
    preds.insert(4, Some(102));
    preds.insert(2, Some(555));
    assert_eq!(build_path(&preds, &net, 4), vec![555, 102]);
}

#[test]
fn link_values_convert_both_ways() {
    let net = diamond_network();
    let g = IndexedGraph::from_network(&net);
    let mut volumes: Vec<f64> = vec![0.0; g.num_links];
    for (k, lid) in [100i64, 101, 102, 103].iter().enumerate() {
        volumes[g.link_idx(*lid).unwrap()] = (k as f64) * 10.0 + 1.0;
    }
    let map = g.volumes_to_hashmap(&volumes);
    assert_eq!(map.len(), 4);
    assert_eq!(map[&100], 1.0);
    assert_eq!(map[&103], 31.0);
    let back = g.hashmap_to_vec(&map, 0.0);
    assert_eq!(back, volumes);
    let costs = g.costs_to_hashmap(&volumes);
    assert_eq!(costs, map);

    let mut partial: HashMap<i64, f64> = HashMap::new();
    partial.insert(102, 7.5);
    partial.insert(999, 3.0);
    let v = g.hashmap_to_vec(&partial, 0.0);
    assert_eq!(v.iter().filter(|&&x| x == 0.0).count(), 3);
    assert_eq!(v[g.link_idx(102).unwrap()], 7.5);
}

fn cycle_network() -> Network {
    let mut net = Network::new();
    net.add_node(Node::new(1).with_zone_id(1).build()).unwrap();
    net.add_node(Node::new(2).with_zone_id(2).build()).unwrap();
    net.add_link(Link::new(10, 2, 1).build()).unwrap();
    net.add_link(Link::new(11, 1, 2).build()).unwrap();
    net
}

#[test]
fn cyclic_predecessors_are_refused() {
    let net = cycle_network();
    let mut preds: HashMap<i64, Option<i64>> = HashMap::new();
    preds.insert(1, Some(10));
    preds.insert(2, Some(11));
    assert_eq!(try_build_path(&preds, &net, 1), None);
    preds.insert(2, None);
    assert_eq!(
        try_build_path(&preds, &net, 1),
        Some(vec![10])
    );

    let g = IndexedGraph::from_network(&net);
    let n1 = g.zone_node_idx(1).unwrap();
    let n2 = g.zone_node_idx(2).unwrap();
    let mut pred: Vec<Option<usize>> = vec![None; g.num_nodes];
    pred[n1] = g.link_idx(10);
    pred[n2] = g.link_idx(11);
    assert_eq!(try_build_path_indexed(&pred, &g, n1), None);
    pred[n2] = None;
    let path = try_build_path_indexed(&pred, &g, n1).unwrap();
    assert_eq!(path, vec![g.link_idx(10).unwrap()]);
}

#[test]
fn walk_length_bound() {
    let net = diamond_network();
    let g = IndexedGraph::from_network(&net);
    let mut pred: Vec<Option<usize>> = vec![None; g.num_nodes];
    pred[node_idx(&g, 2)] = g.link_idx(100);
    pred[node_idx(&g, 4)] = g.link_idx(102);
    assert!(!walk_ends_within(&pred, &g, node_idx(&g, 4), 1));
    assert!(walk_ends_within(&pred, &g, node_idx(&g, 4), 2));
    assert!(walk_ends_within(&pred, &g, node_idx(&g, 1), 0));

    let mut preds: HashMap<i64, Option<i64>> = HashMap::new();
    preds.insert(2, Some(100));
    preds.insert(4, Some(102));
    assert!(!walk_ends_within_map(&preds, &net, 4, 1));
    assert!(walk_ends_within_map(&preds, &net, 4, 2));
}

#[test]
fn reconstructed_path_is_connected_route() {
    let net = diamond_network();
    let mut preds: HashMap<i64, Option<i64>> = HashMap::new();
    preds.insert(1, None);
    preds.insert(3, Some(101));
    preds.insert(4, Some(103));
    let path = build_path(&preds, &net, 4);
    assert_eq!(path, vec![101, 103]);
    for w in path.windows(2) {
        assert_eq!(net.link_target(w[0]).unwrap(), net.link_source(w[1]).unwrap());
    }
    assert_eq!(net.link_target(*path.last().unwrap()).unwrap(), 4);
    assert_eq!(net.link_source(path[0]).unwrap(), 1);
}

#[test]
fn indexed_rows_match_network_adjacency() {
    let net = diamond_network();
    let g = IndexedGraph::from_network(&net);
    for node in 1..=4i64 {
        let u = node_idx(&g, node);
        let mut from_rows: Vec<i64> = g.out_edges(u).iter().map(|&(_, li)| g.link_id(li)).collect();
        from_rows.sort();
        let mut from_net: Vec<i64> = net.outgoing_links(node).unwrap().to_vec();
        from_net.sort();
        assert_eq!(from_rows, from_net);
        for &(t, li) in g.out_edges(u) {
            let target = net.link_target(g.link_id(li)).unwrap();
            assert_eq!(t, node_idx(&g, target));
        }
    }
}

#[test]
fn rows_list_links_in_index_order() {
    let net = diamond_network();
    let g = IndexedGraph::from_network(&net);
    for u in 0..g.num_nodes {
        let row = g.out_edges(u);
        for w in row.windows(2) {
            assert!(w[0].1 < w[1].1);
        }
    }
}
