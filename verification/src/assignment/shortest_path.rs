//! Path reconstruction from a shortest path tree: walking predecessor
//! links back from a destination to the origin.
use std::collections::HashMap;

use vstd::prelude::*;

use super::indexed_graph::IndexedGraph;
use crate::gmns::meso::network::{Network, NetworkView};
use crate::gmns::types::{LinkID, NodeID};

verus! {

broadcast use vstd::std_specs::hash::group_hash_axioms;

/// The predecessor link recorded for node `v`, if there is one.
pub open spec fn pred_link(preds: Map<NodeID, Option<LinkID>>, v: NodeID) -> Option<LinkID> {
    if preds.contains_key(v) {
        preds[v]
    } else {
        None
    }
}

/// The links met when walking back from node `v` along predecessor
/// links, in the order they are met, taking at most `fuel` steps to a
/// source node. The walk stops at a node with no predecessor link, and
/// after a link that is not in the network (that link is kept). `None`
/// when the walk needs more steps.
pub open spec fn links_back(
    preds: Map<NodeID, Option<LinkID>>,
    net: NetworkView,
    v: NodeID,
    fuel: nat,
) -> Option<Seq<LinkID>>
    decreases fuel,
{
    match pred_link(preds, v) {
        None => Some(Seq::empty()),
        Some(l) => if !net.links.contains_key(l) {
            Some(seq![l])
        } else if fuel == 0 {
            None
        } else {
            match links_back(preds, net, net.links[l].source_node_id, (fuel - 1) as nat) {
                Some(rest) => Some(seq![l] + rest),
                None => None,
            }
        },
    }
}

/// The walk back from `v` ends within some number of steps.
pub open spec fn walk_ends(preds: Map<NodeID, Option<LinkID>>, net: NetworkView, v: NodeID) -> bool {
    exists|fuel: nat| #[trigger] links_back(preds, net, v, fuel) is Some
}

/// More fuel does not change a walk that ended.
pub proof fn lemma_links_back_fuel(
    preds: Map<NodeID, Option<LinkID>>,
    net: NetworkView,
    v: NodeID,
    f1: nat,
    f2: nat,
)
    requires
        f1 <= f2,
        links_back(preds, net, v, f1) is Some,
    ensures
        links_back(preds, net, v, f2) == links_back(preds, net, v, f1),
    decreases f1,
{
    match pred_link(preds, v) {
        None => {},
        Some(l) => {
            if net.links.contains_key(l) {
                lemma_links_back_fuel(
                    preds,
                    net,
                    net.links[l].source_node_id,
                    (f1 - 1) as nat,
                    (f2 - 1) as nat,
                );
            }
        },
    }
}

/// A copy of `v` in reverse order.
pub fn reversed<T: Copy>(v: &Vec<T>) -> (r: Vec<T>)
    ensures
        r@ == v@.reverse(),
{
    let mut r: Vec<T> = Vec::new();
    let mut i: usize = v.len();
    while i > 0
        invariant
            i <= v@.len(),
            r@ == v@.subrange(i as int, v@.len() as int).reverse(),
        decreases i,
    {
        i = i - 1;
        r.push(v[i]);
        assert(r@ =~= v@.subrange(i as int, v@.len() as int).reverse());
    }
    assert(v@.subrange(0, v@.len() as int) =~= v@);
    r
}

/// Reconstruct a path from the shortest path tree: the link IDs from the
/// origin to `destination`, empty when `destination` has no predecessor
/// link. Walking back stops at a link that is not in the network, which
/// then begins the path.
pub fn build_path(
    predecessors: &HashMap<NodeID, Option<LinkID>>,
    network: &Network,
    destination: NodeID,
) -> (path: Vec<LinkID>)
    requires
        walk_ends(predecessors@, network@, destination),
    ensures
        forall|fuel: nat|
            #[trigger] links_back(predecessors@, network@, destination, fuel) is Some ==> path@
                == links_back(predecessors@, network@, destination, fuel)->0.reverse(),
{
    let ghost preds = predecessors@;
    let ghost net = network@;
    let ghost fuel0 = choose|fuel: nat| #[trigger] links_back(preds, net, destination, fuel) is Some;
    let ghost whole = links_back(preds, net, destination, fuel0)->0;
    let mut path: Vec<LinkID> = Vec::new();
    let mut current = destination;
    let ghost mut fuel: nat = fuel0;
    loop
        invariant_except_break
            links_back(preds, net, current, fuel) is Some,
            whole == path@ + links_back(preds, net, current, fuel)->0,
        invariant
            preds == predecessors@,
            net == network@,
        ensures
            whole == path@,
        decreases fuel,
    {
        match predecessors.get(&current) {
            Some(Some(link_id)) => {
                let l = *link_id;
                path.push(l);
                match network.link_source(l) {
                    Ok(source) => {
                        proof {
                            assert(pred_link(preds, current) == Some(l));
                            let rest = links_back(preds, net, source, (fuel - 1) as nat)->0;
                            assert(links_back(preds, net, current, fuel)->0 == seq![l] + rest);
                            assert(whole =~= path@ + rest);
                            fuel = (fuel - 1) as nat;
                        }
                        current = source;
                    },
                    Err(_) => {
                        proof {
                            assert(pred_link(preds, current) == Some(l));
                            assert(whole =~= path@);
                        }
                        break ;
                    },
                }
            },
            _ => {
                proof {
                    assert(pred_link(preds, current) is None);
                    assert(whole =~= path@);
                }
                break ;
            },
        }
    }
    let r = reversed(&path);
    proof {
        assert forall|f: nat| #[trigger] links_back(preds, net, destination, f) is Some implies r@
            == links_back(preds, net, destination, f)->0.reverse() by {
            if f <= fuel0 {
                lemma_links_back_fuel(preds, net, destination, f, fuel0);
            } else {
                lemma_links_back_fuel(preds, net, destination, fuel0, f);
            }
        }
    }
    r
}

/// The link indices met when walking back from node index `v` along the
/// predecessor links `pred`, with `src` the source node index of each
/// link index, taking at most `fuel` steps. `None` when the walk needs
/// more steps.
pub open spec fn indices_back(pred: Seq<Option<usize>>, src: Seq<usize>, v: int, fuel: nat) -> Option<
    Seq<usize>,
>
    decreases fuel,
{
    if !(0 <= v < pred.len()) || pred[v] is None {
        Some(Seq::empty())
    } else if fuel == 0 {
        None
    } else {
        let li = pred[v]->0;
        match indices_back(pred, src, src[li as int] as int, (fuel - 1) as nat) {
            Some(rest) => Some(seq![li] + rest),
            None => None,
        }
    }
}

/// More fuel does not change a walk that ended.
pub proof fn lemma_indices_back_fuel(
    pred: Seq<Option<usize>>,
    src: Seq<usize>,
    v: int,
    f1: nat,
    f2: nat,
)
    requires
        f1 <= f2,
        indices_back(pred, src, v, f1) is Some,
    ensures
        indices_back(pred, src, v, f2) == indices_back(pred, src, v, f1),
    decreases f1,
{
    if 0 <= v < pred.len() && pred[v] is Some {
        let li = pred[v]->0;
        lemma_indices_back_fuel(pred, src, src[li as int] as int, (f1 - 1) as nat, (f2 - 1) as nat);
    }
}

/// Build a path as link indices by walking predecessors from
/// `dest_idx` back to the origin: the link indices from the origin to
/// the destination, empty when the destination has no predecessor.
pub fn build_path_indexed(pred: &[Option<usize>], graph: &IndexedGraph, dest_idx: usize) -> (path: Vec<
    usize,
>)
    requires
        graph.wf(),
        pred@.len() == graph.nodes_len(),
        dest_idx < pred@.len(),
        forall|v: int|
            0 <= v < pred@.len() && #[trigger] pred@[v] is Some ==> (pred@[v]->0 as int)
                < graph.links_len(),
        exists|fuel: nat| #[trigger] indices_back(pred@, graph.source_indices(), dest_idx as int, fuel) is Some,
    ensures
        forall|fuel: nat|
            #[trigger] indices_back(pred@, graph.source_indices(), dest_idx as int, fuel) is Some
                ==> path@ == indices_back(pred@, graph.source_indices(), dest_idx as int, fuel)->0.reverse(),
{
    let ghost src = graph.source_indices();
    let ghost fuel0 = choose|fuel: nat| #[trigger] indices_back(pred@, src, dest_idx as int, fuel) is Some;
    let ghost whole = indices_back(pred@, src, dest_idx as int, fuel0)->0;
    let mut path: Vec<usize> = Vec::new();
    let mut current = dest_idx;
    let ghost mut fuel: nat = fuel0;
    loop
        invariant_except_break
            indices_back(pred@, src, current as int, fuel) is Some,
            whole == path@ + indices_back(pred@, src, current as int, fuel)->0,
        invariant
            graph.wf(),
            src == graph.source_indices(),
            pred@.len() == graph.nodes_len(),
            current < pred@.len(),
            forall|v: int|
                0 <= v < pred@.len() && #[trigger] pred@[v] is Some ==> (pred@[v]->0 as int)
                    < graph.links_len(),
        ensures
            whole == path@,
        decreases fuel,
    {
        match pred[current] {
            Some(li) => {
                path.push(li);
                let next = graph.link_source(li);
                proof {
                    let rest = indices_back(pred@, src, next as int, (fuel - 1) as nat)->0;
                    assert(whole =~= path@ + rest);
                    fuel = (fuel - 1) as nat;
                }
                current = next;
            },
            None => {
                proof {
                    assert(whole =~= path@);
                }
                break ;
            },
        }
    }
    let r = reversed(&path);
    proof {
        assert forall|f: nat| #[trigger] indices_back(pred@, src, dest_idx as int, f) is Some implies r@
            == indices_back(pred@, src, dest_idx as int, f)->0.reverse() by {
            if f <= fuel0 {
                lemma_indices_back_fuel(pred@, src, dest_idx as int, f, fuel0);
            } else {
                lemma_indices_back_fuel(pred@, src, dest_idx as int, fuel0, f);
            }
        }
    }
    r
}


/// Whether walking back from `dest_idx` along `pred` ends within `fuel` steps.
pub fn walk_ends_within(pred: &[Option<usize>], graph: &IndexedGraph, dest_idx: usize, fuel: usize) -> (r:
    bool)
    requires
        graph.wf(),
        pred@.len() == graph.nodes_len(),
        dest_idx < pred@.len(),
        forall|v: int|
            0 <= v < pred@.len() && #[trigger] pred@[v] is Some ==> (pred@[v]->0 as int)
                < graph.links_len(),
    ensures
        r == indices_back(pred@, graph.source_indices(), dest_idx as int, fuel as nat) is Some,
{
    let ghost src = graph.source_indices();
    let mut current = dest_idx;
    let mut remaining = fuel;
    while remaining > 0 && pred[current].is_some()
        invariant
            graph.wf(),
            src == graph.source_indices(),
            pred@.len() == graph.nodes_len(),
            current < pred@.len(),
            forall|v: int|
                0 <= v < pred@.len() && #[trigger] pred@[v] is Some ==> (pred@[v]->0 as int)
                    < graph.links_len(),
            (indices_back(pred@, src, dest_idx as int, fuel as nat) is Some) == (indices_back(
                pred@,
                src,
                current as int,
                remaining as nat,
            ) is Some),
        decreases remaining,
    {
        let li = pred[current].unwrap();
        current = graph.link_source(li);
        remaining = remaining - 1;
    }
    pred[current].is_none()
}

/// Build a path as link indices by walking predecessors back from
/// `dest_idx`, giving up when the walk has not ended after as many steps
/// as there are nodes (which only a cycle of predecessors causes).
pub fn try_build_path_indexed(pred: &[Option<usize>], graph: &IndexedGraph, dest_idx: usize) -> (r:
    Option<Vec<usize>>)
    requires
        graph.wf(),
        pred@.len() == graph.nodes_len(),
        dest_idx < pred@.len(),
        forall|v: int|
            0 <= v < pred@.len() && #[trigger] pred@[v] is Some ==> (pred@[v]->0 as int)
                < graph.links_len(),
    ensures
        match r {
            Some(path) => indices_back(pred@, graph.source_indices(), dest_idx as int, pred@.len() as nat)
                is Some && forall|fuel: nat|
                #[trigger] indices_back(pred@, graph.source_indices(), dest_idx as int, fuel) is Some
                    ==> path@ == indices_back(pred@, graph.source_indices(), dest_idx as int, fuel)->0.reverse(),
            None => forall|fuel: nat|
                #[trigger] indices_back(pred@, graph.source_indices(), dest_idx as int, fuel) is None,
        },
{
    if walk_ends_within(pred, graph, dest_idx, pred.len()) {
        assert(indices_back(pred@, graph.source_indices(), dest_idx as int, pred@.len() as nat) is Some);
        Some(build_path_indexed(pred, graph, dest_idx))
    } else {
        proof {
            assert forall|fuel: nat| #[trigger] indices_back(pred@, graph.source_indices(), dest_idx as int, fuel)
                is None by {
                law_unended_walk_never_ends(pred@, graph.source_indices(), dest_idx as int, fuel);
            }
        }
        None
    }
}


/// Whether walking back from `destination` along `predecessors` ends
/// within `fuel` steps.
pub fn walk_ends_within_map(
    predecessors: &HashMap<NodeID, Option<LinkID>>,
    network: &Network,
    destination: NodeID,
    fuel: usize,
) -> (r: bool)
    ensures
        r == links_back(predecessors@, network@, destination, fuel as nat) is Some,
{
    let ghost preds = predecessors@;
    let ghost net = network@;
    let mut current = destination;
    let mut remaining = fuel;
    loop
        invariant
            preds == predecessors@,
            net == network@,
            (links_back(preds, net, destination, fuel as nat) is Some) == (links_back(
                preds,
                net,
                current,
                remaining as nat,
            ) is Some),
        decreases remaining,
    {
        match predecessors.get(&current) {
            Some(Some(link_id)) => {
                let l = *link_id;
                proof {
                    assert(pred_link(preds, current) == Some(l));
                }
                match network.link_source(l) {
                    Ok(source) => {
                        if remaining == 0 {
                            return false;
                        }
                        current = source;
                        remaining = remaining - 1;
                    },
                    Err(_) => {
                        return true;
                    },
                }
            },
            _ => {
                proof {
                    assert(pred_link(preds, current) is None);
                }
                return true;
            },
        }
    }
}

/// Reconstruct a path from the shortest path tree as `build_path` does,
/// giving up when the walk back has not ended after as many steps as the
/// tree has entries (which only a cycle of predecessors causes).
pub fn try_build_path(
    predecessors: &HashMap<NodeID, Option<LinkID>>,
    network: &Network,
    destination: NodeID,
) -> (r: Option<Vec<LinkID>>)
    ensures
        match r {
            Some(path) => links_back(predecessors@, network@, destination, predecessors@.len()) is Some
                && forall|fuel: nat|
                #[trigger] links_back(predecessors@, network@, destination, fuel) is Some ==> path@
                    == links_back(predecessors@, network@, destination, fuel)->0.reverse(),
            None => !walk_ends(predecessors@, network@, destination),
        },
{
    let n = predecessors.len();
    if walk_ends_within_map(predecessors, network, destination, n) {
        assert(walk_ends(predecessors@, network@, destination));
        Some(build_path(predecessors, network, destination))
    } else {
        proof {
            assert forall|fuel: nat| #[trigger] links_back(predecessors@, network@, destination, fuel) is None by {
                law_unended_map_walk_never_ends(predecessors@, network@, destination, fuel);
            }
        }
        None
    }
}


/// Every predecessor link recorded for a node index ends at that node.
pub open spec fn preds_end_at_nodes(pred: Seq<Option<usize>>, tgt: Seq<usize>) -> bool {
    forall|v: int| 0 <= v < pred.len() && #[trigger] pred[v] is Some ==> tgt[pred[v]->0 as int] as int == v
}

proof fn lemma_indices_back_chain(
    pred: Seq<Option<usize>>,
    src: Seq<usize>,
    tgt: Seq<usize>,
    v: int,
    fuel: nat,
)
    requires
        indices_back(pred, src, v, fuel) is Some,
        preds_end_at_nodes(pred, tgt),
    ensures
        ({
            let ls = indices_back(pred, src, v, fuel)->0;
            &&& ls.len() > 0 ==> tgt[ls[0] as int] as int == v
            &&& ls.len() > 0 ==> {
                let root = src[ls[ls.len() - 1] as int] as int;
                !(0 <= root < pred.len()) || pred[root] is None
            }
            &&& forall|k: int| 0 <= k < ls.len() - 1 ==> #[trigger] tgt[ls[k + 1] as int] == src[ls[k] as int]
        }),
    decreases fuel,
{
    if 0 <= v < pred.len() && pred[v] is Some {
        let li = pred[v]->0;
        let next = src[li as int] as int;
        lemma_indices_back_chain(pred, src, tgt, next, (fuel - 1) as nat);
        let rest = indices_back(pred, src, next, (fuel - 1) as nat)->0;
        let ls = indices_back(pred, src, v, fuel)->0;
        assert(ls == seq![li] + rest);
        assert forall|k: int| 0 <= k < ls.len() - 1 implies #[trigger] tgt[ls[k + 1] as int] == src[ls[k] as int] by {
            if k == 0 {
                assert(ls[1] == rest[0]);
            } else {
                assert(ls[k] == rest[k - 1]);
                assert(ls[k + 1] == rest[k]);
                assert(tgt[rest[(k - 1) + 1] as int] == src[rest[k - 1] as int]);
            }
        }
        if rest.len() > 0 {
            assert(ls[ls.len() - 1] == rest[rest.len() - 1]);
        } else {
            assert(ls[ls.len() - 1] == li);
            assert(indices_back(pred, src, next, (fuel - 1) as nat) == Some(Seq::<usize>::empty()));
        }
    }
}

/// A path read back from predecessors that each end at their node is a
/// connected route: it ends at the destination, it starts at a node
/// without predecessor (the root of the tree), and each link ends where
/// the next one starts.
pub proof fn law_tree_path_connects(
    g: &IndexedGraph,
    net: NetworkView,
    pred: Seq<Option<usize>>,
    dest: int,
    fuel: nat,
)
    requires
        g.indexes(net),
        pred.len() == g.nodes_len(),
        0 <= dest < pred.len(),
        preds_end_at_nodes(pred, g.target_indices(net)),
        indices_back(pred, g.source_indices(), dest, fuel) is Some,
    ensures
        ({
            let p = indices_back(pred, g.source_indices(), dest, fuel)->0.reverse();
            let tgt = g.target_indices(net);
            let src = g.source_indices();
            &&& p.len() > 0 ==> tgt[p[p.len() - 1] as int] as int == dest
            &&& p.len() > 0 ==> {
                let root = src[p[0] as int] as int;
                !(0 <= root < pred.len()) || pred[root] is None
            }
            &&& forall|i: int| 0 <= i < p.len() - 1 ==> #[trigger] tgt[p[i] as int] == src[p[i + 1] as int]
        }),
{
    let src = g.source_indices();
    let tgt = g.target_indices(net);
    lemma_indices_back_chain(pred, src, tgt, dest, fuel);
    let ls = indices_back(pred, src, dest, fuel)->0;
    let p = ls.reverse();
    let n = ls.len();
    assert forall|i: int| 0 <= i < p.len() - 1 implies #[trigger] tgt[p[i] as int] == src[p[i + 1] as int] by {
        let k = n - 2 - i;
        assert(p[i] == ls[k + 1]);
        assert(p[i + 1] == ls[k]);
        assert(tgt[ls[k + 1] as int] == src[ls[k] as int]);
    }
    if n > 0 {
        assert(p[p.len() - 1] == ls[0]);
        assert(p[0] == ls[n - 1]);
    }
}

/// Every predecessor link that is a link of the network ends at the node
/// it is recorded for.
pub open spec fn preds_end_at(preds: Map<NodeID, Option<LinkID>>, net: NetworkView) -> bool {
    forall|v: NodeID, l: LinkID|
        #[trigger] pred_link(preds, v) == Some(l) && net.links.contains_key(l) ==> #[trigger] net.links[l].target_node_id
            == v
}

proof fn lemma_links_back_chain(preds: Map<NodeID, Option<LinkID>>, net: NetworkView, v: NodeID, fuel: nat)
    requires
        links_back(preds, net, v, fuel) is Some,
        preds_end_at(preds, net),
    ensures
        ({
            let ls = links_back(preds, net, v, fuel)->0;
            &&& ls.len() > 0 ==> (net.links.contains_key(ls[0]) ==> net.links[ls[0]].target_node_id == v)
            &&& forall|k: int| 0 <= k < ls.len() - 1 ==> net.links.contains_key(#[trigger] ls[k])
            &&& forall|k: int|
                0 <= k < ls.len() - 1 ==> (net.links.contains_key(ls[k + 1]) ==> #[trigger] net.links[ls[k
                    + 1]].target_node_id == net.links[ls[k]].source_node_id)
        }),
    decreases fuel,
{
    match pred_link(preds, v) {
        None => {},
        Some(l) => {
            if net.links.contains_key(l) {
                let next = net.links[l].source_node_id;
                lemma_links_back_chain(preds, net, next, (fuel - 1) as nat);
                let rest = links_back(preds, net, next, (fuel - 1) as nat)->0;
                let ls = links_back(preds, net, v, fuel)->0;
                assert(ls == seq![l] + rest);
                assert forall|k: int| 0 <= k < ls.len() - 1 implies net.links.contains_key(#[trigger] ls[k]) by {
                    if k > 0 {
                        assert(ls[k] == rest[k - 1]);
                    }
                }
                assert forall|k: int|
                    0 <= k < ls.len() - 1 implies (net.links.contains_key(ls[k + 1]) ==> #[trigger] net.links[ls[k
                    + 1]].target_node_id == net.links[ls[k]].source_node_id) by {
                    if k == 0 {
                        assert(ls[1] == rest[0]);
                    } else {
                        assert(ls[k] == rest[k - 1]);
                        assert(ls[k + 1] == rest[(k - 1) + 1]);
                    }
                }
            }
        },
    }
}

/// A path read back from a predecessor map whose links each end at their
/// node is a connected route: every link but possibly the first is a link
/// of the network, each link ends where the next one starts, and the last
/// link ends at the destination.
pub proof fn law_map_path_connects(
    preds: Map<NodeID, Option<LinkID>>,
    net: NetworkView,
    destination: NodeID,
    fuel: nat,
)
    requires
        preds_end_at(preds, net),
        links_back(preds, net, destination, fuel) is Some,
    ensures
        ({
            let p = links_back(preds, net, destination, fuel)->0.reverse();
            &&& p.len() > 0 && net.links.contains_key(p[p.len() - 1]) ==> net.links[p[p.len()
                - 1]].target_node_id == destination
            &&& forall|i: int| 1 <= i < p.len() ==> net.links.contains_key(#[trigger] p[i])
            &&& forall|i: int|
                0 <= i < p.len() - 1 ==> (net.links.contains_key(p[i]) ==> #[trigger] net.links[p[i]].target_node_id
                    == net.links[p[i + 1]].source_node_id)
        }),
{
    lemma_links_back_chain(preds, net, destination, fuel);
    let ls = links_back(preds, net, destination, fuel)->0;
    let p = ls.reverse();
    let n = ls.len();
    assert forall|i: int| 1 <= i < p.len() implies net.links.contains_key(#[trigger] p[i]) by {
        assert(p[i] == ls[n - 1 - i]);
        assert(net.links.contains_key(ls[n - 1 - i]));
    }
    assert forall|i: int|
        0 <= i < p.len() - 1 implies (net.links.contains_key(p[i]) ==> #[trigger] net.links[p[i]].target_node_id
        == net.links[p[i + 1]].source_node_id) by {
        let k = n - 2 - i;
        assert(p[i] == ls[k + 1]);
        assert(p[i + 1] == ls[k]);
        if net.links.contains_key(ls[k + 1]) {
            assert(net.links[ls[k + 1]].target_node_id == net.links[ls[k]].source_node_id);
        }
    }
    if n > 0 {
        assert(p[p.len() - 1] == ls[0]);
    }
}


/// A sequence longer than the set that holds its items repeats an item.
proof fn lemma_pigeonhole<A>(s: Seq<A>, dom: Set<A>)
    requires
        dom.finite(),
        s.len() > dom.len(),
        forall|j: int| 0 <= j < s.len() ==> dom.contains(#[trigger] s[j]),
    ensures
        exists|a: int, b: int| 0 <= a < b < s.len() && #[trigger] s[a] == #[trigger] s[b],
{
    if !(exists|a: int, b: int| 0 <= a < b < s.len() && #[trigger] s[a] == #[trigger] s[b]) {
        assert(s.no_duplicates());
        s.unique_seq_to_set();
        assert(s.to_set().subset_of(dom));
        vstd::set_lib::lemma_len_subset(s.to_set(), dom);
    }
}

/// The node index reached after `j` steps back from `v`.
pub open spec fn walk_node(pred: Seq<Option<usize>>, src: Seq<usize>, v: int, j: nat) -> int
    decreases j,
{
    if j == 0 {
        v
    } else {
        let u = walk_node(pred, src, v, (j - 1) as nat);
        src[pred[u]->0 as int] as int
    }
}

/// Node index `u` has a predecessor link.
pub open spec fn has_pred(pred: Seq<Option<usize>>, u: int) -> bool {
    0 <= u < pred.len() && pred[u] is Some
}

proof fn lemma_walk_node_shift(pred: Seq<Option<usize>>, src: Seq<usize>, v: int, j: nat)
    requires
        has_pred(pred, v),
    ensures
        walk_node(pred, src, src[pred[v]->0 as int] as int, j) == walk_node(pred, src, v, j + 1),
    decreases j,
{
    let next = src[pred[v]->0 as int] as int;
    if j > 0 {
        lemma_walk_node_shift(pred, src, v, (j - 1) as nat);
        assert(walk_node(pred, src, next, j) == src[pred[walk_node(pred, src, next, (j - 1) as nat)]->0 as int] as int);
        assert(walk_node(pred, src, v, j + 1) == src[pred[walk_node(pred, src, v, j)]->0 as int] as int);
    } else {
        assert(walk_node(pred, src, v, 0) == v);
        assert(walk_node(pred, src, v, 1) == src[pred[walk_node(pred, src, v, 0)]->0 as int] as int);
    }
}

proof fn lemma_indices_back_none(pred: Seq<Option<usize>>, src: Seq<usize>, v: int, f: nat)
    ensures
        (indices_back(pred, src, v, f) is None) <==> (forall|j: nat|
            j <= f ==> #[trigger] has_pred(pred, walk_node(pred, src, v, j))),
    decreases f,
{
    if has_pred(pred, v) {
        if f > 0 {
            let next = src[pred[v]->0 as int] as int;
            lemma_indices_back_none(pred, src, next, (f - 1) as nat);
            assert forall|j: nat| j <= (f - 1) as nat implies walk_node(pred, src, next, j) == walk_node(
                pred,
                src,
                v,
                j + 1,
            ) by {
                lemma_walk_node_shift(pred, src, v, j);
            }
            if forall|j: nat| j <= f ==> #[trigger] has_pred(pred, walk_node(pred, src, v, j)) {
                assert forall|j: nat| j <= (f - 1) as nat implies #[trigger] has_pred(
                    pred,
                    walk_node(pred, src, next, j),
                ) by {
                    assert(has_pred(pred, walk_node(pred, src, v, j + 1)));
                }
            }
            if indices_back(pred, src, v, f) is None {
                assert forall|j: nat| j <= f implies #[trigger] has_pred(pred, walk_node(pred, src, v, j)) by {
                    if j > 0 {
                        let k = (j - 1) as nat;
                        assert(has_pred(pred, walk_node(pred, src, next, k)));
                    }
                }
            }
        }
    } else {
        assert(!has_pred(pred, walk_node(pred, src, v, 0)));
    }
}

proof fn lemma_walk_periodic(pred: Seq<Option<usize>>, src: Seq<usize>, v: int, a: nat, b: nat, t: nat)
    requires
        walk_node(pred, src, v, a) == walk_node(pred, src, v, b),
    ensures
        walk_node(pred, src, v, a + t) == walk_node(pred, src, v, b + t),
    decreases t,
{
    if t > 0 {
        lemma_walk_periodic(pred, src, v, a, b, (t - 1) as nat);
    }
}

proof fn lemma_walk_forever(pred: Seq<Option<usize>>, src: Seq<usize>, v: int, a: nat, b: nat, j: nat)
    requires
        a < b,
        walk_node(pred, src, v, a) == walk_node(pred, src, v, b),
        forall|i: nat| i <= b ==> #[trigger] has_pred(pred, walk_node(pred, src, v, i)),
    ensures
        has_pred(pred, walk_node(pred, src, v, j)),
    decreases j,
{
    if j > b {
        let t = (j - b) as nat;
        lemma_walk_periodic(pred, src, v, a, b, t);
        lemma_walk_forever(pred, src, v, a, b, (a + t) as nat);
    }
}

/// A walk back that has not ended after as many steps as there are node
/// indices never ends: it has entered a cycle of predecessors.
pub proof fn law_unended_walk_never_ends(pred: Seq<Option<usize>>, src: Seq<usize>, v: int, fuel: nat)
    requires
        indices_back(pred, src, v, pred.len()) is None,
    ensures
        indices_back(pred, src, v, fuel) is None,
{
    let n = pred.len();
    lemma_indices_back_none(pred, src, v, n);
    let s = Seq::new(n + 1, |j: int| walk_node(pred, src, v, j as nat));
    vstd::set_lib::lemma_int_range(0, n as int);
    assert forall|j: int| 0 <= j < s.len() implies vstd::set_lib::set_int_range(0, n as int).contains(
        #[trigger] s[j],
    ) by {
        assert(has_pred(pred, walk_node(pred, src, v, j as nat)));
    }
    lemma_pigeonhole(s, vstd::set_lib::set_int_range(0, n as int));
    let (a, b) = choose|a: int, b: int| 0 <= a < b < s.len() && #[trigger] s[a] == #[trigger] s[b];
    assert forall|j: nat| j <= fuel implies #[trigger] has_pred(pred, walk_node(pred, src, v, j)) by {
        lemma_walk_forever(pred, src, v, a as nat, b as nat, j);
    }
    lemma_indices_back_none(pred, src, v, fuel);
}


/// Node `u` has a predecessor link that is a link of the network, so the
/// walk back goes on from it.
pub open spec fn has_link_step(preds: Map<NodeID, Option<LinkID>>, net: NetworkView, u: NodeID) -> bool {
    pred_link(preds, u) is Some && net.links.contains_key(pred_link(preds, u)->0)
}

/// The node reached after `j` steps back from `v` along predecessor links.
pub open spec fn map_walk_node(preds: Map<NodeID, Option<LinkID>>, net: NetworkView, v: NodeID, j: nat) -> NodeID
    decreases j,
{
    if j == 0 {
        v
    } else {
        let u = map_walk_node(preds, net, v, (j - 1) as nat);
        net.links[pred_link(preds, u)->0].source_node_id
    }
}

proof fn lemma_map_walk_shift(preds: Map<NodeID, Option<LinkID>>, net: NetworkView, v: NodeID, j: nat)
    requires
        has_link_step(preds, net, v),
    ensures
        map_walk_node(preds, net, net.links[pred_link(preds, v)->0].source_node_id, j) == map_walk_node(
            preds,
            net,
            v,
            j + 1,
        ),
    decreases j,
{
    let next = net.links[pred_link(preds, v)->0].source_node_id;
    if j > 0 {
        lemma_map_walk_shift(preds, net, v, (j - 1) as nat);
        assert(map_walk_node(preds, net, next, j) == net.links[pred_link(
            preds,
            map_walk_node(preds, net, next, (j - 1) as nat),
        )->0].source_node_id);
        assert(map_walk_node(preds, net, v, j + 1) == net.links[pred_link(
            preds,
            map_walk_node(preds, net, v, j),
        )->0].source_node_id);
    } else {
        assert(map_walk_node(preds, net, v, 0) == v);
        assert(map_walk_node(preds, net, v, 1) == net.links[pred_link(
            preds,
            map_walk_node(preds, net, v, 0),
        )->0].source_node_id);
    }
}

proof fn lemma_links_back_none(preds: Map<NodeID, Option<LinkID>>, net: NetworkView, v: NodeID, f: nat)
    ensures
        (links_back(preds, net, v, f) is None) <==> (forall|j: nat|
            j <= f ==> #[trigger] has_link_step(preds, net, map_walk_node(preds, net, v, j))),
    decreases f,
{
    if has_link_step(preds, net, v) {
        if f > 0 {
            let next = net.links[pred_link(preds, v)->0].source_node_id;
            lemma_links_back_none(preds, net, next, (f - 1) as nat);
            assert forall|j: nat| j <= (f - 1) as nat implies map_walk_node(preds, net, next, j)
                == map_walk_node(preds, net, v, j + 1) by {
                lemma_map_walk_shift(preds, net, v, j);
            }
            if forall|j: nat| j <= f ==> #[trigger] has_link_step(preds, net, map_walk_node(preds, net, v, j)) {
                assert forall|j: nat| j <= (f - 1) as nat implies #[trigger] has_link_step(
                    preds,
                    net,
                    map_walk_node(preds, net, next, j),
                ) by {
                    assert(has_link_step(preds, net, map_walk_node(preds, net, v, j + 1)));
                }
            }
            if links_back(preds, net, v, f) is None {
                assert forall|j: nat| j <= f implies #[trigger] has_link_step(
                    preds,
                    net,
                    map_walk_node(preds, net, v, j),
                ) by {
                    if j > 0 {
                        let k = (j - 1) as nat;
                        assert(has_link_step(preds, net, map_walk_node(preds, net, next, k)));
                    }
                }
            }
        }
    } else {
        assert(!has_link_step(preds, net, map_walk_node(preds, net, v, 0)));
    }
}

proof fn lemma_map_walk_periodic(
    preds: Map<NodeID, Option<LinkID>>,
    net: NetworkView,
    v: NodeID,
    a: nat,
    b: nat,
    t: nat,
)
    requires
        map_walk_node(preds, net, v, a) == map_walk_node(preds, net, v, b),
    ensures
        map_walk_node(preds, net, v, a + t) == map_walk_node(preds, net, v, b + t),
    decreases t,
{
    if t > 0 {
        lemma_map_walk_periodic(preds, net, v, a, b, (t - 1) as nat);
    }
}

proof fn lemma_map_walk_forever(
    preds: Map<NodeID, Option<LinkID>>,
    net: NetworkView,
    v: NodeID,
    a: nat,
    b: nat,
    j: nat,
)
    requires
        a < b,
        map_walk_node(preds, net, v, a) == map_walk_node(preds, net, v, b),
        forall|i: nat| i <= b ==> #[trigger] has_link_step(preds, net, map_walk_node(preds, net, v, i)),
    ensures
        has_link_step(preds, net, map_walk_node(preds, net, v, j)),
    decreases j,
{
    if j > b {
        let t = (j - b) as nat;
        lemma_map_walk_periodic(preds, net, v, a, b, t);
        lemma_map_walk_forever(preds, net, v, a, b, (a + t) as nat);
    }
}

/// A walk back that has not ended after as many steps as the map has
/// entries never ends: it has entered a cycle of predecessors.
pub proof fn law_unended_map_walk_never_ends(
    preds: Map<NodeID, Option<LinkID>>,
    net: NetworkView,
    v: NodeID,
    fuel: nat,
)
    requires
        preds.dom().finite(),
        links_back(preds, net, v, preds.len()) is None,
    ensures
        links_back(preds, net, v, fuel) is None,
{
    let n = preds.len();
    lemma_links_back_none(preds, net, v, n);
    let s = Seq::new(n + 1, |j: int| map_walk_node(preds, net, v, j as nat));
    assert forall|j: int| 0 <= j < s.len() implies preds.dom().contains(#[trigger] s[j]) by {
        assert(has_link_step(preds, net, map_walk_node(preds, net, v, j as nat)));
    }
    lemma_pigeonhole(s, preds.dom());
    let (a, b) = choose|a: int, b: int| 0 <= a < b < s.len() && #[trigger] s[a] == #[trigger] s[b];
    assert forall|j: nat| j <= fuel implies #[trigger] has_link_step(preds, net, map_walk_node(preds, net, v, j)) by {
        lemma_map_walk_forever(preds, net, v, a as nat, b as nat, j);
    }
    lemma_links_back_none(preds, net, v, fuel);
}

} // verus!
