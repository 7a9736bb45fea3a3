//! Zone connectivity: strongly-connected components among zone centroids.
//!
//! Used by the pipeline preflight check to catch disconnected networks
//! before Furness distribution is attempted.
use std::collections::{HashMap, HashSet, VecDeque};

use vstd::prelude::*;

use crate::gmns::meso::network::{
    lemma_closed_set_holds_walk, lemma_reaches_refl, lemma_reaches_step, lemma_reaches_trans, Network,
    NetworkView,
};
use crate::gmns::types::{LinkID, NodeID, ZoneID};
use crate::pipeline::union_find::{
    lemma_root_is_root, lemma_same_roots_trans, lemma_singletons, merged_roots, same_roots, singletons, uf_find, uf_root,
    uf_union, uf_wf, zero_ranks,
};

verus! {

broadcast use vstd::std_specs::hash::group_hash_axioms;

/// The zone IDs of `zones` that have a centroid in the network, in input order.
pub open spec fn centroid_zones(net: NetworkView, zones: Seq<ZoneID>) -> Seq<ZoneID>
    decreases zones.len(),
{
    if zones.len() == 0 {
        Seq::empty()
    } else {
        let before = centroid_zones(net, zones.drop_last());
        if net.zone_centroids.contains_key(zones.last()) {
            before.push(zones.last())
        } else {
            before
        }
    }
}

/// The centroid zones of `zones` are exactly the zones of `zones` that
/// have a centroid in the network, whatever their ID, kept in input
/// order, and there are no more of them than zones.
pub proof fn law_centroid_zones_members(net: NetworkView, zones: Seq<ZoneID>, z: ZoneID)
    ensures
        centroid_zones(net, zones) == zones.filter(|k: ZoneID| net.zone_centroids.contains_key(k)),
        centroid_zones(net, zones).contains(z) <==> (zones.contains(z) && net.zone_centroids.contains_key(
            z,
        )),
        centroid_zones(net, zones).len() <= zones.len(),
    decreases zones.len(),
{
    reveal(Seq::filter);
    if zones.len() > 0 {
        let init = zones.drop_last();
        law_centroid_zones_members(net, init, z);
        assert(zones =~= init.push(zones.last()));
        if zones.contains(z) && z != zones.last() {
            let j = choose|j: int| 0 <= j < zones.len() && zones[j] == z;
            assert(init[j] == z);
        }
        if init.contains(z) {
            let j = choose|j: int| 0 <= j < init.len() && init[j] == z;
            assert(zones[j] == z);
        }
        if zones.last() == z {
            assert(zones[zones.len() - 1] == z);
        }
        let before = centroid_zones(net, init);
        if net.zone_centroids.contains_key(zones.last()) {
            let after = before.push(zones.last());
            assert(after[before.len() as int] == zones.last());
            if after.contains(z) && z != zones.last() {
                let j = choose|j: int| 0 <= j < after.len() && after[j] == z;
                assert(before[j] == z);
            }
            if before.contains(z) {
                let j = choose|j: int| 0 <= j < before.len() && before[j] == z;
                assert(after[j] == z);
            }
        }
    }
}

/// Positions `a` and `b` of the centroid list belong together: they are
/// the same position, or each one's centroid reaches the other's.
pub open spec fn linked(net: NetworkView, cz: Seq<ZoneID>, a: int, b: int) -> bool {
    a == b || (net.reaches(net.zone_centroids[cz[a]], net.zone_centroids[cz[b]]) && net.reaches(
        net.zone_centroids[cz[b]],
        net.zone_centroids[cz[a]],
    ))
}

/// Whether the centroid of position `b` is reachable from the centroid
/// of position `a`.
pub open spec fn recorded_reach(net: NetworkView, cz: Seq<ZoneID>, a: int, b: int) -> bool {
    net.reaches(net.zone_centroids[cz[a]], net.zone_centroids[cz[b]])
}

/// Breadth-first search from `start`: the set of nodes reachable from it.
fn reachable_nodes(network: &Network, start: NodeID) -> (visited: HashSet<NodeID>)
    ensures
        forall|v: NodeID| visited@.contains(v) <==> network@.reaches(start, v),
{
    let ghost net = network@;
    let ghost cand = net.link_targets().insert(start);
    proof {
        assert(network.links@.dom().finite());
        assert(net.links.dom() =~= network.links@.dom());
        net.links.dom().lemma_map_finite(|l: LinkID| net.links[l].target_node_id);
        lemma_reaches_refl(net, start);
    }
    let mut visited: HashSet<NodeID> = HashSet::new();
    let mut queue: VecDeque<NodeID> = VecDeque::new();
    queue.push_back(start);
    visited.insert(start);
    proof {
        assert(queue@[0] == start);
        assert(visited@.subset_of(cand));
    }
    loop
        invariant
            net == network@,
            cand.finite(),
            cand == net.link_targets().insert(start),
            visited@.subset_of(cand),
            visited@.contains(start),
            forall|v: NodeID| visited@.contains(v) ==> net.reaches(start, v),
            queue@.no_duplicates(),
            forall|i: int| 0 <= i < queue@.len() ==> visited@.contains(#[trigger] queue@[i]),
            forall|v: NodeID, w: NodeID|
                visited@.contains(v) && !queue@.contains(v) && #[trigger] net.step(v, w)
                    ==> visited@.contains(w),
        ensures
            queue@.len() == 0,
        decreases cand.len() - visited@.len(), queue@.len(),
    {
        proof {
            vstd::set_lib::lemma_len_subset(visited@, cand);
        }
        let ghost queue_before = queue@;
        let ghost visited_before = visited@;
        let node_id = match queue.pop_front() {
            Some(n) => n,
            None => break,
        };
        proof {
            assert(visited@.contains(node_id)) by {
                assert(queue_before[0] == node_id);
            }
            assert(!queue@.contains(node_id)) by {
                if queue@.contains(node_id) {
                    let i = choose|i: int| 0 <= i < queue@.len() && queue@[i] == node_id;
                    assert(queue_before[i + 1] == node_id);
                    assert(queue_before[0] == node_id);
                }
            }
            assert forall|v: NodeID, w: NodeID|
                visited@.contains(v) && !queue@.contains(v) && v != node_id && #[trigger] net.step(v, w)
                    implies visited@.contains(w) by {
                if queue_before.contains(v) {
                    let i = choose|i: int| 0 <= i < queue_before.len() && queue_before[i] == v;
                    if i > 0 {
                        assert(queue@[i - 1] == v);
                    }
                }
            }
            assert forall|i: int| 0 <= i < queue@.len() implies visited@.contains(#[trigger] queue@[i]) by {
                assert(queue@[i] == queue_before[i + 1]);
            }
            assert(queue@.no_duplicates()) by {
                assert forall|i: int, j: int| 0 <= i < j < queue@.len() implies queue@[i] != queue@[j] by {
                    assert(queue@[i] == queue_before[i + 1]);
                    assert(queue@[j] == queue_before[j + 1]);
                }
            }
        }
        match network.outgoing_links(node_id) {
            Ok(link_ids) => {
                let mut k: usize = 0;
                while k < link_ids.len()
                    invariant
                        net == network@,
                        net.nodes.contains_key(node_id),
                        link_ids@ == net.nodes[node_id].outcoming_links,
                        k <= link_ids@.len(),
                        cand.finite(),
                        cand == net.link_targets().insert(start),
                        visited@.subset_of(cand),
                        visited_before.subset_of(visited@),
                        visited@.len() - visited_before.len() == queue@.len() - (queue_before.len() - 1),
                        queue@.len() >= queue_before.len() - 1,
                        visited@.contains(start),
                        visited@.contains(node_id),
                        forall|v: NodeID| visited@.contains(v) ==> net.reaches(start, v),
                        queue@.no_duplicates(),
                        !queue@.contains(node_id),
                        forall|i: int| 0 <= i < queue@.len() ==> visited@.contains(#[trigger] queue@[i]),
                        forall|v: NodeID, w: NodeID|
                            visited@.contains(v) && !queue@.contains(v) && v != node_id
                                && #[trigger] net.step(v, w) ==> visited@.contains(w),
                        forall|j: int|
                            0 <= j < k && net.links.contains_key(#[trigger] link_ids@[j])
                                ==> visited@.contains(net.links[link_ids@[j]].target_node_id),
                    decreases link_ids@.len() - k,
                {
                    let lid = link_ids[k];
                    if let Ok(link) = network.get_link(lid) {
                        let next = link.target_node_id;
                        proof {
                            assert(net.step(node_id, next)) by {
                                assert(link_ids@[k as int] == lid);
                            }
                            lemma_reaches_step(net, start, node_id, next);
                            assert(net.link_targets().contains(next)) by {
                                assert(net.links.dom().contains(lid));
                            }
                        }
                        let ghost q_mid = queue@;
                        let ghost v_mid = visited@;
                        if visited.insert(next) {
                            queue.push_back(next);
                            proof {
                                assert(!q_mid.contains(next));
                                assert(queue@[queue@.len() - 1] == next);
                                assert forall|i: int| 0 <= i < queue@.len() implies visited@.contains(
                                    #[trigger] queue@[i],
                                ) by {
                                    if i < q_mid.len() {
                                        assert(queue@[i] == q_mid[i]);
                                    }
                                }
                                assert forall|v: NodeID, w: NodeID|
                                    visited@.contains(v) && !queue@.contains(v) && v != node_id
                                        && #[trigger] net.step(v, w) implies visited@.contains(w) by {
                                    if q_mid.contains(v) {
                                        let i = choose|i: int| 0 <= i < q_mid.len() && q_mid[i] == v;
                                        assert(queue@[i] == v);
                                    }
                                    if v == next {
                                        assert(queue@.contains(v));
                                    }
                                }
                                assert(!queue@.contains(node_id)) by {
                                    if queue@.contains(node_id) {
                                        let i = choose|i: int| 0 <= i < queue@.len() && queue@[i] == node_id;
                                        if i < q_mid.len() {
                                            assert(q_mid[i] == node_id);
                                        }
                                    }
                                }
                                assert(queue@.no_duplicates()) by {
                                    assert forall|i: int, j: int| 0 <= i < j < queue@.len() implies queue@[i]
                                        != queue@[j] by {
                                        if j == queue@.len() - 1 {
                                            assert(q_mid.contains(queue@[i]) ==> queue@[i] != next);
                                            assert(queue@[i] == q_mid[i]);
                                        } else {
                                            assert(queue@[i] == q_mid[i]);
                                            assert(queue@[j] == q_mid[j]);
                                        }
                                    }
                                }
                            }
                        }
                    }
                    k = k + 1;
                }
                proof {
                    assert forall|w: NodeID| #[trigger] net.step(node_id, w) implies visited@.contains(w) by {
                        let j = choose|j: int|
                            #![trigger net.nodes[node_id].outcoming_links[j]]
                            0 <= j < net.nodes[node_id].outcoming_links.len() && net.links.contains_key(
                                net.nodes[node_id].outcoming_links[j],
                            ) && net.links[net.nodes[node_id].outcoming_links[j]].target_node_id == w;
                        assert(link_ids@[j] == net.nodes[node_id].outcoming_links[j]);
                    }
                }
            },
            Err(_) => {},
        }
        proof {
            vstd::set_lib::lemma_len_subset(visited_before, visited@);
            vstd::set_lib::lemma_len_subset(visited@, cand);
            if visited@.len() == visited_before.len() {
                assert(queue@.len() < queue_before.len());
            }
        }
    }
    proof {
        assert forall|v: NodeID| net.reaches(start, v) implies visited@.contains(v) by {
            let p = choose|p: Seq<NodeID>| #[trigger] net.is_walk(p) && p[0] == start && p.last() == v;
            assert forall|v: NodeID, w: NodeID|
                visited@.contains(v) && #[trigger] net.step(v, w) implies visited@.contains(w) by {
                assert(!queue@.contains(v));
            }
            lemma_closed_set_holds_walk(net, visited@, p);
        }
    }
    visited
}

/// The zone IDs of `zone_ids` that have a centroid, with their centroid nodes.
fn collect_centroids(network: &Network, zone_ids: &[ZoneID]) -> (r: (Vec<ZoneID>, Vec<NodeID>))
    ensures
        r.0@ == centroid_zones(network@, zone_ids@),
        r.1@.len() == r.0@.len(),
        forall|k: int|
            0 <= k < r.0@.len() ==> network@.zone_centroids.contains_key(#[trigger] r.0@[k])
                && r.1@[k] == network@.zone_centroids[r.0@[k]],
{
    let mut cz: Vec<ZoneID> = Vec::new();
    let mut cn: Vec<NodeID> = Vec::new();
    for i in 0..zone_ids.len()
        invariant
            cz@ == centroid_zones(network@, zone_ids@.take(i as int)),
            cn@.len() == cz@.len(),
            forall|k: int|
                0 <= k < cz@.len() ==> network@.zone_centroids.contains_key(#[trigger] cz@[k])
                    && cn@[k] == network@.zone_centroids[cz@[k]],
    {
        let z = zone_ids[i];
        proof {
            assert(zone_ids@.take(i + 1).drop_last() =~= zone_ids@.take(i as int));
            assert(zone_ids@.take(i + 1).last() == z);
        }
        match network.get_zone_centroid(z) {
            Ok(node) => {
                cz.push(z);
                cn.push(node);
            },
            Err(_) => {},
        }
    }
    proof {
        assert(zone_ids@.take(zone_ids@.len() as int) =~= zone_ids@);
    }
    (cz, cn)
}

/// Row `a` of the reach matrix: for each position `b`, whether the
/// centroid of `b` is reached from the centroid of `a`.
fn reach_row(network: &Network, cz: &Vec<ZoneID>, cn: &Vec<NodeID>, a: usize) -> (row: Vec<bool>)
    requires
        cn@.len() == cz@.len(),
        a < cz@.len(),
        forall|k: int|
            0 <= k < cz@.len() ==> network@.zone_centroids.contains_key(#[trigger] cz@[k]) && cn@[k]
                == network@.zone_centroids[cz@[k]],
    ensures
        row@.len() == cz@.len(),
        forall|b: int| 0 <= b < cz@.len() ==> #[trigger] row@[b] == recorded_reach(network@, cz@, a as int, b),
{
    let visited = reachable_nodes(network, cn[a]);
    let mut row: Vec<bool> = Vec::new();
    for b in 0..cn.len()
        invariant
            row@.len() == b,
            cn@.len() == cz@.len(),
            a < cz@.len(),
            forall|v: NodeID| visited@.contains(v) <==> network@.reaches(cn@[a as int], v),
            forall|k: int|
                0 <= k < cz@.len() ==> network@.zone_centroids.contains_key(#[trigger] cz@[k])
                    && cn@[k] == network@.zone_centroids[cz@[k]],
            forall|k: int| 0 <= k < b ==> #[trigger] row@[k] == recorded_reach(network@, cz@, a as int, k),
    {
        let node = cn[b];
        let hit = visited.contains(&node);
        row.push(hit);
        proof {
            assert(cn@[b as int] == node);
            assert(cn@[a as int] == network@.zone_centroids[cz@[a as int]]);
        }
    }
    row
}

/// Belonging together is an equivalence: every position is linked to
/// itself, and `linked` is symmetric and transitive.
pub proof fn lemma_linked_equiv(net: NetworkView, cz: Seq<ZoneID>, a: int, b: int, c: int)
    ensures
        linked(net, cz, a, a),
        linked(net, cz, a, b) == linked(net, cz, b, a),
        linked(net, cz, a, b) && linked(net, cz, b, c) ==> linked(net, cz, a, c),
{
    if linked(net, cz, a, b) && linked(net, cz, b, c) && a != b && b != c && a != c {
        let na = net.zone_centroids[cz[a]];
        let nb = net.zone_centroids[cz[b]];
        let nc = net.zone_centroids[cz[c]];
        lemma_reaches_trans(net, na, nb, nc);
        lemma_reaches_trans(net, nc, nb, na);
    }
}

/// Positions with the same root are linked.
pub open spec fn roots_sound(net: NetworkView, cz: Seq<ZoneID>, parent: Seq<usize>, rank: Seq<usize>) -> bool {
    forall|a: int, b: int|
        0 <= a < cz.len() && 0 <= b < cz.len() && #[trigger] uf_root(parent, rank, a) == #[trigger] uf_root(
            parent,
            rank,
            b,
        ) ==> linked(net, cz, a, b)
}

/// Linked pairs `a < b` before the pair `(i, j)` share a root.
pub open spec fn roots_complete(
    net: NetworkView,
    cz: Seq<ZoneID>,
    parent: Seq<usize>,
    rank: Seq<usize>,
    i: int,
    j: int,
) -> bool {
    forall|a: int, b: int|
        0 <= a < b < cz.len() && (a < i || (a == i && b < j)) && #[trigger] linked(net, cz, a, b) ==> uf_root(
            parent,
            rank,
            a,
        ) == uf_root(parent, rank, b)
}

proof fn lemma_merge_step(
    net: NetworkView,
    cz: Seq<ZoneID>,
    p0: Seq<usize>,
    r0: Seq<usize>,
    p3: Seq<usize>,
    r3: Seq<usize>,
    i: int,
    j: int,
)
    requires
        0 <= i < j < cz.len(),
        p0.len() == cz.len(),
        p3.len() == cz.len(),
        uf_wf(p0, r0),
        uf_wf(p3, r3),
        roots_sound(net, cz, p0, r0),
        roots_complete(net, cz, p0, r0, i, j),
        merged_roots(p0, r0, p3, r3, i, j),
        linked(net, cz, i, j),
    ensures
        roots_sound(net, cz, p3, r3),
        roots_complete(net, cz, p3, r3, i, j + 1),
{
    reveal(merged_roots);
    let ri = uf_root(p0, r0, i);
    let rj = uf_root(p0, r0, j);
    assert forall|a: int, b: int|
        0 <= a < cz.len() && 0 <= b < cz.len() && #[trigger] uf_root(p3, r3, a) == #[trigger] uf_root(
            p3,
            r3,
            b,
        ) implies linked(net, cz, a, b) by {
        let ina = uf_root(p0, r0, a) == ri || uf_root(p0, r0, a) == rj;
        let inb = uf_root(p0, r0, b) == ri || uf_root(p0, r0, b) == rj;
        if ina && inb {
            // a ~ i or j, b ~ i or j, and i ~ j
            lemma_linked_equiv(net, cz, a, i, j);
            lemma_linked_equiv(net, cz, a, j, i);
            lemma_linked_equiv(net, cz, i, j, b);
            lemma_linked_equiv(net, cz, j, i, b);
            lemma_linked_equiv(net, cz, a, i, b);
            lemma_linked_equiv(net, cz, a, j, b);
            lemma_linked_equiv(net, cz, i, b, a);
            lemma_linked_equiv(net, cz, j, b, a);
            assert(uf_root(p0, r0, a) == ri ==> linked(net, cz, a, i));
            assert(uf_root(p0, r0, a) == rj ==> linked(net, cz, a, j));
            assert(uf_root(p0, r0, b) == ri ==> linked(net, cz, i, b));
            assert(uf_root(p0, r0, b) == rj ==> linked(net, cz, j, b));
        } else if !ina && !inb {
        } else {
            assert(false);
        }
    }
    assert forall|a: int, b: int|
        0 <= a < b < cz.len() && (a < i || (a == i && b < j + 1)) && #[trigger] linked(net, cz, a, b) implies uf_root(
            p3,
            r3,
            a,
        ) == uf_root(p3, r3, b) by {
        if a == i && b == j {
        } else {
            assert(uf_root(p0, r0, a) == uf_root(p0, r0, b));
        }
    }
}

/// The reach matrix: entry `[a][b]` tells whether the centroid of
/// position `b` is reached from that of position `a`.
fn reach_matrix(network: &Network, cz: &Vec<ZoneID>, cn: &Vec<NodeID>) -> (m: Vec<Vec<bool>>)
    requires
        cn@.len() == cz@.len(),
        forall|k: int|
            0 <= k < cz@.len() ==> network@.zone_centroids.contains_key(#[trigger] cz@[k]) && cn@[k]
                == network@.zone_centroids[cz@[k]],
    ensures
        m@.len() == cz@.len(),
        forall|a: int| 0 <= a < cz@.len() ==> (#[trigger] m@[a])@.len() == cz@.len(),
        forall|a: int, b: int|
            0 <= a < cz@.len() && 0 <= b < cz@.len() ==> #[trigger] m@[a]@[b] == recorded_reach(
                network@,
                cz@,
                a,
                b,
            ),
{
    let mut m: Vec<Vec<bool>> = Vec::new();
    for a in 0..cn.len()
        invariant
            m@.len() == a,
            cn@.len() == cz@.len(),
            forall|k: int|
                0 <= k < cz@.len() ==> network@.zone_centroids.contains_key(#[trigger] cz@[k])
                    && cn@[k] == network@.zone_centroids[cz@[k]],
            forall|x: int| 0 <= x < a ==> (#[trigger] m@[x])@.len() == cz@.len(),
            forall|x: int, b: int|
                0 <= x < a && 0 <= b < cz@.len() ==> #[trigger] m@[x]@[b] == recorded_reach(
                    network@,
                    cz@,
                    x,
                    b,
                ),
    {
        let row = reach_row(network, cz, cn, a);
        m.push(row);
    }
    m
}

/// Union-find over the centroid positions in which two positions share
/// a root exactly when they are linked.
fn merge_linked(network: &Network, cz: &Vec<ZoneID>, reach: &Vec<Vec<bool>>) -> (r: (Vec<usize>, Vec<usize>))
    requires
        reach@.len() == cz@.len(),
        forall|a: int| 0 <= a < cz@.len() ==> (#[trigger] reach@[a])@.len() == cz@.len(),
        forall|a: int, b: int|
            0 <= a < cz@.len() && 0 <= b < cz@.len() ==> #[trigger] reach@[a]@[b] == recorded_reach(
                network@,
                cz@,
                a,
                b,
            ),
    ensures
        uf_wf(r.0@, r.1@),
        r.0@.len() == cz@.len(),
        forall|a: int, b: int|
            0 <= a < cz@.len() && 0 <= b < cz@.len() ==> (uf_root(r.0@, r.1@, a) == uf_root(r.0@, r.1@, b)
                <==> linked(network@, cz@, a, b)),
{
    let n = cz.len();
    let mut parent: Vec<usize> = Vec::new();
    let mut rank: Vec<usize> = Vec::new();
    for i in 0..n
        invariant
            parent@ == singletons(i as int),
            rank@ == zero_ranks(i as int),
    {
        parent.push(i);
        rank.push(0);
        proof {
            assert(parent@ =~= singletons(i + 1));
            assert(rank@ =~= zero_ranks(i + 1));
        }
    }
    proof {
        lemma_singletons(n as int);
        assert forall|a: int, b: int|
            0 <= a < cz@.len() && 0 <= b < cz@.len() && #[trigger] uf_root(parent@, rank@, a) == #[trigger] uf_root(
                parent@,
                rank@,
                b,
            ) implies linked(network@, cz@, a, b) by {
            assert(uf_root(parent@, rank@, a) == a);
            assert(uf_root(parent@, rank@, b) == b);
        }
    }
    for i in 0..n
        invariant
            n == cz@.len(),
            reach@.len() == cz@.len(),
            forall|a: int| 0 <= a < cz@.len() ==> (#[trigger] reach@[a])@.len() == cz@.len(),
            forall|a: int, b: int|
                0 <= a < cz@.len() && 0 <= b < cz@.len() ==> #[trigger] reach@[a]@[b] == recorded_reach(
                    network@,
                    cz@,
                    a,
                    b,
                ),
            uf_wf(parent@, rank@),
            parent@.len() == n,
            roots_sound(network@, cz@, parent@, rank@),
            roots_complete(network@, cz@, parent@, rank@, i as int, i + 1),
    {
        for j in (i + 1)..n
            invariant
                n == cz@.len(),
                i < n,
                reach@.len() == cz@.len(),
                forall|a: int| 0 <= a < cz@.len() ==> (#[trigger] reach@[a])@.len() == cz@.len(),
                forall|a: int, b: int|
                    0 <= a < cz@.len() && 0 <= b < cz@.len() ==> #[trigger] reach@[a]@[b]
                        == recorded_reach(network@, cz@, a, b),
                uf_wf(parent@, rank@),
                parent@.len() == n,
                roots_sound(network@, cz@, parent@, rank@),
                roots_complete(network@, cz@, parent@, rank@, i as int, j as int),
        {
            let ghost p0 = parent@;
            let ghost r0 = rank@;
            if reach[i][j] && reach[j][i] {
                uf_union(&mut parent, &mut rank, i, j);
                proof {
                    lemma_merge_step(network@, cz@, p0, r0, parent@, rank@, i as int, j as int);
                }
            } else {
                proof {
                    assert(!linked(network@, cz@, i as int, j as int));
                }
            }
        }
        proof {
            assert forall|a: int, b: int|
                0 <= a < b < cz@.len() && (a < i + 1 || (a == i + 1 && b < i + 2)) && #[trigger] linked(
                    network@,
                    cz@,
                    a,
                    b,
                ) implies uf_root(parent@, rank@, a) == uf_root(parent@, rank@, b) by {
                assert(a < i || (a == i && b < n));
            }
        }
    }
    proof {
        assert forall|a: int, b: int|
            0 <= a < cz@.len() && 0 <= b < cz@.len() implies (uf_root(parent@, rank@, a) == uf_root(
                parent@,
                rank@,
                b,
            ) <==> linked(network@, cz@, a, b)) by {
            lemma_linked_equiv(network@, cz@, a, b, a);
            if a < b {
                assert(a < n);
            } else if b < a {
                assert(b < n);
            }
        }
    }
    (parent, rank)
}

/// `order` lists each position of `0..cz.len()` exactly once, in
/// non-decreasing order of zone ID.
pub open spec fn sorted_positions(cz: Seq<ZoneID>, order: Seq<usize>) -> bool {
    &&& order.len() == cz.len()
    &&& forall|t: int| 0 <= t < order.len() ==> (#[trigger] order[t] as int) < cz.len()
    &&& order.no_duplicates()
    &&& forall|k: usize| (k as int) < cz.len() ==> #[trigger] order.contains(k)
    &&& forall|t1: int, t2: int|
        0 <= t1 < t2 < order.len() ==> cz[#[trigger] order[t1] as int] <= cz[#[trigger] order[t2] as int]
}

/// The zone IDs of the positions of `order` whose label is `c`, in the order of `order`.
pub open spec fn labelled_zones(cz: Seq<ZoneID>, order: Seq<usize>, label: Seq<int>, c: int) -> Seq<
    ZoneID,
>
    decreases order.len(),
{
    if order.len() == 0 {
        Seq::empty()
    } else {
        let before = labelled_zones(cz, order.drop_last(), label, c);
        if label[order.last() as int] == c {
            before.push(cz[order.last() as int])
        } else {
            before
        }
    }
}

/// `comps` splits the centroid positions into the classes of `linked`:
/// `label` names the component of each position, each component lists
/// the zone IDs of its positions in the order of `order` (so ascending),
/// no component is empty, and the components are ordered by their first
/// zone ID.
pub open spec fn is_component_split(
    net: NetworkView,
    cz: Seq<ZoneID>,
    comps: Seq<Seq<ZoneID>>,
    order: Seq<usize>,
    label: Seq<int>,
) -> bool {
    &&& sorted_positions(cz, order)
    &&& label.len() == cz.len()
    &&& forall|k: int| 0 <= k < cz.len() ==> 0 <= #[trigger] label[k] < comps.len()
    &&& forall|a: int, b: int|
        0 <= a < cz.len() && 0 <= b < cz.len() ==> (#[trigger] label[a] == #[trigger] label[b] <==> linked(
            net,
            cz,
            a,
            b,
        ))
    &&& forall|c: int| 0 <= c < comps.len() ==> #[trigger] comps[c] == labelled_zones(cz, order, label, c)
    &&& forall|c: int| 0 <= c < comps.len() ==> (#[trigger] comps[c]).len() > 0
    &&& forall|c1: int, c2: int| 0 <= c1 < c2 < comps.len() ==> (#[trigger] comps[c1])[0] <= (#[trigger] comps[c2])[0]
}

/// The positions of the centroid list, sorted by zone ID.
fn sort_positions(cz: &Vec<ZoneID>) -> (order: Vec<usize>)
    ensures
        sorted_positions(cz@, order@),
{
    let n = cz.len();
    let mut order: Vec<usize> = Vec::new();
    for i in 0..n
        invariant
            order@ == Seq::new(i as nat, |k: int| k as usize),
    {
        order.push(i);
        proof {
            assert(order@ =~= Seq::new((i + 1) as nat, |k: int| k as usize));
        }
    }
    proof {
        assert forall|k: usize| (k as int) < cz@.len() implies #[trigger] order@.contains(k) by {
            assert(order@[k as int] == k);
        }
    }
    let mut i: usize = 1;
    while i < n
        invariant
            n == cz@.len(),
            order@.len() == n,
            forall|t: int| 0 <= t < order@.len() ==> (#[trigger] order@[t] as int) < n,
            order@.no_duplicates(),
            forall|k: usize| k < n ==> #[trigger] order@.contains(k),
            forall|t1: int, t2: int|
                0 <= t1 < t2 < i && t2 < n ==> cz@[#[trigger] order@[t1] as int] <= cz@[#[trigger] order@[t2] as int],
        decreases n - i,
    {
        let mut j: usize = i;
        while j > 0 && cz[order[j - 1]] > cz[order[j]]
            invariant
                n == cz@.len(),
                0 <= j <= i < n,
                order@.len() == n,
                forall|t: int| 0 <= t < order@.len() ==> (#[trigger] order@[t] as int) < n,
                order@.no_duplicates(),
                forall|k: usize| k < n ==> #[trigger] order@.contains(k),
                forall|t1: int, t2: int|
                    0 <= t1 < t2 <= i && t1 != j && t2 != j ==> cz@[#[trigger] order@[t1] as int]
                        <= cz@[#[trigger] order@[t2] as int],
                forall|t2: int| j < t2 <= i ==> cz@[order@[j as int] as int] <= cz@[#[trigger] order@[t2] as int],
            decreases j,
        {
            let ghost before = order@;
            let a = order[j - 1];
            let b = order[j];
            order.set(j - 1, b);
            order.set(j, a);
            proof {
                assert(order@ == before.update(j - 1, b).update(j as int, a));
                assert forall|k: usize| k < n implies #[trigger] order@.contains(k) by {
                    assert(before.contains(k));
                    let t = choose|t: int| 0 <= t < before.len() && before[t] == k;
                    if t == j - 1 {
                        assert(order@[j as int] == k);
                    } else if t == j {
                        assert(order@[j - 1] == k);
                    } else {
                        assert(order@[t] == k);
                    }
                }
                assert forall|t1: int, t2: int| 0 <= t1 < t2 < order@.len() implies order@[t1] != order@[t2] by {
                    let o1 = if t1 == j - 1 { j as int } else if t1 == j { j - 1 } else { t1 };
                    let o2 = if t2 == j - 1 { j as int } else if t2 == j { j - 1 } else { t2 };
                    assert(order@[t1] == before[o1]);
                    assert(order@[t2] == before[o2]);
                }
                assert forall|t1: int, t2: int|
                    0 <= t1 < t2 <= i && t1 != j - 1 && t2 != j - 1 implies cz@[#[trigger] order@[t1] as int]
                        <= cz@[#[trigger] order@[t2] as int] by {
                    let o1 = if t1 == j { j - 1 } else { t1 };
                    let o2 = if t2 == j { j - 1 } else { t2 };
                    assert(order@[t1] == before[o1]);
                    assert(order@[t2] == before[o2]);
                    if t2 == j {
                        assert(cz@[before[t1] as int] <= cz@[before[j - 1] as int]);
                    } else if t1 == j {
                        assert(cz@[before[j - 1] as int] <= cz@[before[t2] as int]);
                    }
                }
            }
            j = j - 1;
        }
        proof {
            assert forall|t1: int, t2: int|
                0 <= t1 < t2 < i + 1 && t2 < n implies cz@[#[trigger] order@[t1] as int]
                    <= cz@[#[trigger] order@[t2] as int] by {
                if t2 == j {
                    if t1 < j - 1 {
                        assert(cz@[order@[t1] as int] <= cz@[order@[j - 1] as int]);
                    }
                }
            }
        }
        i = i + 1;
    }
    order
}

/// The zone IDs of the positions of `prefix` whose root in the forest
/// `(parent, rank)` is `root`, in the order of `prefix`.
pub open spec fn rooted_zones(
    cz: Seq<ZoneID>,
    prefix: Seq<usize>,
    parent: Seq<usize>,
    rank: Seq<usize>,
    root: int,
) -> Seq<ZoneID>
    decreases prefix.len(),
{
    if prefix.len() == 0 {
        Seq::empty()
    } else {
        let before = rooted_zones(cz, prefix.drop_last(), parent, rank, root);
        if uf_root(parent, rank, prefix.last() as int) == root {
            before.push(cz[prefix.last() as int])
        } else {
            before
        }
    }
}

proof fn lemma_rooted_zones_empty(
    cz: Seq<ZoneID>,
    prefix: Seq<usize>,
    parent: Seq<usize>,
    rank: Seq<usize>,
    root: int,
)
    requires
        forall|t: int| 0 <= t < prefix.len() ==> uf_root(parent, rank, #[trigger] prefix[t] as int) != root,
    ensures
        rooted_zones(cz, prefix, parent, rank, root) == Seq::<ZoneID>::empty(),
    decreases prefix.len(),
{
    if prefix.len() > 0 {
        lemma_rooted_zones_empty(cz, prefix.drop_last(), parent, rank, root);
        assert(uf_root(parent, rank, prefix[prefix.len() - 1] as int) != root);
    }
}

proof fn lemma_labelled_is_rooted(
    cz: Seq<ZoneID>,
    prefix: Seq<usize>,
    parent: Seq<usize>,
    rank: Seq<usize>,
    label: Seq<int>,
    c: int,
    root: int,
)
    requires
        forall|t: int|
            0 <= t < prefix.len() ==> (label[#[trigger] prefix[t] as int] == c <==> uf_root(
                parent,
                rank,
                prefix[t] as int,
            ) == root),
    ensures
        labelled_zones(cz, prefix, label, c) == rooted_zones(cz, prefix, parent, rank, root),
    decreases prefix.len(),
{
    if prefix.len() > 0 {
        lemma_labelled_is_rooted(cz, prefix.drop_last(), parent, rank, label, c, root);
        assert(label[prefix[prefix.len() - 1] as int] == c <==> uf_root(
            parent,
            rank,
            prefix[prefix.len() - 1] as int,
        ) == root);
    }
}

/// Walk the positions in `order` and gather the zone IDs of each root
/// into one component, components in order of first appearance.
fn group_components(
    cz: &Vec<ZoneID>,
    order: &Vec<usize>,
    parent: &mut Vec<usize>,
    Ghost(rank): Ghost<Seq<usize>>,
) -> (r: (Vec<Vec<ZoneID>>, Vec<usize>))
    requires
        uf_wf(old(parent)@, rank),
        old(parent)@.len() == cz@.len(),
        sorted_positions(cz@, order@),
    ensures
        r.0@.len() == r.1@.len(),
        r.1@.no_duplicates(),
        forall|c: int|
            0 <= c < r.0@.len() ==> (#[trigger] r.0@[c])@ == rooted_zones(
                cz@,
                order@,
                old(parent)@,
                rank,
                r.1@[c] as int,
            ),
        forall|k: int| 0 <= k < cz@.len() ==> r.1@.contains(#[trigger] uf_root(old(parent)@, rank, k) as usize),
        forall|c: int| 0 <= c < r.1@.len() ==> 0 <= #[trigger] r.1@[c] < cz@.len(),
        forall|c: int| 0 <= c < r.0@.len() ==> (#[trigger] r.0@[c])@.len() > 0,
        forall|c1: int, c2: int|
            0 <= c1 < c2 < r.0@.len() ==> (#[trigger] r.0@[c1])@[0] <= (#[trigger] r.0@[c2])@[0],
{
    let ghost p0 = parent@;
    let n = order.len();
    let mut comps: Vec<Vec<ZoneID>> = Vec::new();
    let mut roots: Vec<usize> = Vec::new();
    proof {
        reveal(same_roots);
    }
    for s in 0..n
        invariant
            n == order@.len(),
            n == cz@.len(),
            sorted_positions(cz@, order@),
            uf_wf(p0, rank),
            uf_wf(parent@, rank),
            parent@.len() == p0.len(),
            p0.len() == cz@.len(),
            same_roots(p0, parent@, rank),
            comps@.len() == roots@.len(),
            roots@.no_duplicates(),
            forall|c: int|
                0 <= c < comps@.len() ==> (#[trigger] comps@[c])@ == rooted_zones(
                    cz@,
                    order@.take(s as int),
                    p0,
                    rank,
                    roots@[c] as int,
                ),
            forall|t: int|
                0 <= t < s ==> roots@.contains(uf_root(p0, rank, #[trigger] order@[t] as int) as usize),
            forall|c: int|
                0 <= c < roots@.len() ==> uf_root(p0, rank, #[trigger] roots@[c] as int) == roots@[c] as int,
            forall|c: int| 0 <= c < roots@.len() ==> 0 <= #[trigger] roots@[c] < cz@.len(),
            forall|c: int| 0 <= c < comps@.len() ==> (#[trigger] comps@[c])@.len() > 0,
            forall|c: int, t: int|
                0 <= c < comps@.len() && s <= t < n ==> (#[trigger] comps@[c])@[0] <= cz@[#[trigger] order@[t] as int],
            forall|c1: int, c2: int|
                0 <= c1 < c2 < comps@.len() ==> (#[trigger] comps@[c1])@[0] <= (#[trigger] comps@[c2])@[0],
    {
        let i = order[s];
        let ghost pb = parent@;
        let r = uf_find(parent, i, Ghost(rank));
        proof {
            lemma_same_roots_trans(p0, pb, parent@, rank);
            reveal(same_roots);
            assert(r as int == uf_root(p0, rank, i as int));
            lemma_root_is_root(p0, rank, i as int);
            lemma_root_is_root(p0, rank, r as int);
        }
        let mut c: usize = 0;
        while c < roots.len() && roots[c] != r
            invariant
                c <= roots@.len(),
                forall|c2: int| 0 <= c2 < c ==> roots@[c2] != r,
            decreases roots@.len() - c,
        {
            c = c + 1;
        }
        let ghost comps_before = comps@;
        let ghost roots_before = roots@;
        let z = cz[i];
        proof {
            assert(order@.take(s + 1).drop_last() =~= order@.take(s as int));
            assert(order@.take(s + 1).last() == i);
        }
        if c < roots.len() {
            comps[c].push(z);
            proof {
                assert forall|c2: int|
                    0 <= c2 < comps@.len() implies (#[trigger] comps@[c2])@ == rooted_zones(
                        cz@,
                        order@.take(s + 1),
                        p0,
                        rank,
                        roots@[c2] as int,
                    ) by {
                    if c2 != c {
                        assert(roots@[c2] != roots@[c as int]);
                        assert(comps@[c2] == comps_before[c2]);
                    }
                }
                assert forall|c2: int, t: int|
                    0 <= c2 < comps@.len() && s + 1 <= t < n implies (#[trigger] comps@[c2])@[0]
                        <= cz@[#[trigger] order@[t] as int] by {
                    assert(comps@[c2]@[0] == comps_before[c2]@[0]);
                }
                assert forall|c1: int, c2: int|
                    0 <= c1 < c2 < comps@.len() implies (#[trigger] comps@[c1])@[0] <= (#[trigger] comps@[c2])@[0] by {
                    assert(comps@[c1]@[0] == comps_before[c1]@[0]);
                    assert(comps@[c2]@[0] == comps_before[c2]@[0]);
                }
                assert forall|t: int|
                    0 <= t < s + 1 implies roots@.contains(uf_root(p0, rank, #[trigger] order@[t] as int) as usize) by {
                    if t == s {
                        assert(roots@[c as int] == r);
                    }
                }
            }
        } else {
            proof {
                assert(!roots@.contains(r));
                assert forall|t: int| 0 <= t < order@.take(s as int).len() implies uf_root(
                    p0,
                    rank,
                    #[trigger] order@.take(s as int)[t] as int,
                ) != r as int by {
                    assert(order@.take(s as int)[t] == order@[t]);
                    assert(roots@.contains(uf_root(p0, rank, order@[t] as int) as usize));
                }
                lemma_rooted_zones_empty(cz@, order@.take(s as int), p0, rank, r as int);
            }
            roots.push(r);
            let mut single: Vec<ZoneID> = Vec::new();
            single.push(z);
            comps.push(single);
            proof {
                assert(comps@[comps@.len() - 1]@ =~= seq![z]);
                assert forall|c2: int|
                    0 <= c2 < comps@.len() implies (#[trigger] comps@[c2])@ == rooted_zones(
                        cz@,
                        order@.take(s + 1),
                        p0,
                        rank,
                        roots@[c2] as int,
                    ) by {
                    if c2 < comps_before.len() {
                        assert(roots@[c2] != r);
                        assert(comps@[c2] == comps_before[c2]);
                    } else {
                        assert(rooted_zones(cz@, order@.take(s + 1), p0, rank, r as int) =~= seq![z]);
                    }
                }
                assert forall|c2: int| 0 <= c2 < comps@.len() implies (#[trigger] comps@[c2])@.len() > 0 by {
                    if c2 < comps_before.len() {
                        assert(comps@[c2] == comps_before[c2]);
                    }
                }
                assert forall|c2: int, t: int|
                    0 <= c2 < comps@.len() && s + 1 <= t < n implies (#[trigger] comps@[c2])@[0]
                        <= cz@[#[trigger] order@[t] as int] by {
                    assert(cz@[order@[s as int] as int] <= cz@[order@[t] as int]);
                    if c2 < comps_before.len() {
                        assert(comps@[c2] == comps_before[c2]);
                        assert(comps_before[c2]@[0] <= cz@[order@[s as int] as int]);
                    }
                }
                assert forall|c1: int, c2: int|
                    0 <= c1 < c2 < comps@.len() implies (#[trigger] comps@[c1])@[0] <= (#[trigger] comps@[c2])@[0] by {
                    assert(comps@[c1] == comps_before[c1]);
                    if c2 < comps_before.len() {
                        assert(comps@[c2] == comps_before[c2]);
                    } else {
                        assert(comps_before[c1]@[0] <= cz@[order@[s as int] as int]);
                    }
                }
                assert forall|t: int|
                    0 <= t < s + 1 implies roots@.contains(uf_root(p0, rank, #[trigger] order@[t] as int) as usize) by {
                    if t == s {
                        assert(roots@[roots@.len() - 1] == r);
                    } else {
                        let u = uf_root(p0, rank, order@[t] as int) as usize;
                        assert(roots_before.contains(u));
                        let w = choose|w: int| 0 <= w < roots_before.len() && roots_before[w] == u;
                        assert(roots@[w] == u);
                    }
                }
                assert(roots@.no_duplicates()) by {
                    assert forall|a: int, b: int| 0 <= a < b < roots@.len() implies roots@[a] != roots@[b] by {
                        if b == roots@.len() - 1 {
                            assert(roots_before.contains(roots@[a]) ==> roots@[a] != r);
                            assert(roots@[a] == roots_before[a]);
                        } else {
                            assert(roots@[a] == roots_before[a]);
                            assert(roots@[b] == roots_before[b]);
                        }
                    }
                }
                assert forall|c2: int| 0 <= c2 < roots@.len() implies uf_root(p0, rank, #[trigger] roots@[c2] as int) == roots@[c2] as int by {
                    if c2 < roots_before.len() {
                        assert(roots@[c2] == roots_before[c2]);
                    }
                }
            }
        }
    }
    proof {
        assert(order@.take(n as int) =~= order@);
        assert forall|k: int| 0 <= k < cz@.len() implies roots@.contains(#[trigger] uf_root(p0, rank, k) as usize) by {
            assert(order@.contains(k as usize));
            let t = choose|t: int| 0 <= t < order@.len() && order@[t] == k as usize;
            assert(roots@.contains(uf_root(p0, rank, order@[t] as int) as usize));
        }
    }
    (comps, roots)
}

proof fn lemma_labelled_contains(cz: Seq<ZoneID>, order: Seq<usize>, label: Seq<int>, t: int)
    requires
        0 <= t < order.len(),
    ensures
        labelled_zones(cz, order, label, label[order[t] as int]).contains(cz[order[t] as int]),
    decreases order.len(),
{
    let c = label[order[t] as int];
    if t == order.len() - 1 {
        let l = labelled_zones(cz, order, label, c);
        assert(l[l.len() - 1] == cz[order[t] as int]);
    } else {
        let rest = order.drop_last();
        assert(rest[t] == order[t]);
        lemma_labelled_contains(cz, rest, label, t);
        let before = labelled_zones(cz, rest, label, c);
        let j = choose|j: int| 0 <= j < before.len() && before[j] == cz[order[t] as int];
        assert(labelled_zones(cz, order, label, c)[j] == before[j]);
    }
}

proof fn lemma_labelled_members(cz: Seq<ZoneID>, order: Seq<usize>, label: Seq<int>, c: int, j: int)
    requires
        0 <= j < labelled_zones(cz, order, label, c).len(),
    ensures
        exists|t: int|
            0 <= t < order.len() && label[order[t] as int] == c && cz[#[trigger] order[t] as int]
                == labelled_zones(cz, order, label, c)[j],
    decreases order.len(),
{
    let rest = order.drop_last();
    let before = labelled_zones(cz, rest, label, c);
    if j < before.len() {
        lemma_labelled_members(cz, rest, label, c, j);
        let t = choose|t: int|
            0 <= t < rest.len() && label[rest[t] as int] == c && cz[#[trigger] rest[t] as int]
                == before[j];
        assert(order[t] == rest[t]);
    } else {
        let t = order.len() - 1;
        assert(cz[order[t] as int] == labelled_zones(cz, order, label, c)[j]);
    }
}

/// Zone `z` is the zone of some centroid position with label `c`.
pub open spec fn zone_has_label(cz: Seq<ZoneID>, label: Seq<int>, c: int, z: ZoneID) -> bool {
    exists|k: int| 0 <= k < cz.len() && label[k] == c && #[trigger] cz[k] == z
}

/// The components partition the centroid zones: each zone is listed in
/// the component of its label, and every listed zone is a centroid zone
/// carrying that component's label.
pub proof fn law_components_cover(
    net: NetworkView,
    cz: Seq<ZoneID>,
    comps: Seq<Seq<ZoneID>>,
    order: Seq<usize>,
    label: Seq<int>,
)
    requires
        cz.len() <= usize::MAX,
        is_component_split(net, cz, comps, order, label),
    ensures
        forall|k: int| 0 <= k < cz.len() ==> #[trigger] comps[label[k]].contains(cz[k]),
        forall|c: int, j: int|
            0 <= c < comps.len() && 0 <= j < comps[c].len() ==> zone_has_label(
                cz,
                label,
                c,
                #[trigger] comps[c][j],
            ),
{
    assert forall|k: int| 0 <= k < cz.len() implies #[trigger] comps[label[k]].contains(cz[k]) by {
        assert(order.contains(k as usize));
        let t = choose|t: int| 0 <= t < order.len() && order[t] == k as usize;
        lemma_labelled_contains(cz, order, label, t);
        assert(comps[label[k]] == labelled_zones(cz, order, label, label[k]));
    }
    assert forall|c: int, j: int| 0 <= c < comps.len() && 0 <= j < comps[c].len() implies zone_has_label(
        cz,
        label,
        c,
        #[trigger] comps[c][j],
    ) by {
        assert(comps[c] == labelled_zones(cz, order, label, c));
        lemma_labelled_members(cz, order, label, c, j);
        let t = choose|t: int|
            0 <= t < order.len() && label[order[t] as int] == c && cz[#[trigger] order[t] as int]
                == labelled_zones(cz, order, label, c)[j];
        let k = order[t] as int;
        assert(0 <= k < cz.len());
        assert(cz[k] == comps[c][j]);
    }
}

/// Zone `z` is listed in one of the components.
pub open spec fn listed(comps: Seq<Seq<ZoneID>>, z: ZoneID) -> bool {
    exists|c: int| 0 <= c < comps.len() && #[trigger] comps[c].contains(z)
}

/// A split of the centroid list lists exactly its zones.
pub proof fn lemma_split_lists_exactly(
    net: NetworkView,
    cz: Seq<ZoneID>,
    comps: Seq<Seq<ZoneID>>,
    order: Seq<usize>,
    label: Seq<int>,
    z: ZoneID,
)
    requires
        cz.len() <= usize::MAX,
        is_component_split(net, cz, comps, order, label),
    ensures
        listed(comps, z) <==> cz.contains(z),
{
    law_components_cover(net, cz, comps, order, label);
    if cz.contains(z) {
        let k = choose|k: int| 0 <= k < cz.len() && cz[k] == z;
        assert(comps[label[k]].contains(cz[k]));
    }
    if listed(comps, z) {
        let c = choose|c: int| 0 <= c < comps.len() && #[trigger] comps[c].contains(z);
        let j = choose|j: int| 0 <= j < comps[c].len() && comps[c][j] == z;
        assert(zone_has_label(cz, label, c, comps[c][j]));
        let k = choose|k: int| 0 <= k < cz.len() && label[k] == c && #[trigger] cz[k] == comps[c][j];
        assert(cz[k] == z);
    }
}

/// The zone IDs of the components as sequences.
pub open spec fn component_views(components: Seq<Vec<ZoneID>>) -> Seq<Seq<ZoneID>> {
    components.map_values(|c: Vec<ZoneID>| c@)
}

/// Partition the zone centroids into strongly-connected components.
///
/// Two zones belong together when each centroid reaches the other along
/// links. Each component lists its zone IDs in ascending order and the
/// components come in ascending order of their smallest zone ID. Zones
/// without a centroid are left out. With fewer than two centroids the
/// result is a single list holding the zones that have one (empty when
/// none has).
pub fn zone_scc(network: &Network, zone_ids: &[ZoneID]) -> (components: Vec<Vec<ZoneID>>)
    ensures
        centroid_zones(network@, zone_ids@).len() <= 1 ==> components@.len() == 1 && components@[0]@
            == centroid_zones(network@, zone_ids@),
        centroid_zones(network@, zone_ids@).len() >= 2 ==> exists|order: Seq<usize>, label: Seq<int>|
            is_component_split(
                network@,
                centroid_zones(network@, zone_ids@),
                component_views(components@),
                order,
                label,
            ),
        forall|z: ZoneID|
            listed(component_views(components@), z) <==> (zone_ids@.contains(z)
                && network@.zone_centroids.contains_key(z)),
{
    let (cz, cn) = collect_centroids(network, zone_ids);
    let n = cz.len();
    if n <= 1 {
        let mut result: Vec<Vec<ZoneID>> = Vec::new();
        result.push(cz);
        proof {
            let views = component_views(result@);
            assert forall|z: ZoneID|
                listed(views, z) <==> (zone_ids@.contains(z) && network@.zone_centroids.contains_key(z)) by {
                law_centroid_zones_members(network@, zone_ids@, z);
                if listed(views, z) {
                    let c = choose|c: int| 0 <= c < views.len() && #[trigger] views[c].contains(z);
                    assert(c == 0);
                }
                if centroid_zones(network@, zone_ids@).contains(z) {
                    assert(views[0].contains(z));
                }
            }
        }
        return result;
    }
    let reach = reach_matrix(network, &cz, &cn);
    let (mut parent, rank) = merge_linked(network, &cz, &reach);
    let ghost p0 = parent@;
    let order = sort_positions(&cz);
    let (comps, roots) = group_components(&cz, &order, &mut parent, Ghost(rank@));
    proof {
        let net = network@;
        let czs = cz@;
        let r = rank@;
        let views = component_views(comps@);
        let label = Seq::new(
            n as nat,
            |k: int| choose|c: int| 0 <= c < roots@.len() && roots@[c] == uf_root(p0, r, k) as usize,
        );
        assert forall|k: int| 0 <= k < n implies 0 <= #[trigger] label[k] < roots@.len() && roots@[label[k]]
            == uf_root(p0, r, k) as usize by {
            assert(roots@.contains(uf_root(p0, r, k) as usize));
        }
        assert forall|k: int| 0 <= k < n implies 0 <= #[trigger] uf_root(p0, r, k) < n by {
            lemma_root_is_root(p0, r, k);
        }
        assert forall|a: int, b: int|
            0 <= a < n && 0 <= b < n implies (#[trigger] label[a] == #[trigger] label[b] <==> linked(
                net,
                czs,
                a,
                b,
            )) by {
            assert(0 <= uf_root(p0, r, a) < n);
            assert(0 <= uf_root(p0, r, b) < n);
            if label[a] == label[b] {
                assert(uf_root(p0, r, a) as usize == uf_root(p0, r, b) as usize);
            } else {
                assert(roots@[label[a]] != roots@[label[b]]);
            }
        }
        assert forall|c: int| 0 <= c < views.len() implies #[trigger] views[c] == labelled_zones(
            czs,
            order@,
            label,
            c,
        ) by {
            assert forall|t: int| 0 <= t < order@.len() implies (label[#[trigger] order@[t] as int] == c
                <==> uf_root(p0, r, order@[t] as int) == roots@[c] as int) by {
                let k = order@[t] as int;
                assert(0 <= uf_root(p0, r, k) < n);
                assert(roots@[label[k]] == uf_root(p0, r, k) as usize);
                if label[k] != c {
                    assert(roots@[label[k]] != roots@[c]);
                }
            }
            lemma_labelled_is_rooted(czs, order@, p0, r, label, c, roots@[c] as int);
        }
        assert forall|c1: int, c2: int| 0 <= c1 < c2 < views.len() implies (#[trigger] views[c1])[0] <= (
        #[trigger] views[c2])[0] by {
            assert(comps@[c1]@[0] <= comps@[c2]@[0]);
        }
        assert forall|c: int| 0 <= c < views.len() implies (#[trigger] views[c]).len() > 0 by {
            assert(comps@[c]@.len() > 0);
        }
        assert(is_component_split(net, czs, views, order@, label));
        assert forall|z: ZoneID|
            listed(views, z) <==> (zone_ids@.contains(z) && net.zone_centroids.contains_key(z)) by {
            law_centroid_zones_members(net, zone_ids@, z);
            lemma_split_lists_exactly(net, czs, views, order@, label, z);
        }
    }
    comps
}

} // verus!
