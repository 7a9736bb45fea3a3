//! Compact graph in CSR (compressed sparse row) form.
//!
//! Node and link IDs are mapped to dense indices `0..N` and `0..E`; the
//! outgoing edges of node `u` are `edges[row_ptr[u]..row_ptr[u + 1]]`.
//! Built once from a `Network` before assignment starts. Which index a
//! node or link receives follows the iteration order of the network's
//! maps; the contracts hold for every such order.
use std::collections::HashMap;

use vstd::prelude::*;
use vstd::slice::slice_subrange;
use vstd::std_specs::iter::IteratorSpec;

use crate::gmns::meso::network::{Network, NetworkView};
use crate::gmns::types::{LinkID, NodeID, ZoneID};
use crate::sorted_ids::{insert_sorted_unique, key_list, strictly_sorted};

verus! {

broadcast use vstd::std_specs::hash::group_hash_axioms;

/// The edges `(target, link)` of the links `0..k` whose source is `u`,
/// in increasing link order.
pub open spec fn row_of(src: Seq<usize>, tgt: Seq<usize>, u: int, k: int) -> Seq<(usize, usize)>
    decreases k,
{
    if k <= 0 {
        Seq::empty()
    } else {
        let before = row_of(src, tgt, u, k - 1);
        if src[k - 1] as int == u {
            before.push((tgt[k - 1], (k - 1) as usize))
        } else {
            before
        }
    }
}

/// The keys of `seq` numbered by position: `m` maps `seq[j]` to `j`.
pub open spec fn numbers(m: Map<i64, usize>, seq: Seq<i64>) -> bool {
    &&& seq.no_duplicates()
    &&& m.dom() == seq.to_set()
    &&& forall|j: int| 0 <= j < seq.len() ==> #[trigger] m[seq[j]] == j
}

/// `m` numbers the keys `keys` densely: each key gets its own index
/// below the number of keys, and every such index is used.
pub open spec fn dense_numbering(m: Map<i64, usize>, keys: Set<i64>) -> bool {
    &&& m.dom() == keys
    &&& forall|k: i64| #[trigger] m.contains_key(k) ==> (m[k] as int) < keys.len()
    &&& forall|a: i64, b: i64|
        #[trigger] m.contains_key(a) && #[trigger] m.contains_key(b) && m[a] == m[b] ==> a == b
    &&& forall|i: int| 0 <= i < keys.len() ==> #[trigger] index_used(m, i)
}

/// Some key of `m` has index `i`.
pub open spec fn index_used(m: Map<i64, usize>, i: int) -> bool {
    exists|k: i64| #[trigger] m.contains_key(k) && m[k] == i
}

/// The centroid node index of each zone whose centroid is a node of the
/// network.
pub open spec fn centroid_index(net: NetworkView, node_index: Map<NodeID, usize>) -> Map<
    ZoneID,
    usize,
> {
    Map::new(
        |z: ZoneID|
            net.zone_centroids.contains_key(z) && net.nodes.contains_key(net.zone_centroids[z]),
        |z: ZoneID| node_index[net.zone_centroids[z]],
    )
}

proof fn lemma_numbers_dense(m: Map<i64, usize>, s: Seq<i64>)
    requires
        numbers(m, s),
    ensures
        dense_numbering(m, s.to_set()),
        s.to_set().len() == s.len(),
{
    s.unique_seq_to_set();
    assert forall|k: i64| #[trigger] m.contains_key(k) implies (m[k] as int) < s.to_set().len() by {
        let j = choose|j: int| 0 <= j < s.len() && s[j] == k;
        assert(m[s[j]] == j);
    }
    assert forall|a: i64, b: i64|
        #[trigger] m.contains_key(a) && #[trigger] m.contains_key(b) && m[a] == m[b] implies a
        == b by {
        let ja = choose|j: int| 0 <= j < s.len() && s[j] == a;
        let jb = choose|j: int| 0 <= j < s.len() && s[j] == b;
        assert(m[s[ja]] == ja);
        assert(m[s[jb]] == jb);
    }
    assert forall|i: int| 0 <= i < s.to_set().len() implies #[trigger] index_used(m, i) by {
        assert(m[s[i]] == i);
        assert(s.to_set().contains(s[i]));
    }
}

/// Number the keys of `m` in the order in which the map yields them.
fn number_keys<V>(m: &HashMap<i64, V>) -> (r: (HashMap<i64, usize>, Vec<i64>))
    ensures
        numbers(r.0@, r.1@),
        r.1@.to_set() == m@.dom(),
        r.1@.len() == m@.dom().len(),
{
    let mut index: HashMap<i64, usize> = HashMap::new();
    let mut order: Vec<i64> = Vec::new();
    let total = m.len();
    let keys = m.keys();
    let ghost key_seq = keys.remaining().unref();
    proof {
        assert(key_seq.no_duplicates()) by {
            assert forall|a: int, b: int| 0 <= a < b < key_seq.len() implies key_seq[a]
                != key_seq[b] by {
                assert(keys.remaining()[a] != keys.remaining()[b]);
            }
        }
        assert(order@ =~= key_seq.take(0));
        assert(index@.dom() =~= order@.to_set());
    }
    let mut idx: usize = 0;
    for k in it: keys
        invariant
            key_seq == it.seq().unref(),
            key_seq.no_duplicates(),
            key_seq.len() == m@.dom().len(),
            key_seq.len() == total,
            key_seq.to_set() == m@.dom(),
            idx == it.index(),
            order@ == key_seq.take(it.index()),
            numbers(index@, order@),
    {
        proof {
            assert(idx < key_seq.len());
            assert(*k == key_seq[idx as int]);
        }
        let ghost before = index@;
        let ghost prev = order@;
        index.insert(*k, idx);
        order.push(*k);
        proof {
            let t = key_seq.take(idx + 1);
            assert(order@ =~= t);
            assert(t.no_duplicates()) by {
                assert forall|a: int, b: int| 0 <= a < b < t.len() implies t[a] != t[b] by {
                    assert(t[a] == key_seq[a] && t[b] == key_seq[b]);
                }
            }
            assert(!before.dom().contains(*k)) by {
                if prev.to_set().contains(*k) {
                    let j = choose|j: int| 0 <= j < idx && prev[j] == *k;
                    assert(key_seq[j] == key_seq[idx as int]);
                }
            }
            assert(index@.dom() =~= t.to_set()) by {
                assert forall|x: i64| index@.dom().contains(x) <==> t.to_set().contains(x) by {
                    if x == *k {
                        assert(t[idx as int] == x);
                    } else if prev.to_set().contains(x) {
                        let j = choose|j: int| 0 <= j < idx && prev[j] == x;
                        assert(t[j] == x);
                    } else if t.to_set().contains(x) {
                        let j = choose|j: int| 0 <= j < t.len() && t[j] == x;
                        assert(prev[j] == x);
                    }
                }
            }
            assert forall|j: int| 0 <= j < t.len() implies #[trigger] index@[t[j]] == j by {
                if j < idx {
                    assert(t[j] == prev[j]);
                    assert(t[j] != *k);
                }
            }
        }
        idx = idx + 1;
    }
    proof {
        assert(key_seq.take(key_seq.len() as int) =~= key_seq);
    }
    (index, order)
}


/// The dense indices of the source and of the target node of each link
/// of `order`.
fn link_endpoint_indices(
    network: &Network,
    node_to_idx: &HashMap<NodeID, usize>,
    order: &Vec<LinkID>,
) -> (r: (Vec<usize>, Vec<usize>))
    requires
        network@.endpoints_present(),
        node_to_idx@.dom() == network@.nodes.dom(),
        order@.to_set() == network@.links.dom(),
    ensures
        r.0@.len() == order@.len(),
        r.1@.len() == order@.len(),
        forall|i: int|
            0 <= i < order@.len() ==> #[trigger] r.0@[i] == node_to_idx@[network@.links[order@[i]].source_node_id],
        forall|i: int|
            0 <= i < order@.len() ==> #[trigger] r.1@[i] == node_to_idx@[network@.links[order@[i]].target_node_id],
{
    let mut src: Vec<usize> = Vec::new();
    let mut tgt: Vec<usize> = Vec::new();
    let mut i: usize = 0;
    while i < order.len()
        invariant
            i <= order@.len(),
            src@.len() == i,
            tgt@.len() == i,
            network@.endpoints_present(),
            node_to_idx@.dom() == network@.nodes.dom(),
            order@.to_set() == network@.links.dom(),
            forall|j: int|
                0 <= j < i ==> #[trigger] src@[j] == node_to_idx@[network@.links[order@[j]].source_node_id],
            forall|j: int|
                0 <= j < i ==> #[trigger] tgt@[j] == node_to_idx@[network@.links[order@[j]].target_node_id],
        decreases order@.len() - i,
    {
        let lid = order[i];
        proof {
            assert(order@.to_set().contains(lid));
            assert(network.links@.dom().contains(lid));
        }
        let link = network.links.get(&lid).unwrap();
        proof {
            assert(network@.links[lid] == link@);
            assert(network@.links.contains_key(lid));
        }
        let s = *node_to_idx.get(&link.source_node_id).unwrap();
        let t = *node_to_idx.get(&link.target_node_id).unwrap();
        src.push(s);
        tgt.push(t);
        i = i + 1;
    }
    (src, tgt)
}

proof fn lemma_row_of_bounded(src: Seq<usize>, tgt: Seq<usize>, u: int, k: int, n: int)
    requires
        0 <= k <= src.len(),
        k <= tgt.len(),
        forall|i: int| 0 <= i < k ==> (#[trigger] tgt[i] as int) < n,
    ensures
        forall|j: int|
            0 <= j < row_of(src, tgt, u, k).len() ==> (#[trigger] row_of(src, tgt, u, k)[j].0 as int)
                < n && (row_of(src, tgt, u, k)[j].1 as int) < k,
    decreases k,
{
    if k > 0 {
        lemma_row_of_bounded(src, tgt, u, k - 1, n);
        let before = row_of(src, tgt, u, k - 1);
        assert forall|j: int| 0 <= j < row_of(src, tgt, u, k).len() implies (#[trigger] row_of(
            src,
            tgt,
            u,
            k,
        )[j].0 as int) < n && (row_of(src, tgt, u, k)[j].1 as int) < k by {
            if j < before.len() {
                assert(row_of(src, tgt, u, k)[j] == before[j]);
            }
        }
    }
}

/// The outgoing edges of each node `0..n`, in increasing link order.
fn bucket_edges(n: usize, src: &Vec<usize>, tgt: &Vec<usize>) -> (rows: Vec<Vec<(usize, usize)>>)
    requires
        src@.len() == tgt@.len(),
        forall|i: int| 0 <= i < src@.len() ==> (#[trigger] src@[i] as int) < n,
    ensures
        rows@.len() == n,
        forall|u: int| 0 <= u < n ==> (#[trigger] rows@[u])@ == row_of(src@, tgt@, u, src@.len() as int),
{
    let mut rows: Vec<Vec<(usize, usize)>> = Vec::new();
    let mut u: usize = 0;
    while u < n
        invariant
            u <= n,
            rows@.len() == u,
            forall|v: int| 0 <= v < u ==> (#[trigger] rows@[v])@ == Seq::<(usize, usize)>::empty(),
        decreases n - u,
    {
        rows.push(Vec::new());
        u = u + 1;
    }
    let mut i: usize = 0;
    while i < src.len()
        invariant
            i <= src@.len(),
            src@.len() == tgt@.len(),
            rows@.len() == n,
            forall|k: int| 0 <= k < src@.len() ==> (#[trigger] src@[k] as int) < n,
            forall|v: int| 0 <= v < n ==> (#[trigger] rows@[v])@ == row_of(src@, tgt@, v, i as int),
        decreases src@.len() - i,
    {
        let s = src[i];
        let ghost before = rows@;
        rows[s].push((tgt[i], i));
        proof {
            assert forall|v: int| 0 <= v < n implies (#[trigger] rows@[v])@ == row_of(
                src@,
                tgt@,
                v,
                i + 1,
            ) by {
                if v != s {
                    assert(rows@[v] == before[v]);
                }
            }
        }
        i = i + 1;
    }
    rows
}

/// Concatenate the rows, recording where each one starts.
fn flatten_rows(rows: &Vec<Vec<(usize, usize)>>) -> (r: (Vec<usize>, Vec<(usize, usize)>))
    ensures
        r.0@.len() == rows@.len() + 1,
        r.0@[0] == 0,
        r.0@[rows@.len() as int] == r.1@.len(),
        forall|u: int, v: int| 0 <= u <= v <= rows@.len() ==> #[trigger] r.0@[u] <= #[trigger] r.0@[v],
        forall|u: int|
            0 <= u < rows@.len() ==> r.0@[u] + (#[trigger] rows@[u])@.len() == r.0@[u + 1],
        forall|u: int, j: int|
            0 <= u < rows@.len() && 0 <= j < rows@[u]@.len() ==> r.1@[r.0@[u] + j] == #[trigger] rows@[u]@[j],
{
    let mut row_ptr: Vec<usize> = Vec::new();
    let mut edges: Vec<(usize, usize)> = Vec::new();
    let mut u: usize = 0;
    while u < rows.len()
        invariant
            u <= rows@.len(),
            row_ptr@.len() == u,
            u == 0 ==> edges@.len() == 0,
            u > 0 ==> row_ptr@[0] == 0,
            u > 0 ==> row_ptr@[u - 1] + rows@[u - 1]@.len() == edges@.len(),
            forall|a: int| 0 <= a < u ==> #[trigger] row_ptr@[a] <= edges@.len(),
            forall|a: int, b: int| 0 <= a <= b < u ==> #[trigger] row_ptr@[a] <= #[trigger] row_ptr@[b],
            forall|a: int| 0 <= a < u - 1 ==> row_ptr@[a] + (#[trigger] rows@[a])@.len() == row_ptr@[a + 1],
            forall|a: int, j: int|
                0 <= a < u && 0 <= j < rows@[a]@.len() ==> edges@[row_ptr@[a] + j] == #[trigger] rows@[a]@[j],
        decreases rows@.len() - u,
    {
        let start = edges.len();
        row_ptr.push(start);
        let row = &rows[u];
        let ghost base = edges@;
        let mut j: usize = 0;
        while j < row.len()
            invariant
                j <= row@.len(),
                start == base.len(),
                edges@.len() == base.len() + j,
                forall|k: int| 0 <= k < base.len() ==> #[trigger] edges@[k] == base[k],
                forall|k: int| 0 <= k < j ==> edges@[start + k] == #[trigger] row@[k],
            decreases row@.len() - j,
        {
            edges.push(row[j]);
            j = j + 1;
        }
        proof {
            assert forall|a: int, k: int|
                0 <= a < u + 1 && 0 <= k < rows@[a]@.len() implies edges@[row_ptr@[a] + k]
                == #[trigger] rows@[a]@[k] by {
                if a < u {
                    assert(row_ptr@[a] + k < base.len());
                    assert(edges@[row_ptr@[a] + k] == base[row_ptr@[a] + k]);
                } else {
                    assert(row@[k] == rows@[a]@[k]);
                }
            }
        }
        u = u + 1;
    }
    let total = edges.len();
    row_ptr.push(total);
    proof {
        if rows@.len() == 0 {
            assert(row_ptr@[0] == 0);
        }
    }
    (row_ptr, edges)
}


/// The centroid node index of each zone of `keys` whose centroid is a
/// node of the network.
spec fn centroid_index_of(net: NetworkView, node_index: Map<NodeID, usize>, keys: Seq<ZoneID>) -> Map<
    ZoneID,
    usize,
> {
    Map::new(
        |z: ZoneID|
            keys.contains(z) && net.zone_centroids.contains_key(z) && net.nodes.contains_key(
                net.zone_centroids[z],
            ),
        |z: ZoneID| node_index[net.zone_centroids[z]],
    )
}

/// Map each zone whose centroid is a node to the centroid's index, and
/// list those zones in ascending order.
fn index_zones(network: &Network, node_to_idx: &HashMap<NodeID, usize>) -> (r: (
    HashMap<ZoneID, usize>,
    Vec<ZoneID>,
))
    requires
        node_to_idx@.dom() == network@.nodes.dom(),
    ensures
        r.0@ == centroid_index(network@, node_to_idx@),
        strictly_sorted(r.1@),
        r.1@.to_set() == r.0@.dom(),
{
    let zones = key_list(&network.zone_centroids);
    let mut zone_map: HashMap<ZoneID, usize> = HashMap::new();
    let mut zone_list: Vec<ZoneID> = Vec::new();
    let mut i: usize = 0;
    proof {
        assert(zone_map@ =~= centroid_index_of(network@, node_to_idx@, zones@.take(0)));
        assert(zone_list@.to_set() =~= zone_map@.dom());
    }
    while i < zones.len()
        invariant
            i <= zones@.len(),
            zones@.to_set() == network@.zone_centroids.dom(),
            node_to_idx@.dom() == network@.nodes.dom(),
            zone_map@ == centroid_index_of(network@, node_to_idx@, zones@.take(i as int)),
            strictly_sorted(zone_list@),
            zone_list@.to_set() == zone_map@.dom(),
        decreases zones@.len() - i,
    {
        let z = zones[i];
        proof {
            assert(zones@.to_set().contains(z));
        }
        let c = *network.zone_centroids.get(&z).unwrap();
        let ghost keys = zones@.take(i + 1);
        proof {
            assert(keys =~= zones@.take(i as int).push(z));
            assert forall|x: ZoneID| keys.contains(x) <==> (zones@.take(i as int).contains(x) || x
                == z) by {
                if keys.contains(x) {
                    let k = choose|k: int| 0 <= k < keys.len() && keys[k] == x;
                    if k < i {
                        assert(zones@.take(i as int)[k] == x);
                    }
                }
                if zones@.take(i as int).contains(x) {
                    let k = choose|k: int| 0 <= k < i && zones@.take(i as int)[k] == x;
                    assert(keys[k] == x);
                }
                if x == z {
                    assert(keys[i as int] == x);
                }
            }
        }
        match node_to_idx.get(&c) {
            Some(ni) => {
                zone_map.insert(z, *ni);
                insert_sorted_unique(&mut zone_list, z);
                proof {
                    assert(zone_map@ =~= centroid_index_of(network@, node_to_idx@, keys));
                    assert(zone_list@.to_set() =~= zone_map@.dom());
                }
            },
            None => {
                proof {
                    assert(zone_map@ =~= centroid_index_of(network@, node_to_idx@, keys));
                }
            },
        }
        i = i + 1;
    }
    proof {
        assert(zones@.take(zones@.len() as int) =~= zones@);
        assert forall|z: ZoneID| zones@.contains(z) <==> network@.zone_centroids.contains_key(z) by {
            assert(zones@.contains(z) <==> zones@.to_set().contains(z));
        }
        assert(zone_map@ =~= centroid_index(network@, node_to_idx@));
    }
    (zone_map, zone_list)
}

/// Compact indexed graph in CSR (compressed sparse row) form.
///
/// All node and link IDs are mapped to dense indices `0..N` and `0..E`;
/// the outgoing edges `(target node index, link index)` of node `u` are
/// `edges[row_ptr[u]..row_ptr[u + 1]]`.
pub struct IndexedGraph {
    pub num_nodes: usize,
    pub num_links: usize,
    node_to_idx: HashMap<NodeID, usize>,
    link_to_idx: HashMap<LinkID, usize>,
    idx_to_link: Vec<LinkID>,
    row_ptr: Vec<usize>,
    edges: Vec<(usize, usize)>,
    link_source_idx: Vec<usize>,
    zone_to_node_idx: HashMap<ZoneID, usize>,
    zone_ids: Vec<ZoneID>,
}

impl IndexedGraph {
    /// The number of nodes.
    pub closed spec fn nodes_len(&self) -> nat {
        self.num_nodes as nat
    }

    /// The number of links.
    pub closed spec fn links_len(&self) -> nat {
        self.num_links as nat
    }

    /// The index of each node ID.
    pub closed spec fn node_index(&self) -> Map<NodeID, usize> {
        self.node_to_idx@
    }

    /// The index of each link ID.
    pub closed spec fn link_index(&self) -> Map<LinkID, usize> {
        self.link_to_idx@
    }

    /// The link ID of each link index.
    pub closed spec fn link_order(&self) -> Seq<LinkID> {
        self.idx_to_link@
    }

    /// The source node index of each link index.
    pub closed spec fn source_indices(&self) -> Seq<usize> {
        self.link_source_idx@
    }

    /// The outgoing edges `(target node index, link index)` of node `u`.
    pub closed spec fn out_row(&self, u: int) -> Seq<(usize, usize)> {
        self.edges@.subrange(self.row_ptr@[u] as int, self.row_ptr@[u + 1] as int)
    }

    /// The centroid node index of each zone.
    pub closed spec fn zone_index(&self) -> Map<ZoneID, usize> {
        self.zone_to_node_idx@
    }

    /// The zones that have a centroid node, as listed by `zone_ids`.
    pub closed spec fn zone_list(&self) -> Seq<ZoneID> {
        self.zone_ids@
    }

    /// The arrays agree in length and the row offsets are in range.
    pub closed spec fn wf(&self) -> bool {
        &&& self.row_ptr@.len() == self.num_nodes + 1
        &&& self.row_ptr@[self.num_nodes as int] == self.edges@.len()
        &&& forall|u: int, v: int|
            0 <= u <= v <= self.num_nodes ==> #[trigger] self.row_ptr@[u] <= #[trigger] self.row_ptr@[v]
        &&& self.idx_to_link@.len() == self.num_links
        &&& self.link_source_idx@.len() == self.num_links
        &&& forall|i: int|
            0 <= i < self.num_links ==> (#[trigger] self.link_source_idx@[i] as int) < self.num_nodes
        &&& numbers(self.link_to_idx@, self.idx_to_link@)
    }

    /// A well-formed graph holds one link ID per link index, each once,
    /// numbered by position, and each link index names a node index.
    pub proof fn lemma_wf_facts(&self)
        requires
            self.wf(),
        ensures
            self.link_order().len() == self.links_len(),
            self.source_indices().len() == self.links_len(),
            numbers(self.link_index(), self.link_order()),
            forall|i: int|
                0 <= i < self.links_len() ==> (#[trigger] self.source_indices()[i] as int) < self.nodes_len(),
    {
    }

    /// The target node index of each link index, read from the network.
    pub open spec fn target_indices(&self, net: NetworkView) -> Seq<usize> {
        Seq::new(
            self.links_len(),
            |i: int| self.node_index()[net.links[self.link_order()[i]].target_node_id],
        )
    }

    /// This graph is the indexed form of `net`: nodes and links are
    /// numbered densely, each link index records its link's source, the
    /// row of each node lists its outgoing links in increasing index
    /// order, and each zone whose centroid is a node maps to that node's
    /// index.
    pub open spec fn indexes(&self, net: NetworkView) -> bool {
        &&& self.wf()
        &&& self.nodes_len() == net.nodes.dom().len()
        &&& self.links_len() == net.links.dom().len()
        &&& dense_numbering(self.node_index(), net.nodes.dom())
        &&& self.link_order().len() == self.links_len()
        &&& numbers(self.link_index(), self.link_order())
        &&& self.link_order().to_set() == net.links.dom()
        &&& forall|i: int|
            0 <= i < self.links_len() ==> #[trigger] self.source_indices()[i] == self.node_index()[net.links[self.link_order()[i]].source_node_id]
        &&& forall|u: int|
            0 <= u < self.nodes_len() ==> #[trigger] self.out_row(u) == row_of(
                self.source_indices(),
                self.target_indices(net),
                u,
                self.links_len() as int,
            )
        &&& self.zone_index() == centroid_index(net, self.node_index())
        &&& strictly_sorted(self.zone_list())
        &&& self.zone_list().to_set() == self.zone_index().dom()
    }

    /// Build the indexed graph of a network whose links all join nodes
    /// of the network.
    pub fn from_network(network: &Network) -> (g: IndexedGraph)
        requires
            network@.endpoints_present(),
        ensures
            g.indexes(network@),
    {
        let (node_to_idx, node_order) = number_keys(&network.nodes);
        let num_nodes = node_order.len();
        proof {
            lemma_numbers_dense(node_to_idx@, node_order@);
            assert(network@.nodes.dom() =~= network.nodes@.dom());
            assert(network@.links.dom() =~= network.links@.dom());
        }
        let (link_to_idx, idx_to_link) = number_keys(&network.links);
        let num_links = idx_to_link.len();
        proof {
            idx_to_link@.unique_seq_to_set();
        }
        let (src, tgt) = link_endpoint_indices(network, &node_to_idx, &idx_to_link);
        proof {
            assert forall|i: int| 0 <= i < src@.len() implies (#[trigger] src@[i] as int) < num_nodes by {
                assert(node_to_idx@.contains_key(network@.links[idx_to_link@[i]].source_node_id)) by {
                    assert(idx_to_link@.to_set().contains(idx_to_link@[i]));
                }
            }
        }
        let rows = bucket_edges(num_nodes, &src, &tgt);
        let (row_ptr, edges) = flatten_rows(&rows);
        let (zone_to_node_idx, zone_ids) = index_zones(network, &node_to_idx);
        let g = IndexedGraph {
            num_nodes,
            num_links,
            node_to_idx,
            link_to_idx,
            idx_to_link,
            row_ptr,
            edges,
            link_source_idx: src,
            zone_to_node_idx,
            zone_ids,
        };
        proof {
            let net = network@;
            assert(tgt@ =~= g.target_indices(net));
            assert forall|u: int| 0 <= u < g.num_nodes implies #[trigger] g.out_row(u) == row_of(
                g.source_indices(),
                g.target_indices(net),
                u,
                g.num_links as int,
            ) by {
                assert(g.out_row(u) =~= rows@[u]@);
            }
        }
        g
    }

    /// Zone IDs with a centroid node, in ascending order.
    pub fn zone_ids(&self) -> (r: &[ZoneID])
        ensures
            r@ == self.zone_list(),
    {
        self.zone_ids.as_slice()
    }

    /// Centroid node index of a zone.
    pub fn zone_node_idx(&self, zone_id: ZoneID) -> (r: Option<usize>)
        ensures
            r == (if self.zone_index().contains_key(zone_id) {
                Some(self.zone_index()[zone_id])
            } else {
                None
            }),
    {
        match self.zone_to_node_idx.get(&zone_id) {
            Some(i) => Some(*i),
            None => None,
        }
    }

    /// Link index of a link ID.
    pub fn link_idx(&self, link_id: LinkID) -> (r: Option<usize>)
        ensures
            r == (if self.link_index().contains_key(link_id) {
                Some(self.link_index()[link_id])
            } else {
                None
            }),
    {
        match self.link_to_idx.get(&link_id) {
            Some(i) => Some(*i),
            None => None,
        }
    }

    /// Link ID of a link index.
    pub fn link_id(&self, idx: usize) -> (r: LinkID)
        requires
            self.wf(),
            idx < self.links_len(),
        ensures
            r == self.link_order()[idx as int],
    {
        self.idx_to_link[idx]
    }

    /// Source node index of a link index.
    pub fn link_source(&self, link_idx: usize) -> (r: usize)
        requires
            self.wf(),
            link_idx < self.links_len(),
        ensures
            r == self.source_indices()[link_idx as int],
            r < self.nodes_len(),
    {
        self.link_source_idx[link_idx]
    }

    /// The outgoing edges `(target node index, link index)` of node `u`.
    pub fn out_edges(&self, u: usize) -> (r: &[(usize, usize)])
        requires
            self.wf(),
            u < self.nodes_len(),
        ensures
            r@ == self.out_row(u as int),
    {
        let start = self.row_ptr[u];
        let end = self.row_ptr[u + 1];
        slice_subrange(self.edges.as_slice(), start, end)
    }

    /// Per-link values of a map keyed by link ID, as a vector indexed by
    /// link index. Links that the map lacks get `default`; keys that are
    /// not links of the graph are ignored.
    pub fn hashmap_to_vec<V: Copy>(&self, map: &HashMap<LinkID, V>, default: V) -> (out: Vec<V>)
        requires
            self.wf(),
        ensures
            out@.len() == self.links_len(),
            forall|i: int|
                0 <= i < self.links_len() ==> #[trigger] out@[i] == (if map@.contains_key(
                    self.link_order()[i],
                ) {
                    map@[self.link_order()[i]]
                } else {
                    default
                }),
    {
        let mut out: Vec<V> = Vec::new();
        let mut i: usize = 0;
        while i < self.num_links
            invariant
                self.wf(),
                i <= self.num_links,
                out@.len() == i,
                forall|j: int|
                    0 <= j < i ==> #[trigger] out@[j] == (if map@.contains_key(self.link_order()[j]) {
                        map@[self.link_order()[j]]
                    } else {
                        default
                    }),
            decreases self.num_links - i,
        {
            let v = match map.get(&self.idx_to_link[i]) {
                Some(x) => *x,
                None => default,
            };
            out.push(v);
            i = i + 1;
        }
        out
    }

    /// Per-link values indexed by link index, as a map keyed by link ID.
    pub fn volumes_to_hashmap<V: Copy>(&self, volumes: &[V]) -> (map: HashMap<LinkID, V>)
        requires
            self.wf(),
            volumes@.len() >= self.links_len(),
        ensures
            map@.dom() == self.link_order().to_set(),
            forall|i: int|
                0 <= i < self.links_len() ==> #[trigger] map@[self.link_order()[i]] == volumes@[i],
    {
        let mut map: HashMap<LinkID, V> = HashMap::new();
        let mut i: usize = 0;
        while i < self.num_links
            invariant
                self.wf(),
                numbers(self.link_index(), self.link_order()),
                volumes@.len() >= self.links_len(),
                i <= self.num_links,
                map@.dom() == self.link_order().take(i as int).to_set(),
                forall|j: int| 0 <= j < i ==> #[trigger] map@[self.link_order()[j]] == volumes@[j],
            decreases self.num_links - i,
        {
            let lid = self.idx_to_link[i];
            map.insert(lid, volumes[i]);
            proof {
                let order = self.link_order();
                let prev = order.take(i as int);
                let next = order.take(i + 1);
                assert(next =~= prev.push(lid));
                assert(map@.dom() =~= next.to_set()) by {
                    assert forall|x: i64| map@.dom().contains(x) <==> next.to_set().contains(x) by {
                        if x == lid {
                            assert(next[i as int] == x);
                        } else if prev.to_set().contains(x) {
                            let j = choose|j: int| 0 <= j < prev.len() && prev[j] == x;
                            assert(next[j] == x);
                        } else if next.to_set().contains(x) {
                            let j = choose|j: int| 0 <= j < next.len() && next[j] == x;
                            assert(prev[j] == x);
                        }
                    }
                }
                assert forall|j: int| 0 <= j < i + 1 implies #[trigger] map@[order[j]] == volumes@[j] by {
                    if j < i {
                        assert(order[j] != lid);
                    }
                }
            }
            i = i + 1;
        }
        assert(self.link_order().take(self.num_links as int) =~= self.link_order());
        map
    }

    /// The same conversion as `volumes_to_hashmap`, for link costs.
    pub fn costs_to_hashmap<V: Copy>(&self, costs: &[V]) -> (map: HashMap<LinkID, V>)
        requires
            self.wf(),
            costs@.len() >= self.links_len(),
        ensures
            map@.dom() == self.link_order().to_set(),
            forall|i: int| 0 <= i < self.links_len() ==> #[trigger] map@[self.link_order()[i]] == costs@[i],
    {
        self.volumes_to_hashmap(costs)
    }

    /// The number of nodes.
    pub fn node_count(&self) -> (n: usize)
        ensures
            n == self.nodes_len(),
    {
        self.num_nodes
    }

    /// The number of links.
    pub fn link_count(&self) -> (n: usize)
        ensures
            n == self.links_len(),
    {
        self.num_links
    }
}


proof fn lemma_row_of_contains(src: Seq<usize>, tgt: Seq<usize>, u: int, k: int, e: (usize, usize))
    requires
        0 <= k <= src.len(),
        k <= usize::MAX,
    ensures
        row_of(src, tgt, u, k).contains(e) <==> ((e.1 as int) < k && src[e.1 as int] as int == u
            && e.0 == tgt[e.1 as int]),
    decreases k,
{
    if k > 0 {
        lemma_row_of_contains(src, tgt, u, k - 1, e);
        let before = row_of(src, tgt, u, k - 1);
        let row = row_of(src, tgt, u, k);
        let last = (tgt[k - 1], (k - 1) as usize);
        if src[k - 1] as int == u {
            assert(row == before.push(last));
            if row.contains(e) {
                let j = choose|j: int| 0 <= j < row.len() && row[j] == e;
                if j < before.len() {
                    assert(before[j] == e);
                } else {
                    assert(e == last);
                }
            }
            if (e.1 as int) < k && src[e.1 as int] as int == u && e.0 == tgt[e.1 as int] {
                if (e.1 as int) < k - 1 {
                    let j = choose|j: int| 0 <= j < before.len() && before[j] == e;
                    assert(row[j] == e);
                } else {
                    assert(e == last);
                    assert(row[row.len() - 1] == e);
                }
            }
        } else {
            assert(row == before);
        }
    }
}

/// Every link ID of the network names the link index that maps back to
/// it: `link_id(link_idx(l)) == l`.
pub proof fn law_link_index_roundtrip(g: &IndexedGraph, net: NetworkView, l: LinkID)
    requires
        g.indexes(net),
        net.links.contains_key(l),
    ensures
        g.link_index().contains_key(l),
        (g.link_index()[l] as int) < g.links_len(),
        g.link_order()[g.link_index()[l] as int] == l,
{
    assert(g.link_order().to_set().contains(l));
    let j = choose|j: int| 0 <= j < g.link_order().len() && g.link_order()[j] == l;
    assert(g.link_index()[g.link_order()[j]] == j);
}

/// The row of node `u` holds exactly the links whose source is `u`, each
/// paired with the index of its target node.
pub proof fn law_out_row_exact(g: &IndexedGraph, net: NetworkView, u: int, e: (usize, usize))
    requires
        g.indexes(net),
        0 <= u < g.nodes_len(),
    ensures
        g.out_row(u).contains(e) <==> ((e.1 as int) < g.links_len() && g.source_indices()[e.1 as int] as int
            == u && e.0 == g.target_indices(net)[e.1 as int]),
{
    assert(g.out_row(u) == row_of(g.source_indices(), g.target_indices(net), u, g.links_len() as int));
    assert(g.links_len() <= usize::MAX);
    lemma_row_of_contains(g.source_indices(), g.target_indices(net), u, g.links_len() as int, e);
}


/// Converting per-link values into a map keyed by link ID
/// (`volumes_to_hashmap`) and back into a vector (`hashmap_to_vec`) gives
/// the values back, whatever the default.
pub proof fn law_link_values_roundtrip<V>(
    g: &IndexedGraph,
    volumes: Seq<V>,
    map: Map<LinkID, V>,
    default: V,
    out: Seq<V>,
)
    requires
        g.wf(),
        volumes.len() == g.links_len(),
        map.dom() == g.link_order().to_set(),
        forall|i: int| 0 <= i < g.links_len() ==> #[trigger] map[g.link_order()[i]] == volumes[i],
        out.len() == g.links_len(),
        forall|i: int|
            0 <= i < g.links_len() ==> #[trigger] out[i] == (if map.contains_key(g.link_order()[i]) {
                map[g.link_order()[i]]
            } else {
                default
            }),
    ensures
        out == volumes,
{
    g.lemma_wf_facts();
    assert forall|i: int| 0 <= i < g.links_len() implies out[i] == volumes[i] by {
        assert(g.link_order().to_set().contains(g.link_order()[i]));
        assert(map[g.link_order()[i]] == volumes[i]);
    }
    assert(out =~= volumes);
}


/// In a network whose adjacency lists agree with its links, node `v` is
/// one step from node `u` exactly when the row of `u`'s index holds an
/// edge to `v`'s index: the indexed graph has the network's edges.
pub proof fn law_indexed_steps_match(g: &IndexedGraph, net: NetworkView, u: NodeID, v: NodeID)
    requires
        g.indexes(net),
        net.adjacency_consistent(),
        net.endpoints_present(),
        net.nodes.contains_key(u),
        net.nodes.contains_key(v),
    ensures
        net.step(u, v) <==> exists|li: usize|
            #[trigger] g.out_row(g.node_index()[u] as int).contains((g.node_index()[v], li)),
{
    let ni = g.node_index();
    let ui = ni[u] as int;
    assert(ni.contains_key(u) && ni.contains_key(v));
    if net.step(u, v) {
        let outs = net.nodes[u].outcoming_links;
        let k = choose|k: int|
            #![trigger outs[k]]
            0 <= k < outs.len() && net.links.contains_key(outs[k]) && net.links[outs[k]].target_node_id == v;
        let l = outs[k];
        assert(outs.contains(l));
        law_link_index_roundtrip(g, net, l);
        let li = g.link_index()[l];
        assert(g.link_order()[li as int] == l);
        law_out_row_exact(g, net, ui, (ni[v], li));
        assert(g.out_row(ui).contains((ni[v], li)));
    }
    if exists|li: usize| #[trigger] g.out_row(ui).contains((ni[v], li)) {
        let li = choose|li: usize| #[trigger] g.out_row(ui).contains((ni[v], li));
        law_out_row_exact(g, net, ui, (ni[v], li));
        let l = g.link_order()[li as int];
        assert(g.link_order().to_set().contains(l));
        assert(net.links.contains_key(l));
        let s = net.links[l].source_node_id;
        let t = net.links[l].target_node_id;
        assert(ni.contains_key(s) && ni.contains_key(t));
        assert(ni[s] == ni[u]);
        assert(s == u);
        assert(ni[t] == ni[v]);
        assert(t == v);
        let outs = net.nodes[u].outcoming_links;
        assert(outs.contains(l));
        let k = choose|k: int| 0 <= k < outs.len() && outs[k] == l;
        assert(outs[k] == l);
        assert(net.step(u, v));
    }
}


proof fn lemma_row_of_sorted(src: Seq<usize>, tgt: Seq<usize>, u: int, k: int)
    requires
        0 <= k <= usize::MAX,
    ensures
        forall|a: int, b: int|
            0 <= a < b < row_of(src, tgt, u, k).len() ==> (#[trigger] row_of(src, tgt, u, k)[a]).1
                < (#[trigger] row_of(src, tgt, u, k)[b]).1,
        forall|a: int| 0 <= a < row_of(src, tgt, u, k).len() ==> (#[trigger] row_of(src, tgt, u, k)[a].1 as int) < k,
    decreases k,
{
    if k > 0 {
        lemma_row_of_sorted(src, tgt, u, k - 1);
        let before = row_of(src, tgt, u, k - 1);
        let row = row_of(src, tgt, u, k);
        if src[k - 1] as int == u {
            assert(row == before.push((tgt[k - 1], (k - 1) as usize)));
            assert forall|a: int, b: int| 0 <= a < b < row.len() implies (#[trigger] row[a]).1 < (
            #[trigger] row[b]).1 by {
                assert(row[a] == before[a]);
                if b < before.len() {
                    assert(row[b] == before[b]);
                }
            }
            assert forall|a: int| 0 <= a < row.len() implies (#[trigger] row[a].1 as int) < k by {
                if a < before.len() {
                    assert(row[a] == before[a]);
                }
            }
        }
    }
}

/// The row of each node lists its outgoing links in increasing link
/// index order, each link once.
pub proof fn law_out_row_sorted(g: &IndexedGraph, net: NetworkView, u: int)
    requires
        g.indexes(net),
        0 <= u < g.nodes_len(),
    ensures
        forall|a: int, b: int|
            0 <= a < b < g.out_row(u).len() ==> (#[trigger] g.out_row(u)[a]).1 < (
            #[trigger] g.out_row(u)[b]).1,
{
    assert(g.links_len() <= usize::MAX);
    lemma_row_of_sorted(g.source_indices(), g.target_indices(net), u, g.links_len() as int);
}


/// Converting a map keyed by link ID into a vector (`hashmap_to_vec`) and
/// back into a map (`volumes_to_hashmap`) keeps the value of every link
/// of the graph that the map holds, gives the default to the links it
/// lacks, and drops the keys that are not links of the graph.
pub proof fn law_link_map_roundtrip<V>(
    g: &IndexedGraph,
    map: Map<LinkID, V>,
    default: V,
    values: Seq<V>,
    back: Map<LinkID, V>,
)
    requires
        g.wf(),
        values.len() == g.links_len(),
        forall|i: int|
            0 <= i < g.links_len() ==> #[trigger] values[i] == (if map.contains_key(g.link_order()[i]) {
                map[g.link_order()[i]]
            } else {
                default
            }),
        back.dom() == g.link_order().to_set(),
        forall|i: int| 0 <= i < g.links_len() ==> #[trigger] back[g.link_order()[i]] == values[i],
    ensures
        back.dom() == g.link_order().to_set(),
        forall|l: LinkID|
            #[trigger] back.contains_key(l) ==> back[l] == (if map.contains_key(l) {
                map[l]
            } else {
                default
            }),
{
    g.lemma_wf_facts();
    assert forall|l: LinkID| #[trigger] back.contains_key(l) implies back[l] == (if map.contains_key(l) {
        map[l]
    } else {
        default
    }) by {
        let i = choose|i: int| 0 <= i < g.link_order().len() && g.link_order()[i] == l;
        assert(back[g.link_order()[i]] == values[i]);
    }
}

} // verus!
