//! The mesoscopic network: nodes and links with adjacency and lookups.
//!
//! Turn restrictions are encoded in the topology: connection links exist
//! only for allowed turns, so routing that follows existing links
//! respects them without further logic.
use std::collections::HashMap;

use vstd::prelude::*;
use vstd::std_specs::iter::IteratorSpec;

use super::link::{Link, LinkView};
use super::node::{default_node, Node, NodeView};
use crate::error::SimError;
use crate::gmns::error::GraphError;
use crate::gmns::types::{LinkID, NodeID, ZoneID};
use crate::sorted_ids::{insert_sorted_unique, key_list, strictly_sorted};

verus! {

/// Container for the mesoscopic transport network.
#[derive(Debug)]
pub struct Network {
    /// All meso nodes indexed by ID.
    pub nodes: HashMap<NodeID, Node>,
    /// All meso links indexed by ID.
    pub links: HashMap<LinkID, Link>,
    /// Mapping from zone ID to the centroid node ID.
    pub zone_centroids: HashMap<ZoneID, NodeID>,
}

/// The mathematical value of a network: three finite maps.
pub struct NetworkView {
    pub nodes: Map<NodeID, NodeView>,
    pub links: Map<LinkID, LinkView>,
    pub zone_centroids: Map<ZoneID, NodeID>,
}

impl View for Network {
    type V = NetworkView;

    open spec fn view(&self) -> NetworkView {
        NetworkView {
            nodes: self.nodes@.map_values(|n: Node| n@),
            links: self.links@.map_values(|l: Link| l@),
            zone_centroids: self.zone_centroids@,
        }
    }
}

impl NetworkView {
    /// The network with no nodes, links or zones.
    pub open spec fn empty() -> NetworkView {
        NetworkView { nodes: Map::empty(), links: Map::empty(), zone_centroids: Map::empty() }
    }

    /// The network after a node with a fresh ID is added: the node is
    /// stored under its ID and, when its zone ID is not negative, it
    /// becomes the centroid of that zone.
    pub open spec fn with_node(self, n: NodeView) -> NetworkView {
        NetworkView {
            nodes: self.nodes.insert(n.id, n),
            links: self.links,
            zone_centroids: if n.zone_id >= 0 {
                self.zone_centroids.insert(n.zone_id, n.id)
            } else {
                self.zone_centroids
            },
        }
    }

    /// `nodes` with link `id` appended to the outgoing list of node `src`, if present.
    pub open spec fn attach_outgoing(nodes: Map<NodeID, NodeView>, src: NodeID, id: LinkID) -> Map<
        NodeID,
        NodeView,
    > {
        if nodes.contains_key(src) {
            nodes.insert(
                src,
                NodeView { outcoming_links: nodes[src].outcoming_links.push(id), ..nodes[src] },
            )
        } else {
            nodes
        }
    }

    /// `nodes` with link `id` appended to the incoming list of node `tgt`, if present.
    pub open spec fn attach_incoming(nodes: Map<NodeID, NodeView>, tgt: NodeID, id: LinkID) -> Map<
        NodeID,
        NodeView,
    > {
        if nodes.contains_key(tgt) {
            nodes.insert(
                tgt,
                NodeView { incoming_links: nodes[tgt].incoming_links.push(id), ..nodes[tgt] },
            )
        } else {
            nodes
        }
    }

    /// The network after a link with a fresh ID is added: the link is
    /// stored under its ID, appended to the outgoing list of its source
    /// node and to the incoming list of its target node (each only if
    /// that node is present).
    pub open spec fn with_link(self, l: LinkView) -> NetworkView {
        NetworkView {
            nodes: Self::attach_incoming(
                Self::attach_outgoing(self.nodes, l.source_node_id, l.id),
                l.target_node_id,
                l.id,
            ),
            links: self.links.insert(l.id, l),
            zone_centroids: self.zone_centroids,
        }
    }

    /// One step along the network: node `u` is present and one of its
    /// outgoing link IDs names a link of the network whose target is `v`.
    pub open spec fn step(self, u: NodeID, v: NodeID) -> bool {
        &&& self.nodes.contains_key(u)
        &&& exists|k: int|
            #![trigger self.nodes[u].outcoming_links[k]]
            0 <= k < self.nodes[u].outcoming_links.len() && self.links.contains_key(
                self.nodes[u].outcoming_links[k],
            ) && self.links[self.nodes[u].outcoming_links[k]].target_node_id == v
    }

    /// `p` is a non-empty sequence of nodes, each a step from the one before.
    pub open spec fn is_walk(self, p: Seq<NodeID>) -> bool {
        &&& p.len() >= 1
        &&& forall|i: int| 0 <= i < p.len() - 1 ==> #[trigger] self.step(p[i], p[i + 1])
    }

    /// Node `v` can be reached from node `u` by following links (every
    /// node reaches itself).
    pub open spec fn reaches(self, u: NodeID, v: NodeID) -> bool {
        exists|p: Seq<NodeID>| #[trigger] self.is_walk(p) && p[0] == u && p.last() == v
    }

    /// Both end nodes of every link are nodes of the network.
    pub open spec fn endpoints_present(self) -> bool {
        forall|l: LinkID|
            #[trigger] self.links.contains_key(l) ==> self.nodes.contains_key(
                self.links[l].source_node_id,
            ) && self.nodes.contains_key(self.links[l].target_node_id)
    }

    /// The adjacency lists agree with the links: a node's outgoing list
    /// holds exactly the links whose source it is, and its incoming list
    /// exactly the links whose target it is.
    pub open spec fn adjacency_consistent(self) -> bool {
        &&& forall|u: NodeID, l: LinkID|
            self.nodes.contains_key(u) ==> (#[trigger] self.nodes[u].outcoming_links.contains(l) <==> (
            self.links.contains_key(l) && self.links[l].source_node_id == u))
        &&& forall|u: NodeID, l: LinkID|
            self.nodes.contains_key(u) ==> (#[trigger] self.nodes[u].incoming_links.contains(l) <==> (
            self.links.contains_key(l) && self.links[l].target_node_id == u))
    }

    /// The target nodes of all links of the network.
    pub open spec fn link_targets(self) -> Set<NodeID> {
        self.links.dom().map(|l: LinkID| self.links[l].target_node_id)
    }
}

/// Every node reaches itself.
pub proof fn lemma_reaches_refl(net: NetworkView, u: NodeID)
    ensures
        net.reaches(u, u),
{
    let p = seq![u];
    assert(net.is_walk(p));
}

/// A step extends a walk: if `u` reaches `v` and `v` steps to `w`, then `u` reaches `w`.
pub proof fn lemma_reaches_step(net: NetworkView, u: NodeID, v: NodeID, w: NodeID)
    requires
        net.reaches(u, v),
        net.step(v, w),
    ensures
        net.reaches(u, w),
{
    let p = choose|p: Seq<NodeID>| #[trigger] net.is_walk(p) && p[0] == u && p.last() == v;
    let q = p.push(w);
    assert forall|i: int| 0 <= i < q.len() - 1 implies #[trigger] net.step(q[i], q[i + 1]) by {
        if i < p.len() - 1 {
            assert(q[i] == p[i] && q[i + 1] == p[i + 1]);
            assert(net.step(p[i], p[i + 1]));
        }
    }
    assert(net.is_walk(q));
}

/// Reachability is transitive.
pub proof fn lemma_reaches_trans(net: NetworkView, u: NodeID, v: NodeID, w: NodeID)
    requires
        net.reaches(u, v),
        net.reaches(v, w),
    ensures
        net.reaches(u, w),
{
    let p = choose|p: Seq<NodeID>| #[trigger] net.is_walk(p) && p[0] == u && p.last() == v;
    let q = choose|q: Seq<NodeID>| #[trigger] net.is_walk(q) && q[0] == v && q.last() == w;
    let r = p + q.drop_first();
    assert forall|i: int| 0 <= i < r.len() - 1 implies #[trigger] net.step(r[i], r[i + 1]) by {
        if i < p.len() - 1 {
            assert(r[i] == p[i] && r[i + 1] == p[i + 1]);
            assert(net.step(p[i], p[i + 1]));
        } else if i == p.len() - 1 {
            assert(r[i] == v && r[i + 1] == q[1]);
            assert(net.step(q[0], q[1]));
        } else {
            let j = i - p.len() + 1;
            assert(r[i] == q[j] && r[i + 1] == q[j + 1]);
            assert(net.step(q[j], q[j + 1]));
        }
    }
    assert(net.is_walk(r));
}

/// A set of nodes that is closed under steps and holds the first node of
/// a walk holds its last node too.
pub proof fn lemma_closed_set_holds_walk(net: NetworkView, s: Set<NodeID>, p: Seq<NodeID>)
    requires
        net.is_walk(p),
        s.contains(p[0]),
        forall|v: NodeID, w: NodeID| s.contains(v) && net.step(v, w) ==> s.contains(w),
    ensures
        s.contains(p.last()),
    decreases p.len(),
{
    if p.len() > 1 {
        let q = p.drop_last();
        assert forall|i: int| 0 <= i < q.len() - 1 implies #[trigger] net.step(q[i], q[i + 1]) by {
            assert(net.step(p[i], p[i + 1]));
        }
        lemma_closed_set_holds_walk(net, s, q);
        let i = p.len() - 2;
        assert(net.step(p[i], p[i + 1]));
    }
}

/// A node added to the network is found under its ID, a node with a
/// zone ID that is not negative becomes that zone's centroid, and every
/// other node and every link is left as it was.
pub proof fn law_node_read_after_add(net: NetworkView, n: NodeView, other: NodeID)
    requires
        other != n.id,
    ensures
        net.with_node(n).nodes.contains_key(n.id),
        net.with_node(n).nodes[n.id] == n,
        n.zone_id >= 0 ==> net.with_node(n).zone_centroids.contains_key(n.zone_id)
            && net.with_node(n).zone_centroids[n.zone_id] == n.id,
        net.with_node(n).nodes.contains_key(other) == net.nodes.contains_key(other),
        net.nodes.contains_key(other) ==> net.with_node(n).nodes[other] == net.nodes[other],
        net.with_node(n).links == net.links,
{
}

/// Adding a node touches at most one zone: a zone has a centroid after
/// the addition exactly when it had one before or it is the new node's
/// zone (with a zone ID that is not negative), every other zone keeps its
/// centroid, and a node with a negative zone ID leaves the zone table as
/// it was.
pub proof fn law_zone_centroids_after_add(net: NetworkView, n: NodeView, z: ZoneID)
    ensures
        net.with_node(n).zone_centroids.contains_key(z) <==> (net.zone_centroids.contains_key(z) || (
        n.zone_id >= 0 && z == n.zone_id)),
        net.with_node(n).zone_centroids.contains_key(z) ==> net.with_node(n).zone_centroids[z] == (
        if n.zone_id >= 0 && z == n.zone_id {
            n.id
        } else {
            net.zone_centroids[z]
        }),
        n.zone_id < 0 ==> net.with_node(n).zone_centroids == net.zone_centroids,
{
}

/// A node as `Node::new(id)` starts it belongs to no zone and has no
/// links, so adding it to a network leaves every zone's centroid as it
/// was and only stores the node.
pub proof fn law_plain_node_is_no_centroid(net: NetworkView, id: NodeID)
    ensures
        default_node(id).id == id,
        default_node(id).zone_id < 0,
        default_node(id).incoming_links.len() == 0,
        default_node(id).outcoming_links.len() == 0,
        net.with_node(default_node(id)).zone_centroids == net.zone_centroids,
        net.with_node(default_node(id)).links == net.links,
{
}

/// A link added to the network is found under its ID, is appended to the
/// outgoing list of its source node and to the incoming list of its
/// target node (each where that node is present), and leaves the
/// zones as they were.
pub proof fn law_link_read_after_add(net: NetworkView, l: LinkView)
    ensures
        net.with_link(l).links.contains_key(l.id),
        net.with_link(l).links[l.id] == l,
        net.nodes.contains_key(l.source_node_id) ==> net.with_link(l).nodes[l.source_node_id].outcoming_links
            == net.nodes[l.source_node_id].outcoming_links.push(l.id),
        net.nodes.contains_key(l.target_node_id) ==> net.with_link(l).nodes[l.target_node_id].incoming_links
            == net.nodes[l.target_node_id].incoming_links.push(l.id),
        net.with_link(l).nodes.dom() == net.nodes.dom(),
        net.with_link(l).zone_centroids == net.zone_centroids,
{
    let mid = NetworkView::attach_outgoing(net.nodes, l.source_node_id, l.id);
    assert(mid.dom() =~= net.nodes.dom());
    assert(net.with_link(l).nodes.dom() =~= net.nodes.dom());
}

/// Adding a link changes nothing but its own entry and the adjacency
/// lists of its end nodes: every other link keeps its entry, every node
/// keeps its ID, zone, macro references and control and boundary types,
/// only the source's outgoing list and the target's incoming list grow
/// (by the new link, at the end), and every other node is left as it was.
pub proof fn law_link_add_frame(net: NetworkView, l: LinkView, u: NodeID, k: LinkID)
    ensures
        net.with_link(l).links.contains_key(k) <==> (net.links.contains_key(k) || k == l.id),
        k != l.id && net.links.contains_key(k) ==> net.with_link(l).links[k] == net.links[k],
        net.nodes.contains_key(u) ==> ({
            let before = net.nodes[u];
            let after = net.with_link(l).nodes[u];
            &&& after.id == before.id
            &&& after.macro_node_id == before.macro_node_id
            &&& after.macro_link_id == before.macro_link_id
            &&& after.zone_id == before.zone_id
            &&& after.control_type == before.control_type
            &&& after.boundary_type == before.boundary_type
            &&& after.outcoming_links == if u == l.source_node_id {
                before.outcoming_links.push(l.id)
            } else {
                before.outcoming_links
            }
            &&& after.incoming_links == if u == l.target_node_id {
                before.incoming_links.push(l.id)
            } else {
                before.incoming_links
            }
        }),
        net.nodes.contains_key(u) && u != l.source_node_id && u != l.target_node_id ==> net.with_link(
            l,
        ).nodes[u] == net.nodes[u],
{
}

/// Once a link joins two nodes of the network, its target is one step
/// from its source, so its source reaches its target.
pub proof fn law_link_connects(net: NetworkView, l: LinkView)
    requires
        net.nodes.contains_key(l.source_node_id),
        net.nodes.contains_key(l.target_node_id),
    ensures
        net.with_link(l).step(l.source_node_id, l.target_node_id),
        net.with_link(l).reaches(l.source_node_id, l.target_node_id),
{
    let after = net.with_link(l);
    law_link_read_after_add(net, l);
    let outs = after.nodes[l.source_node_id].outcoming_links;
    let k = outs.len() - 1;
    assert(outs[k] == l.id);
    assert(after.step(l.source_node_id, l.target_node_id));
    lemma_reaches_refl(after, l.source_node_id);
    lemma_reaches_step(after, l.source_node_id, l.source_node_id, l.target_node_id);
}

/// The empty network's adjacency agrees with its links; adding a node
/// with empty lists that no link names keeps it so, and so does adding a
/// link with a fresh ID between two nodes of the network.
pub proof fn law_adjacency_kept(net: NetworkView, n: NodeView, l: LinkView)
    ensures
        NetworkView::empty().adjacency_consistent(),
        net.adjacency_consistent() && !net.nodes.contains_key(n.id) && n.incoming_links.len() == 0
            && n.outcoming_links.len() == 0 && (forall|k: LinkID|
            #[trigger] net.links.contains_key(k) ==> net.links[k].source_node_id != n.id
                && net.links[k].target_node_id != n.id) ==> net.with_node(n).adjacency_consistent(),
        net.adjacency_consistent() && !net.links.contains_key(l.id) && net.nodes.contains_key(
            l.source_node_id,
        ) && net.nodes.contains_key(l.target_node_id) ==> net.with_link(l).adjacency_consistent(),
{
    if net.adjacency_consistent() && !net.nodes.contains_key(n.id) && n.incoming_links.len() == 0
        && n.outcoming_links.len() == 0 && (forall|k: LinkID|
        #[trigger] net.links.contains_key(k) ==> net.links[k].source_node_id != n.id
            && net.links[k].target_node_id != n.id) {
        let after = net.with_node(n);
        assert forall|u: NodeID, k: LinkID| after.nodes.contains_key(u) implies (
        #[trigger] after.nodes[u].outcoming_links.contains(k) <==> (after.links.contains_key(k)
            && after.links[k].source_node_id == u)) by {
            if u == n.id {
                if after.nodes[u].outcoming_links.contains(k) {
                    let j = choose|j: int| 0 <= j < n.outcoming_links.len() && n.outcoming_links[j] == k;
                }
            }
        }
        assert forall|u: NodeID, k: LinkID| after.nodes.contains_key(u) implies (
        #[trigger] after.nodes[u].incoming_links.contains(k) <==> (after.links.contains_key(k)
            && after.links[k].target_node_id == u)) by {
            if u == n.id {
                if after.nodes[u].incoming_links.contains(k) {
                    let j = choose|j: int| 0 <= j < n.incoming_links.len() && n.incoming_links[j] == k;
                }
            }
        }
    }
    if net.adjacency_consistent() && !net.links.contains_key(l.id) && net.nodes.contains_key(
        l.source_node_id,
    ) && net.nodes.contains_key(l.target_node_id) {
        let after = net.with_link(l);
        law_link_read_after_add(net, l);
        let mid = NetworkView::attach_outgoing(net.nodes, l.source_node_id, l.id);
        assert forall|u: NodeID, k: LinkID| after.nodes.contains_key(u) implies (
        #[trigger] after.nodes[u].outcoming_links.contains(k) <==> (after.links.contains_key(k)
            && after.links[k].source_node_id == u)) by {
            let old_out = net.nodes[u].outcoming_links;
            if u == l.source_node_id {
                assert(after.nodes[u].outcoming_links == old_out.push(l.id));
                if after.nodes[u].outcoming_links.contains(k) && k != l.id {
                    let j = choose|j: int| 0 <= j < old_out.len() + 1 && old_out.push(l.id)[j] == k;
                    assert(old_out[j] == k);
                }
                if k == l.id {
                    assert(old_out.push(l.id)[old_out.len() as int] == k);
                } else if old_out.contains(k) {
                    let j = choose|j: int| 0 <= j < old_out.len() && old_out[j] == k;
                    assert(old_out.push(l.id)[j] == k);
                }
            } else {
                assert(after.nodes[u].outcoming_links == old_out);
            }
        }
        assert forall|u: NodeID, k: LinkID| after.nodes.contains_key(u) implies (
        #[trigger] after.nodes[u].incoming_links.contains(k) <==> (after.links.contains_key(k)
            && after.links[k].target_node_id == u)) by {
            let old_in = net.nodes[u].incoming_links;
            if u == l.target_node_id {
                assert(after.nodes[u].incoming_links == old_in.push(l.id));
                if after.nodes[u].incoming_links.contains(k) && k != l.id {
                    let j = choose|j: int| 0 <= j < old_in.len() + 1 && old_in.push(l.id)[j] == k;
                    assert(old_in[j] == k);
                }
                if k == l.id {
                    assert(old_in.push(l.id)[old_in.len() as int] == k);
                } else if old_in.contains(k) {
                    let j = choose|j: int| 0 <= j < old_in.len() && old_in[j] == k;
                    assert(old_in.push(l.id)[j] == k);
                }
            } else {
                assert(mid[u].incoming_links == old_in);
                assert(after.nodes[u].incoming_links == old_in);
            }
        }
    }
}

/// `r` is the duplicate-ID error for an entity named `entity` with ID `id`.
pub open spec fn is_duplicate_error<T>(r: Result<T, SimError>, entity: Seq<char>, id: i64) -> bool {
    match r {
        Err(SimError::Graph(GraphError::DuplicateId { entity: e, id: i })) => e@ == entity && i
            == id,
        _ => false,
    }
}

impl Network {
    /// Create a new empty network.
    pub fn new() -> (net: Network)
        ensures
            net@ == NetworkView::empty(),
    {
        let net = Network {
            nodes: HashMap::new(),
            links: HashMap::new(),
            zone_centroids: HashMap::new(),
        };
        assert(net@.nodes =~= Map::empty());
        assert(net@.links =~= Map::empty());
        net
    }

    /// Add a node. A node with a zone ID that is not negative becomes
    /// the centroid of that zone. A node whose ID is taken is refused
    /// and the network is left as it was.
    pub fn add_node(&mut self, node: Node) -> (r: Result<(), SimError>)
        ensures
            old(self)@.nodes.contains_key(node.id) ==> is_duplicate_error(r, "node"@, node.id)
                && final(self)@ == old(self)@,
            !old(self)@.nodes.contains_key(node.id) ==> r is Ok && final(self)@ == old(self)@.with_node(
                node@,
            ),
    {
        let id = node.id;
        if self.nodes.contains_key(&id) {
            return Err(SimError::Graph(GraphError::DuplicateId { entity: "node".to_string(), id }));
        }
        let ghost pre = self@;
        let ghost node_view = node@;
        if node.zone_id >= 0 {
            self.zone_centroids.insert(node.zone_id, id);
        }
        self.nodes.insert(id, node);
        assert(self@.nodes =~= pre.nodes.insert(id, node_view));
        Ok(())
    }

    /// Add a link and record it in the adjacency lists of its source and
    /// target nodes (of those that are present). A link whose ID is taken
    /// is refused and the network is left as it was.
    pub fn add_link(&mut self, link: Link) -> (r: Result<(), SimError>)
        ensures
            old(self)@.links.contains_key(link.id) ==> is_duplicate_error(r, "link"@, link.id)
                && final(self)@ == old(self)@,
            !old(self)@.links.contains_key(link.id) ==> r is Ok && final(self)@ == old(self)@.with_link(
                link@,
            ),
    {
        let id = link.id;
        if self.links.contains_key(&id) {
            return Err(SimError::Graph(GraphError::DuplicateId { entity: "link".to_string(), id }));
        }
        let ghost pre = self@;
        let ghost link_view = link@;
        let source_id = link.source_node_id;
        let target_id = link.target_node_id;
        self.links.insert(id, link);
        assert(self@.links =~= pre.links.insert(id, link_view));
        let ghost mid = NetworkView::attach_outgoing(pre.nodes, source_id, id);
        match self.nodes.remove(&source_id) {
            Some(mut source_node) => {
                source_node.outcoming_links.push(id);
                self.nodes.insert(source_id, source_node);
            },
            None => {},
        }
        assert(self@.nodes =~= mid);
        match self.nodes.remove(&target_id) {
            Some(mut target_node) => {
                target_node.incoming_links.push(id);
                self.nodes.insert(target_id, target_node);
            },
            None => {},
        }
        assert(self@.nodes =~= NetworkView::attach_incoming(mid, target_id, id));
        Ok(())
    }

    /// Get a node by ID.
    pub fn get_node(&self, id: NodeID) -> (r: Result<&Node, SimError>)
        ensures
            match r {
                Ok(n) => self@.nodes.contains_key(id) && n@ == self@.nodes[id],
                Err(e) => !self@.nodes.contains_key(id) && e == SimError::Graph(
                    GraphError::NodeNotFound { node_id: id },
                ),
            },
    {
        match self.nodes.get(&id) {
            Some(n) => Ok(n),
            None => Err(SimError::Graph(GraphError::NodeNotFound { node_id: id })),
        }
    }

    /// Get a link by ID.
    pub fn get_link(&self, id: LinkID) -> (r: Result<&Link, SimError>)
        ensures
            match r {
                Ok(l) => self@.links.contains_key(id) && l@ == self@.links[id],
                Err(e) => !self@.links.contains_key(id) && e == SimError::Graph(
                    GraphError::LinkNotFound { link_id: id },
                ),
            },
    {
        match self.links.get(&id) {
            Some(l) => Ok(l),
            None => Err(SimError::Graph(GraphError::LinkNotFound { link_id: id })),
        }
    }

    /// Get the outgoing links of a node.
    pub fn outgoing_links(&self, node_id: NodeID) -> (r: Result<&[LinkID], SimError>)
        ensures
            match r {
                Ok(s) => self@.nodes.contains_key(node_id) && s@ == self@.nodes[node_id].outcoming_links,
                Err(e) => !self@.nodes.contains_key(node_id) && e == SimError::Graph(
                    GraphError::NodeNotFound { node_id },
                ),
            },
    {
        let node = self.get_node(node_id)?;
        Ok(node.outcoming_links.as_slice())
    }

    /// Get the incoming links of a node.
    pub fn incoming_links(&self, node_id: NodeID) -> (r: Result<&[LinkID], SimError>)
        ensures
            match r {
                Ok(s) => self@.nodes.contains_key(node_id) && s@ == self@.nodes[node_id].incoming_links,
                Err(e) => !self@.nodes.contains_key(node_id) && e == SimError::Graph(
                    GraphError::NodeNotFound { node_id },
                ),
            },
    {
        let node = self.get_node(node_id)?;
        Ok(node.incoming_links.as_slice())
    }

    /// Get the target node ID of a link.
    pub fn link_target(&self, link_id: LinkID) -> (r: Result<NodeID, SimError>)
        ensures
            match r {
                Ok(t) => self@.links.contains_key(link_id) && t == self@.links[link_id].target_node_id,
                Err(e) => !self@.links.contains_key(link_id) && e == SimError::Graph(
                    GraphError::LinkNotFound { link_id },
                ),
            },
    {
        let link = self.get_link(link_id)?;
        Ok(link.target_node_id)
    }

    /// Get the source node ID of a link.
    pub fn link_source(&self, link_id: LinkID) -> (r: Result<NodeID, SimError>)
        ensures
            match r {
                Ok(s) => self@.links.contains_key(link_id) && s == self@.links[link_id].source_node_id,
                Err(e) => !self@.links.contains_key(link_id) && e == SimError::Graph(
                    GraphError::LinkNotFound { link_id },
                ),
            },
    {
        let link = self.get_link(link_id)?;
        Ok(link.source_node_id)
    }

    /// All zone IDs that have centroids in the network, in ascending order.
    pub fn zone_ids(&self) -> (zones: Vec<ZoneID>)
        ensures
            strictly_sorted(zones@),
            zones@.to_set() == self@.zone_centroids.dom(),
    {
        let mut zones: Vec<ZoneID> = Vec::new();
        let keys = self.zone_centroids.keys();
        let ghost key_seq = keys.remaining().unref();
        proof {
            assert(key_seq.to_set() == self.zone_centroids@.dom());
        }
        for z in it: keys
            invariant
                strictly_sorted(zones@),
                key_seq == it.seq().unref(),
                forall|k: ZoneID|
                    zones@.contains(k) <==> exists|j: int| 0 <= j < it.index() && key_seq[j] == k,
        {
            let ghost before = zones@;
            assert(0 <= it.index() < it.seq().len());
            assert(*z == key_seq[it.index() as int]);
            insert_sorted_unique(&mut zones, *z);
            proof {
                assert forall|k: ZoneID|
                    zones@.contains(k) <==> exists|j: int| 0 <= j < it.index() + 1 && key_seq[j] == k by {
                    assert(zones@.contains(k) <==> zones@.to_set().contains(k));
                    assert(before.contains(k) <==> before.to_set().contains(k));
                    if k == *z {
                        assert(key_seq[it.index() as int] == k);
                    }
                    if exists|j: int| 0 <= j < it.index() + 1 && key_seq[j] == k {
                        let j = choose|j: int| 0 <= j < it.index() + 1 && key_seq[j] == k;
                        if j < it.index() {
                            assert(before.contains(k));
                        }
                    }
                }
            }
        }
        proof {
            assert forall|k: ZoneID| zones@.to_set().contains(k) <==> self.zone_centroids@.dom().contains(k) by {
                assert(zones@.contains(k) <==> zones@.to_set().contains(k));
                if key_seq.to_set().contains(k) {
                    let j = choose|j: int| 0 <= j < key_seq.len() && key_seq[j] == k;
                    assert(key_seq[j] == k);
                }
                if exists|j: int| 0 <= j < key_seq.len() && key_seq[j] == k {
                    let j = choose|j: int| 0 <= j < key_seq.len() && key_seq[j] == k;
                    assert(key_seq.contains(k));
                }
            }
            assert(zones@.to_set() =~= self@.zone_centroids.dom());
        }
        zones
    }

    /// The centroid node ID of a zone.
    pub fn get_zone_centroid(&self, zone_id: ZoneID) -> (r: Result<NodeID, SimError>)
        ensures
            match r {
                Ok(n) => self@.zone_centroids.contains_key(zone_id) && n == self@.zone_centroids[zone_id],
                Err(e) => !self@.zone_centroids.contains_key(zone_id) && e == SimError::Graph(
                    GraphError::ZoneNotFound { zone_id },
                ),
            },
    {
        match self.zone_centroids.get(&zone_id) {
            Some(n) => Ok(*n),
            None => Err(SimError::Graph(GraphError::ZoneNotFound { zone_id })),
        }
    }

    /// Whether both end nodes of every link are nodes of the network.
    pub fn endpoints_present(&self) -> (r: bool)
        ensures
            r == self@.endpoints_present(),
    {
        let ids = key_list(&self.links);
        let mut i: usize = 0;
        while i < ids.len()
            invariant
                i <= ids.len(),
                ids@.to_set() == self.links@.dom(),
                forall|j: int|
                    0 <= j < i ==> #[trigger] self@.nodes.contains_key(
                        self@.links[ids@[j]].source_node_id,
                    ) && self@.nodes.contains_key(self@.links[ids@[j]].target_node_id),
            decreases ids.len() - i,
        {
            let lid = ids[i];
            proof {
                assert(ids@.to_set().contains(lid));
            }
            let link = self.links.get(&lid).unwrap();
            proof {
                assert(self@.links.contains_key(lid));
                assert(self@.links[lid] == link@);
                assert(self@.nodes.dom() =~= self.nodes@.dom());
            }
            if !self.nodes.contains_key(&link.source_node_id) || !self.nodes.contains_key(
                &link.target_node_id,
            ) {
                return false;
            }
            i = i + 1;
        }
        proof {
            assert forall|l: LinkID| #[trigger] self@.links.contains_key(l) implies self@.nodes.contains_key(
                self@.links[l].source_node_id,
            ) && self@.nodes.contains_key(self@.links[l].target_node_id) by {
                assert(ids@.to_set().contains(l));
                let j = choose|j: int| 0 <= j < ids@.len() && ids@[j] == l;
                assert(self@.nodes.contains_key(self@.links[ids@[j]].source_node_id));
            }
        }
        true
    }

    /// Total number of nodes.
    pub fn node_count(&self) -> (n: usize)
        ensures
            n == self@.nodes.len(),
    {
        assert(self@.nodes.dom() =~= self.nodes@.dom());
        self.nodes.len()
    }

    /// Total number of links.
    pub fn link_count(&self) -> (n: usize)
        ensures
            n == self@.links.len(),
    {
        assert(self@.links.dom() =~= self.links@.dom());
        self.links.len()
    }
}

} // verus!
