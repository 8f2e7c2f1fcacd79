//! Directed host-communication graph: hosts as nodes, observed traffic
//! between an ordered pair of hosts as an edge.
use vstd::prelude::*;
use std::collections::BTreeMap;
use vstd::std_specs::btree::spec_btree_map_iter;
use vstd::std_specs::iter::IteratorSpec;
use crate::ordering::{pair_lt, lemma_pair_entries_increasing, lemma_u32_entries_increasing};
use crate::sorted::{strictly_increasing, insert_sorted};
use crate::window::sat_sub;

verus! {

/// A host of the graph.
#[derive(Debug, Clone, Copy, PartialEq, Eq, Structural)]
pub struct GraphNode {
    pub host_ip: u32,
    pub trust_score: u8,
    pub risk_level: u8,
}

/// Traffic observed from `src_ip` to `dst_ip`.
///
/// `edge_risk_bits` is the IEEE-754 bit pattern of the edge's risk value
/// (an `f64`); the graph stores it and hands it back unchanged, and the
/// cost-based computations that read it as a number run outside the library.
#[derive(Debug, Clone, Copy, PartialEq, Eq, Structural)]
pub struct GraphEdge {
    pub src_ip: u32,
    pub dst_ip: u32,
    pub packet_count: u64,
    pub byte_count: u64,
    pub flow_count: u32,
    pub unique_ports: u32,
    pub edge_risk_bits: u64,
    pub last_seen: u64,
}

/// The key under which an edge is stored.
pub open spec fn edge_key(e: GraphEdge) -> (u32, u32) {
    (e.src_ip, e.dst_ip)
}

/// The node that `add_edge` creates for an endpoint that was not yet a node.
pub open spec fn default_node(ip: u32) -> GraphNode {
    GraphNode { host_ip: ip, trust_score: 100, risk_level: 0 }
}

/// `m` with a default node for `ip` when `ip` is not a node yet.
pub open spec fn with_default_node(m: Map<u32, GraphNode>, ip: u32) -> Map<u32, GraphNode> {
    if m.contains_key(ip) {
        m
    } else {
        m.insert(ip, default_node(ip))
    }
}

/// An edge idle for at least `timeout_ns` at time `now_ns`.
pub open spec fn edge_expired(e: GraphEdge, now_ns: u64, timeout_ns: u64) -> bool {
    sat_sub(now_ns, e.last_seen) >= timeout_ns
}

/// The host-communication graph.
#[derive(Debug, Clone)]
pub struct SecurityGraph {
    nodes: BTreeMap<u32, GraphNode>,
    edges: BTreeMap<(u32, u32), GraphEdge>,
}

impl SecurityGraph {
    /// The nodes, by address.
    pub closed spec fn node_map(&self) -> Map<u32, GraphNode> {
        self.nodes@
    }

    /// The edges, by (source, destination).
    pub closed spec fn edge_map(&self) -> Map<(u32, u32), GraphEdge> {
        self.edges@
    }

    pub open spec fn has_node(&self, ip: u32) -> bool {
        self.node_map().contains_key(ip)
    }

    pub open spec fn has_edge(&self, src: u32, dst: u32) -> bool {
        self.edge_map().contains_key((src, dst))
    }

    /// Every node is stored under its own address, every edge under its own
    /// endpoints, and both endpoints of every edge are nodes.
    pub open spec fn wf(&self) -> bool {
        &&& self.node_map().dom().finite()
        &&& self.edge_map().dom().finite()
        &&& forall|ip: u32| #[trigger]
            self.node_map().contains_key(ip) ==> self.node_map()[ip].host_ip == ip
        &&& forall|k: (u32, u32)| #[trigger]
            self.edge_map().contains_key(k) ==> {
                &&& self.node_map().contains_key(k.0)
                &&& self.node_map().contains_key(k.1)
                &&& self.edge_map()[k].src_ip == k.0
                &&& self.edge_map()[k].dst_ip == k.1
            }
    }

    /// An empty graph.
    pub fn new() -> (g: Self)
        ensures
            g.wf(),
            g.node_map() == Map::<u32, GraphNode>::empty(),
            g.edge_map() == Map::<(u32, u32), GraphEdge>::empty(),
    {
        SecurityGraph { nodes: BTreeMap::new(), edges: BTreeMap::new() }
    }

    /// Adds a node, replacing any node with the same address.
    pub fn add_node(&mut self, node: GraphNode)
        requires
            old(self).wf(),
        ensures
            final(self).wf(),
            final(self).node_map() == old(self).node_map().insert(node.host_ip, node),
            final(self).edge_map() == old(self).edge_map(),
    {
        self.nodes.insert(node.host_ip, node);
    }

    /// Replaces (or adds) the node with the same address.
    pub fn update_node(&mut self, node: GraphNode)
        requires
            old(self).wf(),
        ensures
            final(self).wf(),
            final(self).node_map() == old(self).node_map().insert(node.host_ip, node),
            final(self).edge_map() == old(self).edge_map(),
    {
        self.add_node(node);
    }

    /// The node with address `ip`, if any.
    pub fn get_node(&self, ip: u32) -> (r: Option<&GraphNode>)
        ensures
            match r {
                Some(n) => self.has_node(ip) && *n == self.node_map()[ip],
                None => !self.has_node(ip),
            },
    {
        self.nodes.get(&ip)
    }

    /// Adds an edge, replacing any edge between the same ordered pair, and
    /// creates a default node for each endpoint that is not a node yet.
    pub fn add_edge(&mut self, edge: GraphEdge)
        requires
            old(self).wf(),
        ensures
            final(self).wf(),
            final(self).edge_map() == old(self).edge_map().insert(edge_key(edge), edge),
            final(self).node_map() == with_default_node(
                with_default_node(old(self).node_map(), edge.src_ip),
                edge.dst_ip,
            ),
    {
        if !self.nodes.contains_key(&edge.src_ip) {
            self.nodes.insert(
                edge.src_ip,
                GraphNode { host_ip: edge.src_ip, trust_score: 100, risk_level: 0 },
            );
        }
        if !self.nodes.contains_key(&edge.dst_ip) {
            self.nodes.insert(
                edge.dst_ip,
                GraphNode { host_ip: edge.dst_ip, trust_score: 100, risk_level: 0 },
            );
        }
        self.edges.insert((edge.src_ip, edge.dst_ip), edge);
    }

    /// Same as `add_edge`.
    pub fn update_edge(&mut self, edge: GraphEdge)
        requires
            old(self).wf(),
        ensures
            final(self).wf(),
            final(self).edge_map() == old(self).edge_map().insert(edge_key(edge), edge),
            final(self).node_map() == with_default_node(
                with_default_node(old(self).node_map(), edge.src_ip),
                edge.dst_ip,
            ),
    {
        self.add_edge(edge);
    }

    /// The edge from `src_ip` to `dst_ip`, if any.
    pub fn get_edge(&self, src_ip: u32, dst_ip: u32) -> (r: Option<&GraphEdge>)
        ensures
            match r {
                Some(e) => self.has_edge(src_ip, dst_ip) && *e == self.edge_map()[(src_ip, dst_ip)],
                None => !self.has_edge(src_ip, dst_ip),
            },
    {
        self.edges.get(&(src_ip, dst_ip))
    }

    /// All edges, in increasing (source, destination) order.
    fn edge_list(&self) -> (r: Vec<GraphEdge>)
        requires
            self.wf(),
        ensures
            r.len() == self.edge_map().len(),
            forall|i: int| #![trigger r[i]]
                0 <= i < r.len() ==> self.edge_map().contains_key(edge_key(r[i]))
                    && self.edge_map()[edge_key(r[i])] == r[i],
            forall|i: int, j: int|
                0 <= i < j < r.len() ==> pair_lt(edge_key(r[i]), edge_key(r[j])),
            forall|k: (u32, u32)| #[trigger]
                self.edge_map().contains_key(k) ==> exists|i: int|
                    0 <= i < r.len() && edge_key(r[i]) == k,
    {
        let entries = self.edges.iter();
        let ghost s0 = spec_btree_map_iter(&self.edges).remaining();
        proof {
            lemma_pair_entries_increasing(s0);
        }
        let mut r: Vec<GraphEdge> = Vec::new();
        for kv in it: entries
            invariant
                it.seq() == s0,
                r.len() == it.index(),
                forall|i: int| 0 <= i < r.len() ==> r[i] == *s0[i].1,
        {
            r.push(*kv.1);
        }
        proof {
            assert forall|i: int| #![trigger r[i]] 0 <= i < r.len() implies self.edge_map().contains_key(
                edge_key(r[i]),
            ) && self.edge_map()[edge_key(r[i])] == r[i] by {
                assert(self.edges@.contains_key(*s0[i].0));
            }
            assert forall|k: (u32, u32)| #[trigger]
                self.edge_map().contains_key(k) implies exists|i: int|
                0 <= i < r.len() && edge_key(r[i]) == k by {
                assert(s0.contains((&k, &self.edges@[k])));
                let i = choose|i: int| 0 <= i < s0.len() && s0[i] == (&k, &self.edges@[k]);
                assert(edge_key(r[i]) == k);
            }
            assert forall|i: int, j: int|
                0 <= i < j < r.len() implies pair_lt(edge_key(r[i]), edge_key(r[j])) by {
                assert(self.edges@.contains_key(*s0[i].0));
                assert(self.edges@.contains_key(*s0[j].0));
            }
        }
        r
    }

    /// All node addresses, in increasing order.
    pub(crate) fn node_ips(&self) -> (r: Vec<u32>)
        requires
            self.wf(),
        ensures
            strictly_increasing(r@),
            forall|ip: u32| r@.contains(ip) <==> self.has_node(ip),
    {
        let entries = self.nodes.iter();
        let ghost s0 = spec_btree_map_iter(&self.nodes).remaining();
        proof {
            lemma_u32_entries_increasing(s0);
        }
        let mut r: Vec<u32> = Vec::new();
        for kv in it: entries
            invariant
                it.seq() == s0,
                r.len() == it.index(),
                forall|i: int| 0 <= i < r.len() ==> r[i] == *s0[i].0,
        {
            r.push(*kv.0);
        }
        proof {
            assert forall|ip: u32| r@.contains(ip) <==> self.has_node(ip) by {
                if r@.contains(ip) {
                    let i = choose|i: int| 0 <= i < r.len() && r[i] == ip;
                    assert(self.nodes@.contains_key(*s0[i].0));
                }
                if self.has_node(ip) {
                    assert(s0.contains((&ip, &self.nodes@[ip])));
                    let i = choose|i: int| 0 <= i < s0.len() && s0[i] == (&ip, &self.nodes@[ip]);
                    assert(r[i] == ip);
                }
            }
        }
        r
    }

    /// Removes every edge idle for at least `timeout_ns` at `current_time_ns`
    /// and returns how many were removed.
    pub fn remove_expired_edges(&mut self, current_time_ns: u64, timeout_ns: u64) -> (count: usize)
        requires
            old(self).wf(),
        ensures
            final(self).wf(),
            final(self).node_map() == old(self).node_map(),
            final(self).edge_map() == old(self).edge_map().restrict(
                old(self).edge_map().dom().filter(
                    |k: (u32, u32)| !edge_expired(old(self).edge_map()[k], current_time_ns, timeout_ns),
                ),
            ),
            count == old(self).edge_map().len() - final(self).edge_map().len(),
    {
        let all = self.edge_list();
        let ghost old_edges = self.edges@;
        let mut to_remove: Vec<(u32, u32)> = Vec::new();
        let mut i: usize = 0;
        while i < all.len()
            invariant
                0 <= i <= all.len(),
                self.edges@ == old_edges,
                self.wf(),
                all.len() == old_edges.len(),
                forall|a: int| #![trigger all[a]]
                    0 <= a < all.len() ==> old_edges.contains_key(edge_key(all[a]))
                        && old_edges[edge_key(all[a])] == all[a],
                forall|a: int, b: int|
                    0 <= a < b < all.len() ==> pair_lt(edge_key(all[a]), edge_key(all[b])),
                forall|k: (u32, u32)| #[trigger]
                    old_edges.contains_key(k) ==> exists|a: int|
                        0 <= a < all.len() && edge_key(all[a]) == k,
                to_remove@.no_duplicates(),
                forall|k: (u32, u32)|
                    to_remove@.contains(k) <==> (exists|a: int|
                        0 <= a < i && edge_key(#[trigger] all[a]) == k && edge_expired(
                            all[a],
                            current_time_ns,
                            timeout_ns,
                        )),
            decreases all.len() - i,
        {
            let e = all[i];
            let ghost prev = to_remove@;
            if current_time_ns.saturating_sub(e.last_seen) >= timeout_ns {
                proof {
                    if prev.contains(edge_key(e)) {
                        let a = choose|a: int|
                            0 <= a < i && edge_key(#[trigger] all[a]) == edge_key(e) && edge_expired(
                                all[a],
                                current_time_ns,
                                timeout_ns,
                            );
                        assert(pair_lt(edge_key(all[a]), edge_key(all[i as int])));
                    }
                }
                to_remove.push((e.src_ip, e.dst_ip));
            }
            proof {
                assert forall|k: (u32, u32)|
                    to_remove@.contains(k) <==> (exists|a: int|
                        0 <= a < i + 1 && edge_key(#[trigger] all[a]) == k && edge_expired(
                            all[a],
                            current_time_ns,
                            timeout_ns,
                        )) by {
                    if to_remove@.contains(k) {
                        let b = choose|b: int| 0 <= b < to_remove@.len() && to_remove@[b] == k;
                        if b < prev.len() {
                            assert(prev[b] == k);
                            assert(prev.contains(k));
                        } else {
                            assert(edge_key(all[i as int]) == k);
                        }
                    }
                    if exists|a: int|
                        0 <= a < i + 1 && edge_key(#[trigger] all[a]) == k && edge_expired(
                            all[a],
                            current_time_ns,
                            timeout_ns,
                        ) {
                        let a = choose|a: int|
                            0 <= a < i + 1 && edge_key(#[trigger] all[a]) == k && edge_expired(
                                all[a],
                                current_time_ns,
                                timeout_ns,
                            );
                        if a < i {
                            assert(prev.contains(k));
                            let b = choose|b: int| 0 <= b < prev.len() && prev[b] == k;
                            assert(to_remove@[b] == k);
                        } else {
                            assert(to_remove@[to_remove@.len() - 1] == k);
                        }
                    }
                }
            }
            i += 1;
        }
        let ghost expired_set = old_edges.dom().filter(
            |k: (u32, u32)| edge_expired(old_edges[k], current_time_ns, timeout_ns),
        );
        proof {
            assert forall|k: (u32, u32)| to_remove@.contains(k) <==> expired_set.contains(k) by {
                if expired_set.contains(k) {
                    let a = choose|a: int| 0 <= a < all.len() && edge_key(all[a]) == k;
                    assert(edge_key(all[a]) == k);
                }
            }
        }
        let count = to_remove.len();
        let mut j: usize = 0;
        while j < to_remove.len()
            invariant
                0 <= j <= to_remove.len(),
                count == to_remove.len(),
                to_remove@.no_duplicates(),
                forall|k: (u32, u32)| to_remove@.contains(k) <==> expired_set.contains(k),
                expired_set.subset_of(old_edges.dom()),
                old_edges.dom().finite(),
                self.nodes@ == old(self).nodes@,
                old_edges == old(self).edges@,
                old(self).wf(),
                self.edges@ == old_edges.remove_keys(to_remove@.subrange(0, j as int).to_set()),
                self.edges@.len() == old_edges.len() - j,
            decreases to_remove.len() - j,
        {
            let k = to_remove[j];
            let ghost before = self.edges@;
            proof {
                assert(!to_remove@.subrange(0, j as int).contains(k));
                assert(before.contains_key(k));
            }
            self.edges.remove(&k);
            proof {
                assert(to_remove@.subrange(0, j as int + 1) =~= to_remove@.subrange(
                    0,
                    j as int,
                ).push(k));
                to_remove@.subrange(0, j as int).lemma_push_to_set_commute(k);
                assert(self.edges@ =~= old_edges.remove_keys(
                    to_remove@.subrange(0, j as int + 1).to_set(),
                ));
            }
            j += 1;
        }
        proof {
            assert(to_remove@.subrange(0, to_remove.len() as int) =~= to_remove@);
            assert(self.edges@ =~= old_edges.restrict(
                old_edges.dom().filter(
                    |k: (u32, u32)| !edge_expired(old_edges[k], current_time_ns, timeout_ns),
                ),
            ));
        }
        count
    }

    /// The hosts joined to `ip` by an edge in either direction, in
    /// increasing order.
    pub fn neighbors(&self, ip: u32) -> (r: Vec<u32>)
        requires
            self.wf(),
        ensures
            strictly_increasing(r@),
            forall|x: u32| r@.contains(x) <==> (self.has_edge(ip, x) || self.has_edge(x, ip)),
    {
        let all = self.edge_list();
        let mut set: Vec<u32> = Vec::new();
        let mut i: usize = 0;
        while i < all.len()
            invariant
                0 <= i <= all.len(),
                self.wf(),
                all.len() == self.edge_map().len(),
                forall|a: int| #![trigger all[a]]
                    0 <= a < all.len() ==> self.edge_map().contains_key(edge_key(all[a]))
                        && self.edge_map()[edge_key(all[a])] == all[a],
                forall|k: (u32, u32)| #[trigger]
                    self.edge_map().contains_key(k) ==> exists|a: int|
                        0 <= a < all.len() && edge_key(all[a]) == k,
                strictly_increasing(set@),
                forall|x: u32|
                    set@.contains(x) <==> (exists|a: int|
                        0 <= a < i && (edge_key(#[trigger] all[a]) == (ip, x) || edge_key(all[a])
                            == (x, ip))),
            decreases all.len() - i,
        {
            let e = all[i];
            if e.src_ip == ip {
                insert_sorted(&mut set, e.dst_ip);
            } else if e.dst_ip == ip {
                insert_sorted(&mut set, e.src_ip);
            }
            proof {
                assert forall|x: u32|
                    set@.contains(x) <==> (exists|a: int|
                        0 <= a < i + 1 && (edge_key(#[trigger] all[a]) == (ip, x) || edge_key(
                            all[a],
                        ) == (x, ip))) by {
                    if edge_key(all[i as int]) == (ip, x) || edge_key(all[i as int]) == (x, ip) {
                        assert(set@.contains(x));
                    }
                }
            }
            i += 1;
        }
        proof {
            assert forall|x: u32|
                set@.contains(x) <==> (self.has_edge(ip, x) || self.has_edge(x, ip)) by {
                if self.has_edge(ip, x) {
                    let a = choose|a: int| 0 <= a < all.len() && edge_key(all[a]) == (ip, x);
                    assert(edge_key(all[a]) == (ip, x));
                }
                if self.has_edge(x, ip) {
                    let a = choose|a: int| 0 <= a < all.len() && edge_key(all[a]) == (x, ip);
                    assert(edge_key(all[a]) == (x, ip));
                }
            }
        }
        set
    }

    /// The edges leaving `ip`, in increasing destination order.
    pub fn outgoing_edges(&self, ip: u32) -> (r: Vec<GraphEdge>)
        requires
            self.wf(),
        ensures
            forall|i: int, j: int| 0 <= i < j < r.len() ==> r[i].dst_ip < r[j].dst_ip,
            forall|i: int| #![trigger r[i]]
                0 <= i < r.len() ==> r[i].src_ip == ip && self.has_edge(ip, r[i].dst_ip)
                    && self.edge_map()[(ip, r[i].dst_ip)] == r[i],
            forall|d: u32| #[trigger]
                self.has_edge(ip, d) ==> exists|i: int| 0 <= i < r.len() && r[i].dst_ip == d,
    {
        let all = self.edge_list();
        let mut r: Vec<GraphEdge> = Vec::new();
        let ghost mut pos: Seq<int> = Seq::empty();
        let mut i: usize = 0;
        while i < all.len()
            invariant
                0 <= i <= all.len(),
                self.wf(),
                all.len() == self.edge_map().len(),
                forall|a: int| #![trigger all[a]]
                    0 <= a < all.len() ==> self.edge_map().contains_key(edge_key(all[a]))
                        && self.edge_map()[edge_key(all[a])] == all[a],
                forall|a: int, b: int|
                    0 <= a < b < all.len() ==> pair_lt(edge_key(all[a]), edge_key(all[b])),
                forall|k: (u32, u32)| #[trigger]
                    self.edge_map().contains_key(k) ==> exists|a: int|
                        0 <= a < all.len() && edge_key(all[a]) == k,
                pos.len() == r.len(),
                forall|a: int| 0 <= a < pos.len() ==> 0 <= #[trigger] pos[a] < i,
                forall|a: int| #![trigger r[a]] 0 <= a < r.len() ==> r[a] == all[pos[a]],
                forall|a: int, b: int| 0 <= a < b < pos.len() ==> pos[a] < pos[b],
                forall|a: int| #![trigger r[a]] 0 <= a < r.len() ==> r[a].src_ip == ip,
                forall|a: int|
                    0 <= a < i && (#[trigger] all[a]).src_ip == ip ==> exists|b: int|
                        0 <= b < r.len() && r[b] == all[a],
            decreases all.len() - i,
        {
            let e = all[i];
            let ghost prev = r@;
            if e.src_ip == ip {
                r.push(e);
                proof {
                    pos = pos.push(i as int);
                    assert(r[r.len() - 1] == all[i as int]);
                }
            }
            proof {
                assert forall|a: int|
                    0 <= a < i + 1 && (#[trigger] all[a]).src_ip == ip implies exists|b: int|
                    0 <= b < r.len() && r[b] == all[a] by {
                    if a == i {
                        assert(r[r.len() - 1] == all[a]);
                    } else {
                        let b = choose|b: int| 0 <= b < prev.len() && prev[b] == all[a];
                        assert(r[b] == all[a]);
                    }
                }
            }
            i += 1;
        }
        proof {
            assert forall|a: int, b: int| 0 <= a < b < r.len() implies r[a].dst_ip < r[b].dst_ip by {
                assert(pair_lt(edge_key(all[pos[a]]), edge_key(all[pos[b]])));
            }
            assert forall|d: u32| #[trigger]
                self.has_edge(ip, d) implies exists|b: int| 0 <= b < r.len() && r[b].dst_ip == d by {
                let a = choose|a: int| 0 <= a < all.len() && edge_key(all[a]) == (ip, d);
                assert(all[a].src_ip == ip);
                let b = choose|b: int| 0 <= b < r.len() && r[b] == all[a];
                assert(r[b].dst_ip == d);
            }
        }
        r
    }

    /// The edges entering `ip`, in increasing source order.
    pub fn incoming_edges(&self, ip: u32) -> (r: Vec<GraphEdge>)
        requires
            self.wf(),
        ensures
            forall|i: int, j: int| 0 <= i < j < r.len() ==> r[i].src_ip < r[j].src_ip,
            forall|i: int| #![trigger r[i]]
                0 <= i < r.len() ==> r[i].dst_ip == ip && self.has_edge(r[i].src_ip, ip)
                    && self.edge_map()[(r[i].src_ip, ip)] == r[i],
            forall|s: u32| #[trigger]
                self.has_edge(s, ip) ==> exists|i: int| 0 <= i < r.len() && r[i].src_ip == s,
    {
        let all = self.edge_list();
        let mut r: Vec<GraphEdge> = Vec::new();
        let ghost mut pos: Seq<int> = Seq::empty();
        let mut i: usize = 0;
        while i < all.len()
            invariant
                0 <= i <= all.len(),
                self.wf(),
                all.len() == self.edge_map().len(),
                forall|a: int| #![trigger all[a]]
                    0 <= a < all.len() ==> self.edge_map().contains_key(edge_key(all[a]))
                        && self.edge_map()[edge_key(all[a])] == all[a],
                forall|a: int, b: int|
                    0 <= a < b < all.len() ==> pair_lt(edge_key(all[a]), edge_key(all[b])),
                forall|k: (u32, u32)| #[trigger]
                    self.edge_map().contains_key(k) ==> exists|a: int|
                        0 <= a < all.len() && edge_key(all[a]) == k,
                pos.len() == r.len(),
                forall|a: int| 0 <= a < pos.len() ==> 0 <= #[trigger] pos[a] < i,
                forall|a: int| #![trigger r[a]] 0 <= a < r.len() ==> r[a] == all[pos[a]],
                forall|a: int, b: int| 0 <= a < b < pos.len() ==> pos[a] < pos[b],
                forall|a: int| #![trigger r[a]] 0 <= a < r.len() ==> r[a].dst_ip == ip,
                forall|a: int|
                    0 <= a < i && (#[trigger] all[a]).dst_ip == ip ==> exists|b: int|
                        0 <= b < r.len() && r[b] == all[a],
            decreases all.len() - i,
        {
            let e = all[i];
            let ghost prev = r@;
            if e.dst_ip == ip {
                r.push(e);
                proof {
                    pos = pos.push(i as int);
                    assert(r[r.len() - 1] == all[i as int]);
                }
            }
            proof {
                assert forall|a: int|
                    0 <= a < i + 1 && (#[trigger] all[a]).dst_ip == ip implies exists|b: int|
                    0 <= b < r.len() && r[b] == all[a] by {
                    if a == i {
                        assert(r[r.len() - 1] == all[a]);
                    } else {
                        let b = choose|b: int| 0 <= b < prev.len() && prev[b] == all[a];
                        assert(r[b] == all[a]);
                    }
                }
            }
            i += 1;
        }
        proof {
            assert forall|a: int, b: int| 0 <= a < b < r.len() implies r[a].src_ip < r[b].src_ip by {
                assert(pair_lt(edge_key(all[pos[a]]), edge_key(all[pos[b]])));
            }
            assert forall|s: u32| #[trigger]
                self.has_edge(s, ip) implies exists|b: int| 0 <= b < r.len() && r[b].src_ip == s by {
                let a = choose|a: int| 0 <= a < all.len() && edge_key(all[a]) == (s, ip);
                assert(all[a].dst_ip == ip);
                let b = choose|b: int| 0 <= b < r.len() && r[b] == all[a];
                assert(r[b].src_ip == s);
            }
        }
        r
    }

    /// The node map.
    pub fn nodes(&self) -> (r: &BTreeMap<u32, GraphNode>)
        ensures
            r@ == self.node_map(),
    {
        &self.nodes
    }

    /// The edge map.
    pub fn edges(&self) -> (r: &BTreeMap<(u32, u32), GraphEdge>)
        ensures
            r@ == self.edge_map(),
    {
        &self.edges
    }

    /// The number of nodes.
    pub fn node_count(&self) -> (n: usize)
        ensures
            n == self.node_map().len(),
    {
        self.nodes.len()
    }

    /// The number of edges.
    pub fn edge_count(&self) -> (n: usize)
        ensures
            n == self.edge_map().len(),
    {
        self.edges.len()
    }
}

impl Default for SecurityGraph {
    fn default() -> (g: Self)
        ensures
            g.wf(),
            g.node_map() == Map::<u32, GraphNode>::empty(),
            g.edge_map() == Map::<(u32, u32), GraphEdge>::empty(),
    {
        SecurityGraph::new()
    }
}

} // verus!
