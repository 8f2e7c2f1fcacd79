//! Deterministic traversals of the security graph: breadth-first and
//! depth-first reachability from a host, and connected components.
use vstd::prelude::*;
use std::collections::BTreeSet;
use crate::network_intelligence::security_graph::SecurityGraph;
use crate::sorted::{strictly_increasing, insert_sorted};

verus! {

/// One traversal step from `a` to `b`: along an edge, or, when `undirected`,
/// along an edge in either direction.
pub open spec fn step(g: SecurityGraph, undirected: bool, a: u32, b: u32) -> bool {
    g.has_edge(a, b) || (undirected && g.has_edge(b, a))
}

/// The `i`-th link of `p` is a traversal step.
pub open spec fn walk_link(g: SecurityGraph, undirected: bool, p: Seq<u32>, i: int) -> bool {
    step(g, undirected, p[i], p[i + 1])
}

/// `p` is a non-empty sequence of hosts, each one step from the previous.
pub open spec fn is_walk(g: SecurityGraph, undirected: bool, p: Seq<u32>) -> bool {
    &&& p.len() >= 1
    &&& forall|i: int| 0 <= i < p.len() - 1 ==> #[trigger] walk_link(g, undirected, p, i)
}

/// `t` can be reached from the node `s` in zero or more steps.
pub open spec fn reach(g: SecurityGraph, undirected: bool, s: u32, t: u32) -> bool {
    &&& g.has_node(s)
    &&& exists|p: Seq<u32>| #[trigger] is_walk(g, undirected, p) && p[0] == s && p.last() == t
}

/// A node reaches itself.
pub proof fn lemma_reach_refl(g: SecurityGraph, undirected: bool, s: u32)
    requires
        g.has_node(s),
    ensures
        reach(g, undirected, s, s),
{
    let p = seq![s];
    assert(is_walk(g, undirected, p));
}

/// Reachability extends along a step.
pub proof fn lemma_reach_step(g: SecurityGraph, undirected: bool, s: u32, a: u32, b: u32)
    requires
        reach(g, undirected, s, a),
        step(g, undirected, a, b),
    ensures
        reach(g, undirected, s, b),
{
    let p = choose|p: Seq<u32>| #[trigger] is_walk(g, undirected, p) && p[0] == s && p.last() == a;
    let q = p.push(b);
    assert forall|i: int| 0 <= i < q.len() - 1 implies #[trigger] walk_link(g, undirected, q, i) by {
        if i < p.len() - 1 {
            assert(walk_link(g, undirected, p, i));
        }
    }
    assert(is_walk(g, undirected, q));
}

/// The first `k + 1` hosts of a walk from `s` stay in a set that holds `s`
/// and is closed under steps.
proof fn lemma_walk_prefix_in_closed(g: SecurityGraph, undirected: bool, c: Set<u32>, p: Seq<u32>, k: int)
    requires
        is_walk(g, undirected, p),
        c.contains(p[0]),
        forall|a: u32, b: u32| c.contains(a) && #[trigger] step(g, undirected, a, b) ==> c.contains(b),
        0 <= k < p.len(),
    ensures
        c.contains(p[k]),
    decreases k,
{
    if k > 0 {
        lemma_walk_prefix_in_closed(g, undirected, c, p, k - 1);
        assert(walk_link(g, undirected, p, k - 1));
    }
}

/// A set that holds `s` and is closed under steps holds every host that `s`
/// reaches.
pub proof fn lemma_closed_contains_reach(g: SecurityGraph, undirected: bool, c: Set<u32>, s: u32, t: u32)
    requires
        c.contains(s),
        forall|a: u32, b: u32| c.contains(a) && #[trigger] step(g, undirected, a, b) ==> c.contains(b),
        reach(g, undirected, s, t),
    ensures
        c.contains(t),
{
    let p = choose|p: Seq<u32>| #[trigger] is_walk(g, undirected, p) && p[0] == s && p.last() == t;
    lemma_walk_prefix_in_closed(g, undirected, c, p, p.len() - 1);
}

/// Whatever a node reaches is a node.
pub proof fn lemma_reach_is_node(g: SecurityGraph, undirected: bool, s: u32, t: u32)
    requires
        g.wf(),
        reach(g, undirected, s, t),
    ensures
        g.has_node(t),
{
    let p = choose|p: Seq<u32>| #[trigger] is_walk(g, undirected, p) && p[0] == s && p.last() == t;
    if p.len() > 1 {
        assert(walk_link(g, undirected, p, p.len() - 2));
        let a = p[p.len() - 2];
        if g.has_edge(a, t) {
            assert(g.edge_map().contains_key((a, t)));
        } else {
            assert(g.edge_map().contains_key((t, a)));
        }
    }
}

/// Reachability is transitive.
pub proof fn lemma_reach_trans(g: SecurityGraph, undirected: bool, a: u32, b: u32, c: u32)
    requires
        reach(g, undirected, a, b),
        reach(g, undirected, b, c),
    ensures
        reach(g, undirected, a, c),
{
    let s = Set::new(|y: u32| reach(g, undirected, a, y));
    assert forall|x: u32, y: u32| s.contains(x) && #[trigger] step(g, undirected, x, y) implies s.contains(y) by {
        lemma_reach_step(g, undirected, a, x, y);
    }
    lemma_closed_contains_reach(g, undirected, s, b, c);
}

/// Undirected reachability is symmetric.
pub proof fn lemma_reach_sym(g: SecurityGraph, s: u32, t: u32)
    requires
        g.wf(),
        reach(g, true, s, t),
    ensures
        reach(g, true, t, s),
{
    lemma_reach_is_node(g, true, s, t);
    let p = choose|p: Seq<u32>| #[trigger] is_walk(g, true, p) && p[0] == s && p.last() == t;
    let q = p.reverse();
    assert forall|i: int| 0 <= i < q.len() - 1 implies #[trigger] walk_link(g, true, q, i) by {
        let j = p.len() - 2 - i;
        assert(walk_link(g, true, p, j));
        assert(q[i] == p[j + 1]);
        assert(q[i + 1] == p[j]);
    }
    assert(is_walk(g, true, q));
    assert(q[0] == t);
    assert(q.last() == s);
}

/// The ascending list of hosts one step from `ip`.
fn step_targets(g: &SecurityGraph, ip: u32, undirected: bool) -> (r: Vec<u32>)
    requires
        g.wf(),
    ensures
        strictly_increasing(r@),
        forall|y: u32| r@.contains(y) <==> step(*g, undirected, ip, y),
{
    if undirected {
        g.neighbors(ip)
    } else {
        let out = g.outgoing_edges(ip);
        let mut r: Vec<u32> = Vec::new();
        let mut i: usize = 0;
        while i < out.len()
            invariant
                0 <= i <= out.len(),
                r.len() == i,
                forall|a: int| 0 <= a < i ==> r[a] == (#[trigger] out[a]).dst_ip,
                forall|a: int, b: int| 0 <= a < b < out.len() ==> out[a].dst_ip < out[b].dst_ip,
            decreases out.len() - i,
        {
            r.push(out[i].dst_ip);
            i += 1;
        }
        proof {
            assert forall|a: int, b: int| 0 <= a < b < r.len() implies r[a] < r[b] by {
                assert(r[a] == out[a].dst_ip);
                assert(r[b] == out[b].dst_ip);
            }
            assert forall|y: u32| r@.contains(y) <==> step(*g, undirected, ip, y) by {
                if r@.contains(y) {
                    let a = choose|a: int| 0 <= a < r.len() && r[a] == y;
                    assert(out[a].dst_ip == y);
                }
                if step(*g, undirected, ip, y) {
                    let a = choose|a: int| 0 <= a < out.len() && out[a].dst_ip == y;
                    assert(r[a] == y);
                }
            }
        }
        r
    }
}

/// Position `k` holds the earliest host of `s` with a step to `s[j]`, and
/// comes before `j`.
pub open spec fn discovered_by(g: SecurityGraph, undirected: bool, s: Seq<u32>, k: int, j: int) -> bool {
    &&& 0 <= k < j < s.len()
    &&& step(g, undirected, s[k], s[j])
    &&& forall|k2: int| 0 <= k2 < k ==> !step(g, undirected, #[trigger] s[k2], s[j])
}

/// Some earlier host of `s` discovered `s[j]`.
pub open spec fn has_discoverer(g: SecurityGraph, undirected: bool, s: Seq<u32>, j: int) -> bool {
    exists|k: int| #[trigger] discovered_by(g, undirected, s, k, j)
}

/// `s` lists hosts in breadth-first order: every host after the first was
/// discovered by an earlier one, and hosts come in the order of their
/// discoverers, hosts with the same discoverer in increasing order.
pub open spec fn is_breadth_first(g: SecurityGraph, undirected: bool, s: Seq<u32>) -> bool {
    &&& forall|j: int| 1 <= j < s.len() ==> #[trigger] has_discoverer(g, undirected, s, j)
    &&& forall|i: int, j: int, p: int, q: int|
        1 <= i < j < s.len() && #[trigger] discovered_by(g, undirected, s, p, i) && #[trigger] discovered_by(
            g,
            undirected,
            s,
            q,
            j,
        ) ==> p < q || (p == q && s[i] < s[j])
}

/// The discoverer of a host is unique.
proof fn lemma_discoverer_unique(g: SecurityGraph, undirected: bool, s: Seq<u32>, k1: int, k2: int, j: int)
    requires
        discovered_by(g, undirected, s, k1, j),
        discovered_by(g, undirected, s, k2, j),
    ensures
        k1 == k2,
{
    if k1 < k2 {
        assert(!step(g, undirected, s[k1], s[j]));
    } else if k2 < k1 {
        assert(!step(g, undirected, s[k2], s[j]));
    }
}

/// The hosts of `s` are nodes.
pub open spec fn all_nodes(g: SecurityGraph, s: Seq<u32>) -> bool {
    forall|i: int| 0 <= i < s.len() ==> g.has_node(#[trigger] s[i])
}

/// A duplicate-free list of nodes is no longer than the node set.
proof fn lemma_node_list_len(g: SecurityGraph, s: Seq<u32>)
    requires
        g.wf(),
        s.no_duplicates(),
        all_nodes(g, s),
    ensures
        s.len() <= g.node_map().len(),
{
    s.unique_seq_to_set();
    assert(s.to_set().subset_of(g.node_map().dom()));
    vstd::set_lib::lemma_len_subset(s.to_set(), g.node_map().dom());
}

/// Breadth-first traversal from the node `start`, taking the hosts one step
/// from each host in increasing order.
fn traverse_breadth_first(g: &SecurityGraph, start: u32, undirected: bool) -> (order: Vec<u32>)
    requires
        g.wf(),
        g.has_node(start),
    ensures
        order.len() >= 1,
        order[0] == start,
        order@.no_duplicates(),
        forall|t: u32| order@.contains(t) <==> reach(*g, undirected, start, t),
        is_breadth_first(*g, undirected, order@),
{
    let mut visited: BTreeSet<u32> = BTreeSet::new();
    let mut order: Vec<u32> = Vec::new();
    visited.insert(start);
    order.push(start);
    let ghost mut parent: Seq<int> = seq![0int];
    proof {
        lemma_reach_refl(*g, undirected, start);
        assert forall|y: u32| visited@.contains(y) <==> order@.contains(y) by {
            if order@.contains(y) {
                let k = choose|k: int| 0 <= k < order.len() && order[k] == y;
                assert(k == 0);
            }
            if y == start {
                assert(order[0] == y);
            }
        }
    }
    let mut head: usize = 0;
    while head < order.len()
        invariant
            g.wf(),
            g.has_node(start),
            order.len() >= 1,
            order[0] == start,
            head <= order.len(),
            order@.no_duplicates(),
            forall|y: u32| visited@.contains(y) <==> order@.contains(y),
            parent.len() == order.len(),
            forall|j: int|
                1 <= j < order.len() ==> discovered_by(*g, undirected, order@, #[trigger] parent[j], j)
                    && parent[j] < head,
            forall|i: int, j: int|
                1 <= i < j < order.len() ==> #[trigger] parent[i] < #[trigger] parent[j] || (parent[i]
                    == parent[j] && order[i] < order[j]),
            forall|k: int, y: u32|
                0 <= k < head && #[trigger] step(*g, undirected, order[k], y) ==> order@.contains(y),
            forall|j: int| 0 <= j < order.len() ==> reach(*g, undirected, start, #[trigger] order[j]),
        decreases g.node_map().len() - head,
    {
        proof {
            assert forall|i: int| 0 <= i < order.len() implies g.has_node(#[trigger] order@[i]) by {
                lemma_reach_is_node(*g, undirected, start, order[i]);
            }
            lemma_node_list_len(*g, order@);
        }
        let current = order[head];
        let targets = step_targets(g, current, undirected);
        let mut m: usize = 0;
        while m < targets.len()
            invariant
                g.wf(),
                g.has_node(start),
                order.len() >= 1,
                order[0] == start,
                head < order.len(),
                current == order[head as int],
                strictly_increasing(targets@),
                forall|y: u32| targets@.contains(y) <==> step(*g, undirected, current, y),
                0 <= m <= targets.len(),
                order@.no_duplicates(),
                forall|y: u32| visited@.contains(y) <==> order@.contains(y),
                parent.len() == order.len(),
                forall|j: int|
                    1 <= j < order.len() ==> discovered_by(*g, undirected, order@, #[trigger] parent[j], j)
                        && parent[j] <= head,
                forall|i: int, j: int|
                    1 <= i < j < order.len() ==> #[trigger] parent[i] < #[trigger] parent[j] || (
                    parent[i] == parent[j] && order[i] < order[j]),
                forall|j: int|
                    1 <= j < order.len() && #[trigger] parent[j] == head ==> exists|a: int|
                        0 <= a < m && targets[a] == order[j],
                forall|k: int, y: u32|
                    0 <= k < head && #[trigger] step(*g, undirected, order[k], y) ==> order@.contains(y),
                forall|a: int| 0 <= a < m ==> order@.contains(#[trigger] targets[a]),
                forall|j: int| 0 <= j < order.len() ==> reach(*g, undirected, start, #[trigger] order[j]),
            decreases targets.len() - m,
        {
            let next = targets[m];
            proof {
                assert(targets@.contains(next));
            }
            if !visited.contains(&next) {
                let ghost old_order = order@;
                let ghost old_parent = parent;
                proof {
                    assert forall|k2: int| 0 <= k2 < head implies !step(
                        *g,
                        undirected,
                        #[trigger] old_order[k2],
                        next,
                    ) by {
                        if step(*g, undirected, old_order[k2], next) {
                            assert(old_order.contains(next));
                        }
                    }
                    lemma_reach_step(*g, undirected, start, current, next);
                }
                visited.insert(next);
                order.push(next);
                proof {
                    parent = parent.push(head as int);
                    let n = order.len() - 1;
                    assert(order@ == old_order.push(next));
                    assert forall|y: u32| visited@.contains(y) <==> order@.contains(y) by {
                        if order@.contains(y) {
                            let k = choose|k: int| 0 <= k < order.len() && order[k] == y;
                            if k < n {
                                assert(old_order[k] == y);
                            }
                        }
                        if old_order.contains(y) {
                            let k = choose|k: int| 0 <= k < old_order.len() && old_order[k] == y;
                            assert(order[k] == y);
                        }
                        if y == next {
                            assert(order[n] == y);
                        }
                    }
                    assert forall|j: int|
                        1 <= j < order.len() implies discovered_by(
                        *g,
                        undirected,
                        order@,
                        #[trigger] parent[j],
                        j,
                    ) && parent[j] <= head by {
                        if j < n {
                            assert(discovered_by(*g, undirected, old_order, old_parent[j], j));
                            assert forall|k2: int| 0 <= k2 < parent[j] implies !step(
                                *g,
                                undirected,
                                #[trigger] order@[k2],
                                order@[j],
                            ) by {
                                assert(!step(*g, undirected, old_order[k2], old_order[j]));
                            }
                        } else {
                            assert forall|k2: int| 0 <= k2 < parent[j] implies !step(
                                *g,
                                undirected,
                                #[trigger] order@[k2],
                                order@[j],
                            ) by {
                                assert(order@[k2] == old_order[k2]);
                            }
                        }
                    }
                    assert forall|i: int, j: int|
                        1 <= i < j < order.len() implies #[trigger] parent[i] < #[trigger] parent[j] || (
                        parent[i] == parent[j] && order[i] < order[j]) by {
                        if j == n && i < n && old_parent[i] == head {
                            let a = choose|a: int| 0 <= a < m && targets[a] == old_order[i];
                            assert(targets[a] < targets[m as int]);
                        }
                    }
                    assert forall|j: int|
                        1 <= j < order.len() && #[trigger] parent[j] == head implies exists|a: int|
                        0 <= a < m + 1 && targets[a] == order[j] by {
                        if j < n {
                            let a = choose|a: int| 0 <= a < m && targets[a] == old_order[j];
                            assert(targets[a] == order[j]);
                        } else {
                            assert(targets[m as int] == order[j]);
                        }
                    }
                    assert forall|k: int, y: u32|
                        0 <= k < head && #[trigger] step(*g, undirected, order[k], y) implies order@.contains(
                        y,
                    ) by {
                        assert(old_order[k] == order[k]);
                        assert(old_order.contains(y));
                        let b = choose|b: int| 0 <= b < old_order.len() && old_order[b] == y;
                        assert(order[b] == y);
                    }
                    assert forall|a: int| 0 <= a < m + 1 implies order@.contains(#[trigger] targets[a]) by {
                        if a < m {
                            assert(old_order.contains(targets[a]));
                            let b = choose|b: int| 0 <= b < old_order.len() && old_order[b] == targets[a];
                            assert(order[b] == targets[a]);
                        } else {
                            assert(order[n] == targets[a]);
                        }
                    }
                    assert forall|j: int| 0 <= j < order.len() implies reach(
                        *g,
                        undirected,
                        start,
                        #[trigger] order[j],
                    ) by {
                        if j < n {
                            assert(order[j] == old_order[j]);
                        }
                    }
                }
            } else {
                proof {
                    assert forall|j: int|
                        1 <= j < order.len() && #[trigger] parent[j] == head implies exists|a: int|
                        0 <= a < m + 1 && targets[a] == order[j] by {
                        let a = choose|a: int| 0 <= a < m && targets[a] == order[j];
                        assert(targets[a] == order[j]);
                    }
                }
            }
            m += 1;
        }
        proof {
            assert forall|k: int, y: u32|
                0 <= k < head + 1 && #[trigger] step(*g, undirected, order[k], y) implies order@.contains(y) by {
                if k == head {
                    assert(targets@.contains(y));
                    let a = choose|a: int| 0 <= a < targets.len() && targets[a] == y;
                    assert(order@.contains(targets[a]));
                }
            }
        }
        head += 1;
    }
    proof {
        let c = order@.to_set();
        assert forall|a: u32, b: u32| c.contains(a) && #[trigger] step(*g, undirected, a, b) implies c.contains(b) by {
            let k = choose|k: int| 0 <= k < order.len() && order[k] == a;
            assert(step(*g, undirected, order[k], b));
        }
        assert forall|t: u32| order@.contains(t) <==> reach(*g, undirected, start, t) by {
            if reach(*g, undirected, start, t) {
                assert(c.contains(start));
                lemma_closed_contains_reach(*g, undirected, c, start, t);
            }
            if order@.contains(t) {
                let k = choose|k: int| 0 <= k < order.len() && order[k] == t;
                assert(reach(*g, undirected, start, order[k]));
            }
        }
        assert forall|j: int| 1 <= j < order.len() implies #[trigger] has_discoverer(
            *g,
            undirected,
            order@,
            j,
        ) by {
            assert(discovered_by(*g, undirected, order@, parent[j], j));
        }
        assert forall|i: int, j: int, p: int, q: int|
            1 <= i < j < order.len() && #[trigger] discovered_by(*g, undirected, order@, p, i)
                && #[trigger] discovered_by(*g, undirected, order@, q, j) implies p < q || (p == q
            && order[i] < order[j]) by {
            lemma_discoverer_unique(*g, undirected, order@, p, parent[i], i);
            lemma_discoverer_unique(*g, undirected, order@, q, parent[j], j);
        }
    }
    order
}

/// Breadth-first traversal of the directed graph from `start_ip`: the hosts
/// reachable from it, level by level, each host's newly found targets in
/// increasing address order. Empty when `start_ip` is not a node.
pub fn bfs(graph: &SecurityGraph, start_ip: u32) -> (order: Vec<u32>)
    requires
        graph.wf(),
    ensures
        !graph.has_node(start_ip) ==> order.len() == 0,
        graph.has_node(start_ip) ==> {
            &&& order.len() >= 1
            &&& order[0] == start_ip
            &&& order@.no_duplicates()
            &&& forall|t: u32| order@.contains(t) <==> reach(*graph, false, start_ip, t)
            &&& is_breadth_first(*graph, false, order@)
        },
{
    if graph.get_node(start_ip).is_none() {
        return Vec::new();
    }
    traverse_breadth_first(graph, start_ip, false)
}

} // verus!

verus! {

/// Every host of `s` after the first has a step from some earlier host.
pub open spec fn discovered_in_order(g: SecurityGraph, undirected: bool, s: Seq<u32>) -> bool {
    forall|j: int| 1 <= j < s.len() ==> #[trigger] has_discoverer(g, undirected, s, j)
}

/// Some earlier host of `s` has a step to `x`.
pub open spec fn stepped_from_prefix(g: SecurityGraph, undirected: bool, s: Seq<u32>, x: u32) -> bool {
    exists|k: int| 0 <= k < s.len() && #[trigger] step(g, undirected, s[k], x)
}

/// A depth-first traversal that has visited `s[0..j)` goes on from `s[k]`
/// to `s[j]`: `s[j]` is the least target of `s[k]` not yet visited, and no
/// host visited after `s[k]` has a target left unvisited.
pub open spec fn expands(g: SecurityGraph, s: Seq<u32>, k: int, j: int) -> bool {
    &&& 0 <= k < j < s.len()
    &&& step(g, false, s[k], s[j])
    &&& forall|t: u32| #[trigger] step(g, false, s[k], t) && !s.subrange(0, j).contains(t) ==> s[j] <= t
    &&& forall|k2: int, t: u32|
        k < k2 < j && #[trigger] step(g, false, s[k2], t) ==> s.subrange(0, j).contains(t)
}

/// Some earlier host of `s` expands to `s[j]`.
pub open spec fn has_expander(g: SecurityGraph, s: Seq<u32>, j: int) -> bool {
    exists|k: int| #[trigger] expands(g, s, k, j)
}

/// `s` is the visiting order of a depth-first traversal that follows each
/// host's targets in increasing order: every host after the first is the
/// least unvisited target of the latest earlier host that still has one.
pub open spec fn is_depth_first(g: SecurityGraph, s: Seq<u32>) -> bool {
    forall|j: int| 1 <= j < s.len() ==> #[trigger] has_expander(g, s, j)
}

/// Whether `s[j]` is expanded from `s[k]` depends only on `s[0..=j]`.
proof fn lemma_expands_extend(g: SecurityGraph, s: Seq<u32>, s2: Seq<u32>, k: int, j: int)
    requires
        expands(g, s, k, j),
        s.len() <= s2.len(),
        s2.subrange(0, s.len() as int) == s,
    ensures
        expands(g, s2, k, j),
{
    assert(s2[k] == s2.subrange(0, s.len() as int)[k]);
    assert(s2[j] == s2.subrange(0, s.len() as int)[j]);
    assert(s2.subrange(0, j) =~= s.subrange(0, j));
    assert forall|k2: int, t: u32|
        k < k2 < j && #[trigger] step(g, false, s2[k2], t) implies s2.subrange(0, j).contains(t) by {
        assert(s2[k2] == s2.subrange(0, s.len() as int)[k2]);
        assert(step(g, false, s[k2], t));
    }
}

/// A depth-first order stays depth-first in any extension, up to its length.
proof fn lemma_depth_first_prefix(g: SecurityGraph, s: Seq<u32>, s2: Seq<u32>, j: int)
    requires
        is_depth_first(g, s),
        s.len() <= s2.len(),
        s2.subrange(0, s.len() as int) == s,
        1 <= j < s.len(),
    ensures
        has_expander(g, s2, j),
{
    assert(has_expander(g, s, j));
    let k = choose|k: int| #[trigger] expands(g, s, k, j);
    lemma_expands_extend(g, s, s2, k, j);
}

/// The earliest host of `s` with a step to `x`, given that `s[k0]` has one.
proof fn lemma_first_stepper(g: SecurityGraph, undirected: bool, s: Seq<u32>, x: u32, k0: int) -> (k: int)
    requires
        0 <= k0 < s.len(),
        step(g, undirected, s[k0], x),
    ensures
        0 <= k <= k0,
        step(g, undirected, s[k], x),
        forall|k2: int| 0 <= k2 < k ==> !step(g, undirected, #[trigger] s[k2], x),
    decreases k0,
{
    if exists|k2: int| 0 <= k2 < k0 && #[trigger] step(g, undirected, s[k2], x) {
        let k2 = choose|k2: int| 0 <= k2 < k0 && #[trigger] step(g, undirected, s[k2], x);
        lemma_first_stepper(g, undirected, s, x, k2)
    } else {
        k0
    }
}

/// Depth-first visit of `current` and everything newly reachable from it.
fn visit_depth_first(
    g: &SecurityGraph,
    current: u32,
    visited: &mut BTreeSet<u32>,
    order: &mut Vec<u32>,
    Ghost(start): Ghost<u32>,
)
    requires
        g.wf(),
        reach(*g, false, start, current),
        !old(visited)@.contains(current),
        forall|y: u32| old(visited)@.contains(y) <==> old(order)@.contains(y),
        old(order)@.no_duplicates(),
        forall|j: int| 0 <= j < old(order).len() ==> reach(*g, false, start, #[trigger] old(order)[j]),
        discovered_in_order(*g, false, old(order)@),
        is_depth_first(*g, old(order)@),
        old(order).len() > 0 ==> has_expander(*g, old(order)@.push(current), old(order).len() as int),
        old(order).len() == 0 ==> current == start,
        old(order).len() > 0 ==> old(order)[0] == start && stepped_from_prefix(
            *g,
            false,
            old(order)@,
            current,
        ),
    ensures
        final(order).len() > old(order).len(),
        final(order)@.subrange(0, old(order).len() as int) == old(order)@,
        final(order)[old(order).len() as int] == current,
        forall|y: u32| final(visited)@.contains(y) <==> final(order)@.contains(y),
        final(order)@.no_duplicates(),
        forall|j: int| 0 <= j < final(order).len() ==> reach(*g, false, start, #[trigger] final(order)[j]),
        discovered_in_order(*g, false, final(order)@),
        is_depth_first(*g, final(order)@),
        forall|j: int, y: u32|
            old(order).len() <= j < final(order).len() && #[trigger] step(*g, false, final(order)[j], y)
                ==> final(visited)@.contains(y),
    decreases g.node_map().len() - old(order).len(),
{
    proof {
        assert forall|i: int| 0 <= i < order.len() implies g.has_node(#[trigger] order@[i]) by {
            lemma_reach_is_node(*g, false, start, order[i]);
        }
        lemma_reach_is_node(*g, false, start, current);
        let extended = order@.push(current);
        assert forall|i: int| 0 <= i < extended.len() implies g.has_node(#[trigger] extended[i]) by {
            if i < order.len() {
                assert(extended[i] == order@[i]);
            }
        }
        assert(extended.no_duplicates()) by {
            assert forall|i: int, j: int| 0 <= i < j < extended.len() implies extended[i] != extended[j] by {
                if j == order.len() {
                    assert(order@.contains(extended[i]));
                }
            }
        }
        lemma_node_list_len(*g, extended);
    }
    let ghost start_len = order.len();
    let ghost before = order@;
    visited.insert(current);
    order.push(current);
    proof {
        assert(order@ == before.push(current));
        assert forall|y: u32| visited@.contains(y) <==> order@.contains(y) by {
            if order@.contains(y) {
                let k = choose|k: int| 0 <= k < order.len() && order[k] == y;
                if k < start_len {
                    assert(before[k] == y);
                }
            }
            if before.contains(y) {
                let k = choose|k: int| 0 <= k < before.len() && before[k] == y;
                assert(order[k] == y);
            }
            if y == current {
                assert(order[start_len as int] == y);
            }
        }
        assert(order@.no_duplicates()) by {
            assert forall|i: int, j: int| 0 <= i < j < order.len() implies order[i] != order[j] by {
                if j == start_len {
                    assert(before.contains(order[i]));
                }
            }
        }
        assert forall|j: int| 1 <= j < order.len() implies #[trigger] has_discoverer(
            *g,
            false,
            order@,
            j,
        ) by {
            if j < start_len {
                assert(has_discoverer(*g, false, before, j));
                let k = choose|k: int| #[trigger] discovered_by(*g, false, before, k, j);
                assert(discovered_by(*g, false, order@, k, j));
            } else {
                let k0 = choose|k: int| 0 <= k < before.len() && #[trigger] step(*g, false, before[k], current);
                let k = lemma_first_stepper(*g, false, before, current, k0);
                assert forall|k2: int| 0 <= k2 < k implies !step(*g, false, #[trigger] order@[k2], order@[j]) by {
                    assert(order@[k2] == before[k2]);
                }
                assert(discovered_by(*g, false, order@, k, j));
            }
        }
        assert forall|j: int| 1 <= j < order.len() implies #[trigger] has_expander(*g, order@, j) by {
            if j < start_len {
                assert(order@.subrange(0, before.len() as int) =~= before);
                lemma_depth_first_prefix(*g, before, order@, j);
            }
        }
    }
    let targets = step_targets(g, current, false);
    let mut m: usize = 0;
    while m < targets.len()
        invariant
            g.wf(),
            strictly_increasing(targets@),
            forall|y: u32| targets@.contains(y) <==> step(*g, false, current, y),
            0 <= m <= targets.len(),
            order.len() > start_len,
            order@.subrange(0, start_len as int) == before,
            order[start_len as int] == current,
            start_len == old(order).len(),
            start_len == 0 ==> current == start,
            start_len > 0 ==> before[0] == start,
            forall|y: u32| visited@.contains(y) <==> order@.contains(y),
            order@.no_duplicates(),
            forall|j: int| 0 <= j < order.len() ==> reach(*g, false, start, #[trigger] order[j]),
            discovered_in_order(*g, false, order@),
            is_depth_first(*g, order@),
            forall|j: int, y: u32|
                start_len < j < order.len() && #[trigger] step(*g, false, order[j], y)
                    ==> visited@.contains(y),
            forall|a: int| 0 <= a < m ==> visited@.contains(#[trigger] targets[a]),
        decreases targets.len() - m,
    {
        let next = targets[m];
        proof {
            assert(targets@.contains(next));
        }
        if !visited.contains(&next) {
            let ghost mid = order@;
            let ghost mid_visited = visited@;
            proof {
                lemma_reach_step(*g, false, start, current, next);
                assert(step(*g, false, mid[start_len as int], next));
                assert(stepped_from_prefix(*g, false, mid, next));
                assert(mid[0] == start) by {
                    if start_len > 0 {
                        assert(mid[0] == mid.subrange(0, start_len as int)[0]);
                    }
                }
                assert forall|i: int| 0 <= i < mid.len() implies g.has_node(#[trigger] mid[i]) by {
                    lemma_reach_is_node(*g, false, start, mid[i]);
                }
                lemma_node_list_len(*g, mid);
                let ext = mid.push(next);
                assert(ext.subrange(0, mid.len() as int) =~= mid);
                assert(ext[start_len as int] == current);
                assert forall|t: u32|
                    #[trigger] step(*g, false, ext[start_len as int], t) && !ext.subrange(0, mid.len() as int).contains(t)
                    implies ext[mid.len() as int] <= t by {
                    assert(targets@.contains(t));
                    let a = choose|a: int| 0 <= a < targets.len() && targets[a] == t;
                    if a < m {
                        assert(visited@.contains(targets[a]));
                    }
                }
                assert forall|k2: int, t: u32|
                    start_len < k2 < mid.len() && #[trigger] step(*g, false, ext[k2], t)
                    implies ext.subrange(0, mid.len() as int).contains(t) by {
                    assert(ext[k2] == mid[k2]);
                    assert(visited@.contains(t));
                }
                assert(expands(*g, ext, start_len as int, mid.len() as int));
            }
            visit_depth_first(g, next, visited, order, Ghost(start));
            proof {
                assert forall|k: int| 0 <= k < start_len implies order@[k] == before[k] by {
                    assert(order@[k] == order@.subrange(0, mid.len() as int)[k]);
                    assert(mid[k] == mid.subrange(0, start_len as int)[k]);
                }
                assert(order@.subrange(0, start_len as int) =~= before);
                assert(order[start_len as int] == order@.subrange(0, mid.len() as int)[start_len as int]);
                assert forall|j: int, y: u32|
                    start_len < j < order.len() && #[trigger] step(*g, false, order[j], y) implies visited@.contains(y) by {
                    if j < mid.len() {
                        assert(order[j] == order@.subrange(0, mid.len() as int)[j]);
                        assert(mid_visited.contains(y));
                        assert(mid.contains(y));
                        let b = choose|b: int| 0 <= b < mid.len() && mid[b] == y;
                        assert(order[b] == order@.subrange(0, mid.len() as int)[b]);
                    }
                }
                assert forall|a: int| 0 <= a < m + 1 implies visited@.contains(#[trigger] targets[a]) by {
                    if a < m {
                        assert(mid.contains(targets[a]));
                        let b = choose|b: int| 0 <= b < mid.len() && mid[b] == targets[a];
                        assert(order[b] == order@.subrange(0, mid.len() as int)[b]);
                    } else {
                        assert(order[mid.len() as int] == next);
                    }
                }
            }
        }
        m += 1;
    }
    proof {
        assert forall|j: int, y: u32|
            start_len <= j < order.len() && #[trigger] step(*g, false, order[j], y) implies visited@.contains(y) by {
            if j == start_len {
                assert(targets@.contains(y));
                let a = choose|a: int| 0 <= a < targets.len() && targets[a] == y;
                assert(visited@.contains(targets[a]));
            }
        }
    }
}

} // verus!

verus! {

/// Depth-first traversal of the directed graph from `start_ip`, following
/// each host's targets in increasing address order: the hosts reachable
/// from it in depth-first visiting order. Empty when `start_ip` is not a
/// node.
pub fn dfs(graph: &SecurityGraph, start_ip: u32) -> (order: Vec<u32>)
    requires
        graph.wf(),
    ensures
        !graph.has_node(start_ip) ==> order.len() == 0,
        graph.has_node(start_ip) ==> {
            &&& order.len() >= 1
            &&& order[0] == start_ip
            &&& order@.no_duplicates()
            &&& forall|t: u32| order@.contains(t) <==> reach(*graph, false, start_ip, t)
            &&& discovered_in_order(*graph, false, order@)
            &&& is_depth_first(*graph, order@)
        },
{
    if graph.get_node(start_ip).is_none() {
        return Vec::new();
    }
    let mut visited: BTreeSet<u32> = BTreeSet::new();
    let mut order: Vec<u32> = Vec::new();
    proof {
        lemma_reach_refl(*graph, false, start_ip);
    }
    visit_depth_first(graph, start_ip, &mut visited, &mut order, Ghost(start_ip));
    proof {
        let c = order@.to_set();
        assert forall|a: u32, b: u32| c.contains(a) && #[trigger] step(*graph, false, a, b) implies c.contains(b) by {
            let k = choose|k: int| 0 <= k < order.len() && order[k] == a;
            assert(step(*graph, false, order[k], b));
            assert(visited@.contains(b));
        }
        assert forall|t: u32| order@.contains(t) <==> reach(*graph, false, start_ip, t) by {
            if reach(*graph, false, start_ip, t) {
                assert(order@.subrange(0, 0) =~= Seq::<u32>::empty());
                assert(c.contains(order[0]));
                lemma_closed_contains_reach(*graph, false, c, start_ip, t);
            }
            if order@.contains(t) {
                let k = choose|k: int| 0 <= k < order.len() && order[k] == t;
                assert(reach(*graph, false, start_ip, order[k]));
            }
        }
    }
    order
}

/// Two visiting orders that start at the same host, hold the same hosts once
/// each, and are both depth-first agree on their first `j` hosts.
proof fn lemma_depth_first_agree(g: SecurityGraph, s1: Seq<u32>, s2: Seq<u32>, j: int)
    requires
        s1.len() >= 1,
        s2.len() >= 1,
        s1[0] == s2[0],
        s1.no_duplicates(),
        s2.no_duplicates(),
        is_depth_first(g, s1),
        is_depth_first(g, s2),
        1 <= j <= s1.len(),
        j <= s2.len(),
    ensures
        s1.subrange(0, j) == s2.subrange(0, j),
    decreases j,
{
    if j == 1 {
        assert(s1.subrange(0, 1) =~= s2.subrange(0, 1));
    } else {
        let i = j - 1;
        lemma_depth_first_agree(g, s1, s2, i);
        let p = s1.subrange(0, i);
        assert forall|a: int| 0 <= a < i implies #[trigger] s1[a] == s2[a] && s1[a] == p[a] by {
            assert(s2[a] == s2.subrange(0, i)[a]);
        }
        assert(!p.contains(s1[i])) by {
            if p.contains(s1[i]) {
                let a = choose|a: int| 0 <= a < p.len() && p[a] == s1[i];
            }
        }
        assert(!p.contains(s2[i])) by {
            if p.contains(s2[i]) {
                let a = choose|a: int| 0 <= a < p.len() && p[a] == s2[i];
            }
        }
        assert(has_expander(g, s1, i));
        assert(has_expander(g, s2, i));
        let k1 = choose|k: int| #[trigger] expands(g, s1, k, i);
        let k2 = choose|k: int| #[trigger] expands(g, s2, k, i);
        if k1 < k2 {
            assert(s1[k2] == s2[k2]);
            assert(step(g, false, s1[k2], s2[i]));
        } else if k2 < k1 {
            assert(s1[k1] == s2[k1]);
            assert(step(g, false, s2[k1], s1[i]));
        } else {
            assert(s1[k1] == s2[k1]);
            assert(step(g, false, s1[k1], s2[i]));
            assert(step(g, false, s2[k1], s1[i]));
        }
        assert(s1.subrange(0, j) =~= s2.subrange(0, j));
    }
}

/// The depth-first order is determined: two orders that start at the same
/// host, hold the same hosts once each, and are both depth-first are equal.
pub proof fn lemma_depth_first_unique(g: SecurityGraph, s1: Seq<u32>, s2: Seq<u32>)
    requires
        s1.len() >= 1,
        s2.len() >= 1,
        s1[0] == s2[0],
        s1.no_duplicates(),
        s2.no_duplicates(),
        forall|t: u32| s1.contains(t) <==> s2.contains(t),
        is_depth_first(g, s1),
        is_depth_first(g, s2),
    ensures
        s1 == s2,
{
    if s1.len() < s2.len() {
        lemma_depth_first_agree(g, s1, s2, s1.len() as int);
        assert(s1.subrange(0, s1.len() as int) =~= s1);
        lemma_longer_order_repeats(s1, s2);
    } else if s2.len() < s1.len() {
        lemma_depth_first_agree(g, s2, s1, s2.len() as int);
        assert(s2.subrange(0, s2.len() as int) =~= s2);
        lemma_longer_order_repeats(s2, s1);
    } else {
        lemma_depth_first_agree(g, s1, s2, s1.len() as int);
        assert(s1 =~= s1.subrange(0, s1.len() as int));
        assert(s2 =~= s2.subrange(0, s2.len() as int));
    }
}

/// A sequence that starts with all of a shorter one, and holds no host
/// beyond those, repeats a host.
proof fn lemma_longer_order_repeats(s1: Seq<u32>, s2: Seq<u32>)
    requires
        s1.len() < s2.len(),
        s2.subrange(0, s1.len() as int) == s1,
        forall|t: u32| s1.contains(t) <==> s2.contains(t),
    ensures
        !s2.no_duplicates(),
{
    let n = s1.len() as int;
    assert(s2.contains(s2[n]));
    let a = choose|a: int| 0 <= a < s1.len() && s1[a] == s2[n];
    assert(s2[a] == s2.subrange(0, n)[a]);
}

/// Two visiting orders that start at the same host, hold the same hosts once
/// each, and are both breadth-first agree on their first `j` hosts.
proof fn lemma_breadth_first_agree(g: SecurityGraph, undirected: bool, s1: Seq<u32>, s2: Seq<u32>, j: int)
    requires
        s1.len() >= 1,
        s2.len() >= 1,
        s1[0] == s2[0],
        s1.no_duplicates(),
        s2.no_duplicates(),
        forall|t: u32| s1.contains(t) <==> s2.contains(t),
        is_breadth_first(g, undirected, s1),
        is_breadth_first(g, undirected, s2),
        1 <= j <= s1.len(),
        j <= s2.len(),
    ensures
        s1.subrange(0, j) == s2.subrange(0, j),
    decreases j,
{
    if j == 1 {
        assert(s1.subrange(0, 1) =~= s2.subrange(0, 1));
    } else {
        let i = j - 1;
        lemma_breadth_first_agree(g, undirected, s1, s2, i);
        assert forall|a: int| 0 <= a < i implies #[trigger] s1[a] == s2[a] by {
            assert(s1[a] == s1.subrange(0, i)[a]);
            assert(s2[a] == s2.subrange(0, i)[a]);
        }
        if s1[i] != s2[i] {
            let x = s1[i];
            let y = s2[i];
            // Where each of them stands in the other order.
            assert(s1.contains(y) && s2.contains(x)) by {
                assert(s2.contains(s2[i]));
                assert(s1.contains(s1[i]));
            }
            let i1 = choose|a: int| 0 <= a < s1.len() && s1[a] == y;
            let i2 = choose|a: int| 0 <= a < s2.len() && s2[a] == x;
            assert(i1 > i) by {
                if i1 < i {
                    assert(s2[i1] == y);
                }
            }
            assert(i2 > i) by {
                if i2 < i {
                    assert(s1[i2] == x);
                }
            }
            assert(has_discoverer(g, undirected, s1, i));
            assert(has_discoverer(g, undirected, s2, i));
            assert(has_discoverer(g, undirected, s1, i1));
            assert(has_discoverer(g, undirected, s2, i2));
            let p1 = choose|k: int| #[trigger] discovered_by(g, undirected, s1, k, i);
            let p2 = choose|k: int| #[trigger] discovered_by(g, undirected, s2, k, i);
            let q1 = choose|k: int| #[trigger] discovered_by(g, undirected, s1, k, i1);
            let q2 = choose|k: int| #[trigger] discovered_by(g, undirected, s2, k, i2);
            // `y` is first stepped to from the same host in both orders.
            assert(q1 == p2) by {
                if q1 < p2 {
                    assert(step(g, undirected, s2[q1], y));
                } else if p2 < q1 {
                    assert(step(g, undirected, s1[p2], y));
                }
            }
            assert(q2 == p1) by {
                if q2 < p1 {
                    assert(step(g, undirected, s1[q2], x));
                } else if p1 < q2 {
                    assert(step(g, undirected, s2[p1], x));
                }
            }
            assert(p1 < q1 || (p1 == q1 && s1[i] < s1[i1]));
            assert(p2 < q2 || (p2 == q2 && s2[i] < s2[i2]));
        }
        assert(s1.subrange(0, j) =~= s2.subrange(0, j));
    }
}

/// The breadth-first order is determined: two orders that start at the same
/// host, hold the same hosts once each, and are both breadth-first are equal.
pub proof fn lemma_breadth_first_unique(g: SecurityGraph, undirected: bool, s1: Seq<u32>, s2: Seq<u32>)
    requires
        s1.len() >= 1,
        s2.len() >= 1,
        s1[0] == s2[0],
        s1.no_duplicates(),
        s2.no_duplicates(),
        forall|t: u32| s1.contains(t) <==> s2.contains(t),
        is_breadth_first(g, undirected, s1),
        is_breadth_first(g, undirected, s2),
    ensures
        s1 == s2,
{
    if s1.len() < s2.len() {
        lemma_breadth_first_agree(g, undirected, s1, s2, s1.len() as int);
        assert(s1.subrange(0, s1.len() as int) =~= s1);
        lemma_longer_order_repeats(s1, s2);
    } else if s2.len() < s1.len() {
        lemma_breadth_first_agree(g, undirected, s2, s1, s2.len() as int);
        assert(s2.subrange(0, s2.len() as int) =~= s2);
        lemma_longer_order_repeats(s2, s1);
    } else {
        lemma_breadth_first_agree(g, undirected, s1, s2, s1.len() as int);
        assert(s1 =~= s1.subrange(0, s1.len() as int));
        assert(s2 =~= s2.subrange(0, s2.len() as int));
    }
}

/// The hosts of `c` are exactly those joined (ignoring direction) to any one
/// of them.
pub open spec fn is_component(g: SecurityGraph, c: Seq<u32>) -> bool {
    forall|x: u32, y: u32|
        #![trigger c.contains(x), c.contains(y)]
        #![trigger c.contains(x), reach(g, true, x, y)]
        c.contains(x) ==> (c.contains(y) <==> reach(g, true, x, y))
}

/// The members of `members`, in increasing order without repetition.
fn sorted_set_of(members: &Vec<u32>) -> (r: Vec<u32>)
    ensures
        strictly_increasing(r@),
        forall|y: u32| r@.contains(y) <==> members@.contains(y),
{
    let mut r: Vec<u32> = Vec::new();
    let mut k: usize = 0;
    while k < members.len()
        invariant
            0 <= k <= members.len(),
            strictly_increasing(r@),
            forall|y: u32| r@.contains(y) <==> members@.subrange(0, k as int).contains(y),
        decreases members.len() - k,
    {
        insert_sorted(&mut r, members[k]);
        proof {
            assert(members@.subrange(0, k as int + 1) =~= members@.subrange(0, k as int).push(members[k as int]));
            assert forall|y: u32| r@.contains(y) <==> members@.subrange(0, k as int + 1).contains(y) by {
                members@.subrange(0, k as int).lemma_push_to_set_commute(members[k as int]);
                assert(members@.subrange(0, k as int).to_set().contains(y) <==> members@.subrange(0, k as int).contains(y));
                assert(members@.subrange(0, k as int + 1).to_set().contains(y) <==> members@.subrange(0, k as int + 1).contains(y));
            }
        }
        k += 1;
    }
    proof {
        assert(members@.subrange(0, members.len() as int) =~= members@);
    }
    r
}

/// Adds every host of `c` to `visited`.
fn mark_visited(visited: &mut BTreeSet<u32>, c: &Vec<u32>)
    ensures
        forall|y: u32|
            #![trigger final(visited)@.contains(y)]
            #![trigger old(visited)@.contains(y)]
            #![trigger c@.contains(y)]
            final(visited)@.contains(y) <==> (old(visited)@.contains(y) || c@.contains(y)),
{
    let mut v: usize = 0;
    while v < c.len()
        invariant
            0 <= v <= c.len(),
            forall|y: u32|
                visited@.contains(y) <==> (old(visited)@.contains(y) || c@.subrange(0, v as int).contains(y)),
        decreases c.len() - v,
    {
        let ghost before = visited@;
        visited.insert(c[v]);
        proof {
            assert(visited@ == before.insert(c[v as int]));
            assert(c@.subrange(0, v as int + 1) =~= c@.subrange(0, v as int).push(c[v as int]));
            c@.subrange(0, v as int).lemma_push_to_set_commute(c[v as int]);
            assert forall|y: u32|
                visited@.contains(y) <==> (old(visited)@.contains(y) || c@.subrange(0, v as int + 1).contains(y)) by {
                assert(c@.subrange(0, v as int).to_set().contains(y) <==> c@.subrange(0, v as int).contains(y));
                assert(c@.subrange(0, v as int + 1).to_set().contains(y) <==> c@.subrange(0, v as int + 1).contains(y));
            }
        }
        v += 1;
    }
    proof {
        assert(c@.subrange(0, c.len() as int) =~= c@);
    }
}

/// The set of hosts joined to `root` is a component.
proof fn lemma_class_is_component(g: SecurityGraph, root: u32, c: Seq<u32>)
    requires
        g.wf(),
        forall|y: u32| c.contains(y) <==> reach(g, true, root, y),
    ensures
        is_component(g, c),
{
    assert forall|x: u32, y: u32| c.contains(x) implies (c.contains(y) <==> reach(g, true, x, y)) by {
        lemma_reach_sym(g, root, x);
        if reach(g, true, x, y) {
            lemma_reach_trans(g, true, root, x, y);
        }
        if c.contains(y) {
            lemma_reach_trans(g, true, x, root, y);
        }
    }
}

/// The components found so far: non-empty, ascending, each a component,
/// each starting at one of the first `n` addresses, in increasing order of
/// their first hosts, pairwise disjoint, and covering exactly `visited`.
spec fn components_so_far(
    g: SecurityGraph,
    ips: Seq<u32>,
    n: int,
    comps: Seq<Vec<u32>>,
    visited: Set<u32>,
) -> bool {
    &&& forall|i: int| #![trigger comps[i]]
        0 <= i < comps.len() ==> comps[i].len() > 0 && strictly_increasing(comps[i]@) && is_component(
            g,
            comps[i]@,
        )
    &&& forall|i: int| #![trigger comps[i]]
        0 <= i < comps.len() ==> exists|a: int| 0 <= a < n && ips[a] == comps[i]@[0]
    &&& forall|i: int, j: int| 0 <= i < j < comps.len() ==> comps[i]@[0] < comps[j]@[0]
    &&& forall|y: u32|
        visited.contains(y) <==> exists|i: int| 0 <= i < comps.len() && (#[trigger] comps[i]@).contains(y)
    &&& forall|i: int, j: int, x: u32|
        #![trigger comps[i]@.contains(x), comps[j]@.contains(x)]
        0 <= i < comps.len() && 0 <= j < comps.len() && i != j && comps[i]@.contains(x)
            ==> !comps[j]@.contains(x)
}

/// Adding the class of the first unvisited address keeps the components in
/// shape.
proof fn lemma_add_component(
    g: SecurityGraph,
    ips: Seq<u32>,
    n: int,
    comps: Seq<Vec<u32>>,
    visited: Set<u32>,
    comp: Vec<u32>,
    new_visited: Set<u32>,
)
    requires
        g.wf(),
        0 <= n < ips.len(),
        strictly_increasing(ips),
        forall|ip: u32| ips.contains(ip) <==> g.has_node(ip),
        forall|a: int| 0 <= a < n ==> visited.contains(#[trigger] ips[a]),
        components_so_far(g, ips, n, comps, visited),
        !visited.contains(ips[n]),
        strictly_increasing(comp@),
        forall|y: u32| comp@.contains(y) <==> reach(g, true, ips[n], y),
        forall|y: u32| new_visited.contains(y) <==> (visited.contains(y) || comp@.contains(y)),
    ensures
        components_so_far(g, ips, n + 1, comps.push(comp), new_visited),
        forall|a: int| 0 <= a < n + 1 ==> new_visited.contains(#[trigger] ips[a]),
{
    let root = ips[n];
    assert(ips.contains(root));
    lemma_reach_refl(g, true, root);
    assert(comp@.contains(root));
    lemma_class_is_component(g, root, comp@);
    // Nothing of the new component was visited before.
    assert forall|i: int, x: u32|
        0 <= i < comps.len() && #[trigger] comps[i]@.contains(x) implies !comp@.contains(x) by {
        if comp@.contains(x) {
            assert(is_component(g, comps[i]@));
            lemma_reach_sym(g, root, x);
            assert(comps[i]@.contains(root));
            assert(visited.contains(root));
        }
    }
    // Its first host is the root: every smaller node was visited already.
    assert(comp@[0] == root) by {
        let z = comp@[0];
        assert(comp@.contains(z));
        lemma_reach_is_node(g, true, root, z);
        if z < root {
            assert(ips.contains(z));
            let a = choose|a: int| 0 <= a < ips.len() && ips[a] == z;
            assert(a < n) by {
                if a >= n {
                    assert(ips[n] <= ips[a]);
                }
            }
            assert(visited.contains(ips[a]));
            let i = choose|i: int| 0 <= i < comps.len() && (#[trigger] comps[i]@).contains(z);
            assert(comps[i]@.contains(z));
        }
        if z > root {
            let b = choose|b: int| 0 <= b < comp.len() && comp@[b] == root;
            assert(comp@[0] < comp@[b]);
        }
    }
    let nc = comps.push(comp);
    let last = comps.len() as int;
    assert forall|i: int| #![trigger nc[i]]
        0 <= i < nc.len() implies exists|a: int| 0 <= a < n + 1 && ips[a] == nc[i]@[0] by {
        if i < last {
            let a = choose|a: int| 0 <= a < n && ips[a] == comps[i]@[0];
            assert(ips[a] == nc[i]@[0]);
        } else {
            assert(ips[n] == nc[i]@[0]);
        }
    }
    assert forall|i: int, j: int| 0 <= i < j < nc.len() implies nc[i]@[0] < nc[j]@[0] by {
        if j == last {
            let a = choose|a: int| 0 <= a < n && ips[a] == comps[i]@[0];
            assert(ips[a] < ips[n]);
        } else {
            assert(comps[i]@[0] < comps[j]@[0]);
        }
    }
    assert forall|y: u32|
        new_visited.contains(y) <==> exists|i: int| 0 <= i < nc.len() && (#[trigger] nc[i]@).contains(y) by {
        if new_visited.contains(y) {
            if visited.contains(y) {
                let i = choose|i: int| 0 <= i < comps.len() && (#[trigger] comps[i]@).contains(y);
                assert(nc[i] == comps[i]);
            } else {
                assert(nc[last]@.contains(y));
            }
        }
        if exists|i: int| 0 <= i < nc.len() && (#[trigger] nc[i]@).contains(y) {
            let i = choose|i: int| 0 <= i < nc.len() && (#[trigger] nc[i]@).contains(y);
            if i < last {
                assert(nc[i] == comps[i]);
                assert(visited.contains(y));
            }
        }
    }
    assert forall|i: int, j: int, x: u32|
        #![trigger nc[i]@.contains(x), nc[j]@.contains(x)]
        0 <= i < nc.len() && 0 <= j < nc.len() && i != j && nc[i]@.contains(x) implies !nc[j]@.contains(x) by {
        if i < last && j < last {
            assert(nc[i] == comps[i]);
            assert(nc[j] == comps[j]);
            assert(!comps[j]@.contains(x));
        } else if i == last {
            assert(nc[j] == comps[j]);
            if comps[j]@.contains(x) {
                assert(!comp@.contains(x));
            }
        } else {
            assert(nc[i] == comps[i]);
            assert(!comp@.contains(x));
        }
    }
    assert forall|i: int| #![trigger nc[i]]
        0 <= i < nc.len() implies nc[i].len() > 0 && strictly_increasing(nc[i]@) && is_component(
            g,
            nc[i]@,
        ) by {
        if i < last {
            assert(nc[i] == comps[i]);
        }
    }
    assert forall|a: int| 0 <= a < n + 1 implies new_visited.contains(#[trigger] ips[a]) by {
        if a == n {
            assert(comp@.contains(root));
        }
    }
}

/// Partitions the nodes into connected components, treating edges as
/// undirected links. Each component lists its hosts in increasing order;
/// components come in increasing order of their smallest host (which,
/// components being disjoint, is also their lexicographic order).
pub fn connected_components(graph: &SecurityGraph) -> (components: Vec<Vec<u32>>)
    requires
        graph.wf(),
    ensures
        forall|i: int| #![trigger components[i]]
            0 <= i < components.len() ==> components[i].len() > 0 && strictly_increasing(
                components[i]@,
            ) && is_component(*graph, components[i]@),
        forall|i: int, j: int|
            0 <= i < j < components.len() ==> components[i]@[0] < components[j]@[0],
        forall|x: u32|
            graph.has_node(x) <==> exists|i: int|
                0 <= i < components.len() && (#[trigger] components[i]@).contains(x),
        forall|i: int, j: int, x: u32|
            #![trigger components[i]@.contains(x), components[j]@.contains(x)]
            0 <= i < components.len() && 0 <= j < components.len() && i != j
                && components[i]@.contains(x) ==> !components[j]@.contains(x),
{
    let ips = graph.node_ips();
    let mut visited: BTreeSet<u32> = BTreeSet::new();
    let mut components: Vec<Vec<u32>> = Vec::new();
    let mut n: usize = 0;
    while n < ips.len()
        invariant
            graph.wf(),
            0 <= n <= ips.len(),
            strictly_increasing(ips@),
            forall|ip: u32| ips@.contains(ip) <==> graph.has_node(ip),
            components_so_far(*graph, ips@, n as int, components@, visited@),
            forall|a: int| 0 <= a < n ==> visited@.contains(#[trigger] ips[a]),
        decreases ips.len() - n,
    {
        let root = ips[n];
        if !visited.contains(&root) {
            proof {
                assert(ips@.contains(root));
            }
            let members = traverse_breadth_first(graph, root, true);
            let comp = sorted_set_of(&members);
            let ghost old_visited = visited@;
            mark_visited(&mut visited, &comp);
            proof {
                lemma_add_component(*graph, ips@, n as int, components@, old_visited, comp, visited@);
            }
            components.push(comp);
        } else {
            proof {
                assert forall|a: int| 0 <= a < n + 1 implies visited@.contains(#[trigger] ips[a]) by {}
                assert forall|i: int| #![trigger components@[i]]
                    0 <= i < components.len() implies exists|a: int|
                    0 <= a < n + 1 && ips[a] == components@[i]@[0] by {
                    let a = choose|a: int| 0 <= a < n && ips[a] == components@[i]@[0];
                    assert(ips[a] == components@[i]@[0]);
                }
            }
        }
        n += 1;
    }
    proof {
        assert forall|x: u32|
            graph.has_node(x) <==> exists|i: int|
                0 <= i < components.len() && (#[trigger] components[i]@).contains(x) by {
            if graph.has_node(x) {
                assert(ips@.contains(x));
                let a = choose|a: int| 0 <= a < ips.len() && ips[a] == x;
                assert(visited@.contains(ips[a]));
            }
            if exists|i: int| 0 <= i < components.len() && (#[trigger] components[i]@).contains(x) {
                let i = choose|i: int| 0 <= i < components.len() && (#[trigger] components[i]@).contains(x);
                assert(is_component(*graph, components[i]@));
                assert(reach(*graph, true, x, x));
            }
        }
    }
    components
}

} // verus!
