use adg_xdp::network_intelligence::graph_algorithms::{bfs, connected_components, dfs};
use adg_xdp::network_intelligence::security_graph::{GraphEdge, GraphNode, SecurityGraph};

// 10.0.0.x addresses as u32 (host byte order)
const H1: u32 = 0x0A000001; // 10.0.0.1
const H2: u32 = 0x0A000002; // 10.0.0.2
const H3: u32 = 0x0A000003; // 10.0.0.3
const H4: u32 = 0x0A000004; // 10.0.0.4
const H5: u32 = 0x0A000005; // 10.0.0.5
const H6: u32 = 0x0A000006; // 10.0.0.6

fn edge(src_ip: u32, dst_ip: u32, packet_count: u64, byte_count: u64, unique_ports: u32, edge_risk: f64) -> GraphEdge {
    GraphEdge {
        src_ip,
        dst_ip,
        packet_count,
        byte_count,
        flow_count: 1,
        unique_ports,
        edge_risk_bits: edge_risk.to_bits(),
        last_seen: 1,
    }
}

fn setup_test_graph() -> SecurityGraph {
    // Test Graph:
    // h1 -> h2
    //  | \
    //  |  -> h3
    //  |
    //  -> h4
    let mut graph = SecurityGraph::new();
    for id in [H1, H2, H3, H4] {
        graph.add_node(GraphNode { host_ip: id, trust_score: 100, risk_level: 0 });
    }
    graph.add_edge(edge(H1, H2, 10, 1000, 1, 0.1));
    graph.add_edge(edge(H1, H3, 20, 2000, 2, 0.3));
    graph.add_edge(edge(H1, H4, 50, 5000, 5, 0.5));
    graph
}

#[test]
fn test_bfs_traversal() {
    let graph = setup_test_graph();
    let order = bfs(&graph, H1);
    assert_eq!(order, vec![H1, H2, H3, H4]);
}

#[test]
fn test_dfs_traversal() {
    let graph = setup_test_graph();
    let order = dfs(&graph, H1);
    assert_eq!(order, vec![H1, H2, H3, H4]);
}

#[test]
fn test_connected_components() {
    let mut graph = setup_test_graph();
    // Add an isolated pair: h5 <-> h6
    graph.add_node(GraphNode { host_ip: H5, trust_score: 100, risk_level: 0 });
    graph.add_node(GraphNode { host_ip: H6, trust_score: 100, risk_level: 0 });
    graph.add_edge(edge(H5, H6, 1, 64, 1, 0.0));

    let components = connected_components(&graph);
    assert_eq!(components.len(), 2);
    assert_eq!(components[0], vec![H1, H2, H3, H4]);
    assert_eq!(components[1], vec![H5, H6]);
}

// ===== BRUTAL EDGE CASES =====

#[test]
fn test_bfs_empty_graph() {
    let graph = SecurityGraph::new();
    let order = bfs(&graph, H1);
    assert!(order.is_empty());
}

#[test]
fn test_dfs_empty_graph() {
    let graph = SecurityGraph::new();
    let order = dfs(&graph, H1);
    assert!(order.is_empty());
}

#[test]
fn test_connected_components_empty_graph() {
    let graph = SecurityGraph::new();
    let cc = connected_components(&graph);
    assert!(cc.is_empty());
}

#[test]
fn test_single_isolated_node() {
    let mut graph = SecurityGraph::new();
    graph.add_node(GraphNode { host_ip: H1, trust_score: 100, risk_level: 0 });
    let bfs_order = bfs(&graph, H1);
    assert_eq!(bfs_order, vec![H1]);
    let dfs_order = dfs(&graph, H1);
    assert_eq!(dfs_order, vec![H1]);
    let cc = connected_components(&graph);
    assert_eq!(cc, vec![vec![H1]]);
}

#[test]
fn test_all_isolated_nodes() {
    let mut graph = SecurityGraph::new();
    for id in [H1, H2, H3, H4] {
        graph.add_node(GraphNode { host_ip: id, trust_score: 100, risk_level: 0 });
    }
    let cc = connected_components(&graph);
    assert_eq!(cc.len(), 4, "Each isolated node is its own component");
    for c in &cc {
        assert_eq!(c.len(), 1);
    }
}

#[test]
fn test_cycle_graph() {
    // H1 -> H2 -> H3 -> H1 (cycle)
    let mut graph = SecurityGraph::new();
    for id in [H1, H2, H3] {
        graph.add_node(GraphNode { host_ip: id, trust_score: 100, risk_level: 0 });
    }
    graph.add_edge(edge(H1, H2, 1, 100, 1, 0.1));
    graph.add_edge(edge(H2, H3, 1, 100, 1, 0.2));
    graph.add_edge(edge(H3, H1, 1, 100, 1, 0.3));

    // BFS/DFS must not infinite loop
    let bfs_order = bfs(&graph, H1);
    assert_eq!(bfs_order.len(), 3);
    assert_eq!(bfs_order[0], H1);
    let dfs_order = dfs(&graph, H1);
    assert_eq!(dfs_order.len(), 3);
    assert_eq!(dfs_order[0], H1);

    // Connected components: single component
    let cc = connected_components(&graph);
    assert_eq!(cc.len(), 1);
    assert_eq!(cc[0].len(), 3);
}

#[test]
fn test_linear_chain_traversal_order() {
    // H1 -> H2 -> H3 -> H4 (linear chain)
    let mut graph = SecurityGraph::new();
    for id in [H1, H2, H3, H4] {
        graph.add_node(GraphNode { host_ip: id, trust_score: 100, risk_level: 0 });
    }
    graph.add_edge(edge(H1, H2, 1, 100, 1, 0.1));
    graph.add_edge(edge(H2, H3, 1, 100, 1, 0.2));
    graph.add_edge(edge(H3, H4, 1, 100, 1, 0.3));

    let bfs_order = bfs(&graph, H1);
    assert_eq!(bfs_order, vec![H1, H2, H3, H4]);
    let dfs_order = dfs(&graph, H1);
    assert_eq!(dfs_order, vec![H1, H2, H3, H4]);
}

#[test]
fn test_bfs_from_leaf_node() {
    let graph = setup_test_graph();
    // H4 has no outgoing edges, so BFS from H4 returns only H4
    let order = bfs(&graph, H4);
    assert_eq!(order, vec![H4]);
}

// ===== Further cases =====

#[test]
fn traversal_bfs_and_dfs_orders_differ_on_a_tree() {
    // H1 -> {H2, H3}, H2 -> H4, H3 -> H5
    let mut graph = SecurityGraph::new();
    graph.add_edge(edge(H1, H3, 1, 1, 1, 0.0));
    graph.add_edge(edge(H1, H2, 1, 1, 1, 0.0));
    graph.add_edge(edge(H2, H4, 1, 1, 1, 0.0));
    graph.add_edge(edge(H3, H5, 1, 1, 1, 0.0));
    assert_eq!(bfs(&graph, H1), vec![H1, H2, H3, H4, H5]);
    assert_eq!(dfs(&graph, H1), vec![H1, H2, H4, H3, H5]);
}

#[test]
fn traversal_follows_edge_direction_only() {
    let mut graph = SecurityGraph::new();
    graph.add_edge(edge(H2, H1, 1, 1, 1, 0.0));
    assert_eq!(bfs(&graph, H1), vec![H1]);
    assert_eq!(dfs(&graph, H1), vec![H1]);
    assert_eq!(bfs(&graph, H2), vec![H2, H1]);
    // Components ignore direction.
    assert_eq!(connected_components(&graph), vec![vec![H1, H2]]);
}

#[test]
fn components_sorted_by_smallest_host() {
    let mut graph = SecurityGraph::new();
    graph.add_edge(edge(H6, H1, 1, 1, 1, 0.0));
    graph.add_edge(edge(H4, H3, 1, 1, 1, 0.0));
    graph.add_node(GraphNode { host_ip: H2, trust_score: 1, risk_level: 1 });
    assert_eq!(connected_components(&graph), vec![vec![H1, H6], vec![H2], vec![H3, H4]]);
}
