use adg_xdp::network_intelligence::security_graph::{GraphEdge, GraphNode, SecurityGraph};

// 10.0.0.x addresses as u32 (host byte order)
const H1: u32 = 0x0A000001; // 10.0.0.1
const H2: u32 = 0x0A000002; // 10.0.0.2

fn risk(r: f64) -> u64 {
    r.to_bits()
}

#[test]
fn test_node_and_edge_management() {
    let mut graph = SecurityGraph::new();

    graph.add_node(GraphNode { host_ip: H1, trust_score: 90, risk_level: 1 });
    graph.add_node(GraphNode { host_ip: H2, trust_score: 50, risk_level: 2 });

    assert_eq!(graph.node_count(), 2);
    assert_eq!(graph.get_node(H1).unwrap().trust_score, 90);

    let edge = GraphEdge {
        src_ip: H1,
        dst_ip: H2,
        packet_count: 10,
        byte_count: 1000,
        flow_count: 1,
        unique_ports: 1,
        edge_risk_bits: risk(0.1),
        last_seen: 1_000_000,
    };
    graph.add_edge(edge.clone());

    assert_eq!(graph.edge_count(), 1);
    assert_eq!(graph.outgoing_edges(H1).len(), 1);
    assert_eq!(graph.incoming_edges(H2).len(), 1);
    assert_eq!(graph.neighbors(H1), vec![H2]);
    assert_eq!(graph.neighbors(H2), vec![H1]);
}

#[test]
fn test_expired_edges() {
    let mut graph = SecurityGraph::new();
    graph.add_edge(GraphEdge {
        src_ip: H1,
        dst_ip: H2,
        packet_count: 5,
        byte_count: 500,
        flow_count: 1,
        unique_ports: 1,
        edge_risk_bits: risk(0.2),
        last_seen: 1_000_000,
    });

    assert_eq!(graph.remove_expired_edges(10_000_000_000, 5_000_000_000), 1);
    assert_eq!(graph.edge_count(), 0);
}

// ===== BRUTAL EDGE CASES =====

#[test]
fn test_duplicate_edge_overwrites() {
    let mut graph = SecurityGraph::new();
    graph.add_edge(GraphEdge {
        src_ip: H1, dst_ip: H2, packet_count: 10, byte_count: 100,
        flow_count: 1, unique_ports: 1, edge_risk_bits: risk(0.1), last_seen: 1,
    });
    graph.add_edge(GraphEdge {
        src_ip: H1, dst_ip: H2, packet_count: 99, byte_count: 9999,
        flow_count: 5, unique_ports: 3, edge_risk_bits: risk(0.9), last_seen: 2,
    });
    assert_eq!(graph.edge_count(), 1, "Second add_edge should overwrite, not duplicate");
    assert_eq!(graph.get_edge(H1, H2).unwrap().packet_count, 99);
}

#[test]
fn test_directed_edge_asymmetry() {
    let mut graph = SecurityGraph::new();
    graph.add_edge(GraphEdge {
        src_ip: H1, dst_ip: H2, packet_count: 10, byte_count: 100,
        flow_count: 1, unique_ports: 1, edge_risk_bits: risk(0.5), last_seen: 1,
    });
    assert!(graph.get_edge(H1, H2).is_some());
    assert!(graph.get_edge(H2, H1).is_none(), "Directed: H2->H1 must not exist");
    assert_eq!(graph.outgoing_edges(H1).len(), 1);
    assert_eq!(graph.outgoing_edges(H2).len(), 0);
    assert_eq!(graph.incoming_edges(H1).len(), 0);
    assert_eq!(graph.incoming_edges(H2).len(), 1);
}

#[test]
fn test_self_loop_edge() {
    let mut graph = SecurityGraph::new();
    graph.add_edge(GraphEdge {
        src_ip: H1, dst_ip: H1, packet_count: 1, byte_count: 64,
        flow_count: 1, unique_ports: 1, edge_risk_bits: risk(0.0), last_seen: 1,
    });
    assert_eq!(graph.edge_count(), 1);
    assert_eq!(graph.outgoing_edges(H1).len(), 1);
    assert_eq!(graph.incoming_edges(H1).len(), 1);
    // Self-loop: H1 is its own neighbor
    assert_eq!(graph.neighbors(H1), vec![H1]);
}

#[test]
fn test_node_update_preserves_edges() {
    let mut graph = SecurityGraph::new();
    graph.add_node(GraphNode { host_ip: H1, trust_score: 100, risk_level: 0 });
    graph.add_edge(GraphEdge {
        src_ip: H1, dst_ip: H2, packet_count: 5, byte_count: 500,
        flow_count: 1, unique_ports: 1, edge_risk_bits: risk(0.2), last_seen: 1,
    });
    // Update H1 trust score
    graph.update_node(GraphNode { host_ip: H1, trust_score: 30, risk_level: 3 });
    assert_eq!(graph.get_node(H1).unwrap().trust_score, 30);
    assert_eq!(graph.edge_count(), 1, "Edges must survive node update");
}

#[test]
fn test_add_edge_auto_creates_nodes() {
    let mut graph = SecurityGraph::new();
    assert_eq!(graph.node_count(), 0);
    graph.add_edge(GraphEdge {
        src_ip: H1, dst_ip: H2, packet_count: 1, byte_count: 64,
        flow_count: 1, unique_ports: 1, edge_risk_bits: risk(0.0), last_seen: 1,
    });
    assert_eq!(graph.node_count(), 2, "add_edge should auto-create missing nodes");
    assert!(graph.get_node(H1).is_some());
    assert!(graph.get_node(H2).is_some());
}

#[test]
fn test_empty_graph_queries() {
    let mut graph = SecurityGraph::new();
    assert_eq!(graph.node_count(), 0);
    assert_eq!(graph.edge_count(), 0);
    assert!(graph.get_node(H1).is_none());
    assert!(graph.get_edge(H1, H2).is_none());
    assert!(graph.outgoing_edges(H1).is_empty());
    assert!(graph.incoming_edges(H1).is_empty());
    assert!(graph.neighbors(H1).is_empty());
    assert_eq!(graph.remove_expired_edges(999, 1), 0);
}

#[test]
fn test_large_graph_50_nodes() {
    let mut graph = SecurityGraph::new();
    // Create 50 nodes in a chain: 0x0A000001 -> 0x0A000002 -> ... -> 0x0A000032
    for i in 1..=50u32 {
        let ip = 0x0A000000 + i;
        graph.add_node(GraphNode { host_ip: ip, trust_score: 100, risk_level: 0 });
    }
    for i in 1..50u32 {
        let src = 0x0A000000 + i;
        let dst = 0x0A000000 + i + 1;
        graph.add_edge(GraphEdge {
            src_ip: src, dst_ip: dst, packet_count: 1, byte_count: 100,
            flow_count: 1, unique_ports: 1, edge_risk_bits: risk(0.01), last_seen: 1,
        });
    }
    assert_eq!(graph.node_count(), 50);
    assert_eq!(graph.edge_count(), 49);
    assert_eq!(graph.neighbors(0x0A000019).len(), 2); // mid-chain has 2 neighbors
}

// ===== Further cases =====

#[test]
fn graph_edges_listed_in_address_order() {
    let mut graph = SecurityGraph::new();
    for (s, d) in [(1u32, 9u32), (1, 3), (7, 3), (2, 3)] {
        graph.add_edge(GraphEdge {
            src_ip: s, dst_ip: d, packet_count: 1, byte_count: 1,
            flow_count: 1, unique_ports: 1, edge_risk_bits: 0, last_seen: 0,
        });
    }
    let out: Vec<u32> = graph.outgoing_edges(1).iter().map(|e| e.dst_ip).collect();
    assert_eq!(out, vec![3, 9]);
    let inc: Vec<u32> = graph.incoming_edges(3).iter().map(|e| e.src_ip).collect();
    assert_eq!(inc, vec![1, 2, 7]);
    assert_eq!(graph.neighbors(3), vec![1, 2, 7]);
    assert_eq!(graph.nodes().len(), 5);
    assert_eq!(graph.edges().len(), 4);
}

#[test]
fn graph_partial_expiry_keeps_nodes_and_live_edges() {
    let mut graph = SecurityGraph::new();
    graph.add_edge(GraphEdge {
        src_ip: 1, dst_ip: 2, packet_count: 1, byte_count: 1,
        flow_count: 1, unique_ports: 1, edge_risk_bits: 0, last_seen: 100,
    });
    graph.add_edge(GraphEdge {
        src_ip: 2, dst_ip: 3, packet_count: 1, byte_count: 1,
        flow_count: 1, unique_ports: 1, edge_risk_bits: 0, last_seen: 900,
    });
    assert_eq!(graph.remove_expired_edges(1000, 500), 1);
    assert!(graph.get_edge(1, 2).is_none());
    assert!(graph.get_edge(2, 3).is_some());
    assert_eq!(graph.node_count(), 3);
    // The auto-created nodes are fully trusted.
    assert_eq!(graph.get_node(3).unwrap().trust_score, 100);
    assert_eq!(graph.get_node(3).unwrap().risk_level, 0);
}

#[test]
fn graph_default_is_empty() {
    let graph = SecurityGraph::default();
    assert_eq!(graph.node_count(), 0);
    assert_eq!(graph.edge_count(), 0);
}
