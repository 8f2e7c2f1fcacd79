use adg_xdp::common::FlowEvent;
use adg_xdp::events::ingest_flow_event;
use adg_xdp::network_intelligence::flow_table::{FlowKey, FlowTable};
use adg_xdp::network_intelligence::security_graph::{GraphNode, SecurityGraph};

fn event(flags: u8, pkt_size: u16, timestamp_ns: u64) -> FlowEvent {
    FlowEvent {
        src_ip: 0x0A000001,
        dst_ip: 0x0A000002,
        src_port: 5555,
        dst_port: 22,
        protocol: 6,
        flags,
        pkt_size,
        timestamp_ns,
    }
}

#[test]
fn events_feed_flow_table_and_graph() {
    let mut flows = FlowTable::new(100, 30_000_000_000);
    let mut graph = SecurityGraph::new();
    assert!(ingest_flow_event(&mut flows, &mut graph, &event(0x02, 60, 10)));
    assert!(ingest_flow_event(&mut flows, &mut graph, &event(0x14, 40, 20))); // RST + ACK
    let key = FlowKey { src_ip: 0x0A000001, dst_ip: 0x0A000002, src_port: 5555, dst_port: 22, protocol: 6 };
    let s = flows.get(&key).unwrap();
    assert_eq!(s.packets, 2);
    assert_eq!(s.bytes, 100);
    assert_eq!(s.syn_packets, 1);
    assert_eq!(s.rst_packets, 1);
    assert_eq!(s.fin_packets, 0);
    assert_eq!(s.first_seen, 10);
    assert_eq!(s.last_seen, 20);
    let e = graph.get_edge(0x0A000001, 0x0A000002).unwrap();
    assert_eq!(e.packet_count, 2);
    assert_eq!(e.byte_count, 100);
    assert_eq!(e.last_seen, 20);
    assert_eq!(e.edge_risk_bits, 0);
    assert_eq!(graph.node_count(), 2);
}

#[test]
fn events_reset_endpoint_nodes() {
    let mut flows = FlowTable::new(100, 30_000_000_000);
    let mut graph = SecurityGraph::new();
    graph.add_node(GraphNode { host_ip: 0x0A000001, trust_score: 10, risk_level: 3 });
    ingest_flow_event(&mut flows, &mut graph, &event(0x01, 52, 5));
    let n = graph.get_node(0x0A000001).unwrap();
    assert_eq!(n.trust_score, 100);
    assert_eq!(n.risk_level, 0);
}

#[test]
fn events_dropped_by_full_table_still_reach_graph() {
    let mut flows = FlowTable::new(0, 30_000_000_000);
    let mut graph = SecurityGraph::new();
    assert!(!ingest_flow_event(&mut flows, &mut graph, &event(0x02, 60, 10)));
    assert!(flows.is_empty());
    assert_eq!(graph.edge_count(), 1);
}
