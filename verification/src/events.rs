//! Folding the kernel's TCP control events into the flow table and the
//! security graph.
use vstd::prelude::*;
use crate::common::FlowEvent;
use crate::network_intelligence::flow_table::{FlowKey, FlowTable, accepts, recorded};
use crate::network_intelligence::security_graph::{GraphEdge, GraphNode, SecurityGraph, default_node};

verus! {

/// The flow an event belongs to.
pub open spec fn event_key(e: FlowEvent) -> FlowKey {
    FlowKey {
        src_ip: e.src_ip,
        dst_ip: e.dst_ip,
        src_port: e.src_port,
        dst_port: e.dst_port,
        protocol: e.protocol,
    }
}

/// Whether bit `bit` is set in the event's flags.
pub open spec fn has_flag(e: FlowEvent, bit: u8) -> bool {
    (e.flags & bit) != 0
}

/// An edge with no traffic yet, from the event's source to its destination.
pub open spec fn empty_edge(e: FlowEvent) -> GraphEdge {
    GraphEdge {
        src_ip: e.src_ip,
        dst_ip: e.dst_ip,
        packet_count: 0,
        byte_count: 0,
        flow_count: 0,
        unique_ports: 0,
        edge_risk_bits: 0,
        last_seen: 0,
    }
}

/// The edge after an event: one more packet, the event's bytes, and the
/// event's time as last seen.
pub open spec fn edge_after_event(previous: Option<GraphEdge>, e: FlowEvent) -> GraphEdge {
    let base = match previous {
        Some(x) => x,
        None => empty_edge(e),
    };
    GraphEdge {
        packet_count: (base.packet_count + 1) as u64,
        byte_count: (base.byte_count + e.pkt_size) as u64,
        last_seen: e.timestamp_ns,
        ..base
    }
}

/// The graph's edge between two hosts, if any.
pub open spec fn edge_between(g: SecurityGraph, src: u32, dst: u32) -> Option<GraphEdge> {
    if g.has_edge(src, dst) {
        Some(g.edge_map()[(src, dst)])
    } else {
        None
    }
}

/// Records a TCP control event: counts the packet in its flow (with its
/// SYN, RST and FIN bits), resets both endpoints to fresh fully trusted
/// nodes, and adds the packet to the edge between them. Returns whether the
/// flow table took the packet.
pub fn ingest_flow_event(flows: &mut FlowTable, graph: &mut SecurityGraph, event: &FlowEvent) -> (accepted: bool)
    requires
        old(flows).wf(),
        old(graph).wf(),
        old(flows)@.contains_key(event_key(*event).tuple()) ==> {
            &&& old(flows)@[event_key(*event).tuple()].packets < u64::MAX
            &&& old(flows)@[event_key(*event).tuple()].bytes + event.pkt_size <= u64::MAX
        },
        old(graph).has_edge(event.src_ip, event.dst_ip) ==> {
            &&& old(graph).edge_map()[(event.src_ip, event.dst_ip)].packet_count < u64::MAX
            &&& old(graph).edge_map()[(event.src_ip, event.dst_ip)].byte_count + event.pkt_size
                <= u64::MAX
        },
    ensures
        final(flows).wf(),
        final(flows).capacity() == old(flows).capacity(),
        final(flows).timeout() == old(flows).timeout(),
        accepted == accepts(
            old(flows)@,
            old(flows).capacity(),
            old(flows).timeout(),
            event_key(*event),
            event.timestamp_ns,
        ),
        final(flows)@ == recorded(
            old(flows)@,
            old(flows).capacity(),
            old(flows).timeout(),
            event_key(*event),
            event.pkt_size as u64,
            event.timestamp_ns,
            has_flag(*event, 0x02),
            has_flag(*event, 0x04),
            has_flag(*event, 0x01),
        ),
        final(graph).wf(),
        final(graph).node_map() == old(graph).node_map().insert(
            event.src_ip,
            default_node(event.src_ip),
        ).insert(event.dst_ip, default_node(event.dst_ip)),
        final(graph).edge_map() == old(graph).edge_map().insert(
            (event.src_ip, event.dst_ip),
            edge_after_event(edge_between(*old(graph), event.src_ip, event.dst_ip), *event),
        ),
{
    let key = FlowKey {
        src_ip: event.src_ip,
        dst_ip: event.dst_ip,
        src_port: event.src_port,
        dst_port: event.dst_port,
        protocol: event.protocol,
    };
    let is_syn = (event.flags & 0x02) != 0;
    let is_fin = (event.flags & 0x01) != 0;
    let is_rst = (event.flags & 0x04) != 0;
    let accepted = flows.insert_or_update(
        key,
        event.pkt_size as u64,
        event.timestamp_ns,
        is_syn,
        is_rst,
        is_fin,
    );

    graph.add_node(GraphNode { host_ip: event.src_ip, trust_score: 100, risk_level: 0 });
    graph.add_node(GraphNode { host_ip: event.dst_ip, trust_score: 100, risk_level: 0 });

    let mut edge = match graph.get_edge(event.src_ip, event.dst_ip) {
        Some(e) => *e,
        None => GraphEdge {
            src_ip: event.src_ip,
            dst_ip: event.dst_ip,
            packet_count: 0,
            byte_count: 0,
            flow_count: 0,
            unique_ports: 0,
            edge_risk_bits: 0,
            last_seen: 0,
        },
    };
    edge.packet_count += 1;
    edge.byte_count += event.pkt_size as u64;
    edge.last_seen = event.timestamp_ns;
    graph.update_edge(edge);
    accepted
}

} // verus!
