//! Records shared between the kernel observation plane and the userspace
//! daemon: packet headers, per-host counters and the trust map entry.
use vstd::prelude::*;

verus! {

/// Capacity of each per-host kernel map.
pub const MAX_ENTRIES: u32 = 10240;

/// Ethernet header. Multi-byte fields hold host-order values decoded from
/// network byte order.
#[derive(Debug, Copy, Clone)]
pub struct EthHdr {
    pub dst_addr: [u8; 6],
    pub src_addr: [u8; 6],
    pub ether_type: u16,
}

/// IPv4 header (without options). Multi-byte fields hold host-order values
/// decoded from network byte order.
#[derive(Debug, Copy, Clone, PartialEq, Eq, Structural)]
pub struct Ipv4Hdr {
    pub version_ihl: u8,
    pub tos: u8,
    pub tot_len: u16,
    pub id: u16,
    pub frag_off: u16,
    pub ttl: u8,
    pub protocol: u8,
    pub check: u16,
    pub src_addr: u32,
    pub dst_addr: u32,
}

/// Cumulative per-source-host counters kept by the kernel program.
#[derive(Debug, Copy, Clone, PartialEq, Eq, Structural)]
pub struct HostStats {
    pub packets: u64,
    pub bytes: u64,
    pub tcp_packets: u64,
    pub udp_packets: u64,
    pub icmp_packets: u64,
    pub syn_packets: u64,
    pub frag_packets: u64,
    pub last_seen: u64,
}

/// Entry of the trust map read by the SDN controller.
#[derive(Debug, Copy, Clone, PartialEq, Eq, Structural)]
pub struct TrustEntry {
    pub score: u8,
    pub level: u8,
    pub version: u8,
    pub flags: u8,
}

/// Extended per-host counters: the fields of `HostStats` plus destination
/// and packet-size statistics.
#[derive(Debug, Copy, Clone, PartialEq, Eq, Structural)]
pub struct ExtendedHostStats {
    pub packets: u64,
    pub bytes: u64,
    pub tcp_packets: u64,
    pub udp_packets: u64,
    pub icmp_packets: u64,
    pub syn_packets: u64,
    pub frag_packets: u64,
    pub last_seen: u64,
    pub rst_packets: u64,
    pub unique_dst_ips: u32,
    pub unique_dst_ports: u32,
    pub flow_count: u32,
    pub _pad: u32,
    pub min_pkt_size: u16,
    pub max_pkt_size: u16,
    pub _pad2: u32,
}

/// TCP header. Multi-byte fields hold host-order values decoded from network
/// byte order.
#[derive(Debug, Copy, Clone, PartialEq, Eq, Structural)]
pub struct TcpHdr {
    pub src_port: u16,
    pub dst_port: u16,
    pub seq: u32,
    pub ack_seq: u32,
    pub data_offset_reserved_flags: u16,
    pub window: u16,
    pub checksum: u16,
    pub urg_ptr: u16,
}

/// A TCP control event (SYN, FIN or RST seen) streamed to userspace.
#[derive(Debug, Copy, Clone, PartialEq, Eq, Structural)]
pub struct FlowEvent {
    pub src_ip: u32,
    pub dst_ip: u32,
    pub src_port: u16,
    pub dst_port: u16,
    pub protocol: u8,
    pub flags: u8,
    pub pkt_size: u16,
    pub timestamp_ns: u64,
}

/// The all-zero counter record.
pub open spec fn zero_host_stats() -> HostStats {
    HostStats {
        packets: 0,
        bytes: 0,
        tcp_packets: 0,
        udp_packets: 0,
        icmp_packets: 0,
        syn_packets: 0,
        frag_packets: 0,
        last_seen: 0,
    }
}

impl HostStats {
    /// The all-zero counter record, used as the previous snapshot of a host
    /// seen for the first time.
    pub fn zero() -> (s: HostStats)
        ensures
            s == zero_host_stats(),
    {
        HostStats {
            packets: 0,
            bytes: 0,
            tcp_packets: 0,
            udp_packets: 0,
            icmp_packets: 0,
            syn_packets: 0,
            frag_packets: 0,
            last_seen: 0,
        }
    }
}

} // verus!
