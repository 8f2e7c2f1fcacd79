//! The per-packet logic of the kernel observation plane: header parsing,
//! packet classification, TCP control events and per-host counter updates.
use vstd::prelude::*;
use crate::common::{EthHdr, ExtendedHostStats, FlowEvent, HostStats, Ipv4Hdr, TcpHdr};

verus! {

/// Length of an Ethernet header.
pub const ETH_HDR_LEN: usize = 14;
/// Length of an IPv4 header without options.
pub const IPV4_HDR_LEN: usize = 20;
/// Length of a TCP header without options.
pub const TCP_HDR_LEN: usize = 20;
/// Ethertype of IPv4.
pub const ETH_P_IPV4: u16 = 0x0800;
/// IP protocol numbers.
pub const IPPROTO_ICMP: u8 = 1;
pub const IPPROTO_TCP: u8 = 6;
pub const IPPROTO_UDP: u8 = 17;
/// TCP flag bits.
pub const TCP_FIN: u16 = 0x0001;
pub const TCP_SYN: u16 = 0x0002;
pub const TCP_RST: u16 = 0x0004;
/// XDP verdicts.
pub const XDP_ABORTED: u32 = 0;
pub const XDP_PASS: u32 = 2;

/// The big-endian 16-bit value at `off`.
pub open spec fn be16(d: Seq<u8>, off: int) -> u16 {
    (d[off] * 256 + d[off + 1]) as u16
}

/// The big-endian 32-bit value at `off`.
pub open spec fn be32(d: Seq<u8>, off: int) -> u32 {
    (d[off] * 16777216 + d[off + 1] * 65536 + d[off + 2] * 256 + d[off + 3]) as u32
}

fn read_be16(d: &[u8], off: usize) -> (v: u16)
    requires
        off + 2 <= d@.len(),
    ensures
        v == be16(d@, off as int),
{
    (d[off] as u16) * 256 + (d[off + 1] as u16)
}

fn read_be32(d: &[u8], off: usize) -> (v: u32)
    requires
        off + 4 <= d@.len(),
    ensures
        v == be32(d@, off as int),
{
    (d[off] as u32) * 16777216 + (d[off + 1] as u32) * 65536 + (d[off + 2] as u32) * 256 + (d[off
        + 3] as u32)
}

/// A header of `size` bytes fits in `d` from `off`.
pub open spec fn fits(d: Seq<u8>, off: int, size: int) -> bool {
    0 <= off && off + size <= d.len()
}

/// The Ethernet header at the start of `d`.
pub open spec fn eth_hdr_at(d: Seq<u8>) -> EthHdr {
    EthHdr {
        dst_addr: [d[0], d[1], d[2], d[3], d[4], d[5]],
        src_addr: [d[6], d[7], d[8], d[9], d[10], d[11]],
        ether_type: be16(d, 12),
    }
}

/// The IPv4 header at `off`.
pub open spec fn ipv4_hdr_at(d: Seq<u8>, off: int) -> Ipv4Hdr {
    Ipv4Hdr {
        version_ihl: d[off],
        tos: d[off + 1],
        tot_len: be16(d, off + 2),
        id: be16(d, off + 4),
        frag_off: be16(d, off + 6),
        ttl: d[off + 8],
        protocol: d[off + 9],
        check: be16(d, off + 10),
        src_addr: be32(d, off + 12),
        dst_addr: be32(d, off + 16),
    }
}

/// The TCP header at `off`.
pub open spec fn tcp_hdr_at(d: Seq<u8>, off: int) -> TcpHdr {
    TcpHdr {
        src_port: be16(d, off),
        dst_port: be16(d, off + 2),
        seq: be32(d, off + 4),
        ack_seq: be32(d, off + 8),
        data_offset_reserved_flags: be16(d, off + 12),
        window: be16(d, off + 14),
        checksum: be16(d, off + 16),
        urg_ptr: be16(d, off + 18),
    }
}

/// The Ethernet header of a frame, if the frame is long enough.
pub fn parse_eth_hdr(d: &[u8]) -> (h: Option<EthHdr>)
    ensures
        match h {
            Some(h) => fits(d@, 0, ETH_HDR_LEN as int) && h == eth_hdr_at(d@),
            None => !fits(d@, 0, ETH_HDR_LEN as int),
        },
{
    if d.len() < ETH_HDR_LEN {
        return None;
    }
    Some(
        EthHdr {
            dst_addr: [d[0], d[1], d[2], d[3], d[4], d[5]],
            src_addr: [d[6], d[7], d[8], d[9], d[10], d[11]],
            ether_type: read_be16(d, 12),
        },
    )
}

/// The IPv4 header at `off`, if the frame is long enough.
pub fn parse_ipv4_hdr(d: &[u8], off: usize) -> (h: Option<Ipv4Hdr>)
    ensures
        match h {
            Some(h) => fits(d@, off as int, IPV4_HDR_LEN as int) && h == ipv4_hdr_at(d@, off as int),
            None => !fits(d@, off as int, IPV4_HDR_LEN as int),
        },
{
    if off > d.len() || d.len() - off < IPV4_HDR_LEN {
        return None;
    }
    Some(
        Ipv4Hdr {
            version_ihl: d[off],
            tos: d[off + 1],
            tot_len: read_be16(d, off + 2),
            id: read_be16(d, off + 4),
            frag_off: read_be16(d, off + 6),
            ttl: d[off + 8],
            protocol: d[off + 9],
            check: read_be16(d, off + 10),
            src_addr: read_be32(d, off + 12),
            dst_addr: read_be32(d, off + 16),
        },
    )
}

/// The TCP header at `off`, if the frame is long enough.
pub fn parse_tcp_hdr(d: &[u8], off: usize) -> (h: Option<TcpHdr>)
    ensures
        match h {
            Some(h) => fits(d@, off as int, TCP_HDR_LEN as int) && h == tcp_hdr_at(d@, off as int),
            None => !fits(d@, off as int, TCP_HDR_LEN as int),
        },
{
    if off > d.len() || d.len() - off < TCP_HDR_LEN {
        return None;
    }
    Some(
        TcpHdr {
            src_port: read_be16(d, off),
            dst_port: read_be16(d, off + 2),
            seq: read_be32(d, off + 4),
            ack_seq: read_be32(d, off + 8),
            data_offset_reserved_flags: read_be16(d, off + 12),
            window: read_be16(d, off + 14),
            checksum: read_be16(d, off + 16),
            urg_ptr: read_be16(d, off + 18),
        },
    )
}

/// The TCP fields the observation plane uses.
#[derive(Debug, Clone, Copy, PartialEq, Eq, Structural)]
pub struct TcpSummary {
    pub src_port: u16,
    pub dst_port: u16,
    /// The nine TCP flag bits.
    pub flags: u16,
}

/// What the observation plane learns from an IPv4 packet.
#[derive(Debug, Clone, Copy, PartialEq, Eq, Structural)]
pub struct PacketInfo {
    pub src_addr: u32,
    pub dst_addr: u32,
    /// The IPv4 total length.
    pub pkt_len: u64,
    pub protocol: u8,
    /// 1 for a fragment (offset or more-fragments bit set), else 0.
    pub is_frag: u64,
    /// 1 when a readable TCP header has SYN set, else 0.
    pub is_syn: u64,
    /// 1 when a readable TCP header has RST set, else 0.
    pub is_rst: u64,
    /// The TCP header's fields, when the packet is TCP and the header fits.
    pub tcp: Option<TcpSummary>,
}

/// How a frame is handled.
#[derive(Debug, Clone, Copy, PartialEq, Eq, Structural)]
pub enum PacketClass {
    /// Too short for the headers it announces: the frame is aborted.
    Truncated,
    /// Not IPv4: passed without accounting.
    NotIpv4,
    /// IPv4: accounted and passed.
    Ipv4(PacketInfo),
}

/// The offset of the TCP header after an IPv4 header with first byte
/// `version_ihl`.
pub open spec fn tcp_offset(version_ihl: u8) -> int {
    ETH_HDR_LEN as int + ((version_ihl & 0x0F) * 4) as int
}

/// The classification of frame `d`.
pub open spec fn classify_spec(d: Seq<u8>) -> PacketClass {
    if !fits(d, 0, ETH_HDR_LEN as int) {
        PacketClass::Truncated
    } else if eth_hdr_at(d).ether_type != ETH_P_IPV4 {
        PacketClass::NotIpv4
    } else if !fits(d, ETH_HDR_LEN as int, IPV4_HDR_LEN as int) {
        PacketClass::Truncated
    } else {
        let ip = ipv4_hdr_at(d, ETH_HDR_LEN as int);
        let off = tcp_offset(ip.version_ihl);
        let tcp = if ip.protocol == IPPROTO_TCP && fits(d, off, TCP_HDR_LEN as int) {
            let t = tcp_hdr_at(d, off);
            Some(
                TcpSummary {
                    src_port: t.src_port,
                    dst_port: t.dst_port,
                    flags: t.data_offset_reserved_flags & 0x01FF,
                },
            )
        } else {
            None
        };
        PacketClass::Ipv4(
            PacketInfo {
                src_addr: ip.src_addr,
                dst_addr: ip.dst_addr,
                pkt_len: ip.tot_len as u64,
                protocol: ip.protocol,
                is_frag: if (ip.frag_off & 0x3FFF) != 0 { 1 } else { 0 },
                is_syn: match tcp {
                    Some(t) => if (t.flags & TCP_SYN) != 0 { 1 } else { 0 },
                    None => 0,
                },
                is_rst: match tcp {
                    Some(t) => if (t.flags & TCP_RST) != 0 { 1 } else { 0 },
                    None => 0,
                },
                tcp,
            },
        )
    }
}

/// Classifies a frame: IPv4 packets yield their source, destination,
/// length, protocol, fragmentation and, for TCP, ports and flags.
pub fn classify_packet(d: &[u8]) -> (c: PacketClass)
    ensures
        c == classify_spec(d@),
{
    let eth = match parse_eth_hdr(d) {
        Some(h) => h,
        None => return PacketClass::Truncated,
    };
    if eth.ether_type != ETH_P_IPV4 {
        return PacketClass::NotIpv4;
    }
    let ip = match parse_ipv4_hdr(d, ETH_HDR_LEN) {
        Some(h) => h,
        None => return PacketClass::Truncated,
    };
    let is_frag: u64 = if (ip.frag_off & 0x3FFF) != 0 { 1 } else { 0 };
    let mut is_syn: u64 = 0;
    let mut is_rst: u64 = 0;
    let mut tcp: Option<TcpSummary> = None;
    if ip.protocol == IPPROTO_TCP {
        let vihl = ip.version_ihl;
        proof {
            assert(vihl & 0x0F <= 15) by (bit_vector);
        }
        let ip_header_len = ((vihl & 0x0F) * 4) as usize;
        let off = ETH_HDR_LEN + ip_header_len;
        if let Some(t) = parse_tcp_hdr(d, off) {
            let flags = t.data_offset_reserved_flags & 0x01FF;
            if flags & TCP_SYN != 0 {
                is_syn = 1;
            }
            if flags & TCP_RST != 0 {
                is_rst = 1;
            }
            tcp = Some(TcpSummary { src_port: t.src_port, dst_port: t.dst_port, flags });
        }
    }
    PacketClass::Ipv4(
        PacketInfo {
            src_addr: ip.src_addr,
            dst_addr: ip.dst_addr,
            pkt_len: ip.tot_len as u64,
            protocol: ip.protocol,
            is_frag,
            is_syn,
            is_rst,
            tcp,
        },
    )
}

/// The XDP verdict for a frame: truncated frames are aborted, all others
/// pass.
pub fn verdict(c: &PacketClass) -> (v: u32)
    ensures
        v == if *c is Truncated { XDP_ABORTED } else { XDP_PASS },
{
    match c {
        PacketClass::Truncated => XDP_ABORTED,
        _ => XDP_PASS,
    }
}

/// The control event streamed for a TCP packet that carries SYN, FIN or
/// RST.
pub open spec fn flow_event_spec(info: PacketInfo, timestamp_ns: u64) -> Option<FlowEvent> {
    match info.tcp {
        Some(t) => if (t.flags & (TCP_SYN | TCP_FIN | TCP_RST)) != 0 {
            Some(
                FlowEvent {
                    src_ip: info.src_addr,
                    dst_ip: info.dst_addr,
                    src_port: t.src_port,
                    dst_port: t.dst_port,
                    protocol: IPPROTO_TCP,
                    flags: (t.flags & 0xFF) as u8,
                    pkt_size: info.pkt_len as u16,
                    timestamp_ns,
                },
            )
        } else {
            None
        },
        None => None,
    }
}

/// The control event to stream for a packet, if any: only TCP packets with
/// SYN, FIN or RST produce one, carrying the low eight flag bits.
pub fn flow_event(info: &PacketInfo, timestamp_ns: u64) -> (e: Option<FlowEvent>)
    ensures
        e == flow_event_spec(*info, timestamp_ns),
{
    match info.tcp {
        Some(t) => {
            if (t.flags & (TCP_SYN | TCP_FIN | TCP_RST)) != 0 {
                let flags = t.flags;
                let low = flags & 0xFF;
                proof {
                    assert(flags & 0xFF <= 255) by (bit_vector);
                }
                Some(
                    FlowEvent {
                        src_ip: info.src_addr,
                        dst_ip: info.dst_addr,
                        src_port: t.src_port,
                        dst_port: t.dst_port,
                        protocol: IPPROTO_TCP,
                        flags: low as u8,
                        pkt_size: info.pkt_len as u16,
                        timestamp_ns,
                    },
                )
            } else {
                None
            }
        },
        None => None,
    }
}

/// Bit facts on TCP flags: the control mask tests SYN, FIN and RST, and the
/// low byte keeps each of them.
proof fn lemma_control_bits(f: u16)
    ensures
        (f & 7u16 != 0) <==> (f & 2u16 != 0 || f & 1u16 != 0 || f & 4u16 != 0),
        (((f & 0xFFu16) as u8) & 4u8 != 0) <==> (f & 4u16 != 0),
        (((f & 0xFFu16) as u8) & 2u8 != 0) <==> (f & 2u16 != 0),
        (((f & 0xFFu16) as u8) & 1u8 != 0) <==> (f & 1u16 != 0),
{
    assert((f & 7u16 != 0) <==> (f & 2u16 != 0 || f & 1u16 != 0 || f & 4u16 != 0)) by (bit_vector);
    assert((((f & 0xFFu16) as u8) & 4u8 != 0) <==> (f & 4u16 != 0)) by (bit_vector);
    assert((((f & 0xFFu16) as u8) & 2u8 != 0) <==> (f & 2u16 != 0)) by (bit_vector);
    assert((((f & 0xFFu16) as u8) & 1u8 != 0) <==> (f & 1u16 != 0)) by (bit_vector);
}

/// TCP control packets are streamed, and only they: a packet yields an event
/// exactly when it is TCP with SYN, FIN or RST set. The event carries the
/// packet's addresses, ports, length (low 16 bits) and the given time, with
/// its SYN, FIN and RST bits exactly as on the packet.
pub proof fn lemma_control_packets_streamed(info: PacketInfo, timestamp_ns: u64)
    ensures
        info.tcp is None ==> flow_event_spec(info, timestamp_ns) is None,
        info.tcp matches Some(t) ==> ((flow_event_spec(info, timestamp_ns) is Some) <==> (t.flags
            & TCP_SYN != 0 || t.flags & TCP_FIN != 0 || t.flags & TCP_RST != 0)),
        flow_event_spec(info, timestamp_ns) matches Some(e) ==> {
            &&& info.tcp matches Some(t)
            &&& e.src_ip == info.src_addr
            &&& e.dst_ip == info.dst_addr
            &&& e.src_port == t.src_port
            &&& e.dst_port == t.dst_port
            &&& e.protocol == IPPROTO_TCP
            &&& e.pkt_size == info.pkt_len as u16
            &&& e.timestamp_ns == timestamp_ns
            &&& (e.flags & 4u8 != 0 <==> t.flags & TCP_RST != 0)
            &&& (e.flags & 2u8 != 0 <==> t.flags & TCP_SYN != 0)
            &&& (e.flags & 1u8 != 0 <==> t.flags & TCP_FIN != 0)
        },
{
    assert(TCP_SYN | TCP_FIN | TCP_RST == 7u16) by (bit_vector);
    if let Some(t) = info.tcp {
        lemma_control_bits(t.flags);
    }
}

/// 1 when `b`, else 0.
pub open spec fn indicator(b: bool) -> u64 {
    if b { 1 } else { 0 }
}

/// The counters of a host after one more packet (wrapping on overflow, as
/// the kernel program's counters do), or its first counters.
pub open spec fn host_stats_after(existing: Option<HostStats>, info: PacketInfo, now_ns: u64) -> HostStats {
    match existing {
        None => HostStats {
            packets: 1,
            bytes: info.pkt_len,
            tcp_packets: indicator(info.protocol == IPPROTO_TCP),
            udp_packets: indicator(info.protocol == IPPROTO_UDP),
            icmp_packets: indicator(info.protocol == IPPROTO_ICMP),
            syn_packets: info.is_syn,
            frag_packets: info.is_frag,
            last_seen: now_ns,
        },
        Some(s) => HostStats {
            packets: s.packets.wrapping_add(1),
            bytes: s.bytes.wrapping_add(info.pkt_len),
            tcp_packets: s.tcp_packets.wrapping_add(indicator(info.protocol == IPPROTO_TCP)),
            udp_packets: s.udp_packets.wrapping_add(indicator(info.protocol == IPPROTO_UDP)),
            icmp_packets: s.icmp_packets.wrapping_add(indicator(info.protocol == IPPROTO_ICMP)),
            syn_packets: if info.protocol == IPPROTO_TCP {
                s.syn_packets.wrapping_add(info.is_syn)
            } else {
                s.syn_packets
            },
            frag_packets: s.frag_packets.wrapping_add(info.is_frag),
            last_seen: now_ns,
        },
    }
}

/// Adding on a 64-bit counter is addition modulo 2^64.
proof fn lemma_wrapping_is_modular(x: u64, y: u64)
    ensures
        x.wrapping_add(y) as int == (x as int + y as int) % 0x1_0000_0000_0000_0000,
{
    if x as int + y as int > u64::MAX as int {
        assert((x as int + y as int) % 0x1_0000_0000_0000_0000 == x as int + y as int
            - 0x1_0000_0000_0000_0000);
    } else {
        assert((x as int + y as int) % 0x1_0000_0000_0000_0000 == x as int + y as int);
    }
}

/// The grown value of a 64-bit counter: `x + d` modulo 2^64.
pub open spec fn grown(x: u64, d: u64) -> int {
    (x + d) % 0x1_0000_0000_0000_0000
}

/// Growing a counter by `d` is adding `d` with wraparound; growing by 0
/// leaves it as it is.
proof fn lemma_grown(x: u64, d: u64)
    ensures
        x.wrapping_add(d) == grown(x, d),
        grown(x, 0) == x,
{
    lemma_wrapping_is_modular(x, d);
    assert((x as int) % 0x1_0000_0000_0000_0000 == x as int);
}

/// Accounting a packet to a known host grows each counter by exactly the
/// packet's share, modulo 2^64: one packet, its length in bytes, one packet
/// for its own protocol among TCP, UDP and ICMP and none for the other two,
/// its SYN bit when it is TCP (none otherwise), and its fragment bit. The
/// host becomes last seen at the packet's time.
pub proof fn lemma_known_host_accounting(s: HostStats, info: PacketInfo, now_ns: u64)
    ensures
        host_stats_after(Some(s), info, now_ns).packets == grown(s.packets, 1),
        host_stats_after(Some(s), info, now_ns).bytes == grown(s.bytes, info.pkt_len),
        host_stats_after(Some(s), info, now_ns).tcp_packets == grown(
            s.tcp_packets,
            if info.protocol == 6 { 1u64 } else { 0u64 },
        ),
        host_stats_after(Some(s), info, now_ns).udp_packets == grown(
            s.udp_packets,
            if info.protocol == 17 { 1u64 } else { 0u64 },
        ),
        host_stats_after(Some(s), info, now_ns).icmp_packets == grown(
            s.icmp_packets,
            if info.protocol == 1 { 1u64 } else { 0u64 },
        ),
        host_stats_after(Some(s), info, now_ns).syn_packets == grown(
            s.syn_packets,
            if info.protocol == 6 { info.is_syn } else { 0u64 },
        ),
        host_stats_after(Some(s), info, now_ns).frag_packets == grown(s.frag_packets, info.is_frag),
        host_stats_after(Some(s), info, now_ns).last_seen == now_ns,
{
    lemma_grown(s.packets, 1);
    lemma_grown(s.bytes, info.pkt_len);
    lemma_grown(s.tcp_packets, indicator(info.protocol == IPPROTO_TCP));
    lemma_grown(s.udp_packets, indicator(info.protocol == IPPROTO_UDP));
    lemma_grown(s.icmp_packets, indicator(info.protocol == IPPROTO_ICMP));
    lemma_grown(s.syn_packets, info.is_syn);
    lemma_grown(s.frag_packets, info.is_frag);
}

/// A host's first packet gives it counters of one packet: its length, one
/// packet of its protocol among TCP, UDP and ICMP, and its SYN and fragment
/// bits, last seen at the packet's time.
pub proof fn lemma_new_host_accounting(info: PacketInfo, now_ns: u64)
    ensures
        host_stats_after(None, info, now_ns).packets == 1,
        host_stats_after(None, info, now_ns).bytes == info.pkt_len,
        host_stats_after(None, info, now_ns).tcp_packets == (if info.protocol == 6 { 1int } else { 0 }),
        host_stats_after(None, info, now_ns).udp_packets == (if info.protocol == 17 { 1int } else { 0 }),
        host_stats_after(None, info, now_ns).icmp_packets == (if info.protocol == 1 { 1int } else { 0 }),
        host_stats_after(None, info, now_ns).syn_packets == info.is_syn,
        host_stats_after(None, info, now_ns).frag_packets == info.is_frag,
        host_stats_after(None, info, now_ns).last_seen == now_ns,
{
}

/// Accounts one IPv4 packet to the counters of its source host.
pub fn update_host_stats(existing: Option<HostStats>, info: &PacketInfo, now_ns: u64) -> (s: HostStats)
    ensures
        s == host_stats_after(existing, *info, now_ns),
{
    match existing {
        None => HostStats {
            packets: 1,
            bytes: info.pkt_len,
            tcp_packets: if info.protocol == IPPROTO_TCP { 1 } else { 0 },
            udp_packets: if info.protocol == IPPROTO_UDP { 1 } else { 0 },
            icmp_packets: if info.protocol == IPPROTO_ICMP { 1 } else { 0 },
            syn_packets: info.is_syn,
            frag_packets: info.is_frag,
            last_seen: now_ns,
        },
        Some(old) => {
            let mut s = old;
            s.packets = s.packets.wrapping_add(1);
            s.bytes = s.bytes.wrapping_add(info.pkt_len);
            if info.protocol == IPPROTO_ICMP {
                s.icmp_packets = s.icmp_packets.wrapping_add(1);
            } else if info.protocol == IPPROTO_TCP {
                s.tcp_packets = s.tcp_packets.wrapping_add(1);
                s.syn_packets = s.syn_packets.wrapping_add(info.is_syn);
            } else if info.protocol == IPPROTO_UDP {
                s.udp_packets = s.udp_packets.wrapping_add(1);
            }
            s.frag_packets = s.frag_packets.wrapping_add(info.is_frag);
            s.last_seen = now_ns;
            s
        },
    }
}

/// The packet size recorded in the extended counters: the low 16 bits of
/// the IPv4 total length.
pub open spec fn recorded_size(info: PacketInfo) -> u16 {
    info.pkt_len as u16
}

fn recorded_size_of(info: &PacketInfo) -> (size: u16)
    ensures
        size == recorded_size(*info),
{
    info.pkt_len as u16
}

/// The extended counters of a host after one more packet (wrapping on
/// overflow), or its first extended counters. Packet sizes are the low 16
/// bits of the IPv4 total length.
pub open spec fn extended_stats_after(
    existing: Option<ExtendedHostStats>,
    info: PacketInfo,
    now_ns: u64,
) -> ExtendedHostStats {
    let size = recorded_size(info);
    match existing {
        None => ExtendedHostStats {
            packets: 1,
            bytes: info.pkt_len,
            tcp_packets: indicator(info.protocol == IPPROTO_TCP),
            udp_packets: indicator(info.protocol == IPPROTO_UDP),
            icmp_packets: indicator(info.protocol == IPPROTO_ICMP),
            syn_packets: info.is_syn,
            frag_packets: info.is_frag,
            last_seen: now_ns,
            rst_packets: info.is_rst,
            unique_dst_ips: 0,
            unique_dst_ports: 0,
            flow_count: 0,
            _pad: 0,
            min_pkt_size: size,
            max_pkt_size: size,
            _pad2: 0,
        },
        Some(s) => ExtendedHostStats {
            packets: s.packets.wrapping_add(1),
            bytes: s.bytes.wrapping_add(info.pkt_len),
            tcp_packets: s.tcp_packets.wrapping_add(indicator(info.protocol == IPPROTO_TCP)),
            udp_packets: s.udp_packets.wrapping_add(indicator(info.protocol == IPPROTO_UDP)),
            icmp_packets: s.icmp_packets.wrapping_add(indicator(info.protocol == IPPROTO_ICMP)),
            syn_packets: if info.protocol == IPPROTO_TCP {
                s.syn_packets.wrapping_add(info.is_syn)
            } else {
                s.syn_packets
            },
            rst_packets: if info.protocol == IPPROTO_TCP {
                s.rst_packets.wrapping_add(info.is_rst)
            } else {
                s.rst_packets
            },
            frag_packets: s.frag_packets.wrapping_add(info.is_frag),
            min_pkt_size: if size < s.min_pkt_size { size } else { s.min_pkt_size },
            max_pkt_size: if size > s.max_pkt_size { size } else { s.max_pkt_size },
            last_seen: now_ns,
            ..s
        },
    }
}

/// Accounting a packet to a known host's extended counters grows them as
/// the basic counters grow, counts its RST bit when it is TCP, widens the
/// packet-size range to take in its size, and keeps the destination fields.
pub proof fn lemma_known_host_extended_accounting(s: ExtendedHostStats, info: PacketInfo, now_ns: u64)
    ensures
        extended_stats_after(Some(s), info, now_ns).packets == grown(s.packets, 1),
        extended_stats_after(Some(s), info, now_ns).bytes == grown(s.bytes, info.pkt_len),
        extended_stats_after(Some(s), info, now_ns).tcp_packets == grown(
            s.tcp_packets,
            if info.protocol == 6 { 1u64 } else { 0u64 },
        ),
        extended_stats_after(Some(s), info, now_ns).udp_packets == grown(
            s.udp_packets,
            if info.protocol == 17 { 1u64 } else { 0u64 },
        ),
        extended_stats_after(Some(s), info, now_ns).icmp_packets == grown(
            s.icmp_packets,
            if info.protocol == 1 { 1u64 } else { 0u64 },
        ),
        extended_stats_after(Some(s), info, now_ns).syn_packets == grown(
            s.syn_packets,
            if info.protocol == 6 { info.is_syn } else { 0u64 },
        ),
        extended_stats_after(Some(s), info, now_ns).rst_packets == grown(
            s.rst_packets,
            if info.protocol == 6 { info.is_rst } else { 0u64 },
        ),
        extended_stats_after(Some(s), info, now_ns).frag_packets == grown(s.frag_packets, info.is_frag),
        extended_stats_after(Some(s), info, now_ns).min_pkt_size <= s.min_pkt_size,
        extended_stats_after(Some(s), info, now_ns).min_pkt_size <= recorded_size(info),
        extended_stats_after(Some(s), info, now_ns).max_pkt_size >= s.max_pkt_size,
        extended_stats_after(Some(s), info, now_ns).max_pkt_size >= recorded_size(info),
        extended_stats_after(Some(s), info, now_ns).min_pkt_size == s.min_pkt_size
            || extended_stats_after(Some(s), info, now_ns).min_pkt_size == recorded_size(info),
        extended_stats_after(Some(s), info, now_ns).max_pkt_size == s.max_pkt_size
            || extended_stats_after(Some(s), info, now_ns).max_pkt_size == recorded_size(info),
        extended_stats_after(Some(s), info, now_ns).unique_dst_ips == s.unique_dst_ips,
        extended_stats_after(Some(s), info, now_ns).unique_dst_ports == s.unique_dst_ports,
        extended_stats_after(Some(s), info, now_ns).flow_count == s.flow_count,
        extended_stats_after(Some(s), info, now_ns).last_seen == now_ns,
{
    lemma_grown(s.packets, 1);
    lemma_grown(s.bytes, info.pkt_len);
    lemma_grown(s.tcp_packets, indicator(info.protocol == IPPROTO_TCP));
    lemma_grown(s.udp_packets, indicator(info.protocol == IPPROTO_UDP));
    lemma_grown(s.icmp_packets, indicator(info.protocol == IPPROTO_ICMP));
    lemma_grown(s.syn_packets, info.is_syn);
    lemma_grown(s.rst_packets, info.is_rst);
    lemma_grown(s.frag_packets, info.is_frag);
}

/// Accounts one IPv4 packet to the extended counters of its source host.
pub fn update_extended_stats(
    existing: Option<ExtendedHostStats>,
    info: &PacketInfo,
    now_ns: u64,
) -> (s: ExtendedHostStats)
    ensures
        s == extended_stats_after(existing, *info, now_ns),
{
    let size = recorded_size_of(info);
    match existing {
        None => ExtendedHostStats {
            packets: 1,
            bytes: info.pkt_len,
            tcp_packets: if info.protocol == IPPROTO_TCP { 1 } else { 0 },
            udp_packets: if info.protocol == IPPROTO_UDP { 1 } else { 0 },
            icmp_packets: if info.protocol == IPPROTO_ICMP { 1 } else { 0 },
            syn_packets: info.is_syn,
            frag_packets: info.is_frag,
            last_seen: now_ns,
            rst_packets: info.is_rst,
            unique_dst_ips: 0,
            unique_dst_ports: 0,
            flow_count: 0,
            _pad: 0,
            min_pkt_size: size,
            max_pkt_size: size,
            _pad2: 0,
        },
        Some(old) => {
            let mut s = old;
            s.packets = s.packets.wrapping_add(1);
            s.bytes = s.bytes.wrapping_add(info.pkt_len);
            if info.protocol == IPPROTO_ICMP {
                s.icmp_packets = s.icmp_packets.wrapping_add(1);
            } else if info.protocol == IPPROTO_TCP {
                s.tcp_packets = s.tcp_packets.wrapping_add(1);
                s.syn_packets = s.syn_packets.wrapping_add(info.is_syn);
                s.rst_packets = s.rst_packets.wrapping_add(info.is_rst);
            } else if info.protocol == IPPROTO_UDP {
                s.udp_packets = s.udp_packets.wrapping_add(1);
            }
            s.frag_packets = s.frag_packets.wrapping_add(info.is_frag);
            if size < s.min_pkt_size {
                s.min_pkt_size = size;
            }
            if size > s.max_pkt_size {
                s.max_pkt_size = size;
            }
            s.last_seen = now_ns;
            s
        },
    }
}

} // verus!
