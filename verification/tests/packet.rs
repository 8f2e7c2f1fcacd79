use adg_xdp::common::{ExtendedHostStats, HostStats};
use adg_xdp::packet::{
    classify_packet, flow_event, parse_eth_hdr, update_extended_stats, update_host_stats, verdict, PacketClass,
    PacketInfo, XDP_ABORTED, XDP_PASS,
};

fn frame(protocol: u8, frag_off: u16, tcp_flags: u16, ihl_words: u8, tot_len: u16) -> Vec<u8> {
    let mut f = vec![0u8; 14];
    f[12] = 0x08;
    f[13] = 0x00;
    let mut ip = vec![0u8; 20];
    ip[0] = 0x40 | ihl_words;
    ip[2] = (tot_len >> 8) as u8;
    ip[3] = tot_len as u8;
    ip[6] = (frag_off >> 8) as u8;
    ip[7] = frag_off as u8;
    ip[9] = protocol;
    ip[12..16].copy_from_slice(&[10, 0, 0, 1]);
    ip[16..20].copy_from_slice(&[10, 0, 0, 2]);
    f.extend_from_slice(&ip);
    f.extend(std::iter::repeat(0u8).take((ihl_words as usize).saturating_sub(5) * 4));
    let mut tcp = vec![0u8; 20];
    tcp[0] = 0x30;
    tcp[1] = 0x39; // 12345
    tcp[2] = 0;
    tcp[3] = 80;
    tcp[12] = 0x50 | ((tcp_flags >> 8) as u8);
    tcp[13] = tcp_flags as u8;
    f.extend_from_slice(&tcp);
    f
}

fn info_of(c: PacketClass) -> PacketInfo {
    match c {
        PacketClass::Ipv4(i) => i,
        other => panic!("expected an IPv4 packet, got {:?}", other),
    }
}

#[test]
fn packet_truncated_frames_abort() {
    assert_eq!(classify_packet(&[0u8; 10]), PacketClass::Truncated);
    let mut short_ip = vec![0u8; 20];
    short_ip[12] = 0x08;
    assert_eq!(classify_packet(&short_ip), PacketClass::Truncated);
    assert_eq!(verdict(&PacketClass::Truncated), XDP_ABORTED);
}

#[test]
fn packet_non_ipv4_passes_unaccounted() {
    let mut arp = vec![0u8; 60];
    arp[12] = 0x08;
    arp[13] = 0x06;
    let c = classify_packet(&arp);
    assert_eq!(c, PacketClass::NotIpv4);
    assert_eq!(verdict(&c), XDP_PASS);
}

#[test]
fn packet_ethernet_header_fields() {
    let mut f = frame(6, 0, 0x002, 5, 60);
    f[0] = 0xAA;
    f[11] = 0xBB;
    let eth = parse_eth_hdr(&f).unwrap();
    assert_eq!(eth.dst_addr[0], 0xAA);
    assert_eq!(eth.src_addr[5], 0xBB);
    assert_eq!(eth.ether_type, 0x0800);
}

#[test]
fn packet_tcp_syn_is_parsed() {
    let i = info_of(classify_packet(&frame(6, 0, 0x002, 5, 60)));
    assert_eq!(i.src_addr, 0x0A000001);
    assert_eq!(i.dst_addr, 0x0A000002);
    assert_eq!(i.pkt_len, 60);
    assert_eq!(i.protocol, 6);
    assert_eq!(i.is_syn, 1);
    assert_eq!(i.is_rst, 0);
    assert_eq!(i.is_frag, 0);
    let t = i.tcp.unwrap();
    assert_eq!(t.src_port, 12345);
    assert_eq!(t.dst_port, 80);
    assert_eq!(t.flags, 0x002);
}

#[test]
fn packet_ip_options_shift_the_tcp_header() {
    let i = info_of(classify_packet(&frame(6, 0, 0x004, 6, 64)));
    assert_eq!(i.is_rst, 1);
    assert_eq!(i.tcp.unwrap().dst_port, 80);
}

#[test]
fn packet_missing_tcp_header_has_no_flags() {
    let f = frame(6, 0, 0x002, 5, 60);
    let i = info_of(classify_packet(&f[..40]));
    assert!(i.tcp.is_none());
    assert_eq!(i.is_syn, 0);
}

#[test]
fn packet_fragments_are_detected() {
    assert_eq!(info_of(classify_packet(&frame(17, 0x2000, 0, 5, 60))).is_frag, 1); // more fragments
    assert_eq!(info_of(classify_packet(&frame(17, 0x0010, 0, 5, 60))).is_frag, 1); // offset
    assert_eq!(info_of(classify_packet(&frame(17, 0x4000, 0, 5, 60))).is_frag, 0); // don't fragment only
}

#[test]
fn packet_udp_carries_no_tcp_fields() {
    let i = info_of(classify_packet(&frame(17, 0, 0x002, 5, 60)));
    assert!(i.tcp.is_none());
    assert_eq!(i.is_syn, 0);
}

#[test]
fn packet_flow_events_only_for_control_segments() {
    let syn = info_of(classify_packet(&frame(6, 0, 0x002, 5, 60)));
    let e = flow_event(&syn, 77).unwrap();
    assert_eq!(e.flags, 0x02);
    assert_eq!(e.pkt_size, 60);
    assert_eq!(e.timestamp_ns, 77);
    assert_eq!(e.protocol, 6);
    let ack = info_of(classify_packet(&frame(6, 0, 0x010, 5, 60)));
    assert!(flow_event(&ack, 77).is_none());
    // The NS bit is outside the low eight flag bits carried by the event.
    let fin_ns = info_of(classify_packet(&frame(6, 0, 0x101, 5, 60)));
    assert_eq!(flow_event(&fin_ns, 1).unwrap().flags, 0x01);
    let udp = info_of(classify_packet(&frame(17, 0, 0x002, 5, 60)));
    assert!(flow_event(&udp, 1).is_none());
}

#[test]
fn packet_host_stats_accounting() {
    let syn = info_of(classify_packet(&frame(6, 0x2000, 0x002, 5, 60)));
    let first = update_host_stats(None, &syn, 5);
    assert_eq!(first, HostStats {
        packets: 1, bytes: 60, tcp_packets: 1, udp_packets: 0, icmp_packets: 0,
        syn_packets: 1, frag_packets: 1, last_seen: 5,
    });
    let icmp = info_of(classify_packet(&frame(1, 0, 0, 5, 84)));
    let second = update_host_stats(Some(first), &icmp, 9);
    assert_eq!(second.packets, 2);
    assert_eq!(second.bytes, 144);
    assert_eq!(second.icmp_packets, 1);
    assert_eq!(second.syn_packets, 1);
    assert_eq!(second.frag_packets, 1);
    assert_eq!(second.last_seen, 9);
    let mut full = second;
    full.packets = u64::MAX;
    assert_eq!(update_host_stats(Some(full), &icmp, 10).packets, 0);
}

#[test]
fn packet_extended_stats_track_sizes_and_rst() {
    let rst = info_of(classify_packet(&frame(6, 0, 0x004, 5, 40)));
    let first = update_extended_stats(None, &rst, 1);
    assert_eq!(first.rst_packets, 1);
    assert_eq!(first.min_pkt_size, 40);
    assert_eq!(first.max_pkt_size, 40);
    let big = info_of(classify_packet(&frame(17, 0, 0, 5, 1500)));
    let second: ExtendedHostStats = update_extended_stats(Some(first), &big, 2);
    assert_eq!(second.min_pkt_size, 40);
    assert_eq!(second.max_pkt_size, 1500);
    assert_eq!(second.udp_packets, 1);
    assert_eq!(second.rst_packets, 1);
    assert_eq!(second.packets, 2);
}
