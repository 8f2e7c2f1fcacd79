use adg_xdp::common::HostStats;
use adg_xdp::profiler::{ActivityLevel, FragBehavior, HostProfiler, ProtocolProfile, RecentActivity, SynBehavior};
use adg_xdp::window::{assess_window, compute_delta};
use adg_xdp::trust::TrustLevel;

fn stats(packets: u64, tcp: u64, udp: u64, icmp: u64, syn: u64, frag: u64, last_seen: u64) -> HostStats {
    HostStats {
        packets,
        bytes: packets * 100,
        tcp_packets: tcp,
        udp_packets: udp,
        icmp_packets: icmp,
        syn_packets: syn,
        frag_packets: frag,
        last_seen,
    }
}

#[test]
fn profiler_activity_thresholds() {
    let level = |p: u64| HostProfiler::build(1, &stats(p, 0, 0, 0, 0, 0, 0), 0).activity;
    assert_eq!(level(0), ActivityLevel::Idle);
    assert_eq!(level(1), ActivityLevel::Low);
    assert_eq!(level(49), ActivityLevel::Low);
    assert_eq!(level(50), ActivityLevel::Medium);
    assert_eq!(level(499), ActivityLevel::Medium);
    assert_eq!(level(500), ActivityLevel::High);
}

#[test]
fn profiler_protocol_profiles() {
    let proto = |t: u64, u: u64, i: u64| HostProfiler::build(1, &stats(t + u + i, t, u, i, 0, 0, 0), 0).protocol;
    assert_eq!(proto(0, 0, 0), ProtocolProfile::Unknown);
    assert_eq!(proto(5, 1, 1), ProtocolProfile::TcpDominant);
    assert_eq!(proto(1, 5, 1), ProtocolProfile::UdpDominant);
    assert_eq!(proto(1, 1, 5), ProtocolProfile::IcmpDominant);
    assert_eq!(proto(3, 3, 1), ProtocolProfile::Mixed);
}

#[test]
fn profiler_syn_thresholds_are_exact_ratios() {
    let syn = |s: u64, t: u64| HostProfiler::build(1, &stats(t, t, 0, 0, s, 0, 0), 0).syn_behavior;
    assert_eq!(syn(5, 0), SynBehavior::Unknown);
    assert_eq!(syn(4, 100), SynBehavior::Normal);
    assert_eq!(syn(5, 100), SynBehavior::Moderate); // exactly 5%
    assert_eq!(syn(19, 100), SynBehavior::Moderate);
    assert_eq!(syn(20, 100), SynBehavior::Moderate); // exactly 20%
    assert_eq!(syn(201, 1000), SynBehavior::Aggressive); // just above 20%
    assert_eq!(syn(21, 100), SynBehavior::Aggressive);
    assert_eq!(syn(300, 100), SynBehavior::Aggressive);
}

#[test]
fn profiler_frag_threshold_is_strict() {
    let frag = |f: u64, p: u64| HostProfiler::build(1, &stats(p, 0, 0, 0, 0, f, 0), 0).frag_behavior;
    assert_eq!(frag(3, 0), FragBehavior::Normal);
    assert_eq!(frag(5, 100), FragBehavior::Normal); // exactly 5%
    assert_eq!(frag(6, 100), FragBehavior::Anomalous);
}

#[test]
fn profiler_recent_activity() {
    let recent = |now: u64| HostProfiler::build(1, &stats(1, 0, 0, 0, 0, 0, 1_000), now).recent_activity;
    assert_eq!(recent(0), RecentActivity::Active);
    assert_eq!(recent(1_000 + 4_999_999_999), RecentActivity::Active);
    assert_eq!(recent(1_000 + 5_000_000_000), RecentActivity::Recent);
    assert_eq!(recent(1_000 + 29_999_999_999), RecentActivity::Recent);
    assert_eq!(recent(1_000 + 30_000_000_000), RecentActivity::Idle);
}

#[test]
fn profiler_copies_counters() {
    let s = stats(10, 7, 2, 1, 3, 1, 42);
    let p = HostProfiler::build(0x0A000001, &s, 50);
    assert_eq!(p.ip, 0x0A000001);
    assert_eq!(p.packets, 10);
    assert_eq!(p.bytes, 1000);
    assert_eq!(p.tcp, 7);
    assert_eq!(p.udp, 2);
    assert_eq!(p.icmp, 1);
    assert_eq!(p.syn, 3);
    assert_eq!(p.frag, 1);
    assert_eq!(p.last_seen, 42);
}

#[test]
fn window_delta_saturates_and_keeps_last_seen() {
    let current = stats(10, 5, 3, 2, 1, 0, 900);
    let previous = stats(12, 2, 3, 0, 0, 0, 100);
    let d = compute_delta(&current, &previous);
    assert_eq!(d.packets, 0);
    assert_eq!(d.bytes, 0);
    assert_eq!(d.tcp_packets, 3);
    assert_eq!(d.udp_packets, 0);
    assert_eq!(d.icmp_packets, 2);
    assert_eq!(d.syn_packets, 1);
    assert_eq!(d.last_seen, 900);
}

#[test]
fn window_trust_recovers_when_traffic_stops() {
    // A SYN flood followed by a quiet window.
    let flood = stats(1000, 1000, 0, 0, 900, 0, 10);
    let first = assess_window(1, &flood, None, 10);
    assert_eq!(first.trust.score, 50);
    assert_eq!(first.entry.level, 2);
    let quiet = assess_window(1, &flood, Some(&flood), 2_000_000_010);
    assert_eq!(quiet.trust.score, 100);
    assert_eq!(quiet.trust.level(), TrustLevel::Trusted);
    assert_eq!(quiet.entry.score, 100);
    assert_eq!(quiet.entry.level, 0);
    assert_eq!(quiet.entry.version, 1);
    assert_eq!(quiet.entry.flags, 0);
}

#[test]
fn window_fragmentation_attack_is_untrusted() {
    let prev = stats(100, 100, 0, 0, 0, 0, 0);
    let cur = stats(300, 300, 0, 0, 100, 150, 5);
    let a = assess_window(7, &cur, Some(&prev), 5);
    assert_eq!(a.delta.packets, 200);
    assert_eq!(a.profile.syn_behavior, SynBehavior::Aggressive);
    assert_eq!(a.profile.frag_behavior, FragBehavior::Anomalous);
    assert_eq!(a.trust.score, 0);
    assert_eq!(a.entry.level, 3);
}

#[test]
fn profile_labels() {
    assert_eq!(ActivityLevel::Medium.label(), "MEDIUM");
    assert_eq!(ProtocolProfile::IcmpDominant.label(), "ICMP");
    assert_eq!(SynBehavior::Aggressive.label(), "AGGRESSIVE");
    assert_eq!(FragBehavior::Anomalous.label(), "ANOMALOUS");
    assert_eq!(RecentActivity::Recent.label(), "RECENT");
}
