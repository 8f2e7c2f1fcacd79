use adg_xdp::profiler::{ActivityLevel, FragBehavior, HostProfile, ProtocolProfile, RecentActivity, SynBehavior};
use adg_xdp::trust::{TrustEngine, TrustLevel, TrustScore};

fn create_profile(syn: SynBehavior) -> HostProfile {
    HostProfile {
        ip: 0x0A000001,
        packets: 1000,
        bytes: 100000,
        tcp: 100,
        frag: 0,
        udp: 0,
        icmp: 0,
        syn: 5,
        last_seen: 1,
        activity: ActivityLevel::High,
        protocol: ProtocolProfile::TcpDominant,
        syn_behavior: syn,
        frag_behavior: FragBehavior::Normal,
        recent_activity: RecentActivity::Active,
    }
}

#[test]
fn test_normal_syn_full_trust() {
    let profile = create_profile(SynBehavior::Normal);
    let score = TrustEngine::compute(&profile);
    assert_eq!(score.score, 100);
    assert_eq!(score.syn_contribution, 0);
    assert_eq!(score.level(), TrustLevel::Trusted);
}

#[test]
fn test_moderate_syn_deduction() {
    let profile = create_profile(SynBehavior::Moderate);
    let score = TrustEngine::compute(&profile);
    assert_eq!(score.score, 80);
    assert_eq!(score.syn_contribution, -20);
    assert_eq!(score.level(), TrustLevel::Normal);
}

#[test]
fn test_aggressive_syn_deduction() {
    let profile = create_profile(SynBehavior::Aggressive);
    let score = TrustEngine::compute(&profile);
    assert_eq!(score.score, 50);
    assert_eq!(score.syn_contribution, -50);
    assert_eq!(score.level(), TrustLevel::Suspicious);
}

#[test]
fn test_unknown_syn_no_penalty() {
    let profile = create_profile(SynBehavior::Unknown);
    let score = TrustEngine::compute(&profile);
    assert_eq!(score.score, 100);
    assert_eq!(score.syn_contribution, 0);
}

#[test]
fn test_high_activity_no_penalty() {
    let mut profile = create_profile(SynBehavior::Normal);
    profile.activity = ActivityLevel::High;
    profile.packets = 1_000_000;
    let score = TrustEngine::compute(&profile);
    assert_eq!(score.score, 100, "High activity should not reduce trust");
}

#[test]
fn test_idle_no_penalty() {
    let mut profile = create_profile(SynBehavior::Normal);
    profile.activity = ActivityLevel::Idle;
    profile.packets = 5;
    let score = TrustEngine::compute(&profile);
    assert_eq!(score.score, 100, "Idle hosts should not be penalized");
}

#[test]
fn test_udp_dominant_no_penalty() {
    let mut profile = create_profile(SynBehavior::Normal);
    profile.protocol = ProtocolProfile::UdpDominant;
    profile.udp = 1000;
    let score = TrustEngine::compute(&profile);
    assert_eq!(score.score, 100, "UDP is legitimate (DNS, QUIC, VoIP)");
}

#[test]
fn test_icmp_dominant_no_penalty() {
    let mut profile = create_profile(SynBehavior::Normal);
    profile.protocol = ProtocolProfile::IcmpDominant;
    profile.icmp = 500;
    let score = TrustEngine::compute(&profile);
    assert_eq!(score.score, 100, "ICMP is diagnostic, not malicious");
}

#[test]
fn test_anomalous_fragmentation_deduction() {
    let mut profile = create_profile(SynBehavior::Normal);
    profile.frag_behavior = FragBehavior::Anomalous;
    let score = TrustEngine::compute(&profile);
    assert_eq!(score.score, 15);
    assert_eq!(score.frag_contribution, -85);
    assert_eq!(score.level(), TrustLevel::Untrusted);
}

// ===== Further cases =====

#[test]
fn trust_clamps_at_zero_when_both_signals_fire() {
    let mut profile = create_profile(SynBehavior::Aggressive);
    profile.frag_behavior = FragBehavior::Anomalous;
    let score = TrustEngine::compute(&profile);
    assert_eq!(score.score, 0);
    assert_eq!(score.syn_contribution, -50);
    assert_eq!(score.frag_contribution, -85);
    assert_eq!(score.level(), TrustLevel::Untrusted);
}

#[test]
fn trust_moderate_syn_with_fragmentation() {
    let mut profile = create_profile(SynBehavior::Moderate);
    profile.frag_behavior = FragBehavior::Anomalous;
    assert_eq!(TrustEngine::compute(&profile).score, 0);
}

#[test]
fn trust_level_band_edges() {
    let at = |score: u8| TrustScore { score, syn_contribution: 0, frag_contribution: 0 }.level();
    assert_eq!(at(100), TrustLevel::Trusted);
    assert_eq!(at(90), TrustLevel::Trusted);
    assert_eq!(at(89), TrustLevel::Normal);
    assert_eq!(at(70), TrustLevel::Normal);
    assert_eq!(at(69), TrustLevel::Suspicious);
    assert_eq!(at(40), TrustLevel::Suspicious);
    assert_eq!(at(39), TrustLevel::Untrusted);
    assert_eq!(at(0), TrustLevel::Untrusted);
    // Scores above the scale fall outside every named band.
    assert_eq!(at(101), TrustLevel::Untrusted);
    assert_eq!(at(255), TrustLevel::Untrusted);
}

#[test]
fn trust_level_labels() {
    assert_eq!(TrustLevel::Trusted.label(), "TRUSTED");
    assert_eq!(TrustLevel::Normal.label(), "NORMAL");
    assert_eq!(TrustLevel::Suspicious.label(), "SUSPICIOUS");
    assert_eq!(TrustLevel::Untrusted.label(), "UNTRUSTED");
}
