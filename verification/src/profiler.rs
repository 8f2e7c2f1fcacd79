//! Classifies a host's counters for one window into behavioural profiles.
use vstd::prelude::*;
use crate::common::HostStats;
use crate::window::sat_sub;

verus! {

/// How many packets the host sent in the window.
#[derive(Debug, Clone, Copy, PartialEq, Eq, Structural)]
pub enum ActivityLevel {
    Idle,
    Low,
    Medium,
    High,
}

impl ActivityLevel {
    /// The level's display name.
    pub fn label(&self) -> (s: &'static str)
        ensures
            s@ == match *self {
                ActivityLevel::Idle => "IDLE"@,
                ActivityLevel::Low => "LOW"@,
                ActivityLevel::Medium => "MEDIUM"@,
                ActivityLevel::High => "HIGH"@,
            },
    {
        match self {
            ActivityLevel::Idle => "IDLE",
            ActivityLevel::Low => "LOW",
            ActivityLevel::Medium => "MEDIUM",
            ActivityLevel::High => "HIGH",
        }
    }
}

/// Idle without packets, low below 50, medium below 500, high from 500.
pub open spec fn activity_of(packets: u64) -> ActivityLevel {
    if packets == 0 {
        ActivityLevel::Idle
    } else if packets < 50 {
        ActivityLevel::Low
    } else if packets < 500 {
        ActivityLevel::Medium
    } else {
        ActivityLevel::High
    }
}

fn activity_level(stats: &HostStats) -> (a: ActivityLevel)
    ensures
        a == activity_of(stats.packets),
{
    if stats.packets == 0 {
        ActivityLevel::Idle
    } else if stats.packets < 50 {
        ActivityLevel::Low
    } else if stats.packets < 500 {
        ActivityLevel::Medium
    } else {
        ActivityLevel::High
    }
}

/// Which transport protocol dominates the host's traffic.
#[derive(Debug, Clone, Copy, PartialEq, Eq, Structural)]
pub enum ProtocolProfile {
    TcpDominant,
    UdpDominant,
    IcmpDominant,
    Mixed,
    Unknown,
}

impl ProtocolProfile {
    /// The profile's display name.
    pub fn label(&self) -> (s: &'static str)
        ensures
            s@ == match *self {
                ProtocolProfile::TcpDominant => "TCP"@,
                ProtocolProfile::UdpDominant => "UDP"@,
                ProtocolProfile::IcmpDominant => "ICMP"@,
                ProtocolProfile::Mixed => "MIXED"@,
                ProtocolProfile::Unknown => "UNKNOWN"@,
            },
    {
        match self {
            ProtocolProfile::TcpDominant => "TCP",
            ProtocolProfile::UdpDominant => "UDP",
            ProtocolProfile::IcmpDominant => "ICMP",
            ProtocolProfile::Mixed => "MIXED",
            ProtocolProfile::Unknown => "UNKNOWN",
        }
    }
}

/// Unknown without TCP, UDP or ICMP packets; otherwise the protocol with
/// strictly more packets than each of the other two, or mixed when none has.
pub open spec fn protocol_of(tcp: u64, udp: u64, icmp: u64) -> ProtocolProfile {
    if tcp == 0 && udp == 0 && icmp == 0 {
        ProtocolProfile::Unknown
    } else if tcp > udp && tcp > icmp {
        ProtocolProfile::TcpDominant
    } else if udp > tcp && udp > icmp {
        ProtocolProfile::UdpDominant
    } else if icmp > tcp && icmp > udp {
        ProtocolProfile::IcmpDominant
    } else {
        ProtocolProfile::Mixed
    }
}

/// A protocol dominates exactly when it has strictly more packets than each
/// of the other two; the profile is unknown exactly without any of the
/// three, and mixed when there is traffic but no protocol dominates.
pub proof fn lemma_dominant_protocol(tcp: u64, udp: u64, other: u64)
    ensures
        (protocol_of(tcp, udp, other) == ProtocolProfile::TcpDominant) <==> (tcp > udp && tcp > other),
        (protocol_of(tcp, udp, other) == ProtocolProfile::UdpDominant) <==> (udp > tcp && udp > other),
        (protocol_of(tcp, udp, other) == ProtocolProfile::IcmpDominant) <==> (other > tcp && other > udp),
        (protocol_of(tcp, udp, other) == ProtocolProfile::Unknown) <==> (tcp == 0 && udp == 0 && other == 0),
        (protocol_of(tcp, udp, other) == ProtocolProfile::Mixed) <==> (!(tcp == 0 && udp == 0 && other == 0)
            && !(tcp > udp && tcp > other) && !(udp > tcp && udp > other) && !(other > tcp && other > udp)),
{
}

fn protocol_profile(stats: &HostStats) -> (p: ProtocolProfile)
    ensures
        p == protocol_of(stats.tcp_packets, stats.udp_packets, stats.icmp_packets),
{
    let tcp = stats.tcp_packets;
    let udp = stats.udp_packets;
    let icmp = stats.icmp_packets;

    if tcp == 0 && udp == 0 && icmp == 0 {
        return ProtocolProfile::Unknown;
    }
    if tcp > udp && tcp > icmp {
        ProtocolProfile::TcpDominant
    } else if udp > tcp && udp > icmp {
        ProtocolProfile::UdpDominant
    } else if icmp > tcp && icmp > udp {
        ProtocolProfile::IcmpDominant
    } else {
        ProtocolProfile::Mixed
    }
}

/// The share of TCP packets that open connections.
#[derive(Debug, Clone, Copy, PartialEq, Eq, Structural)]
pub enum SynBehavior {
    Normal,
    Moderate,
    Aggressive,
    Unknown,
}

impl SynBehavior {
    /// The behaviour's display name.
    pub fn label(&self) -> (s: &'static str)
        ensures
            s@ == match *self {
                SynBehavior::Normal => "NORMAL"@,
                SynBehavior::Moderate => "MODERATE"@,
                SynBehavior::Aggressive => "AGGRESSIVE"@,
                SynBehavior::Unknown => "UNKNOWN"@,
            },
    {
        match self {
            SynBehavior::Normal => "NORMAL",
            SynBehavior::Moderate => "MODERATE",
            SynBehavior::Aggressive => "AGGRESSIVE",
            SynBehavior::Unknown => "UNKNOWN",
        }
    }
}

/// Unknown without TCP packets; otherwise by the ratio `syn / tcp`:
/// normal below 5%, moderate from 5% up to 20%, aggressive above 20%.
pub open spec fn syn_behavior_of(syn: u64, tcp: u64) -> SynBehavior {
    if tcp == 0 {
        SynBehavior::Unknown
    } else if 20 * syn < tcp {
        SynBehavior::Normal
    } else if 5 * syn <= tcp {
        SynBehavior::Moderate
    } else {
        SynBehavior::Aggressive
    }
}

/// How severe a SYN behaviour is: 0 for normal or unknown, 1 for
/// moderate, 2 for aggressive.
pub open spec fn syn_severity(b: SynBehavior) -> int {
    match b {
        SynBehavior::Moderate => 1,
        SynBehavior::Aggressive => 2,
        _ => 0,
    }
}

/// More SYNs among the same TCP packets never make the SYN behaviour
/// milder.
pub proof fn lemma_syn_behavior_monotone(syn1: u64, syn2: u64, tcp: u64)
    requires
        syn1 <= syn2,
    ensures
        syn_severity(syn_behavior_of(syn1, tcp)) <= syn_severity(syn_behavior_of(syn2, tcp)),
{
}

fn syn_behavior(stats: &HostStats) -> (b: SynBehavior)
    ensures
        b == syn_behavior_of(stats.syn_packets, stats.tcp_packets),
{
    if stats.tcp_packets == 0 {
        return SynBehavior::Unknown;
    }
    let syn = stats.syn_packets as u128;
    let tcp = stats.tcp_packets as u128;
    if syn * 20 < tcp {
        SynBehavior::Normal
    } else if syn * 5 <= tcp {
        SynBehavior::Moderate
    } else {
        SynBehavior::Aggressive
    }
}

/// Whether the share of fragmented packets is abnormal.
#[derive(Debug, Clone, Copy, PartialEq, Eq, Structural)]
pub enum FragBehavior {
    Normal,
    Anomalous,
}

impl FragBehavior {
    /// The behaviour's display name.
    pub fn label(&self) -> (s: &'static str)
        ensures
            s@ == match *self {
                FragBehavior::Normal => "NORMAL"@,
                FragBehavior::Anomalous => "ANOMALOUS"@,
            },
    {
        match self {
            FragBehavior::Normal => "NORMAL",
            FragBehavior::Anomalous => "ANOMALOUS",
        }
    }
}

/// Anomalous when more than 5% of the packets are fragments.
pub open spec fn frag_behavior_of(frag: u64, packets: u64) -> FragBehavior {
    if packets == 0 {
        FragBehavior::Normal
    } else if 20 * frag > packets {
        FragBehavior::Anomalous
    } else {
        FragBehavior::Normal
    }
}

/// More fragments among the same packets never make fragmentation look
/// normal again.
pub proof fn lemma_frag_behavior_monotone(frag1: u64, frag2: u64, packets: u64)
    requires
        frag1 <= frag2,
        frag_behavior_of(frag1, packets) == FragBehavior::Anomalous,
    ensures
        frag_behavior_of(frag2, packets) == FragBehavior::Anomalous,
{
}

fn frag_behavior(stats: &HostStats) -> (b: FragBehavior)
    ensures
        b == frag_behavior_of(stats.frag_packets, stats.packets),
{
    if stats.packets == 0 {
        return FragBehavior::Normal;
    }
    let frag = stats.frag_packets as u128;
    let packets = stats.packets as u128;
    if frag * 20 > packets {
        FragBehavior::Anomalous
    } else {
        FragBehavior::Normal
    }
}

/// How recently the host was last seen.
#[derive(Debug, Clone, Copy, PartialEq, Eq, Structural)]
pub enum RecentActivity {
    Active,
    Recent,
    Idle,
}

impl RecentActivity {
    /// The state's display name.
    pub fn label(&self) -> (s: &'static str)
        ensures
            s@ == match *self {
                RecentActivity::Active => "ACTIVE"@,
                RecentActivity::Recent => "RECENT"@,
                RecentActivity::Idle => "IDLE"@,
            },
    {
        match self {
            RecentActivity::Active => "ACTIVE",
            RecentActivity::Recent => "RECENT",
            RecentActivity::Idle => "IDLE",
        }
    }
}

/// Nanoseconds per second.
pub const SECOND_NS: u64 = 1_000_000_000;

/// Active when seen less than 5 s ago, recent when less than 30 s ago,
/// idle otherwise.
pub open spec fn recent_activity_of(idle_ns: u64) -> RecentActivity {
    if idle_ns < 5 * SECOND_NS {
        RecentActivity::Active
    } else if idle_ns < 30 * SECOND_NS {
        RecentActivity::Recent
    } else {
        RecentActivity::Idle
    }
}

fn activity_state(idle_ns: u64) -> (r: RecentActivity)
    ensures
        r == recent_activity_of(idle_ns),
{
    if idle_ns < 5 * SECOND_NS {
        RecentActivity::Active
    } else if idle_ns < 30 * SECOND_NS {
        RecentActivity::Recent
    } else {
        RecentActivity::Idle
    }
}

/// A host's counters for one window with their classifications.
#[derive(Debug, Clone, Copy, PartialEq, Eq, Structural)]
pub struct HostProfile {
    pub ip: u32,
    pub packets: u64,
    pub bytes: u64,
    pub tcp: u64,
    pub udp: u64,
    pub icmp: u64,
    pub syn: u64,
    pub frag: u64,
    pub last_seen: u64,
    pub activity: ActivityLevel,
    pub protocol: ProtocolProfile,
    pub syn_behavior: SynBehavior,
    pub frag_behavior: FragBehavior,
    pub recent_activity: RecentActivity,
}

/// The profile of host `ip` with counters `stats` at `current_time`.
pub open spec fn profile_of(ip: u32, stats: HostStats, current_time: u64) -> HostProfile {
    HostProfile {
        ip,
        packets: stats.packets,
        bytes: stats.bytes,
        tcp: stats.tcp_packets,
        udp: stats.udp_packets,
        icmp: stats.icmp_packets,
        syn: stats.syn_packets,
        frag: stats.frag_packets,
        last_seen: stats.last_seen,
        activity: activity_of(stats.packets),
        protocol: protocol_of(stats.tcp_packets, stats.udp_packets, stats.icmp_packets),
        syn_behavior: syn_behavior_of(stats.syn_packets, stats.tcp_packets),
        frag_behavior: frag_behavior_of(stats.frag_packets, stats.packets),
        recent_activity: recent_activity_of(sat_sub(current_time, stats.last_seen)),
    }
}

/// Builds host profiles.
pub struct HostProfiler;

impl HostProfiler {
    /// Copies the counters of `stats` and classifies them; idleness is
    /// measured from `stats.last_seen` to `current_time` (0 when the clock
    /// reads earlier).
    pub fn build(ip: u32, stats: &HostStats, current_time: u64) -> (p: HostProfile)
        ensures
            p == profile_of(ip, *stats, current_time),
    {
        let idle_ns = current_time.saturating_sub(stats.last_seen);
        HostProfile {
            ip,
            packets: stats.packets,
            bytes: stats.bytes,
            tcp: stats.tcp_packets,
            udp: stats.udp_packets,
            icmp: stats.icmp_packets,
            syn: stats.syn_packets,
            frag: stats.frag_packets,
            last_seen: stats.last_seen,
            activity: activity_level(stats),
            protocol: protocol_profile(stats),
            syn_behavior: syn_behavior(stats),
            frag_behavior: frag_behavior(stats),
            recent_activity: activity_state(idle_ns),
        }
    }
}

/// The bands of a host profile, by share and by time: the SYN share of TCP
/// packets is normal under 5%, moderate from 5% to 20% and aggressive above
/// 20%; fragments are anomalous above 5% of the packets; activity is low
/// under 50 packets, medium under 500 and high from 500; a host is active
/// when last seen under 5 s ago, recent under 30 s ago, and idle after.
pub proof fn lemma_profile_bands(ip: u32, stats: HostStats, now: u64)
    ensures
        (profile_of(ip, stats, now).syn_behavior == SynBehavior::Unknown) <==> stats.tcp_packets == 0,
        (profile_of(ip, stats, now).syn_behavior == SynBehavior::Normal) <==> (stats.tcp_packets > 0
            && 100 * stats.syn_packets < 5 * stats.tcp_packets),
        (profile_of(ip, stats, now).syn_behavior == SynBehavior::Moderate) <==> (stats.tcp_packets > 0
            && 5 * stats.tcp_packets <= 100 * stats.syn_packets <= 20 * stats.tcp_packets),
        (profile_of(ip, stats, now).syn_behavior == SynBehavior::Aggressive) <==> (stats.tcp_packets > 0
            && 100 * stats.syn_packets > 20 * stats.tcp_packets),
        (profile_of(ip, stats, now).frag_behavior == FragBehavior::Anomalous) <==> (stats.packets > 0
            && 100 * stats.frag_packets > 5 * stats.packets),
        (profile_of(ip, stats, now).activity == ActivityLevel::Idle) <==> stats.packets == 0,
        (profile_of(ip, stats, now).activity == ActivityLevel::Low) <==> 1 <= stats.packets < 50,
        (profile_of(ip, stats, now).activity == ActivityLevel::Medium) <==> 50 <= stats.packets < 500,
        (profile_of(ip, stats, now).activity == ActivityLevel::High) <==> stats.packets >= 500,
        now <= stats.last_seen ==> profile_of(ip, stats, now).recent_activity == RecentActivity::Active,
        stats.last_seen <= now ==> ((profile_of(ip, stats, now).recent_activity == RecentActivity::Active)
            <==> now - stats.last_seen < 5_000_000_000),
        stats.last_seen <= now ==> ((profile_of(ip, stats, now).recent_activity == RecentActivity::Recent)
            <==> 5_000_000_000 <= now - stats.last_seen < 30_000_000_000),
        stats.last_seen <= now ==> ((profile_of(ip, stats, now).recent_activity == RecentActivity::Idle)
            <==> now - stats.last_seen >= 30_000_000_000),
        profile_of(ip, stats, now).ip == ip,
        profile_of(ip, stats, now).packets == stats.packets,
        profile_of(ip, stats, now).syn == stats.syn_packets,
        profile_of(ip, stats, now).frag == stats.frag_packets,
        profile_of(ip, stats, now).last_seen == stats.last_seen,
{
}

} // verus!
