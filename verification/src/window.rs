//! Windowed evaluation of a host: the difference between two successive
//! counter snapshots, and the trust assessment of that window.
use vstd::prelude::*;
use crate::common::{HostStats, TrustEntry, zero_host_stats};
use crate::profiler::{HostProfile, HostProfiler, profile_of, SynBehavior, FragBehavior};
use crate::trust::{TrustEngine, TrustLevel, TrustScore, level_of, trust_of};

verus! {

/// `a - b`, or 0 when `b > a`.
pub open spec fn sat_sub(a: u64, b: u64) -> u64 {
    if a >= b { (a - b) as u64 } else { 0 }
}

/// The counter growth between two snapshots, each counter saturating at 0,
/// with the newest `last_seen`.
pub open spec fn delta_spec(current: HostStats, previous: HostStats) -> HostStats {
    HostStats {
        packets: sat_sub(current.packets, previous.packets),
        bytes: sat_sub(current.bytes, previous.bytes),
        tcp_packets: sat_sub(current.tcp_packets, previous.tcp_packets),
        udp_packets: sat_sub(current.udp_packets, previous.udp_packets),
        icmp_packets: sat_sub(current.icmp_packets, previous.icmp_packets),
        syn_packets: sat_sub(current.syn_packets, previous.syn_packets),
        frag_packets: sat_sub(current.frag_packets, previous.frag_packets),
        last_seen: current.last_seen,
    }
}

/// Computes the delta between the current and previous snapshots: the
/// activity of the last polling interval rather than all-time counters.
pub fn compute_delta(current: &HostStats, previous: &HostStats) -> (d: HostStats)
    ensures
        d == delta_spec(*current, *previous),
{
    HostStats {
        packets: current.packets.saturating_sub(previous.packets),
        bytes: current.bytes.saturating_sub(previous.bytes),
        tcp_packets: current.tcp_packets.saturating_sub(previous.tcp_packets),
        udp_packets: current.udp_packets.saturating_sub(previous.udp_packets),
        icmp_packets: current.icmp_packets.saturating_sub(previous.icmp_packets),
        syn_packets: current.syn_packets.saturating_sub(previous.syn_packets),
        frag_packets: current.frag_packets.saturating_sub(previous.frag_packets),
        last_seen: current.last_seen,
    }
}

/// The number under which the trust map records a level.
pub open spec fn level_code(l: TrustLevel) -> u8 {
    match l {
        TrustLevel::Trusted => 0,
        TrustLevel::Normal => 1,
        TrustLevel::Suspicious => 2,
        TrustLevel::Untrusted => 3,
    }
}

/// The trust-map entry of a score: the score, its level's number, schema
/// version 1 and no flags.
pub open spec fn entry_of(t: TrustScore) -> TrustEntry {
    TrustEntry { score: t.score, level: level_code(level_of(t.score)), version: 1, flags: 0 }
}

/// The trust-map entry for a score.
pub fn trust_entry(trust: &TrustScore) -> (e: TrustEntry)
    ensures
        e == entry_of(*trust),
{
    let level: u8 = match trust.level() {
        TrustLevel::Trusted => 0,
        TrustLevel::Normal => 1,
        TrustLevel::Suspicious => 2,
        TrustLevel::Untrusted => 3,
    };
    TrustEntry { score: trust.score, level, version: 1, flags: 0 }
}

/// What one polling window yields for a host.
#[derive(Debug, Clone, Copy, PartialEq, Eq, Structural)]
pub struct WindowAssessment {
    pub delta: HostStats,
    pub profile: HostProfile,
    pub trust: TrustScore,
    pub entry: TrustEntry,
}

/// The previous snapshot, or all zeros for a host seen for the first time.
pub open spec fn previous_or_zero(previous: Option<HostStats>) -> HostStats {
    match previous {
        Some(p) => p,
        None => zero_host_stats(),
    }
}

/// The assessment of one window: delta, profile, trust and map entry.
pub open spec fn assessment_of(
    ip: u32,
    current: HostStats,
    previous: Option<HostStats>,
    current_time: u64,
) -> WindowAssessment {
    let delta = delta_spec(current, previous_or_zero(previous));
    let profile = profile_of(ip, delta, current_time);
    let trust = trust_of(profile);
    WindowAssessment { delta, profile, trust, entry: entry_of(trust) }
}

/// Assesses host `ip` on the activity since its previous snapshot (all of
/// its counters when there is none): profiles the window's delta, scores
/// it, and builds the trust-map entry.
pub fn assess_window(
    ip: u32,
    current: &HostStats,
    previous: Option<&HostStats>,
    current_time: u64,
) -> (a: WindowAssessment)
    ensures
        a == assessment_of(
            ip,
            *current,
            match previous {
                Some(p) => Some(*p),
                None => None,
            },
            current_time,
        ),
{
    let zero = HostStats::zero();
    let prev = match previous {
        Some(p) => p,
        None => &zero,
    };
    let delta = compute_delta(current, prev);
    let profile = HostProfiler::build(ip, &delta, current_time);
    let trust = TrustEngine::compute(&profile);
    let entry = trust_entry(&trust);
    WindowAssessment { delta, profile, trust, entry }
}

/// Trust recovers on its own: a window in which a host's counters did not
/// grow scores 100 and is trusted, whatever the host did before.
pub proof fn lemma_quiet_window_restores_full_trust(ip: u32, stats: HostStats, current_time: u64)
    ensures
        assessment_of(ip, stats, Some(stats), current_time).trust.score == 100,
        level_of(assessment_of(ip, stats, Some(stats), current_time).trust.score) == TrustLevel::Trusted,
        assessment_of(ip, stats, Some(stats), current_time).profile.syn_behavior == SynBehavior::Unknown,
        assessment_of(ip, stats, Some(stats), current_time).profile.frag_behavior == FragBehavior::Normal,
{
}

/// Each window counter is the growth of that counter since the previous
/// snapshot: added to the previous value it gives the current one, and it is
/// 0 when the counter went down. The window keeps the current last-seen time.
pub proof fn lemma_delta_is_growth(current: HostStats, previous: HostStats)
    ensures
        previous.packets <= current.packets ==> delta_spec(current, previous).packets + previous.packets
            == current.packets,
        previous.bytes <= current.bytes ==> delta_spec(current, previous).bytes + previous.bytes
            == current.bytes,
        previous.tcp_packets <= current.tcp_packets ==> delta_spec(current, previous).tcp_packets
            + previous.tcp_packets == current.tcp_packets,
        previous.udp_packets <= current.udp_packets ==> delta_spec(current, previous).udp_packets
            + previous.udp_packets == current.udp_packets,
        previous.icmp_packets <= current.icmp_packets ==> delta_spec(current, previous).icmp_packets
            + previous.icmp_packets == current.icmp_packets,
        previous.syn_packets <= current.syn_packets ==> delta_spec(current, previous).syn_packets
            + previous.syn_packets == current.syn_packets,
        previous.frag_packets <= current.frag_packets ==> delta_spec(current, previous).frag_packets
            + previous.frag_packets == current.frag_packets,
        previous.packets > current.packets ==> delta_spec(current, previous).packets == 0,
        previous.bytes > current.bytes ==> delta_spec(current, previous).bytes == 0,
        previous.tcp_packets > current.tcp_packets ==> delta_spec(current, previous).tcp_packets == 0,
        previous.udp_packets > current.udp_packets ==> delta_spec(current, previous).udp_packets == 0,
        previous.icmp_packets > current.icmp_packets ==> delta_spec(current, previous).icmp_packets == 0,
        previous.syn_packets > current.syn_packets ==> delta_spec(current, previous).syn_packets == 0,
        previous.frag_packets > current.frag_packets ==> delta_spec(current, previous).frag_packets == 0,
        delta_spec(current, previous).last_seen == current.last_seen,
{
}

/// A window without new SYNs carries no SYN penalty, whatever the host's
/// SYN count before it: its SYN behaviour is normal (or unknown without TCP
/// traffic) and its SYN contribution to trust is 0.
pub proof fn lemma_no_new_syns_no_syn_penalty(ip: u32, current: HostStats, previous: HostStats, current_time: u64)
    requires
        current.syn_packets == previous.syn_packets,
    ensures
        assessment_of(ip, current, Some(previous), current_time).delta.syn_packets == 0,
        assessment_of(ip, current, Some(previous), current_time).profile.syn_behavior
            == SynBehavior::Normal || assessment_of(ip, current, Some(previous), current_time).profile.syn_behavior
            == SynBehavior::Unknown,
        assessment_of(ip, current, Some(previous), current_time).trust.syn_contribution == 0,
{
}

/// The trust-map entry carries the score unchanged, the level as 0
/// (trusted), 1 (normal), 2 (suspicious) or 3 (untrusted), schema version 1
/// and no flags.
pub proof fn lemma_entry_encoding(t: TrustScore)
    ensures
        entry_of(t).score == t.score,
        (entry_of(t).level == 0) <==> (level_of(t.score) == TrustLevel::Trusted),
        (entry_of(t).level == 1) <==> (level_of(t.score) == TrustLevel::Normal),
        (entry_of(t).level == 2) <==> (level_of(t.score) == TrustLevel::Suspicious),
        (entry_of(t).level == 3) <==> (level_of(t.score) == TrustLevel::Untrusted),
        entry_of(t).version == 1,
        entry_of(t).flags == 0,
{
}

/// The first window of a host covers all of its counters.
pub proof fn lemma_first_window_is_cumulative(current: HostStats)
    ensures
        delta_spec(current, zero_host_stats()) == current,
{
}

/// The window delta never exceeds the current counters.
pub proof fn lemma_delta_bounded(current: HostStats, previous: HostStats)
    ensures
        delta_spec(current, previous).packets <= current.packets,
        delta_spec(current, previous).bytes <= current.bytes,
        delta_spec(current, previous).tcp_packets <= current.tcp_packets,
        delta_spec(current, previous).udp_packets <= current.udp_packets,
        delta_spec(current, previous).icmp_packets <= current.icmp_packets,
        delta_spec(current, previous).syn_packets <= current.syn_packets,
        delta_spec(current, previous).frag_packets <= current.frag_packets,
{
}

} // verus!
