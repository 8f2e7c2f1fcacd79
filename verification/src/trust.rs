//! Turns a host profile into a 0–100 trust score and a trust level.
use vstd::prelude::*;
use crate::profiler::{FragBehavior, HostProfile, SynBehavior, syn_severity};

verus! {

/// Trust deducted for a moderate SYN share.
pub const MODERATE_SYN_PENALTY: i32 = 20;

/// Trust deducted for an aggressive SYN share.
pub const AGGRESSIVE_SYN_PENALTY: i32 = 50;

/// Trust deducted for anomalous fragmentation.
pub const FRAGMENTATION_PENALTY: i32 = 85;

/// A trust score with the signed contribution of each signal.
#[derive(Debug, Clone, Copy, PartialEq, Eq, Structural)]
pub struct TrustScore {
    pub score: u8,
    pub syn_contribution: i32,
    pub frag_contribution: i32,
}

/// The policy band of a trust score.
#[derive(Debug, Clone, Copy, PartialEq, Eq, Structural)]
pub enum TrustLevel {
    Trusted,
    Normal,
    Suspicious,
    Untrusted,
}

impl TrustLevel {
    /// The level's display name.
    pub fn label(&self) -> (s: &'static str)
        ensures
            s@ == match *self {
                TrustLevel::Trusted => "TRUSTED"@,
                TrustLevel::Normal => "NORMAL"@,
                TrustLevel::Suspicious => "SUSPICIOUS"@,
                TrustLevel::Untrusted => "UNTRUSTED"@,
            },
    {
        match self {
            TrustLevel::Trusted => "TRUSTED",
            TrustLevel::Normal => "NORMAL",
            TrustLevel::Suspicious => "SUSPICIOUS",
            TrustLevel::Untrusted => "UNTRUSTED",
        }
    }
}

/// Trusted from 90, normal from 70, suspicious from 40, untrusted below.
pub open spec fn level_of(score: u8) -> TrustLevel {
    if 90 <= score && score <= 100 {
        TrustLevel::Trusted
    } else if 70 <= score && score <= 89 {
        TrustLevel::Normal
    } else if 40 <= score && score <= 69 {
        TrustLevel::Suspicious
    } else {
        TrustLevel::Untrusted
    }
}

impl TrustScore {
    /// The band of the score.
    pub fn level(&self) -> (l: TrustLevel)
        ensures
            l == level_of(self.score),
    {
        if 90 <= self.score && self.score <= 100 {
            TrustLevel::Trusted
        } else if 70 <= self.score && self.score <= 89 {
            TrustLevel::Normal
        } else if 40 <= self.score && self.score <= 69 {
            TrustLevel::Suspicious
        } else {
            TrustLevel::Untrusted
        }
    }
}

/// The deduction for a SYN behaviour, as a non-positive contribution.
pub open spec fn syn_contribution_of(b: SynBehavior) -> i32 {
    match b {
        SynBehavior::Moderate => (-MODERATE_SYN_PENALTY) as i32,
        SynBehavior::Aggressive => (-AGGRESSIVE_SYN_PENALTY) as i32,
        _ => 0,
    }
}

/// The deduction for a fragmentation behaviour, as a non-positive
/// contribution.
pub open spec fn frag_contribution_of(b: FragBehavior) -> i32 {
    match b {
        FragBehavior::Anomalous => (-FRAGMENTATION_PENALTY) as i32,
        FragBehavior::Normal => 0,
    }
}

/// `x` clamped to 0..=100.
pub open spec fn clamp_percent(x: int) -> int {
    if x < 0 {
        0
    } else if x > 100 {
        100
    } else {
        x
    }
}

/// The trust of a profile: 100 plus the contributions of its SYN and
/// fragmentation behaviour, clamped to 0..=100.
pub open spec fn trust_of(profile: HostProfile) -> TrustScore {
    let syn = syn_contribution_of(profile.syn_behavior);
    let frag = frag_contribution_of(profile.frag_behavior);
    TrustScore { score: clamp_percent(100 + syn + frag) as u8, syn_contribution: syn, frag_contribution: frag }
}

/// How bad a level is: 0 for trusted up to 3 for untrusted.
pub open spec fn level_rank(l: TrustLevel) -> int {
    match l {
        TrustLevel::Trusted => 0,
        TrustLevel::Normal => 1,
        TrustLevel::Suspicious => 2,
        TrustLevel::Untrusted => 3,
    }
}

/// Within 0..=100, a higher score never falls in a worse level.
pub proof fn lemma_level_monotone(a: u8, b: u8)
    requires
        a <= b <= 100,
    ensures
        level_rank(level_of(b)) <= level_rank(level_of(a)),
{
}

/// Anomalous fragmentation always leaves a host untrusted.
pub proof fn lemma_fragmentation_untrusted(p: HostProfile)
    requires
        p.frag_behavior == FragBehavior::Anomalous,
    ensures
        level_of(trust_of(p).score) == TrustLevel::Untrusted,
{
}

/// Only the SYN and fragmentation behaviour affect trust: activity, protocol
/// mix, idleness and raw counters do not.
pub proof fn lemma_trust_depends_only_on_signals(p: HostProfile, q: HostProfile)
    requires
        p.syn_behavior == q.syn_behavior,
        p.frag_behavior == q.frag_behavior,
    ensures
        trust_of(p) == trust_of(q),
{
}

/// Trust is full exactly when neither signal fires.
pub proof fn lemma_full_trust_iff_no_signal(p: HostProfile)
    ensures
        trust_of(p).score == 100 <==> (syn_severity(p.syn_behavior) == 0 && p.frag_behavior
            == FragBehavior::Normal),
{
}

/// A more severe SYN behaviour never raises trust.
pub proof fn lemma_syn_severity_lowers_trust(p: HostProfile, q: HostProfile)
    requires
        p.frag_behavior == q.frag_behavior,
        syn_severity(p.syn_behavior) <= syn_severity(q.syn_behavior),
    ensures
        trust_of(q).score <= trust_of(p).score,
{
}

/// Computes trust scores.
pub struct TrustEngine;

impl TrustEngine {
    /// Computes the trust score of a profile. A moderate SYN share costs
    /// 20 points, an aggressive one 50, anomalous fragmentation 85; the
    /// activity level, protocol mix and idleness cost nothing.
    pub fn compute(profile: &HostProfile) -> (t: TrustScore)
        ensures
            t == trust_of(*profile),
            0 <= t.score <= 100,
    {
        let mut trust: i32 = 100;
        let mut syn_contribution: i32 = 0;
        let mut frag_contribution: i32 = 0;

        match profile.syn_behavior {
            SynBehavior::Normal => {},
            SynBehavior::Moderate => {
                syn_contribution = -MODERATE_SYN_PENALTY;
                trust += syn_contribution;
            },
            SynBehavior::Aggressive => {
                syn_contribution = -AGGRESSIVE_SYN_PENALTY;
                trust += syn_contribution;
            },
            SynBehavior::Unknown => {},
        }

        match profile.frag_behavior {
            FragBehavior::Normal => {},
            FragBehavior::Anomalous => {
                frag_contribution = -FRAGMENTATION_PENALTY;
                trust += frag_contribution;
            },
        }

        if trust < 0 {
            trust = 0;
        } else if trust > 100 {
            trust = 100;
        }

        TrustScore { score: trust as u8, syn_contribution, frag_contribution }
    }
}

/// The trust table: without signals a host scores 100; a moderate SYN share
/// costs 20 and an aggressive one 50; anomalous fragmentation costs 85; the
/// score never drops below 0. The contributions report each cost.
pub proof fn lemma_trust_table(p: HostProfile)
    ensures
        p.frag_behavior == FragBehavior::Normal ==> trust_of(p).score == match p.syn_behavior {
            SynBehavior::Moderate => 80u8,
            SynBehavior::Aggressive => 50u8,
            _ => 100u8,
        },
        p.frag_behavior == FragBehavior::Anomalous ==> trust_of(p).score == match p.syn_behavior {
            SynBehavior::Moderate => 0u8,
            SynBehavior::Aggressive => 0u8,
            _ => 15u8,
        },
        trust_of(p).syn_contribution == match p.syn_behavior {
            SynBehavior::Moderate => -20i32,
            SynBehavior::Aggressive => -50i32,
            _ => 0i32,
        },
        trust_of(p).frag_contribution == (if p.frag_behavior == FragBehavior::Anomalous { -85i32 } else { 0i32 }),
{
}

/// The levels by score: trusted from 90 to 100, normal from 70 to 89,
/// suspicious from 40 to 69, untrusted below 40.
pub proof fn lemma_level_bands(score: u8)
    requires
        score <= 100,
    ensures
        (level_of(score) == TrustLevel::Trusted) <==> 90 <= score,
        (level_of(score) == TrustLevel::Normal) <==> 70 <= score < 90,
        (level_of(score) == TrustLevel::Suspicious) <==> 40 <= score < 70,
        (level_of(score) == TrustLevel::Untrusted) <==> score < 40,
{
}

} // verus!
