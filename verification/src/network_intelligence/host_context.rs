//! Aggregates the flows a host originates into per-host network counters.
use vstd::prelude::*;
use vstd::set::fold::{is_fun_commutative, lemma_fold_insert, lemma_fold_empty};
use crate::network_intelligence::flow_table::{FlowKey, FlowStats, FlowTable, FlowTuple};
use crate::ordering::tuple5_lt;
use crate::sorted::{strictly_increasing, insert_sorted};

verus! {

/// The flows of `m` whose source is `host`.
pub open spec fn host_flows(m: Map<FlowTuple, FlowStats>, host: u32) -> Set<FlowTuple> {
    m.dom().filter(|k: FlowTuple| k.0 == host)
}

/// The distinct destination addresses of the flows of `host`.
pub open spec fn host_dst_ips(m: Map<FlowTuple, FlowStats>, host: u32) -> Set<u32> {
    host_flows(m, host).map(|k: FlowTuple| k.1)
}

/// The distinct destination ports of the flows of `host`.
pub open spec fn host_dst_ports(m: Map<FlowTuple, FlowStats>, host: u32) -> Set<u16> {
    host_flows(m, host).map(|k: FlowTuple| k.3)
}

/// One step of summing `field` over the flows of `host`.
pub open spec fn sum_step(m: Map<FlowTuple, FlowStats>, host: u32, field: spec_fn(FlowStats) -> nat) -> spec_fn(int, FlowTuple) -> int {
    |acc: int, k: FlowTuple| acc + if k.0 == host { field(m[k]) as int } else { 0int }
}

/// The sum of `field` over the flows in `keys` whose source is `host`.
pub open spec fn sum_over(keys: Set<FlowTuple>, m: Map<FlowTuple, FlowStats>, host: u32, field: spec_fn(FlowStats) -> nat) -> int {
    keys.fold(0int, sum_step(m, host, field))
}

/// A flow's mean packet size (bytes over packets), cut to its low 16 bits.
pub open spec fn mean_size(s: FlowStats) -> u16 {
    (s.bytes / s.packets) as u16
}

/// One step of taking the smallest mean packet size over the flows of
/// `host` that have packets.
pub open spec fn min_step(m: Map<FlowTuple, FlowStats>, host: u32) -> spec_fn(int, FlowTuple) -> int {
    |acc: int, k: FlowTuple|
        if k.0 == host && m[k].packets > 0 && (mean_size(m[k]) as int) < acc {
            mean_size(m[k]) as int
        } else {
            acc
        }
}

/// One step of taking the largest mean packet size over the flows of
/// `host` that have packets.
pub open spec fn max_step(m: Map<FlowTuple, FlowStats>, host: u32) -> spec_fn(int, FlowTuple) -> int {
    |acc: int, k: FlowTuple|
        if k.0 == host && m[k].packets > 0 && (mean_size(m[k]) as int) > acc {
            mean_size(m[k]) as int
        } else {
            acc
        }
}

pub open spec fn rst_field() -> spec_fn(FlowStats) -> nat {
    |s: FlowStats| s.rst_packets as nat
}

pub open spec fn bytes_field() -> spec_fn(FlowStats) -> nat {
    |s: FlowStats| s.bytes as nat
}

pub open spec fn packets_field() -> spec_fn(FlowStats) -> nat {
    |s: FlowStats| s.packets as nat
}

/// What a host's flows add up to.
#[derive(Debug, Clone, Copy, PartialEq, Eq, Structural)]
pub struct HostFlowSummary {
    pub host_ip: u32,
    pub unique_dst_ips: u32,
    pub unique_dst_ports: u32,
    pub flow_count: u32,
    pub rst_count: u64,
    pub total_bytes: u64,
    pub total_packets: u64,
    /// The smallest mean packet size over the host's flows; 0 when it has
    /// none, or when that size is 65535.
    pub min_packet_size: u16,
    /// The largest mean packet size over the host's flows; 0 when it has
    /// none.
    pub max_packet_size: u16,
}

/// Whether the counters of `host` fit their fields.
pub open spec fn summary_fits(m: Map<FlowTuple, FlowStats>, host: u32) -> bool {
    &&& host_flows(m, host).len() <= u32::MAX
    &&& sum_over(m.dom(), m, host, rst_field()) <= u64::MAX
    &&& sum_over(m.dom(), m, host, bytes_field()) <= u64::MAX
    &&& sum_over(m.dom(), m, host, packets_field()) <= u64::MAX
}

/// The summary of the flows of `host`.
pub open spec fn summary_of(m: Map<FlowTuple, FlowStats>, host: u32) -> HostFlowSummary {
    let least = m.dom().fold(65535int, min_step(m, host));
    HostFlowSummary {
        host_ip: host,
        unique_dst_ips: host_dst_ips(m, host).len() as u32,
        unique_dst_ports: host_dst_ports(m, host).len() as u32,
        flow_count: host_flows(m, host).len() as u32,
        rst_count: sum_over(m.dom(), m, host, rst_field()) as u64,
        total_bytes: sum_over(m.dom(), m, host, bytes_field()) as u64,
        total_packets: sum_over(m.dom(), m, host, packets_field()) as u64,
        min_packet_size: if least == 65535 { 0 } else { least as u16 },
        max_packet_size: m.dom().fold(0int, max_step(m, host)) as u16,
    }
}

proof fn lemma_sum_step_commutative(m: Map<FlowTuple, FlowStats>, host: u32, field: spec_fn(FlowStats) -> nat)
    ensures
        is_fun_commutative(sum_step(m, host, field)),
{
}

proof fn lemma_min_step_commutative(m: Map<FlowTuple, FlowStats>, host: u32)
    ensures
        is_fun_commutative(min_step(m, host)),
{
}

proof fn lemma_max_step_commutative(m: Map<FlowTuple, FlowStats>, host: u32)
    ensures
        is_fun_commutative(max_step(m, host)),
{
}

/// The keys of the first `i` entries.
spec fn prefix_keys(entries: Seq<(FlowKey, FlowStats)>, i: int) -> Set<FlowTuple> {
    entries.subrange(0, i).map_values(|e: (FlowKey, FlowStats)| e.0.tuple()).to_set()
}

/// Builds per-host network summaries from a flow table.
pub struct HostContextBuilder;

impl HostContextBuilder {
    /// Adds up the flows whose source is `host_ip`: distinct destinations
    /// and destination ports, flow count, RST packets, bytes and packets,
    /// and the least and greatest mean packet size. None when a count
    /// overflows its field.
    #[verifier::rlimit(50)]
    pub fn summarize(host_ip: u32, flow_table: &FlowTable) -> (r: Option<HostFlowSummary>)
        requires
            flow_table.wf(),
        ensures
            r is Some <==> summary_fits(flow_table@, host_ip),
            r matches Some(s) ==> s == summary_of(flow_table@, host_ip),
    {
        let entries = flow_table.iter();
        let ghost m = flow_table@;
        let mut dst_ips: Vec<u32> = Vec::new();
        let mut dst_ports: Vec<u32> = Vec::new();
        let mut flow_count: u64 = 0;
        let mut rst: u128 = 0;
        let mut bytes: u128 = 0;
        let mut packets: u128 = 0;
        let mut least: u16 = 65535;
        let mut greatest: u16 = 0;
        proof {
            lemma_sum_step_commutative(m, host_ip, rst_field());
            lemma_sum_step_commutative(m, host_ip, bytes_field());
            lemma_sum_step_commutative(m, host_ip, packets_field());
            lemma_min_step_commutative(m, host_ip);
            lemma_max_step_commutative(m, host_ip);
            assert(prefix_keys(entries@, 0) =~= Set::<FlowTuple>::empty());
            assert(host_flows(m.restrict(prefix_keys(entries@, 0)), host_ip) =~= Set::<FlowTuple>::empty());
            lemma_fold_empty(0int, sum_step(m, host_ip, rst_field()));
            lemma_fold_empty(0int, sum_step(m, host_ip, bytes_field()));
            lemma_fold_empty(0int, sum_step(m, host_ip, packets_field()));
            lemma_fold_empty(65535int, min_step(m, host_ip));
            lemma_fold_empty(0int, max_step(m, host_ip));
        }
        let mut i: usize = 0;
        while i < entries.len()
            invariant
                0 <= i <= entries.len(),
                entries.len() == m.len(),
                m.dom().finite(),
                forall|a: int| #![trigger entries[a]]
                    0 <= a < entries.len() ==> m.contains_key(entries[a].0.tuple()) && m[entries[a].0.tuple()] == entries[a].1,
                forall|a: int, b: int| 0 <= a < b < entries.len() ==> tuple5_lt(entries[a].0.tuple(), entries[b].0.tuple()),
                is_fun_commutative(sum_step(m, host_ip, rst_field())),
                is_fun_commutative(sum_step(m, host_ip, bytes_field())),
                is_fun_commutative(sum_step(m, host_ip, packets_field())),
                is_fun_commutative(min_step(m, host_ip)),
                is_fun_commutative(max_step(m, host_ip)),
                strictly_increasing(dst_ips@),
                strictly_increasing(dst_ports@),
                forall|y: u32| dst_ips@.contains(y) <==> host_dst_ips(m.restrict(prefix_keys(entries@, i as int)), host_ip).contains(y),
                forall|y: u32| dst_ports@.contains(y) <==> exists|p: u16| y == p && #[trigger] host_dst_ports(m.restrict(prefix_keys(entries@, i as int)), host_ip).contains(p),
                flow_count == host_flows(m.restrict(prefix_keys(entries@, i as int)), host_ip).len(),
                flow_count <= i,
                dst_ips.len() <= flow_count,
                dst_ports.len() <= flow_count,
                rst == sum_over(prefix_keys(entries@, i as int), m, host_ip, rst_field()),
                bytes == sum_over(prefix_keys(entries@, i as int), m, host_ip, bytes_field()),
                packets == sum_over(prefix_keys(entries@, i as int), m, host_ip, packets_field()),
                rst <= i * 0xFFFF_FFFF_FFFF_FFFFu128,
                bytes <= i * 0xFFFF_FFFF_FFFF_FFFFu128,
                packets <= i * 0xFFFF_FFFF_FFFF_FFFFu128,
                least == prefix_keys(entries@, i as int).fold(65535int, min_step(m, host_ip)),
                greatest == prefix_keys(entries@, i as int).fold(0int, max_step(m, host_ip)),
            decreases entries.len() - i,
        {
            let (key, stats) = entries[i];
            let ghost before = prefix_keys(entries@, i as int);
            proof {
                assert(entries@.subrange(0, i as int + 1).map_values(|e: (FlowKey, FlowStats)| e.0.tuple())
                    =~= entries@.subrange(0, i as int).map_values(|e: (FlowKey, FlowStats)| e.0.tuple()).push(key.tuple()));
                entries@.subrange(0, i as int).map_values(|e: (FlowKey, FlowStats)| e.0.tuple()).lemma_push_to_set_commute(key.tuple());
                assert(!before.contains(key.tuple())) by {
                    if before.contains(key.tuple()) {
                        let s = entries@.subrange(0, i as int).map_values(|e: (FlowKey, FlowStats)| e.0.tuple());
                        let a = choose|a: int| 0 <= a < s.len() && s[a] == key.tuple();
                        assert(tuple5_lt(entries[a].0.tuple(), entries[i as int].0.tuple()));
                    }
                }
                vstd::seq_lib::seq_to_set_is_finite(entries@.subrange(0, i as int).map_values(|e: (FlowKey, FlowStats)| e.0.tuple()));
                lemma_fold_insert(before, 0int, sum_step(m, host_ip, rst_field()), key.tuple());
                lemma_fold_insert(before, 0int, sum_step(m, host_ip, bytes_field()), key.tuple());
                lemma_fold_insert(before, 0int, sum_step(m, host_ip, packets_field()), key.tuple());
                lemma_fold_insert(before, 65535int, min_step(m, host_ip), key.tuple());
                lemma_fold_insert(before, 0int, max_step(m, host_ip), key.tuple());
                assert(m[key.tuple()] == stats);
            }
            if key.src_ip == host_ip {
                insert_sorted(&mut dst_ips, key.dst_ip);
                insert_sorted(&mut dst_ports, key.dst_port as u32);
                flow_count += 1;
                rst += stats.rst_packets as u128;
                bytes += stats.bytes as u128;
                packets += stats.packets as u128;
                if stats.packets > 0 {
                    let avg = #[verifier::truncate] ((stats.bytes / stats.packets) as u16);
                    if avg < least {
                        least = avg;
                    }
                    if avg > greatest {
                        greatest = avg;
                    }
                }
            }
            proof {
                let after = prefix_keys(entries@, i as int + 1);
                assert(after == before.insert(key.tuple()));
                let hb = host_flows(m.restrict(before), host_ip);
                let ha = host_flows(m.restrict(after), host_ip);
                if key.src_ip == host_ip {
                    assert(ha =~= hb.insert(key.tuple()));
                    assert(hb.subset_of(before));
                    vstd::set_lib::lemma_len_subset(hb, before);
                    assert(!hb.contains(key.tuple()));
                } else {
                    assert(ha =~= hb);
                }
                assert forall|y: u32| dst_ips@.contains(y) <==> host_dst_ips(m.restrict(after), host_ip).contains(y) by {
                    if host_dst_ips(m.restrict(after), host_ip).contains(y) {
                        let k = choose|k: FlowTuple| ha.contains(k) && k.1 == y;
                        if k != key.tuple() {
                            assert(hb.contains(k));
                            assert(host_dst_ips(m.restrict(before), host_ip).contains(y));
                        }
                    }
                    if dst_ips@.contains(y) && !(key.src_ip == host_ip && y == key.dst_ip) {
                        assert(host_dst_ips(m.restrict(before), host_ip).contains(y));
                        let k = choose|k: FlowTuple| hb.contains(k) && k.1 == y;
                        assert(ha.contains(k));
                    }
                    if key.src_ip == host_ip && y == key.dst_ip {
                        assert(ha.contains(key.tuple()));
                    }
                }
                assert forall|y: u32| dst_ports@.contains(y) <==> exists|p: u16| y == p && #[trigger] host_dst_ports(m.restrict(after), host_ip).contains(p) by {
                    if exists|p: u16| y == p && #[trigger] host_dst_ports(m.restrict(after), host_ip).contains(p) {
                        let p = choose|p: u16| y == p && #[trigger] host_dst_ports(m.restrict(after), host_ip).contains(p);
                        let k = choose|k: FlowTuple| ha.contains(k) && k.3 == p;
                        if k != key.tuple() {
                            assert(hb.contains(k));
                            assert(host_dst_ports(m.restrict(before), host_ip).contains(p));
                        }
                    }
                    if dst_ports@.contains(y) && !(key.src_ip == host_ip && y == key.dst_port) {
                        let p = choose|p: u16| y == p && #[trigger] host_dst_ports(m.restrict(before), host_ip).contains(p);
                        let k = choose|k: FlowTuple| hb.contains(k) && k.3 == p;
                        assert(ha.contains(k));
                        assert(host_dst_ports(m.restrict(after), host_ip).contains(p));
                    }
                    if key.src_ip == host_ip && y == key.dst_port {
                        assert(ha.contains(key.tuple()));
                        assert(host_dst_ports(m.restrict(after), host_ip).contains(key.dst_port));
                    }
                }
            }
            i += 1;
        }
        proof {
            assert(entries@.subrange(0, entries.len() as int) =~= entries@);
            let all = prefix_keys(entries@, entries.len() as int);
            assert(all =~= m.dom()) by {
                assert forall|k: FlowTuple| all.contains(k) <==> m.dom().contains(k) by {
                    let s = entries@.map_values(|e: (FlowKey, FlowStats)| e.0.tuple());
                    if m.dom().contains(k) {
                        assert(flow_table@.contains_key(k));
                        let a = choose|a: int| 0 <= a < entries.len() && entries[a].0.tuple() == k;
                        assert(s[a] == k);
                    }
                    if all.contains(k) {
                        let a = choose|a: int| 0 <= a < s.len() && s[a] == k;
                        assert(entries[a].0.tuple() == k);
                    }
                }
            }
            assert(m.restrict(m.dom()) =~= m);
            dst_ips@.unique_seq_to_set();
            assert(dst_ips@.to_set() =~= host_dst_ips(m, host_ip));
            dst_ports@.unique_seq_to_set();
        }
        if flow_count > 0xFFFF_FFFF || rst > 0xFFFF_FFFF_FFFF_FFFF || bytes > 0xFFFF_FFFF_FFFF_FFFF
            || packets > 0xFFFF_FFFF_FFFF_FFFF {
            return None;
        }
        let min_packet_size = if least == 65535 { 0 } else { least };
        let summary = HostFlowSummary {
            host_ip,
            unique_dst_ips: dst_ips.len() as u32,
            unique_dst_ports: dst_ports.len() as u32,
            flow_count: flow_count as u32,
            rst_count: rst as u64,
            total_bytes: bytes as u64,
            total_packets: packets as u64,
            min_packet_size,
            max_packet_size: greatest,
        };
        proof {
            assert(dst_ports@.len() == host_dst_ports(m, host_ip).len()) by {
                let ports32 = dst_ports@.to_set();
                let ports = host_dst_ports(m, host_ip);
                assert(ports32 =~= ports.map(|p: u16| p as u32)) by {
                    assert forall|y: u32| ports32.contains(y) <==> ports.map(|p: u16| p as u32).contains(y) by {
                        if ports32.contains(y) {
                            let p = choose|p: u16| y == p && #[trigger] ports.contains(p);
                            assert((|p: u16| p as u32)(p) == y);
                        }
                    }
                }
                assert(host_flows(m, host_ip).finite());
                host_flows(m, host_ip).lemma_map_finite(|k: FlowTuple| k.3);
                assert(vstd::relations::injective_on(|p: u16| p as u32, ports));
                vstd::set_lib::lemma_map_size(ports, ports32, |p: u16| p as u32);
            }
        }
        Some(summary)
    }
}

} // verus!
