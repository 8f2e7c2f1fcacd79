//! Bounded table of 5-tuple flows with per-flow counters and idle expiry.
use vstd::prelude::*;
use std::collections::BTreeMap;
use vstd::std_specs::btree::spec_btree_map_iter;
use vstd::std_specs::iter::IteratorSpec;
use crate::ordering::{tuple5_lt, lemma_tuple5_entries_increasing};
use crate::window::sat_sub;

verus! {

/// Default idle time after which a flow expires: 30 seconds.
pub const DEFAULT_FLOW_TIMEOUT_NS: u64 = 30_000_000_000;

/// Default number of flows a table holds.
pub const DEFAULT_MAX_FLOWS: usize = 10_000;

/// A flow key as a tuple (source, destination, source port, destination
/// port, protocol); tuples order lexicographically, as `FlowKey`s do.
pub type FlowTuple = (u32, u32, u16, u16, u8);

/// The 5-tuple that identifies a flow.
#[derive(Debug, Clone, Copy, PartialEq, Eq, Structural, PartialOrd, Ord, Hash)]
pub struct FlowKey {
    pub src_ip: u32,
    pub dst_ip: u32,
    pub src_port: u16,
    pub dst_port: u16,
    pub protocol: u8,
}

impl FlowKey {
    /// The key's fields as a tuple, in declaration order.
    pub open spec fn tuple(self) -> FlowTuple {
        (self.src_ip, self.dst_ip, self.src_port, self.dst_port, self.protocol)
    }

    pub(crate) fn to_tuple(&self) -> (t: FlowTuple)
        ensures
            t == self.tuple(),
    {
        (self.src_ip, self.dst_ip, self.src_port, self.dst_port, self.protocol)
    }

    pub(crate) fn from_tuple(t: FlowTuple) -> (k: FlowKey)
        ensures
            k.tuple() == t,
    {
        FlowKey { src_ip: t.0, dst_ip: t.1, src_port: t.2, dst_port: t.3, protocol: t.4 }
    }
}

/// Counters of one flow.
#[derive(Debug, Clone, Copy, PartialEq, Eq, Structural)]
pub struct FlowStats {
    pub packets: u64,
    pub bytes: u64,
    pub first_seen: u64,
    pub last_seen: u64,
    pub syn_packets: u64,
    pub rst_packets: u64,
    pub fin_packets: u64,
}

/// 1 when `b` holds, else 0.
pub open spec fn flag_count(b: bool) -> u64 {
    if b { 1 } else { 0 }
}

/// The counters of a flow seen for the first time.
pub open spec fn fresh_stats(pkt_bytes: u64, timestamp_ns: u64, is_syn: bool, is_rst: bool, is_fin: bool) -> FlowStats {
    FlowStats {
        packets: 1,
        bytes: pkt_bytes,
        first_seen: timestamp_ns,
        last_seen: timestamp_ns,
        syn_packets: flag_count(is_syn),
        rst_packets: flag_count(is_rst),
        fin_packets: flag_count(is_fin),
    }
}

/// The counters of a known flow after one more packet.
pub open spec fn bumped_stats(
    s: FlowStats,
    pkt_bytes: u64,
    timestamp_ns: u64,
    is_syn: bool,
    is_rst: bool,
    is_fin: bool,
) -> FlowStats {
    FlowStats {
        packets: (s.packets + 1) as u64,
        bytes: (s.bytes + pkt_bytes) as u64,
        first_seen: s.first_seen,
        last_seen: timestamp_ns,
        syn_packets: (s.syn_packets + flag_count(is_syn)) as u64,
        rst_packets: (s.rst_packets + flag_count(is_rst)) as u64,
        fin_packets: (s.fin_packets + flag_count(is_fin)) as u64,
    }
}

/// Every flow has seen a packet, and counts no more flagged packets than
/// packets.
pub open spec fn stats_consistent(s: FlowStats) -> bool {
    &&& s.packets >= 1
    &&& s.syn_packets <= s.packets
    &&& s.rst_packets <= s.packets
    &&& s.fin_packets <= s.packets
}

/// A flow idle for at least `timeout_ns` at `now_ns`.
pub open spec fn flow_expired(s: FlowStats, now_ns: u64, timeout_ns: u64) -> bool {
    sat_sub(now_ns, s.last_seen) >= timeout_ns
}

/// The flows of `m` that are not expired at `now_ns`.
pub open spec fn unexpired(m: Map<FlowTuple, FlowStats>, now_ns: u64, timeout_ns: u64) -> Map<FlowTuple, FlowStats> {
    m.restrict(m.dom().filter(|k: FlowTuple| !flow_expired(m[k], now_ns, timeout_ns)))
}

/// Whether a table with flows `m`, capacity `cap` and timeout `timeout_ns`
/// takes a packet of flow `key` at `timestamp_ns`: a known flow always is;
/// a new one when there is room, after dropping expired flows if the table
/// is full.
pub open spec fn accepts(m: Map<FlowTuple, FlowStats>, cap: nat, timeout_ns: u64, key: FlowKey, timestamp_ns: u64) -> bool {
    if m.contains_key(key.tuple()) {
        true
    } else if m.len() < cap {
        true
    } else {
        unexpired(m, timestamp_ns, timeout_ns).len() < cap
    }
}

/// The flows after recording a packet of flow `key`: a known flow's
/// counters are bumped; a new flow starts with fresh counters if there is
/// room, after dropping expired flows if the table is full; when it is
/// still full the packet is dropped but the expiry stands.
pub open spec fn recorded(
    m: Map<FlowTuple, FlowStats>,
    cap: nat,
    timeout_ns: u64,
    key: FlowKey,
    pkt_bytes: u64,
    timestamp_ns: u64,
    is_syn: bool,
    is_rst: bool,
    is_fin: bool,
) -> Map<FlowTuple, FlowStats> {
    let k = key.tuple();
    if m.contains_key(k) {
        m.insert(k, bumped_stats(m[k], pkt_bytes, timestamp_ns, is_syn, is_rst, is_fin))
    } else if m.len() < cap {
        m.insert(k, fresh_stats(pkt_bytes, timestamp_ns, is_syn, is_rst, is_fin))
    } else {
        let kept = unexpired(m, timestamp_ns, timeout_ns);
        if kept.len() < cap {
            kept.insert(k, fresh_stats(pkt_bytes, timestamp_ns, is_syn, is_rst, is_fin))
        } else {
            kept
        }
    }
}

/// A flow expires by its idle time alone: it is expired exactly when at
/// least `timeout_ns` has passed since its last packet (none has when its
/// last packet is later than `now_ns`), however long ago the flow began.
pub proof fn lemma_expiry_is_idle_time(s: FlowStats, first_seen: u64, now_ns: u64, timeout_ns: u64)
    ensures
        flow_expired(s, now_ns, timeout_ns) <==> (if now_ns >= s.last_seen {
            now_ns - s.last_seen >= timeout_ns
        } else {
            timeout_ns == 0
        }),
        flow_expired(s, now_ns, timeout_ns) == flow_expired(
            FlowStats { first_seen, ..s },
            now_ns,
            timeout_ns,
        ),
{
}

/// Expiry keeps, unchanged, every flow whose last packet came less than the
/// timeout before the expiry time, and drops every other flow.
pub proof fn lemma_expiry_keeps_active_flows(
    m: Map<FlowTuple, FlowStats>,
    k: FlowTuple,
    now_ns: u64,
    timeout_ns: u64,
)
    requires
        m.contains_key(k),
    ensures
        m[k].last_seen <= now_ns < m[k].last_seen + timeout_ns ==> unexpired(
            m,
            now_ns,
            timeout_ns,
        ).contains_key(k) && unexpired(m, now_ns, timeout_ns)[k] == m[k],
        now_ns < m[k].last_seen && timeout_ns > 0 ==> unexpired(m, now_ns, timeout_ns).contains_key(k)
            && unexpired(m, now_ns, timeout_ns)[k] == m[k],
        m[k].last_seen + timeout_ns <= now_ns ==> !unexpired(m, now_ns, timeout_ns).contains_key(k),
{
}

/// Bounded memory: recording any packet (whatever its flow, size, time and
/// flags) in a table within its capacity leaves the table within its
/// capacity.
pub proof fn lemma_recorded_within_capacity(
    m: Map<FlowTuple, FlowStats>,
    cap: nat,
    timeout_ns: u64,
    key: FlowKey,
    pkt_bytes: u64,
    timestamp_ns: u64,
    is_syn: bool,
    is_rst: bool,
    is_fin: bool,
)
    requires
        m.dom().finite(),
        m.len() <= cap,
    ensures
        recorded(m, cap, timeout_ns, key, pkt_bytes, timestamp_ns, is_syn, is_rst, is_fin).dom().finite(),
        recorded(m, cap, timeout_ns, key, pkt_bytes, timestamp_ns, is_syn, is_rst, is_fin).len() <= cap,
{
    let k = key.tuple();
    let r = recorded(m, cap, timeout_ns, key, pkt_bytes, timestamp_ns, is_syn, is_rst, is_fin);
    if m.contains_key(k) {
        assert(r.dom() =~= m.dom());
    } else if m.len() < cap {
        assert(r.dom() =~= m.dom().insert(k));
    } else {
        let kept = unexpired(m, timestamp_ns, timeout_ns);
        assert(kept.dom().subset_of(m.dom()));
        vstd::set_lib::lemma_len_subset(kept.dom(), m.dom());
        if kept.len() < cap {
            assert(r.dom() =~= kept.dom().insert(k));
        } else {
            assert(r.dom() =~= kept.dom());
        }
    }
}

/// Updating a known flow keeps its first-seen time, counts one more packet
/// and its bytes, and moves its last-seen time to the packet's.
pub proof fn lemma_update_keeps_first_seen(
    m: Map<FlowTuple, FlowStats>,
    cap: nat,
    timeout_ns: u64,
    key: FlowKey,
    pkt_bytes: u64,
    timestamp_ns: u64,
    is_syn: bool,
    is_rst: bool,
    is_fin: bool,
)
    requires
        m.contains_key(key.tuple()),
        m[key.tuple()].packets < u64::MAX,
        m[key.tuple()].bytes + pkt_bytes <= u64::MAX,
    ensures
        ({
            let r = recorded(m, cap, timeout_ns, key, pkt_bytes, timestamp_ns, is_syn, is_rst, is_fin);
            &&& r.contains_key(key.tuple())
            &&& r[key.tuple()].first_seen == m[key.tuple()].first_seen
            &&& r[key.tuple()].last_seen == timestamp_ns
            &&& r[key.tuple()].packets == m[key.tuple()].packets + 1
            &&& r[key.tuple()].bytes == m[key.tuple()].bytes + pkt_bytes
            &&& r.dom() == m.dom()
        }),
{
    let r = recorded(m, cap, timeout_ns, key, pkt_bytes, timestamp_ns, is_syn, is_rst, is_fin);
    assert(r.dom() =~= m.dom());
}

/// An accepted packet leaves its flow in the table; a refused one leaves
/// the table full of live flows and without the flow.
pub proof fn lemma_accepted_flow_is_tracked(
    m: Map<FlowTuple, FlowStats>,
    cap: nat,
    timeout_ns: u64,
    key: FlowKey,
    pkt_bytes: u64,
    timestamp_ns: u64,
    is_syn: bool,
    is_rst: bool,
    is_fin: bool,
)
    ensures
        accepts(m, cap, timeout_ns, key, timestamp_ns) ==> recorded(
            m,
            cap,
            timeout_ns,
            key,
            pkt_bytes,
            timestamp_ns,
            is_syn,
            is_rst,
            is_fin,
        ).contains_key(key.tuple()),
        !accepts(m, cap, timeout_ns, key, timestamp_ns) ==> {
            let r = recorded(m, cap, timeout_ns, key, pkt_bytes, timestamp_ns, is_syn, is_rst, is_fin);
            &&& !r.contains_key(key.tuple())
            &&& r == unexpired(m, timestamp_ns, timeout_ns)
            &&& r.len() >= cap
        },
{
}

/// After expiry no flow left is idle for the timeout, every live flow is
/// kept unchanged, and expiring again at the same time drops nothing.
pub proof fn lemma_expiry_complete(m: Map<FlowTuple, FlowStats>, now_ns: u64, timeout_ns: u64)
    ensures
        forall|k: FlowTuple| #[trigger]
            unexpired(m, now_ns, timeout_ns).contains_key(k) ==> !flow_expired(
                unexpired(m, now_ns, timeout_ns)[k],
                now_ns,
                timeout_ns,
            ),
        forall|k: FlowTuple|
            m.contains_key(k) && !flow_expired(m[k], now_ns, timeout_ns) ==> #[trigger] unexpired(
                m,
                now_ns,
                timeout_ns,
            ).contains_key(k) && unexpired(m, now_ns, timeout_ns)[k] == m[k],
        unexpired(unexpired(m, now_ns, timeout_ns), now_ns, timeout_ns) == unexpired(m, now_ns, timeout_ns),
{
    let u = unexpired(m, now_ns, timeout_ns);
    assert(unexpired(u, now_ns, timeout_ns) =~= u);
}

/// A table of flows holding at most `max_flows` entries, each dropped once
/// idle for `timeout_ns`.
pub struct FlowTable {
    flows: BTreeMap<FlowTuple, FlowStats>,
    max_flows: usize,
    timeout_ns: u64,
}

impl View for FlowTable {
    type V = Map<FlowTuple, FlowStats>;

    closed spec fn view(&self) -> Map<FlowTuple, FlowStats> {
        self.flows@
    }
}

impl FlowTable {
    /// The most flows the table holds.
    pub closed spec fn capacity(&self) -> nat {
        self.max_flows as nat
    }

    /// The idle time after which a flow expires.
    pub closed spec fn timeout(&self) -> u64 {
        self.timeout_ns
    }

    /// The table stays within its capacity and every flow's counters are
    /// consistent.
    pub open spec fn wf(&self) -> bool {
        &&& self@.dom().finite()
        &&& self@.len() <= self.capacity()
        &&& forall|k: FlowTuple| #[trigger] self@.contains_key(k) ==> stats_consistent(self@[k])
    }

    /// An empty table.
    pub fn new(max_flows: usize, timeout_ns: u64) -> (t: Self)
        ensures
            t.wf(),
            t@ == Map::<FlowTuple, FlowStats>::empty(),
            t.capacity() == max_flows,
            t.timeout() == timeout_ns,
    {
        FlowTable { flows: BTreeMap::new(), max_flows, timeout_ns }
    }

    /// An empty table with the default capacity and timeout.
    pub fn default_config() -> (t: Self)
        ensures
            t.wf(),
            t@ == Map::<FlowTuple, FlowStats>::empty(),
            t.capacity() == DEFAULT_MAX_FLOWS,
            t.timeout() == DEFAULT_FLOW_TIMEOUT_NS,
    {
        Self::new(DEFAULT_MAX_FLOWS, DEFAULT_FLOW_TIMEOUT_NS)
    }

    /// All flows with their counters, in increasing key order.
    pub fn iter(&self) -> (r: Vec<(FlowKey, FlowStats)>)
        ensures
            r.len() == self@.len(),
            forall|i: int| #![trigger r[i]]
                0 <= i < r.len() ==> self@.contains_key(r[i].0.tuple()) && self@[r[i].0.tuple()] == r[i].1,
            forall|i: int, j: int| 0 <= i < j < r.len() ==> tuple5_lt(r[i].0.tuple(), r[j].0.tuple()),
            forall|k: FlowTuple| #[trigger]
                self@.contains_key(k) ==> exists|i: int| 0 <= i < r.len() && r[i].0.tuple() == k,
    {
        let entries = self.flows.iter();
        let ghost s0 = spec_btree_map_iter(&self.flows).remaining();
        proof {
            lemma_tuple5_entries_increasing(s0);
        }
        let mut r: Vec<(FlowKey, FlowStats)> = Vec::new();
        for kv in it: entries
            invariant
                it.seq() == s0,
                r.len() == it.index(),
                forall|i: int| 0 <= i < r.len() ==> r[i].0.tuple() == *s0[i].0 && r[i].1 == *s0[i].1,
        {
            let key = FlowKey::from_tuple(*kv.0);
            r.push((key, *kv.1));
        }
        proof {
            assert forall|i: int| #![trigger r[i]]
                0 <= i < r.len() implies self@.contains_key(r[i].0.tuple()) && self@[r[i].0.tuple()] == r[i].1 by {
                assert(self.flows@.contains_key(*s0[i].0));
            }
            assert forall|k: FlowTuple| #[trigger]
                self@.contains_key(k) implies exists|i: int| 0 <= i < r.len() && r[i].0.tuple() == k by {
                assert(s0.contains((&k, &self.flows@[k])));
                let i = choose|i: int| 0 <= i < s0.len() && s0[i] == (&k, &self.flows@[k]);
                assert(r[i].0.tuple() == k);
            }
            assert forall|i: int, j: int|
                0 <= i < j < r.len() implies tuple5_lt(r[i].0.tuple(), r[j].0.tuple()) by {
                assert(r[i].0.tuple() == *s0[i].0);
                assert(r[j].0.tuple() == *s0[j].0);
            }
        }
        r
    }

    /// Drops every flow idle for at least the timeout at `current_time_ns`
    /// and returns how many were dropped.
    pub fn expire(&mut self, current_time_ns: u64) -> (count: usize)
        requires
            old(self).wf(),
        ensures
            final(self).wf(),
            final(self).capacity() == old(self).capacity(),
            final(self).timeout() == old(self).timeout(),
            final(self)@ == unexpired(old(self)@, current_time_ns, old(self).timeout()),
            count == old(self)@.len() - final(self)@.len(),
    {
        let timeout = self.timeout_ns;
        let all = self.iter();
        let ghost old_flows = self.flows@;
        let mut to_remove: Vec<FlowTuple> = Vec::new();
        let mut i: usize = 0;
        while i < all.len()
            invariant
                0 <= i <= all.len(),
                self.flows@ == old_flows,
                timeout == self.timeout_ns,
                all.len() == old_flows.len(),
                forall|a: int| #![trigger all[a]]
                    0 <= a < all.len() ==> old_flows.contains_key(all[a].0.tuple())
                        && old_flows[all[a].0.tuple()] == all[a].1,
                forall|a: int, b: int|
                    0 <= a < b < all.len() ==> tuple5_lt(all[a].0.tuple(), all[b].0.tuple()),
                forall|k: FlowTuple| #[trigger]
                    old_flows.contains_key(k) ==> exists|a: int|
                        0 <= a < all.len() && all[a].0.tuple() == k,
                to_remove@.no_duplicates(),
                forall|k: FlowTuple|
                    to_remove@.contains(k) <==> (exists|a: int|
                        0 <= a < i && (#[trigger] all[a]).0.tuple() == k && flow_expired(
                            all[a].1,
                            current_time_ns,
                            timeout,
                        )),
            decreases all.len() - i,
        {
            let (key, stats) = all[i];
            let ghost prev = to_remove@;
            if current_time_ns.saturating_sub(stats.last_seen) >= timeout {
                proof {
                    if prev.contains(key.tuple()) {
                        let a = choose|a: int|
                            0 <= a < i && (#[trigger] all[a]).0.tuple() == key.tuple() && flow_expired(
                                all[a].1,
                                current_time_ns,
                                timeout,
                            );
                        assert(tuple5_lt(all[a].0.tuple(), all[i as int].0.tuple()));
                    }
                }
                to_remove.push(key.to_tuple());
            }
            proof {
                assert forall|k: FlowTuple|
                    to_remove@.contains(k) <==> (exists|a: int|
                        0 <= a < i + 1 && (#[trigger] all[a]).0.tuple() == k && flow_expired(
                            all[a].1,
                            current_time_ns,
                            timeout,
                        )) by {
                    if to_remove@.contains(k) {
                        let b = choose|b: int| 0 <= b < to_remove@.len() && to_remove@[b] == k;
                        if b < prev.len() {
                            assert(prev[b] == k);
                            assert(prev.contains(k));
                        } else {
                            assert(all[i as int].0.tuple() == k);
                        }
                    }
                    if exists|a: int|
                        0 <= a < i + 1 && (#[trigger] all[a]).0.tuple() == k && flow_expired(
                            all[a].1,
                            current_time_ns,
                            timeout,
                        ) {
                        let a = choose|a: int|
                            0 <= a < i + 1 && (#[trigger] all[a]).0.tuple() == k && flow_expired(
                                all[a].1,
                                current_time_ns,
                                timeout,
                            );
                        if a < i {
                            assert(prev.contains(k));
                            let b = choose|b: int| 0 <= b < prev.len() && prev[b] == k;
                            assert(to_remove@[b] == k);
                        } else {
                            assert(to_remove@[to_remove@.len() - 1] == k);
                        }
                    }
                }
            }
            i += 1;
        }
        let ghost expired_set = old_flows.dom().filter(
            |k: FlowTuple| flow_expired(old_flows[k], current_time_ns, timeout),
        );
        proof {
            assert forall|k: FlowTuple| to_remove@.contains(k) <==> expired_set.contains(k) by {
                if expired_set.contains(k) {
                    let a = choose|a: int| 0 <= a < all.len() && all[a].0.tuple() == k;
                    assert(all[a].0.tuple() == k);
                }
            }
        }
        let count = to_remove.len();
        let mut j: usize = 0;
        while j < to_remove.len()
            invariant
                0 <= j <= to_remove.len(),
                count == to_remove.len(),
                to_remove@.no_duplicates(),
                forall|k: FlowTuple| to_remove@.contains(k) <==> expired_set.contains(k),
                expired_set.subset_of(old_flows.dom()),
                old_flows.dom().finite(),
                old_flows == old(self).flows@,
                self.max_flows == old(self).max_flows,
                self.timeout_ns == old(self).timeout_ns,
                self.flows@ == old_flows.remove_keys(to_remove@.subrange(0, j as int).to_set()),
                self.flows@.len() == old_flows.len() - j,
            decreases to_remove.len() - j,
        {
            let k = to_remove[j];
            let ghost before = self.flows@;
            proof {
                assert(!to_remove@.subrange(0, j as int).contains(k));
                assert(before.contains_key(k));
            }
            self.flows.remove(&k);
            proof {
                assert(to_remove@.subrange(0, j as int + 1) =~= to_remove@.subrange(
                    0,
                    j as int,
                ).push(k));
                to_remove@.subrange(0, j as int).lemma_push_to_set_commute(k);
                assert(self.flows@ =~= old_flows.remove_keys(
                    to_remove@.subrange(0, j as int + 1).to_set(),
                ));
            }
            j += 1;
        }
        proof {
            assert(to_remove@.subrange(0, to_remove.len() as int) =~= to_remove@);
            assert(self.flows@ =~= unexpired(old_flows, current_time_ns, timeout));
        }
        count
    }

    /// Records one packet of flow `key`: updates a known flow; otherwise
    /// adds the flow if there is room, expiring idle flows first when the
    /// table is full. Returns false when the table is still full and the
    /// packet is dropped.
    pub fn insert_or_update(
        &mut self,
        key: FlowKey,
        pkt_bytes: u64,
        timestamp_ns: u64,
        is_syn: bool,
        is_rst: bool,
        is_fin: bool,
    ) -> (inserted: bool)
        requires
            old(self).wf(),
            old(self)@.contains_key(key.tuple()) ==> {
                &&& old(self)@[key.tuple()].packets < u64::MAX
                &&& old(self)@[key.tuple()].bytes + pkt_bytes <= u64::MAX
            },
        ensures
            final(self).wf(),
            final(self).capacity() == old(self).capacity(),
            final(self).timeout() == old(self).timeout(),
            inserted == accepts(old(self)@, old(self).capacity(), old(self).timeout(), key, timestamp_ns),
            final(self)@ == recorded(
                old(self)@,
                old(self).capacity(),
                old(self).timeout(),
                key,
                pkt_bytes,
                timestamp_ns,
                is_syn,
                is_rst,
                is_fin,
            ),
    {
        let t = key.to_tuple();
        if let Some(existing) = self.flows.get(&t) {
            let mut stats = *existing;
            stats.packets += 1;
            stats.bytes += pkt_bytes;
            stats.last_seen = timestamp_ns;
            if is_syn {
                stats.syn_packets += 1;
            }
            if is_rst {
                stats.rst_packets += 1;
            }
            if is_fin {
                stats.fin_packets += 1;
            }
            self.flows.insert(t, stats);
            proof {
                assert(self.flows@.len() == old(self).flows@.len()) by {
                    assert(self.flows@.dom() =~= old(self).flows@.dom());
                }
            }
            true
        } else {
            if self.flows.len() >= self.max_flows {
                self.expire(timestamp_ns);
                if self.flows.len() >= self.max_flows {
                    return false;
                }
            }
            let new_stats = FlowStats {
                packets: 1,
                bytes: pkt_bytes,
                first_seen: timestamp_ns,
                last_seen: timestamp_ns,
                syn_packets: if is_syn { 1 } else { 0 },
                rst_packets: if is_rst { 1 } else { 0 },
                fin_packets: if is_fin { 1 } else { 0 },
            };
            self.flows.insert(t, new_stats);
            true
        }
    }

    /// The counters of flow `key`, if tracked.
    pub fn get(&self, key: &FlowKey) -> (r: Option<&FlowStats>)
        ensures
            match r {
                Some(s) => self@.contains_key(key.tuple()) && *s == self@[key.tuple()],
                None => !self@.contains_key(key.tuple()),
            },
    {
        let t = key.to_tuple();
        self.flows.get(&t)
    }

    /// Stops tracking flow `key`, returning its counters if it was tracked.
    pub fn remove(&mut self, key: &FlowKey) -> (r: Option<FlowStats>)
        requires
            old(self).wf(),
        ensures
            final(self).wf(),
            final(self).capacity() == old(self).capacity(),
            final(self).timeout() == old(self).timeout(),
            final(self)@ == old(self)@.remove(key.tuple()),
            match r {
                Some(s) => old(self)@.contains_key(key.tuple()) && s == old(self)@[key.tuple()],
                None => !old(self)@.contains_key(key.tuple()),
            },
    {
        let t = key.to_tuple();
        self.flows.remove(&t)
    }

    /// The number of tracked flows.
    pub fn len(&self) -> (n: usize)
        ensures
            n == self@.len(),
    {
        self.flows.len()
    }

    /// Whether no flow is tracked.
    pub fn is_empty(&self) -> (b: bool)
        ensures
            b == (self@.len() == 0),
    {
        proof {
            if self.flows@.len() == 0 {
                assert(self.flows@.dom().finite());
                assert(self.flows@.dom() =~= Set::<FlowTuple>::empty());
            }
        }
        self.flows.is_empty()
    }
}

} // verus!
