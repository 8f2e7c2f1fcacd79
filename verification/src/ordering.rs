//! Facts about the order in which ordered maps hand out their entries.
use vstd::prelude::*;
use vstd::std_specs::btree::increasing_seq;
use vstd::std_specs::cmp::OrdSpec;

verus! {

/// Lexicographic order on pairs of addresses.
pub open spec fn pair_lt(a: (u32, u32), b: (u32, u32)) -> bool {
    a.0 < b.0 || (a.0 == b.0 && a.1 < b.1)
}

/// Lexicographic order on flow tuples.
pub open spec fn tuple5_lt(a: (u32, u32, u16, u16, u8), b: (u32, u32, u16, u16, u8)) -> bool {
    ||| a.0 < b.0
    ||| a.0 == b.0 && a.1 < b.1
    ||| a.0 == b.0 && a.1 == b.1 && a.2 < b.2
    ||| a.0 == b.0 && a.1 == b.1 && a.2 == b.2 && a.3 < b.3
    ||| a.0 == b.0 && a.1 == b.1 && a.2 == b.2 && a.3 == b.3 && a.4 < b.4
}

/// The entries of a map keyed by `u32` come out in strictly increasing key order.
pub proof fn lemma_u32_entries_increasing<V>(s: Seq<(&u32, &V)>)
    requires
        increasing_seq(s.map_values(|kv: (&u32, &V)| *kv.0)),
    ensures
        forall|i: int, j: int| 0 <= i < j < s.len() ==> *s[i].0 < *s[j].0,
{
    let keys = s.map_values(|kv: (&u32, &V)| *kv.0);
    assert(vstd::laws_cmp::obeys_cmp::<u32>());
    vstd::std_specs::btree::axiom_increasing_seq_meaning(keys);
    assert forall|i: int, j: int| 0 <= i < j < s.len() implies *s[i].0 < *s[j].0 by {
        assert(keys[i] == *s[i].0);
        assert(keys[j] == *s[j].0);
        assert(keys[i].cmp_spec(&keys[j]) is Less);
    }
}

/// The entries of a map keyed by address pairs come out in strictly
/// increasing lexicographic key order.
pub proof fn lemma_pair_entries_increasing<V>(s: Seq<(&(u32, u32), &V)>)
    requires
        increasing_seq(s.map_values(|kv: (&(u32, u32), &V)| *kv.0)),
    ensures
        forall|i: int, j: int| 0 <= i < j < s.len() ==> pair_lt(*s[i].0, *s[j].0),
{
    let keys = s.map_values(|kv: (&(u32, u32), &V)| *kv.0);
    assert(vstd::laws_cmp::obeys_cmp::<(u32, u32)>());
    vstd::std_specs::btree::axiom_increasing_seq_meaning(keys);
    assert forall|i: int, j: int| 0 <= i < j < s.len() implies pair_lt(*s[i].0, *s[j].0) by {
        assert(keys[i] == *s[i].0);
        assert(keys[j] == *s[j].0);
        assert(keys[i].cmp_spec(&keys[j]) is Less);
    }
}

/// The entries of a map keyed by flow tuples come out in strictly
/// increasing lexicographic key order.
pub proof fn lemma_tuple5_entries_increasing<V>(s: Seq<(&(u32, u32, u16, u16, u8), &V)>)
    requires
        increasing_seq(s.map_values(|kv: (&(u32, u32, u16, u16, u8), &V)| *kv.0)),
    ensures
        forall|i: int, j: int| 0 <= i < j < s.len() ==> tuple5_lt(*s[i].0, *s[j].0),
{
    let keys = s.map_values(|kv: (&(u32, u32, u16, u16, u8), &V)| *kv.0);
    assert(vstd::laws_cmp::obeys_cmp::<(u32, u32, u16, u16, u8)>());
    vstd::std_specs::btree::axiom_increasing_seq_meaning(keys);
    assert forall|i: int, j: int| 0 <= i < j < s.len() implies tuple5_lt(*s[i].0, *s[j].0) by {
        assert(keys[i] == *s[i].0);
        assert(keys[j] == *s[j].0);
        assert(keys[i].cmp_spec(&keys[j]) is Less);
    }
}

} // verus!
