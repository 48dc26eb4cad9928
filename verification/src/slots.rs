//! The open-addressed slot array that backs one shard.
//!
//! A slot is empty, a tombstone, or a full entry. An entry for key `k` lives
//! on the linear probe path that starts at `hash(k) % capacity`; every slot
//! between the start of the path and the entry is non-empty (full or
//! tombstone), which is what makes a probe that reaches an empty slot a
//! definitive miss. Erasure leaves a tombstone so that the paths of the
//! remaining entries stay intact.
//!
//! This module holds the mathematical model of a slot array: the probe
//! geometry, the counting functions, the well-formedness predicates and the
//! map view, together with the lemmas that relate a single-slot update to
//! that view. The executable code over the model lives in `shard`.

use crate::hashing::spec_mix64;
use vstd::arithmetic::div_mod::{
    lemma_add_mod_noop_right, lemma_mod_division_less_than_divisor, lemma_small_mod,
    lemma_sub_mod_noop,
};
use vstd::prelude::*;

verus! {

/// One slot of a shard's open-addressed array.
#[derive(Clone, Copy)]
pub enum Slot {
    /// Never held an entry since the last rehash; ends every probe path.
    Empty,
    /// Held an entry that was erased; keeps probe paths intact.
    Tomb,
    /// Holds the entry `(key, value)`.
    Full { key: u64, value: u64 },
}

/// The slot holds an entry for key `k`.
pub open spec fn full_with(s: Slot, k: u64) -> bool {
    s matches Slot::Full { key, .. } && key == k
}

// ---------------------------------------------------------------------------
// Probe geometry
// ---------------------------------------------------------------------------

/// Where the probe path of key `k` starts in an array of `cap` slots: the
/// low bits of the key's hash (the high bits picked the shard).
pub open spec fn slot_start(k: u64, cap: int) -> int {
    (spec_mix64(k) as int) % cap
}

/// The `d`-th slot on the probe path of key `k`.
pub open spec fn probe_at(k: u64, cap: int, d: int) -> int {
    (slot_start(k, cap) + d) % cap
}

/// How far along the probe path of key `k` the slot `j` lies.
pub open spec fn probe_dist(k: u64, cap: int, j: int) -> int {
    (j - slot_start(k, cap)) % cap
}

/// Every slot is on the probe path of `k`, at distance `probe_dist`.
pub proof fn lemma_probe_roundtrip(k: u64, cap: int, j: int)
    requires
        cap > 0,
        0 <= j < cap,
    ensures
        0 <= probe_dist(k, cap, j) < cap,
        probe_at(k, cap, probe_dist(k, cap, j)) == j,
{
    let s = slot_start(k, cap);
    lemma_mod_division_less_than_divisor(spec_mix64(k) as int, cap);
    lemma_mod_division_less_than_divisor(j - s, cap);
    lemma_add_mod_noop_right(s, j - s, cap);
    lemma_small_mod(j as nat, cap as nat);
}

/// Walking `d` slots along the probe path of `k` lands at distance `d`.
pub proof fn lemma_probe_dist_of_probe_at(k: u64, cap: int, d: int)
    requires
        cap > 0,
        0 <= d < cap,
    ensures
        0 <= probe_at(k, cap, d) < cap,
        probe_dist(k, cap, probe_at(k, cap, d)) == d,
{
    let s = slot_start(k, cap);
    lemma_mod_division_less_than_divisor(spec_mix64(k) as int, cap);
    lemma_mod_division_less_than_divisor(s + d, cap);
    lemma_sub_mod_noop(s + d, s, cap);
    lemma_small_mod(s as nat, cap as nat);
    lemma_small_mod(d as nat, cap as nat);
}

// ---------------------------------------------------------------------------
// Counting
// ---------------------------------------------------------------------------

/// 1 for a full slot, else 0.
pub open spec fn full_weight(s: Slot) -> int {
    if s is Full {
        1
    } else {
        0
    }
}

/// 1 for a non-empty (full or tombstone) slot, else 0.
pub open spec fn used_weight(s: Slot) -> int {
    if s is Empty {
        0
    } else {
        1
    }
}

/// 1 for a slot holding an entry for key `k`, else 0.
pub open spec fn key_weight(s: Slot, k: u64) -> int {
    if full_with(s, k) {
        1
    } else {
        0
    }
}

/// How many slots hold an entry.
pub open spec fn count_full(s: Seq<Slot>) -> int
    decreases s.len(),
{
    if s.len() == 0 {
        0
    } else {
        count_full(s.drop_last()) + full_weight(s.last())
    }
}

/// How many slots are non-empty (entries plus tombstones).
pub open spec fn count_used(s: Seq<Slot>) -> int
    decreases s.len(),
{
    if s.len() == 0 {
        0
    } else {
        count_used(s.drop_last()) + used_weight(s.last())
    }
}

/// How many slots hold an entry for key `k`.
pub open spec fn count_key(s: Seq<Slot>, k: u64) -> int
    decreases s.len(),
{
    if s.len() == 0 {
        0
    } else {
        count_key(s.drop_last(), k) + key_weight(s.last(), k)
    }
}

pub proof fn lemma_count_bounds(s: Seq<Slot>)
    ensures
        0 <= count_full(s) <= count_used(s) <= s.len(),
    decreases s.len(),
{
    if s.len() > 0 {
        lemma_count_bounds(s.drop_last());
    }
}

/// Replacing one slot shifts each count by the difference of the weights.
pub proof fn lemma_count_update(s: Seq<Slot>, i: int, t: Slot)
    requires
        0 <= i < s.len(),
    ensures
        count_full(s.update(i, t)) == count_full(s) - full_weight(s[i]) + full_weight(t),
        count_used(s.update(i, t)) == count_used(s) - used_weight(s[i]) + used_weight(t),
    decreases s.len(),
{
    let su = s.update(i, t);
    if i == s.len() - 1 {
        assert(su.drop_last() =~= s.drop_last());
    } else {
        assert(su.drop_last() =~= s.drop_last().update(i, t));
        lemma_count_update(s.drop_last(), i, t);
    }
}

/// An array whose used count sits strictly below its length has an empty slot.
pub proof fn lemma_spare_gives_empty(s: Seq<Slot>)
    requires
        count_used(s) < s.len(),
    ensures
        exists|j: int| 0 <= j < s.len() && s[j] is Empty,
    decreases s.len(),
{
    if s.last() is Empty {
        assert(0 <= s.len() - 1 < s.len() && s[s.len() - 1] is Empty);
    } else {
        lemma_count_bounds(s.drop_last());
        lemma_spare_gives_empty(s.drop_last());
        let j = choose|j: int| 0 <= j < s.len() - 1 && s.drop_last()[j] is Empty;
        assert(0 <= j < s.len() && s[j] is Empty);
    }
}

// ---------------------------------------------------------------------------
// Well-formedness
// ---------------------------------------------------------------------------

/// No two slots hold an entry for the same key.
pub open spec fn keys_unique(s: Seq<Slot>) -> bool {
    forall|i: int, j: int|
        0 <= i < s.len() && 0 <= j < s.len() && i != j && #[trigger] s[i] is Full
            && #[trigger] s[j] is Full ==> s[i]->key != s[j]->key
}

/// The probe path of key `k` has no empty slot strictly before distance `d`.
pub open spec fn path_clear_to(s: Seq<Slot>, k: u64, d: int) -> bool {
    forall|dd: int| 0 <= dd < d ==> !(s[#[trigger] probe_at(k, s.len() as int, dd)] is Empty)
}

/// Every entry is reachable by probing: the path from its key's start slot
/// up to the entry itself crosses no empty slot.
pub open spec fn probes_ok(s: Seq<Slot>) -> bool {
    forall|j: int|
        0 <= j < s.len() && #[trigger] s[j] is Full ==> path_clear_to(
            s,
            s[j]->key,
            probe_dist(s[j]->key, s.len() as int, j),
        )
}

// ---------------------------------------------------------------------------
// The map view
// ---------------------------------------------------------------------------

/// Some slot holds an entry for key `k`.
pub open spec fn slots_contain(s: Seq<Slot>, k: u64) -> bool {
    exists|j: int| 0 <= j < s.len() && full_with(#[trigger] s[j], k)
}

/// The slot holding the entry for key `k` (meaningful when one exists).
pub open spec fn index_of_key(s: Seq<Slot>, k: u64) -> int {
    choose|j: int| 0 <= j < s.len() && full_with(#[trigger] s[j], k)
}

/// The value stored for key `k` (meaningful when an entry exists).
pub open spec fn value_of_key(s: Seq<Slot>, k: u64) -> u64 {
    s[index_of_key(s, k)]->value
}

/// The array as a mathematical map from keys to values.
pub open spec fn slots_view(s: Seq<Slot>) -> Map<u64, u64> {
    Map::new(|k: u64| slots_contain(s, k), |k: u64| value_of_key(s, k))
}

/// With unique keys, the slot of an entry is the one the view reads.
pub proof fn lemma_view_lookup(s: Seq<Slot>, k: u64, i: int)
    requires
        keys_unique(s),
        0 <= i < s.len(),
        full_with(s[i], k),
    ensures
        slots_contain(s, k),
        index_of_key(s, k) == i,
        slots_view(s).contains_key(k),
        slots_view(s)[k] == s[i]->value,
{
    assert(slots_contain(s, k));
    let j = index_of_key(s, k);
    assert(0 <= j < s.len() && full_with(s[j], k));
    assert(j == i);
}

/// A miss at an empty slot, with no hit earlier on the path, means the key
/// is absent from the whole array.
pub proof fn lemma_scan_miss(s: Seq<Slot>, k: u64, d: int)
    requires
        s.len() > 0,
        keys_unique(s),
        probes_ok(s),
        0 <= d < s.len(),
        s[probe_at(k, s.len() as int, d)] is Empty,
        forall|dd: int| 0 <= dd < d ==> !full_with(s[#[trigger] probe_at(k, s.len() as int, dd)], k),
    ensures
        !slots_contain(s, k),
{
    let cap = s.len() as int;
    if slots_contain(s, k) {
        let j = choose|j: int| 0 <= j < s.len() && full_with(#[trigger] s[j], k);
        lemma_probe_roundtrip(k, cap, j);
        let dj = probe_dist(k, cap, j);
        assert(s[j] is Full && s[j]->key == k);
        assert(path_clear_to(s, k, dj));
        if dj < d {
            assert(!full_with(s[probe_at(k, cap, dj)], k));
            assert(false);
        } else if dj == d {
            assert(s[probe_at(k, cap, d)] is Empty);
            assert(false);
        } else {
            assert(!(s[probe_at(k, cap, d)] is Empty));
            assert(false);
        }
    }
}

// ---------------------------------------------------------------------------
// Single-slot updates
// ---------------------------------------------------------------------------

/// Overwriting the value of an existing entry in place: the view gains the
/// new value and the array stays well formed.
pub proof fn lemma_set_overwrite(s: Seq<Slot>, i: int, k: u64, v: u64)
    requires
        keys_unique(s),
        probes_ok(s),
        0 <= i < s.len(),
        full_with(s[i], k),
    ensures
        keys_unique(s.update(i, Slot::Full { key: k, value: v })),
        probes_ok(s.update(i, Slot::Full { key: k, value: v })),
        slots_view(s.update(i, Slot::Full { key: k, value: v })) == slots_view(s).insert(k, v),
{
    let t = Slot::Full { key: k, value: v };
    let su = s.update(i, t);
    assert(keys_unique(su)) by {
        assert forall|x: int, y: int|
            0 <= x < su.len() && 0 <= y < su.len() && x != y && #[trigger] su[x] is Full
                && #[trigger] su[y] is Full implies su[x]->key != su[y]->key by {
            assert(s[x] is Full && s[y] is Full);
            assert(su[x]->key == s[x]->key && su[y]->key == s[y]->key);
        }
    }
    assert(probes_ok(su)) by {
        assert forall|j: int| 0 <= j < su.len() && #[trigger] su[j] is Full implies path_clear_to(
            su,
            su[j]->key,
            probe_dist(su[j]->key, su.len() as int, j),
        ) by {
            let kj = su[j]->key;
            assert(s[j] is Full && s[j]->key == kj);
            assert(path_clear_to(s, kj, probe_dist(kj, s.len() as int, j)));
            assert forall|dd: int|
                0 <= dd < probe_dist(kj, su.len() as int, j) implies !(su[#[trigger] probe_at(
                kj,
                su.len() as int,
                dd,
            )] is Empty) by {
                assert(!(s[probe_at(kj, s.len() as int, dd)] is Empty));
            }
        }
    }
    assert(slots_view(su) =~= slots_view(s).insert(k, v)) by {
        lemma_view_lookup(su, k, i);
        assert forall|k2: u64| k2 != k implies slots_contain(su, k2) == slots_contain(s, k2) by {
            if slots_contain(su, k2) {
                let j = choose|j: int| 0 <= j < su.len() && full_with(#[trigger] su[j], k2);
                assert(full_with(s[j], k2));
            }
            if slots_contain(s, k2) {
                let j = choose|j: int| 0 <= j < s.len() && full_with(#[trigger] s[j], k2);
                assert(j != i);
                assert(full_with(su[j], k2));
            }
        }
        assert forall|k2: u64| k2 != k && slots_contain(s, k2) implies value_of_key(su, k2)
            == value_of_key(s, k2) by {
            let j = choose|j: int| 0 <= j < s.len() && full_with(#[trigger] s[j], k2);
            assert(j != i);
            lemma_view_lookup(s, k2, j);
            lemma_view_lookup(su, k2, j);
        }
    }
}

/// Writing a fresh entry into a non-full slot whose probe path is clear: the
/// view gains the entry and the array stays well formed.
pub proof fn lemma_set_fresh(s: Seq<Slot>, e: int, k: u64, v: u64)
    requires
        keys_unique(s),
        probes_ok(s),
        0 <= e < s.len(),
        !(s[e] is Full),
        !slots_contain(s, k),
        path_clear_to(s, k, probe_dist(k, s.len() as int, e)),
    ensures
        keys_unique(s.update(e, Slot::Full { key: k, value: v })),
        probes_ok(s.update(e, Slot::Full { key: k, value: v })),
        slots_view(s.update(e, Slot::Full { key: k, value: v })) == slots_view(s).insert(k, v),
{
    let t = Slot::Full { key: k, value: v };
    let su = s.update(e, t);
    assert(keys_unique(su)) by {
        assert forall|x: int, y: int|
            0 <= x < su.len() && 0 <= y < su.len() && x != y && #[trigger] su[x] is Full
                && #[trigger] su[y] is Full implies su[x]->key != su[y]->key by {
            if x != e && y != e {
                assert(s[x] is Full && s[y] is Full);
            } else if x == e {
                assert(s[y] is Full);
                if su[y]->key == k {
                    assert(full_with(s[y], k));
                }
            } else {
                assert(s[x] is Full);
                if su[x]->key == k {
                    assert(full_with(s[x], k));
                }
            }
        }
    }
    assert(probes_ok(su)) by {
        assert forall|j: int| 0 <= j < su.len() && #[trigger] su[j] is Full implies path_clear_to(
            su,
            su[j]->key,
            probe_dist(su[j]->key, su.len() as int, j),
        ) by {
            let kj = su[j]->key;
            if j == e {
                assert(kj == k);
                assert forall|dd: int|
                    0 <= dd < probe_dist(kj, su.len() as int, j) implies !(su[#[trigger] probe_at(
                    kj,
                    su.len() as int,
                    dd,
                )] is Empty) by {
                    assert(!(s[probe_at(k, s.len() as int, dd)] is Empty));
                }
            } else {
                assert(s[j] is Full && s[j]->key == kj);
                assert(path_clear_to(s, kj, probe_dist(kj, s.len() as int, j)));
                assert forall|dd: int|
                    0 <= dd < probe_dist(kj, su.len() as int, j) implies !(su[#[trigger] probe_at(
                    kj,
                    su.len() as int,
                    dd,
                )] is Empty) by {
                    assert(!(s[probe_at(kj, s.len() as int, dd)] is Empty));
                }
            }
        }
    }
    assert(slots_view(su) =~= slots_view(s).insert(k, v)) by {
        lemma_view_lookup(su, k, e);
        assert forall|k2: u64| k2 != k implies slots_contain(su, k2) == slots_contain(s, k2) by {
            if slots_contain(su, k2) {
                let j = choose|j: int| 0 <= j < su.len() && full_with(#[trigger] su[j], k2);
                assert(j != e);
                assert(full_with(s[j], k2));
            }
            if slots_contain(s, k2) {
                let j = choose|j: int| 0 <= j < s.len() && full_with(#[trigger] s[j], k2);
                assert(j != e);
                assert(full_with(su[j], k2));
            }
        }
        assert forall|k2: u64| k2 != k && slots_contain(s, k2) implies value_of_key(su, k2)
            == value_of_key(s, k2) by {
            let j = choose|j: int| 0 <= j < s.len() && full_with(#[trigger] s[j], k2);
            assert(j != e);
            lemma_view_lookup(s, k2, j);
            lemma_view_lookup(su, k2, j);
        }
    }
}

/// Replacing an entry by a tombstone: the view loses the key and the array
/// stays well formed.
pub proof fn lemma_set_tomb(s: Seq<Slot>, i: int, k: u64)
    requires
        keys_unique(s),
        probes_ok(s),
        0 <= i < s.len(),
        full_with(s[i], k),
    ensures
        keys_unique(s.update(i, Slot::Tomb)),
        probes_ok(s.update(i, Slot::Tomb)),
        slots_view(s.update(i, Slot::Tomb)) == slots_view(s).remove(k),
{
    let su = s.update(i, Slot::Tomb);
    assert(keys_unique(su)) by {
        assert forall|x: int, y: int|
            0 <= x < su.len() && 0 <= y < su.len() && x != y && #[trigger] su[x] is Full
                && #[trigger] su[y] is Full implies su[x]->key != su[y]->key by {
            assert(s[x] is Full && s[y] is Full);
        }
    }
    assert(probes_ok(su)) by {
        assert forall|j: int| 0 <= j < su.len() && #[trigger] su[j] is Full implies path_clear_to(
            su,
            su[j]->key,
            probe_dist(su[j]->key, su.len() as int, j),
        ) by {
            let kj = su[j]->key;
            assert(j != i);
            assert(s[j] is Full && s[j]->key == kj);
            assert(path_clear_to(s, kj, probe_dist(kj, s.len() as int, j)));
            assert forall|dd: int|
                0 <= dd < probe_dist(kj, su.len() as int, j) implies !(su[#[trigger] probe_at(
                kj,
                su.len() as int,
                dd,
            )] is Empty) by {
                assert(!(s[probe_at(kj, s.len() as int, dd)] is Empty));
            }
        }
    }
    assert(slots_view(su) =~= slots_view(s).remove(k)) by {
        assert(!slots_contain(su, k)) by {
            if slots_contain(su, k) {
                let j = choose|j: int| 0 <= j < su.len() && full_with(#[trigger] su[j], k);
                assert(j != i);
                assert(full_with(s[j], k));
                assert(s[i] is Full && s[j] is Full);
                assert(false);
            }
        }
        assert forall|k2: u64| k2 != k implies slots_contain(su, k2) == slots_contain(s, k2) by {
            if slots_contain(su, k2) {
                let j = choose|j: int| 0 <= j < su.len() && full_with(#[trigger] su[j], k2);
                assert(full_with(s[j], k2));
            }
            if slots_contain(s, k2) {
                let j = choose|j: int| 0 <= j < s.len() && full_with(#[trigger] s[j], k2);
                assert(j != i);
                assert(full_with(su[j], k2));
            }
        }
        assert forall|k2: u64| k2 != k && slots_contain(s, k2) implies value_of_key(su, k2)
            == value_of_key(s, k2) by {
            let j = choose|j: int| 0 <= j < s.len() && full_with(#[trigger] s[j], k2);
            assert(j != i);
            lemma_view_lookup(s, k2, j);
            lemma_view_lookup(su, k2, j);
        }
    }
}

// ---------------------------------------------------------------------------
// Fresh arrays and prefixes
// ---------------------------------------------------------------------------

/// An array of empty slots is well formed, holds nothing and counts nothing.
pub proof fn lemma_all_empty(s: Seq<Slot>)
    requires
        forall|j: int| 0 <= j < s.len() ==> (#[trigger] s[j]) is Empty,
    ensures
        keys_unique(s),
        probes_ok(s),
        count_full(s) == 0,
        count_used(s) == 0,
        slots_view(s) == Map::<u64, u64>::empty(),
    decreases s.len(),
{
    if s.len() > 0 {
        let p = s.drop_last();
        assert(forall|j: int| 0 <= j < p.len() ==> (#[trigger] p[j]) is Empty) by {
            assert(forall|j: int| 0 <= j < p.len() ==> p[j] == s[j]);
        }
        lemma_all_empty(p);
    }
    assert(slots_view(s) =~= Map::<u64, u64>::empty()) by {
        assert forall|k: u64| !slots_contain(s, k) by {
            if slots_contain(s, k) {
                let j = choose|j: int| 0 <= j < s.len() && full_with(#[trigger] s[j], k);
                assert(false);
            }
        }
    }
}

/// Uniqueness restricts to any prefix.
pub proof fn lemma_prefix_unique(s: Seq<Slot>, i: int)
    requires
        keys_unique(s),
        0 <= i <= s.len(),
    ensures
        keys_unique(s.take(i)),
{
    let p = s.take(i);
    assert forall|x: int, y: int|
        0 <= x < p.len() && 0 <= y < p.len() && x != y && #[trigger] p[x] is Full
            && #[trigger] p[y] is Full implies p[x]->key != p[y]->key by {
        assert(p[x] == s[x] && p[y] == s[y]);
        assert(s[x] is Full && s[y] is Full);
    }
}

/// How view and entry count of a prefix change as it grows by one slot.
pub proof fn lemma_prefix_step(s: Seq<Slot>, i: int)
    requires
        keys_unique(s),
        0 <= i < s.len(),
    ensures
        count_full(s.take(i + 1)) == count_full(s.take(i)) + full_weight(s[i]),
        s[i] matches Slot::Full { key, value } ==> {
            &&& !slots_contain(s.take(i), key)
            &&& slots_view(s.take(i + 1)) == slots_view(s.take(i)).insert(key, value)
        },
        !(s[i] is Full) ==> slots_view(s.take(i + 1)) == slots_view(s.take(i)),
{
    let p = s.take(i);
    let q = s.take(i + 1);
    assert(q.drop_last() =~= p);
    assert(q.last() == s[i]);
    lemma_prefix_unique(s, i);
    lemma_prefix_unique(s, i + 1);
    if s[i] is Full {
        let k = s[i]->key;
        let v = s[i]->value;
        assert(!slots_contain(p, k)) by {
            if slots_contain(p, k) {
                let j = choose|j: int| 0 <= j < p.len() && full_with(#[trigger] p[j], k);
                assert(p[j] == s[j]);
                assert(s[j] is Full && s[i] is Full);
                assert(false);
            }
        }
        assert(slots_view(q) =~= slots_view(p).insert(k, v)) by {
            assert(full_with(q[i], k));
            lemma_view_lookup(q, k, i);
            assert forall|k2: u64| k2 != k implies slots_contain(q, k2) == slots_contain(p, k2) by {
                if slots_contain(q, k2) {
                    let j = choose|j: int| 0 <= j < q.len() && full_with(#[trigger] q[j], k2);
                    assert(j != i);
                    assert(full_with(p[j], k2));
                }
                if slots_contain(p, k2) {
                    let j = choose|j: int| 0 <= j < p.len() && full_with(#[trigger] p[j], k2);
                    assert(full_with(q[j], k2));
                }
            }
            assert forall|k2: u64| k2 != k && slots_contain(p, k2) implies value_of_key(q, k2)
                == value_of_key(p, k2) by {
                let j = choose|j: int| 0 <= j < p.len() && full_with(#[trigger] p[j], k2);
                lemma_view_lookup(p, k2, j);
                lemma_view_lookup(q, k2, j);
            }
        }
    } else {
        assert(slots_view(q) =~= slots_view(p)) by {
            assert forall|k2: u64| slots_contain(q, k2) == slots_contain(p, k2) by {
                if slots_contain(q, k2) {
                    let j = choose|j: int| 0 <= j < q.len() && full_with(#[trigger] q[j], k2);
                    assert(j != i);
                    assert(full_with(p[j], k2));
                }
                if slots_contain(p, k2) {
                    let j = choose|j: int| 0 <= j < p.len() && full_with(#[trigger] p[j], k2);
                    assert(full_with(q[j], k2));
                }
            }
            assert forall|k2: u64| slots_contain(p, k2) implies value_of_key(q, k2) == value_of_key(
                p,
                k2,
            ) by {
                let j = choose|j: int| 0 <= j < p.len() && full_with(#[trigger] p[j], k2);
                lemma_view_lookup(p, k2, j);
                lemma_view_lookup(q, k2, j);
            }
        }
    }
}

// ---------------------------------------------------------------------------
// Per-key multiplicity
// ---------------------------------------------------------------------------

/// With unique keys, a key is stored exactly once when present and not at
/// all when absent.
pub proof fn lemma_count_key_of_unique(s: Seq<Slot>, k: u64)
    requires
        keys_unique(s),
    ensures
        count_key(s, k) == if slots_contain(s, k) {
            1int
        } else {
            0int
        },
    decreases s.len(),
{
    if s.len() == 0 {
        assert(!slots_contain(s, k));
    } else {
        let p = s.drop_last();
        assert(keys_unique(p)) by {
            assert forall|x: int, y: int|
                0 <= x < p.len() && 0 <= y < p.len() && x != y && #[trigger] p[x] is Full
                    && #[trigger] p[y] is Full implies p[x]->key != p[y]->key by {
                assert(s[x] is Full && s[y] is Full);
                assert(p[x] == s[x] && p[y] == s[y]);
            }
        }
        lemma_count_key_of_unique(p, k);
        let last = s.len() - 1;
        if full_with(s.last(), k) {
            assert(slots_contain(s, k));
            assert(!slots_contain(p, k)) by {
                if slots_contain(p, k) {
                    let j = choose|j: int| 0 <= j < p.len() && full_with(#[trigger] p[j], k);
                    assert(s[j] == p[j]);
                    assert(s[j] is Full && s[last] is Full);
                    assert(false);
                }
            }
        } else {
            assert(slots_contain(p, k) == slots_contain(s, k)) by {
                if slots_contain(s, k) {
                    let j = choose|j: int| 0 <= j < s.len() && full_with(#[trigger] s[j], k);
                    assert(j != last);
                    assert(full_with(p[j], k));
                }
                if slots_contain(p, k) {
                    let j = choose|j: int| 0 <= j < p.len() && full_with(#[trigger] p[j], k);
                    assert(full_with(s[j], k));
                }
            }
        }
    }
}

} // verus!
