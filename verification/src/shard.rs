//! One shard: an independently resizable open-addressed sub-table.
//!
//! A shard owns a slot array (capacity a power of two, at least
//! [`MIN_CAP`]), a live-entry count and a used-slot count (entries plus
//! tombstones). Lookups, inserts and erasures probe linearly from the slot
//! named by the low bits of the key's hash. An insert of a new key recycles
//! the first tombstone on its probe path when there is one; when it must
//! take an empty slot instead and that pushes the used fraction above 3/4,
//! the shard rehashes: into an array of twice the capacity when the live
//! entries alone justify it, and in place — merely discarding tombstones —
//! when they do not. Capacity never shrinks.

use crate::hashing::mix64;
use crate::slots::{
    count_full, count_key, count_used, full_weight, full_with, keys_unique, lemma_all_empty,
    lemma_count_bounds, lemma_count_key_of_unique, lemma_count_update, lemma_prefix_step,
    lemma_probe_dist_of_probe_at, lemma_probe_roundtrip, lemma_scan_miss, lemma_set_fresh,
    lemma_set_overwrite, lemma_set_tomb, lemma_spare_gives_empty, lemma_view_lookup, path_clear_to,
    probe_at, probe_dist, probes_ok, slot_start, slots_contain, slots_view, Slot,
};
use vstd::pervasive::{unreached, VecAdditionalExecFns};
use vstd::prelude::*;

verus! {

/// Capacity every shard starts with.
pub const MIN_CAP: usize = 16;

/// A power of two.
pub open spec fn is_pow2(n: int) -> bool
    decreases n,
{
    if n <= 0 {
        false
    } else if n == 1 {
        true
    } else {
        n % 2 == 0 && is_pow2(n / 2)
    }
}

/// What a probe of the slot array reports.
enum ScanOutcome {
    /// The key's entry lives at this slot.
    Found(usize),
    /// The key is absent: its probe path ends at the empty slot `end`, and
    /// `reuse` names the first tombstone on the path, if the path crossed
    /// one — a slot an insert may recycle.
    Missing { end: usize, reuse: Option<usize> },
}

/// Probes the array for `k`: walks the key's probe path until the key's
/// entry or an empty slot appears.
fn scan(slots: &Vec<Slot>, k: u64) -> (r: ScanOutcome)
    requires
        slots@.len() > 0,
        slots@.len() <= usize::MAX as int / 2,
        keys_unique(slots@),
        probes_ok(slots@),
        count_used(slots@) < slots@.len(),
    ensures
        match r {
            ScanOutcome::Found(i) => i < slots@.len() && full_with(slots@[i as int], k),
            ScanOutcome::Missing { end, reuse } => {
                &&& end < slots@.len()
                &&& slots@[end as int] is Empty
                &&& !slots_contain(slots@, k)
                &&& path_clear_to(slots@, k, probe_dist(k, slots@.len() as int, end as int))
                &&& (match reuse {
                    Some(t) => t < slots@.len() && slots@[t as int] is Tomb && path_clear_to(
                        slots@,
                        k,
                        probe_dist(k, slots@.len() as int, t as int),
                    ),
                    None => true,
                })
            },
        },
{
    let cap = slots.len();
    let h = mix64(k);
    let start = (h % (cap as u64)) as usize;
    assert(start == slot_start(k, cap as int));
    let mut tomb: Option<usize> = None;
    let mut d: usize = 0;
    loop
        invariant
            cap == slots@.len(),
            0 < cap <= usize::MAX as int / 2,
            keys_unique(slots@),
            probes_ok(slots@),
            count_used(slots@) < slots@.len(),
            start == slot_start(k, cap as int),
            0 <= start < cap,
            d <= cap,
            forall|dd: int|
                0 <= dd < d ==> {
                    &&& !(slots@[#[trigger] probe_at(k, cap as int, dd)] is Empty)
                    &&& !full_with(slots@[probe_at(k, cap as int, dd)], k)
                },
            (match tomb {
                Some(t) => t < cap && slots@[t as int] is Tomb && probe_dist(
                    k,
                    cap as int,
                    t as int,
                ) < d,
                None => true,
            }),
        decreases cap - d,
    {
        proof {
            if d == cap {
                lemma_spare_gives_empty(slots@);
                let j = choose|j: int| 0 <= j < slots@.len() && slots@[j] is Empty;
                lemma_probe_roundtrip(k, cap as int, j);
                assert(!(slots@[probe_at(k, cap as int, probe_dist(k, cap as int, j))] is Empty));
                assert(false);
            }
            lemma_probe_dist_of_probe_at(k, cap as int, d as int);
        }
        let i = (start + d) % cap;
        assert(i == probe_at(k, cap as int, d as int));
        let sl = slots[i];
        match sl {
            Slot::Empty => {
                proof {
                    lemma_scan_miss(slots@, k, d as int);
                }
                return ScanOutcome::Missing { end: i, reuse: tomb };
            },
            Slot::Full { key, .. } => {
                if key == k {
                    return ScanOutcome::Found(i);
                }
                d = d + 1;
            },
            Slot::Tomb => {
                if tomb.is_none() {
                    tomb = Some(i);
                }
                d = d + 1;
            },
        }
    }
}

/// One independently locked, independently resizable partition of the table.
pub struct Shard {
    slots: Vec<Slot>,
    live: usize,
    used: usize,
}

impl View for Shard {
    type V = Map<u64, u64>;

    /// The shard as a mathematical map.
    closed spec fn view(&self) -> Map<u64, u64> {
        slots_view(self.slots@)
    }
}

impl Shard {
    /// The capacity of the slot array.
    pub closed spec fn cap(self) -> int {
        self.slots@.len() as int
    }

    /// How many slots hold an entry for `k` (uniqueness makes this 0 or 1).
    pub closed spec fn key_multiplicity(self, k: u64) -> int {
        count_key(self.slots@, k)
    }

    /// The shard's invariant: bounded power-of-two capacity, consistent
    /// counts, unique keys, unbroken probe paths, and a used fraction of at
    /// most 3/4 — which keeps at least one slot empty, so every probe
    /// terminates.
    pub closed spec fn wf(self) -> bool {
        &&& MIN_CAP <= self.slots@.len()
        &&& self.slots@.len() <= usize::MAX as int / 8
        &&& is_pow2(self.slots@.len() as int)
        &&& keys_unique(self.slots@)
        &&& probes_ok(self.slots@)
        &&& self.live == count_full(self.slots@)
        &&& self.used == count_used(self.slots@)
        &&& 4 * count_used(self.slots@) <= 3 * self.slots@.len()
    }

    /// A fresh, empty shard of the minimum capacity.
    pub fn new() -> (r: Shard)
        ensures
            r.wf(),
            r@ == Map::<u64, u64>::empty(),
            r.cap() == MIN_CAP,
    {
        let mut v: Vec<Slot> = Vec::new();
        while v.len() < MIN_CAP
            invariant
                v@.len() <= MIN_CAP,
                forall|j: int| 0 <= j < v@.len() ==> (#[trigger] v@[j]) is Empty,
            decreases MIN_CAP - v@.len(),
        {
            v.push(Slot::Empty);
        }
        proof {
            lemma_all_empty(v@);
            assert(is_pow2(1));
            assert(is_pow2(2));
            assert(is_pow2(4));
            assert(is_pow2(8));
            assert(is_pow2(16));
        }
        Shard { slots: v, live: 0, used: 0 }
    }

    /// Looks `k` up: the stored value, or `None` when the key is absent.
    pub fn get(&self, k: u64) -> (r: Option<u64>)
        requires
            self.wf(),
        ensures
            r == if self@.contains_key(k) {
                Some(self@[k])
            } else {
                None::<u64>
            },
    {
        proof {
            lemma_count_bounds(self.slots@);
        }
        match scan(&self.slots, k) {
            ScanOutcome::Found(i) => {
                proof {
                    lemma_view_lookup(self.slots@, k, i as int);
                }
                let sl = self.slots[i];
                match sl {
                    Slot::Full { value, .. } => Some(value),
                    _ => unreached(),
                }
            },
            ScanOutcome::Missing { .. } => None,
        }
    }

    /// Inserts or overwrites: stores `(k, v)`, reports whether `k` was new.
    /// A new key takes the first tombstone on its probe path when there is
    /// one, else the empty slot at the path's end — rehashing the shard
    /// when that crosses the load threshold.
    pub fn insert_one(&mut self, k: u64, v: u64) -> (r: bool)
        requires
            old(self).wf(),
            old(self).cap() <= usize::MAX as int / 16,
        ensures
            final(self).wf(),
            final(self)@ == old(self)@.insert(k, v),
            r == !old(self)@.contains_key(k),
            old(self).cap() <= final(self).cap() <= 2 * old(self).cap(),
    {
        proof {
            lemma_count_bounds(self.slots@);
        }
        match scan(&self.slots, k) {
            ScanOutcome::Found(i) => {
                proof {
                    lemma_view_lookup(self.slots@, k, i as int);
                    lemma_set_overwrite(self.slots@, i as int, k, v);
                    lemma_count_update(self.slots@, i as int, Slot::Full { key: k, value: v });
                }
                self.slots.set(i, Slot::Full { key: k, value: v });
                false
            },
            ScanOutcome::Missing { end, reuse } => {
                match reuse {
                    Some(t) => {
                        // Recycle the first tombstone on the probe path:
                        // the used count does not move, so no rehash.
                        proof {
                            lemma_set_fresh(self.slots@, t as int, k, v);
                            lemma_count_update(
                                self.slots@,
                                t as int,
                                Slot::Full { key: k, value: v },
                            );
                        }
                        self.slots.set(t, Slot::Full { key: k, value: v });
                        proof {
                            lemma_count_bounds(self.slots@);
                        }
                        self.live = self.live + 1;
                    },
                    None => {
                        proof {
                            lemma_set_fresh(self.slots@, end as int, k, v);
                            lemma_count_update(
                                self.slots@,
                                end as int,
                                Slot::Full { key: k, value: v },
                            );
                        }
                        self.slots.set(end, Slot::Full { key: k, value: v });
                        proof {
                            lemma_count_bounds(self.slots@);
                        }
                        self.live = self.live + 1;
                        self.used = self.used + 1;
                        if 4 * self.used > 3 * self.slots.len() {
                            self.rehash();
                        }
                    },
                }
                true
            },
        }
    }

    /// Erases `k`: drops its entry (leaving a tombstone) and reports whether
    /// an entry existed. Capacity never shrinks.
    pub fn erase_one(&mut self, k: u64) -> (r: bool)
        requires
            old(self).wf(),
        ensures
            final(self).wf(),
            final(self)@ == old(self)@.remove(k),
            r == old(self)@.contains_key(k),
            final(self).cap() == old(self).cap(),
    {
        proof {
            lemma_count_bounds(self.slots@);
        }
        match scan(&self.slots, k) {
            ScanOutcome::Found(i) => {
                proof {
                    lemma_view_lookup(self.slots@, k, i as int);
                    lemma_set_tomb(self.slots@, i as int, k);
                    lemma_count_update(self.slots@, i as int, Slot::Tomb);
                    lemma_count_bounds(self.slots@.update(i as int, Slot::Tomb));
                }
                self.slots.set(i, Slot::Tomb);
                self.live = self.live - 1;
                true
            },
            ScanOutcome::Missing { .. } => {
                proof {
                    assert(!self@.contains_key(k));
                    assert(self@.remove(k) =~= self@);
                }
                false
            },
        }
    }

    /// Rebuilds the slot array without tombstones: at double the capacity
    /// when the live entries crowd the current array, else at the same
    /// capacity. The shard's contents do not change.
    fn rehash(&mut self)
        requires
            MIN_CAP <= old(self).slots@.len(),
            old(self).slots@.len() <= usize::MAX as int / 16,
            is_pow2(old(self).slots@.len() as int),
            keys_unique(old(self).slots@),
            probes_ok(old(self).slots@),
            old(self).live == count_full(old(self).slots@),
            old(self).used == count_used(old(self).slots@),
        ensures
            final(self).wf(),
            final(self)@ == old(self)@,
            old(self).slots@.len() <= final(self).cap() <= 2 * old(self).slots@.len(),
    {
        proof {
            lemma_count_bounds(self.slots@);
        }
        let cap = self.slots.len();
        let grow = 2 * self.live > cap;
        let newcap = if grow {
            2 * cap
        } else {
            cap
        };
        proof {
            if grow {
                assert(is_pow2(2 * cap));
            }
        }
        let mut ns: Vec<Slot> = Vec::new();
        while ns.len() < newcap
            invariant
                ns@.len() <= newcap,
                forall|j: int| 0 <= j < ns@.len() ==> (#[trigger] ns@[j]) is Empty,
            decreases newcap - ns@.len(),
        {
            ns.push(Slot::Empty);
        }
        proof {
            lemma_all_empty(ns@);
            assert(self.slots@.take(0) =~= Seq::<Slot>::empty());
            lemma_all_empty(self.slots@.take(0));
        }
        let mut i: usize = 0;
        let mut moved: usize = 0;
        while i < cap
            invariant
                cap == self.slots@.len(),
                MIN_CAP <= cap <= usize::MAX as int / 16,
                keys_unique(self.slots@),
                probes_ok(self.slots@),
                newcap == if grow {
                    2 * cap as int
                } else {
                    cap as int
                },
                grow == (2 * count_full(self.slots@) > cap),
                ns@.len() == newcap,
                keys_unique(ns@),
                probes_ok(ns@),
                i <= cap,
                moved == count_full(self.slots@.take(i as int)),
                moved == count_full(ns@),
                count_used(ns@) == count_full(ns@),
                moved <= i,
                count_full(self.slots@) <= count_used(self.slots@) <= cap,
                slots_view(ns@) == slots_view(self.slots@.take(i as int)),
            decreases cap - i,
        {
            proof {
                lemma_prefix_step(self.slots@, i as int);
                lemma_count_bounds(self.slots@.take(i as int + 1));
                assert(self.slots@.take(cap as int) =~= self.slots@);
            }
            let sl = self.slots[i];
            match sl {
                Slot::Full { key, value } => {
                    proof {
                        // The key is new to `ns`: it appears once in the old
                        // array, at position `i`, past the processed prefix.
                        assert(self.slots@[i as int] == Slot::Full { key, value });
                        assert(!slots_contain(self.slots@.take(i as int), key));
                        assert(!slots_contain(ns@, key)) by {
                            assert(slots_view(ns@).contains_key(key) == slots_contain(ns@, key));
                            assert(slots_view(self.slots@.take(i as int)).contains_key(key)
                                == slots_contain(self.slots@.take(i as int), key));
                        }
                        assert(count_full(self.slots@.take(i as int)) < count_full(self.slots@))
                            by {
                            let s = self.slots@;
                            assert(count_full(s.take(i as int + 1)) == count_full(
                                s.take(i as int),
                            ) + 1);
                            lemma_count_take_le(s, i as int + 1);
                        }
                        assert(count_full(ns@) < newcap) by {
                            if grow {
                            } else {
                                assert(2 * count_full(self.slots@) <= cap);
                            }
                        }
                    }
                    place_fresh(&mut ns, key, value);
                    moved = moved + 1;
                },
                _ => {
                },
            }
            i = i + 1;
        }
        proof {
            assert(self.slots@.take(cap as int) =~= self.slots@);
        }
        self.slots = ns;
        self.used = moved;
        self.live = moved;
        proof {
            if grow {
            } else {
                assert(4 * count_full(self.slots@) <= 3 * newcap);
            }
        }
    }
}

/// A prefix never holds more entries than the whole array.
proof fn lemma_count_take_le(s: Seq<Slot>, n: int)
    requires
        0 <= n <= s.len(),
    ensures
        count_full(s.take(n)) <= count_full(s),
    decreases s.len() - n,
{
    if n < s.len() {
        assert(count_full(s.take(n + 1)) == count_full(s.take(n)) + full_weight(s[n])) by {
            assert(s.take(n + 1).drop_last() =~= s.take(n));
            assert(s.take(n + 1).last() == s[n]);
        }
        lemma_count_take_le(s, n + 1);
        assert(s.take(s.len() as int) =~= s);
    } else {
        assert(s.take(n) =~= s);
    }
}

/// Writes a fresh entry into an array that does not hold its key and has a
/// spare slot.
fn place_fresh(slots: &mut Vec<Slot>, k: u64, v: u64)
    requires
        old(slots)@.len() > 0,
        old(slots)@.len() <= usize::MAX as int / 2,
        keys_unique(old(slots)@),
        probes_ok(old(slots)@),
        !slots_contain(old(slots)@, k),
        count_used(old(slots)@) < old(slots)@.len(),
    ensures
        final(slots)@.len() == old(slots)@.len(),
        keys_unique(final(slots)@),
        probes_ok(final(slots)@),
        slots_view(final(slots)@) == slots_view(old(slots)@).insert(k, v),
        count_full(final(slots)@) == count_full(old(slots)@) + 1,
        count_used(final(slots)@) == count_used(old(slots)@) + 1,
{
    match scan(slots, k) {
        ScanOutcome::Found(i) => {
            proof {
                assert(slots_contain(slots@, k));
                assert(false);
            }
            unreached()
        },
        ScanOutcome::Missing { end, .. } => {
            proof {
                lemma_probe_roundtrip(k, slots@.len() as int, end as int);
                lemma_set_fresh(slots@, end as int, k, v);
                lemma_count_update(slots@, end as int, Slot::Full { key: k, value: v });
            }
            slots.set(end, Slot::Full { key: k, value: v });
        },
    }
}

/// A capacity is a length, hence non-negative.
pub proof fn lemma_cap_nonneg(s: &Shard)
    ensures
        s.cap() >= 0,
{
}

/// With the shard invariant, a key is stored at most once — exactly once
/// when the shard's map holds it.
pub proof fn lemma_shard_key_multiplicity(s: &Shard, k: u64)
    requires
        s.wf(),
    ensures
        s.key_multiplicity(k) == if s@.contains_key(k) {
            1int
        } else {
            0int
        },
{
    lemma_count_key_of_unique(s.slots@, k);
}

} // verus!
