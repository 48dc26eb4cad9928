//! The public table: a fixed set of shards behind one handle.
//!
//! `ConcurrentMap` owns `1 << shard_bits` shards. The high bits of a key's
//! hash pick its shard — the low bits pick the slot inside the shard, so the
//! two choices use disjoint bits — and every operation is carried out by
//! that one shard. The number of shards is fixed at construction; each shard
//! grows independently as it fills.
//!
//! The view of the table is a mathematical map from keys to values:
//! `insert` makes the view `old@.insert(k, v)`, `erase` makes it
//! `old@.remove(k)`, and `find` reads it. Absence is `None`; every 64-bit
//! value, `u64::MAX` included, is storable and retrievable.

use crate::hashing::{
    lemma_shard_index_in_range, shard_count_of_bits, shard_index, spec_shard_count,
    spec_shard_index,
};
use crate::shard::{lemma_cap_nonneg, lemma_shard_key_multiplicity, Shard, MIN_CAP};
use vstd::pervasive::unreached;
use vstd::prelude::*;

verus! {

/// The error of a construction that was given an invalid configuration.
#[derive(Clone, Copy, Debug, PartialEq, Eq, Structural)]
pub enum MapError {
    /// A table needs at least one shard.
    InvalidShardCount,
}

/// The summed capacity of a row of shards.
spec fn sum_caps(s: Seq<Shard>) -> int
    decreases s.len(),
{
    if s.len() == 0 {
        0
    } else {
        sum_caps(s.drop_last()) + s.last().cap()
    }
}

/// Capacities are non-negative, so each shard's is at most the sum.
proof fn lemma_cap_le_total(s: Seq<Shard>, i: int)
    requires
        0 <= i < s.len(),
    ensures
        s[i].cap() <= sum_caps(s),
        0 <= sum_caps(s),
    decreases s.len(),
{
    lemma_cap_nonneg(&s.last());
    if i == s.len() - 1 {
        lemma_sum_caps_nonneg(s.drop_last());
    } else {
        lemma_cap_le_total(s.drop_last(), i);
        assert(s.drop_last()[i] == s[i]);
    }
}

proof fn lemma_sum_caps_nonneg(s: Seq<Shard>)
    ensures
        0 <= sum_caps(s),
    decreases s.len(),
{
    if s.len() > 0 {
        lemma_sum_caps_nonneg(s.drop_last());
        lemma_cap_nonneg(&s.last());
    }
}

/// Replacing one shard shifts the summed capacity by the difference.
proof fn lemma_sum_caps_update(s: Seq<Shard>, i: int, sh: Shard)
    requires
        0 <= i < s.len(),
    ensures
        sum_caps(s.update(i, sh)) == sum_caps(s) - s[i].cap() + sh.cap(),
    decreases s.len(),
{
    let su = s.update(i, sh);
    if i == s.len() - 1 {
        assert(su.drop_last() =~= s.drop_last());
    } else {
        assert(su.drop_last() =~= s.drop_last().update(i, sh));
        lemma_sum_caps_update(s.drop_last(), i, sh);
    }
}

/// The summed per-shard multiplicity of one key.
spec fn sum_key_mult(s: Seq<Shard>, k: u64) -> int
    decreases s.len(),
{
    if s.len() == 0 {
        0
    } else {
        sum_key_mult(s.drop_last(), k) + s.last().key_multiplicity(k)
    }
}

/// When at most the shard `t` can hold `k`, the summed multiplicity of `k`
/// is 1 or 0 as that shard holds it or not.
proof fn lemma_sum_key_mult(s: Seq<Shard>, k: u64, t: int)
    requires
        forall|i: int| 0 <= i < s.len() ==> (#[trigger] s[i]).wf(),
        forall|i: int| 0 <= i < s.len() && i != t ==> !(#[trigger] s[i])@.contains_key(k),
    ensures
        sum_key_mult(s, k) == if 0 <= t < s.len() && s[t]@.contains_key(k) {
            1int
        } else {
            0int
        },
    decreases s.len(),
{
    if s.len() > 0 {
        let p = s.drop_last();
        assert(forall|i: int| 0 <= i < p.len() ==> p[i] == s[i]);
        lemma_sum_key_mult(p, k, t);
        lemma_shard_key_multiplicity(&s.last(), k);
    }
}

/// A table of 64-bit keys and values, sharded by key hash.
///
/// In a concurrent deployment each shard is the unit of locking: an
/// operation takes one shard, probes or rewrites its slot array, and leaves
/// every other shard untouched. Here each operation is a bounded critical
/// section over `&mut self`, and the contracts pin down, shard by shard,
/// exactly the per-key behaviour such serialization guarantees.
pub struct ConcurrentMap {
    shards: Vec<Shard>,
    shard_bits: u32,
}

impl View for ConcurrentMap {
    type V = Map<u64, u64>;

    /// The table as a mathematical map: each key is read from the shard it
    /// routes to.
    closed spec fn view(&self) -> Map<u64, u64> {
        Map::new(
            |k: u64| self.shards@[spec_shard_index(k, self.shard_bits)]@.contains_key(k),
            |k: u64| self.shards@[spec_shard_index(k, self.shard_bits)]@[k],
        )
    }
}

impl ConcurrentMap {
    /// The summed capacity of all shards: how much the table has grown.
    pub closed spec fn total_cap(self) -> int {
        sum_caps(self.shards@)
    }

    /// The table can still double any one shard within machine bounds; what
    /// `insert` needs in order to resize. Holds comfortably for any table
    /// that fits in memory.
    pub open spec fn room_to_grow(self) -> bool {
        self.total_cap() <= usize::MAX as int / 16
    }

    /// How many slots across all shards hold an entry for `k`.
    pub closed spec fn key_multiplicity(self, k: u64) -> int {
        sum_key_mult(self.shards@, k)
    }

    /// The table's invariant: a power-of-two row of well-formed shards, and
    /// every stored key sits in the shard its hash routes it to.
    pub closed spec fn wf(self) -> bool {
        &&& self.shard_bits <= 31
        &&& self.shards@.len() == spec_shard_count(self.shard_bits)
        &&& forall|i: int| 0 <= i < self.shards@.len() ==> (#[trigger] self.shards@[i]).wf()
        &&& forall|i: int, k: u64|
            0 <= i < self.shards@.len() && #[trigger] self.shards@[i]@.contains_key(k)
                ==> spec_shard_index(k, self.shard_bits) == i
    }

    /// Creates an empty table of about `shard_count` shards: the count is
    /// rounded up to a power of two (and capped at a machine bound that no
    /// table fitting in memory reaches). Zero shards is a configuration
    /// error.
    pub fn new(shard_count: usize) -> (r: Result<ConcurrentMap, MapError>)
        ensures
            r is Ok <==> shard_count > 0,
            shard_count == 0 ==> r == Err::<ConcurrentMap, MapError>(MapError::InvalidShardCount),
            r matches Ok(m) ==> {
                &&& m.wf()
                &&& m@ == Map::<u64, u64>::empty()
                &&& m.total_cap() <= 32 * MIN_CAP * shard_count
            },
    {
        if shard_count == 0 {
            return Err(MapError::InvalidShardCount);
        }
        let mut bits: u32 = 0;
        while bits < 31 && shard_count_of_bits(bits) < shard_count
            invariant
                bits <= 31,
                bits > 0 ==> spec_shard_count((bits - 1) as u32) < shard_count,
            decreases 31 - bits,
        {
            bits = bits + 1;
        }
        let n = shard_count_of_bits(bits);
        proof {
            lemma_shard_count_bound(bits, shard_count as int, n as int);
        }
        let mut shards: Vec<Shard> = Vec::new();
        while shards.len() < n
            invariant
                shards@.len() <= n,
                forall|i: int|
                    0 <= i < shards@.len() ==> {
                        &&& (#[trigger] shards@[i]).wf()
                        &&& shards@[i]@ == Map::<u64, u64>::empty()
                        &&& shards@[i].cap() == MIN_CAP
                    },
                sum_caps(shards@) == MIN_CAP * shards@.len(),
            decreases n - shards@.len(),
        {
            let sh = Shard::new();
            proof {
                assert(shards@.push(sh).drop_last() =~= shards@);
            }
            shards.push(sh);
        }
        let m = ConcurrentMap { shards, shard_bits: bits };
        proof {
            assert(m.total_cap() <= 32 * MIN_CAP * shard_count) by {
                assert(m.total_cap() == MIN_CAP * n);
                assert(16 * (n as int) <= 512 * (shard_count as int));
                assert(32 * MIN_CAP * shard_count == 512 * (shard_count as int));
            }
            assert(m.wf()) by {
                assert(forall|i: int, k: u64|
                    0 <= i < m.shards@.len() ==> !(#[trigger] m.shards@[i]@.contains_key(k)));
            }
            assert(m@ =~= Map::<u64, u64>::empty()) by {
                assert forall|k: u64| !m@.contains_key(k) by {
                    lemma_shard_index_in_range(k, m.shard_bits);
                }
            }
        }
        Ok(m)
    }

    /// Looks a key up. Returns `Some` of the stored value exactly when the
    /// key is present, `None` exactly when it is absent.
    pub fn find(&self, key: u64) -> (r: Option<u64>)
        requires
            self.wf(),
        ensures
            r == if self@.contains_key(key) {
                Some(self@[key])
            } else {
                None::<u64>
            },
    {
        proof {
            lemma_shard_index_in_range(key, self.shard_bits);
        }
        let idx = shard_index(key, self.shard_bits);
        self.shards[idx].get(key)
    }

    /// Stores `(key, value)`, overwriting any entry for `key` in place.
    /// Returns whether the key was new; `false` means an entry was
    /// overwritten. Grows (only) the key's shard when it crosses its load
    /// threshold.
    ///
    /// This is the table's atomic insert-or-assign primitive: the whole
    /// read-modify-write happens against the key's shard in one call, so a
    /// caller never needs to compose `find` with `insert` — a composition
    /// that a concurrent deployment could not keep atomic.
    pub fn insert(&mut self, key: u64, value: u64) -> (r: bool)
        requires
            old(self).wf(),
            old(self).room_to_grow(),
        ensures
            final(self).wf(),
            final(self)@ == old(self)@.insert(key, value),
            r == !old(self)@.contains_key(key),
            final(self).total_cap() <= 2 * old(self).total_cap(),
    {
        proof {
            lemma_shard_index_in_range(key, self.shard_bits);
        }
        let idx = shard_index(key, self.shard_bits);
        proof {
            lemma_cap_le_total(self.shards@, idx as int);
        }
        let sh = &mut self.shards[idx];
        let r = sh.insert_one(key, value);
        proof {
            lemma_sum_caps_update(old(self).shards@, idx as int, self.shards@[idx as int]);
            lemma_cap_le_total(old(self).shards@, idx as int);
            assert(self.wf()) by {
                assert forall|i: int, k: u64|
                    0 <= i < self.shards@.len() && #[trigger] self.shards@[i]@.contains_key(k)
                        implies spec_shard_index(k, self.shard_bits) == i by {
                    if i == idx as int {
                        if k != key {
                            assert(old(self).shards@[i]@.contains_key(k));
                        }
                    } else {
                        assert(old(self).shards@[i]@.contains_key(k));
                    }
                }
            }
            assert(self@ =~= old(self)@.insert(key, value)) by {
                assert forall|k: u64| k != key implies #[trigger] self@.contains_key(k) == old(
                    self,
                )@.contains_key(k) && (self@.contains_key(k) ==> self@[k] == old(self)@[k]) by {
                    let i = spec_shard_index(k, self.shard_bits);
                    lemma_shard_index_in_range(k, self.shard_bits);
                    if i == idx as int {
                        assert(self.shards@[i]@ == old(self).shards@[i]@.insert(key, value));
                    } else {
                        assert(self.shards@[i] == old(self).shards@[i]);
                    }
                }
                assert(self@.contains_key(key) && self@[key] == value) by {
                    assert(self.shards@[idx as int]@.contains_key(key));
                }
            }
        }
        r
    }

    /// Removes the entry for `key` if one exists. Returns whether an entry
    /// was removed; `false` means the key was absent. Never shrinks any
    /// shard.
    pub fn erase(&mut self, key: u64) -> (r: bool)
        requires
            old(self).wf(),
        ensures
            final(self).wf(),
            final(self)@ == old(self)@.remove(key),
            r == old(self)@.contains_key(key),
            final(self).total_cap() == old(self).total_cap(),
    {
        proof {
            lemma_shard_index_in_range(key, self.shard_bits);
        }
        let idx = shard_index(key, self.shard_bits);
        let sh = &mut self.shards[idx];
        let r = sh.erase_one(key);
        proof {
            lemma_sum_caps_update(old(self).shards@, idx as int, self.shards@[idx as int]);
            assert(self.wf()) by {
                assert forall|i: int, k: u64|
                    0 <= i < self.shards@.len() && #[trigger] self.shards@[i]@.contains_key(k)
                        implies spec_shard_index(k, self.shard_bits) == i by {
                    assert(old(self).shards@[i]@.contains_key(k));
                }
            }
            assert(self@ =~= old(self)@.remove(key)) by {
                assert forall|k: u64| k != key implies #[trigger] self@.contains_key(k) == old(
                    self,
                )@.contains_key(k) && (self@.contains_key(k) ==> self@[k] == old(self)@[k]) by {
                    let i = spec_shard_index(k, self.shard_bits);
                    lemma_shard_index_in_range(k, self.shard_bits);
                    if i == idx as int {
                        assert(self.shards@[i]@ == old(self).shards@[i]@.remove(key));
                    } else {
                        assert(self.shards@[i] == old(self).shards@[i]);
                    }
                }
                assert(!self@.contains_key(key)) by {
                    assert(!self.shards@[idx as int]@.contains_key(key));
                }
            }
        }
        r
    }

    /// Every key is stored at most once across the whole table — exactly
    /// once when the table's map holds it, in the shard it routes to.
    pub proof fn lemma_key_stored_at_most_once(&self, k: u64)
        requires
            self.wf(),
        ensures
            self.key_multiplicity(k) == if self@.contains_key(k) {
                1int
            } else {
                0int
            },
    {
        let t = spec_shard_index(k, self.shard_bits);
        lemma_shard_index_in_range(k, self.shard_bits);
        lemma_sum_key_mult(self.shards@, k, t);
    }
}

impl Default for ConcurrentMap {
    /// An empty table with a default shard count of 8.
    fn default() -> (r: ConcurrentMap)
        ensures
            r.wf(),
            r@ == Map::<u64, u64>::empty(),
            r.room_to_grow(),
    {
        match ConcurrentMap::new(8) {
            Ok(m) => m,
            Err(_) => unreached(),
        }
    }
}

/// The rounded shard count exceeds neither twice the requested count nor
/// the machine cap.
proof fn lemma_shard_count_bound(bits: u32, shard_count: int, n: int)
    requires
        bits <= 31,
        shard_count >= 1,
        n == spec_shard_count(bits),
        bits > 0 ==> spec_shard_count((bits - 1) as u32) < shard_count,
    ensures
        1 <= n <= 2 * shard_count,
{
    if bits == 0 {
        assert(1u64 << 0u64 == 1u64) by (bit_vector);
    } else {
        let b = bits;
        assert((1u64 << (b as u64)) == 2 * (1u64 << (((b - 1) as u32) as u64)) && (1u64 << (
        b as u64)) >= 1) by (bit_vector)
            requires
                1 <= b <= 31,
        ;
    }
}

} // verus!
