//! The table's algebraic laws, stated over its mathematical view.
//!
//! Each operation's contract pins its effect on the view down exactly:
//! `insert(k, v)` makes the view `old@.insert(k, v)` and returns
//! `!old@.contains_key(k)`, `erase(k)` makes it `old@.remove(k)` and returns
//! `old@.contains_key(k)`, and `find(k)` returns `Some(old@[k])` exactly
//! when `old@.contains_key(k)`, whether or not a shard was resized along
//! the way. The laws below compose those contracts across consecutive
//! calls, so they are stated over a view `m` and proved for every view.

use vstd::prelude::*;

verus! {

/// Inserting and then looking the same key up — with nothing in between —
/// finds the inserted value: after `insert(k, v)`, `find(k)` returns
/// `Some(v)`.
pub proof fn law_insert_then_find(m: Map<u64, u64>, k: u64, v: u64)
    ensures
        m.insert(k, v).contains_key(k),
        m.insert(k, v)[k] == v,
{
}

/// Erasing and then looking the same key up finds nothing, whatever the
/// prior state: after `erase(k)`, `find(k)` returns `None`.
pub proof fn law_erase_then_find(m: Map<u64, u64>, k: u64)
    ensures
        !m.remove(k).contains_key(k),
{
}

/// Overwrite semantics: after `insert(k, v1)` then `insert(k, v2)`,
/// `find(k)` returns `Some(v2)`; and the second insert returns `false`,
/// since the first left the key present.
pub proof fn law_overwrite(m: Map<u64, u64>, k: u64, v1: u64, v2: u64)
    ensures
        m.insert(k, v1).insert(k, v2).contains_key(k),
        m.insert(k, v1).insert(k, v2)[k] == v2,
        m.insert(k, v1).contains_key(k),
{
}

/// No other key is disturbed by an insert — in particular not by one that
/// grows a shard: every previously stored entry is still found, unchanged,
/// after any insert of a different key.
pub proof fn law_insert_preserves_others(m: Map<u64, u64>, k: u64, v: u64, k2: u64)
    requires
        k2 != k,
    ensures
        m.insert(k, v).contains_key(k2) == m.contains_key(k2),
        m.contains_key(k2) ==> m.insert(k, v)[k2] == m[k2],
{
}

/// No other key is disturbed by an erase.
pub proof fn law_erase_preserves_others(m: Map<u64, u64>, k: u64, k2: u64)
    requires
        k2 != k,
    ensures
        m.remove(k).contains_key(k2) == m.contains_key(k2),
        m.contains_key(k2) ==> m.remove(k)[k2] == m[k2],
{
}

} // verus!
