//! The dedup index of one partition file.
//!
//! The index maps a dedup key `(interval_start, interval_end)` to the value
//! bit pattern most recently recorded for that key. It is built by reading a
//! file's rows in order — file read order is history order, so a later row
//! overwrites an earlier one — and is updated as incoming measurements are
//! merged.

use vstd::prelude::*;

use crate::rows::StoredRow;
use crate::rows::r_key;

verus! {

/// The dedup key of one index entry `(start, end, bits)`.
pub open spec fn e_key(e: (i64, i64, u64)) -> (int, int) {
    (e.0 as int, e.1 as int)
}

/// The map that a sequence of entries denotes: later entries win.
pub open spec fn entries_map(s: Seq<(i64, i64, u64)>) -> Map<(int, int), u64>
    decreases s.len(),
{
    if s.len() == 0 {
        Map::empty()
    } else {
        entries_map(s.drop_last()).insert(e_key(s.last()), s.last().2)
    }
}

/// The dedup index that a sequence of stored rows denotes, reading the rows
/// in order with later rows overwriting earlier ones per key.
pub open spec fn index_of_rows(rows: Seq<StoredRow>) -> Map<(int, int), u64>
    decreases rows.len(),
{
    if rows.len() == 0 {
        Map::empty()
    } else {
        index_of_rows(rows.drop_last()).insert(r_key(rows.last()), rows.last().value_bits)
    }
}

/// An executable last-wins dedup index: an append-only log of entries whose
/// meaning is `entries_map`.
pub struct DedupIndex {
    pub entries: Vec<(i64, i64, u64)>,
}

impl DedupIndex {
    /// The map this index denotes.
    pub open spec fn view_map(self) -> Map<(int, int), u64> {
        entries_map(self.entries@)
    }

    /// An empty index.
    pub fn new() -> (r: DedupIndex)
        ensures
            r.view_map() == Map::<(int, int), u64>::empty(),
    {
        DedupIndex { entries: Vec::new() }
    }

    /// Record `bits` as the current value for key `(start, end)`.
    pub fn insert(&mut self, start: i64, end: i64, bits: u64)
        ensures
            final(self).view_map() == old(self).view_map().insert((start as int, end as int), bits),
    {
        self.entries.push((start, end, bits));
        proof {
            assert(self.entries@.drop_last() =~= old(self).entries@);
        }
    }

    /// The current bit pattern for key `(start, end)`, if any row recorded one.
    pub fn lookup(&self, start: i64, end: i64) -> (r: Option<u64>)
        ensures
            r == if self.view_map().contains_key((start as int, end as int)) {
                Some(self.view_map()[(start as int, end as int)])
            } else {
                None::<u64>
            },
    {
        let ghost k: (int, int) = (start as int, end as int);
        let ghost full = self.entries@;
        proof {
            assert(full.take(full.len() as int) =~= full);
        }
        let mut i: usize = self.entries.len();
        while i > 0
            invariant
                i <= self.entries.len(),
                full == self.entries@,
                k == (start as int, end as int),
                entries_map(full).contains_key(k) <==> entries_map(full.take(i as int)).contains_key(k),
                entries_map(full).contains_key(k) ==> entries_map(full)[k] == entries_map(full.take(i as int))[k],
            decreases i,
        {
            i = i - 1;
            let e = self.entries[i];
            proof {
                assert(full.take(i + 1 as int).drop_last() =~= full.take(i as int));
                assert(full.take(i + 1 as int).last() == full[i as int]);
            }
            if e.0 == start && e.1 == end {
                proof {
                    assert(entries_map(full.take(i + 1 as int)).contains_key(k));
                    assert(entries_map(full.take(i + 1 as int))[k] == e.2);
                }
                return Some(e.2);
            }
            proof {
                assert(e_key(full[i as int]) != k);
            }
        }
        proof {
            assert(full.take(0) =~= Seq::<(i64, i64, u64)>::empty());
        }
        None
    }
}

} // verus!
