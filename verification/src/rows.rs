//! Row types of the partition store.
//!
//! A measurement's value is kept as the raw bit pattern of its 64-bit float:
//! deduplication is defined over exact bit patterns, never numeric equality,
//! so the bits are the only thing the store ever reads of a value.

use vstd::prelude::*;

verus! {

/// One observed value for a time interval, as handed in by a collector.
/// Timestamps are microseconds since the Unix epoch, UTC.
#[derive(Clone, Copy, PartialEq, Eq, Structural, Debug)]
pub struct Measurement {
    pub start_micros: i64,
    pub end_micros: i64,
    pub value_bits: u64,
}

/// One row of a partition file: a measurement plus the time it was ingested.
/// `ingested_at` is `None` for rows written before the column existed.
#[derive(Clone, Copy, PartialEq, Eq, Structural, Debug)]
pub struct StoredRow {
    pub start_micros: i64,
    pub end_micros: i64,
    pub value_bits: u64,
    pub ingested_at: Option<i64>,
}

/// The dedup key of a measurement: the interval it describes.
pub open spec fn m_key(m: Measurement) -> (int, int) {
    (m.start_micros as int, m.end_micros as int)
}

/// The dedup key of a stored row.
pub open spec fn r_key(r: StoredRow) -> (int, int) {
    (r.start_micros as int, r.end_micros as int)
}

/// The row that persisting measurement `m` at time `now` produces.
pub open spec fn row_of(m: Measurement, now: i64) -> StoredRow {
    StoredRow {
        start_micros: m.start_micros,
        end_micros: m.end_micros,
        value_bits: m.value_bits,
        ingested_at: Some(now),
    }
}

/// The full contents of a rewritten partition file: every existing row,
/// in order, followed by every newly appended row. Existing rows are never
/// dropped or rewritten; history is append-only.
pub fn merged_file_rows(existing: &Vec<StoredRow>, appended: &Vec<StoredRow>) -> (r: Vec<StoredRow>)
    ensures
        r@ == existing@ + appended@,
{
    let mut out: Vec<StoredRow> = Vec::new();
    let mut i: usize = 0;
    while i < existing.len()
        invariant
            i <= existing.len(),
            out@ == existing@.take(i as int),
        decreases existing.len() - i,
    {
        out.push(existing[i]);
        assert(out@ =~= existing@.take(i + 1 as int));
        i = i + 1;
    }
    assert(out@ =~= existing@);
    let mut j: usize = 0;
    while j < appended.len()
        invariant
            j <= appended.len(),
            out@ == existing@ + appended@.take(j as int),
        decreases appended.len() - j,
    {
        out.push(appended[j]);
        assert(out@ =~= existing@ + appended@.take(j + 1 as int));
        j = j + 1;
    }
    assert(out@ =~= existing@ + appended@);
    out
}

} // verus!
