//! The partition merge algorithm.
//!
//! Incoming measurements are compared, in order, against the dedup index of
//! the rows already stored. A measurement whose key is absent, or whose value
//! bits differ from the bits currently recorded for its key, is marked
//! changed: a row with a fresh ingestion timestamp becomes pending and the
//! index is updated at once, so a later measurement of the same batch
//! compares against it. A repeated key within one batch keeps only its last
//! changed value — at most one pending row exists per key, earlier ones are
//! overwritten before ever touching disk. If nothing changed, the merge is a
//! no-op and no file is to be written.

use vstd::prelude::*;

use crate::dedup::DedupIndex;
use crate::dedup::index_of_rows;
use crate::rows::Measurement;
use crate::rows::StoredRow;
use crate::rows::m_key;
use crate::rows::r_key;
use crate::rows::row_of;

verus! {

/// The position of the pending row with key `k`, or `p.len()` if none.
pub open spec fn find_pending(p: Seq<StoredRow>, k: (int, int)) -> int
    decreases p.len(),
{
    if p.len() == 0 {
        0
    } else if r_key(p[0]) == k {
        0
    } else {
        1 + find_pending(p.drop_first(), k)
    }
}

/// `find_pending` returns the first position holding `k`, or the length.
pub proof fn lemma_find_pending(p: Seq<StoredRow>, k: (int, int))
    ensures
        0 <= find_pending(p, k) <= p.len(),
        forall|i: int| 0 <= i < find_pending(p, k) ==> r_key(p[i]) != k,
        find_pending(p, k) < p.len() ==> r_key(p[find_pending(p, k)]) == k,
    decreases p.len(),
{
    if p.len() > 0 && r_key(p[0]) != k {
        lemma_find_pending(p.drop_first(), k);
        assert forall|i: int| 0 <= i < find_pending(p, k) implies r_key(p[i]) != k by {
            if i > 0 {
                assert(p.drop_first()[i - 1] == p[i]);
            }
        }
        if find_pending(p, k) < p.len() {
            assert(p.drop_first()[find_pending(p, k) - 1] == p[find_pending(p, k)]);
        }
    }
}

/// Any position with the first-occurrence property is `find_pending`.
pub proof fn lemma_find_pending_is(p: Seq<StoredRow>, k: (int, int), j: int)
    requires
        0 <= j <= p.len(),
        forall|i: int| 0 <= i < j ==> r_key(p[i]) != k,
        j < p.len() ==> r_key(p[j]) == k,
    ensures
        find_pending(p, k) == j,
{
    lemma_find_pending(p, k);
    let f = find_pending(p, k);
    if f < j {
        assert(r_key(p[f]) != k);
    }
    if j < f {
        assert(r_key(p[j]) != k);
    }
}

/// One step of the merge: fold measurement `m` into index `idx` and the
/// pending rows `pending`.
pub open spec fn merge_step(
    idx: Map<(int, int), u64>,
    pending: Seq<StoredRow>,
    m: Measurement,
    now: i64,
) -> (Map<(int, int), u64>, Seq<StoredRow>) {
    let k = m_key(m);
    if idx.contains_key(k) && idx[k] == m.value_bits {
        (idx, pending)
    } else {
        let j = find_pending(pending, k);
        let row = row_of(m, now);
        (
            idx.insert(k, m.value_bits),
            if j < pending.len() {
                pending.update(j, row)
            } else {
                pending.push(row)
            },
        )
    }
}

/// The index and pending rows after folding all of `ms`, in order, into the
/// starting index `idx0`.
pub open spec fn merge_state(
    idx0: Map<(int, int), u64>,
    ms: Seq<Measurement>,
    now: i64,
) -> (Map<(int, int), u64>, Seq<StoredRow>)
    decreases ms.len(),
{
    if ms.len() == 0 {
        (idx0, Seq::empty())
    } else {
        let st = merge_state(idx0, ms.drop_last(), now);
        merge_step(st.0, st.1, ms.last(), now)
    }
}

/// The rows that merging `ms` into a file whose index is `idx0` appends.
pub open spec fn merge_appended(
    idx0: Map<(int, int), u64>,
    ms: Seq<Measurement>,
    now: i64,
) -> Seq<StoredRow> {
    merge_state(idx0, ms, now).1
}

/// No two pending rows share a dedup key.
pub open spec fn unique_keys(p: Seq<StoredRow>) -> bool {
    forall|i: int, j: int| 0 <= i < j < p.len() ==> r_key(p[i]) != r_key(p[j])
}

/// Some pending row carries key `k`.
pub open spec fn pending_has_key(p: Seq<StoredRow>, k: (int, int)) -> bool {
    exists|i: int| 0 <= i < p.len() && r_key(p[i]) == k
}

/// Every pending row is current in `idx` and stamped with `now`.
pub open spec fn pending_matches(idx: Map<(int, int), u64>, p: Seq<StoredRow>, now: i64) -> bool {
    forall|i: int|
        0 <= i < p.len() ==> idx.contains_key(#[trigger] r_key(p[i])) && idx[r_key(p[i])]
            == p[i].value_bits && p[i].ingested_at == Some(now)
}

/// Key `k` reads the same under `idx` as under `idx0`.
pub open spec fn key_untouched(
    idx0: Map<(int, int), u64>,
    idx: Map<(int, int), u64>,
    k: (int, int),
) -> bool {
    (idx.contains_key(k) <==> idx0.contains_key(k)) && (idx0.contains_key(k) ==> idx[k] == idx0[k])
}

/// Keys without a pending row are exactly as the starting index had them.
pub open spec fn untouched_outside(
    idx0: Map<(int, int), u64>,
    idx: Map<(int, int), u64>,
    p: Seq<StoredRow>,
) -> bool {
    forall|k: (int, int)| !pending_has_key(p, k) ==> #[trigger] key_untouched(idx0, idx, k)
}

/// Every measurement of `ms` is already current in `idx`.
pub open spec fn all_current(idx: Map<(int, int), u64>, ms: Seq<Measurement>) -> bool {
    forall|i: int|
        0 <= i < ms.len() ==> idx.contains_key(#[trigger] m_key(ms[i])) && idx[m_key(ms[i])]
            == ms[i].value_bits
}

/// No two measurements of `ms` share a key with differing value bits.
pub open spec fn dup_consistent(ms: Seq<Measurement>) -> bool {
    forall|i: int, j: int|
        0 <= i < ms.len() && 0 <= j < ms.len() && #[trigger] m_key(ms[i]) == #[trigger] m_key(
            ms[j],
        ) ==> ms[i].value_bits == ms[j].value_bits
}

/// Structural invariants of the merge: pending keys are unique, every pending
/// row is current in the index and freshly stamped, and keys without a
/// pending row are untouched.
pub proof fn lemma_merge_state_invariants(idx0: Map<(int, int), u64>, ms: Seq<Measurement>, now: i64)
    ensures
        unique_keys(merge_state(idx0, ms, now).1),
        pending_matches(merge_state(idx0, ms, now).0, merge_state(idx0, ms, now).1, now),
        untouched_outside(idx0, merge_state(idx0, ms, now).0, merge_state(idx0, ms, now).1),
    decreases ms.len(),
{
    if ms.len() == 0 {
        assert(merge_state(idx0, ms, now).1.len() == 0);
    } else {
        lemma_merge_state_invariants(idx0, ms.drop_last(), now);
        let st = merge_state(idx0, ms.drop_last(), now);
        let idx1 = st.0;
        let p1 = st.1;
        let m = ms.last();
        let k = m_key(m);
        let fin = merge_state(idx0, ms, now);
        if idx1.contains_key(k) && idx1[k] == m.value_bits {
            assert(fin == st);
        } else {
            lemma_find_pending(p1, k);
            let j = find_pending(p1, k);
            let row = row_of(m, now);
            let idx2 = idx1.insert(k, m.value_bits);
            if j < p1.len() {
                let p2 = p1.update(j, row);
                assert(r_key(p1[j]) == k);
                assert(forall|i: int| 0 <= i < p2.len() ==> r_key(p2[i]) == r_key(p1[i]));
                assert(unique_keys(p2));
                assert forall|i: int| 0 <= i < p2.len() implies idx2.contains_key(
                    #[trigger] r_key(p2[i]),
                ) && idx2[r_key(p2[i])] == p2[i].value_bits && p2[i].ingested_at == Some(now) by {
                    if i != j {
                        assert(r_key(p1[i]) != k);
                    }
                }
                assert forall|kk: (int, int)| !pending_has_key(p2, kk) implies #[trigger] key_untouched(
                    idx0,
                    idx2,
                    kk,
                ) by {
                    assert(r_key(p2[j]) == k);
                    assert(kk != k);
                    assert forall|i: int| 0 <= i < p1.len() implies r_key(p1[i]) != kk by {
                        assert(r_key(p2[i]) == r_key(p1[i]));
                    }
                    assert(!pending_has_key(p1, kk));
                    assert(key_untouched(idx0, idx1, kk));
                }
            } else {
                let p2 = p1.push(row);
                assert(forall|i: int| 0 <= i < p1.len() ==> r_key(p2[i]) == r_key(p1[i]));
                assert(r_key(p2[p1.len() as int]) == k);
                assert forall|i1: int, i2: int| 0 <= i1 < i2 < p2.len() implies r_key(p2[i1])
                    != r_key(p2[i2]) by {
                    if i2 == p1.len() {
                        assert(r_key(p1[i1]) != k);
                    }
                }
                assert forall|i: int| 0 <= i < p2.len() implies idx2.contains_key(
                    #[trigger] r_key(p2[i]),
                ) && idx2[r_key(p2[i])] == p2[i].value_bits && p2[i].ingested_at == Some(now) by {
                    if i < p1.len() {
                        assert(r_key(p1[i]) != k);
                    }
                }
                assert forall|kk: (int, int)| !pending_has_key(p2, kk) implies #[trigger] key_untouched(
                    idx0,
                    idx2,
                    kk,
                ) by {
                    assert(r_key(p2[p1.len() as int]) == k);
                    assert(kk != k);
                    assert forall|i: int| 0 <= i < p1.len() implies r_key(p1[i]) != kk by {
                        assert(r_key(p2[i]) == r_key(p1[i]));
                    }
                    assert(!pending_has_key(p1, kk));
                    assert(key_untouched(idx0, idx1, kk));
                }
            }
        }
    }
}

/// After the merge, the index holds each measurement's bits at its key,
/// provided the batch never gave one key two different values.
pub proof fn lemma_merge_final_index_covers(
    idx0: Map<(int, int), u64>,
    ms: Seq<Measurement>,
    now: i64,
)
    requires
        dup_consistent(ms),
    ensures
        all_current(merge_state(idx0, ms, now).0, ms),
    decreases ms.len(),
{
    if ms.len() > 0 {
        assert(forall|i: int| 0 <= i < ms.len() - 1 ==> ms.drop_last()[i] == ms[i]);
        assert(dup_consistent(ms.drop_last()));
        lemma_merge_final_index_covers(idx0, ms.drop_last(), now);
        let st = merge_state(idx0, ms.drop_last(), now);
        let m = ms.last();
        let k = m_key(m);
        let fin = merge_state(idx0, ms, now);
        assert(fin.0.contains_key(k) && fin.0[k] == m.value_bits);
        assert forall|i: int| 0 <= i < ms.len() implies fin.0.contains_key(
            #[trigger] m_key(ms[i]),
        ) && fin.0[m_key(ms[i])] == ms[i].value_bits by {
            if i < ms.len() - 1 {
                assert(ms.drop_last()[i] == ms[i]);
                if m_key(ms[i]) == k {
                    assert(ms[i].value_bits == m.value_bits);
                } else {
                    assert(st.0.contains_key(m_key(ms[i])) && st.0[m_key(ms[i])]
                        == ms[i].value_bits);
                }
            }
        }
    }
}

/// Merging measurements that are all already current changes nothing: the
/// index stays as it was and nothing is appended.
pub proof fn lemma_merge_no_change(idx: Map<(int, int), u64>, ms: Seq<Measurement>, now: i64)
    requires
        all_current(idx, ms),
    ensures
        merge_state(idx, ms, now).0 == idx,
        merge_state(idx, ms, now).1 == Seq::<StoredRow>::empty(),
    decreases ms.len(),
{
    if ms.len() > 0 {
        assert(forall|i: int| 0 <= i < ms.len() - 1 ==> ms.drop_last()[i] == ms[i]);
        assert(all_current(idx, ms.drop_last()));
        lemma_merge_no_change(idx, ms.drop_last(), now);
        assert(m_key(ms.last()) == m_key(ms[ms.len() - 1]));
    }
}

/// The merge appends nothing exactly when every measurement was already
/// current in the starting index.
pub proof fn lemma_merge_unchanged_iff(idx0: Map<(int, int), u64>, ms: Seq<Measurement>, now: i64)
    ensures
        merge_appended(idx0, ms, now).len() == 0 <==> all_current(idx0, ms),
    decreases ms.len(),
{
    if ms.len() == 0 {
        assert(merge_state(idx0, ms, now).1.len() == 0);
    } else {
        lemma_merge_unchanged_iff(idx0, ms.drop_last(), now);
        lemma_merge_state_invariants(idx0, ms.drop_last(), now);
        let st = merge_state(idx0, ms.drop_last(), now);
        let m = ms.last();
        let k = m_key(m);
        let fin = merge_state(idx0, ms, now);
        assert(forall|i: int| 0 <= i < ms.len() - 1 ==> ms.drop_last()[i] == ms[i]);
        if fin.1.len() == 0 {
            // The pending rows never shrink, so the earlier state was empty too.
            if !(st.0.contains_key(k) && st.0[k] == m.value_bits) {
                lemma_find_pending(st.1, k);
                if find_pending(st.1, k) < st.1.len() {
                    assert(fin.1.len() == st.1.len());
                } else {
                    assert(fin.1.len() == st.1.len() + 1);
                }
                assert(false);
            }
            assert(st.1.len() == 0);
            assert(all_current(idx0, ms.drop_last()));
            // With nothing pending, the index never moved away from idx0.
            assert(!pending_has_key(st.1, k));
            assert(key_untouched(idx0, st.0, k));
            assert(idx0.contains_key(k) && idx0[k] == m.value_bits);
            assert forall|i: int| 0 <= i < ms.len() implies idx0.contains_key(
                #[trigger] m_key(ms[i]),
            ) && idx0[m_key(ms[i])] == ms[i].value_bits by {
                if i < ms.len() - 1 {
                    assert(ms.drop_last()[i] == ms[i]);
                }
            }
        }
        if all_current(idx0, ms) {
            lemma_merge_no_change(idx0, ms, now);
        }
    }
}

/// Appending rows with pairwise distinct keys to a file moves its index to
/// those rows' values and leaves every other key as it was.
pub proof fn lemma_index_concat_unique(a: Seq<StoredRow>, b: Seq<StoredRow>)
    requires
        unique_keys(b),
    ensures
        forall|i: int|
            0 <= i < b.len() ==> index_of_rows(a + b).contains_key(#[trigger] r_key(b[i]))
                && index_of_rows(a + b)[r_key(b[i])] == b[i].value_bits,
        forall|k: (int, int)|
            !pending_has_key(b, k) ==> #[trigger] key_untouched(
                index_of_rows(a),
                index_of_rows(a + b),
                k,
            ),
    decreases b.len(),
{
    if b.len() == 0 {
        assert(a + b =~= a);
    } else {
        let b1 = b.drop_last();
        assert(forall|i: int| 0 <= i < b1.len() ==> b1[i] == b[i]);
        assert(unique_keys(b1));
        lemma_index_concat_unique(a, b1);
        let last = b.last();
        let k = r_key(last);
        assert((a + b).drop_last() =~= a + b1);
        assert((a + b).last() == last);
        let idx1 = index_of_rows(a + b1);
        let idx2 = index_of_rows(a + b);
        assert(idx2 == idx1.insert(k, last.value_bits));
        assert forall|i: int| 0 <= i < b.len() implies idx2.contains_key(#[trigger] r_key(b[i]))
            && idx2[r_key(b[i])] == b[i].value_bits by {
            if i < b.len() - 1 {
                assert(r_key(b[i]) != k);
                assert(b1[i] == b[i]);
            }
        }
        assert forall|kk: (int, int)| !pending_has_key(b, kk) implies #[trigger] key_untouched(
            index_of_rows(a),
            idx2,
            kk,
        ) by {
            assert(r_key(b[b.len() - 1]) == k);
            assert(kk != k);
            assert forall|i: int| 0 <= i < b1.len() implies r_key(b1[i]) != kk by {
                assert(b1[i] == b[i]);
            }
            assert(!pending_has_key(b1, kk));
            assert(key_untouched(index_of_rows(a), idx1, kk));
        }
    }
}

/// Idempotence of saving: once a batch has been merged and its appended rows
/// written, merging the identical batch again appends nothing, so the second
/// save performs no write. The batch may not give one key two different
/// values: within one call only the last value for a key is persisted, so
/// such a batch is never fully reflected in the file and would append again.
pub proof fn lemma_save_idempotent(
    existing: Seq<StoredRow>,
    ms: Seq<Measurement>,
    now1: i64,
    now2: i64,
)
    requires
        dup_consistent(ms),
    ensures
        merge_appended(
            index_of_rows(existing + merge_appended(index_of_rows(existing), ms, now1)),
            ms,
            now2,
        ) == Seq::<StoredRow>::empty(),
{
    let idx0 = index_of_rows(existing);
    let st = merge_state(idx0, ms, now1);
    let idxf = st.0;
    let app1 = st.1;
    lemma_merge_state_invariants(idx0, ms, now1);
    lemma_merge_final_index_covers(idx0, ms, now1);
    lemma_index_concat_unique(existing, app1);
    let idx1 = index_of_rows(existing + app1);
    assert forall|i: int| 0 <= i < ms.len() implies idx1.contains_key(#[trigger] m_key(ms[i]))
        && idx1[m_key(ms[i])] == ms[i].value_bits by {
        let k = m_key(ms[i]);
        assert(idxf.contains_key(k) && idxf[k] == ms[i].value_bits);
        if pending_has_key(app1, k) {
            let p = choose|p: int| 0 <= p < app1.len() && r_key(app1[p]) == k;
            assert(idx1.contains_key(r_key(app1[p])) && idx1[r_key(app1[p])]
                == app1[p].value_bits);
            assert(idxf.contains_key(r_key(app1[p])) && idxf[r_key(app1[p])]
                == app1[p].value_bits);
        } else {
            assert(key_untouched(idx0, idx1, k));
            assert(key_untouched(idx0, idxf, k));
        }
    }
    lemma_merge_no_change(idx1, ms, now2);
}

/// A measurement whose key is absent, or stored with different bits, appends
/// exactly one row, stamped with the merge's ingestion time; the rows already
/// stored are never touched, so the old value's history remains.
pub proof fn lemma_changed_value_appends(existing: Seq<StoredRow>, m: Measurement, now: i64)
    requires
        !(index_of_rows(existing).contains_key(m_key(m)) && index_of_rows(existing)[m_key(m)]
            == m.value_bits),
    ensures
        merge_appended(index_of_rows(existing), seq![m], now) == seq![row_of(m, now)],
        existing + merge_appended(index_of_rows(existing), seq![m], now) == existing.push(
            row_of(m, now),
        ),
{
    let idx0 = index_of_rows(existing);
    let ms = seq![m];
    assert(ms.drop_last() =~= Seq::<Measurement>::empty());
    assert(ms.last() == m);
    assert(merge_state(idx0, ms.drop_last(), now) == (idx0, Seq::<StoredRow>::empty()));
    assert(merge_appended(idx0, ms, now) =~= seq![row_of(m, now)]);
    assert(existing + seq![row_of(m, now)] =~= existing.push(row_of(m, now)));
}

/// Batch collapse: two measurements of one call sharing a key but differing
/// in value bits persist only the later one — the earlier value never
/// reaches the file, whatever the file held before.
pub proof fn lemma_batch_collapse(
    existing: Seq<StoredRow>,
    m1: Measurement,
    m2: Measurement,
    now: i64,
)
    requires
        m_key(m1) == m_key(m2),
        m1.value_bits != m2.value_bits,
    ensures
        merge_appended(index_of_rows(existing), seq![m1, m2], now) == seq![row_of(m2, now)],
{
    let idx0 = index_of_rows(existing);
    let ms = seq![m1, m2];
    let k = m_key(m1);
    assert(ms.drop_last() =~= seq![m1]);
    assert(ms.last() == m2);
    assert(seq![m1].drop_last() =~= Seq::<Measurement>::empty());
    assert(seq![m1].last() == m1);
    let st1 = merge_state(idx0, seq![m1], now);
    assert(merge_state(idx0, Seq::<Measurement>::empty(), now) == (
        idx0,
        Seq::<StoredRow>::empty(),
    ));
    if idx0.contains_key(k) && idx0[k] == m1.value_bits {
        assert(st1 == (idx0, Seq::<StoredRow>::empty()));
        assert(merge_appended(idx0, ms, now) =~= seq![row_of(m2, now)]);
    } else {
        assert(st1.1 =~= seq![row_of(m1, now)]);
        assert(st1.0 == idx0.insert(k, m1.value_bits));
        assert(st1.0[k] == m1.value_bits);
        assert(r_key(st1.1[0]) == k);
        assert(find_pending(st1.1, k) == 0);
        assert(st1.1.update(0, row_of(m2, now)) =~= seq![row_of(m2, now)]);
        assert(merge_appended(idx0, ms, now) =~= seq![row_of(m2, now)]);
    }
}

/// The outcome of one partition merge: the rows to append, and whether the
/// file changed at all. When `changed` is false no file may be written.
pub struct MergeOutcome {
    pub appended: Vec<StoredRow>,
    pub changed: bool,
}

/// The first position in `pending` holding key `(start, end)`, or its length.
fn find_in_pending(pending: &Vec<StoredRow>, start: i64, end: i64) -> (r: usize)
    ensures
        r as int == find_pending(pending@, (start as int, end as int)),
        r <= pending.len(),
{
    let ghost k: (int, int) = (start as int, end as int);
    let mut i: usize = 0;
    while i < pending.len()
        invariant
            i <= pending.len(),
            k == (start as int, end as int),
            forall|j: int| 0 <= j < i ==> r_key(pending@[j]) != k,
        decreases pending.len() - i,
    {
        let row = pending[i];
        if row.start_micros == start && row.end_micros == end {
            proof {
                lemma_find_pending_is(pending@, k, i as int);
            }
            return i;
        }
        i = i + 1;
    }
    proof {
        lemma_find_pending_is(pending@, k, pending@.len() as int);
    }
    i
}

/// Merge `incoming` into a partition whose stored rows are `existing`,
/// stamping any appended rows with `now_micros`.
///
/// The appended rows are exactly what the merge fold yields; the merge
/// changed the partition exactly when some incoming measurement was not
/// already current under its dedup key.
pub fn merge_rows(existing: &Vec<StoredRow>, incoming: &Vec<Measurement>, now_micros: i64) -> (r:
    MergeOutcome)
    ensures
        r.appended@ == merge_appended(index_of_rows(existing@), incoming@, now_micros),
        r.changed == (r.appended@.len() > 0),
        r.changed == !all_current(index_of_rows(existing@), incoming@),
{
    let mut index = DedupIndex::new();
    let mut i: usize = 0;
    while i < existing.len()
        invariant
            i <= existing.len(),
            index.view_map() == index_of_rows(existing@.take(i as int)),
        decreases existing.len() - i,
    {
        let row = existing[i];
        index.insert(row.start_micros, row.end_micros, row.value_bits);
        proof {
            assert(existing@.take(i + 1 as int).drop_last() =~= existing@.take(i as int));
            assert(existing@.take(i + 1 as int).last() == existing@[i as int]);
        }
        i = i + 1;
    }
    proof {
        assert(existing@.take(existing@.len() as int) =~= existing@);
    }
    let ghost idx0 = index_of_rows(existing@);

    let mut appended: Vec<StoredRow> = Vec::new();
    let mut j: usize = 0;
    while j < incoming.len()
        invariant
            j <= incoming.len(),
            idx0 == index_of_rows(existing@),
            index.view_map() == merge_state(idx0, incoming@.take(j as int), now_micros).0,
            appended@ == merge_state(idx0, incoming@.take(j as int), now_micros).1,
        decreases incoming.len() - j,
    {
        let m = incoming[j];
        proof {
            assert(incoming@.take(j + 1 as int).drop_last() =~= incoming@.take(j as int));
            assert(incoming@.take(j + 1 as int).last() == incoming@[j as int]);
        }
        let current = index.lookup(m.start_micros, m.end_micros);
        let is_changed = match current {
            Some(bits) => bits != m.value_bits,
            None => true,
        };
        if is_changed {
            index.insert(m.start_micros, m.end_micros, m.value_bits);
            let row = StoredRow {
                start_micros: m.start_micros,
                end_micros: m.end_micros,
                value_bits: m.value_bits,
                ingested_at: Some(now_micros),
            };
            let pos = find_in_pending(&appended, m.start_micros, m.end_micros);
            if pos < appended.len() {
                appended.set(pos, row);
            } else {
                appended.push(row);
            }
        }
        j = j + 1;
    }
    proof {
        assert(incoming@.take(incoming@.len() as int) =~= incoming@);
        lemma_merge_unchanged_iff(idx0, incoming@, now_micros);
    }
    let changed = appended.len() > 0;
    MergeOutcome { appended, changed }
}

} // verus!
