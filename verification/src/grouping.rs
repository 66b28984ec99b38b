//! Grouping a batch of measurements by partition key.
//!
//! Each measurement belongs to exactly one partition: the one of its start
//! timestamp's civil date in the reference timezone. A save call first splits
//! its batch into per-date groups, keeping the batch's order within each
//! group, then merges each group into its partition file.

use vstd::prelude::*;

use crate::civil::civil_ymd_of_micros;
use crate::civil::local_civil_ymd;
use crate::rows::Measurement;

verus! {

/// An error of the store's own logic.
#[derive(Clone, Copy, PartialEq, Eq, Structural, Debug)]
pub enum StoreError {
    /// A measurement's start timestamp lies outside the calendar's range, so
    /// no partition can be resolved for it.
    TimestampOutOfRange,
}

/// The measurements of one batch destined for one civil-day partition.
pub struct PartitionGroup {
    pub year: i32,
    pub month: u32,
    pub day: u32,
    pub records: Vec<Measurement>,
}

impl PartitionGroup {
    /// The group's partition key triple.
    pub open spec fn key(self) -> (int, int, int) {
        (self.year as int, self.month as int, self.day as int)
    }
}

/// Measurement `m` resolves to the civil date `k`.
pub open spec fn civil_key_is(m: Measurement, k: (int, int, int)) -> bool {
    local_civil_ymd(m.start_micros as int) == Some(k)
}

/// The key triple of one first-pass entry.
pub open spec fn entry_key(e: (i32, u32, u32)) -> (int, int, int) {
    (e.0 as int, e.1 as int, e.2 as int)
}

/// The subsequence of `s` that resolves to the civil date `k`, in order.
pub open spec fn records_with_key(s: Seq<Measurement>, k: (int, int, int)) -> Seq<Measurement>
    decreases s.len(),
{
    if s.len() == 0 {
        Seq::empty()
    } else {
        let rest = records_with_key(s.drop_last(), k);
        if civil_key_is(s.last(), k) {
            rest.push(s.last())
        } else {
            rest
        }
    }
}

/// A sequence with an element resolving to `k` yields a non-empty group.
pub proof fn lemma_records_with_key_present(s: Seq<Measurement>, k: (int, int, int), j: int)
    requires
        0 <= j < s.len(),
        civil_key_is(s[j], k),
    ensures
        records_with_key(s, k).len() > 0,
    decreases s.len(),
{
    if j == s.len() - 1 {
        assert(civil_key_is(s.last(), k));
    } else {
        assert(s.drop_last()[j] == s[j]);
        lemma_records_with_key_present(s.drop_last(), k, j);
    }
}

/// Some group of `groups` carries the civil date of `m`.
pub open spec fn has_group(groups: Seq<PartitionGroup>, m: Measurement) -> bool {
    exists|g: int| 0 <= g < groups.len() && civil_key_is(m, groups[g].key())
}

/// The first position in `keys` equal to `(y, m, d)`, or the length.
fn find_key(keys: &Vec<(i32, u32, u32)>, y: i32, m: u32, d: u32) -> (r: usize)
    ensures
        r <= keys.len(),
        r < keys.len() ==> keys@[r as int] == (y, m, d),
        forall|i: int| 0 <= i < r ==> keys@[i] != (y, m, d),
{
    let mut i: usize = 0;
    while i < keys.len()
        invariant
            i <= keys.len(),
            forall|j: int| 0 <= j < i ==> keys@[j] != (y, m, d),
        decreases keys.len() - i,
    {
        let k = keys[i];
        if k.0 == y && k.1 == m && k.2 == d {
            return i;
        }
        i = i + 1;
    }
    i
}

/// The distinct civil dates of the batch, in first-seen order, or the error
/// where some start timestamp has no civil date. Beside the keys come two
/// ghost witness tables: the key position of every measurement, and a
/// measurement position for every key.
fn collect_keys(data: &Vec<Measurement>) -> (r: Result<
    (Vec<(i32, u32, u32)>, Ghost<Seq<int>>, Ghost<Seq<int>>),
    StoreError,
>)
    ensures
        r matches Ok(p) ==> {
            &&& forall|g: int, h: int| 0 <= g < h < p.0@.len() ==> p.0@[g] != p.0@[h]
            &&& p.1@.len() == data@.len()
            &&& forall|j: int|
                0 <= j < data@.len() ==> 0 <= #[trigger] p.1@[j] < p.0@.len() && civil_key_is(
                    data@[j],
                    entry_key(p.0@[p.1@[j]]),
                )
            &&& p.2@.len() == p.0@.len()
            &&& forall|g: int|
                0 <= g < p.0@.len() ==> 0 <= #[trigger] p.2@[g] < data@.len() && civil_key_is(
                    data@[p.2@[g]],
                    entry_key(p.0@[g]),
                )
            &&& forall|g: int|
                0 <= g < p.0@.len() ==> 1 <= (#[trigger] p.0@[g]).1 <= 12 && 1 <= p.0@[g].2 <= 31
        },
        r matches Err(e) ==> e == StoreError::TimestampOutOfRange && exists|i: int|
            0 <= i < data@.len() && local_civil_ymd(#[trigger] data@[i].start_micros as int) is None,
{
    let mut keys: Vec<(i32, u32, u32)> = Vec::new();
    let ghost mut asg: Seq<int> = Seq::empty();
    let ghost mut wit: Seq<int> = Seq::empty();
    let mut i: usize = 0;
    while i < data.len()
        invariant
            i <= data.len(),
            forall|g: int, h: int| 0 <= g < h < keys@.len() ==> keys@[g] != keys@[h],
            asg.len() == i,
            forall|j: int|
                0 <= j < i ==> 0 <= #[trigger] asg[j] < keys@.len() && civil_key_is(
                    data@[j],
                    entry_key(keys@[asg[j]]),
                ),
            wit.len() == keys@.len(),
            forall|g: int|
                0 <= g < keys@.len() ==> 0 <= #[trigger] wit[g] < i && civil_key_is(
                    data@[wit[g]],
                    entry_key(keys@[g]),
                ),
            forall|g: int|
                0 <= g < keys@.len() ==> 1 <= (#[trigger] keys@[g]).1 <= 12 && 1 <= keys@[g].2
                    <= 31,
        decreases data.len() - i,
    {
        let m = data[i];
        match civil_ymd_of_micros(m.start_micros) {
            None => {
                return Err(StoreError::TimestampOutOfRange);
            },
            Some(ymd) => {
                let ghost old_keys = keys@;
                let pos = find_key(&keys, ymd.0, ymd.1, ymd.2);
                let ghost w: int = if pos < keys.len() {
                    pos as int
                } else {
                    old_keys.len() as int
                };
                if pos == keys.len() {
                    keys.push((ymd.0, ymd.1, ymd.2));
                    proof {
                        wit = wit.push(i as int);
                    }
                }
                proof {
                    asg = asg.push(w);
                    assert(forall|g: int| 0 <= g < old_keys.len() ==> keys@[g] == old_keys[g]);
                    assert(keys@[w] == (ymd.0, ymd.1, ymd.2));
                    assert(civil_key_is(data@[i as int], entry_key(keys@[w])));
                    assert(forall|j: int| 0 <= j < i ==> asg[j] == asg.drop_last()[j]);
                    assert(forall|g: int|
                        0 <= g < old_keys.len() && wit.len() > old_keys.len() ==> wit[g]
                            == wit.drop_last()[g]);
                }
            },
        }
        i = i + 1;
    }
    Ok((keys, Ghost(asg), Ghost(wit)))
}

/// The batch's measurements whose civil date is `key`, in batch order.
fn collect_group(data: &Vec<Measurement>, key: (i32, u32, u32)) -> (r: Vec<Measurement>)
    ensures
        r@ == records_with_key(data@, entry_key(key)),
{
    let mut records: Vec<Measurement> = Vec::new();
    let mut j: usize = 0;
    while j < data.len()
        invariant
            j <= data.len(),
            records@ == records_with_key(data@.take(j as int), entry_key(key)),
        decreases data.len() - j,
    {
        let m = data[j];
        proof {
            assert(data@.take(j + 1 as int).drop_last() =~= data@.take(j as int));
            assert(data@.take(j + 1 as int).last() == data@[j as int]);
        }
        match civil_ymd_of_micros(m.start_micros) {
            None => {
                proof {
                    assert(!civil_key_is(data@[j as int], entry_key(key)));
                }
            },
            Some(ymd) => {
                proof {
                    assert(civil_key_is(
                        data@[j as int],
                        (ymd.0 as int, ymd.1 as int, ymd.2 as int),
                    ));
                }
                if ymd.0 == key.0 && ymd.1 == key.1 && ymd.2 == key.2 {
                    records.push(m);
                } else {
                    proof {
                        assert(!civil_key_is(data@[j as int], entry_key(key)));
                    }
                }
            },
        }
        j = j + 1;
    }
    proof {
        assert(data@.take(data@.len() as int) =~= data@);
    }
    records
}

/// Split `data` into its per-partition groups.
///
/// On success every batch measurement resolves to a civil date and lands in
/// exactly one group: the groups carry pairwise distinct dates, each group
/// holds precisely the batch's measurements of its date in batch order, and
/// no group is empty. The call fails exactly when some measurement's start
/// timestamp has no civil date.
pub fn group_records(data: &Vec<Measurement>) -> (r: Result<Vec<PartitionGroup>, StoreError>)
    ensures
        r matches Ok(groups) ==> {
            &&& forall|g: int, h: int|
                0 <= g < h < groups@.len() ==> (#[trigger] groups@[g].key()) != (
                #[trigger] groups@[h].key())
            &&& forall|g: int|
                0 <= g < groups@.len() ==> (#[trigger] groups@[g]).records@ == records_with_key(
                    data@,
                    groups@[g].key(),
                )
            &&& forall|i: int| 0 <= i < data@.len() ==> has_group(groups@, #[trigger] data@[i])
            &&& forall|g: int|
                0 <= g < groups@.len() ==> 1 <= (#[trigger] groups@[g]).month <= 12 && 1
                    <= groups@[g].day <= 31
            &&& forall|g: int| 0 <= g < groups@.len() ==> (#[trigger] groups@[g]).records@.len() > 0
        },
        r matches Err(e) ==> e == StoreError::TimestampOutOfRange && exists|i: int|
            0 <= i < data@.len() && local_civil_ymd(#[trigger] data@[i].start_micros as int) is None,
{
    let (keys, asg, wit) = match collect_keys(data) {
        Err(e) => {
            return Err(e);
        },
        Ok(p) => p,
    };
    let mut groups: Vec<PartitionGroup> = Vec::new();
    let mut g: usize = 0;
    while g < keys.len()
        invariant
            g <= keys.len(),
            groups@.len() == g,
            forall|h: int| 0 <= h < g ==> (#[trigger] groups@[h]).key() == entry_key(keys@[h]),
            forall|h: int|
                0 <= h < g ==> (#[trigger] groups@[h]).records@ == records_with_key(
                    data@,
                    groups@[h].key(),
                ),
            forall|h: int|
                0 <= h < g ==> (#[trigger] groups@[h]).month == keys@[h].1 && groups@[h].day
                    == keys@[h].2,
        decreases keys.len() - g,
    {
        let key = keys[g];
        let records = collect_group(data, key);
        groups.push(PartitionGroup { year: key.0, month: key.1, day: key.2, records });
        g = g + 1;
    }

    proof {
        assert forall|g1: int, h1: int| 0 <= g1 < h1 < groups@.len() implies (
        #[trigger] groups@[g1].key()) != (#[trigger] groups@[h1].key()) by {
            assert(keys@[g1] != keys@[h1]);
        }
        assert forall|x: int| 0 <= x < data@.len() implies has_group(
            groups@,
            #[trigger] data@[x],
        ) by {
            let gg = asg@[x];
            assert(groups@[gg].key() == entry_key(keys@[gg]));
            assert(civil_key_is(data@[x], groups@[gg].key()));
        }
        assert forall|h: int| 0 <= h < groups@.len() implies (
        #[trigger] groups@[h]).records@.len() > 0 by {
            let j = wit@[h];
            assert(civil_key_is(data@[j], entry_key(keys@[h])));
            lemma_records_with_key_present(data@, groups@[h].key(), j);
        }
        assert forall|h: int| 0 <= h < groups@.len() implies 1 <= (#[trigger] groups@[h]).month
            <= 12 && 1 <= groups@[h].day <= 31 by {
            assert(1 <= keys@[h].1 <= 12 && 1 <= keys@[h].2 <= 31);
        }
    }
    Ok(groups)
}

} // verus!
