//! Retention: which day partitions fall outside the retention window.
//!
//! The store's directory tree encodes a partition's civil date in its
//! directory names: a `day=DD` directory under a `month=MM` directory under a
//! `year=YYYY` directory. Cleanup walks the tree; a day directory whose three
//! components parse, and whose date falls strictly before the cutoff date, is
//! deleted with its contents. A directory that does not follow the naming
//! convention is traversed but never interpreted or deleted by date.

use vstd::prelude::*;

use vstd::string::StrSliceExecFns;
use crate::civil::CivilDate;
use crate::civil::civil_date_minus_days;
use crate::civil::civil_minus_days;
use crate::civil::civil_ymd_of_micros;
use crate::civil::date_is_before;
use crate::civil::date_lt;
use crate::civil::local_civil_ymd;
use crate::paths::starts_with;

verus! {

/// `c` is a decimal digit.
pub open spec fn is_digit(c: char) -> bool {
    48 <= c as int <= 57
}

/// The value of one digit character.
pub open spec fn digit_val(c: char) -> int {
    c as int - 48
}

/// Every character of `s` is a decimal digit.
pub open spec fn all_digits(s: Seq<char>) -> bool {
    forall|i: int| 0 <= i < s.len() ==> is_digit(#[trigger] s[i])
}

/// The number that the digit characters of `s` denote.
pub open spec fn digits_val(s: Seq<char>) -> int
    decreases s.len(),
{
    if s.len() == 0 {
        0
    } else {
        digits_val(s.drop_last()) * 10 + digit_val(s.last())
    }
}

/// A digit string denotes a non-negative number.
proof fn lemma_digits_val_nonneg(s: Seq<char>)
    requires
        all_digits(s),
    ensures
        digits_val(s) >= 0,
    decreases s.len(),
{
    if s.len() > 0 {
        assert(forall|i: int| 0 <= i < s.len() - 1 ==> s.drop_last()[i] == s[i]);
        lemma_digits_val_nonneg(s.drop_last());
        assert(is_digit(s[s.len() - 1]));
    }
}

/// A digit string denotes at least what any of its prefixes denotes.
proof fn lemma_digits_val_prefix_le(s: Seq<char>, i: int)
    requires
        all_digits(s),
        0 <= i <= s.len(),
    ensures
        digits_val(s.take(i)) <= digits_val(s),
    decreases s.len() - i,
{
    if i == s.len() {
        assert(s.take(i) =~= s);
    } else {
        assert(s.take(i + 1).drop_last() =~= s.take(i));
        assert(s.take(i + 1).last() == s[i]);
        assert(forall|j: int| 0 <= j < i + 1 ==> s.take(i + 1)[j] == s[j]);
        assert(all_digits(s.take(i)));
        lemma_digits_val_nonneg(s.take(i));
        assert(is_digit(s[i]));
        assert(digits_val(s.take(i + 1)) >= digits_val(s.take(i)));
        lemma_digits_val_prefix_le(s, i + 1);
    }
}

/// Parse a non-empty, all-digit string whose value fits a `u32`; anything
/// else is rejected.
fn parse_decimal(s: &str) -> (r: Option<u32>)
    ensures
        (r is Some) == (s@.len() > 0 && all_digits(s@) && digits_val(s@) <= u32::MAX as int),
        r matches Some(v) ==> digits_val(s@) == v as int,
{
    let n = s.unicode_len();
    if n == 0 {
        return None;
    }
    let mut acc: u64 = 0;
    let mut i: usize = 0;
    while i < n
        invariant
            i <= n,
            n == s@.len(),
            n > 0,
            all_digits(s@.take(i as int)),
            acc as int == digits_val(s@.take(i as int)),
            acc <= u32::MAX as u64,
        decreases n - i,
    {
        let c = s.get_char(i);
        let code = c as u32;
        if code < 48 || code > 57 {
            proof {
                assert(!is_digit(s@[i as int]));
            }
            return None;
        }
        let d = (code - 48) as u64;
        proof {
            assert(s@.take(i + 1 as int).drop_last() =~= s@.take(i as int));
            assert(s@.take(i + 1 as int).last() == s@[i as int]);
            assert forall|j: int| 0 <= j < i + 1 implies is_digit(
                #[trigger] s@.take(i + 1 as int)[j],
            ) by {
                if j < i {
                    assert(s@.take(i as int)[j] == s@.take(i + 1 as int)[j]);
                }
            }
        }
        let next: u64 = acc * 10 + d;
        proof {
            assert(next as int == digits_val(s@.take(i + 1 as int)));
        }
        if next > u32::MAX as u64 {
            proof {
                if all_digits(s@) {
                    lemma_digits_val_prefix_le(s@, i + 1 as int);
                }
            }
            return None;
        }
        acc = next;
        i = i + 1;
    }
    proof {
        assert(s@.take(n as int) =~= s@);
    }
    Some(acc as u32)
}

/// The number that a directory name `{prefix}{digits}` encodes, if the name
/// has that shape and the digits fit a `u32`.
pub open spec fn date_part_spec(name: Seq<char>, prefix: Seq<char>) -> Option<int> {
    if starts_with(name, prefix) && name.skip(prefix.len() as int).len() > 0 && all_digits(
        name.skip(prefix.len() as int),
    ) && digits_val(name.skip(prefix.len() as int)) <= u32::MAX as int {
        Some(digits_val(name.skip(prefix.len() as int)))
    } else {
        None
    }
}

/// Extract the numeric part of a directory name of the form
/// `{prefix}{digits}`.
pub fn extract_date_part(name: &str, prefix: &str) -> (r: Option<u32>)
    ensures
        (r is Some) == (date_part_spec(name@, prefix@) is Some),
        r matches Some(v) ==> date_part_spec(name@, prefix@) == Some(v as int),
{
    let prefix_len = prefix.unicode_len();
    let name_len = name.unicode_len();
    if prefix_len > name_len {
        return None;
    }
    let mut i: usize = 0;
    while i < prefix_len
        invariant
            i <= prefix_len,
            prefix_len == prefix@.len(),
            name_len == name@.len(),
            prefix_len <= name_len,
            forall|j: int| 0 <= j < i ==> name@[j] == prefix@[j],
        decreases prefix_len - i,
    {
        let a = name.get_char(i);
        let b = prefix.get_char(i);
        if a != b {
            proof {
                assert(name@.take(prefix_len as int)[i as int] != prefix@[i as int]);
            }
            return None;
        }
        i = i + 1;
    }
    proof {
        assert(name@.take(prefix_len as int) =~= prefix@);
    }
    let rest = name.substring_char(prefix_len, name_len);
    proof {
        assert(rest@ =~= name@.skip(prefix@.len() as int));
    }
    parse_decimal(rest)
}

/// The civil date that a day directory's name and its parent and grandparent
/// names encode: all three components must parse, the year must fit the
/// year's range, and the month and day must name a calendar month and day.
pub open spec fn day_dir_date(day: Seq<char>, month: Seq<char>, year: Seq<char>) -> Option<
    CivilDate,
> {
    let d = date_part_spec(day, "day="@);
    let m = date_part_spec(month, "month="@);
    let y = date_part_spec(year, "year="@);
    if d is Some && m is Some && y is Some && y.unwrap() <= i32::MAX as int && 1 <= m.unwrap()
        <= 12 && 1 <= d.unwrap() <= 31 {
        Some(
            CivilDate {
                year: y.unwrap() as i32,
                month: m.unwrap() as u32,
                day: d.unwrap() as u32,
            },
        )
    } else {
        None
    }
}

/// Whether a day directory falls outside the retention window and is to be
/// deleted: its names encode a civil date and that date falls strictly
/// before `cutoff`. A date equal to the cutoff is retained; names that do not
/// follow the convention never qualify.
pub fn day_dir_outside_retention(
    day_name: &str,
    month_name: &str,
    year_name: &str,
    cutoff: CivilDate,
) -> (r: bool)
    ensures
        r == match day_dir_date(day_name@, month_name@, year_name@) {
            Some(d) => date_lt(d, cutoff),
            None => false,
        },
{
    let d = extract_date_part(day_name, "day=");
    let m = extract_date_part(month_name, "month=");
    let y = extract_date_part(year_name, "year=");
    match (d, m, y) {
        (Some(dv), Some(mv), Some(yv)) => {
            if yv <= i32::MAX as u32 && 1 <= mv && mv <= 12 && 1 <= dv && dv <= 31 {
                let dir_date = CivilDate { year: yv as i32, month: mv, day: dv };
                date_is_before(dir_date, cutoff)
            } else {
                false
            }
        },
        _ => false,
    }
}

/// The cutoff date of a cleanup run: today's civil date in the reference
/// timezone, minus `retention_days` calendar days. A partition dated strictly
/// before it is outside the retention window; one dated on it is the oldest
/// retained. `None` exactly where the instant has no civil date or the
/// subtraction leaves the year's machine range.
pub fn retention_cutoff_date(now_micros: i64, retention_days: u64) -> (r: Option<CivilDate>)
    ensures
        r matches Some(c) ==> (local_civil_ymd(now_micros as int) matches Some(today) && c.key()
            == civil_minus_days(today, retention_days as nat) && c.valid()),
        r is None ==> (local_civil_ymd(now_micros as int) is None || (local_civil_ymd(
            now_micros as int,
        ) matches Some(today) && civil_minus_days(today, retention_days as nat).0
            < i32::MIN as int)),
{
    match civil_ymd_of_micros(now_micros) {
        None => None,
        Some(ymd) => {
            let today = CivilDate { year: ymd.0, month: ymd.1, day: ymd.2 };
            civil_date_minus_days(today, retention_days)
        },
    }
}

} // verus!
