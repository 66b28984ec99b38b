//! Partition file paths and remote object keys.
//!
//! A partition lives at `{base}/{folder}/year={Y}/month={MM}/day={DD}/data.parquet`
//! with month and day zero-padded to two digits. The remote key of a file
//! mirrors the local layout one-to-one: the local root is stripped and the
//! remote prefix put in its place, the rest of the path kept verbatim.

use vstd::prelude::*;

use vstd::string::StrSliceExecFns;
use vstd::string::StringExecFns;

verus! {

/// The character of one decimal digit.
pub open spec fn digit_char(d: int) -> char {
    if d == 0 {
        '0'
    } else if d == 1 {
        '1'
    } else if d == 2 {
        '2'
    } else if d == 3 {
        '3'
    } else if d == 4 {
        '4'
    } else if d == 5 {
        '5'
    } else if d == 6 {
        '6'
    } else if d == 7 {
        '7'
    } else if d == 8 {
        '8'
    } else {
        '9'
    }
}

/// The decimal digits of a non-negative number, most significant first.
pub open spec fn dec_digits(n: int) -> Seq<char>
    decreases n,
{
    if n < 10 {
        seq![digit_char(n)]
    } else {
        dec_digits(n / 10).push(digit_char(n % 10))
    }
}

/// A number rendered to at least two digits, zero-padded.
pub open spec fn padded2_digits(n: int) -> Seq<char> {
    if 0 <= n < 10 {
        seq!['0', digit_char(n)]
    } else {
        dec_digits(n)
    }
}

/// A signed number in decimal.
pub open spec fn signed_digits(n: int) -> Seq<char> {
    if n < 0 {
        seq!['-'] + dec_digits(-n)
    } else {
        dec_digits(n)
    }
}

/// Append one decimal digit.
fn append_digit(out: &mut String, d: u64)
    requires
        d < 10,
    ensures
        final(out)@ == old(out)@ + seq![digit_char(d as int)],
{
    proof {
        reveal_strlit("0");
        reveal_strlit("1");
        reveal_strlit("2");
        reveal_strlit("3");
        reveal_strlit("4");
        reveal_strlit("5");
        reveal_strlit("6");
        reveal_strlit("7");
        reveal_strlit("8");
        reveal_strlit("9");
    }
    if d == 0 {
        out.append("0");
    } else if d == 1 {
        out.append("1");
    } else if d == 2 {
        out.append("2");
    } else if d == 3 {
        out.append("3");
    } else if d == 4 {
        out.append("4");
    } else if d == 5 {
        out.append("5");
    } else if d == 6 {
        out.append("6");
    } else if d == 7 {
        out.append("7");
    } else if d == 8 {
        out.append("8");
    } else {
        out.append("9");
    }
    proof {
        assert(out@ =~= old(out)@ + seq![digit_char(d as int)]);
    }
}

/// Append a number in decimal.
fn append_u64_dec(out: &mut String, n: u64)
    ensures
        final(out)@ == old(out)@ + dec_digits(n as int),
    decreases n,
{
    if n >= 10 {
        append_u64_dec(out, n / 10);
    }
    append_digit(out, n % 10);
    proof {
        if n >= 10 {
            assert(dec_digits(n as int) == dec_digits(n as int / 10).push(
                digit_char(n as int % 10),
            ));
            assert(out@ =~= old(out)@ + dec_digits(n as int));
        } else {
            assert(out@ =~= old(out)@ + dec_digits(n as int));
        }
    }
}

/// Append a number zero-padded to at least two digits.
fn append_padded2(out: &mut String, n: u32)
    ensures
        final(out)@ == old(out)@ + padded2_digits(n as int),
{
    if n < 10 {
        proof {
            reveal_strlit("0");
        }
        out.append("0");
        append_digit(out, n as u64);
        proof {
            assert(out@ =~= old(out)@ + padded2_digits(n as int));
        }
    } else {
        append_u64_dec(out, n as u64);
    }
}

/// Append a signed number in decimal.
fn append_signed_dec(out: &mut String, n: i32)
    ensures
        final(out)@ == old(out)@ + signed_digits(n as int),
{
    if n < 0 {
        proof {
            reveal_strlit("-");
        }
        out.append("-");
        let magnitude: u64 = (-(n as i64)) as u64;
        append_u64_dec(out, magnitude);
        proof {
            assert(magnitude as int == -(n as int));
            assert(out@ =~= old(out)@ + signed_digits(n as int));
        }
    } else {
        append_u64_dec(out, n as u64);
    }
}

/// The characters of a partition file's path.
pub open spec fn partition_path_chars(
    base: Seq<char>,
    folder: Seq<char>,
    year: int,
    month: int,
    day: int,
) -> Seq<char> {
    base + "/"@ + folder + "/year="@ + signed_digits(year) + "/month="@ + padded2_digits(month)
        + "/day="@ + padded2_digits(day) + "/data.parquet"@
}

/// The path of the partition file of civil date `(year, month, day)` under
/// `folder` in the store rooted at `base`.
pub fn partition_path(base: &str, folder: &str, year: i32, month: u32, day: u32) -> (r: String)
    ensures
        r@ == partition_path_chars(base@, folder@, year as int, month as int, day as int),
{
    let mut out = base.to_owned();
    out.append("/");
    out.append(folder);
    out.append("/year=");
    append_signed_dec(&mut out, year);
    out.append("/month=");
    append_padded2(&mut out, month);
    out.append("/day=");
    append_padded2(&mut out, day);
    out.append("/data.parquet");
    proof {
        assert(out@ =~= partition_path_chars(
            base@,
            folder@,
            year as int,
            month as int,
            day as int,
        ));
    }
    out
}

/// `s` begins with the characters of `p`.
pub open spec fn starts_with(s: Seq<char>, p: Seq<char>) -> bool {
    p.len() <= s.len() && s.take(p.len() as int) == p
}

/// The remote object key that mirrors `local_path`: the local root replaced
/// by the remote prefix, the remainder of the path kept verbatim. `None`
/// where the path does not lie under the local root.
pub fn remote_key_for(local_path: &str, local_root: &str, remote_prefix: &str) -> (r: Option<
    String,
>)
    ensures
        r matches Some(k) ==> starts_with(local_path@, local_root@) && k@ == remote_prefix@
            + local_path@.skip(local_root@.len() as int),
        r is None ==> !starts_with(local_path@, local_root@),
{
    let root_len = local_root.unicode_len();
    let path_len = local_path.unicode_len();
    if root_len > path_len {
        return None;
    }
    let mut i: usize = 0;
    while i < root_len
        invariant
            i <= root_len,
            root_len == local_root@.len(),
            path_len == local_path@.len(),
            root_len <= path_len,
            forall|j: int| 0 <= j < i ==> local_path@[j] == local_root@[j],
        decreases root_len - i,
    {
        let a = local_path.get_char(i);
        let b = local_root.get_char(i);
        if a != b {
            proof {
                assert(local_path@.take(root_len as int)[i as int] != local_root@[i as int]);
            }
            return None;
        }
        i = i + 1;
    }
    proof {
        assert(local_path@.take(root_len as int) =~= local_root@);
    }
    let rest = local_path.substring_char(root_len, path_len);
    let mut out = remote_prefix.to_owned();
    out.append(rest);
    proof {
        assert(rest@ =~= local_path@.skip(root_len as int));
        assert(out@ =~= remote_prefix@ + local_path@.skip(local_root@.len() as int));
    }
    Some(out)
}

} // verus!
