//! Choosing a collector implementation for a configured source.
//!
//! A source's configuration carries a URL; which provider's collector handles
//! it is decided by which provider's marker the URL contains. The decision is
//! pure string logic and is verified here; constructing the collector itself
//! is the caller's business.

use vstd::prelude::*;

use vstd::string::StrSliceExecFns;

verus! {

/// The known data providers.
#[derive(Clone, Copy, PartialEq, Eq, Structural, Debug)]
pub enum ProviderKind {
    Entsoe,
    Apg,
}

/// `pat` occurs in `s` starting at position `i`.
pub open spec fn matches_at(s: Seq<char>, pat: Seq<char>, i: int) -> bool {
    0 <= i && i + pat.len() <= s.len() && s.subrange(i, i + pat.len()) == pat
}

/// `pat` occurs somewhere in `s`.
pub open spec fn contains_seq(s: Seq<char>, pat: Seq<char>) -> bool {
    exists|i: int| matches_at(s, pat, i)
}

/// Whether `pat` occurs in `s`.
pub fn contains_substr(s: &str, pat: &str) -> (r: bool)
    ensures
        r == contains_seq(s@, pat@),
{
    let s_len = s.unicode_len();
    let pat_len = pat.unicode_len();
    if pat_len > s_len {
        proof {
            assert forall|i: int| !matches_at(s@, pat@, i) by {}
        }
        return false;
    }
    if pat_len == 0 {
        proof {
            assert(s@.subrange(0, 0) =~= pat@);
            assert(matches_at(s@, pat@, 0));
        }
        return true;
    }
    let mut i: usize = 0;
    while i <= s_len - pat_len
        invariant
            s_len == s@.len(),
            pat_len == pat@.len(),
            pat_len <= s_len,
            1 <= pat_len,
            i <= s_len - pat_len + 1,
            forall|ii: int| 0 <= ii < i ==> !matches_at(s@, pat@, ii),
        decreases s_len - i,
    {
        let mut j: usize = 0;
        let mut mismatch = false;
        while j < pat_len
            invariant
                j <= pat_len,
                s_len == s@.len(),
                pat_len == pat@.len(),
                i + pat_len <= s_len,
                !mismatch ==> forall|jj: int| 0 <= jj < j ==> s@[i + jj] == pat@[jj],
                mismatch ==> !matches_at(s@, pat@, i as int),
            decreases pat_len - j,
        {
            let a = s.get_char(i + j);
            let b = pat.get_char(j);
            if a != b {
                proof {
                    assert(s@.subrange(i as int, i + pat@.len())[j as int] != pat@[j as int]);
                }
                mismatch = true;
            }
            j = j + 1;
        }
        if !mismatch {
            proof {
                assert(s@.subrange(i as int, i + pat@.len()) =~= pat@);
                assert(matches_at(s@, pat@, i as int));
            }
            return true;
        }
        i = i + 1;
    }
    proof {
        assert forall|ii: int| !matches_at(s@, pat@, ii) by {
            if 0 <= ii <= s@.len() - pat@.len() {
                assert(ii < i);
            }
        }
    }
    false
}

/// The provider whose collector handles a source with this URL: the one
/// whose marker the URL contains, ENTSO-E's marker taking precedence; `None`
/// where no marker occurs.
pub fn provider_for_url(url: &str) -> (r: Option<ProviderKind>)
    ensures
        r == Some(ProviderKind::Entsoe) <==> contains_seq(url@, "entsoe"@),
        r == Some(ProviderKind::Apg) <==> !contains_seq(url@, "entsoe"@) && contains_seq(
            url@,
            "apg"@,
        ),
        r is None <==> !contains_seq(url@, "entsoe"@) && !contains_seq(url@, "apg"@),
{
    if contains_substr(url, "entsoe") {
        Some(ProviderKind::Entsoe)
    } else if contains_substr(url, "apg") {
        Some(ProviderKind::Apg)
    } else {
        None
    }
}

} // verus!
