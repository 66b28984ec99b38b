//! The dirty set: partition file paths awaiting their next upload attempt.
//!
//! The store inserts a path when it commits a change; the uploader drains the
//! whole set in one atomic swap, attempts every path, and requeues the ones
//! that failed. Membership is a set, not a counter: re-marking a path that is
//! already pending is a no-op, so a path is never held — and hence never
//! retried — more than once per cycle, however often it was marked.

use vstd::prelude::*;

verus! {

/// No two entries read the same path.
pub open spec fn views_unique(s: Seq<String>) -> bool {
    forall|i: int, j: int| 0 <= i < j < s.len() ==> s[i]@ != s[j]@
}

/// How many entries of `s` read the path `p`.
pub open spec fn count_path(s: Seq<String>, p: Seq<char>) -> nat
    decreases s.len(),
{
    if s.len() == 0 {
        0
    } else {
        count_path(s.drop_last(), p) + if s.last()@ == p {
            1nat
        } else {
            0nat
        }
    }
}

/// The set of paths pending upload.
pub struct DirtySet {
    pub paths: Vec<String>,
}

impl DirtySet {
    /// The entries hold pairwise distinct paths.
    pub open spec fn wf(self) -> bool {
        views_unique(self.paths@)
    }

    /// Path `p` is pending.
    pub open spec fn contains_path(self, p: Seq<char>) -> bool {
        exists|i: int| 0 <= i < self.paths@.len() && self.paths@[i]@ == p
    }

    /// The pending paths as a set.
    pub open spec fn as_set(self) -> Set<Seq<char>> {
        Set::new(|p: Seq<char>| self.contains_path(p))
    }

    /// An empty dirty set.
    pub fn new() -> (r: DirtySet)
        ensures
            r.wf(),
            r.as_set() == Set::<Seq<char>>::empty(),
            r.paths@.len() == 0,
    {
        let r = DirtySet { paths: Vec::new() };
        proof {
            assert(r.as_set() =~= Set::<Seq<char>>::empty());
        }
        r
    }

    /// Mark `path` as pending. A path already pending stays pending once:
    /// marking is idempotent on the set.
    pub fn mark(&mut self, path: String)
        requires
            old(self).wf(),
        ensures
            final(self).wf(),
            final(self).as_set() == old(self).as_set().insert(path@),
    {
        let mut i: usize = 0;
        while i < self.paths.len()
            invariant
                i <= self.paths@.len(),
                *self == *old(self),
                self.wf(),
                forall|j: int| 0 <= j < i ==> self.paths@[j]@ != path@,
            decreases self.paths@.len() - i,
        {
            if self.paths[i] == path {
                proof {
                    assert(old(self).contains_path(path@));
                    assert(final(self).as_set() =~= old(self).as_set().insert(path@));
                }
                return ;
            }
            i = i + 1;
        }
        let ghost old_paths = self.paths@;
        self.paths.push(path);
        proof {
            assert(forall|j: int| 0 <= j < old_paths.len() ==> self.paths@[j] == old_paths[j]);
            assert(self.paths@[old_paths.len() as int]@ == path@);
            assert forall|p: Seq<char>|
                final(self).contains_path(p) == (old(self).contains_path(p) || p
                    == path@) by {
                if old(self).contains_path(p) {
                    let j = choose|j: int| 0 <= j < old_paths.len() && old_paths[j]@ == p;
                    assert(self.paths@[j]@ == p);
                }
                if final(self).contains_path(p) {
                    let j = choose|j: int| 0 <= j < self.paths@.len() && self.paths@[j]@ == p;
                    if j < old_paths.len() {
                        assert(old_paths[j]@ == p);
                    }
                }
            }
            assert(final(self).as_set() =~= old(self).as_set().insert(path@));
        }
    }

    /// Take every pending path out in one step, leaving the set empty for
    /// marks that arrive during the upload phase.
    pub fn drain(&mut self) -> (r: Vec<String>)
        requires
            old(self).wf(),
        ensures
            final(self).wf(),
            final(self).as_set() == Set::<Seq<char>>::empty(),
            final(self).paths@.len() == 0,
            r@ == old(self).paths@,
            views_unique(r@),
    {
        let mut batch: Vec<String> = Vec::new();
        core::mem::swap(&mut batch, &mut self.paths);
        proof {
            assert(final(self).as_set() =~= Set::<Seq<char>>::empty());
        }
        batch
    }

    /// Re-insert every path of `failed`, for retry on the next cycle.
    pub fn requeue(&mut self, failed: &Vec<String>)
        requires
            old(self).wf(),
        ensures
            final(self).wf(),
            final(self).as_set() == old(self).as_set().union(path_set(failed@)),
    {
        let mut i: usize = 0;
        while i < failed.len()
            invariant
                i <= failed@.len(),
                self.wf(),
                self.as_set() == old(self).as_set().union(path_set(failed@.take(i as int))),
            decreases failed@.len() - i,
        {
            let p = failed[i].clone();
            proof {
                assert(p@ == failed@[i as int]@);
            }
            self.mark(p);
            proof {
                lemma_path_set_push(failed@, i as int);
                assert(self.as_set() =~= old(self).as_set().union(
                    path_set(failed@.take(i + 1 as int)),
                ));
            }
            i = i + 1;
        }
        proof {
            assert(failed@.take(failed@.len() as int) =~= failed@);
        }
    }
}

/// The set of paths that the entries of `s` read.
pub open spec fn path_set(s: Seq<String>) -> Set<Seq<char>> {
    Set::new(|p: Seq<char>| exists|i: int| 0 <= i < s.len() && s[i]@ == p)
}

/// Taking one more entry adds exactly its path to the set.
proof fn lemma_path_set_push(s: Seq<String>, i: int)
    requires
        0 <= i < s.len(),
    ensures
        path_set(s.take(i + 1)) == path_set(s.take(i)).insert(s[i]@),
{
    assert forall|p: Seq<char>|
        path_set(s.take(i + 1)).contains(p) == path_set(s.take(i)).insert(s[i]@).contains(
            p,
        ) by {
        if path_set(s.take(i + 1)).contains(p) {
            let j = choose|j: int| 0 <= j < s.take(i + 1).len() && (#[trigger] s.take(i + 1)[j]@) == p;
            if j < i {
                assert(s.take(i)[j]@ == p);
            }
        }
        if path_set(s.take(i)).contains(p) {
            let j = choose|j: int| 0 <= j < s.take(i).len() && s.take(i)[j]@ == p;
            assert(s.take(i + 1)[j]@ == p);
        }
        if p == s[i]@ {
            assert(s.take(i + 1)[i]@ == p);
        }
    }
    assert(path_set(s.take(i + 1)) =~= path_set(s.take(i)).insert(s[i]@));
}

/// A pending path is held exactly once: however often a file was re-marked
/// before the next drain, it reappears in the batch a single time.
pub proof fn lemma_pending_path_once(ds: DirtySet, p: Seq<char>)
    requires
        ds.wf(),
        ds.contains_path(p),
    ensures
        count_path(ds.paths@, p) == 1,
{
    lemma_count_unique(ds.paths@, p);
}

/// In a sequence of pairwise distinct paths, a path occurs at most once.
proof fn lemma_count_unique(s: Seq<String>, p: Seq<char>)
    requires
        views_unique(s),
    ensures
        count_path(s, p) == if exists|i: int| 0 <= i < s.len() && s[i]@ == p {
            1nat
        } else {
            0nat
        },
    decreases s.len(),
{
    if s.len() > 0 {
        let s1 = s.drop_last();
        assert(forall|i: int| 0 <= i < s1.len() ==> s1[i] == s[i]);
        lemma_count_unique(s1, p);
        if s.last()@ == p {
            assert forall|i: int| 0 <= i < s1.len() implies s1[i]@ != p by {
                assert(s[i]@ != s[s.len() - 1]@);
            }
            assert(s[s.len() - 1]@ == p);
        } else {
            if exists|i: int| 0 <= i < s1.len() && s1[i]@ == p {
                let i = choose|i: int| 0 <= i < s1.len() && s1[i]@ == p;
                assert(s[i]@ == p);
            }
            if exists|i: int| 0 <= i < s.len() && s[i]@ == p {
                let i = choose|i: int| 0 <= i < s.len() && s[i]@ == p;
                assert(i < s1.len() && s1[i]@ == p);
            }
        }
    }
}

} // verus!
