//! Reduction of a discovered source-path set to a watchable set.
//!
//! The filesystem watcher reports events for every descendant of a
//! watched directory, so a path that lies under another discovered
//! path need not be watched itself. The reducer drops every path that
//! a strict ancestor in the set dominates, and drops repeated
//! occurrences; it is deterministic, keeps only members of its input,
//! and is idempotent.

use vstd::prelude::*;
use crate::builder::bytes_view;
use crate::parse::{bytes_eq_at, bytes_equal, clone_bytes};

verus! {

/// `q` is a strict path ancestor of `p`: `p` is `q`, then `/`, then more.
pub open spec fn is_strict_ancestor(q: Seq<u8>, p: Seq<u8>) -> bool {
    &&& q.len() < p.len()
    &&& p.subrange(0, q.len() as int) == q
    &&& p[q.len() as int] == 47u8
}

/// The path at position `i` survives reduction: no path in the set is
/// a strict ancestor of it, and it is the first occurrence of its
/// value.
pub open spec fn keep_path(paths: Seq<Seq<u8>>, i: int) -> bool {
    &&& !(exists|q: int| 0 <= q < paths.len() && is_strict_ancestor(paths[q], paths[i]))
    &&& !(exists|j: int| 0 <= j < i && paths[j] == paths[i])
}

/// The reduction of the first `i` paths.
pub open spec fn reduce_prefix(paths: Seq<Seq<u8>>, i: int) -> Seq<Seq<u8>>
    decreases i,
{
    if i <= 0 {
        Seq::empty()
    } else {
        let r = reduce_prefix(paths, i - 1);
        if keep_path(paths, i - 1) {
            r.push(paths[i - 1])
        } else {
            r
        }
    }
}

/// The reduced path sequence: the surviving paths, in first-appearance
/// order.
pub open spec fn reduce_spec(paths: Seq<Seq<u8>>) -> Seq<Seq<u8>> {
    reduce_prefix(paths, paths.len() as int)
}

/// Every element of the reduction occurs in the input.
proof fn lemma_reduce_prefix_member(paths: Seq<Seq<u8>>, i: int, t: int)
    requires
        0 <= t < reduce_prefix(paths, i).len(),
        i <= paths.len(),
    ensures
        exists|j: int| 0 <= j < i && paths[j] == reduce_prefix(paths, i)[t] && keep_path(paths, j),
    decreases i,
{
    if i > 0 {
        let r = reduce_prefix(paths, i - 1);
        if keep_path(paths, i - 1) && t == r.len() {
            assert(paths[i - 1] == reduce_prefix(paths, i)[t]);
        } else {
            lemma_reduce_prefix_member(paths, i - 1, t);
        }
    }
}

/// The reduction of a sequence in which every path survives is the
/// sequence itself.
proof fn lemma_reduce_prefix_all_kept(paths: Seq<Seq<u8>>, i: int)
    requires
        0 <= i <= paths.len(),
        forall|j: int| 0 <= j < paths.len() ==> keep_path(paths, j),
    ensures
        reduce_prefix(paths, i) == paths.take(i),
    decreases i,
{
    if i <= 0 {
        assert(reduce_prefix(paths, i) =~= paths.take(i));
    } else {
        lemma_reduce_prefix_all_kept(paths, i - 1);
        assert(paths.take(i) =~= paths.take(i - 1).push(paths[i - 1]));
    }
}

/// The reduced sequence has no duplicates and none of its members has
/// a strict ancestor among the input paths.
proof fn lemma_reduce_prefix_kept(paths: Seq<Seq<u8>>, i: int)
    requires
        0 <= i <= paths.len(),
    ensures
        forall|t: int, u: int|
            0 <= t < u < reduce_prefix(paths, i).len() ==> reduce_prefix(paths, i)[t]
                != reduce_prefix(paths, i)[u],
        forall|t: int|
            #![trigger reduce_prefix(paths, i)[t]]
            0 <= t < reduce_prefix(paths, i).len() ==> !(exists|q: int|
                0 <= q < paths.len() && is_strict_ancestor(paths[q], reduce_prefix(paths, i)[t])),
    decreases i,
{
    if i > 0 {
        lemma_reduce_prefix_kept(paths, i - 1);
        let r = reduce_prefix(paths, i - 1);
        let r2 = reduce_prefix(paths, i);
        if keep_path(paths, i - 1) {
            assert forall|t: int, u: int| 0 <= t < u < r2.len() implies r2[t] != r2[u] by {
                if u == r.len() {
                    lemma_reduce_prefix_member(paths, i - 1, t);
                    let j = choose|j: int| 0 <= j < i - 1 && paths[j] == r[t] && keep_path(paths, j);
                    if paths[j] == paths[i - 1] {
                        assert(!keep_path(paths, i - 1));
                    }
                } else {
                    assert(r2[t] == r[t]);
                    assert(r2[u] == r[u]);
                }
            }
            assert forall|t: int| #![trigger r2[t]] 0 <= t < r2.len() implies !(exists|q: int|
                0 <= q < paths.len() && is_strict_ancestor(paths[q], r2[t])) by {
                if t < r.len() {
                    assert(r2[t] == r[t]);
                }
            }
        }
    }
}

/// The path reducer keeps only members of its input: `reduce(S)` is a
/// subset of `S`.
pub proof fn lemma_reduce_subset(paths: Seq<Seq<u8>>)
    ensures
        forall|x: Seq<u8>| reduce_spec(paths).contains(x) ==> paths.contains(x),
{
    assert forall|x: Seq<u8>| reduce_spec(paths).contains(x) implies paths.contains(x) by {
        let t = choose|t: int| 0 <= t < reduce_spec(paths).len() && reduce_spec(paths)[t] == x;
        lemma_reduce_prefix_member(paths, paths.len() as int, t);
        let j = choose|j: int|
            0 <= j < paths.len() && paths[j] == reduce_spec(paths)[t] && keep_path(paths, j);
        assert(paths[j] == x);
    }
}

/// The path reducer is idempotent: reducing an already reduced set
/// changes nothing.
pub proof fn lemma_reduce_idempotent(paths: Seq<Seq<u8>>)
    ensures
        reduce_spec(reduce_spec(paths)) == reduce_spec(paths),
{
    let r = reduce_spec(paths);
    lemma_reduce_prefix_kept(paths, paths.len() as int);
    assert forall|j: int| 0 <= j < r.len() implies keep_path(r, j) by {
        lemma_reduce_prefix_member(paths, paths.len() as int, j);
        lemma_reduce_prefix_kept(paths, paths.len() as int);
        if exists|q: int| 0 <= q < r.len() && is_strict_ancestor(r[q], r[j]) {
            let q = choose|q: int| 0 <= q < r.len() && is_strict_ancestor(r[q], r[j]);
            lemma_reduce_prefix_member(paths, paths.len() as int, q);
            let qq = choose|qq: int| 0 <= qq < paths.len() && paths[qq] == r[q] && keep_path(
                paths,
                qq,
            );
            assert(is_strict_ancestor(paths[qq], r[j]));
        }
    }
    lemma_reduce_prefix_all_kept(r, r.len() as int);
    assert(r.take(r.len() as int) =~= r);
}

fn is_ancestor_of(q: &Vec<u8>, p: &Vec<u8>) -> (r: bool)
    ensures
        r == is_strict_ancestor(q@, p@),
{
    if q.len() >= p.len() {
        return false;
    }
    bytes_eq_at(p, 0, q) && p[q.len()] == 47u8
}

pub(crate) fn seq_contains(v: &Vec<Vec<u8>>, x: &Vec<u8>) -> (r: bool)
    ensures
        r == bytes_view(v@).contains(x@),
{
    let n = v.len();
    let mut i: usize = 0;
    while i < n
        invariant
            i <= n,
            n == v@.len(),
            forall|j: int| 0 <= j < i ==> bytes_view(v@)[j] != x@,
        decreases n - i,
    {
        if bytes_equal(&v[i], x) {
            assert(bytes_view(v@)[i as int] == x@);
            return true;
        }
        i = i + 1;
    }
    false
}

/// Reduces a discovered path sequence to the watchable subset: paths
/// dominated by a strict ancestor in the set are dropped, as are
/// repeated occurrences; first-appearance order is kept.
pub fn reduce_paths(paths: &Vec<Vec<u8>>) -> (r: Vec<Vec<u8>>)
    ensures
        bytes_view(r@) == reduce_spec(bytes_view(paths@)),
{
    let n = paths.len();
    let ghost pv = bytes_view(paths@);
    proof {
        assert(pv.len() == paths@.len());
    }
    let mut r: Vec<Vec<u8>> = Vec::new();
    let mut i: usize = 0;
    while i < n
        invariant
            i <= n,
            n == paths@.len(),
            pv == bytes_view(paths@),
            pv.len() == n,
            bytes_view(r@) == reduce_prefix(pv, i as int),
        decreases n - i,
    {
        let p = &paths[i];
        proof {
            assert(pv[i as int] == paths@[i as int]@);
        }
        // a repeated occurrence is exactly one already kept: survivors
        // are the first occurrences of undominated paths
        let mut dominated = false;
        let mut k: usize = 0;
        while k < n
            invariant
                k <= n,
                n == paths@.len(),
                pv == bytes_view(paths@),
                pv.len() == n,
                i < n,
                p@ == pv[i as int],
                dominated ==> (exists|q: int| 0 <= q < pv.len() && is_strict_ancestor(
                    pv[q],
                    pv[i as int],
                )),
                !dominated ==> forall|q: int| 0 <= q < k ==> !is_strict_ancestor(
                    pv[q],
                    pv[i as int],
                ),
            decreases n - k,
        {
            proof {
                assert(pv[k as int] == paths@[k as int]@);
                assert(p@ == pv[i as int]);
            }
            if is_ancestor_of(&paths[k], p) {
                proof {
                    assert(is_strict_ancestor(pv[k as int], pv[i as int]));
                }
                dominated = true;
                k = n;
            } else {
                proof {
                    assert(!is_strict_ancestor(pv[k as int], pv[i as int]));
                }
                k = k + 1;
            }
        }
        let mut dup = false;
        let mut j: usize = 0;
        while j < i
            invariant
                j <= i <= n,
                n == paths@.len(),
                pv == bytes_view(paths@),
                pv.len() == n,
                i < n,
                p@ == pv[i as int],
                dup ==> (exists|t: int| 0 <= t < i && pv[t] == pv[i as int]),
                !dup ==> forall|t: int| 0 <= t < j ==> pv[t] != pv[i as int],
            decreases i - j,
        {
            proof {
                assert(pv[j as int] == paths@[j as int]@);
                assert(p@ == pv[i as int]);
            }
            if bytes_equal(&paths[j], p) {
                proof {
                    assert(pv[j as int] == pv[i as int]);
                }
                dup = true;
                j = i;
            } else {
                proof {
                    assert(pv[j as int] != pv[i as int]);
                }
                j = j + 1;
            }
        }
        if !dominated && !dup {
            proof {
                assert(keep_path(pv, i as int));
            }
            let pc = clone_bytes(p);
            r.push(pc);
            proof {
                assert(bytes_view(r@) =~= bytes_view(r@.drop_last()).push(pv[i as int]));
            }
        } else {
            proof {
                assert(!keep_path(pv, i as int));
            }
        }
        i = i + 1;
    }
    r
}

} // verus!
