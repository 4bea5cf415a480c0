//! Levenshtein distance between character sequences.
//!
//! The distance is defined on decoded characters, not on raw bytes, so
//! a multi-byte character counts as one edit unit.  The executable
//! function fills the classic dynamic-programming table row by row and
//! is proved to return exactly the recursive definition.

use vstd::prelude::*;

verus! {

pub open spec fn min3(x: int, y: int, z: int) -> int {
    if x <= y && x <= z {
        x
    } else if y <= z {
        y
    } else {
        z
    }
}

/// Minimum number of single-character insertions, deletions and
/// substitutions (unit cost each) that turn `a` into `b`.
pub open spec fn lev(a: Seq<char>, b: Seq<char>) -> int
    decreases a.len() + b.len(),
{
    if a.len() == 0 {
        b.len() as int
    } else if b.len() == 0 {
        a.len() as int
    } else {
        let del = lev(a.drop_last(), b) + 1;
        let ins = lev(a, b.drop_last()) + 1;
        let sub = lev(a.drop_last(), b.drop_last()) + if a.last() == b.last() {
            0int
        } else {
            1int
        };
        min3(del, ins, sub)
    }
}

/// The distance is non-negative and at most the total length.
pub proof fn lemma_lev_bounds(a: Seq<char>, b: Seq<char>)
    ensures
        0 <= lev(a, b) <= a.len() + b.len(),
    decreases a.len() + b.len(),
{
    if a.len() > 0 && b.len() > 0 {
        lemma_lev_bounds(a.drop_last(), b);
        lemma_lev_bounds(a, b.drop_last());
        lemma_lev_bounds(a.drop_last(), b.drop_last());
    }
}

/// Nothing needs editing to reach the same sequence.
pub proof fn lemma_lev_self(a: Seq<char>)
    ensures
        lev(a, a) == 0,
    decreases a.len(),
{
    if a.len() > 0 {
        lemma_lev_self(a.drop_last());
        lemma_lev_bounds(a.drop_last(), a);
        lemma_lev_bounds(a, a.drop_last());
    }
}

/// The distance is symmetric: edits run as well in either direction.
pub proof fn lemma_lev_symmetric(a: Seq<char>, b: Seq<char>)
    ensures
        lev(a, b) == lev(b, a),
    decreases a.len() + b.len(),
{
    if a.len() > 0 && b.len() > 0 {
        lemma_lev_symmetric(a.drop_last(), b);
        lemma_lev_symmetric(a, b.drop_last());
        lemma_lev_symmetric(a.drop_last(), b.drop_last());
    }
}

/// The table recurrence on prefixes, read off the definition.
proof fn lemma_lev_step(a: Seq<char>, b: Seq<char>, i: int, j: int)
    requires
        1 <= i <= a.len(),
        1 <= j <= b.len(),
    ensures
        lev(a.take(i), b.take(j)) == min3(
            lev(a.take(i - 1), b.take(j)) + 1,
            lev(a.take(i), b.take(j - 1)) + 1,
            lev(a.take(i - 1), b.take(j - 1)) + if a[i - 1] == b[j - 1] {
                0int
            } else {
                1int
            },
        ),
{
    assert(a.take(i).drop_last() =~= a.take(i - 1));
    assert(b.take(j).drop_last() =~= b.take(j - 1));
    assert(a.take(i).last() == a[i - 1]);
    assert(b.take(j).last() == b[j - 1]);
}

/// Character-level edit distance between `a` and `b`.
#[verifier::loop_isolation(false)]
pub fn levenshtein_distance(a: &Vec<char>, b: &Vec<char>) -> (d: usize)
    requires
        a@.len() + b@.len() <= usize::MAX,
    ensures
        d == lev(a@, b@),
{
    let alen: usize = a.len();
    let blen: usize = b.len();
    if alen == 0 {
        return blen;
    }
    if blen == 0 {
        return alen;
    }
    // Row `i - 1` of the table: prev[j] == lev(a.take(i - 1), b.take(j)).
    let mut prev: Vec<usize> = Vec::new();
    let mut j: usize = 0;
    while j < blen
        invariant
            j <= blen,
            prev@.len() == j,
            forall|jj: int| 0 <= jj < j ==> prev@[jj] == lev(a@.take(0), b@.take(jj)),
        decreases blen - j,
    {
        proof {
            assert(a@.take(0) =~= Seq::<char>::empty());
        }
        prev.push(j);
        j = j + 1;
    }
    proof {
        assert(a@.take(0) =~= Seq::<char>::empty());
    }
    prev.push(blen);
    let mut i: usize = 1;
    while i <= alen
        invariant
            1 <= i <= alen + 1,
            prev@.len() == blen + 1,
            forall|jj: int| 0 <= jj <= blen ==> prev@[jj] == lev(a@.take(i - 1), b@.take(jj)),
        decreases alen + 1 - i,
    {
        let mut cur: Vec<usize> = Vec::new();
        proof {
            assert(b@.take(0) =~= Seq::<char>::empty());
        }
        cur.push(i);
        let mut jj: usize = 1;
        while jj <= blen
            invariant
                1 <= jj <= blen + 1,
                1 <= i <= alen,
                cur@.len() == jj,
                prev@.len() == blen + 1,
                forall|q: int| 0 <= q <= blen ==> prev@[q] == lev(a@.take(i - 1), b@.take(q)),
                forall|q: int| 0 <= q < jj ==> cur@[q] == lev(a@.take(i as int), b@.take(q)),
            decreases blen + 1 - jj,
        {
            proof {
                lemma_lev_bounds(a@.take(i - 1), b@.take(jj as int));
                lemma_lev_bounds(a@.take(i as int), b@.take(jj - 1));
                lemma_lev_bounds(a@.take(i - 1), b@.take(jj - 1));
            }
            let cost: usize = if a[i - 1] == b[jj - 1] {
                0
            } else {
                1
            };
            let del: usize = prev[jj] + 1;
            let ins: usize = cur[jj - 1] + 1;
            let sub: usize = prev[jj - 1] + cost;
            let best: usize = if del <= ins && del <= sub {
                del
            } else if ins <= sub {
                ins
            } else {
                sub
            };
            proof {
                lemma_lev_step(a@, b@, i as int, jj as int);
            }
            cur.push(best);
            jj = jj + 1;
        }
        prev = cur;
        i = i + 1;
    }
    proof {
        assert(a@.take(alen as int) =~= a@);
        assert(b@.take(blen as int) =~= b@);
    }
    prev[blen]
}

} // verus!
