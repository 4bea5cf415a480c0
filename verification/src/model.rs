//! The mathematical model of the store.
//!
//! A store state is a sequence of `(key, value)` pairs.  A state is
//! well-formed when its keys are strictly ascending in lexicographic
//! byte order (hence unique) and prefix-free: no key is a proper prefix
//! of another.  This module defines the effect of every mutation on
//! such sequences and proves the laws the store's contracts rest on:
//! the invariant is preserved by insertion and removal, insertion
//! evicts exactly the conflicting keys, and a freshly inserted key
//! looks up to its value.

use vstd::prelude::*;

use crate::keyorder::{
    conflicts_with, is_prefix_of, is_strict_prefix_of, lemma_lex_lt_irrefl, lemma_lex_lt_trans,
    lex_lt,
};

verus! {

/// The ghost contents of an entry vector: each key replaced by its view.
pub open spec fn entries_view<V>(s: Seq<(Vec<u8>, V)>) -> Seq<(Seq<u8>, V)> {
    s.map_values(|e: (Vec<u8>, V)| (e.0@, e.1))
}

/// The ghost contents of a key vector.
pub open spec fn keys_view(s: Seq<Vec<u8>>) -> Seq<Seq<u8>> {
    s.map_values(|k: Vec<u8>| k@)
}

pub open spec fn keys_of<V>(s: Seq<(Seq<u8>, V)>) -> Seq<Seq<u8>> {
    s.map_values(|e: (Seq<u8>, V)| e.0)
}

pub open spec fn values_of<V>(s: Seq<(Seq<u8>, V)>) -> Seq<V> {
    s.map_values(|e: (Seq<u8>, V)| e.1)
}

/// Keys strictly ascend in lexicographic byte order.
pub open spec fn keys_strictly_sorted<V>(s: Seq<(Seq<u8>, V)>) -> bool {
    forall|i: int, j: int|
        #![trigger s[i], s[j]]
        0 <= i < j < s.len() ==> lex_lt(s[i].0, s[j].0)
}

/// No key is a proper prefix of another key.
pub open spec fn prefix_free<V>(s: Seq<(Seq<u8>, V)>) -> bool {
    forall|i: int, j: int|
        #![trigger s[i], s[j]]
        0 <= i < s.len() && 0 <= j < s.len() && i != j ==> !is_strict_prefix_of(s[i].0, s[j].0)
}

/// Well-formedness of a store state.
pub open spec fn wf_entries<V>(s: Seq<(Seq<u8>, V)>) -> bool {
    keys_strictly_sorted(s) && prefix_free(s)
}

pub open spec fn has_key<V>(s: Seq<(Seq<u8>, V)>, k: Seq<u8>) -> bool {
    exists|i: int| 0 <= i < s.len() && #[trigger] s[i].0 == k
}

/// The value stored under key `k`, if any: the first match in order.
pub open spec fn lookup<V>(s: Seq<(Seq<u8>, V)>, k: Seq<u8>) -> Option<V>
    decreases s.len(),
{
    if s.len() == 0 {
        None
    } else if s[0].0 == k {
        Some(s[0].1)
    } else {
        lookup(s.drop_first(), k)
    }
}

/// An entry survives an insertion of `k` and precedes it.
pub open spec fn survives_below<V>(k: Seq<u8>) -> spec_fn((Seq<u8>, V)) -> bool {
    |e: (Seq<u8>, V)| !conflicts_with(e.0, k) && lex_lt(e.0, k)
}

/// An entry survives an insertion of `k` and follows it.
pub open spec fn survives_above<V>(k: Seq<u8>) -> spec_fn((Seq<u8>, V)) -> bool {
    |e: (Seq<u8>, V)| !conflicts_with(e.0, k) && lex_lt(k, e.0)
}

/// An entry is untouched by a removal of `k`.
pub open spec fn other_key<V>(k: Seq<u8>) -> spec_fn((Seq<u8>, V)) -> bool {
    |e: (Seq<u8>, V)| e.0 != k
}

/// An entry's key starts with `p`.
pub open spec fn key_has_prefix<V>(p: Seq<u8>) -> spec_fn((Seq<u8>, V)) -> bool {
    |e: (Seq<u8>, V)| is_prefix_of(p, e.0)
}

/// The entries that survive an insertion of `k` and precede it.
pub open spec fn low_entries<V>(s: Seq<(Seq<u8>, V)>, k: Seq<u8>) -> Seq<(Seq<u8>, V)> {
    s.filter(survives_below(k))
}

/// The entries that survive an insertion of `k` and follow it.
pub open spec fn high_entries<V>(s: Seq<(Seq<u8>, V)>, k: Seq<u8>) -> Seq<(Seq<u8>, V)> {
    s.filter(survives_above(k))
}

/// The effect of a forced insertion: every entry whose key equals `k`,
/// is a proper prefix of `k`, or has `k` as a proper prefix is evicted,
/// and `(k, v)` takes its place in the order.
pub open spec fn inserted<V>(s: Seq<(Seq<u8>, V)>, k: Seq<u8>, v: V) -> Seq<(Seq<u8>, V)> {
    low_entries(s, k) + seq![(k, v)] + high_entries(s, k)
}

/// The effect of removing key `k`, order otherwise kept.
pub open spec fn removed<V>(s: Seq<(Seq<u8>, V)>, k: Seq<u8>) -> Seq<(Seq<u8>, V)> {
    s.filter(other_key(k))
}

/// The entries whose keys start with `p`, order kept.
pub open spec fn entries_with_prefix<V>(s: Seq<(Seq<u8>, V)>, p: Seq<u8>) -> Seq<(Seq<u8>, V)> {
    s.filter(key_has_prefix(p))
}

pub proof fn lemma_filter_empty<A>(pred: spec_fn(A) -> bool)
    ensures
        Seq::<A>::empty().filter(pred) == Seq::<A>::empty(),
{
    reveal_with_fuel(Seq::filter, 1);
}

/// Filtering peels the last element the way the sequence was built.
pub proof fn lemma_filter_push<A>(s: Seq<A>, pred: spec_fn(A) -> bool, e: A)
    ensures
        pred(e) ==> s.push(e).filter(pred) == s.filter(pred).push(e),
        !pred(e) ==> s.push(e).filter(pred) == s.filter(pred),
{
    reveal_with_fuel(Seq::filter, 2);
    assert(s.push(e).drop_last() =~= s);
    assert(s.push(e).last() == e);
}

pub proof fn lemma_filter_singleton<A>(e: A, pred: spec_fn(A) -> bool)
    ensures
        pred(e) ==> seq![e].filter(pred) == seq![e],
        !pred(e) ==> seq![e].filter(pred) == Seq::<A>::empty(),
{
    lemma_filter_empty(pred);
    lemma_filter_push(Seq::<A>::empty(), pred, e);
    assert(Seq::<A>::empty().push(e) =~= seq![e]);
    assert(Seq::<A>::empty().push(e).filter(pred) == seq![e].filter(pred));
}

/// A filter keeps nothing when the predicate holds nowhere.
pub proof fn lemma_filter_all_false<A>(s: Seq<A>, pred: spec_fn(A) -> bool)
    requires
        forall|i: int| 0 <= i < s.len() ==> !pred(#[trigger] s[i]),
    ensures
        s.filter(pred) == Seq::<A>::empty(),
    decreases s.len(),
{
    if s.len() == 0 {
        lemma_filter_empty(pred);
        assert(s =~= Seq::<A>::empty());
    } else {
        let d = s.drop_last();
        assert(forall|i: int| 0 <= i < d.len() ==> !pred(#[trigger] d[i]));
        lemma_filter_all_false(d, pred);
        lemma_filter_push(d, pred, s.last());
        assert(d.push(s.last()) =~= s);
    }
}

/// A filter keeps everything when the predicate holds everywhere.
pub proof fn lemma_filter_all_true<A>(s: Seq<A>, pred: spec_fn(A) -> bool)
    requires
        forall|i: int| 0 <= i < s.len() ==> pred(#[trigger] s[i]),
    ensures
        s.filter(pred) == s,
    decreases s.len(),
{
    if s.len() == 0 {
        lemma_filter_empty(pred);
        assert(s =~= Seq::<A>::empty());
    } else {
        let d = s.drop_last();
        assert(forall|i: int| 0 <= i < d.len() ==> pred(#[trigger] d[i]));
        lemma_filter_all_true(d, pred);
        lemma_filter_push(d, pred, s.last());
        assert(d.push(s.last()) =~= s);
    }
}

/// Every element a filter keeps satisfies the predicate and sits
/// somewhere in the source sequence.
pub proof fn lemma_filter_element_of<A>(s: Seq<A>, pred: spec_fn(A) -> bool)
    ensures
        forall|i: int|
            0 <= i < s.filter(pred).len() ==> pred(#[trigger] s.filter(pred)[i]) && s.contains(
                s.filter(pred)[i],
            ),
    decreases s.len(),
{
    let f = s.filter(pred);
    if s.len() == 0 {
        lemma_filter_empty(pred);
        assert(s =~= Seq::<A>::empty());
    } else {
        let d = s.drop_last();
        lemma_filter_element_of(d, pred);
        lemma_filter_push(d, pred, s.last());
        assert(d.push(s.last()) =~= s);
        assert forall|i: int| 0 <= i < f.len() implies pred(#[trigger] f[i]) && s.contains(
            f[i],
        ) by {
            if pred(s.last()) && i == f.len() - 1 {
                assert(f[i] == s.last());
                assert(s[s.len() - 1] == s.last());
            } else {
                assert(f[i] == d.filter(pred)[i]);
                let j = choose|j: int| 0 <= j < d.len() && d[j] == f[i];
                assert(s[j] == f[i]);
            }
        }
    }
}

/// An element satisfying the predicate is kept by the filter.
pub proof fn lemma_filter_in<A>(s: Seq<A>, pred: spec_fn(A) -> bool, i: int)
    requires
        0 <= i < s.len(),
        pred(s[i]),
    ensures
        s.filter(pred).contains(s[i]),
    decreases s.len(),
{
    let d = s.drop_last();
    lemma_filter_push(d, pred, s.last());
    assert(d.push(s.last()) =~= s);
    if i == s.len() - 1 {
        assert(s.filter(pred)[s.filter(pred).len() - 1] == s[i]);
    } else {
        assert(d[i] == s[i]);
        lemma_filter_in(d, pred, i);
        let j = choose|j: int| 0 <= j < d.filter(pred).len() && d.filter(pred)[j] == s[i];
        assert(s.filter(pred)[j] == s[i]);
    }
}

/// Filtering a strictly sorted sequence leaves it strictly sorted.
pub proof fn lemma_filter_sorted<V>(s: Seq<(Seq<u8>, V)>, pred: spec_fn((Seq<u8>, V)) -> bool)
    requires
        keys_strictly_sorted(s),
    ensures
        keys_strictly_sorted(s.filter(pred)),
    decreases s.len(),
{
    let f = s.filter(pred);
    if s.len() == 0 {
        lemma_filter_empty(pred);
    } else {
        let d = s.drop_last();
        assert(keys_strictly_sorted(d));
        lemma_filter_sorted(d, pred);
        lemma_filter_element_of(d, pred);
        lemma_filter_push(d, pred, s.last());
        assert(d.push(s.last()) =~= s);
        assert forall|i: int, j: int|
            #![trigger f[i], f[j]]
            0 <= i < j < f.len() implies lex_lt(f[i].0, f[j].0) by {
            if pred(s.last()) && j == f.len() - 1 {
                assert(f[j] == s.last());
                assert(f[i] == d.filter(pred)[i]);
                let jj = choose|jj: int| 0 <= jj < d.len() && d[jj] == f[i];
                assert(s[jj] == f[i]);
                assert(lex_lt(s[jj].0, s[s.len() - 1].0));
            } else {
                assert(f[i] == d.filter(pred)[i]);
                assert(f[j] == d.filter(pred)[j]);
            }
        }
    }
}

/// Filtering a prefix-free sequence leaves it prefix-free.
pub proof fn lemma_filter_prefix_free<V>(s: Seq<(Seq<u8>, V)>, pred: spec_fn((Seq<u8>, V)) -> bool)
    requires
        prefix_free(s),
    ensures
        prefix_free(s.filter(pred)),
{
    let f = s.filter(pred);
    lemma_filter_element_of(s, pred);
    assert forall|i: int, j: int|
        #![trigger f[i], f[j]]
        0 <= i < f.len() && 0 <= j < f.len() && i != j implies !is_strict_prefix_of(
        f[i].0,
        f[j].0,
    ) by {
        let ii = choose|ii: int| 0 <= ii < s.len() && s[ii] == f[i];
        let jj = choose|jj: int| 0 <= jj < s.len() && s[jj] == f[j];
        if ii == jj {
            assert(f[i].0 == f[j].0);
        } else {
            assert(!is_strict_prefix_of(s[ii].0, s[jj].0));
        }
    }
}

/// A filter splits at any cut point.
pub proof fn lemma_filter_split<A>(s: Seq<A>, pred: spec_fn(A) -> bool, i: int)
    requires
        0 <= i <= s.len(),
    ensures
        s.filter(pred) == s.take(i).filter(pred) + s.skip(i).filter(pred),
{
    assert(s =~= s.take(i) + s.skip(i));
    Seq::filter_distributes_over_add(s.take(i), s.skip(i), pred);
}

/// A well-formed state stays well-formed on any contiguous slice.
pub proof fn lemma_wf_subrange<V>(s: Seq<(Seq<u8>, V)>, a: int, b: int)
    requires
        wf_entries(s),
        0 <= a <= b <= s.len(),
    ensures
        wf_entries(s.subrange(a, b)),
{
    let t = s.subrange(a, b);
    assert(forall|i: int| 0 <= i < t.len() ==> #[trigger] t[i] == s[a + i]);
}

/// Removing the key found at an index cuts exactly that entry out.
pub proof fn lemma_removed_at<V>(s: Seq<(Seq<u8>, V)>, k: Seq<u8>, i: int)
    requires
        keys_strictly_sorted(s),
        0 <= i < s.len(),
        s[i].0 == k,
    ensures
        removed(s, k) == s.take(i) + s.skip(i + 1),
{
    let pred = other_key::<V>(k);
    lemma_lex_lt_irrefl(k);
    lemma_filter_split(s, pred, i);
    assert(s.skip(i) =~= seq![s[i]] + s.skip(i + 1));
    Seq::filter_distributes_over_add(seq![s[i]], s.skip(i + 1), pred);
    lemma_filter_singleton(s[i], pred);
    assert forall|j: int| 0 <= j < s.take(i).len() implies pred(#[trigger] s.take(i)[j]) by {
        assert(s.take(i)[j] == s[j]);
        assert(lex_lt(s[j].0, s[i].0));
    }
    lemma_filter_all_true(s.take(i), pred);
    assert forall|j: int| 0 <= j < s.skip(i + 1).len() implies pred(
        #[trigger] s.skip(i + 1)[j],
    ) by {
        assert(s.skip(i + 1)[j] == s[i + 1 + j]);
        assert(lex_lt(s[i].0, s[i + 1 + j].0));
    }
    lemma_filter_all_true(s.skip(i + 1), pred);
    assert(removed(s, k) =~= s.take(i) + s.skip(i + 1));
}

/// Prefix-freedom invariant: a forced insertion into a well-formed
/// state yields a well-formed state, so after any sequence of forced
/// inserts no live key is a proper prefix of another and the order
/// stays strictly ascending.
pub proof fn lemma_inserted_wf<V>(s: Seq<(Seq<u8>, V)>, k: Seq<u8>, v: V)
    requires
        wf_entries(s),
    ensures
        wf_entries(inserted(s, k, v)),
{
    let lo = low_entries(s, k);
    let hi = high_entries(s, k);
    let r = inserted(s, k, v);
    let plo = survives_below::<V>(k);
    let phi = survives_above::<V>(k);
    lemma_filter_sorted(s, plo);
    lemma_filter_sorted(s, phi);
    lemma_filter_prefix_free(s, plo);
    lemma_filter_prefix_free(s, phi);
    lemma_filter_element_of(s, plo);
    lemma_filter_element_of(s, phi);
    assert forall|i: int, j: int|
        #![trigger r[i], r[j]]
        0 <= i < j < r.len() implies lex_lt(r[i].0, r[j].0) by {
        if i < lo.len() && j < lo.len() {
            assert(r[i] == lo[i]);
            assert(r[j] == lo[j]);
        } else if i < lo.len() && j == lo.len() {
            assert(r[i] == lo[i]);
            assert(plo(lo[i]));
        } else if i < lo.len() {
            assert(r[i] == lo[i]);
            assert(r[j] == hi[j - lo.len() - 1]);
            assert(plo(lo[i]));
            assert(phi(hi[j - lo.len() - 1]));
            lemma_lex_lt_trans(r[i].0, k, r[j].0);
        } else if i == lo.len() {
            assert(r[j] == hi[j - lo.len() - 1]);
            assert(phi(hi[j - lo.len() - 1]));
        } else {
            assert(r[i] == hi[i - lo.len() - 1]);
            assert(r[j] == hi[j - lo.len() - 1]);
        }
    }
    assert forall|i: int, j: int|
        #![trigger r[i], r[j]]
        0 <= i < r.len() && 0 <= j < r.len() && i != j implies !is_strict_prefix_of(
        r[i].0,
        r[j].0,
    ) by {
        let x = r[i];
        let y = r[j];
        if i == lo.len() || j == lo.len() {
            if i == lo.len() && j == lo.len() {
                assert(false);
            } else if i == lo.len() {
                if j < lo.len() {
                    assert(y == lo[j]);
                    assert(plo(lo[j]));
                } else {
                    assert(y == hi[j - lo.len() - 1]);
                    assert(phi(hi[j - lo.len() - 1]));
                }
                assert(!conflicts_with(y.0, k));
                assert(x.0 == k);
            } else {
                if i < lo.len() {
                    assert(x == lo[i]);
                    assert(plo(lo[i]));
                } else {
                    assert(x == hi[i - lo.len() - 1]);
                    assert(phi(hi[i - lo.len() - 1]));
                }
                assert(!conflicts_with(x.0, k));
                assert(y.0 == k);
            }
        } else {
            let xi = if i < lo.len() {
                choose|ii: int| 0 <= ii < s.len() && s[ii] == lo[i]
            } else {
                choose|ii: int| 0 <= ii < s.len() && s[ii] == hi[i - lo.len() - 1]
            };
            let yj = if j < lo.len() {
                choose|jj: int| 0 <= jj < s.len() && s[jj] == lo[j]
            } else {
                choose|jj: int| 0 <= jj < s.len() && s[jj] == hi[j - lo.len() - 1]
            };
            if i < lo.len() {
                assert(lo.contains(lo[i]));
                assert(s[xi] == x);
            } else {
                assert(hi.contains(hi[i - lo.len() - 1]));
                assert(s[xi] == x);
            }
            if j < lo.len() {
                assert(s[yj] == y);
            } else {
                assert(s[yj] == y);
            }
            if xi == yj {
                assert(x.0 == y.0);
            } else {
                assert(!is_strict_prefix_of(s[xi].0, s[yj].0));
            }
        }
    }
}

/// Eviction correctness: after inserting `k`, no key that conflicted
/// with `k` (other than `k` itself) is present, so its value is gone.
pub proof fn lemma_inserted_evicts<V>(s: Seq<(Seq<u8>, V)>, k: Seq<u8>, v: V, a: Seq<u8>)
    requires
        a != k,
        conflicts_with(a, k),
    ensures
        !has_key(inserted(s, k, v), a),
        lookup(inserted(s, k, v), a) == None::<V>,
{
    let lo = low_entries(s, k);
    let hi = high_entries(s, k);
    let r = inserted(s, k, v);
    let plo = survives_below::<V>(k);
    let phi = survives_above::<V>(k);
    lemma_filter_element_of(s, plo);
    lemma_filter_element_of(s, phi);
    assert forall|i: int| 0 <= i < r.len() implies #[trigger] r[i].0 != a by {
        if i < lo.len() {
            assert(r[i] == lo[i]);
            assert(plo(lo[i]));
        } else if i == lo.len() {
            assert(r[i].0 == k);
        } else {
            assert(r[i] == hi[i - lo.len() - 1]);
            assert(phi(hi[i - lo.len() - 1]));
        }
    }
    lemma_lookup_none(r, a);
}

/// With unique keys, the entry found at an index is the lookup result.
pub proof fn lemma_lookup_at<V>(s: Seq<(Seq<u8>, V)>, k: Seq<u8>, i: int)
    requires
        keys_strictly_sorted(s),
        0 <= i < s.len(),
        s[i].0 == k,
    ensures
        lookup(s, k) == Some(s[i].1),
        has_key(s, k),
    decreases s.len(),
{
    if i == 0 {
    } else {
        assert(lex_lt(s[0].0, s[i].0));
        lemma_lex_lt_irrefl(k);
        assert(s[0].0 != k);
        let d = s.drop_first();
        assert(keys_strictly_sorted(d)) by {
            assert forall|x: int, y: int|
                #![trigger d[x], d[y]]
                0 <= x < y < d.len() implies lex_lt(d[x].0, d[y].0) by {
                assert(d[x] == s[x + 1]);
                assert(d[y] == s[y + 1]);
            }
        }
        assert(d[i - 1] == s[i]);
        lemma_lookup_at(d, k, i - 1);
    }
}

/// A key absent everywhere looks up to nothing.
pub proof fn lemma_lookup_none<V>(s: Seq<(Seq<u8>, V)>, k: Seq<u8>)
    requires
        forall|i: int| 0 <= i < s.len() ==> #[trigger] s[i].0 != k,
    ensures
        lookup(s, k) == None::<V>,
        !has_key(s, k),
    decreases s.len(),
{
    if s.len() > 0 {
        let d = s.drop_first();
        assert(forall|i: int| 0 <= i < d.len() ==> #[trigger] d[i] == s[i + 1]);
        lemma_lookup_none(d, k);
    }
}

/// Round trip: inserting `(k, v)` and looking `k` up immediately
/// afterwards yields `v`.
pub proof fn lemma_inserted_lookup<V>(s: Seq<(Seq<u8>, V)>, k: Seq<u8>, v: V)
    requires
        wf_entries(s),
    ensures
        lookup(inserted(s, k, v), k) == Some(v),
{
    let lo = low_entries(s, k);
    let r = inserted(s, k, v);
    lemma_inserted_wf(s, k, v);
    assert(r[lo.len() as int] == (k, v));
    lemma_lookup_at(r, k, lo.len() as int);
}

/// Removal keeps the state well-formed.
pub proof fn lemma_removed_wf<V>(s: Seq<(Seq<u8>, V)>, k: Seq<u8>)
    requires
        wf_entries(s),
    ensures
        wf_entries(removed(s, k)),
{
    let pred = other_key::<V>(k);
    lemma_filter_sorted(s, pred);
    lemma_filter_prefix_free(s, pred);
}

/// Ordering law: in a well-formed state the keys strictly ascend, so a
/// full traversal yields them in strictly increasing lexicographic
/// order, with the minimum first and the maximum last.
pub proof fn lemma_iteration_ascending<V>(s: Seq<(Seq<u8>, V)>)
    requires
        wf_entries(s),
    ensures
        forall|i: int, j: int|
            #![trigger s[i], s[j]]
            0 <= i < j < s.len() ==> lex_lt(s[i].0, s[j].0),
{
}

} // verus!
