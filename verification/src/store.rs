//! The core ordered store.
//!
//! `TreeMap` keeps `(key, value)` entries in strictly ascending
//! lexicographic byte order and enforces prefix-freedom: no live key
//! is a proper prefix of another.  Insertion resolves prefix conflicts
//! by evicting every conflicting entry first, so that a well-formed
//! key can always be stored; lookups never fail on absence, they
//! return nothing.  Values are opaque copyable handles to caller-owned
//! data; the store never inspects them.

use vstd::prelude::*;

use crate::cursor::Cursor;
use crate::keyorder::{
    copy_key, is_prefix_of, key_cmp, key_starts_with, lemma_lex_lt_asym, lemma_lex_lt_irrefl,
    lemma_lex_lt_total, lemma_lex_lt_trans, lemma_prefix_lex_le, lemma_prefix_window, lex_lt,
    KeyOrder,
};
use crate::levenshtein::{lev, levenshtein_distance};
use crate::model::{
    entries_view, entries_with_prefix, has_key, inserted, key_has_prefix, keys_of,
    keys_strictly_sorted, keys_view, lemma_filter_all_false, lemma_filter_all_true,
    lemma_filter_element_of, lemma_filter_in, lemma_filter_push, lemma_filter_singleton,
    lemma_filter_split, lemma_inserted_wf, lemma_lookup_at, lemma_lookup_none, lemma_removed_at,
    lemma_removed_wf, lemma_wf_subrange, lookup, low_entries, other_key, removed, survives_above,
    survives_below, values_of, wf_entries,
};
use crate::text::{decode_key, key_chars};

verus! {

/// An entry's decoded key is within distance `d` of the decoded query.
pub open spec fn within_distance<V>(q: Seq<char>, d: int) -> spec_fn((Seq<u8>, V)) -> bool {
    |e: (Seq<u8>, V)| lev(q, key_chars(e.0)) <= d
}

/// An entry annotated with its exact distance from the decoded query.
pub open spec fn with_distance<V>(q: Seq<char>) -> spec_fn((Seq<u8>, V)) -> (Seq<u8>, V, int) {
    |e: (Seq<u8>, V)| (e.0, e.1, lev(q, key_chars(e.0)))
}

/// Fuzzy search result: the entries within distance `d` of the decoded
/// query, in store order, each with its exact distance.
pub open spec fn fuzzy_results<V>(s: Seq<(Seq<u8>, V)>, q: Seq<char>, d: int) -> Seq<
    (Seq<u8>, V, int),
> {
    s.filter(within_distance(q, d)).map_values(with_distance(q))
}

/// The ghost contents of a result vector of `(key, value, distance)`.
pub open spec fn triples_view<V>(s: Seq<(Vec<u8>, V, usize)>) -> Seq<(Seq<u8>, V, int)> {
    s.map_values(|t: (Vec<u8>, V, usize)| (t.0@, t.1, t.2 as int))
}

/// Every decoded key is short enough to measure against the decoded
/// query without the distance table indices leaving `usize`.
pub open spec fn fuzzy_feasible<V>(s: Seq<(Seq<u8>, V)>, q: Seq<u8>) -> bool {
    forall|i: int|
        0 <= i < s.len() ==> key_chars(q).len() + key_chars(#[trigger] s[i].0).len() <= usize::MAX
}

/// The triple `t` reports a store entry of `s` with its exact
/// distance from the decoded query, within the budget.
pub open spec fn result_from_store<V>(
    s: Seq<(Seq<u8>, V)>,
    q: Seq<char>,
    d: int,
    t: (Seq<u8>, V, int),
) -> bool {
    exists|i: int|
        0 <= i < s.len() && t == (s[i].0, s[i].1, lev(q, key_chars(#[trigger] s[i].0))) && lev(
            q,
            key_chars(s[i].0),
        ) <= d
}

/// Fuzzy search correctness as a set: the results hold exactly the
/// store entries whose decoded keys lie within distance `d` of the
/// decoded query, each annotated with its exact distance.
pub proof fn lemma_fuzzy_results_set<V>(s: Seq<(Seq<u8>, V)>, q: Seq<char>, d: int)
    ensures
        forall|i: int|
            0 <= i < s.len() && lev(q, key_chars(#[trigger] s[i].0)) <= d ==> fuzzy_results(
                s,
                q,
                d,
            ).contains((s[i].0, s[i].1, lev(q, key_chars(s[i].0)))),
        forall|j: int|
            0 <= j < fuzzy_results(s, q, d).len() ==> result_from_store(
                s,
                q,
                d,
                #[trigger] fuzzy_results(s, q, d)[j],
            ),
{
    let fpred = within_distance::<V>(q, d);
    let fmap = with_distance::<V>(q);
    let f = s.filter(fpred);
    let r = fuzzy_results(s, q, d);
    lemma_filter_element_of(s, fpred);
    assert forall|i: int|
        0 <= i < s.len() && lev(q, key_chars(#[trigger] s[i].0)) <= d implies r.contains(
        (s[i].0, s[i].1, lev(q, key_chars(s[i].0))),
    ) by {
        assert(fpred(s[i]));
        lemma_filter_in(s, fpred, i);
        let j = choose|j: int| 0 <= j < f.len() && f[j] == s[i];
        assert(r[j] == fmap(s[i]));
    }
    assert forall|j: int| 0 <= j < r.len() implies result_from_store(s, q, d, r[j]) by {
        assert(r[j] == fmap(f[j]));
        assert(fpred(f[j]) && s.contains(f[j]));
        let i = choose|i: int| 0 <= i < s.len() && s[i] == f[j];
        assert(lev(q, key_chars(s[i].0)) <= d);
        assert(r[j] == (s[i].0, s[i].1, lev(q, key_chars(s[i].0))));
    }
}

/// The effect of force-inserting a sequence of pairs, first to last.
pub open spec fn inserted_all<V>(s: Seq<(Seq<u8>, V)>, ps: Seq<(Seq<u8>, V)>) -> Seq<(Seq<u8>, V)>
    decreases ps.len(),
{
    if ps.len() == 0 {
        s
    } else {
        inserted(inserted_all(s, ps.drop_last()), ps.last().0, ps.last().1)
    }
}

/// An ordered, prefix-free map from byte-string keys to opaque values.
pub struct TreeMap<V> {
    entries: Vec<(Vec<u8>, V)>,
}

impl<V> View for TreeMap<V> {
    type V = Seq<(Seq<u8>, V)>;

    closed spec fn view(&self) -> Seq<(Seq<u8>, V)> {
        entries_view(self.entries@)
    }
}

impl<V: Copy> TreeMap<V> {
    /// The store's invariant: keys strictly ascend and are prefix-free.
    pub open spec fn wf(&self) -> bool {
        wf_entries(self@)
    }

    /// A new, empty store.
    pub fn new() -> (t: Self)
        ensures
            t@ == Seq::<(Seq<u8>, V)>::empty(),
            t.wf(),
    {
        let t = TreeMap { entries: Vec::new() };
        proof {
            assert(t@ =~= Seq::<(Seq<u8>, V)>::empty());
        }
        t
    }

    /// The number of live entries.
    pub fn len(&self) -> (n: usize)
        ensures
            n == self@.len(),
    {
        self.entries.len()
    }

    pub fn is_empty(&self) -> (r: bool)
        ensures
            r == (self@.len() == 0),
    {
        self.entries.len() == 0
    }

    /// Drop every entry.
    pub fn clear(&mut self)
        ensures
            final(self)@ == Seq::<(Seq<u8>, V)>::empty(),
            final(self).wf(),
    {
        self.entries.clear();
        proof {
            assert(self@ =~= Seq::<(Seq<u8>, V)>::empty());
        }
    }

    /// The index of the first entry whose key is not below `key`.
    fn lower_bound(entries: &Vec<(Vec<u8>, V)>, key: &Vec<u8>) -> (idx: usize)
        requires
            keys_strictly_sorted(entries_view(entries@)),
        ensures
            idx <= entries@.len(),
            forall|j: int|
                0 <= j < idx ==> lex_lt(#[trigger] entries_view(entries@)[j].0, key@),
            forall|j: int|
                idx <= j < entries@.len() ==> !lex_lt(
                    #[trigger] entries_view(entries@)[j].0,
                    key@,
                ),
    {
        let ghost s = entries_view(entries@);
        let mut lo: usize = 0;
        let mut hi: usize = entries.len();
        while lo < hi
            invariant
                lo <= hi <= entries@.len(),
                s == entries_view(entries@),
                keys_strictly_sorted(s),
                forall|j: int| 0 <= j < lo ==> lex_lt(#[trigger] s[j].0, key@),
                forall|j: int| hi <= j < s.len() ==> !lex_lt(#[trigger] s[j].0, key@),
            decreases hi - lo,
        {
            let mid: usize = lo + (hi - lo) / 2;
            let c = key_cmp(&entries[mid].0, key);
            if c == KeyOrder::Less {
                proof {
                    assert forall|j: int| 0 <= j < mid + 1 implies lex_lt(
                        #[trigger] s[j].0,
                        key@,
                    ) by {
                        if j < mid {
                            assert(lex_lt(s[j].0, s[mid as int].0));
                            lemma_lex_lt_trans(s[j].0, s[mid as int].0, key@);
                        }
                    }
                }
                lo = mid + 1;
            } else {
                proof {
                    lemma_lex_lt_irrefl(key@);
                    assert forall|j: int| mid <= j < s.len() implies !lex_lt(
                        #[trigger] s[j].0,
                        key@,
                    ) by {
                        if j > mid {
                            if lex_lt(s[j].0, key@) {
                                assert(lex_lt(s[mid as int].0, s[j].0));
                                lemma_lex_lt_trans(s[mid as int].0, s[j].0, key@);
                            }
                        }
                    }
                }
                hi = mid;
            }
        }
        lo
    }

    /// The value stored under `key`, if any.
    pub fn get(&self, key: &Vec<u8>) -> (r: Option<V>)
        requires
            self.wf(),
        ensures
            r == lookup(self@, key@),
            r is Some == has_key(self@, key@),
    {
        let ghost s = self@;
        let idx = Self::lower_bound(&self.entries, key);
        if idx < self.entries.len() {
            let c = key_cmp(&self.entries[idx].0, key);
            if c == KeyOrder::Equal {
                proof {
                    lemma_lookup_at(s, key@, idx as int);
                }
                return Some(self.entries[idx].1);
            }
        }
        proof {
            Self::lemma_absent(s, key@, idx as int);
        }
        None
    }

    /// Is `key` live in the store?
    pub fn contains(&self, key: &Vec<u8>) -> (r: bool)
        requires
            self.wf(),
        ensures
            r == has_key(self@, key@),
    {
        let ghost s = self@;
        let idx = Self::lower_bound(&self.entries, key);
        if idx < self.entries.len() {
            let c = key_cmp(&self.entries[idx].0, key);
            if c == KeyOrder::Equal {
                proof {
                    lemma_lookup_at(s, key@, idx as int);
                }
                return true;
            }
        }
        proof {
            Self::lemma_absent(s, key@, idx as int);
        }
        false
    }

    /// Force-insert `key` with `value`.  Every entry whose key equals
    /// `key`, is a proper prefix of it, or extends it is evicted first,
    /// then the pair is stored at its place in the order; insertion of
    /// a well-formed key therefore always succeeds.  Returns the value
    /// previously held under exactly `key`, if any.
    #[verifier::loop_isolation(false)]
    pub fn insert(&mut self, key: Vec<u8>, value: V) -> (prev: Option<V>)
        requires
            old(self).wf(),
        ensures
            final(self).wf(),
            final(self)@ == inserted(old(self)@, key@, value),
            prev == lookup(old(self)@, key@),
    {
        let ghost s = self@;
        let n = self.entries.len();
        let idx = Self::lower_bound(&self.entries, &key);
        let ghost plo = survives_below::<V>(key@);
        let ghost phi = survives_above::<V>(key@);
        let mut out: Vec<(Vec<u8>, V)> = Vec::new();
        // Keep the surviving entries that precede `key`.
        let mut i: usize = 0;
        while i < idx
            invariant
                i <= idx,
                entries_view(out@) == s.take(i as int).filter(plo),
            decreases idx - i,
        {
            let keep = !key_starts_with(&key, &self.entries[i].0);
            proof {
                let e = s[i as int];
                assert(lex_lt(e.0, key@));
                lemma_lex_lt_irrefl(e.0);
                lemma_lex_lt_asym(e.0, key@);
                if is_prefix_of(key@, e.0) {
                    lemma_prefix_lex_le(key@, e.0);
                    assert(false);
                }
                assert(plo(e) == keep);
                assert(s.take(i + 1) =~= s.take(i as int).push(e));
                lemma_filter_push(s.take(i as int), plo, e);
            }
            if keep {
                let kc = copy_key(&self.entries[i].0);
                out.push((kc, self.entries[i].1));
                proof {
                    assert(entries_view(out@) =~= s.take(i + 1).filter(plo));
                }
            } else {
                proof {
                    assert(entries_view(out@) =~= s.take(i + 1).filter(plo));
                }
            }
            i = i + 1;
        }
        proof {
            lemma_filter_split(s, plo, idx as int);
            assert forall|j: int| 0 <= j < s.skip(idx as int).len() implies !plo(
                #[trigger] s.skip(idx as int)[j],
            ) by {
                assert(s.skip(idx as int)[j] == s[idx + j]);
                assert(!lex_lt(s[idx + j].0, key@));
            }
            lemma_filter_all_false(s.skip(idx as int), plo);
            assert(low_entries(s, key@) =~= s.take(idx as int).filter(plo));
        }
        // Evict an entry holding exactly `key`, remembering its value.
        let mut prev: Option<V> = None;
        let mut start: usize = idx;
        if idx < n {
            let c = key_cmp(&self.entries[idx].0, &key);
            if c == KeyOrder::Equal {
                prev = Some(self.entries[idx].1);
                start = idx + 1;
                proof {
                    lemma_lookup_at(s, key@, idx as int);
                }
            } else {
                proof {
                    Self::lemma_absent(s, key@, idx as int);
                }
            }
        } else {
            proof {
                Self::lemma_absent(s, key@, idx as int);
            }
        }
        let kc = copy_key(&key);
        out.push((kc, value));
        proof {
            assert(entries_view(out@) =~= low_entries(s, key@) + seq![(key@, value)]);
            // Everything from `start` on is strictly above `key`.
            lemma_lex_lt_irrefl(key@);
            assert forall|j: int| start <= j < n implies lex_lt(key@, #[trigger] s[j].0) by {
                if start == idx + 1 {
                    assert(s[idx as int].0 == key@);
                    assert(lex_lt(s[idx as int].0, s[j].0));
                } else {
                    if j > idx {
                        if s[j].0 == key@ {
                            assert(lex_lt(s[idx as int].0, s[j].0));
                            assert(false);
                        }
                    }
                    lemma_lex_lt_total(key@, s[j].0);
                }
            }
            // Nothing before `start` survives above `key`.
            assert(key@.take(key@.len() as int) =~= key@);
            assert forall|j: int| 0 <= j < s.take(start as int).len() implies !phi(
                #[trigger] s.take(start as int)[j],
            ) by {
                assert(s.take(start as int)[j] == s[j]);
                if j < idx {
                    lemma_lex_lt_asym(s[j].0, key@);
                } else {
                    assert(s[j].0 == key@);
                    assert(is_prefix_of(key@, s[j].0));
                }
            }
            lemma_filter_all_false(s.take(start as int), phi);
        }
        // Keep the surviving entries that follow `key`.
        let mut j: usize = start;
        while j < n
            invariant
                start <= j <= n,
                entries_view(out@) == low_entries(s, key@) + seq![(key@, value)] + s.take(
                    j as int,
                ).filter(phi),
            decreases n - j,
        {
            let keep = !key_starts_with(&self.entries[j].0, &key);
            proof {
                let e = s[j as int];
                assert(lex_lt(key@, e.0));
                lemma_lex_lt_irrefl(e.0);
                lemma_lex_lt_asym(key@, e.0);
                if is_prefix_of(e.0, key@) {
                    lemma_prefix_lex_le(e.0, key@);
                    assert(false);
                }
                assert(phi(e) == keep);
                assert(s.take(j + 1) =~= s.take(j as int).push(e));
                lemma_filter_push(s.take(j as int), phi, e);
            }
            if keep {
                let ghost out0 = out@;
                let kc2 = copy_key(&self.entries[j].0);
                let pair = (kc2, self.entries[j].1);
                out.push(pair);
                proof {
                    let e = s[j as int];
                    assert(out@ == out0.push(pair));
                    assert(entries_view(out@) =~= entries_view(out0).push((pair.0@, pair.1)));
                    assert((pair.0@, pair.1) == e);
                    assert(s.take(j + 1).filter(phi) == s.take(j as int).filter(phi).push(e));
                    assert(entries_view(out@) =~= low_entries(s, key@) + seq![(key@, value)]
                        + s.take(j + 1).filter(phi));
                }
            } else {
                proof {
                    assert(entries_view(out@) =~= low_entries(s, key@) + seq![(key@, value)]
                        + s.take(j + 1).filter(phi));
                }
            }
            j = j + 1;
        }
        self.entries = out;
        proof {
            assert(s.take(n as int) =~= s);
            assert(self@ == inserted(s, key@, value));
            lemma_inserted_wf(s, key@, value);
        }
        prev
    }

    /// Remove exactly `key`, returning its value; absence is not an
    /// error, the store is simply unchanged.
    pub fn remove(&mut self, key: &Vec<u8>) -> (r: Option<V>)
        requires
            old(self).wf(),
        ensures
            final(self).wf(),
            final(self)@ == removed(old(self)@, key@),
            r == lookup(old(self)@, key@),
    {
        let ghost s = self@;
        let idx = Self::lower_bound(&self.entries, key);
        if idx < self.entries.len() {
            let c = key_cmp(&self.entries[idx].0, key);
            if c == KeyOrder::Equal {
                let entry = self.entries.remove(idx);
                proof {
                    lemma_lookup_at(s, key@, idx as int);
                    lemma_removed_at(s, key@, idx as int);
                    assert forall|q: int| 0 <= q < self.entries@.len() implies entries_view(
                        self.entries@,
                    )[q] == (s.take(idx as int) + s.skip(idx + 1))[q] by {
                        if q < idx {
                            assert(self.entries@[q] == old(self).entries@[q]);
                        } else {
                            assert(self.entries@[q] == old(self).entries@[q + 1]);
                        }
                    }
                    assert(self@ =~= removed(s, key@));
                    lemma_removed_wf(s, key@);
                }
                return Some(entry.1);
            }
        }
        proof {
            Self::lemma_absent(s, key@, idx as int);
            let pred = other_key::<V>(key@);
            assert forall|q: int| 0 <= q < s.len() implies pred(#[trigger] s[q]) by {}
            lemma_filter_all_true(s, pred);
        }
        None
    }

    /// The entry with the least key, if any.
    pub fn first(&self) -> (r: Option<(Vec<u8>, V)>)
        ensures
            match r {
                Some(e) => self@.len() > 0 && e.0@ == self@[0].0 && e.1 == self@[0].1,
                None => self@.len() == 0,
            },
    {
        if self.entries.len() == 0 {
            None
        } else {
            Some((copy_key(&self.entries[0].0), self.entries[0].1))
        }
    }

    /// The entry with the greatest key, if any.
    pub fn last(&self) -> (r: Option<(Vec<u8>, V)>)
        ensures
            match r {
                Some(e) => self@.len() > 0 && e.0@ == self@[self@.len() - 1].0 && e.1
                    == self@[self@.len() - 1].1,
                None => self@.len() == 0,
            },
    {
        let n = self.entries.len();
        if n == 0 {
            None
        } else {
            Some((copy_key(&self.entries[n - 1].0), self.entries[n - 1].1))
        }
    }

    /// Remove and return the entry with the least key, if any.
    pub fn pop_first(&mut self) -> (r: Option<(Vec<u8>, V)>)
        requires
            old(self).wf(),
        ensures
            final(self).wf(),
            match r {
                Some(e) => old(self)@.len() > 0 && e.0@ == old(self)@[0].0 && e.1 == old(
                    self,
                )@[0].1 && final(self)@ == old(self)@.drop_first(),
                None => old(self)@.len() == 0 && final(self)@ == old(self)@,
            },
    {
        let ghost s = self@;
        if self.entries.len() == 0 {
            None
        } else {
            let e = self.entries.remove(0);
            proof {
                assert forall|q: int| 0 <= q < self.entries@.len() implies entries_view(
                    self.entries@,
                )[q] == s.drop_first()[q] by {
                    assert(self.entries@[q] == old(self).entries@[q + 1]);
                }
                assert(self@ =~= s.drop_first());
                lemma_wf_subrange(s, 1, s.len() as int);
                assert(s.drop_first() =~= s.subrange(1, s.len() as int));
            }
            Some(e)
        }
    }

    /// Remove and return the entry with the greatest key, if any.
    pub fn pop_last(&mut self) -> (r: Option<(Vec<u8>, V)>)
        requires
            old(self).wf(),
        ensures
            final(self).wf(),
            match r {
                Some(e) => old(self)@.len() > 0 && e.0@ == old(self)@[old(self)@.len() - 1].0
                    && e.1 == old(self)@[old(self)@.len() - 1].1 && final(self)@ == old(
                    self,
                )@.drop_last(),
                None => old(self)@.len() == 0 && final(self)@ == old(self)@,
            },
    {
        let ghost s = self@;
        let n = self.entries.len();
        if n == 0 {
            None
        } else {
            let e = self.entries.remove(n - 1);
            proof {
                assert forall|q: int| 0 <= q < self.entries@.len() implies entries_view(
                    self.entries@,
                )[q] == s.drop_last()[q] by {
                    assert(self.entries@[q] == old(self).entries@[q]);
                }
                assert(self@ =~= s.drop_last());
                lemma_wf_subrange(s, 0, s.len() - 1);
                assert(s.drop_last() =~= s.subrange(0, s.len() - 1));
            }
            Some(e)
        }
    }

    /// Every entry in ascending key order, materialised at the call.
    #[verifier::loop_isolation(false)]
    pub fn iterate(&self) -> (r: Vec<(Vec<u8>, V)>)
        ensures
            entries_view(r@) == self@,
    {
        let mut out: Vec<(Vec<u8>, V)> = Vec::new();
        let mut i: usize = 0;
        while i < self.entries.len()
            invariant
                i <= self.entries@.len(),
                entries_view(out@) == self@.take(i as int),
            decreases self.entries@.len() - i,
        {
            let pair = (copy_key(&self.entries[i].0), self.entries[i].1);
            out.push(pair);
            proof {
                assert(entries_view(out@) =~= self@.take(i + 1));
            }
            i = i + 1;
        }
        proof {
            assert(self@.take(self@.len() as int) =~= self@);
        }
        out
    }

    /// Every key in ascending order, materialised at the call.
    #[verifier::loop_isolation(false)]
    pub fn keys(&self) -> (r: Vec<Vec<u8>>)
        ensures
            keys_view(r@) == keys_of(self@),
    {
        let mut out: Vec<Vec<u8>> = Vec::new();
        let mut i: usize = 0;
        while i < self.entries.len()
            invariant
                i <= self.entries@.len(),
                keys_view(out@) == keys_of(self@).take(i as int),
            decreases self.entries@.len() - i,
        {
            out.push(copy_key(&self.entries[i].0));
            proof {
                assert(keys_view(out@) =~= keys_of(self@).take(i + 1));
            }
            i = i + 1;
        }
        proof {
            assert(keys_of(self@).take(self@.len() as int) =~= keys_of(self@));
        }
        out
    }

    /// Every value, in ascending order of key, materialised at the call.
    #[verifier::loop_isolation(false)]
    pub fn values(&self) -> (r: Vec<V>)
        ensures
            r@ == values_of(self@),
    {
        let mut out: Vec<V> = Vec::new();
        let mut i: usize = 0;
        while i < self.entries.len()
            invariant
                i <= self.entries@.len(),
                out@ == values_of(self@).take(i as int),
            decreases self.entries@.len() - i,
        {
            out.push(self.entries[i].1);
            proof {
                assert(out@ =~= values_of(self@).take(i + 1));
            }
            i = i + 1;
        }
        proof {
            assert(values_of(self@).take(self@.len() as int) =~= values_of(self@));
        }
        out
    }

    /// A cursor over a snapshot of the store taken at this call.
    pub fn iter(&self) -> (c: Cursor<V>)
        ensures
            c.snapshot() == self@,
            c.position() == 0,
            c.wf(),
    {
        Cursor::new(self.iterate())
    }

    /// Build a store by force-inserting `pairs` first to last; later
    /// pairs may overwrite or evict earlier ones.
    #[verifier::loop_isolation(false)]
    pub fn from_pairs(pairs: &Vec<(Vec<u8>, V)>) -> (t: Self)
        ensures
            t.wf(),
            t@ == inserted_all(Seq::<(Seq<u8>, V)>::empty(), entries_view(pairs@)),
    {
        let ghost ps = entries_view(pairs@);
        let mut t = Self::new();
        let mut i: usize = 0;
        while i < pairs.len()
            invariant
                i <= pairs@.len(),
                t.wf(),
                t@ == inserted_all(Seq::<(Seq<u8>, V)>::empty(), ps.take(i as int)),
            decreases pairs@.len() - i,
        {
            let k = copy_key(&pairs[i].0);
            t.insert(k, pairs[i].1);
            proof {
                assert(ps.take(i + 1).drop_last() =~= ps.take(i as int));
                assert(ps.take(i + 1).last() == ps[i as int]);
            }
            i = i + 1;
        }
        proof {
            assert(ps.take(ps.len() as int) =~= ps);
        }
        t
    }

    /// Every entry whose key starts with `p`, in ascending key order:
    /// exactly the subsequence of a full traversal whose keys extend
    /// `p`, in the same relative order.  No match is an empty result,
    /// never an error.
    #[verifier::loop_isolation(false)]
    pub fn prefix(&self, p: &Vec<u8>) -> (r: Vec<(Vec<u8>, V)>)
        requires
            self.wf(),
        ensures
            entries_view(r@) == entries_with_prefix(self@, p@),
    {
        let ghost s = self@;
        let ghost pred = key_has_prefix::<V>(p@);
        let n = self.entries.len();
        let idx = Self::lower_bound(&self.entries, p);
        proof {
            lemma_lex_lt_irrefl(p@);
            assert forall|j: int| 0 <= j < s.take(idx as int).len() implies !pred(
                #[trigger] s.take(idx as int)[j],
            ) by {
                assert(s.take(idx as int)[j] == s[j]);
                if is_prefix_of(p@, s[j].0) {
                    lemma_prefix_lex_le(p@, s[j].0);
                    lemma_lex_lt_asym(s[j].0, p@);
                }
            }
            lemma_filter_all_false(s.take(idx as int), pred);
        }
        let mut out: Vec<(Vec<u8>, V)> = Vec::new();
        let mut j: usize = idx;
        while j < n && key_starts_with(&self.entries[j].0, p)
            invariant
                idx <= j <= n,
                entries_view(out@) == s.take(j as int).filter(pred),
            decreases n - j,
        {
            let ghost out0 = out@;
            let pair = (copy_key(&self.entries[j].0), self.entries[j].1);
            out.push(pair);
            proof {
                let e = s[j as int];
                assert((pair.0@, pair.1) == e);
                assert(entries_view(out@) =~= entries_view(out0).push(e));
                assert(s.take(j + 1) =~= s.take(j as int).push(e));
                lemma_filter_push(s.take(j as int), pred, e);
                assert(entries_view(out@) =~= s.take(j + 1).filter(pred));
            }
            j = j + 1;
        }
        proof {
            assert forall|q: int| 0 <= q < s.skip(j as int).len() implies !pred(
                #[trigger] s.skip(j as int)[q],
            ) by {
                assert(s.skip(j as int)[q] == s[j + q]);
                let x = s[j as int];
                if q > 0 {
                    assert(lex_lt(x.0, s[j + q].0));
                    lemma_prefix_window(p@, x.0, s[j + q].0);
                }
            }
            lemma_filter_all_false(s.skip(j as int), pred);
            lemma_filter_split(s, pred, j as int);
            assert(entries_with_prefix(s, p@) =~= entries_view(out@));
        }
        out
    }

    /// The first entry, in key order, whose key starts with `p`.
    pub fn get_prefix(&self, p: &Vec<u8>) -> (r: Option<(Vec<u8>, V)>)
        requires
            self.wf(),
        ensures
            match r {
                Some(e) => entries_with_prefix(self@, p@).len() > 0 && e.0@ == entries_with_prefix(
                    self@,
                    p@,
                )[0].0 && e.1 == entries_with_prefix(self@, p@)[0].1,
                None => entries_with_prefix(self@, p@).len() == 0,
            },
    {
        let ghost s = self@;
        let ghost pred = key_has_prefix::<V>(p@);
        let n = self.entries.len();
        let idx = Self::lower_bound(&self.entries, p);
        proof {
            lemma_lex_lt_irrefl(p@);
            assert forall|j: int| 0 <= j < s.take(idx as int).len() implies !pred(
                #[trigger] s.take(idx as int)[j],
            ) by {
                assert(s.take(idx as int)[j] == s[j]);
                if is_prefix_of(p@, s[j].0) {
                    lemma_prefix_lex_le(p@, s[j].0);
                    lemma_lex_lt_asym(s[j].0, p@);
                }
            }
            lemma_filter_all_false(s.take(idx as int), pred);
            lemma_filter_split(s, pred, idx as int);
        }
        if idx < n {
            if key_starts_with(&self.entries[idx].0, p) {
                proof {
                    let e = s[idx as int];
                    assert(s.skip(idx as int) =~= seq![e] + s.skip(idx + 1));
                    Seq::filter_distributes_over_add(seq![e], s.skip(idx + 1), pred);
                    lemma_filter_singleton(e, pred);
                    assert(entries_with_prefix(s, p@)[0] == e);
                }
                return Some((copy_key(&self.entries[idx].0), self.entries[idx].1));
            }
        }
        proof {
            assert forall|q: int| 0 <= q < s.skip(idx as int).len() implies !pred(
                #[trigger] s.skip(idx as int)[q],
            ) by {
                assert(s.skip(idx as int)[q] == s[idx + q]);
                let x = s[idx as int];
                if q > 0 {
                    assert(lex_lt(x.0, s[idx + q].0));
                    lemma_prefix_window(p@, x.0, s[idx + q].0);
                }
            }
            lemma_filter_all_false(s.skip(idx as int), pred);
        }
        None
    }

    /// Every entry whose decoded key is within `max_distance` edits of
    /// the decoded query, in ascending key order, each paired with its
    /// exact distance: the result equals a full traversal filtered by
    /// the Levenshtein distance bound.  The caveat covers only decoded
    /// lengths that could not fit the distance table in memory.
    #[verifier::loop_isolation(false)]
    pub fn fuzzy_search(&self, query: &Vec<u8>, max_distance: usize) -> (r: Vec<
        (Vec<u8>, V, usize),
    >)
        requires
            self.wf(),
        ensures
            fuzzy_feasible(self@, query@) ==> triples_view(r@) == fuzzy_results(
                self@,
                key_chars(query@),
                max_distance as int,
            ),
            forall|j: int|
                0 <= j < r@.len() ==> result_from_store(
                    self@,
                    key_chars(query@),
                    max_distance as int,
                    #[trigger] triples_view(r@)[j],
                ),
    {
        let ghost s = self@;
        let ghost q = key_chars(query@);
        let ghost d = max_distance as int;
        let ghost fpred = within_distance::<V>(q, d);
        let ghost fmap = with_distance::<V>(q);
        let qc = decode_key(query);
        let mut out: Vec<(Vec<u8>, V, usize)> = Vec::new();
        let mut i: usize = 0;
        while i < self.entries.len()
            invariant
                i <= self.entries@.len(),
                qc@ == q,
                fuzzy_feasible(s, query@) ==> triples_view(out@) == s.take(i as int).filter(
                    fpred,
                ).map_values(fmap),
                forall|t: int|
                    0 <= t < out@.len() ==> result_from_store(
                        s,
                        q,
                        d,
                        #[trigger] triples_view(out@)[t],
                    ),
            decreases self.entries@.len() - i,
        {
            let kc = decode_key(&self.entries[i].0);
            let ghost e = s[i as int];
            proof {
                assert(kc@ == key_chars(e.0));
            }
            if qc.len() <= usize::MAX - kc.len() {
                let dist = levenshtein_distance(&qc, &kc);
                if dist <= max_distance {
                    let ghost out0 = out@;
                    let trip = (copy_key(&self.entries[i].0), self.entries[i].1, dist);
                    out.push(trip);
                    proof {
                        assert(triples_view(out@) =~= triples_view(out0).push(
                            (trip.0@, trip.1, trip.2 as int),
                        ));
                        assert(lev(q, key_chars(s[i as int].0)) <= d);
                        assert((trip.0@, trip.1, trip.2 as int) == (
                            s[i as int].0,
                            s[i as int].1,
                            lev(q, key_chars(s[i as int].0)),
                        ));
                        assert(result_from_store(s, q, d, triples_view(out@).last()));
                        if fuzzy_feasible(s, query@) {
                            assert(fpred(e));
                            assert(triples_view(out@) =~= triples_view(out0).push(
                                (trip.0@, trip.1, trip.2 as int),
                            ));
                            assert((trip.0@, trip.1, trip.2 as int) == fmap(e));
                            assert(s.take(i + 1) =~= s.take(i as int).push(e));
                            lemma_filter_push(s.take(i as int), fpred, e);
                            assert(triples_view(out@) =~= s.take(i + 1).filter(fpred).map_values(
                                fmap,
                            ));
                        }
                    }
                } else {
                    proof {
                        if fuzzy_feasible(s, query@) {
                            assert(!fpred(e));
                            assert(s.take(i + 1) =~= s.take(i as int).push(e));
                            lemma_filter_push(s.take(i as int), fpred, e);
                            assert(triples_view(out@) =~= s.take(i + 1).filter(fpred).map_values(
                                fmap,
                            ));
                        }
                    }
                }
            } else {
                proof {
                    if fuzzy_feasible(s, query@) {
                        assert(q.len() + key_chars(e.0).len() <= usize::MAX);
                        assert(false);
                    }
                }
            }
            i = i + 1;
        }
        proof {
            if fuzzy_feasible(s, query@) {
                assert(s.take(s.len() as int) =~= s);
            }
        }
        out
    }

    /// After a failed probe at the lower bound, the key is nowhere.
    proof fn lemma_absent(s: Seq<(Seq<u8>, V)>, k: Seq<u8>, idx: int)
        requires
            keys_strictly_sorted(s),
            0 <= idx <= s.len(),
            forall|j: int| 0 <= j < idx ==> lex_lt(#[trigger] s[j].0, k),
            forall|j: int| idx <= j < s.len() ==> !lex_lt(#[trigger] s[j].0, k),
            idx < s.len() ==> s[idx].0 != k,
        ensures
            lookup(s, k) == None::<V>,
            !has_key(s, k),
    {
        lemma_lex_lt_irrefl(k);
        assert forall|j: int| 0 <= j < s.len() implies #[trigger] s[j].0 != k by {
            if j > idx {
                if s[j].0 == k {
                    assert(lex_lt(s[idx].0, s[j].0));
                }
            }
        }
        lemma_lookup_none(s, k);
    }
}

} // verus!
