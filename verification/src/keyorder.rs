//! Lexicographic byte order and prefix relations on keys.
//!
//! Keys are byte sequences and are ordered by unsigned byte comparison.
//! This module defines the order and the prefix relations as spec
//! functions, proves the order facts the store relies on (asymmetry,
//! transitivity, totality, and that keys sharing a prefix form one
//! contiguous run), and provides the executable comparisons.

use vstd::prelude::*;

verus! {

/// Strict lexicographic order on byte sequences: unsigned byte
/// comparison, with a proper prefix ordered before its extensions.
pub open spec fn lex_lt(a: Seq<u8>, b: Seq<u8>) -> bool
    decreases a.len(),
{
    if b.len() == 0 {
        false
    } else if a.len() == 0 {
        true
    } else if a[0] < b[0] {
        true
    } else if a[0] > b[0] {
        false
    } else {
        lex_lt(a.drop_first(), b.drop_first())
    }
}

pub open spec fn lex_le(a: Seq<u8>, b: Seq<u8>) -> bool {
    lex_lt(a, b) || a == b
}

/// `p` is a prefix of `k`, possibly all of it.
pub open spec fn is_prefix_of(p: Seq<u8>, k: Seq<u8>) -> bool {
    p.len() <= k.len() && k.take(p.len() as int) == p
}

/// `p` is a proper prefix of `k`.
pub open spec fn is_strict_prefix_of(p: Seq<u8>, k: Seq<u8>) -> bool {
    p.len() < k.len() && is_prefix_of(p, k)
}

/// `a` cannot live beside `k` in a prefix-free store: it is equal to
/// `k`, an ancestor of it, or a descendant of it.
pub open spec fn conflicts_with(a: Seq<u8>, k: Seq<u8>) -> bool {
    is_prefix_of(a, k) || is_prefix_of(k, a)
}

pub proof fn lemma_lex_lt_irrefl(a: Seq<u8>)
    ensures
        !lex_lt(a, a),
    decreases a.len(),
{
    if a.len() > 0 {
        lemma_lex_lt_irrefl(a.drop_first());
    }
}

pub proof fn lemma_lex_lt_asym(a: Seq<u8>, b: Seq<u8>)
    requires
        lex_lt(a, b),
    ensures
        !lex_lt(b, a),
    decreases a.len(),
{
    if a.len() > 0 && b.len() > 0 && a[0] == b[0] {
        lemma_lex_lt_asym(a.drop_first(), b.drop_first());
    }
}

pub proof fn lemma_lex_lt_trans(a: Seq<u8>, b: Seq<u8>, c: Seq<u8>)
    requires
        lex_lt(a, b),
        lex_lt(b, c),
    ensures
        lex_lt(a, c),
    decreases a.len(),
{
    if a.len() > 0 && b.len() > 0 && c.len() > 0 && a[0] == b[0] && b[0] == c[0] {
        lemma_lex_lt_trans(a.drop_first(), b.drop_first(), c.drop_first());
    }
}

/// The order is total: two keys are ordered one way or the other, or equal.
pub proof fn lemma_lex_lt_total(a: Seq<u8>, b: Seq<u8>)
    ensures
        lex_lt(a, b) || lex_lt(b, a) || a == b,
    decreases a.len(),
{
    if a.len() > 0 && b.len() > 0 && a[0] == b[0] {
        lemma_lex_lt_total(a.drop_first(), b.drop_first());
        if !lex_lt(a, b) && !lex_lt(b, a) {
            assert(a.drop_first() == b.drop_first());
            assert forall|i: int| 0 <= i < a.len() implies a[i] == b[i] by {
                if i > 0 {
                    assert(a[i] == a.drop_first()[i - 1]);
                    assert(b[i] == b.drop_first()[i - 1]);
                }
            }
            assert(a =~= b);
        }
    } else if a.len() == 0 && b.len() == 0 {
        assert(a =~= b);
    }
}

/// Peeling one shared leading byte preserves the prefix relation.
proof fn lemma_prefix_drop_first(p: Seq<u8>, k: Seq<u8>)
    requires
        p.len() > 0,
        k.len() > 0,
        p[0] == k[0],
    ensures
        is_prefix_of(p, k) <==> is_prefix_of(p.drop_first(), k.drop_first()),
{
    let pl = p.len() as int;
    if is_prefix_of(p, k) {
        assert forall|i: int| 0 <= i < pl - 1 implies k.drop_first().take(pl - 1)[i]
            == p.drop_first()[i] by {
            assert(k.drop_first()[i] == k[i + 1]);
            assert(k.take(pl)[i + 1] == k[i + 1]);
        }
        assert(k.drop_first().take(pl - 1) =~= p.drop_first());
    }
    if is_prefix_of(p.drop_first(), k.drop_first()) {
        assert forall|i: int| 0 <= i < pl implies k.take(pl)[i] == p[i] by {
            if i > 0 {
                assert(k.drop_first().take(pl - 1)[i - 1] == k.drop_first()[i - 1]);
                assert(k.drop_first()[i - 1] == k[i]);
                assert(p.drop_first()[i - 1] == p[i]);
            }
        }
        assert(k.take(pl) =~= p);
    }
}

pub proof fn lemma_strict_prefix_lex_lt(p: Seq<u8>, k: Seq<u8>)
    requires
        is_strict_prefix_of(p, k),
    ensures
        lex_lt(p, k),
    decreases p.len(),
{
    if p.len() > 0 {
        assert(k[0] == k.take(p.len() as int)[0]);
        lemma_prefix_drop_first(p, k);
        lemma_strict_prefix_lex_lt(p.drop_first(), k.drop_first());
    }
}

pub proof fn lemma_prefix_lex_le(p: Seq<u8>, k: Seq<u8>)
    requires
        is_prefix_of(p, k),
    ensures
        lex_le(p, k),
{
    if p.len() < k.len() {
        lemma_strict_prefix_lex_lt(p, k);
    } else {
        assert(k.take(p.len() as int) =~= k);
    }
}

/// Keys that start with `p` form one contiguous run in the order: once a
/// key at or after `p` fails to start with `p`, no later key starts with
/// `p` either.
pub proof fn lemma_prefix_window(p: Seq<u8>, x: Seq<u8>, y: Seq<u8>)
    requires
        !lex_lt(x, p),
        !is_prefix_of(p, x),
        lex_lt(x, y),
    ensures
        !is_prefix_of(p, y),
    decreases p.len(),
{
    if p.len() == 0 {
        assert(x.take(0) =~= p);
    } else if is_prefix_of(p, y) {
        assert(y[0] == y.take(p.len() as int)[0]);
        if x.len() == 0 {
            assert(lex_lt(x, p));
        } else if x[0] < p[0] {
            assert(lex_lt(x, p));
        } else if x[0] > p[0] {
            assert(lex_lt(y, x));
            lemma_lex_lt_asym(y, x);
        } else {
            lemma_prefix_drop_first(p, x);
            lemma_prefix_drop_first(p, y);
            lemma_prefix_window(p.drop_first(), x.drop_first(), y.drop_first());
        }
    }
}

/// Sharing an agreeing prefix of length `i`, two keys compare as their
/// tails from `i` do.
pub proof fn lemma_lex_lt_skip(a: Seq<u8>, b: Seq<u8>, i: int)
    requires
        0 <= i <= a.len(),
        i <= b.len(),
        forall|j: int| 0 <= j < i ==> a[j] == b[j],
    ensures
        lex_lt(a, b) <==> lex_lt(a.skip(i), b.skip(i)),
    decreases i,
{
    if i > 0 {
        assert(a.skip(i) =~= a.drop_first().skip(i - 1));
        assert(b.skip(i) =~= b.drop_first().skip(i - 1));
        lemma_lex_lt_skip(a.drop_first(), b.drop_first(), i - 1);
    } else {
        assert(a.skip(0) =~= a);
        assert(b.skip(0) =~= b);
    }
}

/// The result of a three-way key comparison.
#[derive(Clone, Copy, PartialEq, Eq, Structural, Debug)]
pub enum KeyOrder {
    Less,
    Equal,
    Greater,
}

/// Three-way comparison of two byte keys in lexicographic order.
#[verifier::loop_isolation(false)]
pub fn key_cmp(a: &Vec<u8>, b: &Vec<u8>) -> (r: KeyOrder)
    ensures
        (r == KeyOrder::Less) == lex_lt(a@, b@),
        (r == KeyOrder::Equal) == (a@ == b@),
        (r == KeyOrder::Greater) == lex_lt(b@, a@),
{
    let alen: usize = a.len();
    let blen: usize = b.len();
    let mut i: usize = 0;
    while i < alen && i < blen
        invariant
            i <= alen,
            i <= blen,
            forall|j: int| 0 <= j < i ==> a@[j] == b@[j],
        decreases alen - i,
    {
        if a[i] < b[i] {
            proof {
                lemma_lex_lt_skip(a@, b@, i as int);
                lemma_lex_lt_skip(b@, a@, i as int);
                assert(a@.skip(i as int)[0] == a@[i as int]);
                assert(b@.skip(i as int)[0] == b@[i as int]);
                assert(a@[i as int] != b@[i as int]);
            }
            return KeyOrder::Less;
        } else if a[i] > b[i] {
            proof {
                lemma_lex_lt_skip(a@, b@, i as int);
                lemma_lex_lt_skip(b@, a@, i as int);
                assert(a@.skip(i as int)[0] == a@[i as int]);
                assert(b@.skip(i as int)[0] == b@[i as int]);
                assert(a@[i as int] != b@[i as int]);
            }
            return KeyOrder::Greater;
        }
        i = i + 1;
    }
    if alen == blen {
        proof {
            assert(a@ =~= b@);
            lemma_lex_lt_irrefl(a@);
        }
        KeyOrder::Equal
    } else if alen < blen {
        proof {
            lemma_lex_lt_skip(a@, b@, i as int);
            lemma_lex_lt_skip(b@, a@, i as int);
            assert(a@.skip(i as int).len() == 0);
            assert(b@.skip(i as int).len() > 0);
        }
        KeyOrder::Less
    } else {
        proof {
            lemma_lex_lt_skip(a@, b@, i as int);
            lemma_lex_lt_skip(b@, a@, i as int);
            assert(b@.skip(i as int).len() == 0);
            assert(a@.skip(i as int).len() > 0);
        }
        KeyOrder::Greater
    }
}

/// An owned copy of a key's bytes.
#[verifier::loop_isolation(false)]
pub fn copy_key(k: &Vec<u8>) -> (r: Vec<u8>)
    ensures
        r@ == k@,
{
    let mut r: Vec<u8> = Vec::new();
    let mut i: usize = 0;
    while i < k.len()
        invariant
            i <= k@.len(),
            r@ =~= k@.take(i as int),
        decreases k@.len() - i,
    {
        r.push(k[i]);
        i = i + 1;
        proof {
            assert(r@ =~= k@.take(i as int));
        }
    }
    proof {
        assert(k@.take(k@.len() as int) =~= k@);
    }
    r
}

/// Does key `k` start with the byte sequence `p`?
#[verifier::loop_isolation(false)]
pub fn key_starts_with(k: &Vec<u8>, p: &Vec<u8>) -> (r: bool)
    ensures
        r == is_prefix_of(p@, k@),
{
    let plen: usize = p.len();
    if plen > k.len() {
        return false;
    }
    let mut i: usize = 0;
    while i < plen
        invariant
            i <= plen,
            plen <= k@.len(),
            forall|j: int| 0 <= j < i ==> k@[j] == p@[j],
        decreases plen - i,
    {
        if k[i] != p[i] {
            proof {
                assert(k@.take(plen as int)[i as int] == k@[i as int]);
            }
            return false;
        }
        i = i + 1;
    }
    proof {
        assert(k@.take(plen as int) =~= p@);
    }
    true
}

} // verus!
