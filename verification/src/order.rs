//! Lexicographic order on byte sequences.
//!
//! Keys in the store are compared byte by byte, unsigned, with a shorter
//! sequence ordered before every proper extension of itself.

use vstd::prelude::*;

verus! {

/// Strict lexicographic order: `a` comes before `b`.
pub open spec fn lex_lt(a: Seq<u8>, b: Seq<u8>) -> bool
    decreases a.len(),
{
    if b.len() == 0 {
        false
    } else if a.len() == 0 {
        true
    } else if a[0] < b[0] {
        true
    } else if a[0] > b[0] {
        false
    } else {
        lex_lt(a.skip(1), b.skip(1))
    }
}

/// Reflexive lexicographic order.
pub open spec fn lex_le(a: Seq<u8>, b: Seq<u8>) -> bool {
    lex_lt(a, b) || a == b
}

/// Every prefix of `u` up to position `j` matches, and at `j` the sequence
/// `p` falls strictly below `u`; every extension of such a `p` stays below `u`.
pub open spec fn strictly_below(p: Seq<u8>, u: Seq<u8>) -> bool {
    exists|j: int|
        0 <= j < p.len() && j < u.len() && #[trigger] p.take(j) == u.take(j) && p[j] < u[j]
}

/// At most one of `lex_lt(a, b)`, `a == b`, `lex_lt(b, a)` holds, and at
/// least one does.
pub proof fn lemma_lex_trichotomy(a: Seq<u8>, b: Seq<u8>)
    ensures
        lex_lt(a, b) || a == b || lex_lt(b, a),
        lex_lt(a, b) ==> a != b,
        lex_lt(a, b) ==> !lex_lt(b, a),
    decreases a.len(),
{
    if a.len() == 0 {
        if b.len() == 0 {
            assert(a =~= b);
        }
    } else if b.len() == 0 {
    } else if a[0] == b[0] {
        lemma_lex_trichotomy(a.skip(1), b.skip(1));
        if a.skip(1) == b.skip(1) {
            assert(a.skip(1).len() == a.len() - 1);
            assert(b.skip(1).len() == b.len() - 1);
            assert forall|i: int| 0 <= i < a.len() implies a[i] == b[i] by {
                if i >= 1 {
                    assert(a[i] == a.skip(1)[i - 1]);
                    assert(b[i] == b.skip(1)[i - 1]);
                }
            }
            assert(a =~= b);
        }
        if a == b {
            assert(a.skip(1) =~= b.skip(1));
        }
    }
}

/// Lexicographic order is transitive.
pub proof fn lemma_lex_lt_trans(a: Seq<u8>, b: Seq<u8>, c: Seq<u8>)
    requires
        lex_lt(a, b),
        lex_lt(b, c),
    ensures
        lex_lt(a, c),
    decreases a.len(),
{
    if a.len() == 0 {
    } else {
        if a[0] == b[0] && b[0] == c[0] {
            lemma_lex_lt_trans(a.skip(1), b.skip(1), c.skip(1));
        }
    }
}

/// A sequence never comes after any of its extensions.
pub proof fn lemma_prefix_le(p: Seq<u8>, s: Seq<u8>)
    ensures
        lex_le(p, p + s),
    decreases p.len(),
{
    if p.len() == 0 {
        if s.len() == 0 {
            assert(p =~= p + s);
        } else {
            assert((p + s).len() > 0);
        }
    } else {
        lemma_prefix_le(p.skip(1), s);
        assert((p + s).len() > 0);
        assert((p + s)[0] == p[0]);
        assert(p.skip(1) + s =~= (p + s).skip(1));
        if p.skip(1) == (p + s).skip(1) {
            assert(p =~= p + s);
        }
    }
}

/// A sequence that falls strictly below `u` at some position stays strictly
/// below `u` however it is extended.
pub proof fn lemma_strictly_below_lt(p: Seq<u8>, u: Seq<u8>, s: Seq<u8>)
    requires
        strictly_below(p, u),
    ensures
        lex_lt(p + s, u),
{
    let j = choose|j: int|
        0 <= j < p.len() && j < u.len() && #[trigger] p.take(j) == u.take(j) && p[j] < u[j];
    lemma_below_at(p + s, u, j);
    assert((p + s).take(j) =~= p.take(j));
}

/// Extending a sequence that falls strictly below `u` keeps it strictly
/// below `u`.
pub proof fn lemma_strictly_below_extend(p: Seq<u8>, u: Seq<u8>, b: u8)
    requires
        strictly_below(p, u),
    ensures
        strictly_below(p.push(b), u),
{
    let j = choose|j: int|
        0 <= j < p.len() && j < u.len() && #[trigger] p.take(j) == u.take(j) && p[j] < u[j];
    assert(p.push(b).take(j) =~= p.take(j));
    assert(p.push(b)[j] == p[j]);
}

/// A sequence whose byte at position `j` drops below `u`'s, after matching
/// `u` on the first `j` bytes, comes strictly before `u`.
pub proof fn lemma_below_at(a: Seq<u8>, u: Seq<u8>, j: int)
    requires
        0 <= j < a.len(),
        j < u.len(),
        a.take(j) == u.take(j),
        a[j] < u[j],
    ensures
        lex_lt(a, u),
    decreases j,
{
    if j == 0 {
    } else {
        assert(a.take(j)[0] == a[0]);
        assert(u.take(j)[0] == u[0]);
        assert(a[0] == u[0]);
        assert(a.skip(1).take(j - 1) =~= a.take(j).skip(1));
        assert(u.skip(1).take(j - 1) =~= u.take(j).skip(1));
        assert(a.skip(1)[j - 1] == a[j] && u.skip(1)[j - 1] == u[j]);
        lemma_below_at(a.skip(1), u.skip(1), j - 1);
    }
}

/// A proper extension of `u` comes strictly after `u`.
pub proof fn lemma_proper_extension_gt(u: Seq<u8>, s: Seq<u8>)
    requires
        s.len() > 0,
    ensures
        lex_lt(u, u + s),
{
    lemma_prefix_le(u, s);
    if u == u + s {
        assert(u.len() == (u + s).len());
    }
}

} // verus!
