//! Mathematical model of the index automaton.
//!
//! The index is a finite-state transducer: an acyclic deterministic automaton
//! whose arcs carry an input byte and a partial output, and whose accepting
//! paths spell the stored keys. The value of a key is the sum of the arc
//! outputs along its path plus the final output of the last node. The
//! functions here define what a node's subtree denotes in terms of the
//! uninterpreted per-node views declared in `fst_ext`.

use vstd::prelude::*;

use crate::fst_ext::index_map;
use crate::fst_ext::node_final;
use crate::fst_ext::node_trans;

verus! {

/// A node's transitions are strictly sorted by input byte, so at most one
/// transition matches any byte.
pub open spec fn trans_sorted(ts: Seq<(u8, u64, usize)>) -> bool {
    forall|i: int, j: int| 0 <= i < j < ts.len() ==> (#[trigger] ts[i]).0 < (#[trigger] ts[j]).0
}

/// The transition of `ts` whose input byte is `b`, if any.
pub open spec fn find_trans(ts: Seq<(u8, u64, usize)>, b: u8) -> Option<(u8, u64, usize)>
    decreases ts.len(),
{
    if ts.len() == 0 {
        None
    } else if ts[0].0 == b {
        Some(ts[0])
    } else {
        find_trans(ts.skip(1), b)
    }
}

/// The residual value of suffix `s` below the node at address `a`: `Some`
/// exactly when following `s` from `a` ends in a final node, and then the sum
/// of the arc outputs along the way plus that node's final output.
pub open spec fn suffix_val(m: fst::Map<Vec<u8>>, a: usize, s: Seq<u8>) -> Option<int>
    decreases s.len(),
{
    if s.len() == 0 {
        match node_final(m, a) {
            Some(fo) => Some(fo as int),
            None => None,
        }
    } else {
        match find_trans(node_trans(m, a), s[0]) {
            Some(t) => match suffix_val(m, t.2, s.skip(1)) {
                Some(v) => Some(t.1 + v),
                None => None,
            },
            None => None,
        }
    }
}

/// The subtree below the root spells exactly the keys of the map, with
/// matching values.
pub open spec fn root_models(m: fst::Map<Vec<u8>>, r: usize) -> bool {
    &&& forall|s: Seq<u8>|
        index_map(m).contains_key(s) <==> (#[trigger] suffix_val(m, r, s)) is Some
    &&& forall|s: Seq<u8>|
        (#[trigger] suffix_val(m, r, s)) is Some ==> suffix_val(m, r, s) == Some(
            index_map(m)[s] as int,
        )
}

/// At least one suffix below the node at address `a` is accepted.
pub open spec fn subtree_inhabited(m: fst::Map<Vec<u8>>, a: usize) -> bool {
    exists|s: Seq<u8>| (#[trigger] suffix_val(m, a, s)) is Some
}

/// The key-to-offset map described by a sequence of (key, offset) entries.
pub open spec fn map_of_entries(es: Seq<(Seq<u8>, u64)>) -> Map<Seq<u8>, u64>
    decreases es.len(),
{
    if es.len() == 0 {
        Map::empty()
    } else {
        map_of_entries(es.drop_last()).insert(es.last().0, es.last().1)
    }
}

/// In a sorted transition sequence, `find_trans` returns exactly the listed
/// transition for its byte.
pub proof fn lemma_find_trans_at(ts: Seq<(u8, u64, usize)>, i: int)
    requires
        trans_sorted(ts),
        0 <= i < ts.len(),
    ensures
        find_trans(ts, ts[i].0) == Some(ts[i]),
    decreases ts.len(),
{
    if i == 0 {
    } else {
        assert(ts[0].0 < ts[i].0);
        assert(ts.skip(1)[i - 1] == ts[i]);
        assert(trans_sorted(ts.skip(1))) by {
            assert forall|x: int, y: int| 0 <= x < y < ts.skip(1).len() implies (#[trigger] ts.skip(
                1,
            )[x]).0 < (#[trigger] ts.skip(1)[y]).0 by {
                assert(ts.skip(1)[x] == ts[x + 1]);
                assert(ts.skip(1)[y] == ts[y + 1]);
            }
        }
        lemma_find_trans_at(ts.skip(1), i - 1);
    }
}

/// `find_trans` only returns transitions that occur in the sequence.
pub proof fn lemma_find_trans_some(ts: Seq<(u8, u64, usize)>, b: u8)
    requires
        find_trans(ts, b) is Some,
    ensures
        exists|i: int|
            0 <= i < ts.len() && #[trigger] ts[i] == find_trans(ts, b)->Some_0 && ts[i].0 == b,
    decreases ts.len(),
{
    if ts.len() == 0 {
    } else if ts[0].0 == b {
        assert(ts[0] == find_trans(ts, b)->Some_0 && ts[0].0 == b);
    } else {
        lemma_find_trans_some(ts.skip(1), b);
        let i = choose|i: int|
            0 <= i < ts.skip(1).len() && #[trigger] ts.skip(1)[i] == find_trans(ts.skip(1), b)->Some_0
                && ts.skip(1)[i].0 == b;
        assert(ts[i + 1] == ts.skip(1)[i]);
    }
}

/// The prefix `p` reaches the node at `a` having accumulated output `sum`:
/// the stored keys extending `p` are exactly `p` followed by the accepted
/// suffixes below `a`, and each such key's offset is `sum` plus the suffix's
/// residual value.
pub open spec fn frame_ok(m: fst::Map<Vec<u8>>, a: usize, p: Seq<u8>, sum: u64) -> bool {
    &&& forall|s: Seq<u8>|
        (#[trigger] suffix_val(m, a, s)) is Some ==> index_map(m).contains_key(p + s) && index_map(
            m,
        )[p + s] as int == sum + suffix_val(m, a, s)->Some_0
    &&& forall|k: Seq<u8>|
        #![trigger index_map(m).contains_key(k), p.is_prefix_of(k)]
        index_map(m).contains_key(k) && p.is_prefix_of(k) ==> suffix_val(
            m,
            a,
            k.skip(p.len() as int),
        ) is Some
}

/// The empty prefix reaches the root with no accumulated output.
pub proof fn lemma_frame_root(m: fst::Map<Vec<u8>>, r: usize)
    requires
        root_models(m, r),
    ensures
        frame_ok(m, r, Seq::<u8>::empty(), 0),
{
    let p = Seq::<u8>::empty();
    assert forall|s: Seq<u8>| (#[trigger] suffix_val(m, r, s)) is Some implies index_map(
        m,
    ).contains_key(p + s) && index_map(m)[p + s] as int == 0 + suffix_val(m, r, s)->Some_0 by {
        assert(p + s =~= s);
    }
    assert forall|k: Seq<u8>| #[trigger] index_map(m).contains_key(k) && p.is_prefix_of(
        k,
    ) implies suffix_val(m, r, k.skip(p.len() as int)) is Some by {
        assert(k.skip(0) =~= k);
    }
}

/// Unfolds `suffix_val` across the listed transition matching the first byte
/// of the suffix.
pub proof fn lemma_suffix_val_cons(m: fst::Map<Vec<u8>>, a: usize, i: int, s: Seq<u8>)
    requires
        trans_sorted(node_trans(m, a)),
        0 <= i < node_trans(m, a).len(),
        s.len() > 0,
        s[0] == node_trans(m, a)[i].0,
    ensures
        suffix_val(m, a, s) == match suffix_val(m, node_trans(m, a)[i].2, s.skip(1)) {
            Some(v) => Some(node_trans(m, a)[i].1 + v),
            None => None,
        },
{
    lemma_find_trans_at(node_trans(m, a), i);
}

/// Taking the `i`-th transition extends the frame: the accumulated output
/// stays within bounds (some stored key lies below the target) and the
/// extended prefix reaches the target with the extended output.
pub proof fn lemma_frame_step(m: fst::Map<Vec<u8>>, a: usize, p: Seq<u8>, sum: u64, i: int)
    requires
        frame_ok(m, a, p, sum),
        trans_sorted(node_trans(m, a)),
        0 <= i < node_trans(m, a).len(),
        subtree_inhabited(m, node_trans(m, a)[i].2),
    ensures
        sum + node_trans(m, a)[i].1 <= u64::MAX,
        frame_ok(
            m,
            node_trans(m, a)[i].2,
            p.push(node_trans(m, a)[i].0),
            (sum + node_trans(m, a)[i].1) as u64,
        ),
{
    let ts = node_trans(m, a);
    let t = ts[i];
    let pp = p.push(t.0);

    let s0 = choose|s: Seq<u8>| (#[trigger] suffix_val(m, t.2, s)) is Some;
    lemma_suffix_val_nonneg(m, t.2, s0);
    let c0 = seq![t.0] + s0;
    assert(c0.len() > 0 && c0[0] == t.0);
    assert(c0.skip(1) =~= s0);
    lemma_suffix_val_cons(m, a, i, c0);
    assert(suffix_val(m, a, c0) is Some);
    assert(index_map(m)[p + c0] as int == sum + suffix_val(m, a, c0)->Some_0);
    assert(sum + t.1 <= u64::MAX);

    let sum2 = (sum + t.1) as u64;
    assert forall|s: Seq<u8>| (#[trigger] suffix_val(m, t.2, s)) is Some implies index_map(
        m,
    ).contains_key(pp + s) && index_map(m)[pp + s] as int == sum2 + suffix_val(m, t.2, s)->Some_0 by {
        let c = seq![t.0] + s;
        assert(c.len() > 0 && c[0] == t.0);
        assert(c.skip(1) =~= s);
        lemma_suffix_val_cons(m, a, i, c);
        assert(suffix_val(m, a, c) is Some);
        assert(p + c =~= pp + s);
    }
    assert forall|k: Seq<u8>| #[trigger] index_map(m).contains_key(k) && pp.is_prefix_of(
        k,
    ) implies suffix_val(m, t.2, k.skip(pp.len() as int)) is Some by {
        assert(p.is_prefix_of(k)) by {
            assert(p =~= k.subrange(0, p.len() as int)) by {
                assert(pp == k.subrange(0, pp.len() as int));
                assert forall|x: int| 0 <= x < p.len() implies p[x] == k[x] by {
                    assert(pp[x] == k.subrange(0, pp.len() as int)[x]);
                }
            }
        }
        let c = k.skip(p.len() as int);
        assert(suffix_val(m, a, c) is Some);
        assert(c.len() > 0);
        assert(c[0] == k[p.len() as int]);
        assert(pp[p.len() as int] == k.subrange(0, pp.len() as int)[p.len() as int]);
        assert(c[0] == t.0);
        lemma_suffix_val_cons(m, a, i, c);
        assert(c.skip(1) =~= k.skip(pp.len() as int));
    }
}

/// An accepted suffix value is never negative.
pub proof fn lemma_suffix_val_nonneg(m: fst::Map<Vec<u8>>, a: usize, s: Seq<u8>)
    requires
        suffix_val(m, a, s) is Some,
    ensures
        suffix_val(m, a, s)->Some_0 >= 0,
    decreases s.len(),
{
    if s.len() == 0 {
    } else {
        let t = find_trans(node_trans(m, a), s[0])->Some_0;
        lemma_suffix_val_nonneg(m, t.2, s.skip(1));
    }
}

} // verus!
