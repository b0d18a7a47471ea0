//! The mapped reader.
//!
//! A `Cache` attaches to two already-materialized byte regions — a serialized
//! index and a value blob — and resolves keys to value offsets: point lookup,
//! range streaming, and the bounded-key searches `first`, `last` and
//! `last_le` (the greatest stored key at or below a caller-supplied bound).

use vstd::prelude::*;

use crate::error::StoreError;
use crate::fst_ext::index_map;
use crate::fst_ext::map_first;
use crate::fst_ext::map_get;
use crate::fst_ext::map_new;
use crate::fst_ext::map_root;
use crate::fst_ext::map_valid;
use crate::fst_ext::map_wf;
use crate::fst_ext::node_final;
use crate::fst_ext::node_final_output;
use crate::fst_ext::node_is_final;
use crate::fst_ext::node_len;
use crate::fst_ext::node_ok;
use crate::fst_ext::node_trans;
use crate::fst_ext::node_transition;
use crate::fst_ext::parsed_map;
use crate::fst_ext::range_collect;
use crate::model::find_trans;
use crate::model::frame_ok;
use crate::model::lemma_find_trans_some;
use crate::model::lemma_frame_root;
use crate::model::lemma_frame_step;
use crate::model::lemma_suffix_val_cons;
use crate::model::subtree_inhabited;
use crate::model::suffix_val;
use crate::model::trans_sorted;
use crate::order::lemma_lex_trichotomy;
use crate::order::lemma_below_at;
use crate::order::lemma_prefix_le;
use crate::order::lemma_proper_extension_gt;
use crate::order::lemma_strictly_below_extend;
use crate::order::lemma_strictly_below_lt;
use crate::order::lex_le;
use crate::order::lex_lt;
use crate::order::strictly_below;

verus! {

/// One end of a key range: open, closed, or absent.
pub enum KeyBound {
    Unbounded,
    Included(Vec<u8>),
    Excluded(Vec<u8>),
}

/// Whether `k` lies at or above the start bound.
pub open spec fn above_start(start: KeyBound, k: Seq<u8>) -> bool {
    match start {
        KeyBound::Unbounded => true,
        KeyBound::Included(b) => lex_le(b@, k),
        KeyBound::Excluded(b) => lex_lt(b@, k),
    }
}

/// Whether `k` lies at or below the end bound.
pub open spec fn below_end(end: KeyBound, k: Seq<u8>) -> bool {
    match end {
        KeyBound::Unbounded => true,
        KeyBound::Included(b) => lex_le(k, b@),
        KeyBound::Excluded(b) => lex_lt(k, b@),
    }
}

/// Whether `k` lies within the two bounds.
pub open spec fn key_in_bounds(start: KeyBound, end: KeyBound, k: Seq<u8>) -> bool {
    above_start(start, k) && below_end(end, k)
}

/// `k` is the smallest key of `m`.
pub open spec fn is_min_key(m: Map<Seq<u8>, u64>, k: Seq<u8>) -> bool {
    m.contains_key(k) && forall|j: Seq<u8>| #[trigger] m.contains_key(j) ==> lex_le(k, j)
}

/// `k` is the greatest key of `m`.
pub open spec fn is_max_key(m: Map<Seq<u8>, u64>, k: Seq<u8>) -> bool {
    m.contains_key(k) && forall|j: Seq<u8>| #[trigger] m.contains_key(j) ==> lex_le(j, k)
}

/// `k` is the greatest key of `m` at or below the bound `u`.
pub open spec fn is_last_le_key(m: Map<Seq<u8>, u64>, u: Seq<u8>, k: Seq<u8>) -> bool {
    m.contains_key(k) && lex_le(k, u) && forall|j: Seq<u8>|
        #[trigger] m.contains_key(j) && lex_le(j, u) ==> lex_le(j, k)
}

/// A cache, mapping byte-string keys to the byte offsets of their values
/// within the value blob.
pub struct Cache {
    index: fst::Map<Vec<u8>>,
    value_bytes: Vec<u8>,
}

impl Cache {
    /// The key-to-offset map held by the index.
    pub closed spec fn key_map(self) -> Map<Seq<u8>, u64> {
        index_map(self.index)
    }

    /// The value blob.
    pub closed spec fn blob(self) -> Seq<u8> {
        self.value_bytes@
    }

    /// The reader is attached to a transducer that a compatible builder
    /// wrote. Navigation is specified only for such readers: `fst` checks
    /// only the container framing on open, so on other accepted byte
    /// strings it may misbehave. `Cache::new` establishes this whenever the
    /// index bytes came from `Builder::finish`.
    pub closed spec fn wf(self) -> bool {
        map_wf(self.index)
    }

    /// Attaches a reader to a serialized index and a value blob. Index
    /// bytes produced by `Builder::finish` are always accepted and yield a
    /// well-formed reader holding exactly the map they encode; bytes whose
    /// container framing is broken are rejected with an index error.
    pub fn new(index_bytes: Vec<u8>, value_bytes: Vec<u8>) -> (r: Result<Cache, StoreError>)
        ensures
            map_valid(index_bytes@) ==> r is Ok,
            r matches Ok(c) ==> c.blob() == value_bytes@ && (map_valid(index_bytes@) ==> c.wf()
                && c.key_map() == parsed_map(index_bytes@)),
            r matches Err(e) ==> e is Fst,
    {
        match map_new(index_bytes) {
            Ok(m) => Ok(Cache { index: m, value_bytes }),
            Err(e) => Err(StoreError::Fst(e)),
        }
    }

    /// Access the internal index used for mapping keys to value offsets.
    pub fn index(&self) -> (r: &fst::Map<Vec<u8>>)
        ensures
            index_map(*r) == self.key_map(),
    {
        &self.index
    }

    /// The entire byte slice storing all values.
    pub fn value_bytes(&self) -> (r: &[u8])
        ensures
            r@ == self.blob(),
    {
        self.value_bytes.as_slice()
    }

    /// Returns the byte offset of the value for `key`, if it exists.
    pub fn get_value_offset(&self, key: &[u8]) -> (r: Option<u64>)
        requires
            self.wf(),
        ensures
            r == if self.key_map().contains_key(key@) {
                Some(self.key_map()[key@])
            } else {
                None::<u64>
            },
    {
        map_get(&self.index, key)
    }

    /// Returns the (key, value offset) pairs whose keys lie within the
    /// bounds, in ascending lexicographic key order.
    pub fn range(&self, start: &KeyBound, end: &KeyBound) -> (r: Vec<(Vec<u8>, u64)>)
        requires
            self.wf(),
        ensures
            forall|i: int|
                0 <= i < r@.len() ==> {
                    let p = #[trigger] r@[i];
                    self.key_map().contains_key(p.0@) && p.1 == self.key_map()[p.0@]
                        && key_in_bounds(*start, *end, p.0@)
                },
            forall|k: Seq<u8>|
                #![trigger self.key_map().contains_key(k), key_in_bounds(*start, *end, k)]
                self.key_map().contains_key(k) && key_in_bounds(*start, *end, k) ==> exists|i: int|
                    0 <= i < r@.len() && (#[trigger] r@[i]).0@ == k,
            forall|i: int, j: int|
                0 <= i < j < r@.len() ==> lex_lt((#[trigger] r@[i]).0@, (#[trigger] r@[j]).0@),
    {
        range_collect(&self.index, start, end)
    }

    /// Returns the lexicographically first (key, offset) pair, the key
    /// copied into a fixed-width buffer that must match its length.
    pub fn first<const N: usize>(&self) -> (r: Option<([u8; N], u64)>)
        requires
            self.wf(),
            forall|k: Seq<u8>| #[trigger] is_min_key(self.key_map(), k) ==> k.len() == N,
        ensures
            r is None <==> (forall|k: Seq<u8>| !self.key_map().contains_key(k)),
            r matches Some(p) ==> is_min_key(self.key_map(), p.0@) && p.1 == self.key_map()[p.0@],
    {
        match map_first(&self.index) {
            None => None,
            Some((k, off)) => {
                proof {
                    assert(is_min_key(self.key_map(), k@));
                }
                let mut buf = [0u8; N];
                let mut i: usize = 0;
                while i < N
                    invariant
                        i <= N,
                        k@.len() == N,
                        buf@.len() == N,
                        forall|j: int| 0 <= j < i ==> buf@[j] == k@[j],
                    decreases N - i,
                {
                    buf[i] = k[i];
                    i = i + 1;
                }
                proof {
                    assert(buf@ =~= k@);
                }
                Some((buf, off))
            },
        }
    }

    /// Returns the lexicographically last (key, offset) pair, walking the
    /// rightmost spine of the index. Returns the pair when the greatest
    /// key's length is exactly `N`; none when the store is empty or the
    /// greatest key's length differs from `N`.
    pub fn last<const N: usize>(&self) -> (r: Option<([u8; N], u64)>)
        requires
            self.wf(),
        ensures
            (forall|k: Seq<u8>| !self.key_map().contains_key(k)) ==> r is None,
            r matches Some(p) ==> is_max_key(self.key_map(), p.0@) && p.1 == self.key_map()[p.0@]
                && p.0@.len() == N,
            (exists|k: Seq<u8>| #[trigger] is_max_key(self.key_map(), k) && k.len() == N)
                ==> r is Some,
    {
        let root = map_root(&self.index);
        proof {
            lemma_frame_root(self.index, root);
        }
        let mut buf: Vec<u8> = Vec::new();
        let r = search_max(&self.index, root, 0, &mut buf);
        match r {
            None => {
                proof {
                    assert forall|k: Seq<u8>| !self.key_map().contains_key(k) by {
                        if self.key_map().contains_key(k) {
                            assert(Seq::<u8>::empty().is_prefix_of(k));
                            assert(suffix_val(self.index, root, k.skip(0)) is Some);
                        }
                    }
                }
                None
            },
            Some(o) => {
                proof {
                    assert(buf@.skip(0) =~= buf@);
                    assert(Seq::<u8>::empty() + buf@ =~= buf@);
                    assert(self.key_map().contains_key(buf@));
                    assert(self.key_map()[buf@] as int == 0 + suffix_val(
                        self.index,
                        root,
                        buf@,
                    )->Some_0);
                    assert forall|j: Seq<u8>| #[trigger] self.key_map().contains_key(
                        j,
                    ) implies lex_le(j, buf@) by {
                        assert(Seq::<u8>::empty().is_prefix_of(j));
                        assert(suffix_val(self.index, root, j.skip(0)) is Some);
                        assert(j.skip(0) =~= j);
                        assert(Seq::<u8>::empty() + j =~= j);
                    }
                    assert(is_max_key(self.key_map(), buf@));
                }
                if buf.len() == N {
                    let mut arr = [0u8; N];
                    let mut i: usize = 0;
                    while i < N
                        invariant
                            i <= N,
                            buf@.len() == N,
                            arr@.len() == N,
                            forall|j: int| 0 <= j < i ==> arr@[j] == buf@[j],
                        decreases N - i,
                    {
                        arr[i] = buf[i];
                        i = i + 1;
                    }
                    proof {
                        assert(arr@ =~= buf@);
                    }
                    Some((arr, o))
                } else {
                    proof {
                        assert forall|k: Seq<u8>| #[trigger] is_max_key(
                            self.key_map(),
                            k,
                        ) implies k.len() != N by {
                            assert(lex_le(k, buf@));
                            assert(lex_le(buf@, k));
                            lemma_lex_trichotomy(k, buf@);
                            assert(k == buf@);
                        }
                    }
                    None
                }
            },
        }
    }

    /// Finds the lexicographically greatest key at or below `upper_bound`,
    /// with its offset; the key is copied into a fixed-width buffer that
    /// must match its length.
    pub fn last_le<const N: usize>(&self, upper_bound: &[u8]) -> (r: Option<([u8; N], u64)>)
        requires
            self.wf(),
            forall|k: Seq<u8>|
                #[trigger] is_last_le_key(self.key_map(), upper_bound@, k) ==> k.len() == N,
        ensures
            r is None <==> (forall|k: Seq<u8>|
                self.key_map().contains_key(k) ==> !lex_le(k, upper_bound@)),
            r matches Some(p) ==> is_last_le_key(self.key_map(), upper_bound@, p.0@) && p.1
                == self.key_map()[p.0@],
    {
        let root = map_root(&self.index);
        proof {
            lemma_frame_root(self.index, root);
            assert(Seq::<u8>::empty() =~= upper_bound@.take(0));
        }
        let mut buf: Vec<u8> = Vec::new();
        let r = search_le(&self.index, upper_bound, root, 0, false, &mut buf);
        match r {
            None => {
                proof {
                    assert forall|k: Seq<u8>| self.key_map().contains_key(k) implies !lex_le(
                        k,
                        upper_bound@,
                    ) by {
                        assert(Seq::<u8>::empty().is_prefix_of(k));
                        assert(suffix_val(self.index, root, k.skip(0)) is Some);
                        assert(k.skip(0) =~= k);
                        assert(Seq::<u8>::empty() + k =~= k);
                    }
                }
                None
            },
            Some(o) => {
                proof {
                    assert(buf@.skip(0) =~= buf@);
                    assert(Seq::<u8>::empty() + buf@ =~= buf@);
                    assert(self.key_map().contains_key(buf@));
                    assert(self.key_map()[buf@] as int == 0 + suffix_val(
                        self.index,
                        root,
                        buf@,
                    )->Some_0);
                    assert forall|j: Seq<u8>|
                        #[trigger] self.key_map().contains_key(j) && lex_le(
                            j,
                            upper_bound@,
                        ) implies lex_le(j, buf@) by {
                        assert(Seq::<u8>::empty().is_prefix_of(j));
                        assert(suffix_val(self.index, root, j.skip(0)) is Some);
                        assert(j.skip(0) =~= j);
                        assert(Seq::<u8>::empty() + j =~= j);
                    }
                    assert(is_last_le_key(self.key_map(), upper_bound@, buf@));
                    assert(buf@.len() == N);
                }
                let mut arr = [0u8; N];
                let mut i2: usize = 0;
                while i2 < N
                    invariant
                        i2 <= N,
                        buf@.len() == N,
                        arr@.len() == N,
                        forall|j: int| 0 <= j < i2 ==> arr@[j] == buf@[j],
                    decreases N - i2,
                {
                    arr[i2] = buf[i2];
                    i2 = i2 + 1;
                }
                proof {
                    assert(arr@ =~= buf@);
                }
                Some((arr, o))
            },
        }
    }
}

/// The relation of a chosen key prefix to the bound `u`: still equal to the
/// bound's prefix of the same length, or already strictly below the bound
/// (so that every extension stays below it).
pub open spec fn cmp_state(p: Seq<u8>, u: Seq<u8>, less: bool) -> bool {
    if less {
        strictly_below(p, u)
    } else {
        p.len() <= u.len() && p == u.take(p.len() as int)
    }
}

/// The transition of the node at `a` with the greatest input byte at or
/// below `ub`, with its index, found by binary search over the node's
/// sorted transition list; none when every transition's byte exceeds `ub`.
fn find_last_le_transition(m: &fst::Map<Vec<u8>>, a: usize, ub: u8) -> (r: Option<
    (usize, (u8, u64, usize)),
>)
    requires
        map_wf(*m),
        node_ok(*m, a),
    ensures
        match r {
            Some(p) => {
                let ts = node_trans(*m, a);
                &&& (p.0 as int) < ts.len()
                &&& p.1 == ts[p.0 as int]
                &&& p.1.0 <= ub
                &&& node_ok(*m, p.1.2)
                &&& p.1.2 < a
                &&& subtree_inhabited(*m, p.1.2)
                &&& forall|j: int| p.0 < j < ts.len() ==> (#[trigger] ts[j]).0 > ub
            },
            None => forall|j: int|
                0 <= j < node_trans(*m, a).len() ==> (#[trigger] node_trans(*m, a)[j]).0 > ub,
        },
{
    let n = node_len(m, a);
    let mut lo: usize = 0;
    let mut hi: usize = n;
    while lo < hi
        invariant
            map_wf(*m),
            node_ok(*m, a),
            n == node_trans(*m, a).len(),
            lo <= hi <= n,
            trans_sorted(node_trans(*m, a)),
            forall|j: int| 0 <= j < lo ==> (#[trigger] node_trans(*m, a)[j]).0 <= ub,
            forall|j: int| hi <= j < n ==> (#[trigger] node_trans(*m, a)[j]).0 > ub,
        decreases hi - lo,
    {
        let mid = lo + (hi - lo) / 2;
        let t = node_transition(m, a, mid);
        if t.0 <= ub {
            proof {
                assert forall|j: int| 0 <= j < mid + 1 implies (#[trigger] node_trans(
                    *m,
                    a,
                )[j]).0 <= ub by {
                    if j < mid {
                        assert(node_trans(*m, a)[j].0 < node_trans(*m, a)[mid as int].0);
                    }
                }
            }
            lo = mid + 1;
        } else {
            hi = mid;
        }
    }
    if lo == 0 {
        None
    } else {
        let t = node_transition(m, a, lo - 1);
        Some((lo - 1, t))
    }
}

/// The bytes already in `buf` are the only candidate left at this frame:
/// every accepted nonempty suffix has been shown to exceed the bound.
/// Returns the frame's own offset when its node is final, else nothing.
fn seal_frame(
    m: &fst::Map<Vec<u8>>,
    ub: &[u8],
    a: usize,
    sum: u64,
    less: bool,
    buf: &Vec<u8>,
) -> (r: Option<u64>)
    requires
        map_wf(*m),
        node_ok(*m, a),
        frame_ok(*m, a, buf@, sum),
        cmp_state(buf@, ub@, less),
        forall|s2: Seq<u8>|
            (#[trigger] suffix_val(*m, a, s2)) is Some && s2.len() > 0 ==> !lex_le(buf@ + s2, ub@),
    ensures
        match r {
            Some(o) => {
                &&& suffix_val(*m, a, Seq::<u8>::empty()) is Some
                &&& o as int == sum + suffix_val(*m, a, Seq::<u8>::empty())->Some_0
                &&& lex_le(buf@, ub@)
                &&& forall|s2: Seq<u8>|
                    (#[trigger] suffix_val(*m, a, s2)) is Some && lex_le(buf@ + s2, ub@)
                        ==> lex_le(buf@ + s2, buf@)
            },
            None => forall|s2: Seq<u8>|
                (#[trigger] suffix_val(*m, a, s2)) is Some ==> !lex_le(buf@ + s2, ub@),
        },
{
    let ghost p = buf@;
    proof {
        if less {
            lemma_strictly_below_lt(p, ub@, Seq::<u8>::empty());
            assert(p + Seq::<u8>::empty() =~= p);
        } else {
            assert(ub@ =~= p + ub@.skip(p.len() as int));
            lemma_prefix_le(p, ub@.skip(p.len() as int));
        }
        assert(lex_le(p, ub@));
    }
    if node_is_final(m, a) {
        let fo = node_final_output(m, a);
        proof {
            assert(suffix_val(*m, a, Seq::<u8>::empty()) == Some(fo as int));
            assert(p + Seq::<u8>::empty() =~= p);
            assert(index_map(*m)[p + Seq::<u8>::empty()] as int == sum + fo);
            assert forall|s2: Seq<u8>|
                (#[trigger] suffix_val(*m, a, s2)) is Some && lex_le(p + s2, ub@) implies lex_le(
                p + s2,
                p,
            ) by {
                assert(s2.len() == 0);
                assert(p + s2 =~= p);
            }
        }
        Some(sum + fo)
    } else {
        proof {
            assert forall|s2: Seq<u8>| (#[trigger] suffix_val(*m, a, s2)) is Some implies !lex_le(
                p + s2,
                ub@,
            ) by {
                if s2.len() == 0 {
                    assert(node_final(*m, a) is None);
                }
            }
        }
        None
    }
}

/// The bounded descent of `last_le`: finds the greatest accepted suffix `s`
/// below the node at `a` whose full key `buf + s` stays at or below the
/// bound, appending `s` to `buf` and returning its accumulated offset; none
/// when every accepted suffix would exceed the bound.
///
/// While the prefix is still tied to the bound, the candidate branch is the
/// greatest transition at or below the bound's next byte; when that branch
/// yields nothing, a single backtrack to its predecessor suffices, because
/// everything below the predecessor falls strictly below the bound. Once
/// strictly below (`less`), the greatest branch always wins.
fn search_le(
    m: &fst::Map<Vec<u8>>,
    ub: &[u8],
    a: usize,
    sum: u64,
    less: bool,
    buf: &mut Vec<u8>,
) -> (r: Option<u64>)
    requires
        map_wf(*m),
        node_ok(*m, a),
        frame_ok(*m, a, old(buf)@, sum),
        cmp_state(old(buf)@, ub@, less),
    ensures
        match r {
            Some(o) => {
                let s = final(buf)@.skip(old(buf)@.len() as int);
                &&& final(buf)@ == old(buf)@ + s
                &&& suffix_val(*m, a, s) is Some
                &&& o as int == sum + suffix_val(*m, a, s)->Some_0
                &&& lex_le(final(buf)@, ub@)
                &&& forall|s2: Seq<u8>|
                    (#[trigger] suffix_val(*m, a, s2)) is Some && lex_le(old(buf)@ + s2, ub@)
                        ==> lex_le(old(buf)@ + s2, final(buf)@)
            },
            None => {
                &&& final(buf)@ == old(buf)@
                &&& forall|s2: Seq<u8>|
                    (#[trigger] suffix_val(*m, a, s2)) is Some ==> !lex_le(old(buf)@ + s2, ub@)
            },
        },
    decreases a,
{
    let ghost p = old(buf)@;
    let i = buf.len();
    let n = node_len(m, a);
    if n == 0 {
        proof {
            assert forall|s2: Seq<u8>|
                (#[trigger] suffix_val(*m, a, s2)) is Some && s2.len() > 0 implies !lex_le(
                p + s2,
                ub@,
            ) by {
                assert(find_trans(node_trans(*m, a), s2[0]) is None);
            }
        }
        let r = seal_frame(m, ub, a, sum, less, buf);
        proof {
            assert(buf@.skip(p.len() as int) =~= Seq::<u8>::empty());
            assert(buf@ =~= p + Seq::<u8>::empty());
        }
        r
    } else if less {
        let t = node_transition(m, a, n - 1);
        proof {
            assert(trans_sorted(node_trans(*m, a)));
            lemma_frame_step(*m, a, p, sum, (n - 1) as int);
            lemma_strictly_below_extend(p, ub@, t.0);
            assert(p.push(t.0) =~= p + seq![t.0]);
        }
        buf.push(t.0);
        let r = search_le(m, ub, t.2, sum + t.1, true, buf);
        proof {
            if r is None {
                let s0 = choose|s: Seq<u8>| (#[trigger] suffix_val(*m, t.2, s)) is Some;
                lemma_strictly_below_lt(p.push(t.0), ub@, s0);
                assert(false);
            }
            let pp = p.push(t.0);
            let s_rec = buf@.skip(pp.len() as int);
            let s = buf@.skip(p.len() as int);
            assert(buf@ == pp + s_rec);
            assert(s =~= seq![t.0] + s_rec);
            assert(s.len() > 0 && s[0] == t.0);
            assert(s.skip(1) =~= s_rec);
            lemma_suffix_val_cons(*m, a, (n - 1) as int, s);
            assert(buf@ =~= p + s);
            assert forall|s2: Seq<u8>|
                (#[trigger] suffix_val(*m, a, s2)) is Some && lex_le(p + s2, ub@) implies lex_le(
                p + s2,
                buf@,
            ) by {
                if s2.len() == 0 {
                    assert(p + s2 =~= p);
                    lemma_prefix_le(p, s);
                } else {
                    lemma_find_trans_some(node_trans(*m, a), s2[0]);
                    let idx = choose|idx: int|
                        0 <= idx < node_trans(*m, a).len() && #[trigger] node_trans(*m, a)[idx]
                            == find_trans(node_trans(*m, a), s2[0])->Some_0 && node_trans(
                            *m,
                            a,
                        )[idx].0 == s2[0];
                    if idx == n - 1 {
                        lemma_suffix_val_cons(*m, a, (n - 1) as int, s2);
                        assert(suffix_val(*m, t.2, s2.skip(1)) is Some);
                        assert(p + s2 =~= pp + s2.skip(1));
                    } else {
                        assert(node_trans(*m, a)[idx].0 < t.0);
                        assert((p + s2).take(p.len() as int) =~= p);
                        assert(buf@.take(p.len() as int) =~= p);
                        assert((p + s2)[p.len() as int] == s2[0]);
                        assert(buf@[p.len() as int] == t.0);
                        lemma_below_at(p + s2, buf@, p.len() as int);
                    }
                }
            }
        }
        r
    } else if i < ub.len() {
        let u_byte = ub[i];
        match find_last_le_transition(m, a, u_byte) {
            None => {
                proof {
                    assert forall|s2: Seq<u8>|
                        (#[trigger] suffix_val(*m, a, s2)) is Some && s2.len() > 0 implies !lex_le(
                        p + s2,
                        ub@,
                    ) by {
                        lemma_find_trans_some(node_trans(*m, a), s2[0]);
                        let idx = choose|idx: int|
                            0 <= idx < node_trans(*m, a).len() && #[trigger] node_trans(*m, a)[idx]
                                == find_trans(node_trans(*m, a), s2[0])->Some_0 && node_trans(
                                *m,
                                a,
                            )[idx].0 == s2[0];
                        assert(s2[0] > u_byte);
                        assert(ub@.take(i as int) =~= (p + s2).take(i as int));
                        assert((p + s2)[i as int] == s2[0]);
                        lemma_below_at(ub@, p + s2, i as int);
                        lemma_lex_trichotomy(p + s2, ub@);
                    }
                }
                let r = seal_frame(m, ub, a, sum, less, buf);
                proof {
                    assert(buf@.skip(p.len() as int) =~= Seq::<u8>::empty());
                    assert(buf@ =~= p + Seq::<u8>::empty());
                }
                r
            },
            Some((ti, t)) => {
                proof {
                    assert(trans_sorted(node_trans(*m, a)));
                    lemma_frame_step(*m, a, p, sum, ti as int);
                    assert(p.push(t.0) =~= p + seq![t.0]);
                    if t.0 < u_byte {
                        assert(p.push(t.0).take(i as int) =~= ub@.take(i as int));
                        assert(p.push(t.0)[i as int] == t.0);
                        assert(strictly_below(p.push(t.0), ub@));
                    } else {
                        assert(p.push(t.0) =~= ub@.take((i + 1) as int));
                    }
                }
                buf.push(t.0);
                let r = search_le(m, ub, t.2, sum + t.1, t.0 < u_byte, buf);
                if r.is_some() {
                    proof {
                        let pp = p.push(t.0);
                        let s_rec = buf@.skip(pp.len() as int);
                        let s = buf@.skip(p.len() as int);
                        assert(buf@ == pp + s_rec);
                        assert(s =~= seq![t.0] + s_rec);
                        assert(s.len() > 0 && s[0] == t.0);
                        assert(s.skip(1) =~= s_rec);
                        lemma_suffix_val_cons(*m, a, ti as int, s);
                        assert(buf@ =~= p + s);
                        assert forall|s2: Seq<u8>|
                            (#[trigger] suffix_val(*m, a, s2)) is Some && lex_le(
                                p + s2,
                                ub@,
                            ) implies lex_le(p + s2, buf@) by {
                            if s2.len() == 0 {
                                assert(p + s2 =~= p);
                                lemma_prefix_le(p, s);
                            } else {
                                lemma_find_trans_some(node_trans(*m, a), s2[0]);
                                let idx = choose|idx: int|
                                    0 <= idx < node_trans(*m, a).len() && #[trigger] node_trans(
                                        *m,
                                        a,
                                    )[idx] == find_trans(node_trans(*m, a), s2[0])->Some_0
                                        && node_trans(*m, a)[idx].0 == s2[0];
                                if idx > ti {
                                    assert(s2[0] > u_byte);
                                    assert(ub@.take(i as int) =~= (p + s2).take(i as int));
                                    assert((p + s2)[i as int] == s2[0]);
                                    lemma_below_at(ub@, p + s2, i as int);
                                    lemma_lex_trichotomy(p + s2, ub@);
                                } else if idx == ti {
                                    lemma_suffix_val_cons(*m, a, ti as int, s2);
                                    assert(suffix_val(*m, t.2, s2.skip(1)) is Some);
                                    assert(p + s2 =~= pp + s2.skip(1));
                                } else {
                                    assert(node_trans(*m, a)[idx].0 < t.0);
                                    assert((p + s2).take(p.len() as int) =~= p);
                                    assert(buf@.take(p.len() as int) =~= p);
                                    assert((p + s2)[p.len() as int] == s2[0]);
                                    assert(buf@[p.len() as int] == t.0);
                                    lemma_below_at(p + s2, buf@, p.len() as int);
                                }
                            }
                        }
                    }
                    return r;
                }
                buf.truncate(i);
                proof {
                    assert(buf@ =~= p);
                }
                if ti > 0 {
                    let t2 = node_transition(m, a, ti - 1);
                    proof {
                        assert(trans_sorted(node_trans(*m, a)));
                        lemma_frame_step(*m, a, p, sum, (ti - 1) as int);
                        assert(t2.0 < t.0);
                        assert(p.push(t2.0) =~= p + seq![t2.0]);
                        assert(p.push(t2.0).take(i as int) =~= ub@.take(i as int));
                        assert(p.push(t2.0)[i as int] == t2.0);
                        assert(strictly_below(p.push(t2.0), ub@));
                    }
                    buf.push(t2.0);
                    let r2 = search_le(m, ub, t2.2, sum + t2.1, true, buf);
                    proof {
                        if r2 is None {
                            let s0 = choose|s: Seq<u8>| (#[trigger] suffix_val(*m, t2.2, s)) is Some;
                            lemma_strictly_below_lt(p.push(t2.0), ub@, s0);
                            assert(false);
                        }
                        let pp2 = p.push(t2.0);
                        let s_rec = buf@.skip(pp2.len() as int);
                        let s = buf@.skip(p.len() as int);
                        assert(buf@ == pp2 + s_rec);
                        assert(s =~= seq![t2.0] + s_rec);
                        assert(s.len() > 0 && s[0] == t2.0);
                        assert(s.skip(1) =~= s_rec);
                        lemma_suffix_val_cons(*m, a, (ti - 1) as int, s);
                        assert(buf@ =~= p + s);
                        assert forall|s2: Seq<u8>|
                            (#[trigger] suffix_val(*m, a, s2)) is Some && lex_le(
                                p + s2,
                                ub@,
                            ) implies lex_le(p + s2, buf@) by {
                            if s2.len() == 0 {
                                assert(p + s2 =~= p);
                                lemma_prefix_le(p, s);
                            } else {
                                lemma_find_trans_some(node_trans(*m, a), s2[0]);
                                let idx = choose|idx: int|
                                    0 <= idx < node_trans(*m, a).len() && #[trigger] node_trans(
                                        *m,
                                        a,
                                    )[idx] == find_trans(node_trans(*m, a), s2[0])->Some_0
                                        && node_trans(*m, a)[idx].0 == s2[0];
                                if idx > ti {
                                    assert(s2[0] > u_byte);
                                    assert(ub@.take(i as int) =~= (p + s2).take(i as int));
                                    assert((p + s2)[i as int] == s2[0]);
                                    lemma_below_at(ub@, p + s2, i as int);
                                    lemma_lex_trichotomy(p + s2, ub@);
                                } else if idx == ti {
                                    lemma_suffix_val_cons(*m, a, ti as int, s2);
                                    assert(suffix_val(*m, t.2, s2.skip(1)) is Some);
                                    assert(p + s2 =~= p.push(t.0) + s2.skip(1));
                                } else if idx == ti - 1 {
                                    lemma_suffix_val_cons(*m, a, (ti - 1) as int, s2);
                                    assert(suffix_val(*m, t2.2, s2.skip(1)) is Some);
                                    lemma_strictly_below_lt(pp2, ub@, s2.skip(1));
                                    assert(p + s2 =~= pp2 + s2.skip(1));
                                } else {
                                    assert(node_trans(*m, a)[idx].0 < t2.0);
                                    assert((p + s2).take(p.len() as int) =~= p);
                                    assert(buf@.take(p.len() as int) =~= p);
                                    assert((p + s2)[p.len() as int] == s2[0]);
                                    assert(buf@[p.len() as int] == t2.0);
                                    lemma_below_at(p + s2, buf@, p.len() as int);
                                }
                            }
                        }
                    }
                    return r2;
                }
                proof {
                    assert forall|s2: Seq<u8>|
                        (#[trigger] suffix_val(*m, a, s2)) is Some && s2.len() > 0 implies !lex_le(
                        p + s2,
                        ub@,
                    ) by {
                        lemma_find_trans_some(node_trans(*m, a), s2[0]);
                        let idx = choose|idx: int|
                            0 <= idx < node_trans(*m, a).len() && #[trigger] node_trans(*m, a)[idx]
                                == find_trans(node_trans(*m, a), s2[0])->Some_0 && node_trans(
                                *m,
                                a,
                            )[idx].0 == s2[0];
                        if idx > ti {
                            assert(s2[0] > u_byte);
                            assert(ub@.take(i as int) =~= (p + s2).take(i as int));
                            assert((p + s2)[i as int] == s2[0]);
                            lemma_below_at(ub@, p + s2, i as int);
                            lemma_lex_trichotomy(p + s2, ub@);
                        } else {
                            lemma_suffix_val_cons(*m, a, ti as int, s2);
                            assert(suffix_val(*m, t.2, s2.skip(1)) is Some);
                            assert(p + s2 =~= p.push(t.0) + s2.skip(1));
                        }
                    }
                }
                let r3 = seal_frame(m, ub, a, sum, less, buf);
                proof {
                    assert(buf@.skip(p.len() as int) =~= Seq::<u8>::empty());
                    assert(buf@ =~= p + Seq::<u8>::empty());
                }
                r3
            },
        }
    } else {
        proof {
            assert(p =~= ub@);
            assert forall|s2: Seq<u8>|
                (#[trigger] suffix_val(*m, a, s2)) is Some && s2.len() > 0 implies !lex_le(
                p + s2,
                ub@,
            ) by {
                lemma_proper_extension_gt(ub@, s2);
                assert(p + s2 =~= ub@ + s2);
                lemma_lex_trichotomy(p + s2, ub@);
            }
        }
        let r = seal_frame(m, ub, a, sum, less, buf);
        proof {
            assert(buf@.skip(p.len() as int) =~= Seq::<u8>::empty());
            assert(buf@ =~= p + Seq::<u8>::empty());
        }
        r
    }
}

/// Descends from the node at `a` along the greatest transition at every
/// step, appending the greatest accepted suffix to `buf` and returning its
/// accumulated offset; none exactly when no suffix below `a` is accepted.
fn search_max(m: &fst::Map<Vec<u8>>, a: usize, sum: u64, buf: &mut Vec<u8>) -> (r: Option<u64>)
    requires
        map_wf(*m),
        node_ok(*m, a),
        frame_ok(*m, a, old(buf)@, sum),
    ensures
        match r {
            Some(o) => {
                let s = final(buf)@.skip(old(buf)@.len() as int);
                &&& final(buf)@ == old(buf)@ + s
                &&& suffix_val(*m, a, s) is Some
                &&& o as int == sum + suffix_val(*m, a, s)->Some_0
                &&& forall|s2: Seq<u8>|
                    (#[trigger] suffix_val(*m, a, s2)) is Some ==> lex_le(old(buf)@ + s2, final(buf)@)
            },
            None => final(buf)@ == old(buf)@ && !subtree_inhabited(*m, a),
        },
    decreases a,
{
    let ghost p = buf@;
    let n = node_len(m, a);
    if n == 0 {
        proof {
            assert forall|s2: Seq<u8>| s2.len() > 0 implies !((#[trigger] suffix_val(
                *m,
                a,
                s2,
            )) is Some) by {
                assert(find_trans(node_trans(*m, a), s2[0]) is None);
            }
        }
        if node_is_final(m, a) {
            let fo = node_final_output(m, a);
            proof {
                assert(suffix_val(*m, a, Seq::<u8>::empty()) == Some(fo as int));
                assert(index_map(*m)[p + Seq::<u8>::empty()] as int == sum + fo);
                assert(buf@ =~= p + buf@.skip(p.len() as int));
                assert(buf@.skip(p.len() as int) =~= Seq::<u8>::empty());
                assert forall|s2: Seq<u8>| (#[trigger] suffix_val(*m, a, s2)) is Some implies
                    lex_le(p + s2, buf@) by {
                    assert(s2.len() == 0);
                    assert(p + s2 =~= buf@);
                }
            }
            Some(sum + fo)
        } else {
            proof {
                assert forall|s2: Seq<u8>| !((#[trigger] suffix_val(*m, a, s2)) is Some) by {
                    if s2.len() == 0 {
                        assert(node_final(*m, a) is None);
                    }
                }
            }
            None
        }
    } else {
        let t = node_transition(m, a, n - 1);
        proof {
            assert(trans_sorted(node_trans(*m, a)));
            lemma_frame_step(*m, a, p, sum, (n - 1) as int);
            assert(p.push(t.0) =~= p + seq![t.0]);
        }
        buf.push(t.0);
        let r = search_max(m, t.2, sum + t.1, buf);
        match r {
            Some(o) => {
                proof {
                    let pp = p.push(t.0);
                    let s_rec = buf@.skip(pp.len() as int);
                    let s = buf@.skip(p.len() as int);
                    assert(buf@ == pp + s_rec);
                    assert(s =~= seq![t.0] + s_rec);
                    assert(s.len() > 0 && s[0] == t.0);
                    assert(s.skip(1) =~= s_rec);
                    lemma_suffix_val_cons(*m, a, (n - 1) as int, s);
                    assert(buf@ =~= p + s);
                    assert forall|s2: Seq<u8>| (#[trigger] suffix_val(*m, a, s2)) is Some implies
                        lex_le(p + s2, buf@) by {
                        if s2.len() == 0 {
                            assert(p + s2 =~= p);
                            lemma_prefix_le(p, s);
                        } else {
                            lemma_find_trans_some(node_trans(*m, a), s2[0]);
                            let idx = choose|idx: int|
                                0 <= idx < node_trans(*m, a).len() && #[trigger] node_trans(
                                    *m,
                                    a,
                                )[idx] == find_trans(node_trans(*m, a), s2[0])->Some_0
                                    && node_trans(*m, a)[idx].0 == s2[0];
                            if idx == n - 1 {
                                lemma_suffix_val_cons(*m, a, (n - 1) as int, s2);
                                assert(suffix_val(*m, t.2, s2.skip(1)) is Some);
                                assert(p + s2 =~= pp + s2.skip(1));
                            } else {
                                assert(node_trans(*m, a)[idx].0 < t.0);
                                assert((p + s2).take(p.len() as int) =~= p);
                                assert(buf@.take(p.len() as int) =~= p);
                                assert((p + s2)[p.len() as int] == s2[0]);
                                assert(buf@[p.len() as int] == t.0);
                                lemma_below_at(p + s2, buf@, p.len() as int);
                            }
                        }
                    }
                }
                Some(o)
            },
            None => {
                proof {
                    assert(subtree_inhabited(*m, t.2));
                    assert(false);
                }
                None
            },
        }
    }
}

} // verus!
