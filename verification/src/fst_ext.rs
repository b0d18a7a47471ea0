//! Trusted interface to the `fst` crate.
//!
//! The index of a store is a finite-state transducer serialized by `fst`.
//! This module declares the `fst` types the crate stores and walks, names
//! their ghost contents, and wraps the calls the verified code makes. Every
//! contract here is believed, not proved: each states only what the `fst`
//! sources show of the wrapped call.
//!
//! The ghost views: `index_map` is the key-to-offset map a transducer holds;
//! `node_trans` and `node_final` describe one node of it (its sorted
//! transition list and its finality with final output); `builder_entries` is
//! the sequence of entries accepted by a builder so far; `map_valid` and
//! `parsed_map` describe which byte strings a compatible builder writes and
//! what map they encode; `map_wf` marks a parsed transducer as carrying that
//! provenance. `fst::Map::new` checks only the container framing, not the
//! node encoding, so every navigation contract below holds only of a
//! well-formed (`map_wf`) transducer: on other accepted byte strings the
//! calls may panic or return junk, and nothing here claims otherwise.

use vstd::prelude::*;

use fst::IntoStreamer;
use fst::Streamer;

use crate::cache::key_in_bounds;
use crate::cache::KeyBound;
use crate::model::map_of_entries;
use crate::model::root_models;
use crate::model::subtree_inhabited;
use crate::order::lex_le;
use crate::order::lex_lt;

verus! {

#[verifier::external_type_specification]
#[verifier::external_body]
#[verifier::reject_recursive_types(D)]
pub struct ExFstMap<D>(fst::Map<D>);

#[verifier::external_type_specification]
#[verifier::external_body]
#[verifier::reject_recursive_types(W)]
pub struct ExFstMapBuilder<W>(fst::MapBuilder<W>);

#[verifier::external_type_specification]
#[verifier::external_body]
pub struct ExFstError(fst::Error);

#[verifier::external_type_specification]
#[verifier::external_body]
pub struct ExIoError(std::io::Error);

/// The key-to-offset map held by a transducer.
pub uninterp spec fn index_map(m: fst::Map<Vec<u8>>) -> Map<Seq<u8>, u64>;

/// The transitions of the node at address `a`: input byte, output, target.
pub uninterp spec fn node_trans(m: fst::Map<Vec<u8>>, a: usize) -> Seq<(u8, u64, usize)>;

/// Whether the node at address `a` is final, and its final output if so.
pub uninterp spec fn node_final(m: fst::Map<Vec<u8>>, a: usize) -> Option<u64>;

/// Whether address `a` designates a node of `m` (the root, or a transition
/// target reached from it).
pub uninterp spec fn node_ok(m: fst::Map<Vec<u8>>, a: usize) -> bool;

/// The entries accepted by a builder so far, in insertion order.
pub uninterp spec fn builder_entries(b: fst::MapBuilder<Vec<u8>>) -> Seq<(Seq<u8>, u64)>;

/// Whether `bytes` is a transducer that a compatible builder wrote.
/// `Builder::finish` produces exactly such bytes, and `fst::Map::new`
/// accepts them all; it also accepts some byte strings no builder wrote,
/// of which nothing is claimed.
pub uninterp spec fn map_valid(bytes: Seq<u8>) -> bool;

/// The key-to-offset map that a builder-written transducer encodes.
pub uninterp spec fn parsed_map(bytes: Seq<u8>) -> Map<Seq<u8>, u64>;

/// The parsed transducer's bytes were written by a compatible builder, so
/// its node encoding matches the model above. Granted only by parsing
/// `map_valid` bytes; every navigation call requires it.
pub uninterp spec fn map_wf(m: fst::Map<Vec<u8>>) -> bool;

/// Relies on `fst::Map::new`: every byte string a compatible builder wrote
/// is accepted and yields the well-formed map it encodes. `Map::new` checks
/// only the container framing (length floor, version, root address), so it
/// may also accept byte strings no builder wrote; of the map parsed from
/// those nothing is promised.
#[verifier::external_body]
pub(crate) fn map_new(bytes: Vec<u8>) -> (r: Result<fst::Map<Vec<u8>>, fst::Error>)
    ensures
        map_valid(bytes@) ==> r is Ok,
        r matches Ok(m) ==> (map_valid(bytes@) ==> index_map(m) == parsed_map(bytes@) && map_wf(
            m,
        )),
{
    fst::Map::new(bytes)
}

/// Relies on `fst::Map::get`: a point lookup on a well-formed transducer
/// returns the value recorded for the key, or nothing when the key is
/// absent.
#[verifier::external_body]
pub(crate) fn map_get(m: &fst::Map<Vec<u8>>, key: &[u8]) -> (r: Option<u64>)
    requires
        map_wf(*m),
    ensures
        r == if index_map(*m).contains_key(key@) {
            Some(index_map(*m)[key@])
        } else {
            None::<u64>
        },
{
    m.get(key)
}

/// Relies on `fst::raw::Fst::root` and `fst::raw::Node::addr`: in a
/// well-formed transducer the root node exists, and the accepting paths
/// below it spell exactly the stored keys, each key's value being the sum
/// of the arc outputs plus the final output.
#[verifier::external_body]
pub(crate) fn map_root(m: &fst::Map<Vec<u8>>) -> (r: usize)
    requires
        map_wf(*m),
    ensures
        node_ok(*m, r),
        root_models(*m, r),
{
    m.as_fst().root().addr()
}

/// Relies on `fst::raw::Node::len`: the number of transitions of the node,
/// whose input bytes the format keeps strictly sorted.
#[verifier::external_body]
pub(crate) fn node_len(m: &fst::Map<Vec<u8>>, a: usize) -> (r: usize)
    requires
        map_wf(*m),
        node_ok(*m, a),
    ensures
        r == node_trans(*m, a).len(),
        forall|i: int, j: int|
            0 <= i < j < r ==> (#[trigger] node_trans(*m, a)[i]).0 < (#[trigger] node_trans(
                *m,
                a,
            )[j]).0,
{
    m.as_fst().node(a).len()
}

/// Relies on `fst::raw::Node::transition`: the `i`-th transition of the
/// node. A target is always a node compiled before this one (a strictly
/// smaller address) and always has at least one accepted suffix below it.
#[verifier::external_body]
pub(crate) fn node_transition(m: &fst::Map<Vec<u8>>, a: usize, i: usize) -> (r: (u8, u64, usize))
    requires
        map_wf(*m),
        node_ok(*m, a),
        i < node_trans(*m, a).len(),
    ensures
        r == node_trans(*m, a)[i as int],
        node_ok(*m, r.2),
        r.2 < a,
        subtree_inhabited(*m, r.2),
{
    let t = m.as_fst().node(a).transition(i);
    (t.inp, t.out.value(), t.addr)
}

/// Relies on `fst::raw::Node::is_final`: whether the node ends a stored key.
#[verifier::external_body]
pub(crate) fn node_is_final(m: &fst::Map<Vec<u8>>, a: usize) -> (r: bool)
    requires
        map_wf(*m),
        node_ok(*m, a),
    ensures
        r == (node_final(*m, a) is Some),
{
    m.as_fst().node(a).is_final()
}

/// Relies on `fst::raw::Node::final_output`: the final output of a final
/// node.
#[verifier::external_body]
pub(crate) fn node_final_output(m: &fst::Map<Vec<u8>>, a: usize) -> (r: u64)
    requires
        map_wf(*m),
        node_ok(*m, a),
        node_final(*m, a) is Some,
    ensures
        node_final(*m, a) == Some(r),
{
    m.as_fst().node(a).final_output().value()
}

/// Relies on `fst::Map::stream`: on a well-formed transducer, entries
/// stream in ascending lexicographic key order, so the first streamed entry
/// carries the smallest key.
#[verifier::external_body]
pub(crate) fn map_first(m: &fst::Map<Vec<u8>>) -> (r: Option<(Vec<u8>, u64)>)
    requires
        map_wf(*m),
    ensures
        r is None <==> (forall|k: Seq<u8>| !index_map(*m).contains_key(k)),
        r matches Some(p) ==> {
            &&& index_map(*m).contains_key(p.0@)
            &&& p.1 == index_map(*m)[p.0@]
            &&& forall|k: Seq<u8>| index_map(*m).contains_key(k) ==> lex_le(p.0@, k)
        },
{
    let mut s = m.stream();
    s.next().map(|(k, v)| (k.to_vec(), v))
}

/// Relies on `fst::map::StreamBuilder` (`ge`, `gt`, `le`, `lt`) and
/// `fst::map::Stream::into_byte_vec`: on a well-formed transducer the
/// stream yields exactly the entries whose keys lie within the bounds, in
/// ascending lexicographic key order. The body dispatches on `KeyBound`
/// itself — one arm per variant, each moving one bound into the matching
/// builder clause — a dispatch Verus never reads; the contract pins what
/// each variant must mean through `key_in_bounds`.
#[verifier::external_body]
pub(crate) fn range_collect(m: &fst::Map<Vec<u8>>, start: &KeyBound, end: &KeyBound) -> (r: Vec<
    (Vec<u8>, u64),
>)
    requires
        map_wf(*m),
    ensures
        forall|i: int|
            0 <= i < r@.len() ==> {
                let p = #[trigger] r@[i];
                index_map(*m).contains_key(p.0@) && p.1 == index_map(*m)[p.0@] && key_in_bounds(
                    *start,
                    *end,
                    p.0@,
                )
            },
        forall|k: Seq<u8>|
            #![trigger index_map(*m).contains_key(k), key_in_bounds(*start, *end, k)]
            index_map(*m).contains_key(k) && key_in_bounds(*start, *end, k) ==> exists|i: int|
                0 <= i < r@.len() && (#[trigger] r@[i]).0@ == k,
        forall|i: int, j: int|
            0 <= i < j < r@.len() ==> lex_lt((#[trigger] r@[i]).0@, (#[trigger] r@[j]).0@),
{
    let b = m.range();
    let b = match start {
        KeyBound::Unbounded => b,
        KeyBound::Included(x) => b.ge(x),
        KeyBound::Excluded(x) => b.gt(x),
    };
    let b = match end {
        KeyBound::Unbounded => b,
        KeyBound::Included(x) => b.le(x),
        KeyBound::Excluded(x) => b.lt(x),
    };
    b.into_stream().into_byte_vec()
}

/// Relies on `fst::MapBuilder::memory`: a fresh in-memory builder holds no
/// entries.
#[verifier::external_body]
pub(crate) fn builder_new() -> (r: fst::MapBuilder<Vec<u8>>)
    ensures
        builder_entries(r) == Seq::<(Seq<u8>, u64)>::empty(),
{
    fst::MapBuilder::memory()
}

/// Relies on `fst::MapBuilder::insert`: a key is accepted exactly when it is
/// strictly greater than the last accepted key (a smaller key is rejected as
/// out of order, an equal one as a duplicate), acceptance appends the entry,
/// rejection changes nothing, and the in-memory sink cannot fail.
#[verifier::external_body]
pub(crate) fn builder_insert(b: &mut fst::MapBuilder<Vec<u8>>, key: &[u8], val: u64) -> (r: Result<
    (),
    fst::Error,
>)
    ensures
        r is Ok <==> (builder_entries(*old(b)).len() == 0 || lex_lt(
            builder_entries(*old(b)).last().0,
            key@,
        )),
        r is Ok ==> builder_entries(*final(b)) == builder_entries(*old(b)).push((key@, val)),
        r is Err ==> builder_entries(*final(b)) == builder_entries(*old(b)),
{
    b.insert(key, val)
}

/// Relies on `fst::MapBuilder::into_inner`: finishing writes the trailer and
/// hands back the serialized transducer; reading those bytes back yields
/// exactly the accepted entries, and the in-memory sink cannot fail.
#[verifier::external_body]
pub(crate) fn builder_finish(b: fst::MapBuilder<Vec<u8>>) -> (r: Result<Vec<u8>, fst::Error>)
    ensures
        r is Ok,
        r matches Ok(bytes) ==> map_valid(bytes@) && parsed_map(bytes@) == map_of_entries(
            builder_entries(b),
        ),
{
    b.into_inner()
}

} // verus!
