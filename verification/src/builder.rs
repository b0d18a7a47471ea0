//! The store builder.
//!
//! Accumulates a sorted stream of `([u8], [u8])` key-value pairs in memory
//! and serializes the index when finished; `finish` hands back the two
//! regions — serialized index and value blob — for the caller to store. A
//! value is always appended before its key is committed, because the index
//! maps the key to the starting byte offset of its value within the value
//! blob. Many `append_value_bytes` calls may precede one `commit_entry`, so
//! a value can be assembled from several chunks; the committed offset is
//! the position where the first of those chunks began.

use vstd::prelude::*;

use crate::error::StoreError;
use crate::fst_ext::builder_entries;
use crate::fst_ext::builder_finish;
use crate::fst_ext::builder_insert;
use crate::fst_ext::builder_new;
use crate::fst_ext::map_valid;
use crate::fst_ext::parsed_map;
use crate::model::map_of_entries;
use crate::order::lemma_lex_lt_trans;
use crate::order::lex_lt;

verus! {

/// An in-memory builder for a store: accumulates the index entries and the
/// value blob, and serializes the index when finished.
pub struct Builder {
    map_builder: fst::MapBuilder<Vec<u8>>,
    value_blob: Vec<u8>,
    committed_cursor: usize,
}

impl Builder {
    /// The entries committed so far: each key with its recorded offset, in
    /// insertion order.
    pub closed spec fn entries(self) -> Seq<(Seq<u8>, u64)> {
        builder_entries(self.map_builder)
    }

    /// The value bytes appended so far.
    pub closed spec fn blob(self) -> Seq<u8> {
        self.value_blob@
    }

    /// The byte offset that the next committed entry will record: the start
    /// of the bytes appended since the last commit.
    pub closed spec fn committed(self) -> int {
        self.committed_cursor as int
    }

    /// Committed keys strictly increase and their offsets never decrease;
    /// every recorded offset lies at or before the committed cursor, which
    /// lies within the blob.
    pub open spec fn wf(self) -> bool {
        &&& 0 <= self.committed() <= self.blob().len()
        &&& forall|i: int, j: int|
            0 <= i < j < self.entries().len() ==> lex_lt(
                (#[trigger] self.entries()[i]).0,
                (#[trigger] self.entries()[j]).0,
            ) && self.entries()[i].1 <= self.entries()[j].1
        &&& forall|i: int|
            0 <= i < self.entries().len() ==> (#[trigger] self.entries()[i]).1 <= self.committed()
    }

    /// Creates an empty in-memory builder.
    pub fn new() -> (r: Builder)
        ensures
            r.wf(),
            r.entries() == Seq::<(Seq<u8>, u64)>::empty(),
            r.blob() == Seq::<u8>::empty(),
            r.committed() == 0,
    {
        Builder { map_builder: builder_new(), value_blob: Vec::new(), committed_cursor: 0 }
    }

    /// Writes `value` into the value blob.
    ///
    /// The caller may keep appending more value bytes before calling
    /// `commit_entry` to finish the current entry and start a new one.
    pub fn append_value_bytes(&mut self, value: &[u8]) -> (r: Result<(), StoreError>)
        requires
            old(self).wf(),
        ensures
            final(self).wf(),
            r is Ok,
            final(self).blob() == old(self).blob() + value@,
            final(self).entries() == old(self).entries(),
            final(self).committed() == old(self).committed(),
    {
        self.value_blob.extend_from_slice(value);
        proof {
            assert(self.entries() == old(self).entries());
            assert(self.blob() =~= old(self).blob() + value@);
        }
        Ok(())
    }

    /// Finishes the current value, committing the entry `(key, offset)` where
    /// `offset` is the position where this entry's value bytes began.
    ///
    /// Succeeds exactly when `key` is strictly greater than every previously
    /// committed key; a smaller or equal key is rejected with an index error
    /// and the builder is left unchanged.
    pub fn commit_entry(&mut self, key: &[u8]) -> (r: Result<(), StoreError>)
        requires
            old(self).wf(),
        ensures
            final(self).wf(),
            r is Ok <==> (old(self).entries().len() == 0 || lex_lt(
                old(self).entries().last().0,
                key@,
            )),
            r is Ok ==> final(self).entries() == old(self).entries().push(
                (key@, old(self).committed() as u64),
            ),
            r is Ok ==> final(self).committed() == old(self).blob().len(),
            r matches Err(e) ==> e is Fst && final(self).entries() == old(self).entries()
                && final(self).committed() == old(self).committed(),
            final(self).blob() == old(self).blob(),
    {
        let offset = self.committed_cursor as u64;
        let ghost pre = *self;
        match builder_insert(&mut self.map_builder, key, offset) {
            Ok(()) => {
                self.committed_cursor = self.value_blob.len();
                proof {
                    let es = self.entries();
                    assert(es == pre.entries().push((key@, pre.committed() as u64)));
                    assert forall|i: int| 0 <= i < es.len() implies (#[trigger] es[i]).1
                        <= self.committed() by {
                        if i < es.len() - 1 {
                            assert(es[i] == pre.entries()[i]);
                            assert(pre.entries()[i].1 <= pre.committed());
                        }
                    }
                    assert forall|i: int, j: int| 0 <= i < j < es.len() implies lex_lt(
                        (#[trigger] es[i]).0,
                        (#[trigger] es[j]).0,
                    ) && es[i].1 <= es[j].1 by {
                        if j < es.len() - 1 {
                            assert(es[i] == pre.entries()[i] && es[j] == pre.entries()[j]);
                        } else {
                            assert(es[j] == (key@, pre.committed() as u64));
                            if i < es.len() - 2 {
                                assert(lex_lt(pre.entries()[i].0, pre.entries().last().0));
                                lemma_lex_lt_trans(pre.entries()[i].0, pre.entries().last().0, key@);
                            } else {
                                assert(es[i] == pre.entries().last());
                            }
                        }
                    }
                }
                Ok(())
            },
            Err(e) => {
                proof {
                    let es = self.entries();
                    assert(es == pre.entries());
                    assert forall|i: int, j: int| 0 <= i < j < es.len() implies lex_lt(
                        (#[trigger] es[i]).0,
                        (#[trigger] es[j]).0,
                    ) && es[i].1 <= es[j].1 by {
                        assert(es[i] == pre.entries()[i] && es[j] == pre.entries()[j]);
                    }
                    assert forall|i: int| 0 <= i < es.len() implies (#[trigger] es[i]).1
                        <= self.committed() by {
                        assert(es[i] == pre.entries()[i]);
                    }
                }
                Err(StoreError::Fst(e))
            },
        }
    }

    /// Writes `value` into the blob and commits the entry, recording the
    /// value's byte offset along with `key` in the index.
    pub fn insert(&mut self, key: &[u8], value: &[u8]) -> (r: Result<(), StoreError>)
        requires
            old(self).wf(),
        ensures
            final(self).wf(),
            r is Ok <==> (old(self).entries().len() == 0 || lex_lt(
                old(self).entries().last().0,
                key@,
            )),
            final(self).blob() == old(self).blob() + value@,
            r is Ok ==> final(self).entries() == old(self).entries().push(
                (key@, old(self).committed() as u64),
            ),
            r is Ok ==> final(self).committed() == old(self).blob().len() + value@.len(),
            r matches Err(e) ==> e is Fst && final(self).entries() == old(self).entries()
                && final(self).committed() == old(self).committed(),
    {
        let r = self.append_value_bytes(value);
        match r {
            Ok(()) => self.commit_entry(key),
            Err(e) => Err(e),
        }
    }

    /// Completes the serialization: returns the serialized index and the
    /// value blob. Reading the index back yields exactly the committed
    /// entries.
    pub fn finish(self) -> (r: Result<(Vec<u8>, Vec<u8>), StoreError>)
        ensures
            r is Ok,
            r matches Ok(p) ==> map_valid(p.0@) && parsed_map(p.0@) == map_of_entries(
                self.entries(),
            ) && p.1@ == self.blob(),
    {
        let Builder { map_builder, value_blob, committed_cursor: _ } = self;
        match builder_finish(map_builder) {
            Ok(bytes) => Ok((bytes, value_blob)),
            Err(e) => Err(StoreError::Fst(e)),
        }
    }
}

} // verus!
