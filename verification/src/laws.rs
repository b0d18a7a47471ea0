//! Store-wide laws.
//!
//! `Builder::finish` guarantees that reading its index back yields
//! `map_of_entries` of the committed entries, and `Cache::new` guarantees
//! that a reader attached to such builder-written bytes is well formed and
//! holds exactly that map; the laws here state what that map and the value
//! blob satisfy for every well-formed builder history.

use vstd::prelude::*;

use crate::model::map_of_entries;
use crate::order::lemma_lex_trichotomy;
use crate::order::lex_lt;

verus! {

/// Whether the entry keys strictly increase (insertion order is
/// lexicographic order), as `Builder::wf` maintains.
pub open spec fn entries_sorted(es: Seq<(Seq<u8>, u64)>) -> bool {
    forall|x: int, y: int|
        0 <= x < y < es.len() ==> lex_lt((#[trigger] es[x]).0, (#[trigger] es[y]).0)
}

/// Looking a committed key up in the finished map yields exactly its
/// recorded offset.
pub proof fn lemma_entries_lookup(es: Seq<(Seq<u8>, u64)>, i: int)
    requires
        entries_sorted(es),
        0 <= i < es.len(),
    ensures
        map_of_entries(es).contains_key(es[i].0),
        map_of_entries(es)[es[i].0] == es[i].1,
    decreases es.len(),
{
    if i == es.len() - 1 {
    } else {
        lemma_lex_trichotomy(es[i].0, es.last().0);
        assert(entries_sorted(es.drop_last())) by {
            assert forall|x: int, y: int| 0 <= x < y < es.drop_last().len() implies lex_lt(
                (#[trigger] es.drop_last()[x]).0,
                (#[trigger] es.drop_last()[y]).0,
            ) by {
                assert(es.drop_last()[x] == es[x] && es.drop_last()[y] == es[y]);
            }
        }
        assert(es.drop_last()[i] == es[i]);
        lemma_entries_lookup(es.drop_last(), i);
    }
}

/// The finished map holds no keys besides the committed ones.
pub proof fn lemma_entries_domain(es: Seq<(Seq<u8>, u64)>, k: Seq<u8>)
    requires
        map_of_entries(es).contains_key(k),
    ensures
        exists|i: int| 0 <= i < es.len() && (#[trigger] es[i]).0 == k,
    decreases es.len(),
{
    if es.len() == 0 {
    } else if es.last().0 == k {
        assert(es[es.len() - 1].0 == k);
    } else {
        lemma_entries_domain(es.drop_last(), k);
        let i = choose|i: int| 0 <= i < es.drop_last().len() && (#[trigger] es.drop_last()[i]).0 == k;
        assert(es[i] == es.drop_last()[i]);
    }
}

/// Offset/value consistency: an `insert` on a builder with no value bytes
/// pending appends `value` at the end of the blob and records that position,
/// so after `finish` the key resolves to an offset at which the blob holds
/// exactly `value`.
pub proof fn lemma_offset_value_consistency(
    entries0: Seq<(Seq<u8>, u64)>,
    blob0: Seq<u8>,
    entries1: Seq<(Seq<u8>, u64)>,
    blob1: Seq<u8>,
    key: Seq<u8>,
    value: Seq<u8>,
)
    requires
        entries_sorted(entries1),
        entries1 == entries0.push((key, blob0.len() as u64)),
        blob1 == blob0 + value,
        blob0.len() <= u64::MAX,
    ensures
        map_of_entries(entries1).contains_key(key),
        map_of_entries(entries1)[key] as int == blob0.len(),
        blob1.subrange(blob0.len() as int, blob0.len() + value.len() as int) == value,
{
    assert(entries1[entries1.len() - 1] == (key, blob0.len() as u64));
    lemma_entries_lookup(entries1, entries1.len() - 1);
    assert(blob1.subrange(blob0.len() as int, blob0.len() + value.len() as int) =~= value);
}

/// The end of entry `i`'s value bytes: the next entry's offset, or the
/// committed cursor for the last entry.
pub open spec fn entry_end(es: Seq<(Seq<u8>, u64)>, committed: int, i: int) -> int {
    if i + 1 < es.len() {
        es[i + 1].1 as int
    } else {
        committed
    }
}

/// Offset/value consistency over a whole build, for any number of entries:
/// in a well-formed builder, every committed key resolves through the
/// finished map to its recorded offset, and that offset with the next
/// entry's offset (or the committed cursor) delimits the entry's value
/// bytes inside the blob.
pub proof fn lemma_offsets_delimit_values(b: crate::builder::Builder, i: int)
    requires
        b.wf(),
        0 <= i < b.entries().len(),
    ensures
        map_of_entries(b.entries()).contains_key(b.entries()[i].0),
        map_of_entries(b.entries())[b.entries()[i].0] == b.entries()[i].1,
        b.entries()[i].1 <= entry_end(b.entries(), b.committed(), i) <= b.blob().len(),
{
    lemma_entries_lookup(b.entries(), i);
}

/// `k` occurs somewhere in the listing `r`.
pub open spec fn appears(r: Seq<Seq<u8>>, k: Seq<u8>) -> bool {
    exists|y: int| 0 <= y < r.len() && #[trigger] r[y] == k
}

/// Order preservation: a strictly ascending listing of exactly the committed
/// keys is the committed keys in insertion order — the full range stream
/// returns the insertion sequence.
pub proof fn lemma_full_range_is_insertion_order(es: Seq<(Seq<u8>, u64)>, r: Seq<Seq<u8>>)
    requires
        entries_sorted(es),
        forall|x: int, y: int| 0 <= x < y < r.len() ==> lex_lt(#[trigger] r[x], #[trigger] r[y]),
        forall|x: int| 0 <= x < es.len() ==> appears(r, (#[trigger] es[x]).0),
        forall|y: int| 0 <= y < r.len() ==> map_of_entries(es).contains_key(#[trigger] r[y]),
    ensures
        r.len() == es.len(),
        forall|x: int| 0 <= x < es.len() ==> #[trigger] r[x] == es[x].0,
    decreases es.len(),
{
    if es.len() == 0 {
        if r.len() > 0 {
            assert(map_of_entries(es).contains_key(r[0]));
            assert(map_of_entries(es) =~= Map::<Seq<u8>, u64>::empty());
        }
    } else {
        // both listings end in the same greatest key
        assert(appears(r, es[es.len() - 1].0));
        assert(r.len() > 0);
        assert(r.last() == es.last().0) by {
            lemma_entries_domain(es, r.last());
            let i = choose|i: int| 0 <= i < es.len() && (#[trigger] es[i]).0 == r.last();
            let y = choose|y: int| 0 <= y < r.len() && #[trigger] r[y] == es[es.len() - 1].0;
            if i < es.len() - 1 {
                assert(lex_lt(es[i].0, es.last().0));
                if y < r.len() - 1 {
                    assert(lex_lt(r[y], r.last()));
                    lemma_lex_trichotomy(r.last(), es.last().0);
                    assert(false);
                }
            }
        }
        let es2 = es.drop_last();
        let r2 = r.drop_last();
        assert(entries_sorted(es2)) by {
            assert forall|x: int, y: int| 0 <= x < y < es2.len() implies lex_lt(
                (#[trigger] es2[x]).0,
                (#[trigger] es2[y]).0,
            ) by {
                assert(es2[x] == es[x] && es2[y] == es[y]);
            }
        }
        assert(forall|x: int, y: int|
            0 <= x < y < r2.len() ==> lex_lt(#[trigger] r2[x], #[trigger] r2[y])) by {
            assert forall|x: int, y: int| 0 <= x < y < r2.len() implies lex_lt(
                #[trigger] r2[x],
                #[trigger] r2[y],
            ) by {
                assert(r2[x] == r[x] && r2[y] == r[y]);
            }
        }
        assert forall|x: int| 0 <= x < es2.len() implies appears(r2, (#[trigger] es2[x]).0) by {
            assert(es2[x] == es[x]);
            assert(appears(r, es[x].0));
            let y = choose|y: int| 0 <= y < r.len() && #[trigger] r[y] == es[x].0;
            assert(lex_lt(es[x].0, es.last().0));
            if y == r.len() - 1 {
                lemma_lex_trichotomy(es[x].0, es.last().0);
                assert(false);
            }
            assert(r2[y] == r[y]);
        }
        assert forall|y: int| 0 <= y < r2.len() implies map_of_entries(es2).contains_key(
            #[trigger] r2[y],
        ) by {
            assert(r2[y] == r[y]);
            assert(map_of_entries(es).contains_key(r[y]));
            lemma_entries_domain(es, r[y]);
            let i = choose|i: int| 0 <= i < es.len() && (#[trigger] es[i]).0 == r[y];
            if i == es.len() - 1 {
                assert(lex_lt(r[y], r.last()));
                lemma_lex_trichotomy(r[y], r.last());
                assert(false);
            }
            assert(es2[i] == es[i]);
            lemma_entries_lookup(es2, i);
        }
        lemma_full_range_is_insertion_order(es2, r2);
        assert forall|x: int| 0 <= x < es.len() implies #[trigger] r[x] == es[x].0 by {
            if x < es.len() - 1 {
                assert(r2[x] == es2[x].0);
                assert(r2[x] == r[x] && es2[x] == es[x]);
            }
        }
    }
}

} // verus!
