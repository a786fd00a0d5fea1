//! Tables whose keys strictly increase: where a search lands in them.

use vstd::prelude::*;
use crate::block::{
    concat_blocks, is_lower_bound, lemma_concat_index, lemma_start_of, start_of, EntryView,
};
use crate::iterator::seek_lands;
use crate::key::{
    key_le, key_lt, lemma_key_lt_irreflexive, lemma_key_lt_le, lemma_key_lt_transitive,
};
use crate::table::{is_block_for, SsTable};

verus! {

/// The keys of `s` strictly increase.
pub open spec fn sorted_entries(s: Seq<EntryView>) -> bool {
    forall|i: int, j: int| 0 <= i < j < s.len() ==> key_lt(#[trigger] s[i].0, #[trigger] s[j].0)
}

/// Every block of `t` reads, and the keys of `t` strictly increase.
pub open spec fn ordered(t: SsTable) -> bool {
    t.valid() && sorted_entries(t.entries())
}

proof fn lemma_start_monotone(blocks: Seq<Seq<EntryView>>, c: int, d: int)
    requires
        0 <= c <= d <= blocks.len(),
    ensures
        start_of(blocks, c) <= start_of(blocks, d),
    decreases d - c,
{
    if c < d {
        lemma_start_of(blocks, d - 1);
        lemma_start_monotone(blocks, c, d - 1);
    }
}

/// In an ordered table an entry has a smaller key than every entry behind
/// it, in its own block or in a later one.
pub proof fn lemma_keys_increase(t: SsTable, c: int, i: int, d: int, j: int)
    requires
        ordered(t),
        0 <= c <= d < t.block_meta@.len(),
        0 <= i < t.blocks()[c].len(),
        0 <= j < t.blocks()[d].len(),
        c < d || i < j,
    ensures
        key_lt(t.blocks()[c][i].0, t.blocks()[d][j].0),
{
    let blocks = t.blocks();
    lemma_concat_index(blocks, c, i);
    lemma_concat_index(blocks, d, j);
    if c < d {
        lemma_start_of(blocks, c);
        lemma_start_monotone(blocks, c + 1, d);
    }
    let s = t.entries();
    let a = start_of(blocks, c) + i;
    let b = start_of(blocks, d) + j;
    assert(key_lt(s[a].0, s[b].0));
}

/// In an ordered table the first keys of the blocks strictly increase, each
/// block's first key is at most its last, and each block ends below the
/// start of the next: the key ranges of the blocks do not overlap.
pub proof fn lemma_block_ranges(t: SsTable, c: int, d: int)
    requires
        ordered(t),
        0 <= c < d < t.block_meta@.len(),
    ensures
        key_lt(t.metas()[c].first_key, t.metas()[d].first_key),
        key_le(t.metas()[c].first_key, t.metas()[c].last_key),
        key_lt(t.metas()[c].last_key, t.metas()[d].first_key),
{
    assert(t.block_entries(c) is Some && t.block_entries(d) is Some);
    let last = t.blocks()[c].len() - 1;
    lemma_keys_increase(t, c, 0, d, 0);
    lemma_keys_increase(t, c, last, d, 0);
    lemma_first_at_most_last(t, c);
}

/// In an ordered table no block's last key is below its first key.
pub proof fn lemma_first_at_most_last(t: SsTable, c: int)
    requires
        ordered(t),
        0 <= c < t.block_meta@.len(),
    ensures
        key_le(t.metas()[c].first_key, t.metas()[c].last_key),
{
    assert(t.block_entries(c) is Some);
    let first = t.metas()[c].first_key;
    let last = t.metas()[c].last_key;
    let n = t.blocks()[c].len() - 1;
    lemma_key_lt_irreflexive(first);
    if n > 0 {
        lemma_keys_increase(t, c, 0, c, n);
        if key_lt(last, first) {
            lemma_key_lt_transitive(first, last, first);
        }
    }
}

/// In an ordered table every key of block `c` is at most the block's last
/// key, so it is below whatever that last key is below.
proof fn lemma_block_below(t: SsTable, c: int, key: Seq<u8>)
    requires
        ordered(t),
        0 <= c < t.block_meta@.len(),
        key_lt(t.metas()[c].last_key, key),
    ensures
        is_lower_bound(t.block_entries(c)->0, key, t.block_entries(c)->0.len() as int),
{
    assert(t.block_entries(c) is Some);
    let es = t.block_entries(c)->0;
    assert(es == t.blocks()[c]);
    assert forall|i: int| 0 <= i < es.len() implies key_lt(#[trigger] es[i].0, key) by {
        if i < es.len() - 1 {
            lemma_keys_increase(t, c, i, c, es.len() - 1);
            lemma_key_lt_transitive(es[i].0, t.metas()[c].last_key, key);
        }
    }
}

/// In an ordered table the search for a key that is at least the first key
/// of block `i`, and below the first key of the block after it, starts in
/// block `i` and in no other.
pub proof fn lemma_block_for_unique(t: SsTable, key: Seq<u8>, i: int, b: int)
    requires
        ordered(t),
        0 <= i < t.block_meta@.len(),
        key_le(t.metas()[i].first_key, key),
        i + 1 < t.block_meta@.len() ==> key_lt(key, t.metas()[i + 1].first_key),
        is_block_for(t.metas(), key, b),
    ensures
        b == i,
{
    let m = t.metas();
    if b < i {
        if b + 1 < i {
            lemma_block_ranges(t, b + 1, i);
            lemma_key_lt_transitive(key, m[b + 1].first_key, m[i].first_key);
        }
    } else if b > i {
        if i + 1 < b {
            lemma_block_ranges(t, i + 1, b);
            lemma_key_lt_transitive(key, m[i + 1].first_key, m[b].first_key);
        }
    }
}

/// Seeking the exact first key of block `i` of an ordered table lands on
/// that entry: entry 0 of block `i`.
pub proof fn lemma_seek_first_key(t: SsTable, i: int, b: int, blk: int, idx: int)
    requires
        ordered(t),
        0 <= i < t.block_meta@.len(),
        is_block_for(t.metas(), t.metas()[i].first_key, b),
        seek_lands(t, t.metas()[i].first_key, b, blk, idx),
    ensures
        b == i,
        blk == i,
        idx == 0,
{
    let key = t.metas()[i].first_key;
    lemma_key_lt_irreflexive(key);
    if i + 1 < t.block_meta@.len() {
        lemma_block_ranges(t, i, i + 1);
    }
    lemma_block_for_unique(t, key, i, b);
    assert(t.block_entries(i) is Some);
    let es = t.block_entries(i)->0;
    assert(!key_lt(es[0].0, key));
    if idx > 0 {
        assert(key_lt(es[0].0, key));
    }
}

/// Seeking a key strictly between the last key of block `i` and the first
/// key of block `i + 1` of an ordered table lands on the first entry of
/// block `i + 1`.
pub proof fn lemma_seek_between_blocks(
    t: SsTable,
    key: Seq<u8>,
    i: int,
    b: int,
    blk: int,
    idx: int,
)
    requires
        ordered(t),
        0 <= i,
        i + 1 < t.block_meta@.len(),
        key_lt(t.metas()[i].last_key, key),
        key_lt(key, t.metas()[i + 1].first_key),
        is_block_for(t.metas(), key, b),
        seek_lands(t, key, b, blk, idx),
    ensures
        b == i,
        blk == i + 1,
        idx == 0,
{
    let m = t.metas();
    lemma_first_at_most_last(t, i);
    if key_lt(key, m[i].first_key) {
        lemma_key_lt_transitive(m[i].last_key, key, m[i].first_key);
    }
    lemma_block_for_unique(t, key, i, b);
    lemma_block_below(t, i, key);
}

/// Seeking a key above the last key of an ordered table leaves the cursor
/// past the last block: exhausted.
pub proof fn lemma_seek_past_end(t: SsTable, key: Seq<u8>, b: int, blk: int, idx: int)
    requires
        ordered(t),
        key_lt(t.last_key@, key),
        is_block_for(t.metas(), key, b),
        seek_lands(t, key, b, blk, idx),
    ensures
        b == t.block_meta@.len() - 1,
        blk == t.block_meta@.len(),
        idx == t.block_entries(b)->0.len(),
{
    let m = t.metas();
    let last = t.block_meta@.len() - 1;
    lemma_first_at_most_last(t, last);
    if key_lt(key, m[last].first_key) {
        lemma_key_lt_transitive(m[last].last_key, key, m[last].first_key);
    }
    lemma_block_for_unique(t, key, last, b);
    lemma_block_below(t, last, key);
}

proof fn lemma_locate(blocks: Seq<Seq<EntryView>>, g: int) -> (r: (int, int))
    requires
        0 <= g < concat_blocks(blocks).len(),
    ensures
        0 <= r.0 < blocks.len(),
        0 <= r.1 < blocks[r.0].len(),
        start_of(blocks, r.0) + r.1 == g,
    decreases blocks.len(),
{
    let front = blocks.drop_last();
    let last = blocks.len() - 1;
    if g < concat_blocks(front).len() {
        let r = lemma_locate(front, g);
        assert(blocks.take(r.0) =~= front.take(r.0));
        r
    } else {
        assert(blocks.take(last) =~= front);
        (last, g - concat_blocks(front).len())
    }
}

/// Where a cursor on entry `idx` of block `blk` stands among all entries;
/// past the last block it stands behind them all.
pub open spec fn position_of(t: SsTable, blk: int, idx: int) -> int {
    if blk < t.block_meta@.len() {
        start_of(t.blocks(), blk) + idx
    } else {
        t.entries().len() as int
    }
}

/// In an ordered table a search for `key` lands on the first entry of the
/// whole table whose key is at least `key`, and past the end where every key
/// is smaller.
pub proof fn lemma_seek_lower_bound(t: SsTable, key: Seq<u8>, b: int, blk: int, idx: int)
    requires
        ordered(t),
        is_block_for(t.metas(), key, b),
        seek_lands(t, key, b, blk, idx),
    ensures
        is_lower_bound(t.entries(), key, position_of(t, blk, idx)),
{
    let blocks = t.blocks();
    let s = t.entries();
    let n = t.block_meta@.len() as int;
    let pos = position_of(t, blk, idx);
    let es = t.block_entries(b)->0;
    assert(t.metas().len() == n);
    assert(t.block_entries(b) is Some);
    assert(blocks[b] == es);
    lemma_start_of(blocks, b);
    if blk < n {
        assert(t.block_entries(blk) is Some);
        lemma_concat_index(blocks, blk, idx);
        lemma_start_of(blocks, blk);
        if blk == b {
            assert(!key_lt(s[pos].0, key));
        } else {
            let next = t.metas()[blk].first_key;
            assert(s[pos].0 == next);
            lemma_key_lt_irreflexive(key);
            if key_lt(next, key) {
                lemma_key_lt_transitive(key, next, key);
            }
        }
    }
    assert forall|g: int| 0 <= g < pos implies key_lt(#[trigger] s[g].0, key) by {
        let (c, i) = lemma_locate(blocks, g);
        lemma_concat_index(blocks, c, i);
        lemma_start_of(blocks, c);
        assert(t.block_entries(c) is Some);
        if c > b {
            // Block `c` starts at or behind the end of block `b`, where the
            // cursor stands at the latest.
            lemma_start_monotone(blocks, b + 1, c);
            assert(false);
        } else if c == b {
            assert(key_lt(es[i].0, key));
        } else {
            lemma_keys_increase(t, c, i, b, 0);
            assert(key_le(t.metas()[b].first_key, key));
            lemma_key_lt_le(blocks[c][i].0, t.metas()[b].first_key, key);
        }
    }
}

} // verus!
