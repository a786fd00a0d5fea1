//! A cursor over the entries of one table, in key order.

use vstd::prelude::*;
use std::sync::Arc;
use crate::block::{
    is_lower_bound, lemma_concat_index, lemma_start_of, start_of, views, BlockIterator, Entry,
    EntryView,
};
use crate::codec::copy_range;
use crate::sorted::{lemma_seek_lower_bound, ordered};
use crate::table::{is_block_for, SsTable, TableError};

verus! {

/// A cursor over a table: the index of the current block and a cursor over
/// that block. It is positioned while the block cursor is on an entry, and
/// exhausted otherwise.
pub struct SsTableIterator {
    pub table: Arc<SsTable>,
    pub blk_iter: BlockIterator,
    pub blk_idx: usize,
}

/// A search for `key` that starts in block `b` of `t` ends on entry `idx` of
/// block `blk`: on the first entry of block `b` that is at least `key`; where
/// every key of block `b` is smaller, on the first entry of the next block;
/// where there is no next block, past the last block.
pub open spec fn seek_lands(t: SsTable, key: Seq<u8>, b: int, blk: int, idx: int) -> bool {
    &&& t.block_entries(b) is Some
    &&& if !is_lower_bound(t.block_entries(b)->0, key, t.block_entries(b)->0.len() as int) {
        blk == b && idx < t.block_entries(b)->0.len() && is_lower_bound(
            t.block_entries(b)->0,
            key,
            idx,
        )
    } else if b + 1 < t.block_meta@.len() {
        blk == b + 1 && idx == 0 && t.block_entries(b + 1) is Some
    } else {
        blk == t.block_meta@.len() && idx == t.block_entries(b)->0.len()
    }
}

/// A search for `key` that starts in block `b` of `t` meets a block that does
/// not read: block `b` itself, or the next one where it has to move on.
pub open spec fn seek_fails(t: SsTable, key: Seq<u8>, b: int) -> bool {
    t.block_entries(b) is None || (is_lower_bound(
        t.block_entries(b)->0,
        key,
        t.block_entries(b)->0.len() as int,
    ) && b + 1 < t.block_meta@.len() && t.block_entries(b + 1) is None)
}

/// `t` is the table `table`.
spec fn is_table(t: SsTable, table: SsTable) -> bool {
    t == table
}

impl SsTableIterator {
    /// The table is well-formed; the block index is at most the number of
    /// blocks; the block cursor is over the block that the index names, or,
    /// past the last block, at its end.
    pub open spec fn wf(&self) -> bool {
        &&& self.table.wf()
        &&& self.blk_iter.wf()
        &&& self.blk_idx <= self.table.block_meta@.len()
        &&& self.blk_idx < self.table.block_meta@.len() ==> self.table.block_entries(
            self.blk_idx as int,
        ) == Some(self.blk_iter.block@)
        &&& self.blk_idx == self.table.block_meta@.len() ==> self.blk_iter.idx
            == self.blk_iter.block@.len()
    }

    /// Whether the cursor is on an entry.
    pub open spec fn positioned(&self) -> bool {
        self.blk_iter.idx < self.blk_iter.block@.len()
    }

    /// The entry under the cursor.
    pub open spec fn current(&self) -> EntryView
        recommends
            self.positioned(),
    {
        self.blk_iter.block@[self.blk_iter.idx as int]
    }

    /// How many entries of the table lie before the cursor.
    pub open spec fn position(&self) -> int {
        if self.blk_idx < self.table.block_meta@.len() {
            start_of(self.table.blocks(), self.blk_idx as int) + self.blk_iter.idx
        } else {
            self.table.entries().len() as int
        }
    }

    /// On a table whose blocks all read, a positioned cursor is on the entry
    /// of the table that its position names, and that entry ends the table
    /// exactly where the position behind it is the number of entries.
    pub proof fn lemma_current_entry(&self)
        requires
            self.wf(),
            self.table.valid(),
            self.positioned(),
        ensures
            0 <= self.position() < self.table.entries().len(),
            self.current() == self.table.entries()[self.position()],
            self.blk_idx < self.table.block_meta@.len(),
            start_of(self.table.blocks(), self.blk_idx + 1) == self.position() + (
            self.blk_iter.block@.len() - self.blk_iter.idx),
    {
        let blocks = self.table.blocks();
        let b = self.blk_idx as int;
        assert(self.table.block_entries(b) is Some);
        assert(blocks[b] == self.blk_iter.block@);
        lemma_concat_index(blocks, b, self.blk_iter.idx as int);
        lemma_start_of(blocks, b);
    }

    /// Reads block 0 and puts a block cursor on its first entry.
    pub fn initialize_first_block(table: &Arc<SsTable>) -> (r: Result<
        (usize, BlockIterator),
        TableError,
    >)
        requires
            table.wf(),
        ensures
            match r {
                Ok((i, it)) => i == 0 && it.idx == 0 && table.block_entries(0) == Some(it.block@),
                Err(e) => e == TableError::Corruption && table.block_entries(0) is None,
            },
    {
        match table.read_block(0) {
            Ok(block) => Ok((0, BlockIterator::create_and_seek_to_first(block))),
            Err(e) => Err(e),
        }
    }

    /// A cursor on the first entry of the table.
    pub fn create_and_seek_to_first(table: Arc<SsTable>) -> (r: Result<SsTableIterator, TableError>)
        requires
            table.wf(),
        ensures
            match r {
                Ok(it) => it.wf() && it.table == table && it.blk_idx == 0 && it.blk_iter.idx == 0
                    && it.position() == 0,
                Err(e) => e == TableError::Corruption && table.block_entries(0) is None,
            },
            table.valid() ==> r is Ok && r->Ok_0.positioned(),
    {
        proof {
            lemma_start_of(table.blocks(), 0);
        }
        match Self::initialize_first_block(&table) {
            Ok((blk_idx, blk_iter)) => Ok(SsTableIterator { table, blk_iter, blk_idx }),
            Err(e) => Err(e),
        }
    }

    /// Moves to the first entry of the table. Where block 0 does not read,
    /// the cursor stays as it was.
    pub fn seek_to_first(&mut self) -> (r: Result<(), TableError>)
        requires
            old(self).wf(),
        ensures
            final(self).table == old(self).table,
            match r {
                Ok(_) => final(self).wf() && final(self).blk_idx == 0 && final(self).blk_iter.idx
                    == 0 && final(self).position() == 0,
                Err(e) => e == TableError::Corruption && old(self).table.block_entries(0) is None
                    && *final(self) == *old(self),
            },
            old(self).table.valid() ==> r is Ok && final(self).positioned(),
    {
        proof {
            lemma_start_of(self.table.blocks(), 0);
        }
        match Self::initialize_first_block(&self.table) {
            Ok((blk_idx, blk_iter)) => {
                self.blk_idx = blk_idx;
                self.blk_iter = blk_iter;
                Ok(())
            },
            Err(e) => Err(e),
        }
    }

    /// Searches for `key` from block `b` on: a block cursor on the first
    /// entry of block `b` that is at least `key`, or, where that block has
    /// none, on the first entry of the next block, or past the last block.
    pub fn seek_from_block(table: &Arc<SsTable>, b: usize, key: &[u8]) -> (r: Result<
        (usize, BlockIterator),
        TableError,
    >)
        requires
            table.wf(),
            b < table.block_meta@.len(),
        ensures
            match r {
                Ok((i, it)) => {
                    &&& seek_lands(**table, key@, b as int, i as int, it.idx as int)
                    &&& it.wf()
                    &&& i <= table.block_meta@.len()
                    &&& i < table.block_meta@.len() ==> table.block_entries(i as int) == Some(
                        it.block@,
                    )
                    &&& i == table.block_meta@.len() ==> it.idx == it.block@.len()
                },
                Err(e) => e == TableError::Corruption && seek_fails(**table, key@, b as int),
            },
    {
        let block = match table.read_block(b) {
            Ok(block) => block,
            Err(e) => {
                return Err(e);
            },
        };
        let blk_iter = BlockIterator::create_and_seek_to_key(block, key);
        if blk_iter.is_valid() {
            return Ok((b, blk_iter));
        }
        let n: usize = table.num_of_blocks();
        let next: usize = b + 1;
        if next < n {
            match table.read_block(next) {
                Ok(block) => Ok((next, BlockIterator::create_and_seek_to_first(block))),
                Err(e) => Err(e),
            }
        } else {
            Ok((next, blk_iter))
        }
    }

    /// Finds the block in which a search for `key` starts and searches from
    /// it on.
    pub fn initialize_key_block(table: &Arc<SsTable>, key: &[u8]) -> (r: Result<
        (usize, BlockIterator),
        TableError,
    >)
        requires
            table.wf(),
        ensures
            match r {
                Ok((i, it)) => {
                    &&& exists|b: int|
                        is_block_for(table.metas(), key@, b) && #[trigger] seek_lands(
                            **table,
                            key@,
                            b,
                            i as int,
                            it.idx as int,
                        )
                    &&& it.wf()
                    &&& i <= table.block_meta@.len()
                    &&& i < table.block_meta@.len() ==> table.block_entries(i as int) == Some(
                        it.block@,
                    )
                    &&& i == table.block_meta@.len() ==> it.idx == it.block@.len()
                },
                Err(e) => e == TableError::Corruption && exists|b: int|
                    is_block_for(table.metas(), key@, b) && #[trigger] seek_fails(**table, key@, b),
            },
    {
        let b: usize = table.find_block_idx(key);
        let r = Self::seek_from_block(table, b, key);
        proof {
            if r is Ok {
                assert(seek_lands(**table, key@, b as int, r->Ok_0.0 as int, r->Ok_0.1.idx as int));
            } else {
                assert(seek_fails(**table, key@, b as int));
            }
        }
        r
    }

    /// A cursor on the first entry of the table whose key is at least `key`.
    pub fn create_and_seek_to_key(table: Arc<SsTable>, key: &[u8]) -> (r: Result<
        SsTableIterator,
        TableError,
    >)
        requires
            table.wf(),
        ensures
            match r {
                Ok(it) => it.wf() && it.table == table && exists|b: int|
                    is_block_for(table.metas(), key@, b) && #[trigger] seek_lands(
                        *table,
                        key@,
                        b,
                        it.blk_idx as int,
                        it.blk_iter.idx as int,
                    ),
                Err(e) => e == TableError::Corruption && exists|b: int|
                    is_block_for(table.metas(), key@, b) && #[trigger] seek_fails(*table, key@, b),
            },
            ordered(*table) ==> r is Ok && is_lower_bound(
                table.entries(),
                key@,
                r->Ok_0.position(),
            ),
    {
        match Self::initialize_key_block(&table, key) {
            Ok((blk_idx, blk_iter)) => {
                proof {
                    assert(is_table(*table, *table));
                    let t = choose|t: SsTable| #[trigger] is_table(t, *table);
                    if ordered(t) {
                        let b = choose|b: int|
                            is_block_for(t.metas(), key@, b) && #[trigger] seek_lands(
                                t,
                                key@,
                                b,
                                blk_idx as int,
                                blk_iter.idx as int,
                            );
                        lemma_seek_lower_bound(t, key@, b, blk_idx as int, blk_iter.idx as int);
                    }
                }
                Ok(SsTableIterator { table, blk_iter, blk_idx })
            },
            Err(e) => Err(e),
        }
    }

    /// Moves to the first entry of the table whose key is at least `key`, or
    /// past the end where there is none. Where a block that the search needs
    /// does not read, the cursor stays as it was.
    pub fn seek_to_key(&mut self, key: &[u8]) -> (r: Result<(), TableError>)
        requires
            old(self).wf(),
        ensures
            final(self).table == old(self).table,
            match r {
                Ok(_) => final(self).wf() && exists|b: int|
                    is_block_for(old(self).table.metas(), key@, b) && #[trigger] seek_lands(
                        *old(self).table,
                        key@,
                        b,
                        final(self).blk_idx as int,
                        final(self).blk_iter.idx as int,
                    ),
                Err(e) => e == TableError::Corruption && *final(self) == *old(self) && exists|
                    b: int,
                |
                    is_block_for(old(self).table.metas(), key@, b) && #[trigger] seek_fails(
                        *old(self).table,
                        key@,
                        b,
                    ),
            },
            ordered(*old(self).table) ==> r is Ok && is_lower_bound(
                old(self).table.entries(),
                key@,
                final(self).position(),
            ),
    {
        match Self::initialize_key_block(&self.table, key) {
            Ok((blk_idx, blk_iter)) => {
                proof {
                    assert(is_table(*self.table, *self.table));
                    let t = choose|t: SsTable| #[trigger] is_table(t, *self.table);
                    if ordered(t) {
                        let b = choose|b: int|
                            is_block_for(t.metas(), key@, b) && #[trigger] seek_lands(
                                t,
                                key@,
                                b,
                                blk_idx as int,
                                blk_iter.idx as int,
                            );
                        lemma_seek_lower_bound(t, key@, b, blk_idx as int, blk_iter.idx as int);
                    }
                }
                self.blk_idx = blk_idx;
                self.blk_iter = blk_iter;
                Ok(())
            },
            Err(e) => Err(e),
        }
    }

    /// The key under the cursor.
    pub fn key(&self) -> (k: &[u8])
        requires
            self.wf(),
            self.positioned(),
        ensures
            k@ == self.current().0,
            self.blk_idx < self.table.block_meta@.len(),
            self.current() == self.table.block_entries(self.blk_idx as int)->0[self.blk_iter.idx as int],
    {
        self.blk_iter.key()
    }

    /// The value under the cursor.
    pub fn value(&self) -> (v: &[u8])
        requires
            self.wf(),
            self.positioned(),
        ensures
            v@ == self.current().1,
    {
        self.blk_iter.value()
    }

    /// Whether the cursor is on an entry.
    pub fn is_valid(&self) -> (r: bool)
        ensures
            r == self.positioned(),
    {
        self.blk_iter.is_valid()
    }

    /// Moves one entry on: within the block; from the last entry of a block
    /// to the first entry of the next; from the last entry of the last block
    /// past the end. An exhausted cursor stays exhausted.
    pub fn next(&mut self) -> (r: Result<(), TableError>)
        requires
            old(self).wf(),
        ensures
            final(self).table == old(self).table,
            match r {
                Ok(_) => {
                    &&& final(self).wf()
                    &&& if !old(self).positioned() {
                        *final(self) == *old(self)
                    } else if old(self).blk_iter.idx + 1 < old(self).blk_iter.block@.len() {
                        final(self).blk_idx == old(self).blk_idx && final(self).blk_iter.idx
                            == old(self).blk_iter.idx + 1
                    } else if old(self).blk_idx + 1 < old(self).table.block_meta@.len() {
                        final(self).blk_idx == old(self).blk_idx + 1 && final(self).blk_iter.idx
                            == 0
                    } else {
                        final(self).blk_idx == old(self).table.block_meta@.len()
                            && !final(self).positioned()
                    }
                },
                Err(e) => {
                    &&& e == TableError::Corruption
                    &&& old(self).positioned()
                    &&& old(self).blk_iter.idx + 1 == old(self).blk_iter.block@.len()
                    &&& old(self).blk_idx + 1 < old(self).table.block_meta@.len()
                    &&& old(self).table.block_entries(old(self).blk_idx + 1) is None
                },
            },
            old(self).table.valid() && old(self).positioned() ==> {
                &&& r is Ok
                &&& final(self).position() == old(self).position() + 1
                &&& final(self).positioned() <==> final(self).position() < old(
                    self,
                ).table.entries().len()
            },
    {
        if !self.blk_iter.is_valid() {
            return Ok(());
        }
        proof {
            if self.table.valid() {
                self.lemma_current_entry();
                lemma_start_of(self.table.blocks(), self.blk_idx as int);
                if self.blk_idx + 1 < self.table.block_meta@.len() {
                    assert(self.table.block_entries(self.blk_idx + 1) is Some);
                    lemma_concat_index(self.table.blocks(), self.blk_idx + 1, 0);
                } else {
                    lemma_start_of(self.table.blocks(), self.table.block_meta@.len() - 1);
                }
                if self.blk_iter.idx + 1 < self.blk_iter.block@.len() {
                    lemma_concat_index(
                        self.table.blocks(),
                        self.blk_idx as int,
                        self.blk_iter.idx + 1,
                    );
                }
            }
        }
        let n: usize = self.table.num_of_blocks();
        self.blk_iter.next();
        if !self.blk_iter.is_valid() {
            self.blk_idx = self.blk_idx + 1;
            if self.blk_idx < n {
                match self.table.read_block(self.blk_idx) {
                    Ok(block) => {
                        self.blk_iter = BlockIterator::create_and_seek_to_first(block);
                    },
                    Err(e) => {
                        return Err(e);
                    },
                }
            }
        }
        Ok(())
    }
}

/// Walks the table from its first entry to its end and returns what the
/// cursor passes. On a table whose blocks all read, that is every entry of
/// the table, in order; an error means that some block does not read.
pub fn scan(table: Arc<SsTable>) -> (r: Result<Vec<Entry>, TableError>)
    requires
        table.wf(),
    ensures
        table.valid() ==> r is Ok && views(r->Ok_0@) == table.entries(),
        r is Err ==> r->Err_0 == TableError::Corruption && !table.valid(),
{
    let mut it = match SsTableIterator::create_and_seek_to_first(table) {
        Ok(it) => it,
        Err(e) => {
            return Err(e);
        },
    };
    let mut out: Vec<Entry> = Vec::new();
    proof {
        assert(views(out@) =~= table.entries().take(0));
    }
    while it.is_valid()
        invariant
            it.wf(),
            it.table == table,
            table.valid() ==> {
                &&& 0 <= it.position() <= table.entries().len()
                &&& views(out@) == table.entries().take(it.position())
                &&& it.positioned() <==> it.position() < table.entries().len()
            },
        decreases table.block_meta@.len() - it.blk_idx, it.blk_iter.block@.len() - it.blk_iter.idx,
    {
        let key: &[u8] = it.key();
        let value: &[u8] = it.value();
        let e = Entry { key: copy_range(key, 0, key.len()), value: copy_range(value, 0, value.len()) };
        proof {
            assert(e.key@ =~= key@);
            assert(e.value@ =~= value@);
            assert(views(out@.push(e)) =~= views(out@).push(e@));
            if table.valid() {
                it.lemma_current_entry();
                assert(table.entries().take(it.position() + 1) =~= table.entries().take(
                    it.position(),
                ).push(e@));
            }
        }
        out.push(e);
        match it.next() {
            Ok(_) => {},
            Err(e) => {
                return Err(e);
            },
        }
    }
    proof {
        if table.valid() {
            assert(table.entries().take(table.entries().len() as int) =~= table.entries());
        }
    }
    Ok(out)
}

} // verus!
