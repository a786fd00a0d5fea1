//! The table builder: groups an ascending stream of entries into
//! checksummed blocks and assembles the table around them.

use vstd::prelude::*;
use vstd::bytes::{lemma_auto_spec_u32_to_from_le_bytes, spec_u32_to_le_bytes};
use crate::block::{
    all_fit, concat_blocks, encode_entries, entry_fits, entry_len, BlockBuilder, EntryView,
};
use crate::bloom::{Bloom, BITS_PER_KEY};
use crate::codec::{append_bytes, copy_range, put_u32_le, xxh32, xxh32_digest, CHECKSUM_SEED};
use crate::sorted::{ordered, sorted_entries};
use crate::table::{
    block_laid_out, encode_metas, lemma_laid_out_append, meta_fits, meta_views, table_bytes,
    BlockMeta, MetaView, SsTable, TableError,
};

verus! {

/// Largest data section, in bytes: block offsets are 32-bit.
pub const MAX_DATA_BYTES: usize = 0xffff_ffff;

/// Most entries that one table takes.
pub const MAX_KEYS: usize = 0x1000_0000;

/// The hash of each entry's key, in order.
pub open spec fn key_hashes_of(s: Seq<EntryView>) -> Seq<u32> {
    Seq::new(s.len(), |i: int| xxh32_digest(s[i].0, CHECKSUM_SEED))
}

/// Builds a table from entries added in ascending key order.
pub struct SsTableBuilder {
    pub builder: BlockBuilder,
    pub first_key: Vec<u8>,
    pub last_key: Vec<u8>,
    pub data: Vec<u8>,
    pub meta: Vec<BlockMeta>,
    pub block_size: usize,
    pub key_hashes: Vec<u32>,
    pub max_ts: u64,
    pub blocks: Ghost<Seq<Seq<EntryView>>>,
}

impl SsTableBuilder {
    /// Where finalized block `i` ends in the data section.
    pub open spec fn block_end(&self, i: int) -> int {
        if i + 1 < self.meta@.len() {
            self.meta@[i + 1].offset as int
        } else {
            self.data@.len() as int
        }
    }

    /// Finalized block `i` lies encoded and checksummed in the data section,
    /// is non-empty, and its index entry gives its first and last key.
    pub open spec fn block_done(&self, i: int) -> bool {
        &&& block_laid_out(self.data@, self.meta@[i].offset as int, self.block_end(i), self.blocks@[i])
        &&& all_fit(self.blocks@[i])
        &&& self.blocks@[i].len() > 0
        &&& self.meta@[i].first_key@ == self.blocks@[i][0].0
        &&& self.meta@[i].last_key@ == self.blocks@[i].last().0
    }

    /// Every entry added so far, in order: those of the finalized blocks,
    /// then those of the open block.
    pub open spec fn entries(&self) -> Seq<EntryView> {
        concat_blocks(self.blocks@) + self.builder@
    }

    /// The builder's invariant.
    pub open spec fn wf(&self) -> bool {
        &&& self.builder.wf()
        &&& self.builder.block_size == self.block_size
        &&& self.meta@.len() == self.blocks@.len()
        &&& self.data@.len() <= MAX_DATA_BYTES
        &&& self.key_hashes@.len() <= MAX_KEYS
        &&& self.key_hashes@ == key_hashes_of(self.entries())
        &&& forall|i: int| 0 <= i < self.meta@.len() ==> #[trigger] self.block_done(i)
        &&& self.builder@.len() > 0 ==> self.first_key@ == self.builder@[0].0 && self.last_key@
            == self.builder@.last().0
    }

    /// The data section once the open block, if it holds anything, is
    /// finalized.
    pub open spec fn final_data(&self) -> Seq<u8> {
        if self.builder@.len() > 0 {
            let enc = encode_entries(self.builder@);
            self.data@ + enc + spec_u32_to_le_bytes(xxh32_digest(enc, CHECKSUM_SEED))
        } else {
            self.data@
        }
    }

    /// The blocks once the open block, if it holds anything, is finalized.
    pub open spec fn final_blocks(&self) -> Seq<Seq<EntryView>> {
        if self.builder@.len() > 0 {
            self.blocks@.push(self.builder@)
        } else {
            self.blocks@
        }
    }

    /// The index once the open block, if it holds anything, is finalized.
    pub open spec fn final_metas(&self) -> Seq<MetaView> {
        if self.builder@.len() > 0 {
            meta_views(self.meta@).push(
                MetaView {
                    offset: self.data@.len() as int,
                    first_key: self.first_key@,
                    last_key: self.last_key@,
                },
            )
        } else {
            meta_views(self.meta@)
        }
    }

    /// Whether the open block can be finalized within the data section's
    /// limit.
    pub open spec fn room_to_finalize(&self) -> bool {
        self.data@.len() + self.builder.size + 4 <= MAX_DATA_BYTES
    }

    /// What `add` answers for this key and value.
    pub open spec fn add_outcome(&self, key: Seq<u8>, value: Seq<u8>) -> Result<(), TableError> {
        if self.key_hashes@.len() >= MAX_KEYS {
            Err(TableError::TableTooLarge)
        } else if self.builder.accepts(key, value) {
            Ok(())
        } else if !(entry_fits((key, value)) && entry_len((key, value)) <= self.block_size) {
            Err(TableError::EntryTooLarge)
        } else if !self.room_to_finalize() {
            Err(TableError::TableTooLarge)
        } else {
            Ok(())
        }
    }

    /// What `build` answers: an error, or nothing where it builds the table.
    pub open spec fn build_outcome(&self) -> Result<(), TableError> {
        if self.builder@.len() > 0 && !self.room_to_finalize() {
            Err(TableError::TableTooLarge)
        } else if self.final_blocks().len() == 0 {
            Err(TableError::EmptyTable)
        } else if self.final_data().len() + encode_metas(self.final_metas()).len() + 4 > u32::MAX {
            Err(TableError::TableTooLarge)
        } else {
            Ok(())
        }
    }

    /// An empty builder whose blocks take up to `block_size` encoded bytes.
    pub fn new(block_size: usize) -> (b: SsTableBuilder)
        ensures
            b.wf(),
            b.block_size == block_size,
            b.entries() == Seq::<EntryView>::empty(),
            b.blocks@ == Seq::<Seq<EntryView>>::empty(),
            b.data@ == Seq::<u8>::empty(),
            b.max_ts == 0,
    {
        let b = SsTableBuilder {
            builder: BlockBuilder::new(block_size),
            first_key: Vec::new(),
            last_key: Vec::new(),
            data: Vec::new(),
            meta: Vec::new(),
            block_size,
            key_hashes: Vec::new(),
            max_ts: 0,
            blocks: Ghost(Seq::empty()),
        };
        assert(b.entries() =~= Seq::<EntryView>::empty());
        assert(b.key_hashes@ =~= key_hashes_of(b.entries()));
        b
    }

    /// Bytes of the finalized blocks with their checksums; the open block
    /// does not count.
    pub fn estimated_size(&self) -> (n: usize)
        ensures
            n == self.data@.len(),
    {
        self.data.len()
    }

    /// Closes the open block: its encoding and checksum go to the end of the
    /// data section, its index entry to the end of the index, and a fresh
    /// block is opened.
    pub fn finish_block(&mut self)
        requires
            old(self).wf(),
            old(self).builder@.len() > 0,
            old(self).room_to_finalize(),
        ensures
            final(self).wf(),
            final(self).builder@ == Seq::<EntryView>::empty(),
            final(self).builder.size == 0,
            final(self).blocks@ == old(self).final_blocks(),
            final(self).data@ == old(self).final_data(),
            meta_views(final(self).meta@) == old(self).final_metas(),
            final(self).entries() == old(self).entries(),
            final(self).key_hashes == old(self).key_hashes,
            final(self).max_ts == old(self).max_ts,
            final(self).block_size == old(self).block_size,
    {
        let mut finished = BlockBuilder::new(self.block_size);
        std::mem::swap(&mut self.builder, &mut finished);
        let ghost entries = finished@;
        let block = finished.build();
        let encoded = block.encode();
        let mut first_key: Vec<u8> = Vec::new();
        let mut last_key: Vec<u8> = Vec::new();
        std::mem::swap(&mut self.first_key, &mut first_key);
        std::mem::swap(&mut self.last_key, &mut last_key);
        let offset: usize = self.data.len();
        self.meta.push(BlockMeta { offset, first_key, last_key });
        let checksum: u32 = xxh32(encoded.as_slice(), CHECKSUM_SEED);
        append_bytes(&mut self.data, encoded.as_slice());
        put_u32_le(&mut self.data, checksum);
        proof {
            lemma_auto_spec_u32_to_from_le_bytes();
            self.blocks@ = self.blocks@.push(entries);
            let n = old(self).meta@.len() as int;
            let more = encoded@ + spec_u32_to_le_bytes(checksum);
            assert(self.data@ =~= old(self).data@ + more);
            assert(self.data@ =~= old(self).final_data());
            assert(self.blocks@.drop_last() =~= old(self).blocks@);
            assert(self.entries() =~= old(self).entries());
            assert(meta_views(self.meta@) =~= old(self).final_metas());
            assert forall|i: int| 0 <= i < self.meta@.len() implies #[trigger] self.block_done(i) by {
                if i < n {
                    assert(old(self).block_done(i));
                    assert(self.block_end(i) == old(self).block_end(i));
                    lemma_laid_out_append(
                        old(self).data@,
                        more,
                        old(self).meta@[i].offset as int,
                        old(self).block_end(i),
                        old(self).blocks@[i],
                    );
                } else {
                    let start = offset as int;
                    let end = self.data@.len() as int;
                    assert(self.data@.subrange(start, end - 4) =~= encoded@);
                    assert(self.data@.subrange(end - 4, end) =~= spec_u32_to_le_bytes(checksum));
                }
            }
        }
    }

    /// Adds an entry with its version. The entry goes to the open block; if
    /// that block is full it is finalized and the entry opens the next one.
    /// An entry that no empty block could take, or one that would make the
    /// table outgrow its limits, is refused and leaves the builder as it
    /// was. The finalized bytes grow only when a block is finalized.
    pub fn add(&mut self, key: &[u8], version: u64, value: &[u8]) -> (r: Result<(), TableError>)
        requires
            old(self).wf(),
        ensures
            r == old(self).add_outcome(key@, value@),
            r is Err ==> *final(self) == *old(self),
            final(self).data@.len() == if r is Ok && !old(self).builder.accepts(key@, value@) {
                old(self).data@.len() + old(self).builder.size + 4
            } else {
                old(self).data@.len() as int
            },
            r is Ok ==> {
                &&& final(self).wf()
                &&& final(self).block_size == old(self).block_size
                &&& final(self).entries() == old(self).entries().push((key@, value@))
                &&& final(self).max_ts == if version > old(self).max_ts {
                    version
                } else {
                    old(self).max_ts
                }
                &&& if old(self).builder.accepts(key@, value@) {
                    &&& final(self).blocks@ == old(self).blocks@
                    &&& final(self).data@ == old(self).data@
                    &&& meta_views(final(self).meta@) == meta_views(old(self).meta@)
                    &&& final(self).builder@ == old(self).builder@.push((key@, value@))
                } else {
                    &&& final(self).blocks@ == old(self).blocks@.push(old(self).builder@)
                    &&& final(self).data@ == old(self).final_data()
                    &&& meta_views(final(self).meta@) == old(self).final_metas()
                    &&& final(self).builder@ == seq![(key@, value@)]
                }
            },
    {
        if self.key_hashes.len() >= MAX_KEYS {
            return Err(TableError::TableTooLarge);
        }
        let ghost before = self.entries();
        let ghost mut snap = *self;
        proof {
            lemma_auto_spec_u32_to_from_le_bytes();
        }
        let was_empty: bool = self.builder.is_empty();
        if self.builder.add(key, value) {
            if was_empty {
                self.first_key = copy_range(key, 0, key.len());
            }
            assert(self.builder@.last() == (key@, value@));
        } else {
            if key.len() > 0xffff_ffff || value.len() > 0xffff_ffff || self.block_size < 8
                || self.block_size - 8 < key.len() || self.block_size - 8 - key.len()
                < value.len() {
                return Err(TableError::EntryTooLarge);
            }
            if self.builder.size > MAX_DATA_BYTES - 4 || MAX_DATA_BYTES - 4 - self.builder.size
                < self.data.len() {
                return Err(TableError::TableTooLarge);
            }
            assert(self.builder.size > 0);
            assert(self.builder@.len() > 0) by {
                if self.builder@.len() == 0 {
                    assert(encode_entries(self.builder@) =~= Seq::<u8>::empty());
                }
            }
            self.finish_block();
            proof {
                snap = *self;
            }
            let accepted = self.builder.add(key, value);
            assert(accepted);
            self.first_key = copy_range(key, 0, key.len());
            assert(self.builder@ =~= seq![(key@, value@)]);
        }
        self.last_key = copy_range(key, 0, key.len());
        if version > self.max_ts {
            self.max_ts = version;
        }
        let hash: u32 = xxh32(key, CHECKSUM_SEED);
        self.key_hashes.push(hash);
        proof {
            assert(self.first_key@ =~= self.builder@[0].0);
            assert(self.last_key@ =~= key@);
            assert(self.entries() =~= before.push((key@, value@)));
            assert(self.key_hashes@ =~= key_hashes_of(self.entries()));
            assert forall|i: int| 0 <= i < self.meta@.len() implies #[trigger] self.block_done(i) by {
                assert(snap.block_done(i));
            }
        }
        Ok(())
    }

    /// Assembles the table: finalizes the open block, then appends the
    /// index and its offset, the bloom filter over every key's hash and its
    /// offset, and the checksum of everything before it. A builder without
    /// entries gives `EmptyTable`. In the table that comes back every block
    /// reads back as the entries that went into it.
    pub fn build(self, id: usize) -> (r: Result<SsTable, TableError>)
        requires
            self.wf(),
        ensures
            match r {
                Err(e) => self.build_outcome() == Err::<(), TableError>(e),
                Ok(t) => {
                    &&& self.build_outcome() is Ok
                    &&& t.valid()
                    &&& t.id == id
                    &&& t.max_ts == self.max_ts
                    &&& t.metas() == self.final_metas()
                    &&& t.block_meta_offset == self.final_data().len()
                    &&& t.blocks() == self.final_blocks()
                    &&& t.entries() == self.entries()
                    &&& sorted_entries(self.entries()) ==> ordered(t)
                    &&& t.freshly_built()
                    &&& t.bloom is Some
                    &&& t.bloom->0.is_filter_of(key_hashes_of(self.entries()), BITS_PER_KEY)
                    &&& forall|i: int|
                        0 <= i < self.entries().len() ==> t.bloom->0.may_contain_spec(
                            xxh32_digest((#[trigger] self.entries()[i]).0, CHECKSUM_SEED),
                        )
                    &&& t.data@ == table_bytes(
                        self.final_data(),
                        self.final_metas(),
                        t.bloom->0.encoded(),
                    )
                },
            },
    {
        let mut this = self;
        if !this.builder.is_empty() {
            if this.builder.size > MAX_DATA_BYTES - 4 || MAX_DATA_BYTES - 4 - this.builder.size
                < this.data.len() {
                return Err(TableError::TableTooLarge);
            }
            this.finish_block();
        }
        if this.meta.len() == 0 {
            return Err(TableError::EmptyTable);
        }
        let bloom = this.build_bloom_filter();
        let ghost done = this;
        let mut buf: Vec<u8> = Vec::new();
        std::mem::swap(&mut buf, &mut this.data);
        let mut meta: Vec<BlockMeta> = Vec::new();
        std::mem::swap(&mut meta, &mut this.meta);
        let meta_offset: usize = buf.len();
        proof {
            assert forall|i: int| 0 <= i < meta@.len() implies meta_fits(#[trigger] meta@[i]@) by {
                assert(done.block_done(i));
                assert(entry_fits(done.blocks@[i][0]));
                assert(entry_fits(done.blocks@[i][done.blocks@[i].len() - 1]));
            }
        }
        BlockMeta::encode_block_meta(&meta, &mut buf);
        if buf.len() > 0xffff_fffb {
            return Err(TableError::TableTooLarge);
        }
        put_u32_le(&mut buf, meta_offset as u32);
        proof {
            lemma_auto_spec_u32_to_from_le_bytes();
        }
        let bloom_offset: usize = buf.len();
        bloom.encode(&mut buf);
        put_u32_le(&mut buf, bloom_offset as u32);
        let checksum: u32 = xxh32(buf.as_slice(), CHECKSUM_SEED);
        put_u32_le(&mut buf, checksum);
        let first: &Vec<u8> = &meta[0].first_key;
        let first_key = copy_range(first.as_slice(), 0, first.len());
        let last: &Vec<u8> = &meta[meta.len() - 1].last_key;
        let last_key = copy_range(last.as_slice(), 0, last.len());
        let t = SsTable {
            id,
            data: buf,
            block_meta: meta,
            block_meta_offset: meta_offset,
            bloom: Some(bloom),
            first_key,
            last_key,
            max_ts: this.max_ts,
        };
        proof {
            let more = t.data@.subrange(meta_offset as int, t.data@.len() as int);
            assert(t.data@ =~= done.data@ + more);
            assert(t.first_key@ =~= t.block_meta@[0].first_key@);
            assert(t.last_key@ =~= t.block_meta@[t.block_meta@.len() - 1].last_key@);
            assert(t.data@ =~= table_bytes(done.data@, meta_views(done.meta@), bloom.encoded()));
            assert(t.data@.subrange(0, t.block_meta_offset as int) =~= done.data@);
            Self::lemma_reads_back(done, t, more);
            assert(done.entries() =~= concat_blocks(done.blocks@));
        }
        Ok(t)
    }

    /// A table that holds a builder's data section and index reads every
    /// block back as the entries that the builder put into it.
    pub proof fn lemma_reads_back(done: SsTableBuilder, t: SsTable, more: Seq<u8>)
        requires
            done.wf(),
            done.meta@.len() > 0,
            t.block_meta == done.meta,
            t.block_meta_offset == done.data@.len(),
            t.data@ == done.data@ + more,
            t.first_key@ == t.block_meta@[0].first_key@,
            t.last_key@ == t.block_meta@[t.block_meta@.len() - 1].last_key@,
            t.bloom is Some ==> t.bloom->0.wf(),
        ensures
            t.valid(),
            t.blocks() == done.blocks@,
    {
        assert forall|i: int| 0 <= i < t.block_meta@.len() implies {
            &&& (#[trigger] t.block_meta@[i]).offset + 4 <= t.block_end(i) <= t.block_meta_offset
            &&& t.block_entries(i) == Some(done.blocks@[i])
        } by {
            assert(done.block_done(i));
            assert(t.block_end(i) == done.block_end(i));
            lemma_laid_out_append(
                done.data@,
                more,
                done.meta@[i].offset as int,
                done.block_end(i),
                done.blocks@[i],
            );
            t.lemma_block_reads_back(i, done.blocks@[i]);
        }
        assert forall|i: int| 0 <= i < t.block_meta@.len() implies {
            &&& (#[trigger] t.block_entries(i)) is Some
            &&& t.block_entries(i)->0.len() > 0
            &&& t.block_entries(i)->0[0].0 == t.block_meta@[i].first_key@
            &&& t.block_entries(i)->0.last().0 == t.block_meta@[i].last_key@
        } by {
            assert(done.block_done(i));
            assert(t.block_meta@[i].offset + 4 <= t.block_end(i));
        }
        assert(t.blocks() =~= done.blocks@);
    }

    /// Builds the table under the id 0.
    pub fn build_for_test(self) -> (r: Result<SsTable, TableError>)
        requires
            self.wf(),
        ensures
            match r {
                Err(e) => self.build_outcome() == Err::<(), TableError>(e),
                Ok(t) => self.build_outcome() is Ok && t.valid() && t.id == 0 && t.entries()
                    == self.entries() && t.metas() == self.final_metas(),
            },
    {
        self.build(0)
    }

    /// The bloom filter over the hashes of all keys added so far, at the
    /// one-percent target.
    pub fn build_bloom_filter(&self) -> (b: Bloom)
        requires
            self.wf(),
        ensures
            b.is_filter_of(key_hashes_of(self.entries()), BITS_PER_KEY),
            forall|i: int|
                0 <= i < self.entries().len() ==> b.may_contain_spec(
                    xxh32_digest((#[trigger] self.entries()[i]).0, CHECKSUM_SEED),
                ),
    {
        let b = Bloom::build_from_key_hashes(self.key_hashes.as_slice(), BITS_PER_KEY);
        proof {
            assert forall|i: int| 0 <= i < self.entries().len() implies b.may_contain_spec(
                xxh32_digest((#[trigger] self.entries()[i]).0, CHECKSUM_SEED),
            ) by {
                assert(self.key_hashes@[i] == xxh32_digest(self.entries()[i].0, CHECKSUM_SEED));
            }
        }
        b
    }
}

} // verus!
