//! The read view of a table: its sparse index, its bloom filter, and access
//! to its checksummed blocks.

use vstd::prelude::*;
use vstd::bytes::{spec_u32_from_le_bytes, spec_u32_to_le_bytes, lemma_auto_spec_u32_to_from_le_bytes};
use crate::block::{
    all_fit, concat_blocks, encode_entries, encode_entry, entry_fits, entry_len,
    lemma_parse_encode, lemma_parse_entry, parse_entries, parse_entry, read_entry, Block,
    EntryView,
};
use crate::bloom::{Bloom, MAX_FILTER_BYTES};
use crate::codec::{
    append_bytes, copy_range, put_u32_le, read_u32_le, xxh32, xxh32_digest, CHECKSUM_SEED,
};
use crate::key::{key_le, key_less, key_lt};
use vstd::slice::slice_subrange;

verus! {

/// What can go wrong while a table is built or read.
#[derive(Debug, Clone, Copy, PartialEq, Eq, Structural)]
pub enum TableError {
    /// A checksum does not match, or the bytes are not a table or a block.
    Corruption,
    /// A table was asked for before any entry was added.
    EmptyTable,
    /// A block index would leave the range of the machine's integers.
    IndexOverflow,
    /// One entry alone exceeds the byte budget of a block.
    EntryTooLarge,
    /// The table would outgrow its 32-bit offsets.
    TableTooLarge,
}

/// Index entry of one block: where it starts, its first and its last key.
pub struct BlockMeta {
    pub offset: usize,
    pub first_key: Vec<u8>,
    pub last_key: Vec<u8>,
}

/// An index entry as plain values.
pub ghost struct MetaView {
    pub offset: int,
    pub first_key: Seq<u8>,
    pub last_key: Seq<u8>,
}

impl View for BlockMeta {
    type V = MetaView;

    open spec fn view(&self) -> MetaView {
        MetaView { offset: self.offset as int, first_key: self.first_key@, last_key: self.last_key@ }
    }
}

/// The index entries of `s` as plain values.
pub open spec fn meta_views(s: Seq<BlockMeta>) -> Seq<MetaView> {
    s.map_values(|m: BlockMeta| m@)
}

/// Offset and key lengths fit their 32-bit fields.
pub open spec fn meta_fits(m: MetaView) -> bool {
    0 <= m.offset <= u32::MAX && entry_fits((m.first_key, m.last_key))
}

/// One encoded index entry: offset, then both keys with their lengths.
pub open spec fn encode_meta(m: MetaView) -> Seq<u8> {
    spec_u32_to_le_bytes(m.offset as u32) + encode_entry((m.first_key, m.last_key))
}

/// The encoded index entries of `s`, one after the other.
pub open spec fn encode_metas(s: Seq<MetaView>) -> Seq<u8>
    decreases s.len(),
{
    if s.len() == 0 {
        Seq::empty()
    } else {
        encode_meta(s[0]) + encode_metas(s.drop_first())
    }
}

/// Encoding one more index entry appends its bytes.
pub proof fn lemma_encode_metas_push(s: Seq<MetaView>, m: MetaView)
    ensures
        encode_metas(s.push(m)) == encode_metas(s) + encode_meta(m),
    decreases s.len(),
{
    if s.len() == 0 {
        assert(s.push(m).drop_first() =~= s);
        assert(encode_metas(s.push(m)) =~= encode_metas(s) + encode_meta(m));
    } else {
        assert(s.push(m).drop_first() =~= s.drop_first().push(m));
        lemma_encode_metas_push(s.drop_first(), m);
        assert(encode_metas(s.push(m)) =~= encode_metas(s) + encode_meta(m));
    }
}

/// The index entry at the head of `b` and the bytes it takes, where `b`
/// starts with a whole index entry.
pub open spec fn parse_meta(b: Seq<u8>) -> Option<(MetaView, int)> {
    if b.len() < 4 {
        None
    } else {
        match parse_entry(b.skip(4)) {
            None => None,
            Some((e, n)) => Some(
                (
                    MetaView {
                        offset: spec_u32_from_le_bytes(b.subrange(0, 4)) as int,
                        first_key: e.0,
                        last_key: e.1,
                    },
                    4 + n,
                ),
            ),
        }
    }
}

/// The index that `b` encodes, where it is a run of whole index entries.
pub open spec fn parse_metas(b: Seq<u8>) -> Option<Seq<MetaView>>
    decreases b.len(),
{
    if b.len() == 0 {
        Some(Seq::empty())
    } else {
        match parse_meta(b) {
            None => None,
            Some((m, n)) => if n <= 0 {
                None
            } else {
                match parse_metas(b.skip(n)) {
                    None => None,
                    Some(t) => Some(seq![m] + t),
                }
            },
        }
    }
}

/// Every index entry of `s` fits its fields.
pub open spec fn all_metas_fit(s: Seq<MetaView>) -> bool {
    forall|i: int| 0 <= i < s.len() ==> meta_fits(#[trigger] s[i])
}

/// Decoding inverts encoding: the encoded form of an index whose entries
/// fit their fields parses back to exactly that index.
pub proof fn lemma_parse_encode_metas(s: Seq<MetaView>)
    requires
        all_metas_fit(s),
    ensures
        parse_metas(encode_metas(s)) == Some(s),
    decreases s.len(),
{
    if s.len() > 0 {
        let rest = s.drop_first();
        assert(all_metas_fit(rest)) by {
            assert forall|i: int| 0 <= i < rest.len() implies meta_fits(#[trigger] rest[i]) by {
                assert(rest[i] == s[i + 1]);
            }
        }
        lemma_auto_spec_u32_to_from_le_bytes();
        let m = s[0];
        let e = (m.first_key, m.last_key);
        let tail = encode_metas(rest);
        let b = encode_metas(s);
        let head = spec_u32_to_le_bytes(m.offset as u32);
        assert(head.len() == 4);
        assert(meta_fits(m));
        lemma_parse_entry(e, tail);
        assert(b.skip(4) =~= encode_entry(e) + tail);
        assert(b.subrange(0, 4) =~= head);
        assert(b.skip(4 + entry_len(e)) =~= tail);
        lemma_parse_encode_metas(rest);
        assert(seq![m] + rest =~= s);
    } else {
        assert(s =~= Seq::empty());
    }
}

/// The offsets of a non-empty index leave each block room for its checksum
/// and keep every block within the `data_len` bytes of the data section.
pub open spec fn index_fits(metas: Seq<MetaView>, data_len: int) -> bool {
    &&& metas.len() > 0
    &&& forall|i: int|
        0 <= i < metas.len() ==> 0 <= (#[trigger] metas[i]).offset && metas[i].offset + 4 <= (if i
            + 1 < metas.len() {
            metas[i + 1].offset
        } else {
            data_len
        }) <= data_len
}

/// What the bytes of a whole table hold: the length of the data section,
/// the index and the encoded bloom filter. `None` where the trailing
/// checksum does not match the bytes before it, an offset points outside,
/// the index does not parse or does not fit the data section, or the bloom
/// section cannot hold a filter.
pub open spec fn table_parts(data: Seq<u8>) -> Option<(int, Seq<MetaView>, Seq<u8>)> {
    let n = data.len() as int;
    if n < 12 {
        None
    } else if spec_u32_from_le_bytes(data.subrange(n - 4, n)) != xxh32_digest(
        data.subrange(0, n - 4),
        CHECKSUM_SEED,
    ) {
        None
    } else {
        let bloom_offset = spec_u32_from_le_bytes(data.subrange(n - 8, n - 4)) as int;
        if bloom_offset < 4 || bloom_offset > n - 8 {
            None
        } else if !(2 <= n - 8 - bloom_offset <= MAX_FILTER_BYTES + 1) {
            None
        } else {
            let meta_offset = spec_u32_from_le_bytes(
                data.subrange(bloom_offset - 4, bloom_offset),
            ) as int;
            if meta_offset > bloom_offset - 4 {
                None
            } else {
                match parse_metas(data.subrange(meta_offset, bloom_offset - 4)) {
                    None => None,
                    Some(metas) => if index_fits(metas, meta_offset) {
                        Some((meta_offset, metas, data.subrange(bloom_offset, n - 8)))
                    } else {
                        None
                    },
                }
            }
        }
    }
}

/// The bytes of a whole table: the data section, the index and its offset,
/// the bloom filter and its offset, and the checksum of all of that.
pub open spec fn table_bytes(data: Seq<u8>, metas: Seq<MetaView>, bloom: Seq<u8>) -> Seq<u8> {
    let index = data + encode_metas(metas) + spec_u32_to_le_bytes(data.len() as u32);
    let body = index + bloom + spec_u32_to_le_bytes(index.len() as u32);
    body + spec_u32_to_le_bytes(xxh32_digest(body, CHECKSUM_SEED))
}

/// The bytes of a table made of a data section, an index that fits it and
/// a bloom filter give back exactly those three parts.
pub proof fn lemma_table_parts(data: Seq<u8>, metas: Seq<MetaView>, bloom: Seq<u8>)
    requires
        data.len() + encode_metas(metas).len() + 4 <= u32::MAX,
        all_metas_fit(metas),
        index_fits(metas, data.len() as int),
        2 <= bloom.len() <= MAX_FILTER_BYTES + 1,
    ensures
        table_parts(table_bytes(data, metas, bloom)) == Some((data.len() as int, metas, bloom)),
{
    lemma_auto_spec_u32_to_from_le_bytes();
    lemma_parse_encode_metas(metas);
    let em = encode_metas(metas);
    let mo = spec_u32_to_le_bytes(data.len() as u32);
    let index = data + em + mo;
    let bo = spec_u32_to_le_bytes(index.len() as u32);
    let body = index + bloom + bo;
    let sum = spec_u32_to_le_bytes(xxh32_digest(body, CHECKSUM_SEED));
    let all = body + sum;
    let n = all.len() as int;
    assert(mo.len() == 4 && bo.len() == 4 && sum.len() == 4);
    assert(all == table_bytes(data, metas, bloom));
    assert(all.subrange(n - 4, n) =~= sum);
    assert(all.subrange(0, n - 4) =~= body);
    assert(all.subrange(n - 8, n - 4) =~= bo);
    let b = index.len() as int;
    assert(all.subrange(b - 4, b) =~= mo);
    assert(all.subrange(data.len() as int, b - 4) =~= em);
    assert(all.subrange(b, n - 8) =~= bloom);
}

/// `r` is the block in which a search for `key` starts: its first key is at
/// most `key` unless it is block 0, and the next block starts above `key`.
pub open spec fn is_block_for(metas: Seq<MetaView>, key: Seq<u8>, r: int) -> bool {
    &&& 0 <= r < metas.len()
    &&& r == 0 || key_le(metas[r].first_key, key)
    &&& r + 1 < metas.len() ==> key_lt(key, metas[r + 1].first_key)
}

/// The bytes `data[start..end]` hold the encoding of `entries` followed by
/// its checksum.
pub open spec fn block_laid_out(data: Seq<u8>, start: int, end: int, entries: Seq<EntryView>) -> bool {
    &&& 0 <= start
    &&& start + 4 <= end <= data.len()
    &&& data.subrange(start, end - 4) == encode_entries(entries)
    &&& data.subrange(end - 4, end) == spec_u32_to_le_bytes(
        xxh32_digest(encode_entries(entries), CHECKSUM_SEED),
    )
}

/// Bytes appended to a buffer leave the blocks laid out in it in place.
pub proof fn lemma_laid_out_append(
    data: Seq<u8>,
    more: Seq<u8>,
    start: int,
    end: int,
    entries: Seq<EntryView>,
)
    requires
        block_laid_out(data, start, end, entries),
    ensures
        block_laid_out(data + more, start, end, entries),
{
    assert((data + more).subrange(start, end - 4) =~= data.subrange(start, end - 4));
    assert((data + more).subrange(end - 4, end) =~= data.subrange(end - 4, end));
}

/// The entries of a block whose stored checksum is `stored`, where the
/// checksum of `body` is `computed`: a mismatch, or a body that is no run of
/// whole entries, is corruption.
pub fn decode_checked(body: &[u8], stored: u32, computed: u32) -> (r: Result<Block, TableError>)
    ensures
        match r {
            Ok(b) => stored == computed && parse_entries(body@) == Some(b@) && b.wf(),
            Err(e) => e == TableError::Corruption && (stored != computed || parse_entries(body@)
                is None),
        },
{
    if stored != computed {
        return Err(TableError::Corruption);
    }
    match Block::decode(body) {
        Some(b) => Ok(b),
        None => Err(TableError::Corruption),
    }
}

impl BlockMeta {
    /// Appends the encoded index to `buf`.
    pub fn encode_block_meta(metas: &Vec<BlockMeta>, buf: &mut Vec<u8>)
        requires
            forall|i: int| 0 <= i < metas@.len() ==> meta_fits(#[trigger] metas@[i]@),
        ensures
            final(buf)@ == old(buf)@ + encode_metas(meta_views(metas@)),
    {
        let mut i: usize = 0;
        assert(meta_views(metas@).subrange(0, 0) =~= Seq::<MetaView>::empty());
        assert(buf@ =~= old(buf)@ + Seq::<u8>::empty());
        while i < metas.len()
            invariant
                i <= metas@.len(),
                forall|j: int| 0 <= j < metas@.len() ==> meta_fits(#[trigger] metas@[j]@),
                buf@ == old(buf)@ + encode_metas(meta_views(metas@).subrange(0, i as int)),
            decreases metas@.len() - i,
        {
            let m = &metas[i];
            let ghost before = buf@;
            assert(meta_fits(metas@[i as int]@));
            put_u32_le(buf, m.offset as u32);
            put_u32_le(buf, m.first_key.len() as u32);
            append_bytes(buf, m.first_key.as_slice());
            put_u32_le(buf, m.last_key.len() as u32);
            append_bytes(buf, m.last_key.as_slice());
            proof {
                let done = meta_views(metas@).subrange(0, i as int);
                lemma_encode_metas_push(done, m@);
                assert(meta_views(metas@).subrange(0, i + 1) =~= done.push(m@));
                assert(buf@ =~= before + encode_meta(m@));
                assert(buf@ =~= old(buf)@ + (encode_metas(done) + encode_meta(m@)));
            }
            i += 1;
        }
        assert(meta_views(metas@).subrange(0, i as int) =~= meta_views(metas@));
    }
}

/// Reads an index back from its encoded form; `None` where the bytes are
/// not a run of whole index entries.
pub fn decode_block_meta(data: &[u8]) -> (r: Option<Vec<BlockMeta>>)
    ensures
        match r {
            Some(m) => parse_metas(data@) == Some(meta_views(m@)),
            None => parse_metas(data@) is None,
        },
{
    let n: usize = data.len();
    let mut metas: Vec<BlockMeta> = Vec::new();
    let mut pos: usize = 0;
    proof {
        assert(data@.skip(0) =~= data@);
        assert(meta_views(metas@) =~= Seq::<MetaView>::empty());
        assert forall|t: Seq<MetaView>| #[trigger] (Seq::<MetaView>::empty() + t) == t by {
            assert(Seq::<MetaView>::empty() + t =~= t);
        }
    }
    while pos < n
        invariant
            pos <= n,
            n == data@.len(),
            parse_metas(data@) == (match parse_metas(data@.skip(pos as int)) {
                None => None::<Seq<MetaView>>,
                Some(t) => Some(meta_views(metas@) + t),
            }),
        decreases n - pos,
    {
        let ghost rest = data@.skip(pos as int);
        if n - pos < 4 {
            return None;
        }
        assert(rest.subrange(0, 4) =~= data@.subrange(pos as int, pos + 4));
        assert(rest.skip(4) =~= data@.skip(pos + 4));
        let offset: usize = read_u32_le(data, pos) as usize;
        match read_entry(data, pos + 4) {
            None => {
                return None;
            },
            Some((e, next)) => {
                let m = BlockMeta { offset, first_key: e.key, last_key: e.value };
                proof {
                    assert(parse_meta(rest) == Some((m@, next - pos)));
                    assert(rest.skip(next - pos) =~= data@.skip(next as int));
                    assert(meta_views(metas@.push(m)) =~= meta_views(metas@).push(m@));
                    assert forall|t: Seq<MetaView>|
                        meta_views(metas@) + (seq![m@] + t) == #[trigger] (meta_views(metas@).push(
                            m@,
                        ) + t) by {
                        assert(meta_views(metas@) + (seq![m@] + t) =~= meta_views(metas@).push(m@)
                            + t);
                    }
                }
                metas.push(m);
                pos = next;
            },
        }
    }
    assert(data@.skip(pos as int) =~= Seq::<u8>::empty());
    assert(meta_views(metas@) + Seq::<MetaView>::empty() =~= meta_views(metas@));
    Some(metas)
}

/// Whether the offsets of `metas` fit a data section of `data_len` bytes.
pub fn check_index(metas: &Vec<BlockMeta>, data_len: usize) -> (r: bool)
    ensures
        r == index_fits(meta_views(metas@), data_len as int),
{
    let n: usize = metas.len();
    if n == 0 {
        return false;
    }
    let mut i: usize = 0;
    while i < n
        invariant
            i <= n,
            n == metas@.len(),
            forall|j: int|
                0 <= j < i ==> (#[trigger] meta_views(metas@)[j]).offset + 4 <= (if j + 1 < n {
                    meta_views(metas@)[j + 1].offset
                } else {
                    data_len as int
                }) <= data_len,
        decreases n - i,
    {
        let end: usize = if n - i > 1 {
            metas[i + 1].offset
        } else {
            data_len
        };
        if end > data_len || end < 4 || end - 4 < metas[i].offset {
            assert(!(meta_views(metas@)[i as int].offset + 4 <= (if i + 1 < n {
                meta_views(metas@)[i + 1].offset
            } else {
                data_len as int
            }) <= data_len));
            return false;
        }
        i += 1;
    }
    true
}

/// A table as it is read: the bytes, the index over its blocks, the bloom
/// filter, the key range and the version watermark.
pub struct SsTable {
    pub id: usize,
    pub data: Vec<u8>,
    pub block_meta: Vec<BlockMeta>,
    pub block_meta_offset: usize,
    pub bloom: Option<Bloom>,
    pub first_key: Vec<u8>,
    pub last_key: Vec<u8>,
    pub max_ts: u64,
}

impl SsTable {
    /// The index entries as plain values.
    pub open spec fn metas(&self) -> Seq<MetaView> {
        meta_views(self.block_meta@)
    }

    /// Where block `i` ends: at the next block's start, or at the index.
    pub open spec fn block_end(&self, i: int) -> int {
        if i + 1 < self.block_meta@.len() {
            self.block_meta@[i + 1].offset as int
        } else {
            self.block_meta_offset as int
        }
    }

    /// There is a block; every block has room for its checksum and ends
    /// within the data section; the key range is that of the index.
    pub open spec fn wf(&self) -> bool {
        &&& self.block_meta@.len() > 0
        &&& self.block_meta_offset <= self.data@.len()
        &&& forall|i: int|
            0 <= i < self.block_meta@.len() ==> (#[trigger] self.block_meta@[i]).offset + 4
                <= self.block_end(i) <= self.block_meta_offset
        &&& self.first_key@ == self.block_meta@[0].first_key@
        &&& self.last_key@ == self.block_meta@[self.block_meta@.len() - 1].last_key@
        &&& self.bloom is Some ==> self.bloom->0.wf()
    }

    /// The encoded bytes of block `i`, without its checksum.
    pub open spec fn block_body(&self, i: int) -> Seq<u8> {
        self.data@.subrange(self.block_meta@[i].offset as int, self.block_end(i) - 4)
    }

    /// The checksum stored behind block `i`.
    pub open spec fn block_stored_sum(&self, i: int) -> u32 {
        spec_u32_from_le_bytes(self.data@.subrange(self.block_end(i) - 4, self.block_end(i)))
    }

    /// The entries of block `i`, where its checksum matches and its bytes
    /// decode.
    pub open spec fn block_entries(&self, i: int) -> Option<Seq<EntryView>> {
        if self.block_stored_sum(i) == xxh32_digest(self.block_body(i), CHECKSUM_SEED) {
            parse_entries(self.block_body(i))
        } else {
            None
        }
    }

    /// Every block reads back: non-empty, and with the first and last key
    /// that the index gives for it.
    pub open spec fn valid(&self) -> bool {
        &&& self.wf()
        &&& forall|i: int|
            0 <= i < self.block_meta@.len() ==> {
                &&& (#[trigger] self.block_entries(i)) is Some
                &&& self.block_entries(i)->0.len() > 0
                &&& self.block_entries(i)->0[0].0 == self.block_meta@[i].first_key@
                &&& self.block_entries(i)->0.last().0 == self.block_meta@[i].last_key@
            }
    }

    /// The entries of every block, in the order of the index.
    pub open spec fn blocks(&self) -> Seq<Seq<EntryView>> {
        Seq::new(self.block_meta@.len(), |i: int| self.block_entries(i)->0)
    }

    /// The entries of the table, block after block.
    pub open spec fn entries(&self) -> Seq<EntryView> {
        concat_blocks(self.blocks())
    }

    /// A block that lies encoded and checksummed at its place in the data
    /// reads back as its entries.
    pub proof fn lemma_block_reads_back(&self, i: int, entries: Seq<EntryView>)
        requires
            0 <= i < self.block_meta@.len(),
            block_laid_out(
                self.data@,
                self.block_meta@[i].offset as int,
                self.block_end(i),
                entries,
            ),
            all_fit(entries),
        ensures
            self.block_entries(i) == Some(entries),
    {
        lemma_auto_spec_u32_to_from_le_bytes();
        lemma_parse_encode(entries);
        let digest = xxh32_digest(encode_entries(entries), CHECKSUM_SEED);
        assert(spec_u32_to_le_bytes(digest).len() == 4);
        assert(self.block_body(i) == encode_entries(entries));
        assert(self.block_stored_sum(i) == spec_u32_from_le_bytes(spec_u32_to_le_bytes(digest)));
    }

    /// Opens a table from its bytes: checks the trailing checksum, follows
    /// the two offsets, and decodes the bloom filter and the index. Anything
    /// that does not check, fit or decode is corruption. The version
    /// watermark is not part of the bytes and starts at 0.
    pub fn open(id: usize, data: Vec<u8>) -> (r: Result<SsTable, TableError>)
        ensures
            match r {
                Ok(t) => {
                    &&& t.wf()
                    &&& t.id == id
                    &&& t.data@ == data@
                    &&& t.max_ts == 0
                    &&& t.bloom is Some
                    &&& table_parts(data@) == Some(
                        (t.block_meta_offset as int, t.metas(), t.bloom->0.encoded()),
                    )
                },
                Err(e) => e == TableError::Corruption && table_parts(data@) is None,
            },
    {
        let n: usize = data.len();
        if n < 12 {
            return Err(TableError::Corruption);
        }
        let bytes = data.as_slice();
        let stored: u32 = read_u32_le(bytes, n - 4);
        let computed: u32 = xxh32(slice_subrange(bytes, 0, n - 4), CHECKSUM_SEED);
        if stored != computed {
            return Err(TableError::Corruption);
        }
        let bloom_offset: usize = read_u32_le(bytes, n - 8) as usize;
        if bloom_offset < 4 || bloom_offset > n - 8 {
            return Err(TableError::Corruption);
        }
        let bloom = match Bloom::decode(slice_subrange(bytes, bloom_offset, n - 8)) {
            Some(b) => b,
            None => {
                return Err(TableError::Corruption);
            },
        };
        let meta_offset: usize = read_u32_le(bytes, bloom_offset - 4) as usize;
        if meta_offset > bloom_offset - 4 {
            return Err(TableError::Corruption);
        }
        let block_meta = match decode_block_meta(slice_subrange(bytes, meta_offset, bloom_offset - 4)) {
            Some(m) => m,
            None => {
                return Err(TableError::Corruption);
            },
        };
        if !check_index(&block_meta, meta_offset) {
            return Err(TableError::Corruption);
        }
        let first: &Vec<u8> = &block_meta[0].first_key;
        let first_key = copy_range(first.as_slice(), 0, first.len());
        let last: &Vec<u8> = &block_meta[block_meta.len() - 1].last_key;
        let last_key = copy_range(last.as_slice(), 0, last.len());
        assert(first_key@ =~= block_meta@[0].first_key@);
        assert(last_key@ =~= block_meta@[block_meta@.len() - 1].last_key@);
        let t = SsTable {
            id,
            data,
            block_meta,
            block_meta_offset: meta_offset,
            bloom: Some(bloom),
            first_key,
            last_key,
            max_ts: 0,
        };
        proof {
            assert forall|i: int| 0 <= i < t.block_meta@.len() implies (
            #[trigger] t.block_meta@[i]).offset + 4 <= t.block_end(i) <= t.block_meta_offset by {
                assert(t.metas()[i].offset == t.block_meta@[i].offset);
                if i + 1 < t.block_meta@.len() {
                    assert(t.metas()[i + 1].offset == t.block_meta@[i + 1].offset);
                }
            }
        }
        Ok(t)
    }

    /// The bytes of the table are exactly its data section, its index and
    /// its bloom filter, laid out as a table, within the 32-bit offsets.
    pub open spec fn freshly_built(&self) -> bool {
        &&& self.bloom is Some
        &&& all_metas_fit(self.metas())
        &&& self.block_meta_offset + encode_metas(self.metas()).len() + 4 <= u32::MAX
        &&& self.data@ == table_bytes(
            self.data@.subrange(0, self.block_meta_offset as int),
            self.metas(),
            self.bloom->0.encoded(),
        )
    }

    /// The bytes of a table as it was built open again, with the same data
    /// section, index and bloom filter.
    pub proof fn lemma_reopens(&self)
        requires
            self.wf(),
            self.freshly_built(),
        ensures
            table_parts(self.data@) == Some(
                (self.block_meta_offset as int, self.metas(), self.bloom->0.encoded()),
            ),
    {
        let data = self.data@.subrange(0, self.block_meta_offset as int);
        assert(self.metas().len() == self.block_meta@.len());
        assert forall|i: int| 0 <= i < self.metas().len() implies 0 <= (
        #[trigger] self.metas()[i]).offset && self.metas()[i].offset + 4 <= (if i + 1
            < self.metas().len() {
            self.metas()[i + 1].offset
        } else {
            data.len() as int
        }) <= data.len() by {
            assert(self.block_meta@[i].offset + 4 <= self.block_end(i) <= self.block_meta_offset);
        }
        lemma_table_parts(data, self.metas(), self.bloom->0.encoded());
    }

    /// Building and opening again loses nothing: a table opened from the
    /// bytes of a table as it was built has the same index, the same bloom
    /// filter and, block by block, the same entries, so walking it yields
    /// what was added, in order.
    pub proof fn lemma_reopened_entries(&self, built: SsTable)
        requires
            built.valid(),
            built.freshly_built(),
            self.wf(),
            self.bloom is Some,
            self.data@ == built.data@,
            table_parts(self.data@) == Some(
                (self.block_meta_offset as int, self.metas(), self.bloom->0.encoded()),
            ),
        ensures
            self.valid(),
            self.metas() == built.metas(),
            self.bloom->0.filter@ == built.bloom->0.filter@,
            self.bloom->0.k == built.bloom->0.k,
            self.blocks() == built.blocks(),
            self.entries() == built.entries(),
    {
        built.lemma_reopens();
        self.lemma_same_bytes_same_entries(built);
        let mine = self.bloom->0;
        let theirs = built.bloom->0;
        assert(mine.encoded() == theirs.encoded());
        assert(mine.encoded().drop_last() =~= mine.filter@);
        assert(theirs.encoded().drop_last() =~= theirs.filter@);
        assert(mine.encoded().last() == mine.k);
        assert(theirs.encoded().last() == theirs.k);
    }

    /// A table that holds the same bytes and the same index as another
    /// reads every block as the other does, and so has the same entries.
    pub proof fn lemma_same_bytes_same_entries(&self, other: SsTable)
        requires
            self.wf(),
            other.valid(),
            self.data@ == other.data@,
            self.metas() == other.metas(),
            self.block_meta_offset == other.block_meta_offset,
        ensures
            self.valid(),
            self.blocks() == other.blocks(),
            self.entries() == other.entries(),
    {
        assert(self.block_meta@.len() == other.block_meta@.len()) by {
            assert(self.metas().len() == self.block_meta@.len());
            assert(other.metas().len() == other.block_meta@.len());
        }
        assert forall|i: int| 0 <= i < self.block_meta@.len() implies {
            &&& self.block_meta@[i].offset == other.block_meta@[i].offset
            &&& self.block_meta@[i].first_key@ == other.block_meta@[i].first_key@
            &&& self.block_meta@[i].last_key@ == other.block_meta@[i].last_key@
        } by {
            assert(self.metas()[i] == self.block_meta@[i]@);
            assert(other.metas()[i] == other.block_meta@[i]@);
        }
        assert forall|i: int| 0 <= i < self.block_meta@.len() implies #[trigger] self.block_entries(
            i,
        ) == other.block_entries(i) by {
            assert(self.block_end(i) == other.block_end(i));
        }
        assert(self.blocks() =~= other.blocks());
    }

    /// Number of blocks.
    pub fn num_of_blocks(&self) -> (n: usize)
        ensures
            n == self.block_meta@.len(),
    {
        self.block_meta.len()
    }

    /// The block in which a search for `key` starts: by binary search over
    /// the first keys, the last block that starts at or below `key`, or
    /// block 0 where `key` is below every block.
    pub fn find_block_idx(&self, key: &[u8]) -> (r: usize)
        requires
            self.block_meta@.len() > 0,
        ensures
            is_block_for(self.metas(), key@, r as int),
    {
        let mut lo: usize = 0;
        let mut hi: usize = self.block_meta.len();
        while hi - lo > 1
            invariant
                0 <= lo < hi <= self.block_meta@.len(),
                lo == 0 || key_le(self.block_meta@[lo as int].first_key@, key@),
                hi == self.block_meta@.len() || key_lt(
                    key@,
                    self.block_meta@[hi as int].first_key@,
                ),
            decreases hi - lo,
        {
            let mid: usize = lo + (hi - lo) / 2;
            if key_less(key, self.block_meta[mid].first_key.as_slice()) {
                hi = mid;
            } else {
                lo = mid;
            }
        }
        lo
    }

    /// Reads block `idx`: verifies its checksum and decodes it. Anything
    /// that does not check or decode is corruption.
    pub fn read_block(&self, idx: usize) -> (r: Result<Block, TableError>)
        requires
            self.wf(),
            idx < self.block_meta@.len(),
        ensures
            match r {
                Ok(b) => self.block_entries(idx as int) == Some(b@) && b.wf(),
                Err(e) => e == TableError::Corruption && self.block_entries(idx as int) is None,
            },
    {
        let start: usize = self.block_meta[idx].offset;
        let n: usize = self.block_meta.len();
        let end: usize = if n - idx > 1 {
            self.block_meta[idx + 1].offset
        } else {
            self.block_meta_offset
        };
        assert(self.block_meta@[idx as int].offset + 4 <= self.block_end(idx as int)
            <= self.block_meta_offset);
        let body = slice_subrange(self.data.as_slice(), start, end - 4);
        let stored: u32 = read_u32_le(self.data.as_slice(), end - 4);
        let computed: u32 = xxh32(body, CHECKSUM_SEED);
        decode_checked(body, stored, computed)
    }

    /// Whether the table may hold `key`, by its bloom filter: `false` means
    /// that it does not. A table without a filter always answers `true`.
    pub fn may_contain_key(&self, key: &[u8]) -> (r: bool)
        requires
            self.wf(),
        ensures
            r == match self.bloom {
                Some(b) => b.may_contain_spec(xxh32_digest(key@, CHECKSUM_SEED)),
                None => true,
            },
    {
        match &self.bloom {
            Some(b) => b.may_contain(xxh32(key, CHECKSUM_SEED)),
            None => true,
        }
    }
}

} // verus!
