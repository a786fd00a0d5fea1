//! One block: a bounded run of key/value entries, its byte encoding, and a
//! cursor over a decoded block.

use vstd::prelude::*;
use vstd::bytes::{spec_u32_from_le_bytes, spec_u32_to_le_bytes, lemma_auto_spec_u32_to_from_le_bytes};
use crate::codec::{append_bytes, copy_range, put_u32_le, read_u32_le};
use crate::key::{key_less, key_lt};

verus! {

/// A key with its value, as byte strings.
pub type EntryView = (Seq<u8>, Seq<u8>);

/// A key with its value.
pub struct Entry {
    pub key: Vec<u8>,
    pub value: Vec<u8>,
}

impl View for Entry {
    type V = EntryView;

    open spec fn view(&self) -> EntryView {
        (self.key@, self.value@)
    }
}

/// The entries of `s` as byte strings.
pub open spec fn views(s: Seq<Entry>) -> Seq<EntryView> {
    s.map_values(|e: Entry| e@)
}

/// Key and value are short enough for their 32-bit length fields.
pub open spec fn entry_fits(e: EntryView) -> bool {
    e.0.len() <= u32::MAX && e.1.len() <= u32::MAX
}

/// Every entry of `s` fits its length fields.
pub open spec fn all_fit(s: Seq<EntryView>) -> bool {
    forall|i: int| 0 <= i < s.len() ==> entry_fits(#[trigger] s[i])
}

/// Bytes that one entry takes when encoded.
pub open spec fn entry_len(e: EntryView) -> int {
    (8 + e.0.len() + e.1.len()) as int
}

/// One encoded entry: key length, key, value length, value.
pub open spec fn encode_entry(e: EntryView) -> Seq<u8> {
    spec_u32_to_le_bytes(e.0.len() as u32) + e.0 + spec_u32_to_le_bytes(e.1.len() as u32) + e.1
}

/// The encoded entries of `s`, one after the other.
pub open spec fn encode_entries(s: Seq<EntryView>) -> Seq<u8>
    decreases s.len(),
{
    if s.len() == 0 {
        Seq::empty()
    } else {
        encode_entry(s[0]) + encode_entries(s.drop_first())
    }
}

/// The entry at the head of `b` and the bytes it takes, where `b` starts
/// with a whole entry.
pub open spec fn parse_entry(b: Seq<u8>) -> Option<(EntryView, int)> {
    if b.len() < 4 {
        None
    } else {
        let kl = spec_u32_from_le_bytes(b.subrange(0, 4)) as int;
        if b.len() < 8 + kl {
            None
        } else {
            let vl = spec_u32_from_le_bytes(b.subrange(4 + kl, 8 + kl)) as int;
            if b.len() < 8 + kl + vl {
                None
            } else {
                Some(((b.subrange(4, 4 + kl), b.subrange(8 + kl, 8 + kl + vl)), 8 + kl + vl))
            }
        }
    }
}

/// The entries that `b` encodes, where it is a run of whole entries.
pub open spec fn parse_entries(b: Seq<u8>) -> Option<Seq<EntryView>>
    decreases b.len(),
{
    if b.len() == 0 {
        Some(Seq::empty())
    } else {
        match parse_entry(b) {
            None => None,
            Some((e, n)) => match parse_entries(b.skip(n)) {
                None => None,
                Some(t) => Some(seq![e] + t),
            },
        }
    }
}

/// `idx` is the position of the first entry of `s` whose key is at least
/// `key`, or the length of `s` where every key is smaller.
pub open spec fn is_lower_bound(s: Seq<EntryView>, key: Seq<u8>, idx: int) -> bool {
    &&& 0 <= idx <= s.len()
    &&& forall|i: int| 0 <= i < idx ==> key_lt(#[trigger] s[i].0, key)
    &&& idx < s.len() ==> !key_lt(s[idx].0, key)
}

/// Encoding one more entry appends its bytes.
pub proof fn lemma_encode_push(s: Seq<EntryView>, e: EntryView)
    ensures
        encode_entries(s.push(e)) == encode_entries(s) + encode_entry(e),
    decreases s.len(),
{
    if s.len() == 0 {
        assert(s.push(e).drop_first() =~= s);
        assert(encode_entries(s.push(e)) =~= encode_entries(s) + encode_entry(e));
    } else {
        assert(s.push(e).drop_first() =~= s.drop_first().push(e));
        lemma_encode_push(s.drop_first(), e);
        assert(encode_entries(s.push(e)) =~= encode_entries(s) + encode_entry(e));
    }
}

/// An encoded entry followed by anything parses back to the entry.
pub proof fn lemma_parse_entry(e: EntryView, tail: Seq<u8>)
    requires
        entry_fits(e),
    ensures
        parse_entry(encode_entry(e) + tail) == Some((e, entry_len(e))),
        encode_entry(e).len() == entry_len(e),
        (encode_entry(e) + tail).skip(entry_len(e)) == tail,
{
    lemma_auto_spec_u32_to_from_le_bytes();
    let b = encode_entry(e) + tail;
    let kl = e.0.len() as int;
    let vl = e.1.len() as int;
    assert(b.subrange(0, 4) =~= spec_u32_to_le_bytes(e.0.len() as u32));
    assert(b.subrange(4 + kl, 8 + kl) =~= spec_u32_to_le_bytes(e.1.len() as u32));
    assert(b.subrange(4, 4 + kl) =~= e.0);
    assert(b.subrange(8 + kl, 8 + kl + vl) =~= e.1);
    assert(b.skip(entry_len(e)) =~= tail);
}

/// Decoding inverts encoding: the encoded form of entries that fit their
/// length fields parses back to exactly those entries.
pub proof fn lemma_parse_encode(s: Seq<EntryView>)
    requires
        all_fit(s),
    ensures
        parse_entries(encode_entries(s)) == Some(s),
    decreases s.len(),
{
    if s.len() > 0 {
        let rest = s.drop_first();
        assert(all_fit(rest)) by {
            assert forall|i: int| 0 <= i < rest.len() implies entry_fits(#[trigger] rest[i]) by {
                assert(rest[i] == s[i + 1]);
            }
        }
        lemma_parse_entry(s[0], encode_entries(rest));
        lemma_parse_encode(rest);
        assert(seq![s[0]] + rest =~= s);
    } else {
        assert(s =~= Seq::empty());
    }
}

/// The entries of `blocks`, block after block.
pub open spec fn concat_blocks(blocks: Seq<Seq<EntryView>>) -> Seq<EntryView>
    decreases blocks.len(),
{
    if blocks.len() == 0 {
        Seq::empty()
    } else {
        concat_blocks(blocks.drop_last()) + blocks.last()
    }
}

/// Number of entries before block `b`.
pub open spec fn start_of(blocks: Seq<Seq<EntryView>>, b: int) -> int {
    concat_blocks(blocks.take(b)).len() as int
}

/// Block 0 starts at entry 0, each block starts where the one before it
/// ends, and the last block ends with the last entry.
pub proof fn lemma_start_of(blocks: Seq<Seq<EntryView>>, b: int)
    requires
        0 <= b < blocks.len(),
    ensures
        start_of(blocks, 0) == 0,
        start_of(blocks, b + 1) == start_of(blocks, b) + blocks[b].len(),
        start_of(blocks, blocks.len() as int) == concat_blocks(blocks).len(),
{
    assert(blocks.take(0) =~= Seq::<Seq<EntryView>>::empty());
    assert(blocks.take(b + 1).drop_last() =~= blocks.take(b));
    assert(blocks.take(b + 1).last() == blocks[b]);
    assert(blocks.take(blocks.len() as int) =~= blocks);
}

/// Entry `i` of block `b` is entry `start_of(blocks, b) + i` of the whole.
pub proof fn lemma_concat_index(blocks: Seq<Seq<EntryView>>, b: int, i: int)
    requires
        0 <= b < blocks.len(),
        0 <= i < blocks[b].len(),
    ensures
        0 <= start_of(blocks, b) + i < concat_blocks(blocks).len(),
        concat_blocks(blocks)[start_of(blocks, b) + i] == blocks[b][i],
    decreases blocks.len(),
{
    let front = blocks.drop_last();
    if b == blocks.len() - 1 {
        assert(blocks.take(b) =~= front);
    } else {
        lemma_concat_index(front, b, i);
        assert(blocks.take(b) =~= front.take(b));
    }
}

/// A decoded block.
pub struct Block {
    pub entries: Vec<Entry>,
}

impl View for Block {
    type V = Seq<EntryView>;

    open spec fn view(&self) -> Seq<EntryView> {
        views(self.entries@)
    }
}

impl Block {
    /// Every entry fits its length fields, so the block can be encoded.
    pub open spec fn wf(&self) -> bool {
        all_fit(self@)
    }

    /// The bytes of the block.
    pub fn encode(&self) -> (r: Vec<u8>)
        requires
            self.wf(),
        ensures
            r@ == encode_entries(self@),
    {
        let mut buf: Vec<u8> = Vec::new();
        let mut i: usize = 0;
        while i < self.entries.len()
            invariant
                self.wf(),
                i <= self.entries@.len(),
                buf@ == encode_entries(self@.subrange(0, i as int)),
            decreases self.entries@.len() - i,
        {
            let e = &self.entries[i];
            let ghost before = buf@;
            assert(entry_fits(self@[i as int]));
            put_u32_le(&mut buf, e.key.len() as u32);
            append_bytes(&mut buf, e.key.as_slice());
            put_u32_le(&mut buf, e.value.len() as u32);
            append_bytes(&mut buf, e.value.as_slice());
            proof {
                lemma_encode_push(self@.subrange(0, i as int), e@);
                assert(self@.subrange(0, i + 1) =~= self@.subrange(0, i as int).push(e@));
                assert(buf@ =~= before + encode_entry(e@));
            }
            i += 1;
        }
        assert(self@.subrange(0, i as int) =~= self@);
        buf
    }

    /// Reads a block back from its bytes; `None` where they are not a run of
    /// whole entries.
    pub fn decode(data: &[u8]) -> (r: Option<Block>)
        ensures
            match r {
                Some(b) => parse_entries(data@) == Some(b@) && b.wf(),
                None => parse_entries(data@) is None,
            },
    {
        let n: usize = data.len();
        let mut entries: Vec<Entry> = Vec::new();
        let mut pos: usize = 0;
        proof {
            assert(data@.skip(0) =~= data@);
            assert(views(entries@) =~= Seq::<EntryView>::empty());
            assert forall|t: Seq<EntryView>| #[trigger] (Seq::<EntryView>::empty() + t) == t by {
                assert(Seq::<EntryView>::empty() + t =~= t);
            }
        }
        while pos < n
            invariant
                pos <= n,
                n == data@.len(),
                all_fit(views(entries@)),
                parse_entries(data@) == (match parse_entries(data@.skip(pos as int)) {
                    None => None::<Seq<EntryView>>,
                    Some(t) => Some(views(entries@) + t),
                }),
            decreases n - pos,
        {
            match read_entry(data, pos) {
                None => {
                    return None;
                },
                Some((e, next)) => {
                    proof {
                        assert(data@.skip(pos as int).skip(next - pos) =~= data@.skip(next as int));
                        assert(views(entries@.push(e)) =~= views(entries@).push(e@));
                        assert forall|t: Seq<EntryView>|
                            views(entries@) + (seq![e@] + t) == #[trigger] (views(entries@).push(
                                e@,
                            ) + t) by {
                            assert(views(entries@) + (seq![e@] + t) =~= views(entries@).push(e@)
                                + t);
                        }
                    }
                    entries.push(e);
                    pos = next;
                },
            }
        }
        assert(data@.skip(pos as int) =~= Seq::<u8>::empty());
        assert(views(entries@) + Seq::<EntryView>::empty() =~= views(entries@));
        Some(Block { entries })
    }
}

/// Reads the entry that starts at `data[pos]`, and says where the bytes
/// behind it start; `None` where no whole entry starts there.
pub fn read_entry(data: &[u8], pos: usize) -> (r: Option<(Entry, usize)>)
    requires
        pos <= data@.len(),
    ensures
        match r {
            Some((e, next)) => parse_entry(data@.skip(pos as int)) == Some((e@, next - pos))
                && entry_fits(e@) && pos + 8 <= next <= data@.len(),
            None => parse_entry(data@.skip(pos as int)) is None,
        },
{
    let n: usize = data.len();
    let ghost rest = data@.skip(pos as int);
    if n - pos < 4 {
        return None;
    }
    assert(rest.subrange(0, 4) =~= data@.subrange(pos as int, pos + 4));
    let kl: usize = read_u32_le(data, pos) as usize;
    if n - pos - 4 < kl || n - pos - 4 - kl < 4 {
        return None;
    }
    assert(rest.subrange(4 + kl, 8 + kl) =~= data@.subrange(pos + 4 + kl, pos + 8 + kl));
    let vl: usize = read_u32_le(data, pos + 4 + kl) as usize;
    if n - pos - 8 - kl < vl {
        return None;
    }
    let key = copy_range(data, pos + 4, pos + 4 + kl);
    let value = copy_range(data, pos + 8 + kl, pos + 8 + kl + vl);
    let e = Entry { key, value };
    proof {
        assert(rest.subrange(4, 4 + kl) =~= e.key@);
        assert(rest.subrange(8 + kl, 8 + kl + vl) =~= e.value@);
    }
    Some((e, pos + 8 + kl + vl))
}

/// Collects entries into one block under a budget of encoded bytes.
pub struct BlockBuilder {
    pub entries: Vec<Entry>,
    pub size: usize,
    pub block_size: usize,
}

impl View for BlockBuilder {
    type V = Seq<EntryView>;

    open spec fn view(&self) -> Seq<EntryView> {
        views(self.entries@)
    }
}

impl BlockBuilder {
    /// The entries fit their length fields, and `size` is the length of
    /// their encoding, within the budget.
    pub open spec fn wf(&self) -> bool {
        &&& all_fit(self@)
        &&& self.size == encode_entries(self@).len()
        &&& self.size <= self.block_size
    }

    /// Whether an entry of this key and value is accepted now: it must fit
    /// its length fields and keep the block within its budget.
    pub open spec fn accepts(&self, key: Seq<u8>, value: Seq<u8>) -> bool {
        entry_fits((key, value)) && self.size + entry_len((key, value)) <= self.block_size
    }

    /// An empty builder with a budget of `block_size` bytes.
    pub fn new(block_size: usize) -> (b: BlockBuilder)
        ensures
            b.wf(),
            b@ == Seq::<EntryView>::empty(),
            b.block_size == block_size,
            b.size == 0,
    {
        let b = BlockBuilder { entries: Vec::new(), size: 0, block_size };
        assert(b@ =~= Seq::<EntryView>::empty());
        b
    }

    /// Adds an entry at the end if it is accepted, and says whether it was;
    /// a rejected entry leaves the builder as it is.
    pub fn add(&mut self, key: &[u8], value: &[u8]) -> (r: bool)
        requires
            old(self).wf(),
        ensures
            final(self).wf(),
            r == old(self).accepts(key@, value@),
            final(self).block_size == old(self).block_size,
            r ==> final(self)@ == old(self)@.push((key@, value@)) && final(self).size == old(
                self,
            ).size + entry_len((key@, value@)),
            !r ==> *final(self) == *old(self),
    {
        let room: usize = self.block_size - self.size;
        if key.len() > 0xffff_ffff || value.len() > 0xffff_ffff || room < 8 || room - 8
            < key.len() || room - 8 - key.len() < value.len() {
            return false;
        }
        let e = Entry { key: copy_range(key, 0, key.len()), value: copy_range(value, 0, value.len()) };
        proof {
            assert(e.key@ =~= key@);
            assert(e.value@ =~= value@);
            lemma_encode_push(self@, e@);
            lemma_parse_entry(e@, Seq::empty());
            assert(views(self.entries@.push(e)) =~= views(self.entries@).push(e@));
        }
        self.entries.push(e);
        self.size = self.size + 8 + key.len() + value.len();
        true
    }

    /// Whether no entry has been added.
    pub fn is_empty(&self) -> (r: bool)
        ensures
            r == (self@.len() == 0),
    {
        self.entries.len() == 0
    }

    /// The block of the entries added.
    pub fn build(self) -> (b: Block)
        requires
            self.wf(),
        ensures
            b@ == self@,
            b.wf(),
    {
        Block { entries: self.entries }
    }
}

/// A cursor over the entries of one decoded block.
pub struct BlockIterator {
    pub block: Block,
    pub idx: usize,
}

impl BlockIterator {
    /// The cursor is on an entry or just past the last one.
    pub open spec fn wf(&self) -> bool {
        self.idx <= self.block@.len()
    }

    /// A cursor on the first entry of `block`.
    pub fn create_and_seek_to_first(block: Block) -> (it: BlockIterator)
        ensures
            it.block == block,
            it.idx == 0,
            it.wf(),
    {
        BlockIterator { block, idx: 0 }
    }

    /// A cursor on the first entry of `block` whose key is at least `key`.
    pub fn create_and_seek_to_key(block: Block, key: &[u8]) -> (it: BlockIterator)
        ensures
            it.block == block,
            is_lower_bound(block@, key@, it.idx as int),
            it.wf(),
    {
        let mut it = BlockIterator { block, idx: 0 };
        it.seek_to_key(key);
        it
    }

    /// Moves to the first entry.
    pub fn seek_to_first(&mut self)
        ensures
            final(self).block == old(self).block,
            final(self).idx == 0,
            final(self).wf(),
    {
        self.idx = 0;
    }

    /// Moves to the first entry whose key is at least `key`, or past the end
    /// where there is none.
    pub fn seek_to_key(&mut self, key: &[u8])
        ensures
            final(self).block == old(self).block,
            is_lower_bound(old(self).block@, key@, final(self).idx as int),
            final(self).wf(),
    {
        let mut i: usize = 0;
        while i < self.block.entries.len() && key_less(self.block.entries[i].key.as_slice(), key)
            invariant
                self.block == old(self).block,
                i <= self.block@.len(),
                forall|j: int| 0 <= j < i ==> key_lt(#[trigger] self.block@[j].0, key@),
            decreases self.block@.len() - i,
        {
            i += 1;
        }
        self.idx = i;
    }

    /// Whether the cursor is on an entry.
    pub fn is_valid(&self) -> (r: bool)
        ensures
            r == (self.idx < self.block@.len()),
    {
        self.idx < self.block.entries.len()
    }

    /// The key under the cursor.
    pub fn key(&self) -> (k: &[u8])
        requires
            self.idx < self.block@.len(),
        ensures
            k@ == self.block@[self.idx as int].0,
    {
        self.block.entries[self.idx].key.as_slice()
    }

    /// The value under the cursor.
    pub fn value(&self) -> (v: &[u8])
        requires
            self.idx < self.block@.len(),
        ensures
            v@ == self.block@[self.idx as int].1,
    {
        self.block.entries[self.idx].value.as_slice()
    }

    /// Moves one entry on; a cursor past the end stays there.
    pub fn next(&mut self)
        ensures
            final(self).block == old(self).block,
            final(self).idx == if old(self).idx < old(self).block@.len() {
                old(self).idx + 1
            } else {
                old(self).idx as int
            },
    {
        if self.idx < self.block.entries.len() {
            self.idx = self.idx + 1;
        }
    }
}

} // verus!
