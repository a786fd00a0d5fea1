use std::sync::Arc;

use sstable::block::{Block, BlockBuilder, BlockIterator, Entry};
use sstable::bloom::{Bloom, BITS_PER_KEY};
use sstable::builder::SsTableBuilder;
use sstable::iterator::SsTableIterator;
use sstable::key::key_less;
use sstable::table::{decode_checked, BlockMeta, SsTable, TableError};

fn key_of(i: usize) -> Vec<u8> {
    format!("key_{:05}", i).into_bytes()
}

fn value_of(i: usize) -> Vec<u8> {
    format!("value_{:08}", i).into_bytes()
}

fn build_table(block_size: usize, n: usize) -> SsTable {
    let mut b = SsTableBuilder::new(block_size);
    for i in 0..n {
        assert_eq!(b.add(&key_of(i), i as u64, &value_of(i)), Ok(()));
    }
    match b.build(7) {
        Ok(t) => t,
        Err(e) => panic!("build failed: {:?}", e),
    }
}

fn collect(table: SsTable) -> Vec<(Vec<u8>, Vec<u8>)> {
    let mut out = Vec::new();
    let mut it = match SsTableIterator::create_and_seek_to_first(Arc::new(table)) {
        Ok(it) => it,
        Err(e) => panic!("seek failed: {:?}", e),
    };
    while it.is_valid() {
        out.push((it.key().to_vec(), it.value().to_vec()));
        assert_eq!(it.next(), Ok(()));
    }
    out
}

#[test]
fn key_order_is_lexicographic() {
    assert!(key_less(b"a", b"b"));
    assert!(key_less(b"a", b"ab"));
    assert!(key_less(b"", b"a"));
    assert!(!key_less(b"a", b"a"));
    assert!(!key_less(b"b", b"a"));
    assert!(!key_less(b"ab", b"a"));
    assert!(key_less(b"ab", b"b"));
}

#[test]
fn block_encoding_is_length_prefixed_little_endian() {
    let mut b = BlockBuilder::new(64);
    assert!(b.add(b"a", b"xy"));
    assert!(b.add(b"bc", b""));
    let bytes = b.build().encode();
    assert_eq!(
        bytes,
        vec![1, 0, 0, 0, b'a', 2, 0, 0, 0, b'x', b'y', 2, 0, 0, 0, b'b', b'c', 0, 0, 0, 0]
    );
}

#[test]
fn block_decodes_what_it_encoded() {
    let mut b = BlockBuilder::new(1024);
    for i in 0..10 {
        assert!(b.add(&key_of(i), &value_of(i)));
    }
    let bytes = b.build().encode();
    let block = Block::decode(&bytes).expect("decodes");
    assert_eq!(block.entries.len(), 10);
    for i in 0..10 {
        assert_eq!(block.entries[i].key, key_of(i));
        assert_eq!(block.entries[i].value, value_of(i));
    }
}

#[test]
fn block_decode_rejects_truncated_bytes() {
    let mut b = BlockBuilder::new(64);
    assert!(b.add(b"abc", b"def"));
    let bytes = b.build().encode();
    assert!(Block::decode(&bytes[..bytes.len() - 1]).is_none());
    assert!(Block::decode(&bytes[..3]).is_none());
    assert!(Block::decode(&[]).is_some());
}

#[test]
fn block_builder_refuses_over_budget() {
    let mut b = BlockBuilder::new(20);
    assert!(b.add(b"aa", b"bb"));
    assert_eq!(b.size, 12);
    assert!(!b.add(b"c", b""));
    assert_eq!(b.entries.len(), 1);
    assert!(b.add(b"", b""));
    assert_eq!(b.size, 20);
    let mut tiny = BlockBuilder::new(7);
    assert!(!tiny.add(b"", b""));
    assert!(tiny.is_empty());
}

#[test]
fn block_iterator_seeks_to_first_key_at_least() {
    let block = Block {
        entries: vec![
            Entry { key: b"b".to_vec(), value: b"1".to_vec() },
            Entry { key: b"d".to_vec(), value: b"2".to_vec() },
            Entry { key: b"f".to_vec(), value: b"3".to_vec() },
        ],
    };
    let mut it = BlockIterator::create_and_seek_to_key(block, b"c");
    assert!(it.is_valid());
    assert_eq!(it.key(), b"d");
    assert_eq!(it.value(), b"2");
    it.seek_to_key(b"d");
    assert_eq!(it.key(), b"d");
    it.seek_to_key(b"a");
    assert_eq!(it.key(), b"b");
    it.seek_to_key(b"g");
    assert!(!it.is_valid());
    it.seek_to_first();
    assert_eq!(it.key(), b"b");
    it.next();
    it.next();
    assert_eq!(it.key(), b"f");
    it.next();
    assert!(!it.is_valid());
    it.next();
    assert_eq!(it.idx, 3);
}

#[test]
fn bloom_probe_count_and_size() {
    assert_eq!(Bloom::probes_for(10), 6);
    assert_eq!(Bloom::probes_for(1), 1);
    assert_eq!(Bloom::probes_for(0), 1);
    assert_eq!(Bloom::probes_for(100), 30);
    let b = Bloom::build_from_key_hashes(&[], 10);
    assert_eq!(b.filter, vec![0u8; 8]);
    assert_eq!(b.k, 6);
    let b = Bloom::build_from_key_hashes(&[1, 2, 3, 4, 5, 6, 7], 10);
    assert_eq!(b.filter.len(), 9);
}

#[test]
fn bloom_sets_exactly_the_probed_bits() {
    // One hash, one probe: bit 5 of a 64-bit array.
    let b = Bloom::build_from_key_hashes(&[5], 1);
    assert_eq!(b.k, 1);
    assert_eq!(b.filter, vec![0b0010_0000, 0, 0, 0, 0, 0, 0, 0]);
    assert!(b.may_contain(5));
    assert!(b.may_contain(69));
    assert!(!b.may_contain(6));
    // Two probes of hash 1: bits 1 and (1 + (1 << 15)) % 64 = 1.
    let b = Bloom::build_from_key_hashes(&[1], 3);
    assert_eq!(b.k, 2);
    assert_eq!(b.filter, vec![0b0000_0010, 0, 0, 0, 0, 0, 0, 0]);
    // Hash 0x0002_0003: step is 0x0001_8001 | (0x0002_0003 << 15).
    let h: u32 = 0x0002_0003;
    let step = h.rotate_left(15);
    let b = Bloom::build_from_key_hashes(&[h], 3);
    let mut expect = vec![0u8; 8];
    for p in [h % 64, h.wrapping_add(step) % 64] {
        expect[(p / 8) as usize] |= 1 << (p % 8);
    }
    assert_eq!(b.filter, expect);
}

#[test]
fn bloom_has_no_false_negatives_and_few_false_positives() {
    let hashes: Vec<u32> =
        (0..10_000u32).map(|i| xxhash_rust::xxh32::xxh32(&key_of(i as usize), 0)).collect();
    let b = Bloom::build_from_key_hashes(&hashes, BITS_PER_KEY);
    for h in &hashes {
        assert!(b.may_contain(*h));
    }
    let mut hits = 0;
    for i in 10_000..20_000usize {
        if b.may_contain(xxhash_rust::xxh32::xxh32(&key_of(i), 0)) {
            hits += 1;
        }
    }
    assert!(hits <= 200, "false positives: {}", hits);
}

#[test]
fn bloom_encodes_bits_then_probe_count() {
    let b = Bloom::build_from_key_hashes(&[5], 1);
    let mut buf = vec![9u8];
    b.encode(&mut buf);
    assert_eq!(buf, vec![9, 0b0010_0000, 0, 0, 0, 0, 0, 0, 0, 1]);
    let d = Bloom::decode(&buf[1..]).expect("decodes");
    assert_eq!(d.filter, b.filter);
    assert_eq!(d.k, 1);
    assert!(Bloom::decode(&[]).is_none());
    assert!(Bloom::decode(&[3]).is_none());
    let reserved = Bloom { filter: vec![0u8; 8], k: 31 };
    assert!(reserved.may_contain(12345));
}

#[test]
fn block_meta_encoding() {
    let metas = vec![BlockMeta { offset: 0x0102, first_key: b"a".to_vec(), last_key: b"zz".to_vec() }];
    let mut buf = Vec::new();
    BlockMeta::encode_block_meta(&metas, &mut buf);
    assert_eq!(buf, vec![2, 1, 0, 0, 1, 0, 0, 0, b'a', 2, 0, 0, 0, b'z', b'z']);
}

#[test]
fn build_without_entries_is_an_error() {
    let b = SsTableBuilder::new(4096);
    assert_eq!(b.estimated_size(), 0);
    assert!(matches!(b.build(1), Err(TableError::EmptyTable)));
    assert!(matches!(SsTableBuilder::new(16).build_for_test(), Err(TableError::EmptyTable)));
}

#[test]
fn letters_fit_one_block() {
    let mut b = SsTableBuilder::new(4096);
    for c in b'a'..=b'z' {
        assert_eq!(b.add(&[c], 1, b"v"), Ok(()));
        assert_eq!(b.estimated_size(), 0);
    }
    let t = b.build(3).ok().expect("builds");
    assert_eq!(t.id, 3);
    assert_eq!(t.num_of_blocks(), 1);
    assert_eq!(t.block_meta[0].offset, 0);
    assert_eq!(t.block_meta[0].first_key, b"a");
    assert_eq!(t.block_meta[0].last_key, b"z");
    assert_eq!(t.first_key, b"a");
    assert_eq!(t.last_key, b"z");
    assert_eq!(t.block_meta_offset, 26 * 10 + 4);
}

#[test]
fn many_entries_make_ordered_contiguous_blocks() {
    let t = build_table(128, 200);
    let n = t.num_of_blocks();
    assert!(n >= 2);
    for i in 0..n {
        assert!(!key_less(&t.block_meta[i].last_key, &t.block_meta[i].first_key));
        if i + 1 < n {
            assert!(key_less(&t.block_meta[i].first_key, &t.block_meta[i + 1].first_key));
            assert!(key_less(&t.block_meta[i].last_key, &t.block_meta[i + 1].first_key));
            assert!(t.block_meta[i].offset < t.block_meta[i + 1].offset);
        }
    }
    assert_eq!(t.first_key, key_of(0));
    assert_eq!(t.last_key, key_of(199));
    assert_eq!(t.max_ts, 199);
}

#[test]
fn estimated_size_grows_only_when_a_block_is_finalized() {
    let mut b = SsTableBuilder::new(64);
    let mut last = b.estimated_size();
    let mut blocks = b.meta.len();
    for i in 0..100 {
        assert_eq!(b.add(&key_of(i), 0, &value_of(i)), Ok(()));
        let now = b.estimated_size();
        if b.meta.len() == blocks {
            assert_eq!(now, last);
        } else {
            assert!(now > last);
        }
        last = now;
        blocks = b.meta.len();
    }
    assert!(blocks > 1);
}

#[test]
fn finalized_block_is_followed_by_its_checksum() {
    // Each entry takes 8 + 1 + 1 bytes; two fit a budget of 20.
    let mut b = SsTableBuilder::new(20);
    assert_eq!(b.add(b"a", 0, b"1"), Ok(()));
    assert_eq!(b.add(b"b", 0, b"2"), Ok(()));
    assert_eq!(b.estimated_size(), 0);
    assert_eq!(b.add(b"c", 0, b"3"), Ok(()));
    assert_eq!(b.estimated_size(), 24);
    let body: Vec<u8> =
        vec![1, 0, 0, 0, b'a', 1, 0, 0, 0, b'1', 1, 0, 0, 0, b'b', 1, 0, 0, 0, b'2'];
    let sum = xxhash_rust::xxh32::xxh32(&body, 0);
    let mut expect = body.clone();
    expect.extend_from_slice(&sum.to_le_bytes());
    assert_eq!(b.data, expect);
    assert_eq!(b.key_hashes[0], 0x550d7456);
    assert_eq!(b.meta[0].first_key, b"a");
    assert_eq!(b.meta[0].last_key, b"b");
}

#[test]
fn oversized_entry_is_refused() {
    let mut b = SsTableBuilder::new(16);
    assert_eq!(b.add(b"k", 0, b"v"), Ok(()));
    assert_eq!(b.add(b"0123456789", 0, b""), Err(TableError::EntryTooLarge));
    assert_eq!(b.key_hashes.len(), 1);
    assert_eq!(b.add(b"l", 0, b"12345"), Ok(()));
    assert_eq!(b.meta.len(), 1);
}

#[test]
fn watermark_is_the_largest_version() {
    let mut b = SsTableBuilder::new(4096);
    assert_eq!(b.add(b"a", 5, b""), Ok(()));
    assert_eq!(b.max_ts, 5);
    assert_eq!(b.add(b"b", 3, b""), Ok(()));
    assert_eq!(b.max_ts, 5);
    assert_eq!(b.add(b"c", 9, b""), Ok(()));
    assert_eq!(b.max_ts, 9);
    assert_eq!(b.build(0).ok().expect("builds").max_ts, 9);
}

#[test]
fn table_layout_ends_with_offsets_and_checksum() {
    let t = build_table(64, 20);
    let d = &t.data;
    let n = d.len();
    let sum = u32::from_le_bytes([d[n - 4], d[n - 3], d[n - 2], d[n - 1]]);
    assert_eq!(sum, xxhash_rust::xxh32::xxh32(&d[..n - 4], 0));
    let bloom_offset = u32::from_le_bytes([d[n - 8], d[n - 7], d[n - 6], d[n - 5]]) as usize;
    let mo = &d[bloom_offset - 4..bloom_offset];
    let meta_offset = u32::from_le_bytes([mo[0], mo[1], mo[2], mo[3]]) as usize;
    assert_eq!(meta_offset, t.block_meta_offset);
    let mut enc = Vec::new();
    BlockMeta::encode_block_meta(&t.block_meta, &mut enc);
    assert_eq!(&d[meta_offset..bloom_offset - 4], &enc[..]);
    let bloom = Bloom::decode(&d[bloom_offset..n - 8]).expect("decodes");
    assert_eq!(bloom.k, 6);
    assert_eq!(Some(bloom.filter), t.bloom.as_ref().map(|b| b.filter.clone()));
}

#[test]
fn iteration_returns_what_was_added() {
    for block_size in [32usize, 64, 128, 4096] {
        let got = collect(build_table(block_size, 150));
        assert_eq!(got.len(), 150);
        for (i, (k, v)) in got.iter().enumerate() {
            assert_eq!(k, &key_of(i));
            assert_eq!(v, &value_of(i));
        }
    }
}

#[test]
fn find_block_idx_picks_last_block_starting_at_or_below() {
    let t = build_table(64, 60);
    let n = t.num_of_blocks();
    assert!(n > 3);
    assert_eq!(t.find_block_idx(b"a"), 0);
    assert_eq!(t.find_block_idx(b"z"), n - 1);
    for i in 0..n {
        assert_eq!(t.find_block_idx(&t.block_meta[i].first_key), i);
        assert_eq!(t.find_block_idx(&t.block_meta[i].last_key), i);
    }
}

#[test]
fn seek_at_block_boundaries() {
    let mut b = SsTableBuilder::new(64);
    for i in 0..60 {
        assert_eq!(b.add(&key_of(2 * i), 0, &value_of(2 * i)), Ok(()));
    }
    let t = Arc::new(b.build(1).ok().expect("builds"));
    let n = t.num_of_blocks();
    assert!(n > 2);
    let mut it = SsTableIterator::create_and_seek_to_first(t.clone()).ok().expect("seeks");
    assert_eq!(it.key(), &key_of(0)[..]);
    for i in 0..n {
        assert_eq!(it.seek_to_key(&t.block_meta[i].first_key), Ok(()));
        assert!(it.is_valid());
        assert_eq!(it.blk_idx, i);
        assert_eq!(it.key(), &t.block_meta[i].first_key[..]);
        if i + 1 < n {
            // A key between this block's last key and the next block's first.
            let mut gap = t.block_meta[i].last_key.clone();
            gap.push(b'!');
            assert_eq!(it.seek_to_key(&gap), Ok(()));
            assert!(it.is_valid());
            assert_eq!(it.blk_idx, i + 1);
            assert_eq!(it.key(), &t.block_meta[i + 1].first_key[..]);
        }
    }
    assert_eq!(it.seek_to_key(b"zzz"), Ok(()));
    assert!(!it.is_valid());
    assert_eq!(it.blk_idx, n);
    assert_eq!(it.next(), Ok(()));
    assert!(!it.is_valid());
    assert_eq!(it.seek_to_key(&key_of(7)), Ok(()));
    assert_eq!(it.key(), &key_of(8)[..]);
    assert_eq!(it.value(), &value_of(8)[..]);
    assert_eq!(it.seek_to_first(), Ok(()));
    assert_eq!(it.key(), &key_of(0)[..]);
    let it2 = SsTableIterator::create_and_seek_to_key(t.clone(), &key_of(50)).ok().expect("seeks");
    assert_eq!(it2.key(), &key_of(50)[..]);
}

#[test]
fn flipped_byte_in_a_block_is_corruption() {
    let t = build_table(64, 30);
    let n = t.num_of_blocks();
    for idx in 0..n {
        let start = t.block_meta[idx].offset;
        let end = if idx + 1 < n { t.block_meta[idx + 1].offset } else { t.block_meta_offset };
        for pos in [start, (start + end) / 2, end - 1] {
            let mut bad = build_table(64, 30);
            bad.data[pos] ^= 0x01;
            assert!(matches!(bad.read_block(idx), Err(TableError::Corruption)));
            for other in 0..n {
                if other != idx {
                    assert!(bad.read_block(other).is_ok());
                }
            }
        }
    }
    let mut bad = build_table(64, 30);
    bad.data[0] ^= 0x80;
    assert!(matches!(
        SsTableIterator::create_and_seek_to_first(Arc::new(bad)),
        Err(TableError::Corruption)
    ));
}

#[test]
fn decode_checked_compares_the_checksums() {
    let body = vec![1, 0, 0, 0, b'a', 0, 0, 0, 0];
    assert!(decode_checked(&body, 5, 5).is_ok());
    assert!(matches!(decode_checked(&body, 5, 6), Err(TableError::Corruption)));
    assert!(matches!(decode_checked(&body[..8], 5, 5), Err(TableError::Corruption)));
}

#[test]
fn table_bloom_answers_for_keys() {
    let t = build_table(128, 500);
    for i in 0..500 {
        assert!(t.may_contain_key(&key_of(i)));
    }
    let mut hits = 0;
    for i in 500..5500 {
        if t.may_contain_key(&key_of(i)) {
            hits += 1;
        }
    }
    assert!(hits <= 150, "false positives: {}", hits);
}

#[test]
fn reopened_table_iterates_the_same_entries() {
    for block_size in [48usize, 100, 4096] {
        let built = build_table(block_size, 120);
        let blocks = built.num_of_blocks();
        let reopened = SsTable::open(9, built.data.clone()).ok().expect("opens");
        assert_eq!(reopened.id, 9);
        assert_eq!(reopened.num_of_blocks(), blocks);
        assert_eq!(reopened.block_meta_offset, built.block_meta_offset);
        assert_eq!(reopened.first_key, key_of(0));
        assert_eq!(reopened.last_key, key_of(119));
        for i in 0..blocks {
            assert_eq!(reopened.block_meta[i].offset, built.block_meta[i].offset);
            assert_eq!(reopened.block_meta[i].first_key, built.block_meta[i].first_key);
            assert_eq!(reopened.block_meta[i].last_key, built.block_meta[i].last_key);
        }
        assert!(reopened.may_contain_key(&key_of(17)));
        let all = sstable::iterator::scan(Arc::new(reopened)).ok().expect("scans");
        assert_eq!(all.len(), 120);
        for (i, e) in all.iter().enumerate() {
            assert_eq!(e.key, key_of(i));
            assert_eq!(e.value, value_of(i));
        }
    }
}

#[test]
fn open_rejects_any_flipped_byte() {
    let good = build_table(64, 12).data;
    assert!(SsTable::open(0, good.clone()).is_ok());
    for pos in 0..good.len() {
        let mut bad = good.clone();
        bad[pos] ^= 0x10;
        assert!(matches!(SsTable::open(0, bad), Err(TableError::Corruption)));
    }
}

#[test]
fn open_rejects_bytes_that_are_no_table() {
    assert!(matches!(SsTable::open(0, vec![]), Err(TableError::Corruption)));
    assert!(matches!(SsTable::open(0, vec![0u8; 11]), Err(TableError::Corruption)));
    // A matching checksum over offsets that point nowhere.
    let mut body = vec![0u8; 8];
    body[4] = 200;
    let sum = xxhash_rust::xxh32::xxh32(&body, 0);
    body.extend_from_slice(&sum.to_le_bytes());
    assert!(matches!(SsTable::open(0, body), Err(TableError::Corruption)));
    let good = build_table(64, 12).data;
    assert!(matches!(
        SsTable::open(0, good[..good.len() - 1].to_vec()),
        Err(TableError::Corruption)
    ));
}

#[test]
fn index_decodes_what_it_encoded() {
    let metas = vec![
        BlockMeta { offset: 0, first_key: b"a".to_vec(), last_key: b"c".to_vec() },
        BlockMeta { offset: 70000, first_key: b"d".to_vec(), last_key: b"".to_vec() },
    ];
    let mut buf = Vec::new();
    BlockMeta::encode_block_meta(&metas, &mut buf);
    let back = sstable::table::decode_block_meta(&buf).expect("decodes");
    assert_eq!(back.len(), 2);
    assert_eq!(back[1].offset, 70000);
    assert_eq!(back[1].first_key, b"d");
    assert_eq!(back[1].last_key, b"");
    assert_eq!(back[0].last_key, b"c");
    assert!(sstable::table::decode_block_meta(&buf[..buf.len() - 1]).is_none());
    assert!(sstable::table::check_index(&metas, 70004));
    assert!(!sstable::table::check_index(&metas, 70003));
    assert!(!sstable::table::check_index(&Vec::new(), 10));
}

#[test]
fn scan_reports_a_block_that_does_not_read() {
    let mut t = build_table(64, 30);
    let at = t.block_meta[1].offset + 5;
    t.data[at] ^= 0xff;
    assert!(matches!(sstable::iterator::scan(Arc::new(t)), Err(TableError::Corruption)));
}

#[test]
fn read_entry_steps_over_one_entry() {
    let bytes = vec![9, 1, 0, 0, 0, b'k', 2, 0, 0, 0, b'v', b'w', 7];
    let (e, next) = sstable::block::read_entry(&bytes, 1).expect("reads");
    assert_eq!(e.key, b"k");
    assert_eq!(e.value, b"vw");
    assert_eq!(next, 12);
    assert!(sstable::block::read_entry(&bytes, 2).is_none());
    assert!(sstable::block::read_entry(&bytes, 13).is_none());
}

#[test]
fn little_endian_reads_and_copies() {
    let bytes = vec![0xaa, 0x78, 0x56, 0x34, 0x12, 0xbb];
    assert_eq!(sstable::codec::read_u32_le(&bytes, 1), 0x1234_5678);
    assert_eq!(sstable::codec::copy_range(&bytes, 1, 3), vec![0x78, 0x56]);
    let mut buf = vec![1u8];
    sstable::codec::append_bytes(&mut buf, &bytes[4..]);
    assert_eq!(buf, vec![1, 0x12, 0xbb]);
}
