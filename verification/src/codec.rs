//! Byte-level primitives: fixed-width little-endian integers and the 32-bit
//! checksum that guards blocks and whole tables.

use vstd::prelude::*;
use vstd::bytes::{spec_u32_from_le_bytes, spec_u32_to_le_bytes, u32_from_le_bytes};
use vstd::slice::slice_subrange;
use bytes::BufMut;

verus! {

/// Seed of every checksum and key hash in the table format.
pub const CHECKSUM_SEED: u32 = 0;

/// The 32-bit xxHash of `input` under `seed`.
pub uninterp spec fn xxh32_digest(input: Seq<u8>, seed: u32) -> u32;

/// Calls `xxhash_rust::xxh32::xxh32`. The digest is a function of the bytes
/// and the seed alone; nothing else is claimed of it.
#[verifier::external_body]
pub(crate) fn xxh32(input: &[u8], seed: u32) -> (r: u32)
    ensures
        r == xxh32_digest(input@, seed),
{
    xxhash_rust::xxh32::xxh32(input, seed)
}

/// Calls `bytes::BufMut::put_u32_le` on a `Vec<u8>`, which appends the four
/// bytes of `n`, least significant first, and leaves the rest untouched.
#[verifier::external_body]
pub(crate) fn put_u32_le(buf: &mut Vec<u8>, n: u32)
    ensures
        final(buf)@ == old(buf)@ + spec_u32_to_le_bytes(n),
{
    buf.put_u32_le(n)
}

/// Reads the little-endian `u32` stored at `data[pos..pos + 4]`.
pub fn read_u32_le(data: &[u8], pos: usize) -> (r: u32)
    requires
        pos + 4 <= data@.len(),
    ensures
        r == spec_u32_from_le_bytes(data@.subrange(pos as int, pos + 4)),
{
    let n: usize = data.len();
    assert(pos + 4 <= n);
    u32_from_le_bytes(slice_subrange(data, pos, pos + 4))
}

/// Appends `src` to `buf`.
pub fn append_bytes(buf: &mut Vec<u8>, src: &[u8])
    ensures
        final(buf)@ == old(buf)@ + src@,
{
    let mut i: usize = 0;
    while i < src.len()
        invariant
            i <= src@.len(),
            buf@ == old(buf)@ + src@.subrange(0, i as int),
        decreases src@.len() - i,
    {
        buf.push(src[i]);
        i += 1;
    }
    assert(src@.subrange(0, i as int) == src@);
}

/// Copies `data[from..to]` into a fresh vector.
pub fn copy_range(data: &[u8], from: usize, to: usize) -> (r: Vec<u8>)
    requires
        from <= to <= data@.len(),
    ensures
        r@ == data@.subrange(from as int, to as int),
{
    let mut r: Vec<u8> = Vec::new();
    let mut i: usize = from;
    while i < to
        invariant
            from <= i <= to <= data@.len(),
            r@ == data@.subrange(from as int, i as int),
        decreases to - i,
    {
        r.push(data[i]);
        i += 1;
    }
    r
}

} // verus!
