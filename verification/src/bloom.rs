//! Bloom filter over 32-bit key hashes: no false negatives, a bounded rate of
//! false positives.

use vstd::prelude::*;

verus! {

/// Bits spent per key for a false-positive target of one percent.
pub const BITS_PER_KEY: usize = 10;

/// Largest filter, in bytes, that the format admits.
pub const MAX_FILTER_BYTES: usize = 0x1fff_ffff;

/// A bit array with the number of probes made for each hash.
pub struct Bloom {
    pub filter: Vec<u8>,
    pub k: u8,
}

/// Whether bit `p` of the bit array `filter` is set.
pub open spec fn bit_at(filter: Seq<u8>, p: int) -> bool {
    (filter[p / 8] >> ((p % 8) as u8)) & 1u8 == 1u8
}

/// Addition modulo 2^32.
pub open spec fn wadd(x: u32, d: u32) -> u32 {
    if x + d > u32::MAX {
        (x + d - 0x1_0000_0000) as u32
    } else {
        (x + d) as u32
    }
}

/// The step between two probes of one hash: the hash rotated left by 15.
pub open spec fn probe_step(h: u32) -> u32 {
    (h << 15) | (h >> 17)
}

/// The `j`-th value of the double-hashing sequence of `h`.
pub open spec fn probe(h: u32, j: nat) -> u32
    decreases j,
{
    if j == 0 {
        h
    } else {
        wadd(probe(h, (j - 1) as nat), probe_step(h))
    }
}

/// The bit that the `j`-th probe of `h` addresses in an array of `nbits`.
pub open spec fn probe_bit(h: u32, j: nat, nbits: int) -> int {
    (probe(h, j) as int) % nbits
}

/// Some probe `j < k` of one of the first `n` hashes addresses bit `p`.
pub open spec fn hit(keys: Seq<u32>, n: int, k: nat, nbits: int, p: int) -> bool {
    exists|i: int, j: nat| 0 <= i < n && j < k && #[trigger] probe_bit(keys[i], j, nbits) == p
}

/// Probes per hash for a given budget of bits per key: 0.69 times the
/// budget, kept within 1..=30.
pub open spec fn probe_count(bits_per_key: usize) -> u8 {
    let k = bits_per_key * 69 / 100;
    if k < 1 {
        1u8
    } else if k > 30 {
        30u8
    } else {
        k as u8
    }
}

/// Bytes of the bit array for `n` hashes: at least 64 bits, rounded up to
/// whole bytes.
pub open spec fn filter_bytes(n: int, bits_per_key: int) -> int {
    let bits = if n * bits_per_key < 64 { 64 } else { n * bits_per_key };
    (bits + 7) / 8
}

proof fn lemma_set_bit(b: u8, s: u8, t: u8)
    requires
        s < 8,
        t < 8,
    ensures
        ((b | (1u8 << s)) >> t) & 1u8 == 1u8 <==> (s == t || (b >> t) & 1u8 == 1u8),
{
    assert(((b | (1u8 << s)) >> t) & 1u8 == 1u8 <==> (s == t || (b >> t) & 1u8 == 1u8)) by (bit_vector)
        requires
            s < 8,
            t < 8,
    ;
}

proof fn lemma_zero_bit(t: u8)
    requires
        t < 8,
    ensures
        (0u8 >> t) & 1u8 == 0u8,
{
    assert((0u8 >> t) & 1u8 == 0u8) by (bit_vector)
        requires
            t < 8,
    ;
}

fn wrapping_sum(x: u32, d: u32) -> (r: u32)
    ensures
        r == wadd(x, d),
{
    x.wrapping_add(d)
}

impl Bloom {
    /// The bit array is non-empty and small enough to be addressed.
    pub open spec fn wf(&self) -> bool {
        0 < self.filter@.len() <= MAX_FILTER_BYTES
    }

    /// Number of bits in the array.
    pub open spec fn nbits(&self) -> int {
        (self.filter@.len() * 8) as int
    }

    /// Every probe of `h` finds its bit set. A probe count above 30 is kept
    /// for later encodings and answers "possibly present".
    pub open spec fn may_contain_spec(&self, h: u32) -> bool {
        self.k > 30 || forall|j: nat|
            j < self.k ==> bit_at(self.filter@, #[trigger] probe_bit(h, j, self.nbits()))
    }

    /// The filter is the one built from `keys` at `bits_per_key`: it has the
    /// size and the probe count that they give, and exactly the bits that
    /// some probe of some hash addresses are set.
    pub open spec fn is_filter_of(&self, keys: Seq<u32>, bits_per_key: usize) -> bool {
        &&& self.wf()
        &&& self.k == probe_count(bits_per_key)
        &&& self.filter@.len() == filter_bytes(keys.len() as int, bits_per_key as int)
        &&& forall|p: int|
            0 <= p < self.nbits() ==> (bit_at(self.filter@, p) <==> hit(
                keys,
                keys.len() as int,
                self.k as nat,
                self.nbits(),
                p,
            ))
    }

    /// The encoded form: the raw bits, then the probe count.
    pub open spec fn encoded(&self) -> Seq<u8> {
        self.filter@.push(self.k)
    }

    /// Probes per hash for `bits_per_key`.
    pub fn probes_for(bits_per_key: usize) -> (k: u8)
        ensures
            k == probe_count(bits_per_key),
            1 <= k <= 30,
    {
        let k: u128 = (bits_per_key as u128) * 69 / 100;
        if k < 1 {
            1
        } else if k > 30 {
            30
        } else {
            k as u8
        }
    }

    /// Whether `h` may have been inserted: `false` means definitely absent.
    pub fn may_contain(&self, h: u32) -> (r: bool)
        requires
            self.wf(),
        ensures
            r == self.may_contain_spec(h),
    {
        if self.k > 30 {
            return true;
        }
        let nbits: usize = self.filter.len() * 8;
        let delta: u32 = (h << 15) | (h >> 17);
        let mut cur: u32 = h;
        let mut j: u8 = 0;
        while j < self.k
            invariant
                self.wf(),
                self.k <= 30,
                j <= self.k,
                nbits == self.nbits(),
                delta == probe_step(h),
                cur == probe(h, j as nat),
                forall|i: nat|
                    i < j ==> bit_at(self.filter@, #[trigger] probe_bit(h, i, self.nbits())),
            decreases self.k - j,
        {
            let pos: usize = (cur as usize) % nbits;
            let byte: u8 = self.filter[pos / 8];
            if (byte >> ((pos % 8) as u8)) & 1u8 != 1u8 {
                assert(!bit_at(self.filter@, probe_bit(h, j as nat, self.nbits())));
                return false;
            }
            cur = wrapping_sum(cur, delta);
            j += 1;
        }
        true
    }

    /// Builds the filter of `keys`: exactly the bits that some probe of some
    /// hash addresses are set, so every hash given is found again.
    pub fn build_from_key_hashes(keys: &[u32], bits_per_key: usize) -> (b: Bloom)
        requires
            filter_bytes(keys@.len() as int, bits_per_key as int) <= MAX_FILTER_BYTES,
        ensures
            b.is_filter_of(keys@, bits_per_key),
            forall|i: int| 0 <= i < keys@.len() ==> b.may_contain_spec(#[trigger] keys@[i]),
    {
        let k: u8 = Self::probes_for(bits_per_key);
        let product: u128 = (keys.len() as u128) * (bits_per_key as u128);
        let bits: u128 = if product < 64 { 64 } else { product };
        let nbytes: usize = ((bits + 7) / 8) as usize;
        let nbits: usize = nbytes * 8;
        let mut filter: Vec<u8> = Vec::new();
        while filter.len() < nbytes
            invariant
                filter@.len() <= nbytes,
                forall|q: int| 0 <= q < filter@.len() ==> filter@[q] == 0u8,
            decreases nbytes - filter@.len(),
        {
            filter.push(0u8);
        }
        assert forall|p: int| 0 <= p < nbits implies !bit_at(filter@, p) by {
            lemma_zero_bit((p % 8) as u8);
        }
        let mut i: usize = 0;
        while i < keys.len()
            invariant
                i <= keys@.len(),
                filter@.len() == nbytes,
                nbits == nbytes * 8,
                0 < nbytes <= MAX_FILTER_BYTES,
                1 <= k <= 30,
                forall|p: int|
                    0 <= p < nbits ==> (bit_at(filter@, p) <==> hit(
                        keys@,
                        i as int,
                        k as nat,
                        nbits as int,
                        p,
                    )),
            decreases keys@.len() - i,
        {
            let h: u32 = keys[i];
            let delta: u32 = (h << 15) | (h >> 17);
            let mut cur: u32 = h;
            let mut j: u8 = 0;
            while j < k
                invariant
                    i < keys@.len(),
                    h == keys@[i as int],
                    filter@.len() == nbytes,
                    nbits == nbytes * 8,
                    0 < nbytes <= MAX_FILTER_BYTES,
                    j <= k <= 30,
                    delta == probe_step(h),
                    cur == probe(h, j as nat),
                    forall|p: int|
                        0 <= p < nbits ==> (bit_at(filter@, p) <==> (hit(
                            keys@,
                            i as int,
                            k as nat,
                            nbits as int,
                            p,
                        ) || exists|m: nat|
                            m < j && #[trigger] probe_bit(h, m, nbits as int) == p)),
                decreases k - j,
            {
                let pos: usize = (cur as usize) % nbits;
                let idx: usize = pos / 8;
                let shift: u8 = (pos % 8) as u8;
                let byte: u8 = filter[idx];
                let ghost before = filter@;
                filter.set(idx, byte | (1u8 << shift));
                proof {
                    assert(pos == probe_bit(h, j as nat, nbits as int));
                    assert forall|p: int| 0 <= p < nbits implies (bit_at(filter@, p) <==> (hit(
                        keys@,
                        i as int,
                        k as nat,
                        nbits as int,
                        p,
                    ) || exists|m: nat|
                        m < j + 1 && #[trigger] probe_bit(h, m, nbits as int) == p)) by {
                        lemma_set_bit(byte, shift, (p % 8) as u8);
                        if p / 8 == idx as int {
                            assert(bit_at(filter@, p) <==> (p == pos || bit_at(before, p)));
                        } else {
                            assert(bit_at(filter@, p) == bit_at(before, p));
                        }
                        if exists|m: nat| m < j + 1 && #[trigger] probe_bit(h, m, nbits as int) == p {
                            let m = choose|m: nat|
                                m < j + 1 && #[trigger] probe_bit(h, m, nbits as int) == p;
                            if m < j {
                                assert(exists|m: nat|
                                    m < j && #[trigger] probe_bit(h, m, nbits as int) == p);
                            }
                        }
                    }
                }
                cur = wrapping_sum(cur, delta);
                j += 1;
            }
            proof {
                assert forall|p: int| 0 <= p < nbits implies (bit_at(filter@, p) <==> hit(
                    keys@,
                    i + 1,
                    k as nat,
                    nbits as int,
                    p,
                )) by {
                    if hit(keys@, i + 1, k as nat, nbits as int, p) {
                        let (a, m) = choose|a: int, m: nat|
                            0 <= a < i + 1 && m < k && #[trigger] probe_bit(
                                keys@[a],
                                m,
                                nbits as int,
                            ) == p;
                        if a < i {
                            assert(hit(keys@, i as int, k as nat, nbits as int, p));
                        } else {
                            assert(probe_bit(h, m, nbits as int) == p);
                        }
                    }
                    if hit(keys@, i as int, k as nat, nbits as int, p) {
                        let (a, m) = choose|a: int, m: nat|
                            0 <= a < i && m < k && #[trigger] probe_bit(
                                keys@[a],
                                m,
                                nbits as int,
                            ) == p;
                        assert(0 <= a < i + 1 && m < k && probe_bit(keys@[a], m, nbits as int) == p);
                    }
                    if exists|m: nat| m < k && #[trigger] probe_bit(h, m, nbits as int) == p {
                        let m = choose|m: nat|
                            m < k && #[trigger] probe_bit(h, m, nbits as int) == p;
                        assert(probe_bit(keys@[i as int], m, nbits as int) == p);
                    }
                }
            }
            i += 1;
        }
        let b = Bloom { filter, k };
        proof {
            Self::lemma_no_false_negatives(b, keys@, bits_per_key);
        }
        b
    }

    /// A filter finds every hash it was built from: no false negatives.
    pub proof fn lemma_no_false_negatives(b: Bloom, keys: Seq<u32>, bits_per_key: usize)
        requires
            b.is_filter_of(keys, bits_per_key),
        ensures
            forall|i: int| 0 <= i < keys.len() ==> b.may_contain_spec(#[trigger] keys[i]),
    {
        {
            assert forall|a: int| 0 <= a < keys.len() implies b.may_contain_spec(
                #[trigger] keys[a],
            ) by {
                assert forall|m: nat| m < b.k implies bit_at(
                    b.filter@,
                    #[trigger] probe_bit(keys[a], m, b.nbits()),
                ) by {
                    let p = probe_bit(keys[a], m, b.nbits());
                    assert(0 <= p < b.nbits());
                    assert(hit(keys, keys.len() as int, b.k as nat, b.nbits(), p));
                }
            }
        }
    }

    /// Appends the encoded filter to `buf`.
    pub fn encode(&self, buf: &mut Vec<u8>)
        ensures
            final(buf)@ == old(buf)@ + self.encoded(),
    {
        crate::codec::append_bytes(buf, self.filter.as_slice());
        buf.push(self.k);
        assert(buf@ =~= old(buf)@ + self.encoded());
    }

    /// Reads a filter back from its encoded form; `None` where the bytes
    /// cannot hold one.
    pub fn decode(buf: &[u8]) -> (r: Option<Bloom>)
        ensures
            r is Some <==> 2 <= buf@.len() <= MAX_FILTER_BYTES + 1,
            r is Some ==> r->0.wf() && r->0.encoded() == buf@,
    {
        if buf.len() < 2 || buf.len() > MAX_FILTER_BYTES + 1 {
            return None;
        }
        let filter = crate::codec::copy_range(buf, 0, buf.len() - 1);
        let k: u8 = buf[buf.len() - 1];
        let b = Bloom { filter, k };
        assert(b.encoded() =~= buf@);
        Some(b)
    }
}

} // verus!
