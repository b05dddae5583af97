//! The Bloom filter core: a byte-backed bit array and a probe count `k`.
//!
//! A key is hashed once under a fixed seed; `k` bit positions are then
//! derived from the base hash and a fixed additive stride, and are set by
//! `insert` and tested by `may_contain`. Bits are only ever set, never
//! cleared, so a key that was inserted is always reported as possibly
//! present.

use vstd::arithmetic::div_mod::lemma_fundamental_div_mod;
use vstd::prelude::*;
use vstd::wrapping::u32_specs;
use crate::hash::hash;
use crate::hash::spec_hash;

verus! {

/// Fixed seed shared by everything that builds, queries, or decodes a
/// filter.
pub const FILTER_SEED: u32 = 0xbc9f_1d34;

/// The one failure of the codec: the stored checksum does not match the
/// payload.
#[derive(Clone, Copy, Debug, PartialEq, Eq, Structural)]
pub enum BloomError {
    Crc32NotMatch,
}

/// The base hash of a key, under the fixed filter seed.
pub open spec fn spec_base_hash(key: Seq<u8>) -> u32 {
    spec_hash(key, FILTER_SEED)
}

/// The fixed additive stride between consecutive probes of a key.
pub open spec fn spec_probe_delta(key: Seq<u8>) -> u32 {
    let h = spec_base_hash(key);
    (h >> 17) | (h << 15)
}

/// The running hash before probe `j`: the base hash advanced `j` strides,
/// wrapping modulo 2^32.
pub open spec fn spec_probe_hash(key: Seq<u8>, j: nat) -> u32
    decreases j,
{
    if j == 0 {
        spec_base_hash(key)
    } else {
        u32_specs::wrapping_add(spec_probe_hash(key, (j - 1) as nat), spec_probe_delta(key))
    }
}

/// The bit position probe `j` of `key` touches, in a filter of
/// `total_bits` bits.
pub open spec fn spec_probe_index(key: Seq<u8>, j: nat, total_bits: nat) -> nat
    recommends
        total_bits > 0,
{
    (spec_probe_hash(key, j) as nat) % total_bits
}

/// Whether bit `pos` of the byte-backed bit array is set. Byte `pos / 8`
/// holds it at offset `pos % 8`.
pub open spec fn spec_bit_is_set(bits: Seq<u8>, pos: nat) -> bool
    recommends
        pos < bits.len() * 8,
{
    ((bits[pos as int / 8] >> ((pos % 8) as u32)) & 1) == 1
}

/// Whether probe `j` of `key` lands on a set bit.
pub open spec fn spec_probe_is_set(bits: Seq<u8>, key: Seq<u8>, j: nat) -> bool {
    spec_bit_is_set(bits, spec_probe_index(key, j, bits.len() * 8))
}

/// What `may_contain` returns: every one of the `k` probes of `key` lands
/// on a set bit.
pub open spec fn spec_contains(bits: Seq<u8>, k: nat, key: Seq<u8>) -> bool {
    forall|j: nat| j < k ==> #[trigger] spec_probe_is_set(bits, key, j)
}

/// The probe count derived from the tuning parameter:
/// `bits_per_key * 0.69`, rounded to the nearest integer and clamped to
/// `[1, 30]`.
pub open spec fn spec_probe_count(bits_per_key: nat) -> nat {
    let rounded = (69 * bits_per_key + 50) / 100;
    if rounded < 1 {
        1
    } else if rounded > 30 {
        30
    } else {
        rounded
    }
}

/// The byte length of a fresh bit array: `bits_per_key * entries` bits,
/// floored at 64, rounded up to whole bytes.
pub open spec fn spec_byte_len(entries: nat, bits_per_key: nat) -> nat {
    let requested = entries * bits_per_key;
    let bit_len: nat = if requested < 64 {
        64
    } else {
        requested
    };
    (bit_len + 7) / 8
}

/// A probabilistic set-membership filter: answers "possibly present" or
/// "definitely absent".
#[derive(Debug)]
pub struct Bloom {
    bits: Vec<u8>,
    k: usize,
}

impl Bloom {
    /// The bytes of the bit array.
    pub closed spec fn spec_bits(self) -> Seq<u8> {
        self.bits@
    }

    /// The probe count.
    pub closed spec fn spec_k(self) -> nat {
        self.k as nat
    }

    /// The number of addressable bits.
    pub open spec fn spec_total_bits(self) -> nat {
        self.spec_bits().len() * 8
    }

    /// Well-formedness: the bit array is non-empty, every bit position fits
    /// a 32-bit index, and the probe count fits the single byte the codec
    /// stores it in.
    pub open spec fn wf(self) -> bool {
        &&& 1 <= self.spec_bits().len()
        &&& self.spec_bits().len() * 8 <= 0xFFFF_FFFF
        &&& self.spec_k() <= 255
    }

    /// Builds an empty filter sized for `entries` expected keys at
    /// `bits_per_key` bits each: all bits zero, at least 64 bits, and
    /// `k = clamp(round(bits_per_key * 0.69), 1, 30)`.
    pub fn new(entries: usize, bits_per_key: usize) -> (r: Bloom)
        requires
            entries * bits_per_key <= 0xFFFF_FFF8,
        ensures
            r.wf(),
            r.spec_k() == spec_probe_count(bits_per_key as nat),
            1 <= r.spec_k() <= 30,
            r.spec_bits().len() == spec_byte_len(entries as nat, bits_per_key as nat),
            r.spec_bits().len() >= 8,
            forall|i: int| 0 <= i < r.spec_bits().len() ==> r.spec_bits()[i] == 0u8,
    {
        let k: usize = if bits_per_key >= 44 {
            30
        } else {
            let raw = (bits_per_key * 69 + 50) / 100;
            if raw < 1 {
                1
            } else if raw > 30 {
                30
            } else {
                raw
            }
        };
        assert(k == spec_probe_count(bits_per_key as nat));

        let requested = entries * bits_per_key;
        let bit_len = if requested < 64 {
            64
        } else {
            requested
        };
        let byte_len = (bit_len + 7) / 8;

        let mut bits: Vec<u8> = Vec::new();
        let mut i: usize = 0;
        while i < byte_len
            invariant
                i <= byte_len,
                bits@.len() == i,
                forall|j: int| 0 <= j < i ==> bits@[j] == 0u8,
            decreases byte_len - i,
        {
            bits.push(0u8);
            i = i + 1;
        }

        Bloom { bits, k }
    }

    /// Sets the `k` probed bits of `key`. Every bit already set stays set;
    /// no bit outside the key's probe sequence changes.
    pub fn insert(&mut self, key: &[u8])
        requires
            old(self).wf(),
        ensures
            final(self).wf(),
            final(self).spec_k() == old(self).spec_k(),
            final(self).spec_bits().len() == old(self).spec_bits().len(),
            forall|p: nat|
                p < old(self).spec_total_bits() ==> (#[trigger] spec_bit_is_set(
                    final(self).spec_bits(),
                    p,
                ) <==> (spec_bit_is_set(old(self).spec_bits(), p) || (exists|j: nat|
                    j < old(self).spec_k() && spec_probe_index(
                        key@,
                        j,
                        old(self).spec_total_bits(),
                    ) == p))),
            spec_contains(final(self).spec_bits(), final(self).spec_k(), key@),
    {
        let ghost total_n: nat = old(self).spec_total_bits();
        let mut h: u32 = hash(key, FILTER_SEED);
        let delta: u32 = (h >> 17) | (h << 15);
        let total: u32 = (self.bits.len() * 8) as u32;
        assert(total == total_n);

        let mut i: usize = 0;
        while i < self.k
            invariant
                old(self).wf(),
                self.k == old(self).k,
                self.bits@.len() == old(self).bits@.len(),
                total == total_n,
                total_n == old(self).spec_total_bits(),
                i <= self.k,
                h == spec_probe_hash(key@, i as nat),
                delta == spec_probe_delta(key@),
                forall|p: nat|
                    p < total_n ==> (#[trigger] spec_bit_is_set(self.bits@, p) <==> (
                    spec_bit_is_set(old(self).spec_bits(), p) || (exists|j: nat|
                        j < i && spec_probe_index(key@, j, total_n) == p))),
            decreases self.k - i,
        {
            let bit_pos: u32 = h % total;
            let byte_i: usize = (bit_pos / 8) as usize;
            let offset: u32 = bit_pos % 8;
            proof {
                assert(bit_pos as nat == spec_probe_index(key@, i as nat, total_n));
                assert(byte_i < self.bits@.len());
            }
            let b: u8 = self.bits[byte_i];
            let ghost prev = self.bits@;
            self.bits[byte_i] = b | (1u8 << offset);

            proof {
                assert forall|p: nat| p < total_n implies (#[trigger] spec_bit_is_set(
                    self.bits@,
                    p,
                ) <==> (spec_bit_is_set(old(self).spec_bits(), p) || (exists|j: nat|
                    j < i + 1 && spec_probe_index(key@, j, total_n) == p))) by {
                    let q = p as int / 8;
                    let m = (p % 8) as u32;
                    lemma_fundamental_div_mod(p as int, 8);
                    lemma_fundamental_div_mod(bit_pos as int, 8);
                    assert(0 <= q < self.bits@.len());
                    assert(spec_bit_is_set(prev, p) <==> (spec_bit_is_set(
                        old(self).spec_bits(),
                        p,
                    ) || (exists|j: nat| j < i && spec_probe_index(key@, j, total_n) == p)));
                    if q == byte_i as int {
                        assert(self.bits@[q] == (b | (1u8 << offset)));
                        lemma_or_bit(b, offset, m);
                        assert(p == bit_pos as nat <==> m == offset);
                    } else {
                        assert(self.bits@[q] == prev[q]);
                        assert(p != bit_pos as nat);
                    }
                    if p == bit_pos as nat {
                        assert(spec_bit_is_set(self.bits@, p));
                        assert(spec_probe_index(key@, i as nat, total_n) == p);
                        assert(exists|j: nat| j < i + 1 && spec_probe_index(key@, j, total_n)
                            == p);
                    } else {
                        assert(spec_bit_is_set(self.bits@, p) <==> spec_bit_is_set(prev, p));
                        if exists|j: nat| j < i + 1 && spec_probe_index(key@, j, total_n) == p {
                            let jw = choose|j: nat|
                                j < i + 1 && spec_probe_index(key@, j, total_n) == p;
                            assert(jw != i);
                            assert(jw < i && spec_probe_index(key@, jw, total_n) == p);
                        }
                    }
                }
            }

            h = h.wrapping_add(delta);
            i = i + 1;
        }

        proof {
            assert forall|j: nat| j < self.spec_k() implies #[trigger] spec_probe_is_set(
                self.bits@,
                key@,
                j,
            ) by {
                let p = spec_probe_index(key@, j, total_n);
                assert(p < total_n);
                assert(spec_bit_is_set(self.bits@, p));
            }
        }
    }

    /// Recomputes the probe sequence of `key`; reports `true` exactly when
    /// all `k` probed bits are set. Never a false negative for an inserted
    /// key; possibly a false positive for others.
    pub fn may_contain(&self, key: &[u8]) -> (r: bool)
        requires
            self.wf(),
        ensures
            r == spec_contains(self.spec_bits(), self.spec_k(), key@),
    {
        let ghost total_n: nat = self.spec_total_bits();
        let mut h: u32 = hash(key, FILTER_SEED);
        let delta: u32 = (h >> 17) | (h << 15);
        let total: u32 = (self.bits.len() * 8) as u32;
        assert(total == total_n);

        let mut i: usize = 0;
        while i < self.k
            invariant
                self.wf(),
                total == total_n,
                total_n == self.spec_total_bits(),
                i <= self.k,
                h == spec_probe_hash(key@, i as nat),
                delta == spec_probe_delta(key@),
                forall|j: nat| j < i ==> #[trigger] spec_probe_is_set(self.bits@, key@, j),
            decreases self.k - i,
        {
            let bit_pos: u32 = h % total;
            let byte_i: usize = (bit_pos / 8) as usize;
            let offset: u32 = bit_pos % 8;
            proof {
                assert(bit_pos as nat == spec_probe_index(key@, i as nat, total_n));
                assert(byte_i < self.bits@.len());
                lemma_fundamental_div_mod(bit_pos as int, 8);
            }
            let b: u8 = self.bits[byte_i];
            if (b & (1u8 << offset)) == 0 {
                proof {
                    lemma_test_bit(b, offset);
                    assert(!spec_probe_is_set(self.bits@, key@, i as nat));
                }
                return false;
            }
            proof {
                lemma_test_bit(b, offset);
                assert(spec_probe_is_set(self.bits@, key@, i as nat));
            }
            h = h.wrapping_add(delta);
            i = i + 1;
        }
        true
    }
}

/// What `crc32fast::hash` returns: the IEEE CRC-32 checksum of the bytes,
/// a function of the bytes alone.
pub uninterp spec fn crc32_of(data: Seq<u8>) -> u32;

/// Relies on `crc32fast::hash`: the IEEE CRC-32 checksum of the bytes, a
/// deterministic function of its input alone.
#[verifier::external_body]
fn crc32(data: &Vec<u8>) -> (r: u32)
    ensures
        r == crc32_of(data@),
{
    crc32fast::hash(data.as_slice())
}

/// The four bytes of `x`, most significant first.
pub open spec fn spec_be32(x: u32) -> Seq<u8> {
    seq![
        ((x >> 24) & 0xFF) as u8,
        ((x >> 16) & 0xFF) as u8,
        ((x >> 8) & 0xFF) as u8,
        (x & 0xFF) as u8,
    ]
}

/// The 32-bit value held by four bytes, most significant first.
pub open spec fn spec_be32_value(s: Seq<u8>) -> u32
    recommends
        s.len() == 4,
{
    ((s[0] as u32) << 24) | ((s[1] as u32) << 16) | ((s[2] as u32) << 8) | (s[3] as u32)
}

/// The payload the checksum protects: the bit array with `k` as one
/// trailing byte.
pub open spec fn spec_payload(bits: Seq<u8>, k: u8) -> Seq<u8> {
    bits.push(k)
}

/// The encoded form: the big-endian CRC-32 of the payload, then the
/// payload.
pub open spec fn spec_encoded(bits: Seq<u8>, k: u8) -> Seq<u8> {
    spec_be32(crc32_of(spec_payload(bits, k))) + spec_payload(bits, k)
}

impl Bloom {
    /// Appends the encoded filter to `buf`: a 4-byte big-endian CRC-32 of
    /// the payload, then the bit array, then `k` as one trailing byte.
    pub fn encode(&self, buf: &mut Vec<u8>)
        requires
            self.wf(),
        ensures
            final(buf)@ == old(buf)@ + spec_encoded(self.spec_bits(), self.spec_k() as u8),
    {
        let mut data: Vec<u8> = Vec::new();
        let mut i: usize = 0;
        while i < self.bits.len()
            invariant
                i <= self.bits@.len(),
                data@ == self.bits@.take(i as int),
            decreases self.bits@.len() - i,
        {
            let byte = self.bits[i];
            data.push(byte);
            proof {
                assert(self.bits@.take(i as int).push(byte) =~= self.bits@.take(i + 1));
            }
            i = i + 1;
        }
        proof {
            assert(self.bits@.take(self.bits@.len() as int) =~= self.bits@);
        }
        data.push(self.k as u8);
        assert(data@ == spec_payload(self.spec_bits(), self.spec_k() as u8));

        let checksum = crc32(&data);
        assert(((checksum >> 24) & 0xFF) <= 0xFF && ((checksum >> 16) & 0xFF) <= 0xFF && ((
        checksum >> 8) & 0xFF) <= 0xFF && (checksum & 0xFF) <= 0xFF) by (bit_vector);
        let c0: u8 = ((checksum >> 24) & 0xFF) as u8;
        let c1: u8 = ((checksum >> 16) & 0xFF) as u8;
        let c2: u8 = ((checksum >> 8) & 0xFF) as u8;
        let c3: u8 = (checksum & 0xFF) as u8;
        buf.push(c0);
        buf.push(c1);
        buf.push(c2);
        buf.push(c3);
        proof {
            assert(buf@ =~= old(buf)@ + spec_be32(checksum));
        }

        let ghost mid = buf@;
        let mut j: usize = 0;
        while j < data.len()
            invariant
                j <= data@.len(),
                buf@ == mid + data@.take(j as int),
            decreases data@.len() - j,
        {
            let byte = data[j];
            buf.push(byte);
            proof {
                assert(mid + data@.take(j as int).push(byte) =~= mid + data@.take(j + 1));
            }
            j = j + 1;
        }
        proof {
            assert(data@.take(data@.len() as int) =~= data@);
            assert(buf@ =~= old(buf)@ + spec_encoded(self.spec_bits(), self.spec_k() as u8));
        }
    }

    /// Rebuilds a filter from an encoded buffer. Fails with
    /// `Crc32NotMatch` exactly when the recomputed CRC-32 of the payload
    /// differs from the stored checksum. No other validation: the last
    /// payload byte is taken as `k` and the rest as the bit array, as they
    /// stand.
    pub fn decode(buf: &[u8]) -> (r: Result<Bloom, BloomError>)
        requires
            buf@.len() >= 5,
        ensures
            match r {
                Ok(f) => {
                    &&& spec_be32_value(buf@.subrange(0, 4)) == crc32_of(buf@.skip(4))
                    &&& f.spec_bits() == buf@.skip(4).drop_last()
                    &&& f.spec_k() == buf@.last() as nat
                    &&& (6 <= buf@.len() <= 0x2000_0004) ==> f.wf()
                },
                Err(e) => {
                    &&& e == BloomError::Crc32NotMatch
                    &&& spec_be32_value(buf@.subrange(0, 4)) != crc32_of(buf@.skip(4))
                },
            },
    {
        let b0 = buf[0];
        let b1 = buf[1];
        let b2 = buf[2];
        let b3 = buf[3];
        let stored: u32 = ((b0 as u32) << 24) | ((b1 as u32) << 16) | ((b2 as u32) << 8) | (
        b3 as u32);
        proof {
            assert(buf@.subrange(0, 4)[0] == buf@[0]);
            assert(buf@.subrange(0, 4)[1] == buf@[1]);
            assert(buf@.subrange(0, 4)[2] == buf@[2]);
            assert(buf@.subrange(0, 4)[3] == buf@[3]);
            assert(stored == spec_be32_value(buf@.subrange(0, 4)));
        }

        let mut data: Vec<u8> = Vec::new();
        let mut i: usize = 4;
        while i < buf.len()
            invariant
                4 <= i <= buf@.len(),
                data@ == buf@.subrange(4, i as int),
            decreases buf@.len() - i,
        {
            let byte = buf[i];
            data.push(byte);
            proof {
                assert(buf@.subrange(4, i as int).push(byte) =~= buf@.subrange(4, i + 1));
            }
            i = i + 1;
        }
        proof {
            assert(buf@.subrange(4, buf@.len() as int) =~= buf@.skip(4));
        }

        let computed = crc32(&data);
        if computed != stored {
            return Err(BloomError::Crc32NotMatch);
        }

        let k_byte: u8 = data[data.len() - 1];
        let mut bits = data;
        let _last = bits.pop();
        proof {
            assert(buf@.skip(4).subrange(0, buf@.skip(4).len() - 1) =~= buf@.skip(4).drop_last());
            assert(k_byte == buf@.last());
        }
        Ok(Bloom { bits, k: k_byte as usize })
    }
}

/// Setting bit `m` of a byte leaves every other bit as it was and makes
/// bit `m` one.
proof fn lemma_or_bit(b: u8, m: u32, n: u32)
    by (bit_vector)
    requires
        m < 8,
        n < 8,
    ensures
        n == m ==> ((b | (1u8 << m)) >> n) & 1 == 1u8,
        n != m ==> ((b | (1u8 << m)) >> n) & 1 == (b >> n) & 1,
{
}

/// Masking with `1 << m` tests exactly bit `m` of a byte.
proof fn lemma_test_bit(b: u8, m: u32)
    by (bit_vector)
    requires
        m < 8,
    ensures
        (b & (1u8 << m) == 0) <==> ((b >> m) & 1 != 1),
{
}

/// Reading back the four big-endian bytes of a 32-bit value gives the
/// value.
proof fn lemma_be32_value_of_be32(x: u32)
    ensures
        spec_be32_value(spec_be32(x)) == x,
{
    let b0 = ((x >> 24) & 0xFF) as u8;
    let b1 = ((x >> 16) & 0xFF) as u8;
    let b2 = ((x >> 8) & 0xFF) as u8;
    let b3 = (x & 0xFF) as u8;
    assert(spec_be32(x)[0] == b0);
    assert(spec_be32(x)[1] == b1);
    assert(spec_be32(x)[2] == b2);
    assert(spec_be32(x)[3] == b3);
    assert((((b0 as u32) << 24) | ((b1 as u32) << 16) | ((b2 as u32) << 8) | (b3 as u32)) == x)
        by (bit_vector)
        requires
            b0 == ((x >> 24) & 0xFF) as u8,
            b1 == ((x >> 16) & 0xFF) as u8,
            b2 == ((x >> 8) & 0xFF) as u8,
            b3 == (x & 0xFF) as u8,
    ;
}

/// No false negatives: once every probed bit of `key` is set, any growth
/// of the bit array that only sets further bits — which is all `insert`
/// ever does — keeps `may_contain` reporting `key` as possibly present,
/// however many other keys are inserted afterwards.
pub proof fn lemma_no_false_negatives(pre: Seq<u8>, post: Seq<u8>, k: nat, key: Seq<u8>)
    requires
        pre.len() > 0,
        pre.len() == post.len(),
        forall|p: nat|
            p < pre.len() * 8 ==> (#[trigger] spec_bit_is_set(pre, p) ==> spec_bit_is_set(
                post,
                p,
            )),
        spec_contains(pre, k, key),
    ensures
        spec_contains(post, k, key),
{
    assert forall|j: nat| j < k implies #[trigger] spec_probe_is_set(post, key, j) by {
        assert(spec_probe_is_set(pre, key, j));
        let p = spec_probe_index(key, j, pre.len() * 8);
        assert(p < pre.len() * 8);
        assert(spec_bit_is_set(pre, p));
        assert(spec_bit_is_set(post, p));
    }
}

/// An empty filter rejects every key: with all bits zero and at least one
/// probe, the first probed bit is found unset.
pub proof fn lemma_empty_filter(bits: Seq<u8>, k: nat, key: Seq<u8>)
    requires
        bits.len() > 0,
        k >= 1,
        forall|i: int| 0 <= i < bits.len() ==> bits[i] == 0u8,
    ensures
        !spec_contains(bits, k, key),
{
    let p = spec_probe_index(key, 0, bits.len() * 8);
    assert(p < bits.len() * 8);
    lemma_fundamental_div_mod(p as int, 8);
    assert(0 <= p as int / 8 < bits.len());
    assert(bits[p as int / 8] == 0u8);
    let m = (p % 8) as u32;
    assert((0u8 >> m) & 1 != 1) by (bit_vector)
        requires
            m < 8,
    ;
    assert(!spec_probe_is_set(bits, key, 0));
}

/// Round trip: the stored checksum of an encoded filter matches its
/// payload, and the payload gives back the bit array and the probe count
/// exactly. With `decode`'s contract this says that decoding an encoded
/// filter always succeeds and yields a filter with the same bit array and
/// probe count — so `may_contain` answers identically for every key.
pub proof fn lemma_encode_decode_round_trip(bits: Seq<u8>, k: u8)
    ensures
        spec_encoded(bits, k).len() == bits.len() + 5,
        spec_be32_value(spec_encoded(bits, k).subrange(0, 4)) == crc32_of(
            spec_encoded(bits, k).skip(4),
        ),
        spec_encoded(bits, k).skip(4).drop_last() == bits,
        spec_encoded(bits, k).last() == k,
{
    let payload = spec_payload(bits, k);
    let e = spec_encoded(bits, k);
    assert(e.skip(4) =~= payload);
    assert(e.subrange(0, 4) =~= spec_be32(crc32_of(payload)));
    lemma_be32_value_of_be32(crc32_of(payload));
    assert(payload.drop_last() =~= bits);
}

/// Corruption of the checksum field is detected: flipping any single bit
/// of the four stored checksum bytes of an encoded filter leaves the
/// payload unchanged but changes the stored value, so decoding fails. A
/// flip inside the payload is caught instead by CRC-32's own single-bit
/// error detection, a property of the checksum that is exercised by test,
/// not stated here.
pub proof fn lemma_checksum_flip_detected(bits: Seq<u8>, k: u8, p: nat)
    requires
        p < 32,
    ensures
        ({
            let e = spec_encoded(bits, k);
            let e2 = e.update(p as int / 8, e[p as int / 8] ^ (1u8 << ((p % 8) as u32)));
            spec_be32_value(e2.subrange(0, 4)) != crc32_of(e2.skip(4))
        }),
{
    let e = spec_encoded(bits, k);
    let q = p as int / 8;
    let m = (p % 8) as u32;
    let old_b = e[q];
    let new_b = (old_b ^ (1u8 << m)) as u8;
    let e2 = e.update(q, new_b);
    lemma_encode_decode_round_trip(bits, k);
    assert(0 <= q < 4);
    assert(m < 8);
    assert(e2.skip(4) =~= e.skip(4));
    assert(new_b != old_b) by (bit_vector)
        requires
            m < 8,
            new_b == (old_b ^ (1u8 << m)) as u8,
    ;
    let a0 = e[0];
    let a1 = e[1];
    let a2 = e[2];
    let a3 = e[3];
    let c0 = e2[0];
    let c1 = e2[1];
    let c2 = e2[2];
    let c3 = e2[3];
    assert(e.subrange(0, 4)[0] == a0 && e.subrange(0, 4)[1] == a1 && e.subrange(0, 4)[2] == a2
        && e.subrange(0, 4)[3] == a3);
    assert(e2.subrange(0, 4)[0] == c0 && e2.subrange(0, 4)[1] == c1 && e2.subrange(0, 4)[2] == c2
        && e2.subrange(0, 4)[3] == c3);
    assert((((c0 as u32) << 24) | ((c1 as u32) << 16) | ((c2 as u32) << 8) | (c3 as u32)) != (((
    a0 as u32) << 24) | ((a1 as u32) << 16) | ((a2 as u32) << 8) | (a3 as u32))) by (bit_vector)
        requires
            (c0 != a0 && c1 == a1 && c2 == a2 && c3 == a3) || (c0 == a0 && c1 != a1 && c2 == a2
                && c3 == a3) || (c0 == a0 && c1 == a1 && c2 != a2 && c3 == a3) || (c0 == a0 && c1
                == a1 && c2 == a2 && c3 != a3),
    ;
    assert(spec_be32_value(e2.subrange(0, 4)) != spec_be32_value(e.subrange(0, 4)));
}

} // verus!
