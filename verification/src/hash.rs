//! The seeded 32-bit mixing hash that the filter probes with.
//!
//! `hash` is a pure function of the input bytes and the seed: identical
//! inputs always yield the identical output. All arithmetic wraps modulo
//! 2^32 by design. The mathematical definition is `spec_hash`, a recursion
//! over the input taken four little-endian bytes at a time, with a distinct
//! final step for the zero to three trailing bytes.

use vstd::prelude::*;
use vstd::wrapping::u32_specs;

verus! {

/// Multiplier used by every mixing step.
pub const MIX_MULTIPLIER: u32 = 0xc6a4_a793;

/// The 32-bit word held little-endian by the first four bytes of `data`.
pub open spec fn spec_word_le(data: Seq<u8>) -> u32
    recommends
        data.len() >= 4,
{
    ((data[0] as int) + (data[1] as int) * 0x100 + (data[2] as int) * 0x1_0000 + (data[3] as int)
        * 0x100_0000) as u32
}

/// One mixing round: absorb a full word, then fold the high half down.
pub open spec fn spec_mix_word(h: u32, w: u32) -> u32 {
    let m = u32_specs::wrapping_mul(u32_specs::wrapping_add(h, w), MIX_MULTIPLIER);
    m ^ (m >> 16)
}

/// The little-endian accumulator built from one to three trailing bytes.
pub open spec fn spec_tail_value(rest: Seq<u8>) -> u32
    recommends
        1 <= rest.len() <= 3,
{
    if rest.len() == 3 {
        ((rest[0] as int) + (rest[1] as int) * 0x100 + (rest[2] as int) * 0x1_0000) as u32
    } else if rest.len() == 2 {
        ((rest[0] as int) + (rest[1] as int) * 0x100) as u32
    } else {
        rest[0] as u32
    }
}

/// The final round applied when trailing bytes remain.
pub open spec fn spec_mix_tail(h: u32, rest: Seq<u8>) -> u32
    recommends
        1 <= rest.len() <= 3,
{
    let m = u32_specs::wrapping_mul(
        u32_specs::wrapping_add(h, spec_tail_value(rest)),
        MIX_MULTIPLIER,
    );
    m ^ (m >> 24)
}

/// Folds the whole input into the running state `h`: full words first,
/// then the tail round if trailing bytes remain.
pub open spec fn spec_hash_iter(data: Seq<u8>, h: u32) -> u32
    decreases data.len(),
{
    if data.len() >= 4 {
        spec_hash_iter(data.skip(4), spec_mix_word(h, spec_word_le(data)))
    } else if data.len() == 0 {
        h
    } else {
        spec_mix_tail(h, data)
    }
}

/// The initial state: the seed combined with the input length.
pub open spec fn spec_hash_init(len: nat, seed: u32) -> u32 {
    seed ^ u32_specs::wrapping_mul(len as u32, MIX_MULTIPLIER)
}

/// The hash of `data` under `seed`.
pub open spec fn spec_hash(data: Seq<u8>, seed: u32) -> u32 {
    spec_hash_iter(data, spec_hash_init(data.len(), seed))
}

/// A word step rewrites the running fold: absorbing the word at `i` moves
/// the fold four bytes forward.
proof fn lemma_hash_iter_step(data: Seq<u8>, i: int, h: u32)
    requires
        0 <= i,
        i + 4 <= data.len(),
    ensures
        spec_hash_iter(data.skip(i), h) == spec_hash_iter(
            data.skip(i + 4),
            spec_mix_word(h, spec_word_le(data.skip(i))),
        ),
{
    assert(data.skip(i).skip(4) =~= data.skip(i + 4));
}

/// The word at `i` read from the four bytes there.
proof fn lemma_word_le_at(data: Seq<u8>, i: int)
    requires
        0 <= i,
        i + 4 <= data.len(),
    ensures
        spec_word_le(data.skip(i)) == ((data[i] as int) + (data[i + 1] as int) * 0x100 + (data[i
            + 2] as int) * 0x1_0000 + (data[i + 3] as int) * 0x100_0000) as u32,
{
    assert(data.skip(i)[0] == data[i]);
    assert(data.skip(i)[1] == data[i + 1]);
    assert(data.skip(i)[2] == data[i + 2]);
    assert(data.skip(i)[3] == data[i + 3]);
}

/// Deterministic, seeded 32-bit mixing hash over an arbitrary byte sequence.
pub fn hash(data: &[u8], seed: u32) -> (r: u32)
    ensures
        r == spec_hash(data@, seed),
{
    let size: u32 = #[verifier::truncate] (data.len() as u32);
    let mut h: u32 = seed ^ size.wrapping_mul(MIX_MULTIPLIER);
    let ghost h0: u32 = h;

    assert(h0 == spec_hash_init(data@.len(), seed));
    assert(data@.skip(0) =~= data@);

    let mut i: usize = 0;
    while data.len() - i >= 4
        invariant
            i <= data@.len(),
            spec_hash_iter(data@.skip(i as int), h) == spec_hash_iter(data@, h0),
        decreases data@.len() - i,
    {
        let b0 = data[i];
        let b1 = data[i + 1];
        let b2 = data[i + 2];
        let b3 = data[i + 3];
        let w: u32 = (b0 as u32) + (b1 as u32) * 0x100 + (b2 as u32) * 0x1_0000 + (b3 as u32)
            * 0x100_0000;

        proof {
            lemma_word_le_at(data@, i as int);
            assert(w == spec_word_le(data@.skip(i as int)));
            lemma_hash_iter_step(data@, i as int, h);
        }

        h = h.wrapping_add(w).wrapping_mul(MIX_MULTIPLIER);
        h = h ^ (h >> 16);
        i = i + 4;
    }

    let rest_len = data.len() - i;
    proof {
        assert(rest_len == data@.skip(i as int).len());
    }

    if rest_len == 3 {
        let b0 = data[i];
        let b1 = data[i + 1];
        let b2 = data[i + 2];
        let t: u32 = (b0 as u32) + (b1 as u32) * 0x100 + (b2 as u32) * 0x1_0000;
        assert(t == spec_tail_value(data@.skip(i as int)));
        h = h.wrapping_add(t).wrapping_mul(MIX_MULTIPLIER);
        h = h ^ (h >> 24);
    } else if rest_len == 2 {
        let b0 = data[i];
        let b1 = data[i + 1];
        let t: u32 = (b0 as u32) + (b1 as u32) * 0x100;
        assert(t == spec_tail_value(data@.skip(i as int)));
        h = h.wrapping_add(t).wrapping_mul(MIX_MULTIPLIER);
        h = h ^ (h >> 24);
    } else if rest_len == 1 {
        let b0 = data[i];
        let t: u32 = b0 as u32;
        assert(t == spec_tail_value(data@.skip(i as int)));
        h = h.wrapping_add(t).wrapping_mul(MIX_MULTIPLIER);
        h = h ^ (h >> 24);
    }

    h
}

} // verus!
