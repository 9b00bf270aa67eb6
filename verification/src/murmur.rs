//! The 64-bit MurmurHash2 of a run of bytes.
use vstd::prelude::*;
use vstd::wrapping::u64_specs::wrapping_mul;

verus! {

/// The multiplier of the hash.
pub const MURMUR_M: u64 = 0xc6a4a7935bd1e995;

/// The shift of the hash.
pub const MURMUR_R: u64 = 47;

/// The eight bytes of `key` from `i` on as a little-endian word.
pub open spec fn word_at(key: Seq<u8>, i: int) -> u64 {
    (key[i] as u64) | ((key[i + 1] as u64) << 8) | ((key[i + 2] as u64) << 16) | ((key[i
        + 3] as u64) << 24) | ((key[i + 4] as u64) << 32) | ((key[i + 5] as u64) << 40) | ((key[i
        + 6] as u64) << 48) | ((key[i + 7] as u64) << 56)
}

/// Mixes one word into the state `h`.
pub open spec fn mix(h: u64, word: u64) -> u64 {
    let k1 = wrapping_mul(word, MURMUR_M);
    let k2 = k1 ^ (k1 >> MURMUR_R);
    let k3 = wrapping_mul(k2, MURMUR_M);
    wrapping_mul(h ^ k3, MURMUR_M)
}

/// The state after the first `blocks` words of `key`.
pub open spec fn after_blocks(key: Seq<u8>, seed: u64, blocks: int) -> u64
    decreases blocks,
{
    if blocks <= 0 {
        seed ^ wrapping_mul(key.len() as u64, MURMUR_M)
    } else {
        mix(after_blocks(key, seed, blocks - 1), word_at(key, 8 * (blocks - 1)))
    }
}

/// Mixes the `over` bytes of `key` from `i` on, fewer than eight, into `h`.
pub open spec fn mix_tail(h: u64, key: Seq<u8>, i: int, over: int) -> u64 {
    let h7 = if over == 7 { h ^ ((key[i + 6] as u64) << 48) } else { h };
    let h6 = if over >= 6 { h7 ^ ((key[i + 5] as u64) << 40) } else { h7 };
    let h5 = if over >= 5 { h6 ^ ((key[i + 4] as u64) << 32) } else { h6 };
    let h4 = if over >= 4 { h5 ^ ((key[i + 3] as u64) << 24) } else { h5 };
    let h3 = if over >= 3 { h4 ^ ((key[i + 2] as u64) << 16) } else { h4 };
    let h2 = if over >= 2 { h3 ^ ((key[i + 1] as u64) << 8) } else { h3 };
    let h1 = if over >= 1 { h2 ^ (key[i] as u64) } else { h2 };
    if over > 0 { wrapping_mul(h1, MURMUR_M) } else { h1 }
}

/// The last scrambling of the state.
pub open spec fn finish(h: u64) -> u64 {
    let a = h ^ (h >> MURMUR_R);
    let b = wrapping_mul(a, MURMUR_M);
    b ^ (b >> MURMUR_R)
}

/// The MurmurHash2 of `key` with `seed`: the words of `key` are mixed in one
/// by one, then the bytes that are left, and the state is scrambled.
pub open spec fn murmur_spec(key: Seq<u8>, seed: u64) -> u64 {
    let blocks = key.len() as int / 8;
    finish(mix_tail(after_blocks(key, seed, blocks), key, 8 * blocks, key.len() as int % 8))
}

/// Computes the 64-bit MurmurHash2 of `key` with `seed`.
pub fn murmur_hash64a(key: &[u8], seed: u64) -> (r: u64)
    ensures
        r == murmur_spec(key@, seed),
{
    let m: u64 = MURMUR_M;
    let r: u64 = MURMUR_R;
    let len = key.len();
    let mut h: u64 = seed ^ (len as u64).wrapping_mul(m);
    let over = len % 8;
    let endpos = len - over;
    let mut i: usize = 0;
    while i != endpos
        invariant
            i <= endpos,
            i % 8 == 0,
            endpos % 8 == 0,
            endpos == len - over,
            len == key@.len(),
            over == len % 8,
            m == MURMUR_M,
            r == MURMUR_R,
            h == after_blocks(key@, seed, i as int / 8),
        decreases endpos - i,
    {
        let mut k: u64 = key[i] as u64;
        k = k | (key[i + 1] as u64) << 8;
        k = k | (key[i + 2] as u64) << 16;
        k = k | (key[i + 3] as u64) << 24;
        k = k | (key[i + 4] as u64) << 32;
        k = k | (key[i + 5] as u64) << 40;
        k = k | (key[i + 6] as u64) << 48;
        k = k | (key[i + 7] as u64) << 56;
        assert(k == word_at(key@, i as int));
        k = k.wrapping_mul(m);
        k = k ^ (k >> r);
        k = k.wrapping_mul(m);
        h = h ^ k;
        h = h.wrapping_mul(m);
        i = i + 8;
    }
    if over == 7 {
        h = h ^ (key[i + 6] as u64) << 48;
    }
    if over >= 6 {
        h = h ^ (key[i + 5] as u64) << 40;
    }
    if over >= 5 {
        h = h ^ (key[i + 4] as u64) << 32;
    }
    if over >= 4 {
        h = h ^ (key[i + 3] as u64) << 24;
    }
    if over >= 3 {
        h = h ^ (key[i + 2] as u64) << 16;
    }
    if over >= 2 {
        h = h ^ (key[i + 1] as u64) << 8;
    }
    if over >= 1 {
        h = h ^ key[i] as u64;
    }
    if over > 0 {
        h = h.wrapping_mul(m);
    }
    h = h ^ (h >> r);
    h = h.wrapping_mul(m);
    h = h ^ (h >> r);
    h
}

} // verus!
