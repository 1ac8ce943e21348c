//! Deterministic seeding of the procedural brush textures.

use vstd::prelude::*;

verus! {

/// FNV-1a offset basis (64 bit).
pub const FNV_OFFSET: u64 = 0xcbf29ce484222325;

/// FNV-1a prime (64 bit).
pub const FNV_PRIME: u64 = 0x100000001b3;

/// 64-bit FNV-1a hash of `bytes`: start from the offset basis, then for each byte
/// xor it in and multiply by the prime modulo 2^64.
pub open spec fn fnv1a(bytes: Seq<u8>) -> u64
    decreases bytes.len(),
{
    if bytes.len() == 0 {
        FNV_OFFSET
    } else {
        let h = fnv1a(bytes.drop_last()) ^ (bytes.last() as u64);
        ((h as nat * FNV_PRIME as nat) % 0x1_0000_0000_0000_0000) as u64
    }
}

/// Seed of the band-limited noise behind a brush texture, derived from the noise key
/// so that each brush style keeps the same shape: the FNV-1a hash of the key's bytes.
pub fn noise_seed(key: &[u8]) -> (seed: u64)
    ensures
        seed == fnv1a(key@),
{
    let mut seed: u64 = FNV_OFFSET;
    let mut i: usize = 0;
    while i < key.len()
        invariant
            i <= key@.len(),
            seed == fnv1a(key@.take(i as int)),
        decreases key@.len() - i,
    {
        assert(key@.take(i + 1).drop_last() == key@.take(i as int));
        seed = (seed ^ key[i] as u64).wrapping_mul(FNV_PRIME);
        i = i + 1;
    }
    assert(key@.take(key@.len() as int) == key@);
    seed
}

/// FNV-1a processes the key byte by byte: the empty key hashes to the offset basis, and
/// appending byte `b` to a key xors exactly that byte into the key's hash and multiplies
/// by the prime (mod 2^64).
pub proof fn lemma_fnv1a_step(key: Seq<u8>, b: u8)
    ensures
        fnv1a(Seq::<u8>::empty()) == 0xcbf29ce484222325u64,
        fnv1a(key.push(b)) as int == ((fnv1a(key) ^ (b as u64)) as int * 0x100000001b3int)
            % 0x1_0000_0000_0000_0000int,
{
    assert(key.push(b).drop_last() == key);
}

proof fn lemma_mul_prime_injective(x: u64, y: u64)
    requires
        ((x as nat * FNV_PRIME as nat) % 0x1_0000_0000_0000_0000) as u64 == ((y as nat
            * FNV_PRIME as nat) % 0x1_0000_0000_0000_0000) as u64,
    ensures
        x == y,
{
    let px = ((x as nat * FNV_PRIME as nat) % 0x1_0000_0000_0000_0000) as u64;
    let py = ((y as nat * FNV_PRIME as nat) % 0x1_0000_0000_0000_0000) as u64;
    assert(px == (x * 0x100000001b3u64) as u64) by (bit_vector)
        requires px == ((x as nat * 0x100000001b3nat) % 0x1_0000_0000_0000_0000) as u64;
    assert(py == (y * 0x100000001b3u64) as u64) by (bit_vector)
        requires py == ((y as nat * 0x100000001b3nat) % 0x1_0000_0000_0000_0000) as u64;
    assert(x == (((x * 0x100000001b3u64) as u64) * 0xce965057aff6957bu64) as u64) by (bit_vector);
    assert(y == (((y * 0x100000001b3u64) as u64) * 0xce965057aff6957bu64) as u64) by (bit_vector);
}

/// Every byte value matters: keys that differ only in their last byte get different seeds.
pub proof fn lemma_fnv1a_last_byte_distinguishes(key: Seq<u8>, b1: u8, b2: u8)
    requires
        b1 != b2,
    ensures
        fnv1a(key.push(b1)) != fnv1a(key.push(b2)),
{
    assert(key.push(b1).drop_last() == key);
    assert(key.push(b2).drop_last() == key);
    let h = fnv1a(key);
    if fnv1a(key.push(b1)) == fnv1a(key.push(b2)) {
        lemma_mul_prime_injective(h ^ (b1 as u64), h ^ (b2 as u64));
        assert((h ^ (b1 as u64)) == (h ^ (b2 as u64)) ==> b1 == b2) by (bit_vector);
    }
}

} // verus!
