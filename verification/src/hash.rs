//! Seeded FNV-1a hashes of names and packets.
use vstd::prelude::*;
use vstd::string::*;

verus! {

pub const HASH_PRIME: u64 = 0x0000_0100_0000_01B3;

/// Seed of the hash by which a sender's name is known.
pub const SENDER_SEED: u64 = 0x517C_C1B7_2722_0A95;

/// The hash `h` carried over one more byte.
pub open spec fn hash_step(h: u64, b: u8) -> u64 {
    (h ^ (b as u64)).wrapping_mul(HASH_PRIME)
}

/// The hash of `s`, starting from `seed`.
pub open spec fn hash_seq(seed: u64, s: Seq<u8>) -> u64
    decreases s.len(),
{
    if s.len() == 0 {
        seed
    } else {
        hash_step(hash_seq(seed, s.drop_last()), s.last())
    }
}

/// Hashing two pieces after one another is hashing their concatenation.
pub proof fn lemma_hash_concat(seed: u64, a: Seq<u8>, b: Seq<u8>)
    ensures
        hash_seq(seed, a + b) == hash_seq(hash_seq(seed, a), b),
    decreases b.len(),
{
    if b.len() == 0 {
        assert(a + b =~= a);
    } else {
        assert((a + b).drop_last() =~= a + b.drop_last());
        lemma_hash_concat(seed, a, b.drop_last());
    }
}

/// The hash of `bytes`, starting from `seed`.
pub fn hash_bytes_u64(seed: u64, bytes: &[u8]) -> (h: u64)
    ensures
        h == hash_seq(seed, bytes@),
{
    let mut h: u64 = seed;
    let mut i: usize = 0;
    assert(bytes@.take(0) =~= Seq::<u8>::empty());
    while i < bytes.len()
        invariant
            i <= bytes@.len(),
            h == hash_seq(seed, bytes@.take(i as int)),
        decreases bytes@.len() - i,
    {
        proof {
            assert(bytes@.take(i + 1).drop_last() =~= bytes@.take(i as int));
        }
        h = (h ^ (bytes[i] as u64)).wrapping_mul(HASH_PRIME);
        i = i + 1;
    }
    assert(bytes@.take(i as int) =~= bytes@);
    h
}

/// The hash by which other boards know a sender of this name.
pub open spec fn name_hash(name: Seq<char>) -> u64 {
    hash_seq(SENDER_SEED, vstd::utf8::encode_utf8(name))
}

/// The 32-bit address that a name hashes to.
pub open spec fn name_address(name: Seq<char>) -> u32 {
    (name_hash(name) % 0x1_0000_0000) as u32
}

/// The hash by which other boards know a sender of this name.
pub fn sender_hash(name: &str) -> (h: u64)
    ensures
        h == name_hash(name@),
{
    hash_bytes_u64(SENDER_SEED, name.as_bytes())
}

/// The 32-bit address that a name hashes to.
pub fn sender_address_u32(name: &str) -> (a: u32)
    ensures
        a == name_address(name@),
{
    (sender_hash(name) % 0x1_0000_0000) as u32
}

} // verus!
