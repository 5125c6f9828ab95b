//! The CRC-32 checksum that closes every frame (reflected polynomial 0xEDB88320).
use vstd::prelude::*;

verus! {

pub const POLYNOMIAL: u32 = 0xEDB8_8320;

/// The register after one bit.
pub open spec fn crc_bit(c: u32) -> u32 {
    if c & 1 == 1 {
        (c >> 1) ^ POLYNOMIAL
    } else {
        c >> 1
    }
}

/// The register after `n` bits.
pub open spec fn crc_bits(c: u32, n: nat) -> u32
    decreases n,
{
    if n == 0 {
        c
    } else {
        crc_bit(crc_bits(c, (n - 1) as nat))
    }
}

/// The register after the bytes of `s`.
pub open spec fn crc_bytes(s: Seq<u8>) -> u32
    decreases s.len(),
{
    if s.len() == 0 {
        0xFFFF_FFFF
    } else {
        crc_bits(crc_bytes(s.drop_last()) ^ (s.last() as u32), 8)
    }
}

/// The checksum of `s`.
pub open spec fn crc32(s: Seq<u8>) -> u32 {
    crc_bytes(s) ^ 0xFFFF_FFFF
}

/// The checksum of the first `len` bytes of `buf`.
pub fn crc32_of(buf: &[u8], len: usize) -> (r: u32)
    requires
        len <= buf@.len(),
    ensures
        r == crc32(buf@.take(len as int)),
{
    let mut c: u32 = 0xFFFF_FFFF;
    let mut i: usize = 0;
    assert(buf@.take(0) =~= Seq::<u8>::empty());
    while i < len
        invariant
            i <= len <= buf@.len(),
            c == crc_bytes(buf@.take(i as int)),
        decreases len - i,
    {
        let ghost start = c ^ (buf@[i as int] as u32);
        c = c ^ (buf[i] as u32);
        let mut bit: u8 = 0;
        while bit < 8
            invariant
                bit <= 8,
                c == crc_bits(start, bit as nat),
            decreases 8 - bit,
        {
            c = if c & 1 == 1 {
                (c >> 1) ^ POLYNOMIAL
            } else {
                c >> 1
            };
            bit = bit + 1;
        }
        proof {
            assert(buf@.take(i + 1).drop_last() =~= buf@.take(i as int));
        }
        i = i + 1;
    }
    c ^ 0xFFFF_FFFF
}

proof fn lemma_bit_loses_nothing(a: u32, b: u32)
    requires
        crc_bit(a) == crc_bit(b),
    ensures
        a == b,
{
    assert(({
        let x = if a & 1 == 1 {
            (a >> 1) ^ 0xEDB8_8320u32
        } else {
            a >> 1
        };
        let y = if b & 1 == 1 {
            (b >> 1) ^ 0xEDB8_8320u32
        } else {
            b >> 1
        };
        x == y ==> a == b
    })) by (bit_vector);
}

proof fn lemma_bits_lose_nothing(a: u32, b: u32, n: nat)
    requires
        crc_bits(a, n) == crc_bits(b, n),
    ensures
        a == b,
    decreases n,
{
    if n > 0 {
        lemma_bit_loses_nothing(crc_bits(a, (n - 1) as nat), crc_bits(b, (n - 1) as nat));
        lemma_bits_lose_nothing(a, b, (n - 1) as nat);
    }
}

proof fn lemma_register_differs(s: Seq<u8>, t: Seq<u8>, i: int)
    requires
        s.len() == t.len(),
        0 <= i < s.len(),
        s[i] != t[i],
        forall|k: int| 0 <= k < s.len() && k != i ==> s[k] == t[k],
    ensures
        crc_bytes(s) != crc_bytes(t),
    decreases s.len(),
{
    let a = crc_bytes(s.drop_last());
    let b = crc_bytes(t.drop_last());
    let x = s.last() as u32;
    let y = t.last() as u32;
    if i == s.len() - 1 {
        assert(s.drop_last() =~= t.drop_last());
        if crc_bytes(s) == crc_bytes(t) {
            lemma_bits_lose_nothing(a ^ x, a ^ y, 8);
            assert((a ^ x) == (a ^ y) ==> x == y) by (bit_vector);
        }
    } else {
        lemma_register_differs(s.drop_last(), t.drop_last(), i);
        if crc_bytes(s) == crc_bytes(t) {
            lemma_bits_lose_nothing(a ^ x, b ^ x, 8);
            assert((a ^ x) == (b ^ x) ==> a == b) by (bit_vector);
        }
    }
}

/// A single byte that changed on the way is always noticed: the checksum is another.
pub proof fn lemma_changed_byte_is_noticed(s: Seq<u8>, t: Seq<u8>, i: int)
    requires
        s.len() == t.len(),
        0 <= i < s.len(),
        s[i] != t[i],
        forall|k: int| 0 <= k < s.len() && k != i ==> s[k] == t[k],
    ensures
        crc32(s) != crc32(t),
{
    lemma_register_differs(s, t, i);
    let a = crc_bytes(s);
    let b = crc_bytes(t);
    assert((a ^ 0xFFFF_FFFFu32) == (b ^ 0xFFFF_FFFFu32) ==> a == b) by (bit_vector);
}

} // verus!
