//! What holds of how numbers and byte strings are written and compared.
use vstd::prelude::*;
use crate::codec;

verus! {

/// Numbers are written with their lowest byte first: each byte counts for as much more than the
/// one before it as a byte can hold.
pub proof fn lemma_low_byte_comes_first(a: u16, b: u32, c: u64)
    ensures
        codec::le2(a).len() == 2 && codec::le2(a)[0] + 0x100 * codec::le2(a)[1] == a,
        codec::le4(b).len() == 4 && codec::le4(b)[0] + 0x100 * codec::le4(b)[1] + 0x1_0000 * codec::le4(b)[2] + 0x100_0000
            * codec::le4(b)[3] == b,
        codec::le8(c).len() == 8 && codec::le8(c)[0] + 0x100 * codec::le8(c)[1] + 0x1_0000 * codec::le8(c)[2] + 0x100_0000
            * codec::le8(c)[3] + 0x1_0000_0000 * codec::le8(c)[4] + 0x100_0000_0000 * codec::le8(c)[5]
            + 0x1_0000_0000_0000 * codec::le8(c)[6] + 0x100_0000_0000_0000 * codec::le8(c)[7] == c,
{
    let low = (c % 0x1_0000_0000) as u32;
    let high = (c / 0x1_0000_0000) as u32;
    assert(codec::le8(c) == codec::le4(low) + codec::le4(high));
    lemma_four_bytes(b);
    lemma_four_bytes(low);
    lemma_four_bytes(high);
}

proof fn lemma_four_bytes(b: u32)
    ensures
        codec::le4(b).len() == 4,
        codec::le4(b)[0] + 0x100 * codec::le4(b)[1] + 0x1_0000 * codec::le4(b)[2] + 0x100_0000 * codec::le4(b)[3] == b,
{
}

/// Of two byte strings the one whose first byte that differs is lower comes first, and one that
/// another starts with comes before it.
pub proof fn lemma_first_difference_decides(a: Seq<u8>, b: Seq<u8>, k: int)
    requires
        0 <= k <= a.len(),
        k < b.len(),
        forall|i: int| 0 <= i < k ==> a[i] == b[i],
    ensures
        k < a.len() && a[k] != b[k] ==> (codec::lex_less(a, b) <==> a[k] < b[k]),
        k == a.len() ==> codec::lex_less(a, b),
    decreases k,
{
    if k > 0 {
        assert forall|i: int| 0 <= i < k - 1 implies a.skip(1)[i] == b.skip(1)[i] by {
            assert(a[i + 1] == b[i + 1]);
        }
        assert(a[0] == b[0]);
        lemma_first_difference_decides(a.skip(1), b.skip(1), k - 1);
    }
}

} // verus!
