//! Sets of endpoints as bit maps of fixed length.
use vstd::prelude::*;
use crate::codec;
use crate::meta::{DataEndpoint, MAX_VALUE_DATA_ENDPOINT};

verus! {

/// Bytes of a bit map: one bit for each endpoint that a frame can name.
pub const BITMAP_BYTES: usize = 32;

/// Endpoints below this number have a bit.
pub const BITMAP_BITS: u32 = 256;

/// Value of bit `j` of a byte.
pub open spec fn weight(j: int) -> int {
    if j == 0 {
        1
    } else if j == 1 {
        2
    } else if j == 2 {
        4
    } else if j == 3 {
        8
    } else if j == 4 {
        16
    } else if j == 5 {
        32
    } else if j == 6 {
        64
    } else {
        128
    }
}

/// 1 where `k` is in the list, else 0.
pub open spec fn there(eps: Seq<DataEndpoint>, k: int) -> int {
    if eps.contains(k as u32) {
        1
    } else {
        0
    }
}

/// Byte `i` of the bit map: bit `j` says whether endpoint `8 * i + j` is in the list.
pub open spec fn bitmap_byte(eps: Seq<DataEndpoint>, i: int) -> u8 {
    (there(eps, 8 * i) + 2 * there(eps, 8 * i + 1) + 4 * there(eps, 8 * i + 2) + 8 * there(
        eps,
        8 * i + 3,
    ) + 16 * there(eps, 8 * i + 4) + 32 * there(eps, 8 * i + 5) + 64 * there(eps, 8 * i + 6) + 128
        * there(eps, 8 * i + 7)) as u8
}

/// The bit map of the endpoints in the list.
pub open spec fn bitmap(eps: Seq<DataEndpoint>) -> Seq<u8> {
    Seq::new(BITMAP_BYTES as nat, |i: int| bitmap_byte(eps, i))
}

/// Whether the bit of endpoint `k` is set.
pub open spec fn has_bit(bm: Seq<u8>, k: int) -> bool {
    (bm[k / 8] as int / weight(k % 8)) % 2 == 1
}

/// The endpoints below `n` whose bit is set, in ascending order.
pub open spec fn members(bm: Seq<u8>, n: nat) -> Seq<DataEndpoint>
    decreases n,
{
    if n == 0 {
        Seq::<DataEndpoint>::empty()
    } else {
        let front = members(bm, (n - 1) as nat);
        if has_bit(bm, n - 1) {
            front.push((n - 1) as u32)
        } else {
            front
        }
    }
}

/// The endpoints below `n` that are in the list, each once, in ascending order.
pub open spec fn ordered(eps: Seq<DataEndpoint>, n: nat) -> Seq<DataEndpoint>
    decreases n,
{
    if n == 0 {
        Seq::<DataEndpoint>::empty()
    } else {
        let front = ordered(eps, (n - 1) as nat);
        if eps.contains((n - 1) as u32) {
            front.push((n - 1) as u32)
        } else {
            front
        }
    }
}

/// The endpoints of the list that a bit map can hold, each once, in ascending order.
pub open spec fn canonical(eps: Seq<DataEndpoint>) -> Seq<DataEndpoint> {
    ordered(eps, BITMAP_BITS as nat)
}

proof fn lemma_bit(eps: Seq<DataEndpoint>, k: int)
    requires
        0 <= k < BITMAP_BITS,
    ensures
        has_bit(bitmap(eps), k) == eps.contains(k as u32),
{
    let i = k / 8;
    let j = k % 8;
    assert(k == 8 * i + j);
    let b = bitmap_byte(eps, i);
    assert(bitmap(eps)[i] == b);
    let (b0, b1, b2, b3) = (
        there(eps, 8 * i),
        there(eps, 8 * i + 1),
        there(eps, 8 * i + 2),
        there(eps, 8 * i + 3),
    );
    let (b4, b5, b6, b7) = (
        there(eps, 8 * i + 4),
        there(eps, 8 * i + 5),
        there(eps, 8 * i + 6),
        there(eps, 8 * i + 7),
    );
    let v = b0 + 2 * b1 + 4 * b2 + 8 * b3 + 16 * b4 + 32 * b5 + 64 * b6 + 128 * b7;
    assert(b as int == v);
    if j == 0 {
        assert(v / 1 == v);
        assert(v % 2 == b0);
    } else if j == 1 {
        assert((v / 2) % 2 == b1);
    } else if j == 2 {
        assert((v / 4) % 2 == b2);
    } else if j == 3 {
        assert((v / 8) % 2 == b3);
    } else if j == 4 {
        assert((v / 16) % 2 == b4);
    } else if j == 5 {
        assert((v / 32) % 2 == b5);
    } else if j == 6 {
        assert((v / 64) % 2 == b6);
    } else {
        assert((v / 128) % 2 == b7);
    }
}

proof fn lemma_members_of_bitmap(eps: Seq<DataEndpoint>, n: nat)
    requires
        n <= BITMAP_BITS,
    ensures
        members(bitmap(eps), n) == ordered(eps, n),
    decreases n,
{
    if n > 0 {
        lemma_members_of_bitmap(eps, (n - 1) as nat);
        lemma_bit(eps, n - 1);
    }
}

/// A bit map holds exactly the endpoints that it was made from.
pub proof fn lemma_bitmap_roundtrip(eps: Seq<DataEndpoint>)
    ensures
        members(bitmap(eps), BITMAP_BITS as nat) == canonical(eps),
        bitmap(eps).len() == BITMAP_BYTES,
{
    lemma_members_of_bitmap(eps, BITMAP_BITS as nat);
}

proof fn lemma_ordered_members(eps: Seq<DataEndpoint>, n: nat, x: u32)
    requires
        n <= BITMAP_BITS,
    ensures
        ordered(eps, n).contains(x) <==> x < n && eps.contains(x),
    decreases n,
{
    if n > 0 {
        lemma_ordered_members(eps, (n - 1) as nat, x);
        let front = ordered(eps, (n - 1) as nat);
        if eps.contains((n - 1) as u32) {
            let s = front.push((n - 1) as u32);
            if front.contains(x) {
                let k = choose|k: int| 0 <= k < front.len() && front[k] == x;
                assert(s[k] == x);
            }
            if x == n - 1 {
                assert(s[front.len() as int] == x);
            }
            if s.contains(x) {
                let k = choose|k: int| 0 <= k < s.len() && s[k] == x;
                if k < front.len() {
                    assert(front[k] == x);
                }
            }
        }
    }
}

/// The canonical list has the members of the list that a bit map can hold.
pub proof fn lemma_canonical_members(eps: Seq<DataEndpoint>, x: DataEndpoint)
    ensures
        canonical(eps).contains(x) <==> x <= MAX_VALUE_DATA_ENDPOINT && eps.contains(x),
{
    lemma_ordered_members(eps, BITMAP_BITS as nat, x);
}

proof fn lemma_ordered_same(a: Seq<DataEndpoint>, b: Seq<DataEndpoint>, n: nat)
    requires
        n <= BITMAP_BITS,
        forall|x: u32| x < n ==> (a.contains(x) <==> b.contains(x)),
    ensures
        ordered(a, n) == ordered(b, n),
    decreases n,
{
    if n > 0 {
        lemma_ordered_same(a, b, (n - 1) as nat);
    }
}

/// Lists with the same members have the same canonical list and the same bit map: order and
/// repetition do not count.
pub proof fn lemma_order_does_not_count(a: Seq<DataEndpoint>, b: Seq<DataEndpoint>)
    requires
        forall|x: u32| a.contains(x) <==> b.contains(x),
    ensures
        canonical(a) == canonical(b),
        bitmap(a) == bitmap(b),
{
    lemma_ordered_same(a, b, BITMAP_BITS as nat);
    assert forall|i: int| 0 <= i < BITMAP_BYTES implies bitmap(a)[i] == bitmap(b)[i] by {
        assert(forall|k: int| there(a, k) == there(b, k));
    }
    assert(bitmap(a) =~= bitmap(b));
}

/// Putting a list in canonical form twice is putting it in canonical form once.
pub proof fn lemma_canonical_idempotent(eps: Seq<DataEndpoint>)
    ensures
        canonical(canonical(eps)) == canonical(eps),
{
    assert forall|x: u32| x < BITMAP_BITS implies (canonical(eps).contains(x) <==> eps.contains(
        x,
    )) by {
        lemma_canonical_members(eps, x);
    }
    lemma_ordered_same(canonical(eps), eps, BITMAP_BITS as nat);
}

fn there_of(eps: &[DataEndpoint], k: u32) -> (b: u8)
    ensures
        b == there(eps@, k as int),
        b <= 1,
{
    if codec::contains_u32(eps, k) {
        1
    } else {
        0
    }
}

/// The bit map of the endpoints in the list.
pub fn bitmap_of(eps: &[DataEndpoint]) -> (bm: Vec<u8>)
    ensures
        bm@ == bitmap(eps@),
{
    let mut bm: Vec<u8> = Vec::new();
    let mut i: u32 = 0;
    while i < 32
        invariant
            i <= 32,
            bm@.len() == i,
            forall|j: int| 0 <= j < i ==> bm@[j] == bitmap_byte(eps@, j),
        decreases 32 - i,
    {
        let b: u8 = there_of(eps, 8 * i) + 2 * there_of(eps, 8 * i + 1) + 4 * there_of(
            eps,
            8 * i + 2,
        ) + 8 * there_of(eps, 8 * i + 3) + 16 * there_of(eps, 8 * i + 4) + 32 * there_of(
            eps,
            8 * i + 5,
        ) + 64 * there_of(eps, 8 * i + 6) + 128 * there_of(eps, 8 * i + 7);
        bm.push(b);
        i = i + 1;
    }
    assert(bm@ =~= bitmap(eps@));
    bm
}

/// The endpoints of the list in canonical form.
pub fn canonical_of(eps: &[DataEndpoint]) -> (out: Vec<DataEndpoint>)
    ensures
        out@ == canonical(eps@),
{
    let mut out: Vec<DataEndpoint> = Vec::new();
    let mut k: u32 = 0;
    while k < BITMAP_BITS
        invariant
            k <= BITMAP_BITS,
            out@ == ordered(eps@, k as nat),
        decreases BITMAP_BITS - k,
    {
        if codec::contains_u32(eps, k) {
            out.push(k);
        }
        k = k + 1;
    }
    out
}

/// The endpoints whose bits are set in the bit map that starts at `pos`.
pub fn members_at(buf: &[u8], pos: usize) -> (out: Vec<DataEndpoint>)
    requires
        pos + BITMAP_BYTES <= buf@.len(),
    ensures
        out@ == members(buf@.subrange(pos as int, pos + BITMAP_BYTES), BITMAP_BITS as nat),
{
    let ghost bm = buf@.subrange(pos as int, pos + BITMAP_BYTES);
    let total: usize = buf.len();
    let mut out: Vec<DataEndpoint> = Vec::new();
    let mut k: u32 = 0;
    while k < BITMAP_BITS
        invariant
            k <= BITMAP_BITS,
            pos + BITMAP_BYTES <= buf@.len() == total,
            bm == buf@.subrange(pos as int, pos + BITMAP_BYTES),
            out@ == members(bm, k as nat),
        decreases BITMAP_BITS - k,
    {
        let b: u8 = buf[pos + (k / 8) as usize];
        let w: u8 = match k % 8 {
            0 => 1,
            1 => 2,
            2 => 4,
            3 => 8,
            4 => 16,
            5 => 32,
            6 => 64,
            _ => 128,
        };
        assert(b == bm[k as int / 8]);
        assert(w == weight(k as int % 8));
        if (b / w) % 2 == 1 {
            out.push(k);
        }
        k = k + 1;
    }
    out
}

} // verus!
