//! Unsigned LEB128 integers.
use vstd::prelude::*;

verus! {

/// Why a byte string does not start with an integer.
#[derive(Debug, Clone, Copy, PartialEq, Eq, Structural)]
pub enum VarintFault {
    /// The bytes end before the integer does.
    ShortRead,
    /// The integer has more than ten groups or does not fit in 64 bits.
    TooLong,
}

/// Most groups that a 64-bit integer can take.
pub const MAX_GROUPS: u8 = 10;

/// The bytes of `x`, seven bits each, least significant group first.
pub open spec fn uleb(x: nat) -> Seq<u8>
    decreases x,
{
    if x < 128 {
        seq![x as u8]
    } else {
        seq![(x % 128 + 128) as u8] + uleb(x / 128)
    }
}

/// The integer of at most `groups` groups at the front of `s`, and what follows it.
pub open spec fn read_groups(s: Seq<u8>, groups: nat) -> Result<(nat, Seq<u8>), VarintFault>
    decreases groups,
{
    if groups == 0 {
        Err(VarintFault::TooLong)
    } else if s.len() == 0 {
        Err(VarintFault::ShortRead)
    } else if s[0] < 128 {
        Ok((s[0] as nat, s.skip(1)))
    } else {
        match read_groups(s.skip(1), (groups - 1) as nat) {
            Ok((high, rest)) => Ok(((s[0] - 128 + 128 * high) as nat, rest)),
            Err(e) => Err(e),
        }
    }
}

/// The 64-bit integer at the front of `s`, and what follows it.
pub open spec fn read_uleb(s: Seq<u8>) -> Result<(u64, Seq<u8>), VarintFault> {
    match read_groups(s, MAX_GROUPS as nat) {
        Ok((x, rest)) => if x <= u64::MAX {
            Ok((x as u64, rest))
        } else {
            Err(VarintFault::TooLong)
        },
        Err(e) => Err(e),
    }
}

spec fn pow128(n: nat) -> nat
    decreases n,
{
    if n == 0 {
        1
    } else {
        128 * pow128((n - 1) as nat)
    }
}

proof fn lemma_pow128_ten()
    ensures
        pow128(10) == 0x40_0000_0000_0000_0000,
{
    reveal_with_fuel(pow128, 11);
}

proof fn lemma_pow128_monotone(a: nat, b: nat)
    requires
        a <= b,
    ensures
        pow128(a) <= pow128(b),
    decreases b,
{
    if a < b {
        lemma_pow128_monotone(a, (b - 1) as nat);
    }
}

proof fn lemma_read_groups_bound(s: Seq<u8>, groups: nat)
    ensures
        read_groups(s, groups) matches Ok((x, rest)) ==> x < pow128(groups) && rest.len() < s.len()
            && rest == s.skip(s.len() - rest.len()),
    decreases groups,
{
    if groups > 0 && s.len() > 0 {
        lemma_pow128_monotone(0, (groups - 1) as nat);
        if s[0] >= 128 {
            lemma_read_groups_bound(s.skip(1), (groups - 1) as nat);
            if let Ok((x, rest)) = read_groups(s.skip(1), (groups - 1) as nat) {
                assert(s.skip(1).skip(s.skip(1).len() - rest.len()) =~= s.skip(
                    s.len() - rest.len(),
                ));
            }
        }
    }
}

proof fn lemma_read_groups_prefix(s: Seq<u8>, groups: nat, t: Seq<u8>)
    ensures
        read_groups(s, groups) matches Ok((x, rest)) ==> read_groups(
            s.take(s.len() - rest.len()) + t,
            groups,
        ) == Ok::<(nat, Seq<u8>), VarintFault>((x, t)),
    decreases groups,
{
    lemma_read_groups_bound(s, groups);
    if let Ok((x, rest)) = read_groups(s, groups) {
        let w = s.take(s.len() - rest.len()) + t;
        assert(w[0] == s[0]);
        if s[0] < 128 {
            assert(w.skip(1) =~= t);
        } else {
            lemma_read_groups_prefix(s.skip(1), (groups - 1) as nat, t);
            lemma_read_groups_bound(s.skip(1), (groups - 1) as nat);
            assert(w.skip(1) =~= s.skip(1).take(s.skip(1).len() - rest.len()) + t);
        }
    }
}

/// What a read takes reads the same whatever follows it.
pub proof fn lemma_read_uleb_prefix(s: Seq<u8>, t: Seq<u8>)
    ensures
        read_uleb(s) matches Ok((x, rest)) ==> read_uleb(s.take(s.len() - rest.len()) + t) == Ok::<
            (u64, Seq<u8>),
            VarintFault,
        >((x, t)),
{
    lemma_read_groups_prefix(s, MAX_GROUPS as nat, t);
}

/// What a read leaves is a proper suffix of what it was given.
pub proof fn lemma_read_uleb_suffix(s: Seq<u8>)
    ensures
        read_uleb(s) matches Ok((x, rest)) ==> rest.len() < s.len() && rest == s.skip(
            s.len() - rest.len(),
        ),
{
    lemma_read_groups_bound(s, MAX_GROUPS as nat);
}

proof fn lemma_groups_roundtrip(x: nat, groups: nat, rest: Seq<u8>)
    requires
        x < pow128(groups),
        1 <= groups,
    ensures
        read_groups(uleb(x) + rest, groups) == Ok::<(nat, Seq<u8>), VarintFault>((x, rest)),
    decreases groups,
{
    let s = uleb(x) + rest;
    if x < 128 {
        assert(s.skip(1) =~= rest);
    } else {
        assert(pow128(0) == 1);
        assert(s.skip(1) =~= uleb(x / 128) + rest);
        lemma_groups_roundtrip(x / 128, (groups - 1) as nat, rest);
    }
}

/// Reading gives back every integer that was written, and leaves what followed it.
pub proof fn lemma_uleb_roundtrip(x: u64, rest: Seq<u8>)
    ensures
        read_uleb(uleb(x as nat) + rest) == Ok::<(u64, Seq<u8>), VarintFault>((x, rest)),
{
    lemma_pow128_ten();
    lemma_groups_roundtrip(x as nat, 10, rest);
}

/// A written integer takes between one and ten bytes.
pub proof fn lemma_uleb_len(x: u64)
    ensures
        1 <= uleb(x as nat).len() <= MAX_GROUPS,
{
    lemma_pow128_ten();
    lemma_uleb_len_groups(x as nat, 10);
}

proof fn lemma_uleb_len_groups(x: nat, groups: nat)
    requires
        x < pow128(groups),
        1 <= groups,
    ensures
        1 <= uleb(x).len() <= groups,
    decreases groups,
{
    if x >= 128 {
        assert(pow128(0) == 1);
        lemma_uleb_len_groups(x / 128, (groups - 1) as nat);
    }
}

/// A larger integer never takes fewer bytes.
pub proof fn lemma_uleb_len_monotone(x: nat, y: nat)
    requires
        x <= y,
    ensures
        uleb(x).len() <= uleb(y).len(),
    decreases y,
{
    if x >= 128 {
        lemma_uleb_len_monotone(x / 128, y / 128);
    }
}

/// Appends the bytes of `x` to `out`.
pub fn write_uleb(out: &mut Vec<u8>, x: u64)
    ensures
        final(out)@ == old(out)@ + uleb(x as nat),
{
    let mut cur: u64 = x;
    while cur >= 128
        invariant
            out@ + uleb(cur as nat) == old(out)@ + uleb(x as nat),
        decreases cur,
    {
        let ghost before = out@;
        let low: u8 = (cur % 128) as u8 + 128;
        out.push(low);
        proof {
            assert(before + uleb(cur as nat) =~= before.push(low) + uleb((cur / 128) as nat));
        }
        cur = cur / 128;
    }
    out.push(cur as u8);
}

/// How many bytes `x` takes.
pub fn uleb_len(x: u64) -> (n: usize)
    ensures
        n == uleb(x as nat).len(),
        1 <= n <= MAX_GROUPS,
{
    let mut cur: u64 = x;
    let mut n: usize = 1;
    proof {
        lemma_uleb_len(x);
    }
    while cur >= 128
        invariant
            n + uleb(cur as nat).len() == uleb(x as nat).len() + 1,
            uleb(x as nat).len() <= MAX_GROUPS,
            1 <= n,
        decreases cur,
    {
        cur = cur / 128;
        n = n + 1;
    }
    n
}

fn read_groups_at(buf: &[u8], pos: usize, groups: u8) -> (r: Result<(u128, usize), VarintFault>)
    requires
        pos <= buf@.len(),
        groups <= MAX_GROUPS,
    ensures
        match read_groups(buf@.skip(pos as int), groups as nat) {
            Ok((x, rest)) => r matches Ok((y, end)) && y == x && pos < end <= buf@.len() && rest
                == buf@.skip(end as int),
            Err(e) => r == Err::<(u128, usize), VarintFault>(e),
        },
    decreases groups,
{
    if groups == 0 {
        return Err(VarintFault::TooLong);
    }
    if pos >= buf.len() {
        return Err(VarintFault::ShortRead);
    }
    let b: u8 = buf[pos];
    assert(buf@.skip(pos as int).skip(1) =~= buf@.skip(pos + 1));
    if b < 128 {
        return Ok((b as u128, pos + 1));
    }
    proof {
        lemma_read_groups_bound(buf@.skip(pos + 1), (groups - 1) as nat);
        lemma_pow128_monotone((groups - 1) as nat, 10);
        lemma_pow128_ten();
    }
    match read_groups_at(buf, pos + 1, groups - 1) {
        Ok((high, end)) => Ok(((b - 128) as u128 + 128 * high, end)),
        Err(e) => Err(e),
    }
}

/// Reads the integer that starts at `pos`; with it, the position behind it.
pub fn read_uleb_at(buf: &[u8], pos: usize) -> (r: Result<(u64, usize), VarintFault>)
    requires
        pos <= buf@.len(),
    ensures
        match read_uleb(buf@.skip(pos as int)) {
            Ok((x, rest)) => r matches Ok((y, end)) && y == x && pos < end <= buf@.len() && rest
                == buf@.skip(end as int),
            Err(e) => r == Err::<(u64, usize), VarintFault>(e),
        },
{
    match read_groups_at(buf, pos, MAX_GROUPS) {
        Ok((x, end)) => if x <= u64::MAX as u128 {
            Ok((x as u64, end))
        } else {
            Err(VarintFault::TooLong)
        },
        Err(e) => Err(e),
    }
}

/// The number that groups of seven bits stand for, the lowest group first.
pub open spec fn groups_value(s: Seq<u8>) -> nat
    decreases s.len(),
{
    if s.len() == 0 {
        0
    } else {
        (s[0] % 128) as nat + 128 * groups_value(s.skip(1))
    }
}

/// A number is written seven bits at a time, the lowest first; every byte but the last says that
/// another follows.
pub proof fn lemma_seven_bits_at_a_time(x: nat)
    ensures
        groups_value(uleb(x)) == x,
        uleb(x).len() > 0,
        uleb(x).last() < 128,
        forall|i: int| 0 <= i < uleb(x).len() - 1 ==> #[trigger] uleb(x)[i] >= 128,
    decreases x,
{
    let s = uleb(x);
    if x < 128 {
        assert(s.skip(1).len() == 0);
        assert(groups_value(s.skip(1)) == 0);
    } else {
        let rest = uleb(x / 128);
        lemma_seven_bits_at_a_time(x / 128);
        assert(s.skip(1) =~= rest);
        assert(s[0] == (x % 128 + 128) as u8);
        assert(s.last() == rest.last());
        assert forall|i: int| 0 <= i < s.len() - 1 implies #[trigger] s[i] >= 128 by {
            if i > 0 {
                assert(s[i] == rest[i - 1]);
            }
        }
    }
}

} // verus!
