//! Fixed-width integers, texts and shapes in byte strings.
//!
//! Each reader has a spec function from the bytes that are left to the value at their front and
//! the bytes behind it.
use vstd::prelude::*;
use vstd::string::*;
use crate::meta::{MessageClass, MessageDataType, MessageElement};
use crate::varint;

verus! {

/// What a reader at position `pos` of `buf` returned is what `m` says of the bytes from there on.
pub open spec fn reads<T>(
    r: Option<(T, usize)>,
    m: Option<(T, Seq<u8>)>,
    buf: Seq<u8>,
    pos: usize,
) -> bool {
    match m {
        Some((x, rest)) => r matches Some((y, end)) && y == x && pos <= end <= buf.len() && rest
            == buf.skip(end as int),
        None => r is None,
    }
}

/// `reads`, of a value known by its view.
pub open spec fn reads_view<T: View>(
    r: Option<(T, usize)>,
    m: Option<(T::V, Seq<u8>)>,
    buf: Seq<u8>,
    pos: usize,
) -> bool {
    match m {
        Some((x, rest)) => r matches Some((y, end)) && y@ == x && pos <= end <= buf.len() && rest
            == buf.skip(end as int),
        None => r is None,
    }
}

pub open spec fn le2(x: u16) -> Seq<u8> {
    seq![(x % 256) as u8, (x / 256) as u8]
}

pub open spec fn le4(x: u32) -> Seq<u8> {
    seq![
        (x % 256) as u8,
        (x / 256 % 256) as u8,
        (x / 65536 % 256) as u8,
        (x / 16777216) as u8,
    ]
}

pub open spec fn le8(x: u64) -> Seq<u8> {
    le4((x % 0x1_0000_0000) as u32) + le4((x / 0x1_0000_0000) as u32)
}

pub open spec fn read_le2(s: Seq<u8>) -> Option<(u16, Seq<u8>)> {
    if s.len() < 2 {
        None
    } else {
        Some(((s[0] + 256 * s[1]) as u16, s.skip(2)))
    }
}

pub open spec fn read_le4(s: Seq<u8>) -> Option<(u32, Seq<u8>)> {
    if s.len() < 4 {
        None
    } else {
        Some(((s[0] + 256 * s[1] + 65536 * s[2] + 16777216 * s[3]) as u32, s.skip(4)))
    }
}

pub open spec fn read_le8(s: Seq<u8>) -> Option<(u64, Seq<u8>)> {
    match read_le4(s) {
        Some((low, rest)) => match read_le4(rest) {
            Some((high, rest2)) => Some(((low + 0x1_0000_0000 * high) as u64, rest2)),
            None => None,
        },
        None => None,
    }
}

/// An unsigned LEB128 integer, without the reason where there is none.
pub open spec fn read_int(s: Seq<u8>) -> Option<(u64, Seq<u8>)> {
    match varint::read_uleb(s) {
        Ok((x, rest)) => Some((x, rest)),
        Err(_) => None,
    }
}

/// An unsigned LEB128 integer below 2^32.
pub open spec fn read_int32(s: Seq<u8>) -> Option<(u32, Seq<u8>)> {
    match read_int(s) {
        Some((x, rest)) => if x <= u32::MAX {
            Some((x as u32, rest))
        } else {
            None
        },
        None => None,
    }
}

/// A text: the number of its bytes, then its bytes in UTF-8.
pub open spec fn text_bytes(t: Seq<char>) -> Seq<u8> {
    varint::uleb(vstd::utf8::encode_utf8(t).len()) + vstd::utf8::encode_utf8(t)
}

pub open spec fn read_text(s: Seq<u8>) -> Option<(Seq<char>, Seq<u8>)> {
    match read_int(s) {
        Some((n, rest)) => if n <= rest.len() && vstd::utf8::valid_utf8(rest.take(n as int)) {
            Some((vstd::utf8::decode_utf8(rest.take(n as int)), rest.skip(n as int)))
        } else {
            None
        },
        None => None,
    }
}

/// A shape: element kind, class, and for a fixed number of elements that number.
pub open spec fn element_bytes(e: MessageElement) -> Seq<u8> {
    match e {
        MessageElement::Static(n, dt, c) => seq![1u8, dt.number(), c.number()] + varint::uleb(
            n as nat,
        ),
        MessageElement::Dynamic(dt, c) => seq![0u8, dt.number(), c.number()],
    }
}

pub open spec fn read_element(s: Seq<u8>) -> Option<(MessageElement, Seq<u8>)> {
    if s.len() < 3 || s[0] > 1 {
        None
    } else {
        match (MessageDataType::of_number(s[1]), MessageClass::of_number(s[2])) {
            (Some(dt), Some(c)) => if s[0] == 0 {
                Some((MessageElement::Dynamic(dt, c), s.skip(3)))
            } else {
                match read_int32(s.skip(3)) {
                    Some((n, rest)) => Some((MessageElement::Static(n, dt, c), rest)),
                    None => None,
                }
            },
            _ => None,
        }
    }
}

/// Fixed-width integers are read as they were written.
pub proof fn lemma_le_roundtrip(a: u16, b: u32, c: u64, rest: Seq<u8>)
    ensures
        read_le2(le2(a) + rest) == Some((a, rest)),
        read_le4(le4(b) + rest) == Some((b, rest)),
        read_le8(le8(c) + rest) == Some((c, rest)),
        le2(a).len() == 2,
        le4(b).len() == 4,
        le8(c).len() == 8,
{
    assert((le2(a) + rest).skip(2) =~= rest);
    lemma_le4_roundtrip(b, rest);
    let low = (c % 0x1_0000_0000) as u32;
    let high = (c / 0x1_0000_0000) as u32;
    lemma_le4_roundtrip(high, rest);
    lemma_le4_roundtrip(low, le4(high) + rest);
    assert(le8(c) + rest =~= le4(low) + (le4(high) + rest));
}

proof fn lemma_le4_roundtrip(b: u32, rest: Seq<u8>)
    ensures
        read_le4(le4(b) + rest) == Some((b, rest)),
{
    let s = le4(b) + rest;
    assert(s.skip(4) =~= rest);
    lemma_four_digits(b as int);
    assert(s[0] == b % 256 && s[1] == b / 256 % 256 && s[2] == b / 65536 % 256 && s[3] == b
        / 16777216);
}

proof fn lemma_four_digits(x: int)
    requires
        0 <= x < 0x1_0000_0000,
    ensures
        x == x % 256 + 256 * (x / 256 % 256) + 65536 * (x / 65536 % 256) + 16777216 * (x
            / 16777216),
{
    let a = x / 256;
    let b = a / 256;
    let c = b / 256;
    assert(x == 256 * a + x % 256);
    assert(a == 256 * b + a % 256);
    assert(b == 256 * c + b % 256);
    assert(b == x / 65536);
    assert(c == x / 16777216);
}

/// Integers are read as they were written.
pub proof fn lemma_int_roundtrip(x: u64, rest: Seq<u8>)
    ensures
        read_int(varint::uleb(x as nat) + rest) == Some((x, rest)),
        x <= u32::MAX ==> read_int32(varint::uleb(x as nat) + rest) == Some((x as u32, rest)),
{
    varint::lemma_uleb_roundtrip(x, rest);
}

/// Texts are read as they were written.
pub proof fn lemma_text_roundtrip(t: Seq<char>, rest: Seq<u8>)
    requires
        vstd::utf8::encode_utf8(t).len() <= u64::MAX,
    ensures
        read_text(text_bytes(t) + rest) == Some((t, rest)),
{
    let b = vstd::utf8::encode_utf8(t);
    lemma_int_roundtrip(b.len() as u64, b + rest);
    assert(text_bytes(t) + rest =~= varint::uleb(b.len()) + (b + rest));
    assert((b + rest).take(b.len() as int) =~= b);
    assert((b + rest).skip(b.len() as int) =~= rest);
    vstd::utf8::encode_utf8_valid_utf8(t);
    vstd::utf8::encode_utf8_decode_utf8(t);
}

/// Shapes are read as they were written.
pub proof fn lemma_element_roundtrip(e: MessageElement, rest: Seq<u8>)
    ensures
        read_element(element_bytes(e) + rest) == Some((e, rest)),
        3 <= element_bytes(e).len() <= 13,
{
    let s = element_bytes(e) + rest;
    match e {
        MessageElement::Static(n, dt, c) => {
            assert(s.skip(3) =~= varint::uleb(n as nat) + rest);
            lemma_int_roundtrip(n as u64, rest);
            varint::lemma_uleb_len(n as u64);
        },
        MessageElement::Dynamic(_, _) => {
            assert(s.skip(3) =~= rest);
        },
    }
}

pub fn read_le2_at(buf: &[u8], pos: usize) -> (r: Option<(u16, usize)>)
    requires
        pos <= buf@.len(),
    ensures
        reads(r, read_le2(buf@.skip(pos as int)), buf@, pos),
{
    if buf.len() - pos < 2 {
        return None;
    }
    assert(buf@.skip(pos as int).skip(2) =~= buf@.skip(pos + 2));
    Some((buf[pos] as u16 + 256 * (buf[pos + 1] as u16), pos + 2))
}

pub fn read_le4_at(buf: &[u8], pos: usize) -> (r: Option<(u32, usize)>)
    requires
        pos <= buf@.len(),
    ensures
        reads(r, read_le4(buf@.skip(pos as int)), buf@, pos),
{
    if buf.len() - pos < 4 {
        return None;
    }
    assert(buf@.skip(pos as int).skip(4) =~= buf@.skip(pos + 4));
    let x: u32 = buf[pos] as u32 + 256 * (buf[pos + 1] as u32) + 65536 * (buf[pos + 2] as u32)
        + 16777216 * (buf[pos + 3] as u32);
    Some((x, pos + 4))
}

pub fn read_le8_at(buf: &[u8], pos: usize) -> (r: Option<(u64, usize)>)
    requires
        pos <= buf@.len(),
    ensures
        reads(r, read_le8(buf@.skip(pos as int)), buf@, pos),
{
    match read_le4_at(buf, pos) {
        Some((low, p)) => match read_le4_at(buf, p) {
            Some((high, end)) => Some((low as u64 + 0x1_0000_0000 * (high as u64), end)),
            None => None,
        },
        None => None,
    }
}

pub fn read_int_at(buf: &[u8], pos: usize) -> (r: Option<(u64, usize)>)
    requires
        pos <= buf@.len(),
    ensures
        reads(r, read_int(buf@.skip(pos as int)), buf@, pos),
{
    match varint::read_uleb_at(buf, pos) {
        Ok((x, end)) => Some((x, end)),
        Err(_) => None,
    }
}

pub fn read_int32_at(buf: &[u8], pos: usize) -> (r: Option<(u32, usize)>)
    requires
        pos <= buf@.len(),
    ensures
        reads(r, read_int32(buf@.skip(pos as int)), buf@, pos),
{
    match read_int_at(buf, pos) {
        Some((x, end)) => if x <= u32::MAX as u64 {
            Some((x as u32, end))
        } else {
            None
        },
        None => None,
    }
}

/// The bytes from `from` up to `to`.
pub fn copy_range(buf: &[u8], from: usize, to: usize) -> (out: Vec<u8>)
    requires
        from <= to <= buf@.len(),
    ensures
        out@ == buf@.subrange(from as int, to as int),
{
    let mut out: Vec<u8> = Vec::new();
    let mut i: usize = from;
    while i < to
        invariant
            from <= i <= to <= buf@.len(),
            out@ == buf@.subrange(from as int, i as int),
        decreases to - i,
    {
        out.push(buf[i]);
        i = i + 1;
    }
    out
}

/// Calls `String::from_utf8`, which hands the bytes back as a text if and only if they are valid
/// UTF-8.
#[verifier::external_body]
fn utf8_string(bytes: Vec<u8>) -> (r: Option<String>)
    ensures
        r is Some <==> vstd::utf8::valid_utf8(bytes@),
        r matches Some(t) ==> t@ == vstd::utf8::decode_utf8(bytes@),
{
    String::from_utf8(bytes).ok()
}

/// The text of `bytes`, if they are valid UTF-8.
pub fn text_of(bytes: Vec<u8>) -> (r: Option<String>)
    ensures
        r is Some <==> vstd::utf8::valid_utf8(bytes@),
        r matches Some(t) ==> t@ == vstd::utf8::decode_utf8(bytes@),
{
    utf8_string(bytes)
}

pub fn read_text_at(buf: &[u8], pos: usize) -> (r: Option<(String, usize)>)
    requires
        pos <= buf@.len(),
    ensures
        reads_view(r, read_text(buf@.skip(pos as int)), buf@, pos),
{
    match read_int_at(buf, pos) {
        Some((n, p)) => {
            if n > (buf.len() - p) as u64 {
                return None;
            }
            let end: usize = p + n as usize;
            let ghost rest = buf@.skip(p as int);
            assert(rest.take(n as int) =~= buf@.subrange(p as int, end as int));
            assert(rest.skip(n as int) =~= buf@.skip(end as int));
            match text_of(copy_range(buf, p, end)) {
                Some(t) => Some((t, end)),
                None => None,
            }
        },
        None => None,
    }
}

pub fn read_element_at(buf: &[u8], pos: usize) -> (r: Option<(MessageElement, usize)>)
    requires
        pos <= buf@.len(),
    ensures
        reads(r, read_element(buf@.skip(pos as int)), buf@, pos),
{
    if buf.len() - pos < 3 || buf[pos] > 1 {
        return None;
    }
    assert(buf@.skip(pos as int).skip(3) =~= buf@.skip(pos + 3));
    match (MessageDataType::from_number(buf[pos + 1]), MessageClass::from_number(buf[pos + 2])) {
        (Some(dt), Some(c)) => if buf[pos] == 0 {
            Some((MessageElement::Dynamic(dt, c), pos + 3))
        } else {
            match read_int32_at(buf, pos + 3) {
                Some((n, end)) => Some((MessageElement::Static(n, dt, c), end)),
                None => None,
            }
        },
        _ => None,
    }
}

pub fn write_le2(out: &mut Vec<u8>, x: u16)
    ensures
        final(out)@ == old(out)@ + le2(x),
{
    out.push((x % 256) as u8);
    out.push((x / 256) as u8);
}

pub fn write_le4(out: &mut Vec<u8>, x: u32)
    ensures
        final(out)@ == old(out)@ + le4(x),
{
    out.push((x % 256) as u8);
    out.push((x / 256 % 256) as u8);
    out.push((x / 65536 % 256) as u8);
    out.push((x / 16777216) as u8);
}

pub fn write_le8(out: &mut Vec<u8>, x: u64)
    ensures
        final(out)@ == old(out)@ + le8(x),
{
    write_le4(out, (x % 0x1_0000_0000) as u32);
    write_le4(out, (x / 0x1_0000_0000) as u32);
}

/// Appends all of `bytes`.
pub fn write_bytes(out: &mut Vec<u8>, bytes: &[u8])
    ensures
        final(out)@ == old(out)@ + bytes@,
{
    let mut i: usize = 0;
    while i < bytes.len()
        invariant
            i <= bytes@.len(),
            out@ == old(out)@ + bytes@.take(i as int),
        decreases bytes@.len() - i,
    {
        out.push(bytes[i]);
        i = i + 1;
    }
    assert(bytes@.take(i as int) =~= bytes@);
}

pub fn write_text(out: &mut Vec<u8>, t: &str)
    ensures
        final(out)@ == old(out)@ + text_bytes(t@),
{
    let bytes: &[u8] = t.as_bytes();
    varint::write_uleb(out, bytes.len() as u64);
    write_bytes(out, bytes);
}

pub fn write_element(out: &mut Vec<u8>, e: MessageElement)
    ensures
        final(out)@ == old(out)@ + element_bytes(e),
{
    match e {
        MessageElement::Static(n, dt, c) => {
            out.push(1);
            out.push(dt.as_number());
            out.push(c.as_number());
            varint::write_uleb(out, n as u64);
        },
        MessageElement::Dynamic(dt, c) => {
            out.push(0);
            out.push(dt.as_number());
            out.push(c.as_number());
        },
    }
}

/// Whether two byte strings are the same.
pub fn same_bytes(a: &[u8], b: &[u8]) -> (r: bool)
    ensures
        r == (a@ == b@),
{
    if a.len() != b.len() {
        return false;
    }
    let mut i: usize = 0;
    while i < a.len()
        invariant
            i <= a@.len() == b@.len(),
            forall|j: int| 0 <= j < i ==> a@[j] == b@[j],
        decreases a@.len() - i,
    {
        if a[i] != b[i] {
            return false;
        }
        i = i + 1;
    }
    assert(a@ =~= b@);
    true
}

/// Lexicographic order of byte strings.
pub open spec fn lex_less(a: Seq<u8>, b: Seq<u8>) -> bool
    decreases b.len(),
{
    if b.len() == 0 {
        false
    } else if a.len() == 0 {
        true
    } else if a[0] != b[0] {
        a[0] < b[0]
    } else {
        lex_less(a.skip(1), b.skip(1))
    }
}

/// Of two byte strings exactly one of three holds: one is less, the other is, they are the same.
pub proof fn lemma_lex_trichotomy(a: Seq<u8>, b: Seq<u8>)
    ensures
        lex_less(a, b) || lex_less(b, a) || a == b,
        !(lex_less(a, b) && lex_less(b, a)),
        a == b ==> !lex_less(a, b),
    decreases b.len(),
{
    if a.len() > 0 && b.len() > 0 && a[0] == b[0] {
        lemma_lex_trichotomy(a.skip(1), b.skip(1));
        if a.skip(1) == b.skip(1) {
            assert(a =~= seq![a[0]] + a.skip(1));
            assert(b =~= seq![b[0]] + b.skip(1));
        }
    } else if a.len() == 0 && b.len() == 0 {
        assert(a =~= b);
    }
}

/// The order is transitive.
pub proof fn lemma_lex_transitive(a: Seq<u8>, b: Seq<u8>, c: Seq<u8>)
    requires
        lex_less(a, b),
        lex_less(b, c),
    ensures
        lex_less(a, c),
    decreases c.len(),
{
    if a.len() > 0 && a[0] == b[0] && b[0] == c[0] {
        lemma_lex_transitive(a.skip(1), b.skip(1), c.skip(1));
    }
}

/// Whether `a` comes before `b`.
pub fn less_bytes(a: &[u8], b: &[u8]) -> (r: bool)
    ensures
        r == lex_less(a@, b@),
{
    let mut i: usize = 0;
    assert(a@.skip(0) =~= a@);
    assert(b@.skip(0) =~= b@);
    while i < a.len() && i < b.len() && a[i] == b[i]
        invariant
            i <= a@.len(),
            i <= b@.len(),
            lex_less(a@, b@) == lex_less(a@.skip(i as int), b@.skip(i as int)),
        decreases a@.len() - i,
    {
        assert(a@.skip(i as int).skip(1) =~= a@.skip(i + 1));
        assert(b@.skip(i as int).skip(1) =~= b@.skip(i + 1));
        i = i + 1;
    }
    if i >= b.len() {
        false
    } else if i >= a.len() {
        true
    } else {
        a[i] < b[i]
    }
}

/// Whether `list` holds `x`.
pub fn contains_u32(list: &[u32], x: u32) -> (r: bool)
    ensures
        r == list@.contains(x),
{
    let mut i: usize = 0;
    while i < list.len()
        invariant
            i <= list@.len(),
            forall|j: int| 0 <= j < i ==> list@[j] != x,
        decreases list@.len() - i,
    {
        if list[i] == x {
            return true;
        }
        i = i + 1;
    }
    false
}

/// Whether two lists are the same.
pub fn same_u32(a: &[u32], b: &[u32]) -> (r: bool)
    ensures
        r == (a@ == b@),
{
    if a.len() != b.len() {
        return false;
    }
    let mut i: usize = 0;
    while i < a.len()
        invariant
            i <= a@.len() == b@.len(),
            forall|j: int| 0 <= j < i ==> a@[j] == b@[j],
        decreases a@.len() - i,
    {
        if a[i] != b[i] {
            return false;
        }
        i = i + 1;
    }
    assert(a@ =~= b@);
    true
}

/// A copy of `list`.
pub fn copy_u32(list: &[u32]) -> (out: Vec<u32>)
    ensures
        out@ == list@,
{
    let mut out: Vec<u32> = Vec::new();
    let mut i: usize = 0;
    while i < list.len()
        invariant
            i <= list@.len(),
            out@ == list@.take(i as int),
        decreases list@.len() - i,
    {
        out.push(list[i]);
        i = i + 1;
    }
    assert(list@.take(i as int) =~= list@);
    out
}

} // verus!
