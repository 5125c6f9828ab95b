//! Frames: packets as they travel.
//!
//! A frame is a flag byte, five integers, the sections that the flags announce, the payload, and
//! a checksum over all of it.
use vstd::prelude::*;
use vstd::string::*;
use crate::codec;
use crate::crc32;
use crate::definition::{DataTypeDefinition, TypeSpec};
use crate::endpoint_set;
use crate::error::{TelemetryError, TelemetryResult};
use crate::hash;
use crate::meta::{DataEndpoint, DataType, MessageElement};
use crate::packet;
use crate::packet::{Packet, PacketSpec, MAX_PAYLOAD};
use crate::registry;
use crate::registry::Registry;
use crate::rle;
use crate::schema;
use crate::schema::Schema;
use crate::varint;
use crate::varint::VarintFault;

verus! {

/// Bytes of the checksum at the end of a frame.
pub const CRC32_BYTES: usize = 4;

/// Shortest payload that is compressed.
pub const COMPRESSION_THRESHOLD: usize = 16;

/// Bytes of a reliable header of fixed length.
pub const FIXED_RELIABLE_BYTES: usize = 9;

/// Flag of a reliable header: the frame carries an acknowledgement and no payload.
pub const RELIABLE_FLAG_ACK_ONLY: u8 = 1;

/// Flag of a reliable header: the frame has no place in the sequence.
pub const RELIABLE_FLAG_UNSEQUENCED: u8 = 2;

/// Sequence numbers that a frame carries over one link.
#[derive(Debug, Clone, Copy, PartialEq, Eq, Structural)]
pub struct ReliableHeader {
    pub flags: u8,
    pub seq: u32,
    pub ack: u32,
}

/// Why bytes are no frame.
#[derive(Debug, Clone, Copy, PartialEq, Eq, Structural)]
pub enum FrameFault {
    ShortRead,
    TooLong,
    BadCrc,
    BadFlags,
    BadNumber,
    UnknownType,
    BadEndpoint,
    BadShape,
    BadReliable,
    BadPayload,
    AckOnly,
    /// The payload does not have the length that its shape asks for.
    Size { expected: usize, got: usize },
}

impl FrameFault {
    /// The fault in words.
    pub open spec fn words(self) -> Seq<char> {
        match self {
            FrameFault::ShortRead => "short read"@,
            FrameFault::TooLong => "uleb128 too long"@,
            FrameFault::BadCrc => "crc mismatch"@,
            FrameFault::BadFlags => "bad flags"@,
            FrameFault::BadNumber => "number out of range"@,
            FrameFault::UnknownType => "unknown data type"@,
            FrameFault::BadEndpoint => "bad endpoint"@,
            FrameFault::BadShape => "bad shape"@,
            FrameFault::BadReliable => "bad reliable header"@,
            FrameFault::BadPayload => "bad payload"@,
            FrameFault::AckOnly => "acknowledgement without packet"@,
            FrameFault::Size { .. } => "size mismatch"@,
        }
    }

    /// Whether `e` is the error that reports the fault.
    pub open spec fn reported_by(self, e: TelemetryError) -> bool {
        match self {
            FrameFault::Size { expected, got } => e == (TelemetryError::SizeMismatch {
                expected,
                got,
            }),
            _ => e matches TelemetryError::Unpack(m) && m@ == self.words(),
        }
    }

    /// The error that reports the fault.
    pub fn to_error(self) -> (e: TelemetryError)
        ensures
            self.reported_by(e),
    {
        match self {
            FrameFault::ShortRead => TelemetryError::Unpack("short read"),
            FrameFault::TooLong => TelemetryError::Unpack("uleb128 too long"),
            FrameFault::BadCrc => TelemetryError::Unpack("crc mismatch"),
            FrameFault::BadFlags => TelemetryError::Unpack("bad flags"),
            FrameFault::BadNumber => TelemetryError::Unpack("number out of range"),
            FrameFault::UnknownType => TelemetryError::Unpack("unknown data type"),
            FrameFault::BadEndpoint => TelemetryError::Unpack("bad endpoint"),
            FrameFault::BadShape => TelemetryError::Unpack("bad shape"),
            FrameFault::BadReliable => TelemetryError::Unpack("bad reliable header"),
            FrameFault::BadPayload => TelemetryError::Unpack("bad payload"),
            FrameFault::AckOnly => TelemetryError::Unpack("acknowledgement without packet"),
            FrameFault::Size { expected, got } => TelemetryError::SizeMismatch { expected, got },
        }
    }
}

/// The sections that a frame has.
#[derive(Debug, Clone, Copy, PartialEq, Eq, Structural)]
pub struct FrameFlags {
    /// The payload is compressed.
    pub compressed: bool,
    /// The frame says what shape its payload has.
    pub shape: bool,
    /// The frame names the boards that it is for.
    pub targets: bool,
    /// The frame has a reliable header of fixed length.
    pub fixed_reliable: bool,
    /// The frame names its endpoints.
    pub bitmap: bool,
    /// The frame has a compact reliable header.
    pub compact_reliable: bool,
}

pub open spec fn part(b: bool, w: int) -> int {
    if b {
        w
    } else {
        0
    }
}

/// The flag byte.
pub open spec fn flag_byte(f: FrameFlags) -> u8 {
    (part(f.compressed, 1) + part(f.shape, 2) + part(f.targets, 4) + part(f.fixed_reliable, 8)
        + part(f.bitmap, 32) + part(f.compact_reliable, 64)) as u8
}

/// What a flag byte says.
pub open spec fn read_flags(b: u8) -> Result<FrameFlags, FrameFault> {
    if b / 16 % 2 == 1 || b / 128 == 1 || (b / 8 % 2 == 1 && b / 64 % 2 == 1) {
        Err(FrameFault::BadFlags)
    } else {
        Ok(
            FrameFlags {
                compressed: b % 2 == 1,
                shape: b / 2 % 2 == 1,
                targets: b / 4 % 2 == 1,
                fixed_reliable: b / 8 % 2 == 1,
                bitmap: b / 32 % 2 == 1,
                compact_reliable: b / 64 % 2 == 1,
            },
        )
    }
}

proof fn lemma_flags_roundtrip(f: FrameFlags)
    requires
        !(f.fixed_reliable && f.compact_reliable),
    ensures
        read_flags(flag_byte(f)) == Ok::<FrameFlags, FrameFault>(f),
{
    let b = flag_byte(f);
    assert(b % 2 == part(f.compressed, 1));
    assert(b / 2 % 2 == part(f.shape, 1));
    assert(b / 4 % 2 == part(f.targets, 1));
    assert(b / 8 % 2 == part(f.fixed_reliable, 1));
    assert(b / 16 % 2 == 0);
    assert(b / 32 % 2 == part(f.bitmap, 1));
    assert(b / 64 % 2 == part(f.compact_reliable, 1));
    assert(b / 128 == 0);
}

/// The integers at the front of a frame.
#[derive(Debug, Clone, Copy, PartialEq, Eq, Structural)]
pub struct Scalars {
    pub ty: DataType,
    /// Bytes of the payload before compression.
    pub size: u64,
    pub timestamp: u64,
    pub address: u32,
    pub nonce: u16,
}

pub open spec fn scalar_bytes(x: Scalars) -> Seq<u8> {
    varint::uleb(x.ty as nat) + varint::uleb(x.size as nat) + varint::uleb(x.timestamp as nat)
        + varint::uleb(x.address as nat) + varint::uleb(x.nonce as nat)
}

/// An integer of at most `max`.
pub open spec fn read_bounded(s: Seq<u8>, max: u64) -> Result<(u64, Seq<u8>), FrameFault> {
    match varint::read_uleb(s) {
        Ok((x, rest)) => if x <= max {
            Ok((x, rest))
        } else {
            Err(FrameFault::BadNumber)
        },
        Err(VarintFault::ShortRead) => Err(FrameFault::ShortRead),
        Err(VarintFault::TooLong) => Err(FrameFault::TooLong),
    }
}

pub open spec fn read_scalars(s: Seq<u8>) -> Result<(Scalars, Seq<u8>), FrameFault> {
    match read_bounded(s, u32::MAX as u64) {
        Err(e) => Err(e),
        Ok((ty, s1)) => match read_bounded(s1, MAX_PAYLOAD) {
            Err(e) => Err(e),
            Ok((size, s2)) => match read_bounded(s2, u64::MAX) {
                Err(e) => Err(e),
                Ok((timestamp, s3)) => match read_bounded(s3, u32::MAX as u64) {
                    Err(e) => Err(e),
                    Ok((address, s4)) => match read_bounded(s4, u16::MAX as u64) {
                        Err(e) => Err(e),
                        Ok((nonce, s5)) => Ok(
                            (
                                Scalars {
                                    ty: ty as u32,
                                    size,
                                    timestamp,
                                    address: address as u32,
                                    nonce: nonce as u16,
                                },
                                s5,
                            ),
                        ),
                    },
                },
            },
        },
    }
}

proof fn lemma_scalars_roundtrip(x: Scalars, rest: Seq<u8>)
    requires
        x.size <= MAX_PAYLOAD,
    ensures
        read_scalars(scalar_bytes(x) + rest) == Ok::<(Scalars, Seq<u8>), FrameFault>((x, rest)),
{
    let a = varint::uleb(x.ty as nat);
    let b = varint::uleb(x.size as nat);
    let c = varint::uleb(x.timestamp as nat);
    let d = varint::uleb(x.address as nat);
    let e = varint::uleb(x.nonce as nat);
    vstd::seq_lib::lemma_concat_associative(a + b + c + d, e, rest);
    vstd::seq_lib::lemma_concat_associative(a + b + c, d, e + rest);
    vstd::seq_lib::lemma_concat_associative(a + b, c, d + (e + rest));
    vstd::seq_lib::lemma_concat_associative(a, b, c + (d + (e + rest)));
    varint::lemma_uleb_roundtrip(x.ty as u64, b + (c + (d + (e + rest))));
    varint::lemma_uleb_roundtrip(x.size, c + (d + (e + rest)));
    varint::lemma_uleb_roundtrip(x.timestamp, d + (e + rest));
    varint::lemma_uleb_roundtrip(x.address as u64, e + rest);
    varint::lemma_uleb_roundtrip(x.nonce as u64, rest);
}

/// The endpoints of a frame: those of its bit map, or those that its type goes to.
pub open spec fn read_endpoints(
    sc: schema::SchemaSpec,
    t: TypeSpec,
    has: bool,
    s: Seq<u8>,
) -> Result<(Seq<DataEndpoint>, Seq<u8>), FrameFault> {
    if has {
        if s.len() < endpoint_set::BITMAP_BYTES {
            Err(FrameFault::ShortRead)
        } else {
            let eps = endpoint_set::members(
                s.take(endpoint_set::BITMAP_BYTES as int),
                endpoint_set::BITMAP_BITS as nat,
            );
            if eps.len() == 0 || !sc.knows_all(eps) {
                Err(FrameFault::BadEndpoint)
            } else {
                Ok((eps, s.skip(endpoint_set::BITMAP_BYTES as int)))
            }
        }
    } else {
        let eps = endpoint_set::canonical(t.endpoints);
        if eps.len() == 0 {
            Err(FrameFault::BadEndpoint)
        } else {
            Ok((eps, s))
        }
    }
}

/// The shape of a frame's payload: that which the frame says, or that of its type.
pub open spec fn read_shape(t: TypeSpec, has: bool, s: Seq<u8>) -> Result<
    (MessageElement, Seq<u8>),
    FrameFault,
> {
    if has {
        match codec::read_element(s) {
            Some((e, rest)) => Ok((e, rest)),
            None => Err(FrameFault::BadShape),
        }
    } else {
        Ok((t.element, s))
    }
}

pub open spec fn target_items(v: Seq<u64>) -> Seq<u8>
    decreases v.len(),
{
    if v.len() == 0 {
        Seq::<u8>::empty()
    } else {
        codec::le8(v[0]) + target_items(v.skip(1))
    }
}

/// The boards that a frame is for: how many, then the hash of each.
pub open spec fn target_bytes(v: Seq<u64>) -> Seq<u8> {
    varint::uleb(v.len()) + target_items(v)
}

pub open spec fn read_target_items(s: Seq<u8>, n: nat) -> Result<(Seq<u64>, Seq<u8>), FrameFault>
    decreases n,
{
    if n == 0 {
        Ok((Seq::<u64>::empty(), s))
    } else {
        match codec::read_le8(s) {
            None => Err(FrameFault::ShortRead),
            Some((x, s1)) => match read_target_items(s1, (n - 1) as nat) {
                Err(e) => Err(e),
                Ok((v, s2)) => Ok((seq![x] + v, s2)),
            },
        }
    }
}

pub open spec fn read_targets(has: bool, s: Seq<u8>) -> Result<(Seq<u64>, Seq<u8>), FrameFault> {
    if has {
        match read_bounded(s, u64::MAX) {
            Err(e) => Err(e),
            Ok((n, s1)) => read_target_items(s1, n as nat),
        }
    } else {
        Ok((Seq::<u64>::empty(), s))
    }
}

proof fn lemma_target_items_roundtrip(v: Seq<u64>, rest: Seq<u8>)
    ensures
        read_target_items(target_items(v) + rest, v.len()) == Ok::<
            (Seq<u64>, Seq<u8>),
            FrameFault,
        >((v, rest)),
    decreases v.len(),
{
    if v.len() == 0 {
        assert(target_items(v) + rest =~= rest);
        assert(v =~= Seq::<u64>::empty());
    } else {
        let tail = target_items(v.skip(1));
        assert(target_items(v) + rest =~= codec::le8(v[0]) + (tail + rest));
        codec::lemma_le_roundtrip(0, 0, v[0], tail + rest);
        lemma_target_items_roundtrip(v.skip(1), rest);
        assert(seq![v[0]] + v.skip(1) =~= v);
    }
}

/// A compact reliable header: one byte that says which numbers follow, then those.
pub open spec fn compact_reliable_bytes(h: ReliableHeader) -> Seq<u8> {
    seq![(h.flags + part(h.seq != 0, 4) + part(h.ack != 0, 8)) as u8] + (if h.seq != 0 {
        varint::uleb(h.seq as nat)
    } else {
        Seq::<u8>::empty()
    }) + (if h.ack != 0 {
        varint::uleb(h.ack as nat)
    } else {
        Seq::<u8>::empty()
    })
}

/// Whether a reliable header is written in compact form: where it can be and is shorter so.
pub open spec fn goes_compact(h: ReliableHeader) -> bool {
    h.flags < 4 && compact_reliable_bytes(h).len() < FIXED_RELIABLE_BYTES
}

pub open spec fn reliable_bytes(h: Option<ReliableHeader>) -> Seq<u8> {
    match h {
        None => Seq::<u8>::empty(),
        Some(h) => if goes_compact(h) {
            compact_reliable_bytes(h)
        } else {
            seq![h.flags] + codec::le4(h.seq) + codec::le4(h.ack)
        },
    }
}

/// An integer below 2^32 that is there where `has` says so, else 0.
pub open spec fn read_optional(has: bool, s: Seq<u8>) -> Result<(u32, Seq<u8>), FrameFault> {
    if has {
        match read_bounded(s, u32::MAX as u64) {
            Err(e) => Err(e),
            Ok((x, rest)) => Ok((x as u32, rest)),
        }
    } else {
        Ok((0, s))
    }
}

pub open spec fn read_reliable(f: FrameFlags, s: Seq<u8>) -> Result<
    (Option<ReliableHeader>, Seq<u8>),
    FrameFault,
> {
    if f.fixed_reliable {
        if s.len() < FIXED_RELIABLE_BYTES {
            Err(FrameFault::ShortRead)
        } else {
            let seq = codec::read_le4(s.skip(1))->Some_0.0;
            let ack = codec::read_le4(s.skip(5))->Some_0.0;
            Ok((Some(ReliableHeader { flags: s[0], seq, ack }), s.skip(9)))
        }
    } else if f.compact_reliable {
        if s.len() == 0 {
            Err(FrameFault::ShortRead)
        } else if s[0] >= 16 {
            Err(FrameFault::BadReliable)
        } else {
            match read_optional(s[0] / 4 % 2 == 1, s.skip(1)) {
                Err(e) => Err(e),
                Ok((seq, s1)) => match read_optional(s[0] / 8 == 1, s1) {
                    Err(e) => Err(e),
                    Ok((ack, s2)) => Ok(
                        (Some(ReliableHeader { flags: s[0] % 4, seq, ack }), s2),
                    ),
                },
            }
        }
    } else {
        Ok((None, s))
    }
}

proof fn lemma_reliable_roundtrip(h: Option<ReliableHeader>, f: FrameFlags, rest: Seq<u8>)
    requires
        f.fixed_reliable == (h matches Some(x) && !goes_compact(x)),
        f.compact_reliable == (h matches Some(x) && goes_compact(x)),
    ensures
        read_reliable(f, reliable_bytes(h) + rest) == Ok::<
            (Option<ReliableHeader>, Seq<u8>),
            FrameFault,
        >((h, rest)),
{
    let s = reliable_bytes(h) + rest;
    match h {
        None => {
            assert(s =~= rest);
        },
        Some(x) => {
            if goes_compact(x) {
                let c = (x.flags + part(x.seq != 0, 4) + part(x.ack != 0, 8)) as u8;
                let a = if x.seq != 0 {
                    varint::uleb(x.seq as nat)
                } else {
                    Seq::<u8>::empty()
                };
                let b = if x.ack != 0 {
                    varint::uleb(x.ack as nat)
                } else {
                    Seq::<u8>::empty()
                };
                assert(s.skip(1) =~= a + (b + rest));
                assert(c < 16);
                assert(c % 4 == x.flags);
                assert(c / 4 % 2 == part(x.seq != 0, 1));
                assert(c / 8 == part(x.ack != 0, 1));
                varint::lemma_uleb_roundtrip(x.seq as u64, b + rest);
                varint::lemma_uleb_roundtrip(x.ack as u64, rest);
                if x.seq == 0 {
                    assert(a + (b + rest) =~= b + rest);
                }
                if x.ack == 0 {
                    assert(b + rest =~= rest);
                }
            } else {
                assert(s.skip(1) =~= codec::le4(x.seq) + (codec::le4(x.ack) + rest));
                assert(s.skip(5) =~= codec::le4(x.ack) + rest);
                assert(s.skip(9) =~= rest);
                codec::lemma_le_roundtrip(0, x.seq, 0, codec::le4(x.ack) + rest);
                codec::lemma_le_roundtrip(0, x.ack, 0, rest);
            }
        },
    }
}

/// Everything of a frame but its payload.
pub struct HeadSpec {
    pub flags: FrameFlags,
    pub scalars: Scalars,
    pub endpoints: Seq<DataEndpoint>,
    pub element: MessageElement,
    pub targets: Seq<u64>,
    pub reliable: Option<ReliableHeader>,
}

/// The sections behind the integers of a frame.
pub open spec fn read_sections(
    sc: schema::SchemaSpec,
    t: TypeSpec,
    flags: FrameFlags,
    scalars: Scalars,
    s: Seq<u8>,
) -> Result<(HeadSpec, Seq<u8>), FrameFault> {
    match read_endpoints(sc, t, flags.bitmap, s) {
        Err(e) => Err(e),
        Ok((endpoints, s1)) => match read_shape(t, flags.shape, s1) {
            Err(e) => Err(e),
            Ok((element, s2)) => match read_targets(flags.targets, s2) {
                Err(e) => Err(e),
                Ok((targets, s3)) => match read_reliable(flags, s3) {
                    Err(e) => Err(e),
                    Ok((reliable, s4)) => Ok(
                        (HeadSpec { flags, scalars, endpoints, element, targets, reliable }, s4),
                    ),
                },
            },
        },
    }
}

/// The head of the frame body `s`, and the bytes of its payload.
pub open spec fn read_head(sc: schema::SchemaSpec, s: Seq<u8>) -> Result<
    (HeadSpec, Seq<u8>),
    FrameFault,
> {
    if s.len() == 0 {
        Err(FrameFault::ShortRead)
    } else {
        match read_flags(s[0]) {
            Err(e) => Err(e),
            Ok(flags) => match read_scalars(s.skip(1)) {
                Err(e) => Err(e),
                Ok((scalars, s1)) => match sc.message(scalars.ty) {
                    None => Err(FrameFault::UnknownType),
                    Some(t) => read_sections(sc, t, flags, scalars, s1),
                },
            },
        }
    }
}

/// Whether the bytes `t` are the end of `s`.
pub open spec fn is_tail(s: Seq<u8>, t: Seq<u8>) -> bool {
    t.len() <= s.len() && t == s.skip(s.len() - t.len())
}

proof fn lemma_tails_nest(s: Seq<u8>, t: Seq<u8>, u: Seq<u8>)
    requires
        is_tail(s, t),
        is_tail(t, u),
    ensures
        is_tail(s, u),
{
    assert(s.skip(s.len() - t.len()).skip(t.len() - u.len()) =~= s.skip(s.len() - u.len()));
}

proof fn lemma_skip_is_tail(s: Seq<u8>, n: int)
    requires
        0 <= n <= s.len(),
    ensures
        is_tail(s, s.skip(n)),
{
}

proof fn lemma_bounded_tail(s: Seq<u8>, max: u64)
    ensures
        read_bounded(s, max) matches Ok((_, t)) ==> is_tail(s, t),
{
    varint::lemma_read_uleb_suffix(s);
}

proof fn lemma_scalars_tail(s: Seq<u8>)
    ensures
        read_scalars(s) matches Ok((_, t)) ==> is_tail(s, t),
{
    if let Ok((_, t)) = read_scalars(s) {
        let s1 = read_bounded(s, u32::MAX as u64)->Ok_0.1;
        let s2 = read_bounded(s1, MAX_PAYLOAD)->Ok_0.1;
        let s3 = read_bounded(s2, u64::MAX)->Ok_0.1;
        let s4 = read_bounded(s3, u32::MAX as u64)->Ok_0.1;
        lemma_bounded_tail(s, u32::MAX as u64);
        lemma_bounded_tail(s1, MAX_PAYLOAD);
        lemma_bounded_tail(s2, u64::MAX);
        lemma_bounded_tail(s3, u32::MAX as u64);
        lemma_bounded_tail(s4, u16::MAX as u64);
        lemma_tails_nest(s, s1, s2);
        lemma_tails_nest(s, s2, s3);
        lemma_tails_nest(s, s3, s4);
        lemma_tails_nest(s, s4, t);
    }
}

proof fn lemma_shape_tail(t: TypeSpec, has: bool, s: Seq<u8>)
    ensures
        read_shape(t, has, s) matches Ok((_, u)) ==> is_tail(s, u),
{
    if let Ok((_, u)) = read_shape(t, has, s) {
        if has {
            varint::lemma_read_uleb_suffix(s.skip(3));
            lemma_skip_is_tail(s, 3);
            if s[0] != 0 {
                lemma_tails_nest(s, s.skip(3), u);
            }
        } else {
            lemma_skip_is_tail(s, 0);
            assert(s.skip(0) =~= s);
        }
    }
}

proof fn lemma_target_items_tail(s: Seq<u8>, n: nat)
    ensures
        read_target_items(s, n) matches Ok((_, t)) ==> is_tail(s, t),
    decreases n,
{
    if n == 0 {
        assert(s.skip(0) =~= s);
    } else if let Some((x, s1)) = codec::read_le8(s) {
        assert(s.skip(4).skip(4) =~= s.skip(8));
        lemma_target_items_tail(s1, (n - 1) as nat);
        if let Ok((_, t)) = read_target_items(s, n) {
            lemma_tails_nest(s, s1, t);
        }
    }
}

proof fn lemma_targets_tail(has: bool, s: Seq<u8>)
    ensures
        read_targets(has, s) matches Ok((_, t)) ==> is_tail(s, t),
{
    if let Ok((_, t)) = read_targets(has, s) {
        if has {
            let (n, s1) = read_bounded(s, u64::MAX)->Ok_0;
            lemma_bounded_tail(s, u64::MAX);
            lemma_target_items_tail(s1, n as nat);
            lemma_tails_nest(s, s1, t);
        } else {
            assert(s.skip(0) =~= s);
        }
    }
}

proof fn lemma_optional_tail(has: bool, s: Seq<u8>)
    ensures
        read_optional(has, s) matches Ok((_, t)) ==> is_tail(s, t),
{
    lemma_bounded_tail(s, u32::MAX as u64);
    assert(s.skip(0) =~= s);
}

proof fn lemma_reliable_tail(f: FrameFlags, s: Seq<u8>)
    ensures
        read_reliable(f, s) matches Ok((_, t)) ==> is_tail(s, t),
{
    if let Ok((_, t)) = read_reliable(f, s) {
        if f.fixed_reliable {
            lemma_skip_is_tail(s, 9);
        } else if f.compact_reliable {
            let s1 = read_optional(s[0] / 4 % 2 == 1, s.skip(1))->Ok_0.1;
            lemma_skip_is_tail(s, 1);
            lemma_optional_tail(s[0] / 4 % 2 == 1, s.skip(1));
            lemma_optional_tail(s[0] / 8 == 1, s1);
            lemma_tails_nest(s, s.skip(1), s1);
            lemma_tails_nest(s, s1, t);
        } else {
            assert(s.skip(0) =~= s);
        }
    }
}

proof fn lemma_endpoints_tail(sc: schema::SchemaSpec, t: TypeSpec, has: bool, s: Seq<u8>)
    ensures
        read_endpoints(sc, t, has, s) matches Ok((_, u)) ==> is_tail(s, u),
{
    assert(s.skip(0) =~= s);
}

/// The payload of a frame stands at the end of its body.
pub proof fn lemma_payload_is_tail(sc: schema::SchemaSpec, w: Seq<u8>)
    ensures
        peek(sc, w) matches Ok((_, t)) ==> checked_body(w) is Ok && is_tail(
            checked_body(w)->Ok_0,
            t,
        ),
{
    if let Ok((h, u)) = peek(sc, w) {
        let s = checked_body(w)->Ok_0;
        let t = sc.message(h.scalars.ty)->Some_0;
        let s1 = read_scalars(s.skip(1))->Ok_0.1;
        let s2 = read_endpoints(sc, t, h.flags.bitmap, s1)->Ok_0.1;
        let s3 = read_shape(t, h.flags.shape, s2)->Ok_0.1;
        let s4 = read_targets(h.flags.targets, s3)->Ok_0.1;
        lemma_skip_is_tail(s, 1);
        lemma_scalars_tail(s.skip(1));
        lemma_endpoints_tail(sc, t, h.flags.bitmap, s1);
        lemma_shape_tail(t, h.flags.shape, s2);
        lemma_targets_tail(h.flags.targets, s3);
        lemma_reliable_tail(h.flags, s4);
        lemma_tails_nest(s, s.skip(1), s1);
        lemma_tails_nest(s, s1, s2);
        lemma_tails_nest(s, s2, s3);
        lemma_tails_nest(s, s3, s4);
        lemma_tails_nest(s, s4, u);
    }
}

/// The payload that the bytes behind a head stand for.
pub open spec fn read_payload(h: HeadSpec, s: Seq<u8>) -> Result<Seq<u8>, FrameFault> {
    let plain = if h.flags.compressed {
        rle::expand(s)
    } else {
        Some(s)
    };
    match plain {
        Some(b) => if b.len() == h.scalars.size {
            Ok(b)
        } else {
            Err(FrameFault::BadPayload)
        },
        None => Err(FrameFault::BadPayload),
    }
}

/// A frame without its checksum, if the checksum is right.
pub open spec fn checked_body(w: Seq<u8>) -> Result<Seq<u8>, FrameFault> {
    if w.len() < CRC32_BYTES {
        Err(FrameFault::ShortRead)
    } else {
        let body = w.take(w.len() - CRC32_BYTES);
        if w.skip(w.len() - CRC32_BYTES) == codec::le4(crc32::crc32(body)) {
            Ok(body)
        } else {
            Err(FrameFault::BadCrc)
        }
    }
}

/// The packet that a head and a payload make.
pub open spec fn packet_of(names: Seq<Seq<char>>, h: HeadSpec, payload: Seq<u8>) -> PacketSpec {
    PacketSpec {
        ty: h.scalars.ty,
        endpoints: h.endpoints,
        sender: registry::sender_label(names, h.scalars.address),
        address: h.scalars.address,
        timestamp: h.scalars.timestamp,
        payload,
        nonce: h.scalars.nonce,
        element: h.element,
        inline_shape: h.flags.shape,
        targets: h.targets,
    }
}

/// Whether a frame carries an acknowledgement only.
pub open spec fn ack_only(h: Option<ReliableHeader>) -> bool {
    h matches Some(x) && x.flags % 2 == 1
}

/// The head of the frame `w`, and the bytes of its payload.
pub open spec fn peek(sc: schema::SchemaSpec, w: Seq<u8>) -> Result<(HeadSpec, Seq<u8>), FrameFault> {
    match checked_body(w) {
        Err(e) => Err(e),
        Ok(body) => read_head(sc, body),
    }
}

/// The packet in the frame `w`, and its reliable header.
pub open spec fn parse(sc: schema::SchemaSpec, names: Seq<Seq<char>>, w: Seq<u8>) -> Result<
    (PacketSpec, Option<ReliableHeader>),
    FrameFault,
> {
    match peek(sc, w) {
        Err(e) => Err(e),
        Ok((h, s)) => if ack_only(h.reliable) {
            Err(FrameFault::AckOnly)
        } else {
            match read_payload(h, s) {
                Err(e) => Err(e),
                Ok(payload) => if h.element.fits(payload.len()) {
                    Ok((packet_of(names, h, payload), h.reliable))
                } else {
                    Err(
                        FrameFault::Size {
                            expected: packet::expected_size(h.element) as usize,
                            got: payload.len() as usize,
                        },
                    )
                },
            }
        },
    }
}

/// Whether a packet goes where its type goes anyway.
pub open spec fn goes_default(sc: schema::SchemaSpec, p: PacketSpec) -> bool {
    sc.message(p.ty) matches Some(t) && endpoint_set::canonical(p.endpoints)
        == endpoint_set::canonical(t.endpoints)
}

/// Whether a payload is compressed: where it is long enough and gets shorter.
pub open spec fn compresses(payload: Seq<u8>) -> bool {
    payload.len() >= COMPRESSION_THRESHOLD && rle::compressed(payload).len() < payload.len()
}

/// The sections that the frame of a packet has.
pub open spec fn flags_of(
    sc: schema::SchemaSpec,
    p: PacketSpec,
    h: Option<ReliableHeader>,
) -> FrameFlags {
    FrameFlags {
        compressed: compresses(p.payload),
        shape: p.inline_shape,
        targets: p.targets.len() > 0,
        fixed_reliable: (h matches Some(x) && !goes_compact(x)),
        bitmap: !goes_default(sc, p),
        compact_reliable: (h matches Some(x) && goes_compact(x)),
    }
}

pub open spec fn scalars_of(p: PacketSpec) -> Scalars {
    Scalars {
        ty: p.ty,
        size: p.payload.len() as u64,
        timestamp: p.timestamp,
        address: p.address,
        nonce: p.nonce,
    }
}

/// Flags and integers of a frame.
pub open spec fn front_bytes(
    sc: schema::SchemaSpec,
    p: PacketSpec,
    h: Option<ReliableHeader>,
) -> Seq<u8> {
    seq![flag_byte(flags_of(sc, p, h))] + scalar_bytes(scalars_of(p))
}

/// The sections of a frame.
pub open spec fn section_bytes(
    sc: schema::SchemaSpec,
    p: PacketSpec,
    h: Option<ReliableHeader>,
) -> Seq<u8> {
    (if goes_default(sc, p) {
        Seq::<u8>::empty()
    } else {
        endpoint_set::bitmap(p.endpoints)
    }) + (if p.inline_shape {
        codec::element_bytes(p.element)
    } else {
        Seq::<u8>::empty()
    }) + (if p.targets.len() > 0 {
        target_bytes(p.targets)
    } else {
        Seq::<u8>::empty()
    }) + reliable_bytes(h)
}

pub open spec fn payload_bytes(payload: Seq<u8>) -> Seq<u8> {
    if compresses(payload) {
        rle::compressed(payload)
    } else {
        payload
    }
}

/// A frame without its checksum.
pub open spec fn body_bytes(
    sc: schema::SchemaSpec,
    p: PacketSpec,
    h: Option<ReliableHeader>,
) -> Seq<u8> {
    front_bytes(sc, p, h) + section_bytes(sc, p, h) + payload_bytes(p.payload)
}

/// A body and its checksum.
pub open spec fn sealed(body: Seq<u8>) -> Seq<u8> {
    body + codec::le4(crc32::crc32(body))
}

/// The frame of a packet.
pub open spec fn frame(
    sc: schema::SchemaSpec,
    p: PacketSpec,
    h: Option<ReliableHeader>,
) -> Seq<u8> {
    sealed(body_bytes(sc, p, h))
}

/// Whether a packet can travel: its type is known, it has endpoints that a frame can name, which are
/// known, and its payload has its shape.
pub open spec fn can_travel(sc: schema::SchemaSpec, p: PacketSpec) -> bool {
    &&& sc.message(p.ty) matches Some(t) && (!p.inline_shape ==> p.element == t.element)
    &&& endpoint_set::canonical(p.endpoints).len() > 0
    &&& sc.knows_all(endpoint_set::canonical(p.endpoints))
    &&& p.element.fits(p.payload.len())
    &&& p.payload.len() <= MAX_PAYLOAD
    &&& p.targets.len() <= u64::MAX
}

/// A packet as it arrives: its endpoints each once, in ascending order. Endpoints that no frame can
/// name do not travel.
pub open spec fn arrived(p: PacketSpec) -> PacketSpec {
    PacketSpec { endpoints: endpoint_set::canonical(p.endpoints), ..p }
}

/// A sealed body is taken as it was.
pub proof fn lemma_seal(body: Seq<u8>)
    ensures
        checked_body(sealed(body)) == Ok::<Seq<u8>, FrameFault>(body),
{
    let w = sealed(body);
    assert(w.take(w.len() - CRC32_BYTES) =~= body);
    assert(w.skip(w.len() - CRC32_BYTES) =~= codec::le4(crc32::crc32(body)));
}

/// A frame whose checksum is right is its body, sealed.
pub proof fn lemma_unseal(w: Seq<u8>)
    ensures
        checked_body(w) matches Ok(b) ==> sealed(b) == w,
{
    if let Ok(b) = checked_body(w) {
        assert(sealed(b) =~= w);
    }
}

proof fn lemma_endpoints_section(sc: schema::SchemaSpec, p: PacketSpec, t: TypeSpec, rest: Seq<u8>)
    requires
        sc.message(p.ty) == Some(t),
        endpoint_set::canonical(p.endpoints).len() > 0,
        sc.knows_all(endpoint_set::canonical(p.endpoints)),
    ensures
        read_endpoints(
            sc,
            t,
            !goes_default(sc, p),
            (if goes_default(sc, p) {
                Seq::<u8>::empty()
            } else {
                endpoint_set::bitmap(p.endpoints)
            }) + rest,
        ) == Ok::<(Seq<DataEndpoint>, Seq<u8>), FrameFault>(
            (endpoint_set::canonical(p.endpoints), rest),
        ),
{
    if goes_default(sc, p) {
        assert(Seq::<u8>::empty() + rest =~= rest);
    } else {
        let bm = endpoint_set::bitmap(p.endpoints);
        endpoint_set::lemma_bitmap_roundtrip(p.endpoints);
        assert((bm + rest).take(endpoint_set::BITMAP_BYTES as int) =~= bm);
        assert((bm + rest).skip(endpoint_set::BITMAP_BYTES as int) =~= rest);
    }
}

proof fn lemma_targets_section(v: Seq<u64>, rest: Seq<u8>)
    requires
        v.len() <= u64::MAX,
    ensures
        read_targets(
            v.len() > 0,
            (if v.len() > 0 {
                target_bytes(v)
            } else {
                Seq::<u8>::empty()
            }) + rest,
        ) == Ok::<(Seq<u64>, Seq<u8>), FrameFault>((v, rest)),
{
    if v.len() > 0 {
        assert(target_bytes(v) + rest =~= varint::uleb(v.len()) + (target_items(v) + rest));
        varint::lemma_uleb_roundtrip(v.len() as u64, target_items(v) + rest);
        lemma_target_items_roundtrip(v, rest);
    } else {
        assert(Seq::<u8>::empty() + rest =~= rest);
        assert(v =~= Seq::<u64>::empty());
    }
}

proof fn lemma_shape_section(p: PacketSpec, t: TypeSpec, rest: Seq<u8>)
    requires
        !p.inline_shape ==> p.element == t.element,
    ensures
        read_shape(
            t,
            p.inline_shape,
            (if p.inline_shape {
                codec::element_bytes(p.element)
            } else {
                Seq::<u8>::empty()
            }) + rest,
        ) == Ok::<(MessageElement, Seq<u8>), FrameFault>((p.element, rest)),
{
    if p.inline_shape {
        codec::lemma_element_roundtrip(p.element, rest);
    } else {
        assert(Seq::<u8>::empty() + rest =~= rest);
    }
}

/// The head that the frame of a packet has.
pub open spec fn head_of(
    sc: schema::SchemaSpec,
    p: PacketSpec,
    h: Option<ReliableHeader>,
) -> HeadSpec {
    HeadSpec {
        flags: flags_of(sc, p, h),
        scalars: scalars_of(p),
        endpoints: endpoint_set::canonical(p.endpoints),
        element: p.element,
        targets: p.targets,
        reliable: h,
    }
}

proof fn lemma_sections_roundtrip(
    sc: schema::SchemaSpec,
    t: TypeSpec,
    p: PacketSpec,
    h: Option<ReliableHeader>,
    rest: Seq<u8>,
)
    requires
        sc.message(p.ty) == Some(t),
        !p.inline_shape ==> p.element == t.element,
        endpoint_set::canonical(p.endpoints).len() > 0,
        sc.knows_all(endpoint_set::canonical(p.endpoints)),
        p.targets.len() <= u64::MAX,
    ensures
        read_sections(
            sc,
            t,
            flags_of(sc, p, h),
            scalars_of(p),
            section_bytes(sc, p, h) + rest,
        ) == Ok::<(HeadSpec, Seq<u8>), FrameFault>((head_of(sc, p, h), rest)),
{
    let b = if goes_default(sc, p) {
        Seq::<u8>::empty()
    } else {
        endpoint_set::bitmap(p.endpoints)
    };
    let e = if p.inline_shape {
        codec::element_bytes(p.element)
    } else {
        Seq::<u8>::empty()
    };
    let v = if p.targets.len() > 0 {
        target_bytes(p.targets)
    } else {
        Seq::<u8>::empty()
    };
    let r = reliable_bytes(h);
    vstd::seq_lib::lemma_concat_associative(b + e + v, r, rest);
    vstd::seq_lib::lemma_concat_associative(b + e, v, r + rest);
    vstd::seq_lib::lemma_concat_associative(b, e, v + (r + rest));
    lemma_endpoints_section(sc, p, t, e + (v + (r + rest)));
    lemma_shape_section(p, t, v + (r + rest));
    lemma_targets_section(p.targets, r + rest);
    lemma_reliable_roundtrip(h, flags_of(sc, p, h), rest);
}

proof fn lemma_behind_first(c: u8, front: Seq<u8>, middle: Seq<u8>, rest: Seq<u8>)
    ensures
        (seq![c] + front + middle + rest)[0] == c,
        (seq![c] + front + middle + rest).skip(1) == front + (middle + rest),
{
    assert((seq![c] + front + middle + rest).skip(1) =~= front + (middle + rest));
}

proof fn lemma_head_steps(
    sc: schema::SchemaSpec,
    s: Seq<u8>,
    f: FrameFlags,
    x: Scalars,
    t: TypeSpec,
    s1: Seq<u8>,
)
    requires
        s.len() > 0,
        read_flags(s[0]) == Ok::<FrameFlags, FrameFault>(f),
        read_scalars(s.skip(1)) == Ok::<(Scalars, Seq<u8>), FrameFault>((x, s1)),
        sc.message(x.ty) == Some(t),
    ensures
        read_head(sc, s) == read_sections(sc, t, f, x, s1),
{
}

/// The head that is read from the frame of a packet is the one that was written.
#[verifier::spinoff_prover]
#[verifier::rlimit(40)]
pub proof fn lemma_head_roundtrip(
    sc: schema::SchemaSpec,
    p: PacketSpec,
    h: Option<ReliableHeader>,
    rest: Seq<u8>,
)
    requires
        sc.message(p.ty) matches Some(t) && (!p.inline_shape ==> p.element == t.element),
        endpoint_set::canonical(p.endpoints).len() > 0,
        sc.knows_all(endpoint_set::canonical(p.endpoints)),
        p.payload.len() <= MAX_PAYLOAD,
        p.targets.len() <= u64::MAX,
    ensures
        read_head(sc, front_bytes(sc, p, h) + section_bytes(sc, p, h) + rest) == Ok::<
            (HeadSpec, Seq<u8>),
            FrameFault,
        >((head_of(sc, p, h), rest)),
{
    let t = sc.message(p.ty)->Some_0;
    let f = flags_of(sc, p, h);
    let x = scalars_of(p);
    lemma_behind_first(flag_byte(f), scalar_bytes(x), section_bytes(sc, p, h), rest);
    lemma_flags_roundtrip(f);
    lemma_scalars_roundtrip(x, section_bytes(sc, p, h) + rest);
    lemma_sections_roundtrip(sc, t, p, h, rest);
    lemma_head_steps(
        sc,
        front_bytes(sc, p, h) + section_bytes(sc, p, h) + rest,
        f,
        x,
        t,
        section_bytes(sc, p, h) + rest,
    );
}

/// What was packed is what is unpacked: every packet that can travel arrives, with its reliable
/// header, at a board with the same schema that knows its sender.
pub proof fn lemma_frame_roundtrip(
    sc: schema::SchemaSpec,
    names: Seq<Seq<char>>,
    p: PacketSpec,
    h: Option<ReliableHeader>,
)
    requires
        can_travel(sc, p),
        !ack_only(h),
        registry::sender_label(names, p.address) == p.sender,
    ensures
        parse(sc, names, frame(sc, p, h)) == Ok::<
            (PacketSpec, Option<ReliableHeader>),
            FrameFault,
        >((arrived(p), h)),
{
    lemma_seal(body_bytes(sc, p, h));
    lemma_head_roundtrip(sc, p, h, payload_bytes(p.payload));
    rle::lemma_compressed_expands(p.payload);
}

/// The head of a frame can be had from the frame alone.
pub proof fn lemma_frame_shows_type(sc: schema::SchemaSpec, p: PacketSpec, h: Option<ReliableHeader>)
    requires
        can_travel(sc, p),
    ensures
        peek(sc, frame(sc, p, h)) matches Ok((x, _)) && x == head_of(sc, p, h) && x.scalars.ty
            == p.ty,
{
    lemma_seal(body_bytes(sc, p, h));
    lemma_head_roundtrip(sc, p, h, payload_bytes(p.payload));
}

/// A packet that arrived and is packed again gives the frame that it arrived in.
pub proof fn lemma_frame_canonical(sc: schema::SchemaSpec, p: PacketSpec, h: Option<ReliableHeader>)
    ensures
        frame(sc, arrived(p), h) == frame(sc, p, h),
{
    lemma_same_members(p.endpoints);
    endpoint_set::lemma_canonical_idempotent(p.endpoints);
    assert(endpoint_set::bitmap(arrived(p).endpoints) == endpoint_set::bitmap(p.endpoints));
    assert(scalars_of(arrived(p)) == scalars_of(p));
    assert(flags_of(sc, arrived(p), h) == flags_of(sc, p, h));
    assert(section_bytes(sc, arrived(p), h) == section_bytes(sc, p, h));
}

proof fn lemma_same_members(eps: Seq<DataEndpoint>)
    ensures
        endpoint_set::bitmap(endpoint_set::canonical(eps)) == endpoint_set::bitmap(eps),
{
    let c = endpoint_set::canonical(eps);
    assert forall|k: int| 0 <= k < 256 implies endpoint_set::there(c, k) == endpoint_set::there(
        eps,
        k,
    ) by {
        endpoint_set::lemma_canonical_members(eps, k as u32);
    }
    assert forall|i: int| 0 <= i < endpoint_set::BITMAP_BYTES implies endpoint_set::bitmap(c)[i]
        == endpoint_set::bitmap(eps)[i] by {
        assert(endpoint_set::there(c, 8 * i) == endpoint_set::there(eps, 8 * i));
        assert(endpoint_set::there(c, 8 * i + 1) == endpoint_set::there(eps, 8 * i + 1));
        assert(endpoint_set::there(c, 8 * i + 2) == endpoint_set::there(eps, 8 * i + 2));
        assert(endpoint_set::there(c, 8 * i + 3) == endpoint_set::there(eps, 8 * i + 3));
        assert(endpoint_set::there(c, 8 * i + 4) == endpoint_set::there(eps, 8 * i + 4));
        assert(endpoint_set::there(c, 8 * i + 5) == endpoint_set::there(eps, 8 * i + 5));
        assert(endpoint_set::there(c, 8 * i + 6) == endpoint_set::there(eps, 8 * i + 6));
        assert(endpoint_set::there(c, 8 * i + 7) == endpoint_set::there(eps, 8 * i + 7));
    }
    assert(endpoint_set::bitmap(c) =~= endpoint_set::bitmap(eps));
}

/// A packet keeps the number that it is known by on its way.
pub proof fn lemma_identity_travels(p: PacketSpec)
    ensures
        packet::packet_identity(arrived(p)) == packet::packet_identity(p),
{
    lemma_same_members(p.endpoints);
}

/// The order of a packet's endpoints does not show in its frame.
pub proof fn lemma_frame_ignores_order(
    sc: schema::SchemaSpec,
    a: PacketSpec,
    b: PacketSpec,
    h: Option<ReliableHeader>,
)
    requires
        b == (PacketSpec { endpoints: b.endpoints, ..a }),
        forall|x: DataEndpoint| a.endpoints.contains(x) <==> b.endpoints.contains(x),
    ensures
        frame(sc, a, h) == frame(sc, b, h),
{
    endpoint_set::lemma_order_does_not_count(a.endpoints, b.endpoints);
    assert(scalars_of(a) == scalars_of(b));
    assert(flags_of(sc, a, h) == flags_of(sc, b, h));
    assert(section_bytes(sc, a, h) == section_bytes(sc, b, h));
}

/// What a reader at position `pos` of `buf` returned is what `m` says of the bytes from there on.
pub open spec fn took<T>(
    r: Result<(T, usize), FrameFault>,
    m: Result<(T, Seq<u8>), FrameFault>,
    buf: Seq<u8>,
    pos: usize,
) -> bool {
    match m {
        Ok((x, rest)) => r matches Ok((y, end)) && y == x && pos <= end <= buf.len() && rest
            == buf.skip(end as int),
        Err(e) => r == Err::<(T, usize), FrameFault>(e),
    }
}

/// `took`, of a value known by its view.
pub open spec fn took_view<T: View>(
    r: Result<(T, usize), FrameFault>,
    m: Result<(T::V, Seq<u8>), FrameFault>,
    buf: Seq<u8>,
    pos: usize,
) -> bool {
    match m {
        Ok((x, rest)) => r matches Ok((y, end)) && y@ == x && pos <= end <= buf.len() && rest
            == buf.skip(end as int),
        Err(e) => r == Err::<(T, usize), FrameFault>(e),
    }
}

/// Everything of a frame but its payload.
pub struct FrameHead {
    pub flags: FrameFlags,
    pub scalars: Scalars,
    pub endpoints: Vec<DataEndpoint>,
    pub element: MessageElement,
    pub targets: Vec<u64>,
    pub reliable: Option<ReliableHeader>,
}

impl View for FrameHead {
    type V = HeadSpec;

    open spec fn view(&self) -> HeadSpec {
        HeadSpec {
            flags: self.flags,
            scalars: self.scalars,
            endpoints: self.endpoints@,
            element: self.element,
            targets: self.targets@,
            reliable: self.reliable,
        }
    }
}

fn flags_from(b: u8) -> (r: Result<FrameFlags, FrameFault>)
    ensures
        r == read_flags(b),
{
    if b / 16 % 2 == 1 || b / 128 == 1 || (b / 8 % 2 == 1 && b / 64 % 2 == 1) {
        Err(FrameFault::BadFlags)
    } else {
        Ok(
            FrameFlags {
                compressed: b % 2 == 1,
                shape: b / 2 % 2 == 1,
                targets: b / 4 % 2 == 1,
                fixed_reliable: b / 8 % 2 == 1,
                bitmap: b / 32 % 2 == 1,
                compact_reliable: b / 64 % 2 == 1,
            },
        )
    }
}

fn read_bounded_at(buf: &[u8], pos: usize, max: u64) -> (r: Result<(u64, usize), FrameFault>)
    requires
        pos <= buf@.len(),
    ensures
        took(r, read_bounded(buf@.skip(pos as int), max), buf@, pos),
{
    match varint::read_uleb_at(buf, pos) {
        Ok((x, end)) => if x <= max {
            Ok((x, end))
        } else {
            Err(FrameFault::BadNumber)
        },
        Err(VarintFault::ShortRead) => Err(FrameFault::ShortRead),
        Err(VarintFault::TooLong) => Err(FrameFault::TooLong),
    }
}

fn read_scalars_at(buf: &[u8], pos: usize) -> (r: Result<(Scalars, usize), FrameFault>)
    requires
        pos <= buf@.len(),
    ensures
        r matches Ok((x, _)) ==> x.size <= MAX_PAYLOAD,
        took(r, read_scalars(buf@.skip(pos as int)), buf@, pos),
{
    let (ty, p1) = match read_bounded_at(buf, pos, u32::MAX as u64) {
        Ok(x) => x,
        Err(e) => return Err(e),
    };
    let (size, p2) = match read_bounded_at(buf, p1, MAX_PAYLOAD) {
        Ok(x) => x,
        Err(e) => return Err(e),
    };
    let (timestamp, p3) = match read_bounded_at(buf, p2, u64::MAX) {
        Ok(x) => x,
        Err(e) => return Err(e),
    };
    let (address, p4) = match read_bounded_at(buf, p3, u32::MAX as u64) {
        Ok(x) => x,
        Err(e) => return Err(e),
    };
    let (nonce, p5) = match read_bounded_at(buf, p4, u16::MAX as u64) {
        Ok(x) => x,
        Err(e) => return Err(e),
    };
    Ok(
        (
            Scalars { ty: ty as u32, size, timestamp, address: address as u32, nonce: nonce as u16 },
            p5,
        ),
    )
}

fn read_endpoints_at(
    schema: &Schema,
    t: &DataTypeDefinition,
    has: bool,
    buf: &[u8],
    pos: usize,
) -> (r: Result<(Vec<DataEndpoint>, usize), FrameFault>)
    requires
        pos <= buf@.len(),
    ensures
        took_view(r, read_endpoints(schema@, t@, has, buf@.skip(pos as int)), buf@, pos),
{
    if has {
        if buf.len() - pos < endpoint_set::BITMAP_BYTES {
            return Err(FrameFault::ShortRead);
        }
        let end: usize = pos + endpoint_set::BITMAP_BYTES;
        let ghost here = buf@.skip(pos as int);
        assert(here.take(endpoint_set::BITMAP_BYTES as int) =~= buf@.subrange(
            pos as int,
            end as int,
        ));
        assert(here.skip(endpoint_set::BITMAP_BYTES as int) =~= buf@.skip(end as int));
        let eps: Vec<DataEndpoint> = endpoint_set::members_at(buf, pos);
        if eps.len() == 0 || !schema.knows(&eps) {
            return Err(FrameFault::BadEndpoint);
        }
        Ok((eps, end))
    } else {
        let eps: Vec<DataEndpoint> = endpoint_set::canonical_of(&t.endpoints);
        if eps.len() == 0 {
            return Err(FrameFault::BadEndpoint);
        }
        Ok((eps, pos))
    }
}

fn read_shape_at(t: &DataTypeDefinition, has: bool, buf: &[u8], pos: usize) -> (r: Result<
    (MessageElement, usize),
    FrameFault,
>)
    requires
        pos <= buf@.len(),
    ensures
        took(r, read_shape(t@, has, buf@.skip(pos as int)), buf@, pos),
{
    if has {
        match codec::read_element_at(buf, pos) {
            Some((e, end)) => Ok((e, end)),
            None => Err(FrameFault::BadShape),
        }
    } else {
        Ok((t.element, pos))
    }
}

fn read_target_items_at(buf: &[u8], pos: usize, n: u64) -> (r: Result<
    (Vec<u64>, usize),
    FrameFault,
>)
    requires
        pos <= buf@.len(),
    ensures
        took_view(r, read_target_items(buf@.skip(pos as int), n as nat), buf@, pos),
{
    let mut v: Vec<u64> = Vec::new();
    let mut p: usize = pos;
    let mut left: u64 = n;
    proof {
        if let Ok((t, rest)) = read_target_items(buf@.skip(pos as int), n as nat) {
            assert(v@ + t =~= t);
        }
    }
    while left > 0
        invariant
            pos <= p <= buf@.len(),
            left <= n,
            read_target_items(buf@.skip(pos as int), n as nat) == (match read_target_items(
                buf@.skip(p as int),
                left as nat,
            ) {
                Ok((t, rest)) => Ok::<(Seq<u64>, Seq<u8>), FrameFault>((v@ + t, rest)),
                Err(e) => Err(e),
            }),
        decreases left,
    {
        match codec::read_le8_at(buf, p) {
            Some((x, end)) => {
                let ghost before = v@;
                v.push(x);
                proof {
                    if let Ok((t, rest)) = read_target_items(
                        buf@.skip(end as int),
                        (left - 1) as nat,
                    ) {
                        assert(before + (seq![x] + t) =~= v@ + t);
                    }
                }
                p = end;
            },
            None => return Err(FrameFault::ShortRead),
        }
        left = left - 1;
    }
    assert(v@ + Seq::<u64>::empty() =~= v@);
    Ok((v, p))
}

fn read_targets_at(has: bool, buf: &[u8], pos: usize) -> (r: Result<(Vec<u64>, usize), FrameFault>)
    requires
        pos <= buf@.len(),
    ensures
        took_view(r, read_targets(has, buf@.skip(pos as int)), buf@, pos),
{
    if has {
        match read_bounded_at(buf, pos, u64::MAX) {
            Ok((n, p)) => read_target_items_at(buf, p, n),
            Err(e) => Err(e),
        }
    } else {
        let v: Vec<u64> = Vec::new();
        assert(v@ =~= Seq::<u64>::empty());
        Ok((v, pos))
    }
}

fn read_optional_at(has: bool, buf: &[u8], pos: usize) -> (r: Result<(u32, usize), FrameFault>)
    requires
        pos <= buf@.len(),
    ensures
        took(r, read_optional(has, buf@.skip(pos as int)), buf@, pos),
{
    if has {
        match read_bounded_at(buf, pos, u32::MAX as u64) {
            Ok((x, end)) => Ok((x as u32, end)),
            Err(e) => Err(e),
        }
    } else {
        Ok((0, pos))
    }
}

fn read_reliable_at(f: FrameFlags, buf: &[u8], pos: usize) -> (r: Result<
    (Option<ReliableHeader>, usize),
    FrameFault,
>)
    requires
        pos <= buf@.len(),
    ensures
        took(r, read_reliable(f, buf@.skip(pos as int)), buf@, pos),
{
    let ghost here = buf@.skip(pos as int);
    if f.fixed_reliable {
        if buf.len() - pos < FIXED_RELIABLE_BYTES {
            return Err(FrameFault::ShortRead);
        }
        assert(here.skip(1) =~= buf@.skip(pos + 1));
        assert(here.skip(5) =~= buf@.skip(pos + 5));
        assert(here.skip(9) =~= buf@.skip(pos + 9));
        match (codec::read_le4_at(buf, pos + 1), codec::read_le4_at(buf, pos + 5)) {
            (Some((seq, _)), Some((ack, _))) => Ok(
                (Some(ReliableHeader { flags: buf[pos], seq, ack }), pos + 9),
            ),
            _ => Err(FrameFault::ShortRead),
        }
    } else if f.compact_reliable {
        if buf.len() - pos == 0 {
            return Err(FrameFault::ShortRead);
        }
        let c: u8 = buf[pos];
        if c >= 16 {
            return Err(FrameFault::BadReliable);
        }
        assert(here.skip(1) =~= buf@.skip(pos + 1));
        let (seq, p1) = match read_optional_at(c / 4 % 2 == 1, buf, pos + 1) {
            Ok(x) => x,
            Err(e) => return Err(e),
        };
        let (ack, p2) = match read_optional_at(c / 8 == 1, buf, p1) {
            Ok(x) => x,
            Err(e) => return Err(e),
        };
        Ok((Some(ReliableHeader { flags: c % 4, seq, ack }), p2))
    } else {
        Ok((None, pos))
    }
}

/// Reads the head of a frame body.
fn read_head_of(schema: &Schema, body: &[u8]) -> (r: Result<(FrameHead, usize), FrameFault>)
    ensures
        r matches Ok((h, _)) ==> h.scalars.size <= MAX_PAYLOAD,
        took_view(r, read_head(schema@, body@), body@, 0),
{
    if body.len() == 0 {
        return Err(FrameFault::ShortRead);
    }
    let flags: FrameFlags = match flags_from(body[0]) {
        Ok(f) => f,
        Err(e) => return Err(e),
    };
    let (scalars, p1) = match read_scalars_at(body, 1) {
        Ok(x) => x,
        Err(e) => return Err(e),
    };
    let t: &DataTypeDefinition = match schema.message_meta(scalars.ty) {
        Some(t) => t,
        None => return Err(FrameFault::UnknownType),
    };
    let (endpoints, p2) = match read_endpoints_at(schema, t, flags.bitmap, body, p1) {
        Ok(x) => x,
        Err(e) => return Err(e),
    };
    let (element, p3) = match read_shape_at(t, flags.shape, body, p2) {
        Ok(x) => x,
        Err(e) => return Err(e),
    };
    let (targets, p4) = match read_targets_at(flags.targets, body, p3) {
        Ok(x) => x,
        Err(e) => return Err(e),
    };
    let (reliable, p5) = match read_reliable_at(flags, body, p4) {
        Ok(x) => x,
        Err(e) => return Err(e),
    };
    Ok((FrameHead { flags, scalars, endpoints, element, targets, reliable }, p5))
}

/// Length of a frame without its checksum, if the checksum is right.
pub fn body_len(wire: &[u8]) -> (r: Result<usize, FrameFault>)
    ensures
        match checked_body(wire@) {
            Ok(body) => r matches Ok(n) && n + CRC32_BYTES == wire@.len() && body == wire@.take(
                n as int,
            ),
            Err(e) => r == Err::<usize, FrameFault>(e),
        },
{
    if wire.len() < CRC32_BYTES {
        return Err(FrameFault::ShortRead);
    }
    let n: usize = wire.len() - CRC32_BYTES;
    let mut sum: Vec<u8> = Vec::new();
    codec::write_le4(&mut sum, crc32::crc32_of(wire, n));
    assert(sum@ =~= codec::le4(crc32::crc32(wire@.take(n as int))));
    let tail: Vec<u8> = codec::copy_range(wire, n, wire.len());
    assert(tail@ =~= wire@.skip(n as int));
    if codec::same_bytes(&tail, &sum) {
        Ok(n)
    } else {
        Err(FrameFault::BadCrc)
    }
}

/// Reads the head of a frame; with it, where its payload starts and ends.
fn peek_head(schema: &Schema, wire: &[u8]) -> (r: Result<(FrameHead, usize, usize), FrameFault>)
    ensures
        r matches Ok((h, _, _)) ==> h.scalars.size <= MAX_PAYLOAD,
        match peek(schema@, wire@) {
            Ok((h, s)) => r matches Ok((head, from, to)) && head@ == h && from <= to <= wire@.len()
                && s == wire@.subrange(from as int, to as int) && checked_body(wire@) == Ok::<
                Seq<u8>,
                FrameFault,
            >(wire@.take(to as int)),
            Err(e) => r == Err::<(FrameHead, usize, usize), FrameFault>(e),
        },
{
    let n: usize = match body_len(wire) {
        Ok(n) => n,
        Err(e) => return Err(e),
    };
    let body: &[u8] = vstd::slice::slice_subrange(wire, 0, n);
    assert(body@ =~= wire@.take(n as int));
    match read_head_of(schema, body) {
        Ok((head, p)) => {
            assert(body@.skip(p as int) =~= wire@.subrange(p as int, n as int));
            Ok((head, p, n))
        },
        Err(e) => Err(e),
    }
}

/// The type of a frame.
pub fn frame_type_of(schema: &Schema, wire: &[u8]) -> (r: Option<DataType>)
    ensures
        r == (match peek(schema@, wire@) {
            Ok((h, _)) => Some(h.scalars.ty),
            Err(_) => None,
        }),
{
    match peek_head(schema, wire) {
        Ok((h, _, _)) => Some(h.scalars.ty),
        Err(_) => None,
    }
}

/// Where the payload of a frame starts and ends.
pub fn payload_bounds(schema: &Schema, wire: &[u8]) -> (r: Result<(usize, usize), FrameFault>)
    ensures
        match peek(schema@, wire@) {
            Ok((_, s)) => r matches Ok((from, to)) && from <= to && checked_body(wire@) == Ok::<
                Seq<u8>,
                FrameFault,
            >(wire@.take(to as int)) && to <= wire@.len() && s == wire@.subrange(
                from as int,
                to as int,
            ),
            Err(e) => r == Err::<(usize, usize), FrameFault>(e),
        },
{
    match peek_head(schema, wire) {
        Ok((_, from, to)) => Ok((from, to)),
        Err(e) => Err(e),
    }
}

/// A packet and the reliable header that it came with.
pub struct Frame {
    pub packet: Packet,
    pub reliable: Option<ReliableHeader>,
}

/// Unpacks a frame with its reliable header.
pub fn unpack_frame(reg: &Registry, wire: &[u8]) -> (r: Result<Frame, FrameFault>)
    ensures
        match parse(reg.schema@, reg.known_names(), wire@) {
            Ok((p, h)) => r matches Ok(f) && f.packet@ == p && f.reliable == h,
            Err(e) => r == Err::<Frame, FrameFault>(e),
        },
{
    let (head, from, to) = match peek_head(&reg.schema, wire) {
        Ok(x) => x,
        Err(e) => return Err(e),
    };
    match head.reliable {
        Some(h) => {
            if h.flags % 2 == 1 {
                return Err(FrameFault::AckOnly);
            }
        },
        None => {},
    }
    let raw: Vec<u8> = codec::copy_range(wire, from, to);
    let payload: Vec<u8> = if head.flags.compressed {
        match rle::decompress(&raw, head.scalars.size as usize) {
            Some(b) => b,
            None => return Err(FrameFault::BadPayload),
        }
    } else {
        raw
    };
    if payload.len() as u64 != head.scalars.size {
        return Err(FrameFault::BadPayload);
    }
    if !head.element.accepts(payload.len()) {
        return Err(
            FrameFault::Size {
                expected: packet::expected_len(head.element),
                got: payload.len(),
            },
        );
    }
    let sender: String = reg.sender_text(head.scalars.address);
    let reliable: Option<ReliableHeader> = head.reliable;
    let packet: Packet = Packet::from_parts(
        head.scalars.ty,
        head.endpoints,
        sender,
        head.scalars.address,
        head.scalars.timestamp,
        payload,
        head.scalars.nonce,
        head.element,
        head.flags.shape,
        head.targets,
    );
    Ok(Frame { packet, reliable })
}

/// Unpacks a frame.
pub fn unpack_packet(reg: &Registry, wire: &[u8]) -> (r: TelemetryResult<Packet>)
    ensures
        match parse(reg.schema@, reg.known_names(), wire@) {
            Ok((p, _)) => r matches Ok(q) && q@ == p,
            Err(f) => r matches Err(e) && f.reported_by(e),
        },
{
    match unpack_frame(reg, wire) {
        Ok(f) => Ok(f.packet),
        Err(f) => Err(f.to_error()),
    }
}

/// What can be said of a frame without unpacking its payload.
pub struct Envelope {
    pub ty: DataType,
    pub endpoints: Vec<DataEndpoint>,
    pub sender: String,
    pub timestamp_ms: u64,
}

/// The head of a frame, as far as routing needs it.
pub struct FrameInfo {
    pub envelope: Envelope,
    pub reliable: Option<ReliableHeader>,
    /// Hashes of the boards that the frame is for; none where it is for all.
    pub targets: Vec<u64>,
}

impl FrameInfo {
    /// Whether this is what can be said of a frame with the head `h`.
    pub open spec fn describes(self, names: Seq<Seq<char>>, h: HeadSpec) -> bool {
        &&& self.envelope.ty == h.scalars.ty
        &&& self.envelope.endpoints@ == h.endpoints
        &&& self.envelope.sender@ == registry::sender_label(names, h.scalars.address)
        &&& self.envelope.timestamp_ms == h.scalars.timestamp
        &&& self.reliable == h.reliable
        &&& self.targets@ == h.targets
    }
}

/// Reads the head of a frame and leaves its payload alone.
pub fn peek_frame_info(reg: &Registry, wire: &[u8]) -> (r: TelemetryResult<FrameInfo>)
    ensures
        match peek(reg.schema@, wire@) {
            Ok((h, _)) => r matches Ok(i) && i.describes(reg.known_names(), h),
            Err(f) => r matches Err(e) && f.reported_by(e),
        },
{
    match peek_head(&reg.schema, wire) {
        Ok((head, _, _)) => Ok(
            FrameInfo {
                envelope: Envelope {
                    ty: head.scalars.ty,
                    endpoints: head.endpoints,
                    sender: reg.sender_text(head.scalars.address),
                    timestamp_ms: head.scalars.timestamp,
                },
                reliable: head.reliable,
                targets: head.targets,
            },
        ),
        Err(f) => Err(f.to_error()),
    }
}

/// Reads where a frame comes from and goes to, and when it was made.
pub fn peek_envelope(reg: &Registry, wire: &[u8]) -> (r: TelemetryResult<Envelope>)
    ensures
        match peek(reg.schema@, wire@) {
            Ok((h, _)) => r matches Ok(v) && v.ty == h.scalars.ty && v.endpoints@ == h.endpoints
                && v.sender@ == registry::sender_label(reg.known_names(), h.scalars.address)
                && v.timestamp_ms == h.scalars.timestamp,
            Err(f) => r matches Err(e) && f.reported_by(e),
        },
{
    match peek_frame_info(reg, wire) {
        Ok(i) => Ok(i.envelope),
        Err(e) => Err(e),
    }
}

/// The number that the packet in a frame is known by.
pub fn packet_id_from_wire(reg: &Registry, wire: &[u8]) -> (r: TelemetryResult<u64>)
    ensures
        match parse(reg.schema@, reg.known_names(), wire@) {
            Ok((p, _)) => r == Ok::<u64, TelemetryError>(packet::packet_identity(p)),
            Err(f) => r matches Err(e) && f.reported_by(e),
        },
{
    match unpack_frame(reg, wire) {
        Ok(f) => Ok(f.packet.packet_id()),
        Err(f) => Err(f.to_error()),
    }
}

fn goes_default_of(schema: &Schema, p: &Packet) -> (b: bool)
    ensures
        b == goes_default(schema@, p@),
{
    match schema.message_meta(p.data_type()) {
        Some(t) => codec::same_u32(
            &endpoint_set::canonical_of(p.endpoints()),
            &endpoint_set::canonical_of(&t.endpoints),
        ),
        None => false,
    }
}

fn write_compact_reliable(out: &mut Vec<u8>, h: ReliableHeader)
    requires
        h.flags < 4,
    ensures
        final(out)@ == old(out)@ + compact_reliable_bytes(h),
{
    let mut c: u8 = h.flags;
    if h.seq != 0 {
        c = c + 4;
    }
    if h.ack != 0 {
        c = c + 8;
    }
    out.push(c);
    if h.seq != 0 {
        varint::write_uleb(out, h.seq as u64);
    }
    if h.ack != 0 {
        varint::write_uleb(out, h.ack as u64);
    }
}

fn goes_compact_of(h: ReliableHeader) -> (b: bool)
    ensures
        b == goes_compact(h),
{
    if h.flags >= 4 {
        return false;
    }
    let mut n: usize = 1;
    if h.seq != 0 {
        n = n + varint::uleb_len(h.seq as u64);
    }
    if h.ack != 0 {
        n = n + varint::uleb_len(h.ack as u64);
    }
    n < FIXED_RELIABLE_BYTES
}

fn write_reliable(out: &mut Vec<u8>, h: Option<ReliableHeader>)
    ensures
        final(out)@ == old(out)@ + reliable_bytes(h),
{
    match h {
        None => {},
        Some(x) => if goes_compact_of(x) {
            write_compact_reliable(out, x);
        } else {
            out.push(x.flags);
            codec::write_le4(out, x.seq);
            codec::write_le4(out, x.ack);
        },
    }
    assert(out@ =~= old(out)@ + reliable_bytes(h));
}

fn write_targets(out: &mut Vec<u8>, v: &[u64])
    ensures
        final(out)@ == old(out)@ + target_bytes(v@),
{
    varint::write_uleb(out, v.len() as u64);
    let ghost base = out@;
    let mut i: usize = 0;
    assert(v@.skip(0) =~= v@);
    while i < v.len()
        invariant
            i <= v@.len(),
            out@ + target_items(v@.skip(i as int)) == base + target_items(v@),
        decreases v@.len() - i,
    {
        let ghost here = v@.skip(i as int);
        let ghost before = out@;
        assert(here.skip(1) =~= v@.skip(i + 1));
        codec::write_le8(out, v[i]);
        assert(before + target_items(here) =~= out@ + target_items(v@.skip(i + 1)));
        i = i + 1;
    }
    assert(out@ + target_items(v@.skip(i as int)) =~= out@);
}

fn write_scalars(out: &mut Vec<u8>, x: Scalars)
    ensures
        final(out)@ == old(out)@ + scalar_bytes(x),
{
    let ghost base = out@;
    varint::write_uleb(out, x.ty as u64);
    varint::write_uleb(out, x.size);
    varint::write_uleb(out, x.timestamp);
    varint::write_uleb(out, x.address as u64);
    varint::write_uleb(out, x.nonce as u64);
    proof {
        let a = varint::uleb(x.ty as nat);
        let b = varint::uleb(x.size as nat);
        let c = varint::uleb(x.timestamp as nat);
        let d = varint::uleb(x.address as nat);
        let e = varint::uleb(x.nonce as nat);
        vstd::seq_lib::lemma_concat_associative(base, a, b);
        vstd::seq_lib::lemma_concat_associative(base, a + b, c);
        vstd::seq_lib::lemma_concat_associative(base, a + b + c, d);
        vstd::seq_lib::lemma_concat_associative(base, a + b + c + d, e);
    }
}

fn flag_value(b: bool, w: u8) -> (r: u8)
    ensures
        r == part(b, w as int),
{
    if b {
        w
    } else {
        0
    }
}

/// Packs a packet with a reliable header or without.
pub fn pack_frame(schema: &Schema, p: &Packet, h: Option<ReliableHeader>) -> (out: Vec<u8>)
    ensures
        out@ == frame(schema@, p@, h),
{
    let default_set: bool = goes_default_of(schema, p);
    let small: Vec<u8> = rle::compress(p.payload());
    let compressed: bool = p.payload().len() >= COMPRESSION_THRESHOLD && small.len()
        < p.payload().len();
    let compact: bool = match h {
        Some(x) => goes_compact_of(x),
        None => false,
    };
    let targets: &[u64] = p.wire_target_senders();
    let c: u8 = flag_value(compressed, 1) + flag_value(p.has_inline_shape(), 2) + flag_value(
        targets.len() > 0,
        4,
    ) + flag_value(h.is_some() && !compact, 8) + flag_value(!default_set, 32) + flag_value(
        compact,
        64,
    );
    let mut out: Vec<u8> = Vec::new();
    out.push(c);
    write_scalars(
        &mut out,
        Scalars {
            ty: p.data_type(),
            size: p.data_size() as u64,
            timestamp: p.timestamp(),
            address: p.sender_address(),
            nonce: p.nonce(),
        },
    );
    assert(out@ =~= front_bytes(schema@, p@, h));
    let mut sections: Vec<u8> = Vec::new();
    if !default_set {
        let bm: Vec<u8> = endpoint_set::bitmap_of(p.endpoints());
        codec::write_bytes(&mut sections, &bm);
    }
    let ghost s1 = sections@;
    assert(s1 =~= (if default_set {
        Seq::<u8>::empty()
    } else {
        endpoint_set::bitmap(p@.endpoints)
    }));
    if p.has_inline_shape() {
        codec::write_element(&mut sections, p.element());
    }
    let ghost s2 = sections@;
    assert(s2 =~= s1 + (if p@.inline_shape {
        codec::element_bytes(p@.element)
    } else {
        Seq::<u8>::empty()
    }));
    if targets.len() > 0 {
        write_targets(&mut sections, targets);
    }
    let ghost s3 = sections@;
    assert(s3 =~= s2 + (if p@.targets.len() > 0 {
        target_bytes(p@.targets)
    } else {
        Seq::<u8>::empty()
    }));
    write_reliable(&mut sections, h);
    assert(sections@ == section_bytes(schema@, p@, h));
    codec::write_bytes(&mut out, &sections);
    if compressed {
        codec::write_bytes(&mut out, &small);
    } else {
        codec::write_bytes(&mut out, p.payload());
    }
    assert(out@ == body_bytes(schema@, p@, h));
    let sum: u32 = crc32::crc32_of(&out, out.len());
    assert(out@.take(out@.len() as int) =~= out@);
    codec::write_le4(&mut out, sum);
    out
}

/// Packs a packet.
pub fn pack_packet(schema: &Schema, p: &Packet) -> (out: Vec<u8>)
    ensures
        out@ == frame(schema@, p@, None),
{
    pack_frame(schema, p, None)
}

/// Packs a packet with a reliable header.
pub fn pack_packet_with_reliable(schema: &Schema, p: &Packet, h: ReliableHeader) -> (out: Vec<u8>)
    ensures
        out@ == frame(schema@, p@, Some(h)),
{
    pack_frame(schema, p, Some(h))
}

/// Packs a packet for the boards `targets` (for all where there are none), with its shape said in
/// the frame or not. A shape that the payload does not have is refused.
pub fn pack_packet_with_wire_contract(
    schema: &Schema,
    p: &Packet,
    h: Option<ReliableHeader>,
    shape: Option<MessageElement>,
    targets: Vec<u64>,
) -> (r: TelemetryResult<Vec<u8>>)
    ensures
        match shape {
            Some(e) => if e.fits(p@.payload.len()) {
                r matches Ok(out) && out@ == frame(
                    schema@,
                    (PacketSpec { element: e, inline_shape: true, targets: targets@, ..p@ }),
                    h,
                )
            } else {
                r == Err::<Vec<u8>, TelemetryError>(
                    TelemetryError::SizeMismatch {
                        expected: packet::expected_size(e) as usize,
                        got: p@.payload.len() as usize,
                    },
                )
            },
            None => r matches Ok(out) && out@ == frame(
                schema@,
                (PacketSpec { inline_shape: false, targets: targets@, ..p@ }),
                h,
            ),
        },
{
    match shape {
        Some(e) => {
            if !e.accepts(p.data_size()) {
                return Err(
                    TelemetryError::SizeMismatch {
                        expected: packet::expected_len(e),
                        got: p.data_size(),
                    },
                );
            }
            let q: Packet = p.copied().with_element(e).with_wire_contract(true, targets);
            Ok(pack_frame(schema, &q, h))
        },
        None => {
            let q: Packet = p.copied().with_wire_contract(false, targets);
            Ok(pack_frame(schema, &q, h))
        },
    }
}

/// The packet that stands in an acknowledgement of `t` by a board named `sender`.
pub open spec fn ack_packet(t: TypeSpec, sender: Seq<char>, timestamp: u64) -> PacketSpec {
    PacketSpec {
        ty: t.id,
        endpoints: t.endpoints,
        sender,
        address: hash::name_address(sender),
        timestamp,
        payload: Seq::<u8>::empty(),
        nonce: 0,
        element: t.element,
        inline_shape: false,
        targets: Seq::<u64>::empty(),
    }
}

/// The header of an acknowledgement of everything up to `seq`.
pub open spec fn ack_header(seq: u32) -> ReliableHeader {
    ReliableHeader { flags: RELIABLE_FLAG_ACK_ONLY, seq: 0, ack: seq }
}

/// Packs an acknowledgement of everything of a type up to `seq`.
pub fn pack_reliable_ack(
    schema: &Schema,
    sender: &str,
    ty: DataType,
    timestamp: u64,
    seq: u32,
) -> (r: TelemetryResult<Vec<u8>>)
    ensures
        match schema@.message(ty) {
            Some(t) => r matches Ok(out) && out@ == frame(
                schema@,
                ack_packet(t, sender@, timestamp),
                Some(ack_header(seq)),
            ),
            None => r == Err::<Vec<u8>, TelemetryError>(TelemetryError::InvalidType),
        },
{
    match schema.message_meta(ty) {
        Some(t) => {
            let p: Packet = Packet::from_parts(
                t.id,
                codec::copy_u32(&t.endpoints),
                sender.to_owned(),
                hash::sender_address_u32(sender),
                timestamp,
                Vec::new(),
                0,
                t.element,
                false,
                Vec::new(),
            );
            proof {
                assert(p@.payload =~= Seq::<u8>::empty());
                assert(p@.targets =~= Seq::<u64>::empty());
            }
            Ok(
                pack_frame(
                    schema,
                    &p,
                    Some(ReliableHeader { flags: RELIABLE_FLAG_ACK_ONLY, seq: 0, ack: seq }),
                ),
            )
        },
        None => Err(TelemetryError::InvalidType),
    }
}

/// The frame with other sequence numbers; `None` where it has none.
pub fn rewrite_reliable_header_owned(
    reg: &Registry,
    wire: &[u8],
    flags: u8,
    seq: u32,
    ack: u32,
) -> (r: TelemetryResult<Option<Vec<u8>>>)
    ensures
        match parse(reg.schema@, reg.known_names(), wire@) {
            Ok((p, Some(_))) => r matches Ok(Some(out)) && out@ == frame(
                reg.schema@,
                p,
                Some(ReliableHeader { flags, seq, ack }),
            ),
            Ok((_, None)) => r matches Ok(None),
            Err(f) => r matches Err(e) && f.reported_by(e),
        },
{
    match unpack_frame(reg, wire) {
        Ok(f) => match f.reliable {
            Some(_) => Ok(
                Some(pack_frame(&reg.schema, &f.packet, Some(ReliableHeader { flags, seq, ack }))),
            ),
            None => Ok(None),
        },
        Err(f) => Err(f.to_error()),
    }
}

/// Bytes in front of the sections of a packet's frame.
pub fn header_size_bytes(p: &Packet) -> (n: usize)
    ensures
        forall|sc: schema::SchemaSpec, h: Option<ReliableHeader>|
            n == #[trigger] front_bytes(sc, p@, h).len(),
{
    let mut out: Vec<u8> = Vec::new();
    write_scalars(
        &mut out,
        Scalars {
            ty: p.data_type(),
            size: p.data_size() as u64,
            timestamp: p.timestamp(),
            address: p.sender_address(),
            nonce: p.nonce(),
        },
    );
    assert(out@ =~= scalar_bytes(scalars_of(p@)));
    out.push(0);
    out.len()
}

/// Bytes of a packet's frame.
pub fn packet_wire_size(schema: &Schema, p: &Packet) -> (n: usize)
    ensures
        n == frame(schema@, p@, None).len(),
{
    pack_packet(schema, p).len()
}

/// A frame ends with the checksum of all that stands before it, and a payload that is not
/// compressed stands right before the checksum, byte for byte. No payload takes more bytes than it
/// has.
pub proof fn lemma_payload_stands_before_the_checksum(
    sc: schema::SchemaSpec,
    p: PacketSpec,
    h: Option<ReliableHeader>,
)
    ensures
        ({
            let f = frame(sc, p, h);
            let n = f.len() - CRC32_BYTES;
            &&& n >= 0
            &&& f.skip(n) == codec::le4(crc32::crc32(f.take(n)))
            &&& flags_of(sc, p, h).compressed || (n >= p.payload.len() && f.subrange(
                n - p.payload.len(),
                n,
            ) == p.payload)
            &&& payload_bytes(p.payload).len() <= p.payload.len()
            &&& flags_of(sc, p, h).compressed ==> payload_bytes(p.payload).len() < p.payload.len()
        }),
{
    let f = frame(sc, p, h);
    let body = body_bytes(sc, p, h);
    let n = f.len() - CRC32_BYTES;
    assert(codec::le4(crc32::crc32(body)).len() == 4);
    assert(f.take(n) =~= body);
    assert(f.skip(n) =~= codec::le4(crc32::crc32(body)));
    if !flags_of(sc, p, h).compressed {
        let head = front_bytes(sc, p, h) + section_bytes(sc, p, h);
        assert(body =~= head + p.payload);
        assert(f.subrange(n - p.payload.len(), n) =~= p.payload);
    }
}

/// The first byte of a frame says what follows, one bit for each section: whether the payload is
/// compressed, whether a shape stands there, whether boards are named, and whether and how the
/// frame is numbered; the endpoints stand there unless they are those of the type.
pub proof fn lemma_first_byte_tells_what_follows(
    sc: schema::SchemaSpec,
    p: PacketSpec,
    h: Option<ReliableHeader>,
)
    ensures
        ({
            let b = frame(sc, p, h)[0];
            &&& b % 2 == 1 <==> payload_bytes(p.payload) != p.payload
            &&& b / 2 % 2 == 1 <==> p.inline_shape
            &&& b / 4 % 2 == 1 <==> p.targets.len() > 0
            &&& b / 8 % 2 == 1 || b / 64 % 2 == 1 <==> h is Some
            &&& !(b / 8 % 2 == 1 && b / 64 % 2 == 1)
            &&& b / 32 % 2 == 0 <==> goes_default(sc, p)
            &&& b / 16 % 2 == 0 && b < 128
        }),
{
    let f = flags_of(sc, p, h);
    assert(frame(sc, p, h)[0] == flag_byte(f));
    if compresses(p.payload) {
        assert(payload_bytes(p.payload).len() < p.payload.len());
    }
}

/// The numbers of a frame are written in whichever form is the shorter.
pub proof fn lemma_numbers_are_written_short(h: ReliableHeader)
    ensures
        reliable_bytes(Some(h)).len() <= 9,
        h.flags < 4 ==> reliable_bytes(Some(h)).len() <= compact_reliable_bytes(h).len(),
{
}

/// An acknowledgement shows the number that it acknowledges, and carries no packet.
pub proof fn lemma_acknowledgement_shows_its_number(
    sc: schema::SchemaSpec,
    names: Seq<Seq<char>>,
    t: TypeSpec,
    sender: Seq<char>,
    timestamp: u64,
    seq: u32,
)
    requires
        sc.message(t.id) == Some(t),
        endpoint_set::canonical(t.endpoints).len() > 0,
        sc.knows_all(endpoint_set::canonical(t.endpoints)),
    ensures
        ({
            let f = frame(sc, ack_packet(t, sender, timestamp), Some(ack_header(seq)));
            &&& peek(sc, f) matches Ok((h, _)) && h.scalars.ty == t.id && (h.reliable matches Some(
                x,
            ) && x.ack == seq && x.flags % 2 == 1)
            &&& parse(sc, names, f) matches Err(e) && e == FrameFault::AckOnly
        }),
{
    let p = ack_packet(t, sender, timestamp);
    let h = Some(ack_header(seq));
    lemma_seal(body_bytes(sc, p, h));
    lemma_head_roundtrip(sc, p, h, payload_bytes(p.payload));
}

/// What a frame shows of itself is what its packet says: its type, its endpoints, the boards that it
/// is for, and when it was made.
pub proof fn lemma_frame_is_described(
    sc: schema::SchemaSpec,
    names: Seq<Seq<char>>,
    p: PacketSpec,
    h: Option<ReliableHeader>,
    i: FrameInfo,
)
    requires
        can_travel(sc, p),
        registry::sender_label(names, p.address) == p.sender,
        peek(sc, frame(sc, p, h)) matches Ok((x, _)) ==> i.describes(names, x),
    ensures
        i.envelope.ty == p.ty,
        i.envelope.endpoints@ == endpoint_set::canonical(p.endpoints),
        i.envelope.sender@ == p.sender,
        i.envelope.timestamp_ms == p.timestamp,
        i.reliable == h,
        i.targets@ == p.targets,
{
    lemma_frame_shows_type(sc, p, h);
}

/// A short payload goes as it is; a longer one is compressed wherever that makes it shorter.
pub proof fn lemma_long_payloads_are_compressed(payload: Seq<u8>)
    ensures
        payload.len() < 16 ==> payload_bytes(payload) == payload,
        payload.len() >= 16 ==> payload_bytes(payload).len() <= rle::compressed(payload).len(),
{
}

} // verus!
