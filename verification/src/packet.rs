//! Packets: typed payloads with their sender, time and destinations.
use vstd::prelude::*;
use vstd::string::*;
use crate::codec;
use crate::definition;
use crate::endpoint_set;
use crate::error::{TelemetryError, TelemetryResult};
use crate::hash;
use crate::meta::{
    DataEndpoint, DataType, MessageClass, MessageDataType, MessageElement,
};
use crate::registry;
use crate::registry::Registry;
use crate::schema;
use crate::schema::Schema;
use crate::table;
use crate::text;

verus! {

/// Seed of packet identities.
pub const PACKET_SEED: u64 = 0xCBF2_9CE4_8422_2325;

/// Longest payload of a packet.
pub const MAX_PAYLOAD: u64 = 0xFFFF_FFFF;

/// A packet, as a value.
pub struct PacketSpec {
    pub ty: DataType,
    pub endpoints: Seq<DataEndpoint>,
    pub sender: Seq<char>,
    pub address: u32,
    pub timestamp: u64,
    pub payload: Seq<u8>,
    pub nonce: u16,
    /// The shape that the payload has.
    pub element: MessageElement,
    /// Whether frames of the packet say what its shape is.
    pub inline_shape: bool,
    /// Hashes of the boards that the packet is for; none where it is for all.
    pub targets: Seq<u64>,
}

/// What a size error names as the size that was expected: the size of a payload with a fixed
/// number of elements, the size of one element where any number is allowed.
pub open spec fn expected_size(e: MessageElement) -> nat {
    match e {
        MessageElement::Static(_, _, _) => table::capped(e.static_size()),
        MessageElement::Dynamic(dt, _) => dt.width(),
    }
}

/// The first fault of a packet's endpoints and payload, if there is one.
pub open spec fn packet_fault(
    e: MessageElement,
    endpoints: Seq<DataEndpoint>,
    len: nat,
) -> Option<TelemetryError> {
    if endpoints.len() == 0 {
        Some(TelemetryError::EmptyEndpoints)
    } else if len > MAX_PAYLOAD {
        Some(TelemetryError::SizeMismatchError)
    } else if !e.fits(len) {
        Some(
            TelemetryError::SizeMismatch { expected: expected_size(e) as usize, got: len as usize },
        )
    } else {
        None
    }
}

/// The bytes that a packet is known by: whatever order its endpoints are in, they are the same.
pub open spec fn identity_bytes(p: PacketSpec) -> Seq<u8> {
    codec::le4(p.address) + codec::le4(p.ty) + codec::le8(p.timestamp) + codec::le2(p.nonce)
        + endpoint_set::bitmap(p.endpoints) + p.payload
}

/// The number that a packet is known by.
pub open spec fn packet_identity(p: PacketSpec) -> u64 {
    hash::hash_seq(PACKET_SEED, identity_bytes(p))
}

/// The name of an endpoint, or one made from its number.
pub open spec fn endpoint_label(s: schema::SchemaSpec, id: DataEndpoint) -> Seq<char> {
    match s.endpoint(id) {
        Some(e) => e.name,
        None => "ENDPOINT_"@ + text::decimal(id as nat),
    }
}

/// The name of a message type, or one made from its number.
pub open spec fn type_label(s: schema::SchemaSpec, id: DataType) -> Seq<char> {
    match s.message(id) {
        Some(t) => t.name,
        None => "TYPE_"@ + text::decimal(id as nat),
    }
}

/// The names of endpoints, separated by commas.
pub open spec fn endpoint_labels(s: schema::SchemaSpec, ids: Seq<DataEndpoint>) -> Seq<char>
    decreases ids.len(),
{
    if ids.len() == 0 {
        ""@
    } else if ids.len() == 1 {
        endpoint_label(s, ids[0])
    } else {
        endpoint_labels(s, ids.drop_last()) + ", "@ + endpoint_label(s, ids.last())
    }
}

/// A packet's head as text.
pub open spec fn header_text(s: schema::SchemaSpec, p: PacketSpec) -> Seq<char> {
    "Type: "@ + type_label(s, p.ty) + ", Data Size: "@ + text::decimal(p.payload.len())
        + ", Sender: "@ + p.sender + ", Endpoints: ["@ + endpoint_labels(s, p.endpoints)
        + "], Timestamp: "@ + text::decimal(p.timestamp as nat) + " ("@ + text::clock_text(
        p.timestamp,
    ) + ")"@
}

/// Bytes as hexadecimal numbers, each behind a space.
pub open spec fn hex_text(b: Seq<u8>) -> Seq<char>
    decreases b.len(),
{
    if b.len() == 0 {
        ""@
    } else {
        hex_text(b.drop_last()) + " 0x"@ + text::hex2(b.last())
    }
}

/// A text payload without the NUL bytes at its end.
pub open spec fn trimmed(b: Seq<u8>) -> Seq<u8>
    decreases b.len(),
{
    if b.len() > 0 && b.last() == 0 {
        trimmed(b.drop_last())
    } else {
        b
    }
}

/// The text in a packet's payload, where it is one.
pub open spec fn payload_text(p: PacketSpec) -> Option<Seq<char>> {
    if p.element.kind() == MessageDataType::String && vstd::utf8::valid_utf8(trimmed(p.payload)) {
        Some(vstd::utf8::decode_utf8(trimmed(p.payload)))
    } else {
        None
    }
}

/// A packet as text: its head, and `data` in the place of its payload.
pub open spec fn framed_text(s: schema::SchemaSpec, p: PacketSpec, data: Seq<char>) -> Seq<char> {
    let label = if p.element.message_class() == MessageClass::Error {
        ", Error: ("@
    } else {
        ", Data: ("@
    };
    "{"@ + header_text(s, p) + label + data + ")}"@
}

/// A packet as text: its head, and its payload as text where it is one, else in hexadecimal.
pub open spec fn packet_text(s: schema::SchemaSpec, p: PacketSpec) -> Seq<char> {
    framed_text(
        s,
        p,
        match payload_text(p) {
            Some(t) => "\""@ + t + "\""@,
            None => hex_text(p.payload),
        },
    )
}

/// A number that payloads hold in little-endian order.
pub trait LeBytes: Sized + Copy {
    /// How many bytes a number takes.
    spec fn size() -> nat;

    spec fn bytes(self) -> Seq<u8>;

    proof fn lemma_size(self)
        ensures
            self.bytes().len() == Self::size(),
            0 < Self::size() <= 8,
    ;

    fn byte_count() -> (n: usize)
        ensures
            n == Self::size(),
            0 < n <= 8,
    ;

    fn write(self, out: &mut Vec<u8>)
        ensures
            final(out)@ == old(out)@ + self.bytes(),
    ;

    fn read_at(buf: &[u8], pos: usize) -> (x: Self)
        requires
            pos + Self::size() <= buf@.len(),
        ensures
            x.bytes() == buf@.subrange(pos as int, pos + Self::size()),
    ;
}

impl LeBytes for u8 {
    open spec fn size() -> nat {
        1
    }

    open spec fn bytes(self) -> Seq<u8> {
        seq![self]
    }

    proof fn lemma_size(self) {
    }

    fn byte_count() -> (n: usize) {
        1
    }

    fn write(self, out: &mut Vec<u8>) {
        out.push(self);
    }

    fn read_at(buf: &[u8], pos: usize) -> (x: u8) {
        let x: u8 = buf[pos];
        assert(seq![x] =~= buf@.subrange(pos as int, pos + 1));
        x
    }
}

impl LeBytes for u16 {
    open spec fn size() -> nat {
        2
    }

    open spec fn bytes(self) -> Seq<u8> {
        codec::le2(self)
    }

    proof fn lemma_size(self) {
    }

    fn byte_count() -> (n: usize) {
        2
    }

    fn write(self, out: &mut Vec<u8>) {
        codec::write_le2(out, self);
    }

    fn read_at(buf: &[u8], pos: usize) -> (x: u16) {
        let x: u16 = buf[pos] as u16 + 256 * (buf[pos + 1] as u16);
        assert(codec::le2(x) =~= buf@.subrange(pos as int, pos + 2));
        x
    }
}

proof fn lemma_le4_digits(a: u8, b: u8, c: u8, d: u8, x: u32)
    requires
        x == a + 256 * b + 65536 * c + 16777216 * d,
    ensures
        x % 256 == a,
        x / 256 % 256 == b,
        x / 65536 % 256 == c,
        x / 16777216 == d,
{
    assert(x / 256 == b + 256 * c + 65536 * d);
    assert(x / 65536 == c + 256 * d);
    assert(x / 16777216 == d);
    assert(x % 256 == a);
}

impl LeBytes for u32 {
    open spec fn size() -> nat {
        4
    }

    open spec fn bytes(self) -> Seq<u8> {
        codec::le4(self)
    }

    proof fn lemma_size(self) {
    }

    fn byte_count() -> (n: usize) {
        4
    }

    fn write(self, out: &mut Vec<u8>) {
        codec::write_le4(out, self);
    }

    fn read_at(buf: &[u8], pos: usize) -> (x: u32) {
        let x: u32 = buf[pos] as u32 + 256 * (buf[pos + 1] as u32) + 65536 * (buf[pos + 2] as u32)
            + 16777216 * (buf[pos + 3] as u32);
        proof {
            lemma_le4_digits(buf@[pos as int], buf@[pos + 1], buf@[pos + 2], buf@[pos + 3], x);
            assert(codec::le4(x) =~= buf@.subrange(pos as int, pos + 4));
        }
        x
    }
}

proof fn lemma_le8_halves(low: u32, high: u32, x: u64)
    requires
        x == low + 0x1_0000_0000 * high,
    ensures
        codec::le8(x) == codec::le4(low) + codec::le4(high),
{
    assert(x % 0x1_0000_0000 == low);
    assert(x / 0x1_0000_0000 == high);
}

impl LeBytes for u64 {
    open spec fn size() -> nat {
        8
    }

    open spec fn bytes(self) -> Seq<u8> {
        codec::le8(self)
    }

    proof fn lemma_size(self) {
    }

    fn byte_count() -> (n: usize) {
        8
    }

    fn write(self, out: &mut Vec<u8>) {
        codec::write_le8(out, self);
    }

    fn read_at(buf: &[u8], pos: usize) -> (x: u64) {
        let total: usize = buf.len();
        assert(pos + 8 <= total);
        let low: u32 = <u32 as LeBytes>::read_at(buf, pos);
        let high: u32 = <u32 as LeBytes>::read_at(buf, pos + 4);
        let x: u64 = low as u64 + 0x1_0000_0000 * (high as u64);
        proof {
            lemma_le8_halves(low, high, x);
            let a = buf@.subrange(pos as int, pos + 4);
            let b = buf@.subrange(pos + 4, pos + 8);
            assert(a + b =~= buf@.subrange(pos as int, pos + 8));
        }
        x
    }
}

/// Numbers one after the other.
pub open spec fn le_items<T: LeBytes>(v: Seq<T>) -> Seq<u8>
    decreases v.len(),
{
    if v.len() == 0 {
        Seq::<u8>::empty()
    } else {
        le_items(v.drop_last()) + v.last().bytes()
    }
}

/// Numbers one after the other, in little-endian order.
pub fn encode_slice_le<T: LeBytes>(vals: &[T]) -> (out: Vec<u8>)
    ensures
        out@ == le_items(vals@),
{
    let mut out: Vec<u8> = Vec::new();
    let mut i: usize = 0;
    while i < vals.len()
        invariant
            i <= vals@.len(),
            out@ == le_items(vals@.take(i as int)),
        decreases vals@.len() - i,
    {
        assert(vals@.take(i + 1).drop_last() =~= vals@.take(i as int));
        vals[i].write(&mut out);
        i = i + 1;
    }
    assert(vals@.take(i as int) =~= vals@);
    out
}

pub(crate) fn decode_le<T: LeBytes>(buf: &[u8]) -> (out: Vec<T>)
    requires
        buf@.len() % T::size() == 0,
    ensures
        le_items(out@) == buf@,
{
    let w: usize = T::byte_count();
    let total: usize = buf.len();
    let mut out: Vec<T> = Vec::new();
    let mut pos: usize = 0;
    assert(buf@.take(0) =~= Seq::<u8>::empty());
    while pos < buf.len()
        invariant
            w == T::size(),
            0 < w,
            pos <= buf@.len() == total,
            (buf@.len() - pos) % (w as int) == 0,
            le_items(out@) == buf@.take(pos as int),
        decreases buf@.len() - pos,
    {
        proof {
            let left = buf@.len() - pos;
            vstd::arithmetic::div_mod::lemma_fundamental_div_mod(left as int, w as int);
            if left < w {
                vstd::arithmetic::div_mod::lemma_small_mod(left as nat, w as nat);
            }
            vstd::arithmetic::div_mod::lemma_mod_sub_multiples_vanish(left as int, w as int);
        }
        let x: T = T::read_at(buf, pos);
        let ghost before = out@;
        out.push(x);
        proof {
            assert(out@.drop_last() =~= before);
            assert(buf@.take(pos as int) + buf@.subrange(pos as int, pos + w) =~= buf@.take(
                pos + w,
            ));
        }
        pos = pos + w;
    }
    assert(buf@.take(pos as int) =~= buf@);
    out
}

/// A packet.
pub struct Packet {
    ty: DataType,
    endpoints: Vec<DataEndpoint>,
    sender: String,
    address: u32,
    timestamp: u64,
    payload: Vec<u8>,
    nonce: u16,
    element: MessageElement,
    inline_shape: bool,
    targets: Vec<u64>,
}

impl View for Packet {
    type V = PacketSpec;

    closed spec fn view(&self) -> PacketSpec {
        PacketSpec {
            ty: self.ty,
            endpoints: self.endpoints@,
            sender: self.sender@,
            address: self.address,
            timestamp: self.timestamp,
            payload: self.payload@,
            nonce: self.nonce,
            element: self.element,
            inline_shape: self.inline_shape,
            targets: self.targets@,
        }
    }
}

/// What size an error names as expected.
pub fn expected_len(e: MessageElement) -> (n: usize)
    ensures
        n == expected_size(e),
{
    match e {
        MessageElement::Static(_, _, _) => {
            let n: u64 = e.needed_size();
            if n <= usize::MAX as u64 {
                n as usize
            } else {
                usize::MAX
            }
        },
        MessageElement::Dynamic(dt, _) => dt.byte_width(),
    }
}

/// Checks endpoints and payload length against a shape.
pub fn check_packet(e: MessageElement, endpoints: &[DataEndpoint], len: usize) -> (r:
    TelemetryResult<()>)
    ensures
        match packet_fault(e, endpoints@, len as nat) {
            Some(f) => r == Err::<(), TelemetryError>(f),
            None => r is Ok,
        },
{
    if endpoints.len() == 0 {
        return Err(TelemetryError::EmptyEndpoints);
    }
    if len as u64 > MAX_PAYLOAD {
        return Err(TelemetryError::SizeMismatchError);
    }
    if !e.accepts(len) {
        return Err(TelemetryError::SizeMismatch { expected: expected_len(e), got: len });
    }
    Ok(())
}

/// The view of a packet that `Packet::new` makes.
pub open spec fn new_packet(
    t: definition::TypeSpec,
    endpoints: Seq<DataEndpoint>,
    sender: Seq<char>,
    timestamp: u64,
    payload: Seq<u8>,
    nonce: u16,
) -> PacketSpec {
    PacketSpec {
        ty: t.id,
        endpoints,
        sender,
        address: hash::name_address(sender),
        timestamp,
        payload,
        nonce,
        element: t.element,
        inline_shape: false,
        targets: Seq::<u64>::empty(),
    }
}

/// What making a packet does: it gives the packet and uses up a nonce and takes note of the
/// sender, or it gives an error and changes nothing.
pub open spec fn packet_made(
    before: Registry,
    after: Registry,
    ty: DataType,
    endpoints: Seq<DataEndpoint>,
    sender: Seq<char>,
    timestamp: u64,
    payload: Seq<u8>,
    r: TelemetryResult<Packet>,
) -> bool {
    match before.schema@.message(ty) {
        None => r == Err::<Packet, TelemetryError>(TelemetryError::InvalidType) && after == before,
        Some(t) => match packet_fault(t.element, endpoints, payload.len()) {
            Some(f) => r == Err::<Packet, TelemetryError>(f) && after == before,
            None => {
                &&& r matches Ok(p) && p@ == new_packet(
                    t,
                    endpoints,
                    sender,
                    timestamp,
                    payload,
                    before.nonce,
                )
                &&& after.schema == before.schema
                &&& after.nonce == before.nonce.wrapping_add(1)
                &&& after.known_names() == registry::with_name(before.known_names(), sender)
            },
        },
    }
}

/// What making a packet of elements of one kind does: a type with another kind is refused.
pub open spec fn typed_packet_made(
    before: Registry,
    after: Registry,
    ty: DataType,
    kind: MessageDataType,
    endpoints: Seq<DataEndpoint>,
    sender: Seq<char>,
    timestamp: u64,
    payload: Seq<u8>,
    r: TelemetryResult<Packet>,
) -> bool {
    match before.schema@.message(ty) {
        Some(t) if t.element.kind() != kind => {
            &&& r == Err::<Packet, TelemetryError>(
                TelemetryError::TypeMismatch {
                    expected: t.element.kind().number() as usize,
                    got: kind.number() as usize,
                },
            )
            &&& after == before
        },
        _ => packet_made(before, after, ty, endpoints, sender, timestamp, payload, r),
    }
}

/// What reading a payload as numbers of one kind gives: the numbers whose bytes it is made of.
pub open spec fn reads_as<T: LeBytes>(
    p: PacketSpec,
    kind: MessageDataType,
    r: TelemetryResult<Vec<T>>,
) -> bool {
    if p.element.kind() != kind {
        r == Err::<Vec<T>, TelemetryError>(
            TelemetryError::TypeMismatch {
                expected: kind.number() as usize,
                got: p.element.kind().number() as usize,
            },
        )
    } else if p.payload.len() % T::size() != 0 {
        r == Err::<Vec<T>, TelemetryError>(TelemetryError::SizeMismatchError)
    } else {
        r matches Ok(v) && le_items(v@) == p.payload
    }
}

/// The name that packets of this device carry.
pub open spec fn device_name() -> Seq<char> {
    "TEST_PLATFORM"@
}

/// The name that packets of this device carry.
pub fn device_identifier() -> (s: &'static str)
    ensures
        s@ == device_name(),
{
    "TEST_PLATFORM"
}

impl Packet {
    /// Makes a packet.
    pub fn new(
        reg: &mut Registry,
        ty: DataType,
        endpoints: &[DataEndpoint],
        sender: &str,
        timestamp: u64,
        payload: Vec<u8>,
    ) -> (r: TelemetryResult<Packet>)
        ensures
            packet_made(
                *old(reg),
                *final(reg),
                ty,
                endpoints@,
                sender@,
                timestamp,
                payload@,
                r,
            ),
    {
        let element: MessageElement = match reg.schema.message_meta(ty) {
            Some(t) => t.element,
            None => return Err(TelemetryError::InvalidType),
        };
        proof {
            table::lemma_lookup_sound::<definition::DataTypeDefinition>(reg.schema@.types, ty);
        }
        match check_packet(element, endpoints, payload.len()) {
            Ok(_) => {},
            Err(e) => return Err(e),
        }
        let nonce: u16 = reg.take_nonce();
        reg.note_sender(sender);
        let p = Packet {
            ty,
            endpoints: codec::copy_u32(endpoints),
            sender: sender.to_owned(),
            address: hash::sender_address_u32(sender),
            timestamp,
            payload,
            nonce,
            element,
            inline_shape: false,
            targets: Vec::new(),
        };
        assert(p@.targets =~= Seq::<u64>::empty());
        Ok(p)
    }

    /// Puts a packet together from its parts.
    pub(crate) fn from_parts(
        ty: DataType,
        endpoints: Vec<DataEndpoint>,
        sender: String,
        address: u32,
        timestamp: u64,
        payload: Vec<u8>,
        nonce: u16,
        element: MessageElement,
        inline_shape: bool,
        targets: Vec<u64>,
    ) -> (p: Packet)
        ensures
            p@ == (PacketSpec {
                ty,
                endpoints: endpoints@,
                sender: sender@,
                address,
                timestamp,
                payload: payload@,
                nonce,
                element,
                inline_shape,
                targets: targets@,
            }),
    {
        Packet {
            ty,
            endpoints,
            sender,
            address,
            timestamp,
            payload,
            nonce,
            element,
            inline_shape,
            targets,
        }
    }

    fn of_kind(
        reg: &mut Registry,
        ty: DataType,
        kind: MessageDataType,
        endpoints: &[DataEndpoint],
        timestamp: u64,
        payload: Vec<u8>,
    ) -> (r: TelemetryResult<Packet>)
        ensures
            typed_packet_made(
                *old(reg),
                *final(reg),
                ty,
                kind,
                endpoints@,
                device_name(),
                timestamp,
                payload@,
                r,
            ),
    {
        match reg.schema.message_meta(ty) {
            Some(t) => {
                let k: MessageDataType = t.element.data_type();
                if k != kind {
                    return Err(
                        TelemetryError::TypeMismatch {
                            expected: k.as_number() as usize,
                            got: kind.as_number() as usize,
                        },
                    );
                }
            },
            None => {},
        }
        Packet::new(reg, ty, endpoints, device_identifier(), timestamp, payload)
    }

    /// Makes a packet of this device from single-precision numbers, given by their bits.
    pub fn from_f32_bits(
        reg: &mut Registry,
        ty: DataType,
        vals: &[u32],
        endpoints: &[DataEndpoint],
        timestamp: u64,
    ) -> (r: TelemetryResult<Packet>)
        ensures
            typed_packet_made(
                *old(reg),
                *final(reg),
                ty,
                MessageDataType::Float32,
                endpoints@,
                device_name(),
                timestamp,
                le_items(vals@),
                r,
            ),
    {
        Packet::of_kind(
            reg,
            ty,
            MessageDataType::Float32,
            endpoints,
            timestamp,
            encode_slice_le(vals),
        )
    }

    /// Makes a packet of this device from a text.
    pub fn from_str_slice(
        reg: &mut Registry,
        ty: DataType,
        val: &str,
        endpoints: &[DataEndpoint],
        timestamp: u64,
    ) -> (r: TelemetryResult<Packet>)
        ensures
            typed_packet_made(
                *old(reg),
                *final(reg),
                ty,
                MessageDataType::String,
                endpoints@,
                device_name(),
                timestamp,
                vstd::utf8::encode_utf8(val@),
                r,
            ),
    {
        let mut payload: Vec<u8> = Vec::new();
        codec::write_bytes(&mut payload, val.as_bytes());
        assert(payload@ =~= vstd::utf8::encode_utf8(val@));
        Packet::of_kind(reg, ty, MessageDataType::String, endpoints, timestamp, payload)
    }

    /// Makes a packet of this device from truth values, one byte each.
    pub fn from_bool_slice(
        reg: &mut Registry,
        ty: DataType,
        vals: &[bool],
        endpoints: &[DataEndpoint],
        timestamp: u64,
    ) -> (r: TelemetryResult<Packet>)
        ensures
            typed_packet_made(
                *old(reg),
                *final(reg),
                ty,
                MessageDataType::Bool,
                endpoints@,
                device_name(),
                timestamp,
                vals@.map_values(|b: bool| definition::flag_byte(b)),
                r,
            ),
    {
        let mut payload: Vec<u8> = Vec::new();
        let mut i: usize = 0;
        while i < vals.len()
            invariant
                i <= vals@.len() == vals.len(),
                payload@ == vals@.take(i as int).map_values(|b: bool| definition::flag_byte(b)),
            decreases vals@.len() - i,
        {
            payload.push(if vals[i] {
                1
            } else {
                0
            });
            i = i + 1;
        }
        assert(vals@.take(i as int) =~= vals@);
        Packet::of_kind(reg, ty, MessageDataType::Bool, endpoints, timestamp, payload)
    }

    /// Makes a packet of this device without a payload.
    pub fn from_no_data(
        reg: &mut Registry,
        ty: DataType,
        endpoints: &[DataEndpoint],
        timestamp: u64,
    ) -> (r: TelemetryResult<Packet>)
        ensures
            typed_packet_made(
                *old(reg),
                *final(reg),
                ty,
                MessageDataType::NoData,
                endpoints@,
                device_name(),
                timestamp,
                Seq::<u8>::empty(),
                r,
            ),
    {
        Packet::of_kind(reg, ty, MessageDataType::NoData, endpoints, timestamp, Vec::new())
    }

    /// The same packet with another nonce.
    pub fn with_nonce(self, nonce: u16) -> (r: Packet)
        ensures
            r@ == (PacketSpec { nonce, ..self@ }),
    {
        let mut p = self;
        p.nonce = nonce;
        p
    }

    /// The same packet, read by another shape.
    pub(crate) fn with_element(self, element: MessageElement) -> (r: Packet)
        ensures
            r@ == (PacketSpec { element, ..self@ }),
    {
        let mut p = self;
        p.element = element;
        p
    }

    /// The same packet, for some boards only and with its shape said in its frames or not.
    pub fn with_wire_contract(self, inline_shape: bool, targets: Vec<u64>) -> (r: Packet)
        ensures
            r@ == (PacketSpec { inline_shape, targets: targets@, ..self@ }),
    {
        let mut p = self;
        p.inline_shape = inline_shape;
        p.targets = targets;
        p
    }

    /// A copy of the packet.
    pub fn copied(&self) -> (r: Packet)
        ensures
            r@ == self@,
    {
        let mut targets: Vec<u64> = Vec::new();
        let mut i: usize = 0;
        while i < self.targets.len()
            invariant
                i <= self.targets@.len(),
                targets@ == self.targets@.take(i as int),
            decreases self.targets@.len() - i,
        {
            targets.push(self.targets[i]);
            i = i + 1;
        }
        assert(self.targets@.take(i as int) =~= self.targets@);
        assert(self.payload@.subrange(0, self.payload@.len() as int) =~= self.payload@);
        Packet {
            ty: self.ty,
            endpoints: codec::copy_u32(&self.endpoints),
            sender: self.sender.clone(),
            address: self.address,
            timestamp: self.timestamp,
            payload: codec::copy_range(&self.payload, 0, self.payload.len()),
            nonce: self.nonce,
            element: self.element,
            inline_shape: self.inline_shape,
            targets,
        }
    }

    pub fn data_type(&self) -> (r: DataType)
        ensures
            r == self@.ty,
    {
        self.ty
    }

    /// Bytes of the payload.
    pub fn data_size(&self) -> (r: usize)
        ensures
            r == self@.payload.len(),
    {
        self.payload.len()
    }

    pub fn sender(&self) -> (r: &str)
        ensures
            r@ == self@.sender,
    {
        self.sender.as_str()
    }

    /// The address that the sender's name hashes to.
    pub fn sender_address(&self) -> (r: u32)
        ensures
            r == self@.address,
    {
        self.address
    }

    pub fn endpoints(&self) -> (r: &[DataEndpoint])
        ensures
            r@ == self@.endpoints,
    {
        self.endpoints.as_slice()
    }

    pub fn timestamp(&self) -> (r: u64)
        ensures
            r == self@.timestamp,
    {
        self.timestamp
    }

    pub fn payload(&self) -> (r: &[u8])
        ensures
            r@ == self@.payload,
    {
        self.payload.as_slice()
    }

    pub fn nonce(&self) -> (r: u16)
        ensures
            r == self@.nonce,
    {
        self.nonce
    }

    /// The shape of the payload.
    pub fn element(&self) -> (r: MessageElement)
        ensures
            r == self@.element,
    {
        self.element
    }

    pub fn has_inline_shape(&self) -> (r: bool)
        ensures
            r == self@.inline_shape,
    {
        self.inline_shape
    }

    /// Hashes of the boards that the packet is for; none where it is for all.
    pub fn wire_target_senders(&self) -> (r: &[u64])
        ensures
            r@ == self@.targets,
    {
        self.targets.as_slice()
    }

    /// The number that the packet is known by.
    pub fn packet_id(&self) -> (id: u64)
        ensures
            id == packet_identity(self@),
    {
        let mut b: Vec<u8> = Vec::new();
        codec::write_le4(&mut b, self.address);
        codec::write_le4(&mut b, self.ty);
        codec::write_le8(&mut b, self.timestamp);
        codec::write_le2(&mut b, self.nonce);
        let bm: Vec<u8> = endpoint_set::bitmap_of(&self.endpoints);
        codec::write_bytes(&mut b, &bm);
        codec::write_bytes(&mut b, &self.payload);
        proof {
            let head = codec::le4(self.address) + codec::le4(self.ty) + codec::le8(self.timestamp)
                + codec::le2(self.nonce);
            assert(Seq::<u8>::empty() + codec::le4(self.address) =~= codec::le4(self.address));
            assert(b@ =~= identity_bytes(self@));
        }
        hash::hash_bytes_u64(PACKET_SEED, &b)
    }

    /// Checks the packet against its shape.
    pub fn validate(&self) -> (r: TelemetryResult<()>)
        ensures
            match packet_fault(self@.element, self@.endpoints, self@.payload.len()) {
                Some(f) => r == Err::<(), TelemetryError>(f),
                None => r is Ok,
            },
    {
        check_packet(self.element, &self.endpoints, self.payload.len())
    }

    fn numbers<T: LeBytes>(&self, kind: MessageDataType) -> (r: TelemetryResult<Vec<T>>)
        ensures
            reads_as(self@, kind, r),
    {
        let k: MessageDataType = self.element.data_type();
        if k != kind {
            return Err(
                TelemetryError::TypeMismatch {
                    expected: kind.as_number() as usize,
                    got: k.as_number() as usize,
                },
            );
        }
        if self.payload.len() % T::byte_count() != 0 {
            return Err(TelemetryError::SizeMismatchError);
        }
        Ok(decode_le(&self.payload))
    }

    pub fn data_as_u8(&self) -> (r: TelemetryResult<Vec<u8>>)
        ensures
            reads_as(self@, MessageDataType::UInt8, r),
    {
        self.numbers(MessageDataType::UInt8)
    }

    pub fn data_as_u16(&self) -> (r: TelemetryResult<Vec<u16>>)
        ensures
            reads_as(self@, MessageDataType::UInt16, r),
    {
        self.numbers(MessageDataType::UInt16)
    }

    pub fn data_as_u32(&self) -> (r: TelemetryResult<Vec<u32>>)
        ensures
            reads_as(self@, MessageDataType::UInt32, r),
    {
        self.numbers(MessageDataType::UInt32)
    }

    pub fn data_as_u64(&self) -> (r: TelemetryResult<Vec<u64>>)
        ensures
            reads_as(self@, MessageDataType::UInt64, r),
    {
        self.numbers(MessageDataType::UInt64)
    }

    /// The bits of the single-precision numbers in the payload.
    pub fn data_as_f32_bits(&self) -> (r: TelemetryResult<Vec<u32>>)
        ensures
            reads_as(self@, MessageDataType::Float32, r),
    {
        self.numbers(MessageDataType::Float32)
    }

    /// The bits of the double-precision numbers in the payload.
    pub fn data_as_f64_bits(&self) -> (r: TelemetryResult<Vec<u64>>)
        ensures
            reads_as(self@, MessageDataType::Float64, r),
    {
        self.numbers(MessageDataType::Float64)
    }

    /// The truth values in the payload: every byte but zero is true.
    pub fn data_as_bool(&self) -> (r: TelemetryResult<Vec<bool>>)
        ensures
            self@.element.kind() != MessageDataType::Bool ==> r == Err::<Vec<bool>, TelemetryError>(
                TelemetryError::TypeMismatch {
                    expected: MessageDataType::Bool.number() as usize,
                    got: self@.element.kind().number() as usize,
                },
            ),
            self@.element.kind() == MessageDataType::Bool ==> (r matches Ok(v) && v@
                == self@.payload.map_values(|b: u8| b != 0)),
    {
        let k: MessageDataType = self.element.data_type();
        if k != MessageDataType::Bool {
            return Err(
                TelemetryError::TypeMismatch {
                    expected: MessageDataType::Bool.as_number() as usize,
                    got: k.as_number() as usize,
                },
            );
        }
        let mut out: Vec<bool> = Vec::new();
        let mut i: usize = 0;
        while i < self.payload.len()
            invariant
                i <= self.payload@.len(),
                out@ == self.payload@.take(i as int).map_values(|b: u8| b != 0),
            decreases self.payload@.len() - i,
        {
            out.push(self.payload[i] != 0);
            i = i + 1;
        }
        assert(self.payload@.take(i as int) =~= self.payload@);
        Ok(out)
    }

    /// The text in the payload, without the NUL bytes at its end; `None` where the payload is no
    /// text.
    pub fn data_as_utf8(&self) -> (r: Option<String>)
        ensures
            match payload_text(self@) {
                Some(t) => r matches Some(s) && s@ == t,
                None => r is None,
            },
    {
        if self.element.data_type() != MessageDataType::String {
            return None;
        }
        let mut n: usize = self.payload.len();
        assert(self.payload@.take(n as int) =~= self.payload@);
        while n > 0 && self.payload[n - 1] == 0
            invariant
                n <= self.payload@.len(),
                trimmed(self.payload@.take(n as int)) == trimmed(self.payload@),
            decreases n,
        {
            assert(self.payload@.take(n as int).drop_last() =~= self.payload@.take(n - 1));
            n = n - 1;
        }
        assert(self.payload@.subrange(0, n as int) =~= self.payload@.take(n as int));
        codec::text_of(codec::copy_range(&self.payload, 0, n))
    }

    /// The packet's head as text.
    pub fn header_string(&self, schema: &Schema) -> (r: String)
        ensures
            r@ == header_text(schema@, self@),
    {
        let mut out: String = "Type: ".to_owned();
        let name: String = type_label_of(schema, self.ty);
        out.append(name.as_str());
        out.append(", Data Size: ");
        text::push_decimal(&mut out, self.payload.len() as u64);
        out.append(", Sender: ");
        out.append(self.sender.as_str());
        out.append(", Endpoints: [");
        let labels: String = endpoint_labels_of(schema, &self.endpoints);
        out.append(labels.as_str());
        out.append("], Timestamp: ");
        text::push_decimal(&mut out, self.timestamp);
        out.append(" (");
        let clock: String = text::clock_string(self.timestamp);
        out.append(clock.as_str());
        out.append(")");
        out
    }

    /// The packet's head as text, and its payload in hexadecimal.
    pub fn to_hex_string(&self, schema: &Schema) -> (r: String)
        ensures
            r@ == header_text(schema@, self@) + ", Data (hex):"@ + hex_text(self@.payload),
    {
        let mut out: String = self.header_string(schema);
        out.append(", Data (hex):");
        let hex: String = hex_text_of(&self.payload);
        out.append(hex.as_str());
        out
    }

    /// The packet as text, with `data` in the place of its payload.
    pub fn text_with(&self, schema: &Schema, data: &str) -> (r: String)
        ensures
            r@ == framed_text(schema@, self@, data@),
    {
        let mut out: String = "{".to_owned();
        let head: String = self.header_string(schema);
        out.append(head.as_str());
        if self.element.class() == MessageClass::Error {
            out.append(", Error: (");
        } else {
            out.append(", Data: (");
        }
        out.append(data);
        out.append(")}");
        out
    }

    /// The packet as text.
    pub fn as_string(&self, schema: &Schema) -> (r: String)
        ensures
            r@ == packet_text(schema@, self@),
    {
        let data: String = match self.data_as_utf8() {
            Some(t) => {
                let mut x: String = "\"".to_owned();
                x.append(t.as_str());
                x.append("\"");
                x
            },
            None => hex_text_of(&self.payload),
        };
        self.text_with(schema, data.as_str())
    }
}

fn type_label_of(schema: &Schema, id: DataType) -> (r: String)
    ensures
        r@ == type_label(schema@, id),
{
    match schema.message_meta(id) {
        Some(t) => t.name.clone(),
        None => {
            let mut out: String = "TYPE_".to_owned();
            text::push_decimal(&mut out, id as u64);
            out
        },
    }
}

/// The name of an endpoint, or one made from its number.
pub fn endpoint_label_of(schema: &Schema, id: DataEndpoint) -> (r: String)
    ensures
        r@ == endpoint_label(schema@, id),
{
    match schema.endpoint_definition(id) {
        Some(e) => e.name.clone(),
        None => {
            let mut out: String = "ENDPOINT_".to_owned();
            text::push_decimal(&mut out, id as u64);
            out
        },
    }
}

fn endpoint_labels_of(schema: &Schema, ids: &[DataEndpoint]) -> (r: String)
    ensures
        r@ == endpoint_labels(schema@, ids@),
{
    if ids.len() == 0 {
        return "".to_owned();
    }
    let mut out: String = endpoint_label_of(schema, ids[0]);
    let mut i: usize = 1;
    while i < ids.len()
        invariant
            1 <= i <= ids@.len(),
            out@ == endpoint_labels(schema@, ids@.take(i as int)),
        decreases ids@.len() - i,
    {
        assert(ids@.take(i + 1).drop_last() =~= ids@.take(i as int));
        out.append(", ");
        let label: String = endpoint_label_of(schema, ids[i]);
        out.append(label.as_str());
        i = i + 1;
    }
    assert(ids@.take(i as int) =~= ids@);
    out
}

fn hex_text_of(b: &[u8]) -> (r: String)
    ensures
        r@ == hex_text(b@),
{
    let mut out: String = "".to_owned();
    let mut i: usize = 0;
    while i < b.len()
        invariant
            i <= b@.len(),
            out@ == hex_text(b@.take(i as int)),
        decreases b@.len() - i,
    {
        assert(b@.take(i + 1).drop_last() =~= b@.take(i as int));
        out.append(" 0x");
        text::push_hex2(&mut out, b[i]);
        i = i + 1;
    }
    assert(b@.take(i as int) =~= b@);
    out
}

/// Packets that differ in the order of their endpoints only are known by the same number.
pub proof fn lemma_identity_ignores_order(a: PacketSpec, b: PacketSpec)
    requires
        a.address == b.address,
        a.ty == b.ty,
        a.timestamp == b.timestamp,
        a.nonce == b.nonce,
        a.payload == b.payload,
        forall|x: DataEndpoint| a.endpoints.contains(x) <==> b.endpoints.contains(x),
    ensures
        packet_identity(a) == packet_identity(b),
{
    endpoint_set::lemma_order_does_not_count(a.endpoints, b.endpoints);
}

} // verus!
