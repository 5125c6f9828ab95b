//! The schema that boards of a common fleet share, packets that are sent often, and how traffic
//! is counted.
use vstd::prelude::*;
use vstd::string::*;
use crate::address;
use crate::codec;
use crate::definition::{DataTypeDefinition, EndpointDefinition, EndpointSpec, TypeSpec};
use crate::encounter;
use crate::encounter::{Crossing, Join, Pair, CROSSED_LINK};
use crate::error::{TelemetryError, TelemetryResult};
use crate::jobs::Handler;
use crate::meeting;
use crate::meta::{
    DataEndpoint, DataType, E2eEncryptionPolicy, MessageClass, MessageDataType, MessageElement,
    ReliableMode, FIRST_USER_ENDPOINT, FIRST_USER_TYPE, MAX_VALUE_DATA_ENDPOINT,
    MAX_VALUE_DATA_TYPE,
};
use crate::packet;
use crate::packet::{Packet, PacketSpec};
use crate::registry::Registry;
use crate::schema;
use crate::schema::{Schema, SchemaSpec};
use crate::station::Station;
use crate::transport::LinkOptions;
use crate::wire_format;

verus! {

/// Bytes of a text that stands for any text.
pub const STATIC_STRING_LENGTH: usize = 1024;

/// Bytes of a payload that stands for any bytes.
pub const STATIC_HEX_LENGTH: usize = 1024;

/// A number of bytes that a payload of this shape can have.
pub open spec fn sample_len(e: MessageElement) -> nat {
    match e {
        MessageElement::Static(_, _, _) => e.static_size(),
        MessageElement::Dynamic(MessageDataType::String, _) => STATIC_STRING_LENGTH as nat,
        MessageElement::Dynamic(MessageDataType::Binary, _) => STATIC_HEX_LENGTH as nat,
        MessageElement::Dynamic(dt, _) => dt.width(),
    }
}

/// A payload of that many bytes has the shape.
pub proof fn lemma_sample_fits(e: MessageElement)
    ensures
        e.fits(sample_len(e)),
{
}

/// A number of bytes that a payload of a message type can have.
pub fn test_payload_len_for(schema: &Schema, ty: DataType) -> (n: u64)
    requires
        schema@.message(ty) is Some,
    ensures
        n == sample_len(schema@.message(ty)->0.element),
{
    match schema.message_meta(ty) {
        Some(t) => match t.element {
            MessageElement::Static(_, _, _) => t.element.needed_size(),
            MessageElement::Dynamic(dt, _) => {
                if dt == MessageDataType::String {
                    STATIC_STRING_LENGTH as u64
                } else if dt == MessageDataType::Binary {
                    STATIC_HEX_LENGTH as u64
                } else {
                    dt.byte_width() as u64
                }
            },
        },
        None => 0,
    }
}

/// A schema in which a name stands for an endpoint, and the number of the endpoint.
pub open spec fn with_named_endpoint(
    s: SchemaSpec,
    name: Seq<char>,
    description: Seq<char>,
) -> Option<(SchemaSpec, DataEndpoint)> {
    match s.endpoint_named(name) {
        Some(e) => Some((s, e.id)),
        None => match schema::free_id::<EndpointDefinition>(
            s.endpoints,
            FIRST_USER_ENDPOINT as int,
            MAX_VALUE_DATA_ENDPOINT as int,
        ) {
            Some(id) => match s.with_endpoint(
                EndpointSpec { id, name, description, link_local_only: false },
            ) {
                Some(t) => Some((t, id)),
                None => None,
            },
            None => None,
        },
    }
}

/// The definition of positions.
pub open spec fn gps_type(id: DataType, radio: DataEndpoint, sd_card: DataEndpoint) -> TypeSpec {
    TypeSpec {
        id,
        name: "GPS_DATA"@,
        description: "test gps data type"@,
        element: MessageElement::Static(3, MessageDataType::Float32, MessageClass::Data),
        endpoints: seq![radio, sd_card],
        reliable: ReliableMode::BestEffort,
        priority: 1,
        e2e_encryption: E2eEncryptionPolicy::PreferOff,
    }
}

/// A schema with what all boards share; none where there is no room for it.
pub open spec fn with_common(s: SchemaSpec) -> Option<SchemaSpec> {
    match with_named_endpoint(s, "RADIO"@, "test radio endpoint"@) {
        None => None,
        Some((s1, radio)) => match with_named_endpoint(s1, "SD_CARD"@, "test sd endpoint"@) {
            None => None,
            Some((s2, sd_card)) => if s2.message_named("GPS_DATA"@) is Some {
                Some(s2)
            } else {
                match schema::free_id::<DataTypeDefinition>(
                    s2.types,
                    FIRST_USER_TYPE as int,
                    MAX_VALUE_DATA_TYPE as int,
                ) {
                    Some(id) => s2.with_type(gps_type(id, radio, sd_card)),
                    None => None,
                }
            },
        },
    }
}

/// What the attempt to define what all boards share leaves, and whether all of it is there then.
pub open spec fn common_after(s: SchemaSpec) -> (SchemaSpec, bool) {
    match with_common(s) {
        Some(t) => (t, true),
        None => match with_named_endpoint(s, "RADIO"@, "test radio endpoint"@) {
            None => (s, false),
            Some((s1, _)) => match with_named_endpoint(s1, "SD_CARD"@, "test sd endpoint"@) {
                None => (s1, false),
                Some((s2, _)) => (s2, false),
            },
        },
    }
}

fn ensure_named(schema: &mut Schema, name: &str, description: &str) -> (r: TelemetryResult<
    DataEndpoint,
>)
    requires
        old(schema)@.wf(),
    ensures
        final(schema)@.wf(),
        match with_named_endpoint(old(schema)@, name@, description@) {
            Some((s, id)) => r == Ok::<DataEndpoint, TelemetryError>(id) && final(schema)@ == s,
            None => r == Err::<DataEndpoint, TelemetryError>(TelemetryError::BadArg)
                && final(schema)@ == old(schema)@,
        },
{
    match schema.try_named_endpoint(name) {
        Some(id) => Ok(id),
        None => schema.register_endpoint_with_description(name, description, false),
    }
}

fn define_common(schema: &mut Schema) -> (r: TelemetryResult<()>)
    requires
        old(schema)@.wf(),
    ensures
        final(schema)@.wf(),
        final(schema)@ == common_after(old(schema)@).0,
        r is Ok <==> common_after(old(schema)@).1,
        r matches Err(e) ==> e == TelemetryError::BadArg,
{
    let radio: DataEndpoint = match ensure_named(schema, "RADIO", "test radio endpoint") {
        Ok(id) => id,
        Err(e) => return Err(e),
    };
    let sd_card: DataEndpoint = match ensure_named(schema, "SD_CARD", "test sd endpoint") {
        Ok(id) => id,
        Err(e) => return Err(e),
    };
    if schema.try_named_type("GPS_DATA").is_some() {
        return Ok(());
    }
    let to: [u32; 2] = [radio, sd_card];
    assert(to@ =~= seq![radio, sd_card]);
    match schema.register_data_type_with_description(
        "GPS_DATA",
        "test gps data type",
        MessageElement::Static(3, MessageDataType::Float32, MessageClass::Data),
        &to,
        ReliableMode::BestEffort,
        1,
    ) {
        Ok(_) => Ok(()),
        Err(e) => Err(e),
    }
}

/// Defines what all boards share, unless it was done before: `done` remembers that it was.
/// Nothing is defined a second time, whatever became of the definitions since.
pub fn ensure_common_test_schema(schema: &mut Schema, done: &mut bool) -> (r: TelemetryResult<()>)
    requires
        old(schema)@.wf(),
    ensures
        final(schema)@.wf(),
        *old(done) ==> r is Ok && final(schema)@ == old(schema)@ && *final(done),
        !*old(done) ==> {
            let (s, all) = common_after(old(schema)@);
            &&& final(schema)@ == s
            &&& *final(done) == all
            &&& r is Ok <==> all
            &&& r matches Err(e) ==> e == TelemetryError::BadArg
        },
{
    if *done {
        return Ok(());
    }
    let r: TelemetryResult<()> = define_common(schema);
    *done = r.is_ok();
    r
}

proof fn lemma_named_stays(s: SchemaSpec, e: EndpointSpec, name: Seq<char>)
    requires
        s.endpoint_named(name) is Some,
        s.with_endpoint(e) is Some,
    ensures
        s.with_endpoint(e)->0.endpoint_named(name) is Some,
{
    let t = s.with_endpoint(e)->0;
    if t != s {
        assert(t.endpoints.drop_last() =~= s.endpoints);
    }
}

/// Where all is defined, defining it again changes nothing.
pub proof fn lemma_common_once(s: SchemaSpec)
    requires
        with_common(s) is Some,
    ensures
        with_common(with_common(s)->0) == with_common(s),
{
    let (s1, radio) = with_named_endpoint(s, "RADIO"@, "test radio endpoint"@)->0;
    let (s2, sd_card) = with_named_endpoint(s1, "SD_CARD"@, "test sd endpoint"@)->0;
    lemma_named(s, "RADIO"@, "test radio endpoint"@);
    lemma_named(s1, "SD_CARD"@, "test sd endpoint"@);
    if s1.endpoint_named("SD_CARD"@) is None {
        let id = schema::free_id::<EndpointDefinition>(
            s1.endpoints,
            FIRST_USER_ENDPOINT as int,
            MAX_VALUE_DATA_ENDPOINT as int,
        )->0;
        lemma_named_stays(
            s1,
            EndpointSpec {
                id,
                name: "SD_CARD"@,
                description: "test sd endpoint"@,
                link_local_only: false,
            },
            "RADIO"@,
        );
    }
    let t = with_common(s)->0;
    assert(t.endpoints == s2.endpoints);
    if s2.message_named("GPS_DATA"@) is None {
        let id = schema::free_id::<DataTypeDefinition>(
            s2.types,
            FIRST_USER_TYPE as int,
            MAX_VALUE_DATA_TYPE as int,
        )->0;
        schema::lemma_free_id_is_free::<DataTypeDefinition>(
            s2.types,
            FIRST_USER_TYPE as int,
            MAX_VALUE_DATA_TYPE as int,
        );
        assert(t.types == s2.types.push(gps_type(id, radio, sd_card)));
        assert(t.types.last() == gps_type(id, radio, sd_card));
    }
    assert(t.message_named("GPS_DATA"@) is Some);
}

proof fn lemma_named(s: SchemaSpec, name: Seq<char>, description: Seq<char>)
    requires
        with_named_endpoint(s, name, description) is Some,
    ensures
        with_named_endpoint(s, name, description) matches Some((t, _)) && t.endpoint_named(name)
            is Some,
{
    if s.endpoint_named(name) is None {
        let id = schema::free_id::<EndpointDefinition>(
            s.endpoints,
            FIRST_USER_ENDPOINT as int,
            MAX_VALUE_DATA_ENDPOINT as int,
        )->0;
        schema::lemma_free_id_is_free::<EndpointDefinition>(
            s.endpoints,
            FIRST_USER_ENDPOINT as int,
            MAX_VALUE_DATA_ENDPOINT as int,
        );
        let e = EndpointSpec { id, name, description, link_local_only: false };
        let (t, _) = with_named_endpoint(s, name, description)->0;
        assert(t.endpoints == s.endpoints.push(e));
        assert(t.endpoints.last() == e);
    }
}

/// A payload of the sample length is one that a packet of the type can have: the packet is made,
/// for whatever endpoints, and for whichever sender and time.
pub proof fn lemma_sample_makes_packet(
    before: Registry,
    after: Registry,
    ty: DataType,
    endpoints: Seq<DataEndpoint>,
    sender: Seq<char>,
    timestamp: u64,
    payload: Seq<u8>,
    r: TelemetryResult<Packet>,
)
    requires
        before.schema@.wf(),
        before.schema@.message(ty) matches Some(t) && payload.len() == sample_len(t.element),
        endpoints.len() > 0,
        packet::packet_made(before, after, ty, endpoints, sender, timestamp, payload, r),
    ensures
        r matches Ok(p) && p@.payload == payload,
{
    let t = before.schema@.message(ty)->0;
    lemma_sample_fits(t.element);
    assert(schema::has_packets(t.element));
    assert(packet::packet_fault(t.element, endpoints, payload.len()) is None);
}

/// The type of the message in a frame.
pub open spec fn frame_type(sc: SchemaSpec, w: Seq<u8>) -> Option<DataType> {
    match wire_format::peek(sc, w) {
        Ok((h, _)) => Some(h.scalars.ty),
        Err(_) => None,
    }
}

/// The type of the message in a frame; none where the frame cannot be read.
pub fn packed_frame_type(reg: &Registry, bytes: &[u8]) -> (r: Option<DataType>)
    ensures
        r == frame_type(reg.schema@, bytes@),
{
    match wire_format::peek_envelope(reg, bytes) {
        Ok(env) => Some(env.ty),
        Err(_) => None,
    }
}

/// How many of the frames hold a message of a type.
pub open spec fn frames_of_type(sc: SchemaSpec, frames: Seq<Vec<u8>>, ty: DataType) -> nat
    decreases frames.len(),
{
    if frames.len() == 0 {
        0
    } else {
        frames_of_type(sc, frames.drop_last(), ty) + (if frame_type(sc, frames.last()@) == Some(ty) {
            1nat
        } else {
            0nat
        })
    }
}

/// How many of the frames hold a message of a type.
pub fn count_packed_frames_of_type(reg: &Registry, frames: &[Vec<u8>], ty: DataType) -> (n: usize)
    ensures
        n == frames_of_type(reg.schema@, frames@, ty),
{
    let mut n: usize = 0;
    let mut i: usize = 0;
    let total: usize = frames.len();
    assert(frames@.take(0) =~= Seq::<Vec<u8>>::empty());
    while i < total
        invariant
            i <= total == frames@.len(),
            n <= i,
            n == frames_of_type(reg.schema@, frames@.take(i as int), ty),
        decreases total - i,
    {
        assert(frames@.take(i + 1).drop_last() =~= frames@.take(i as int));
        let here: bool = match packed_frame_type(reg, frames[i].as_slice()) {
            Some(t) => t == ty,
            None => false,
        };
        if here {
            n = n + 1;
        }
        i = i + 1;
    }
    assert(frames@.take(i as int) =~= frames@);
    n
}

/// How many of the packets are of a type.
pub open spec fn packets_of_type(pkts: Seq<Packet>, ty: DataType) -> nat
    decreases pkts.len(),
{
    if pkts.len() == 0 {
        0
    } else {
        packets_of_type(pkts.drop_last(), ty) + (if pkts.last()@.ty == ty {
            1nat
        } else {
            0nat
        })
    }
}

/// How many of the packets are of a type.
pub fn count_packets_of_type(pkts: &[Packet], ty: DataType) -> (n: usize)
    ensures
        n == packets_of_type(pkts@, ty),
{
    let mut n: usize = 0;
    let mut i: usize = 0;
    let total: usize = pkts.len();
    assert(pkts@.take(0) =~= Seq::<Packet>::empty());
    while i < total
        invariant
            i <= total == pkts@.len(),
            n <= i,
            n == packets_of_type(pkts@.take(i as int), ty),
        decreases total - i,
    {
        assert(pkts@.take(i + 1).drop_last() =~= pkts@.take(i as int));
        if pkts[i].data_type() == ty {
            n = n + 1;
        }
        i = i + 1;
    }
    assert(pkts@.take(i as int) =~= pkts@);
    n
}

/// Packets of a type are counted alike as packets and as the frames that carry them.
pub proof fn lemma_counts_agree(
    sc: SchemaSpec,
    pkts: Seq<Packet>,
    frames: Seq<Vec<u8>>,
    ty: DataType,
)
    requires
        pkts.len() == frames.len(),
        forall|i: int|
            0 <= i < pkts.len() ==> wire_format::can_travel(sc, #[trigger] pkts[i]@)
                && frames[i]@ == wire_format::frame(sc, pkts[i]@, None),
    ensures
        frames_of_type(sc, frames, ty) == packets_of_type(pkts, ty),
    decreases pkts.len(),
{
    if pkts.len() > 0 {
        let n = pkts.len() - 1;
        let p = pkts[n]@;
        assert(wire_format::can_travel(sc, pkts[n]@));
        wire_format::lemma_frame_shows_type(sc, p, None);
        assert forall|i: int| 0 <= i < pkts.drop_last().len() implies wire_format::can_travel(
            sc,
            #[trigger] pkts.drop_last()[i]@,
        ) && frames.drop_last()[i]@ == wire_format::frame(sc, pkts.drop_last()[i]@, None) by {
            assert(wire_format::can_travel(sc, pkts[i]@));
        }
        lemma_counts_agree(sc, pkts.drop_last(), frames.drop_last(), ty);
    }
}

/// The packets of some types together.
pub open spec fn packets_of_types(pkts: Seq<Packet>, types: Seq<DataType>) -> nat
    decreases types.len(),
{
    if types.len() == 0 {
        0
    } else {
        packets_of_types(pkts, types.drop_last()) + packets_of_type(pkts, types.last())
    }
}

proof fn lemma_one_more(pkts: Seq<Packet>, types: Seq<DataType>)
    requires
        pkts.len() > 0,
        types.no_duplicates(),
    ensures
        packets_of_types(pkts, types) == packets_of_types(pkts.drop_last(), types) + (
        if types.contains(pkts.last()@.ty) {
            1nat
        } else {
            0nat
        }),
    decreases types.len(),
{
    if types.len() > 0 {
        let front = types.drop_last();
        lemma_one_more(pkts, front);
        let ty = pkts.last()@.ty;
        if front.contains(ty) {
            let k = choose|k: int| 0 <= k < front.len() && front[k] == ty;
            assert(types[k] == ty && types.last() != ty);
        } else if types.contains(ty) {
            let k = choose|k: int| 0 <= k < types.len() && types[k] == ty;
            if k < front.len() {
                assert(front[k] == ty);
            }
        } else {
            assert(types[types.len() - 1] != ty);
        }
    }
}

/// The counts of the types add up to the number of packets.
pub proof fn lemma_counts_add_up(pkts: Seq<Packet>, types: Seq<DataType>)
    requires
        types.no_duplicates(),
        forall|i: int| 0 <= i < pkts.len() ==> types.contains(#[trigger] pkts[i]@.ty),
    ensures
        packets_of_types(pkts, types) == pkts.len(),
    decreases pkts.len(),
{
    if pkts.len() == 0 {
        lemma_none_of_types(pkts, types);
    } else {
        lemma_one_more(pkts, types);
        assert(types.contains(pkts[pkts.len() - 1]@.ty));
        assert forall|i: int| 0 <= i < pkts.drop_last().len() implies types.contains(
            #[trigger] pkts.drop_last()[i]@.ty,
        ) by {
            assert(types.contains(pkts[i]@.ty));
        }
        lemma_counts_add_up(pkts.drop_last(), types);
    }
}

proof fn lemma_none_of_types(pkts: Seq<Packet>, types: Seq<DataType>)
    requires
        pkts.len() == 0,
    ensures
        packets_of_types(pkts, types) == 0,
    decreases types.len(),
{
    if types.len() > 0 {
        lemma_none_of_types(pkts, types.drop_last());
    }
}

/// Makes a message with any payload for the card; `InvalidType` where message or card are not
/// defined.
pub fn make_message_packet(reg: &mut Registry, payload: &[u8], ts: u64) -> (r: TelemetryResult<
    Packet,
>)
    ensures
        match (
            old(reg).schema@.message_named("MESSAGE_DATA"@),
            old(reg).schema@.endpoint_named("SD_CARD"@),
        ) {
            (Some(t), Some(e)) => packet::packet_made(
                *old(reg),
                *final(reg),
                t.id,
                seq![e.id],
                "CMP_NODE"@,
                ts,
                payload@,
                r,
            ),
            _ => r == Err::<Packet, TelemetryError>(TelemetryError::InvalidType) && *final(reg)
                == *old(reg),
        },
{
    let ty: DataType = match reg.schema.try_named_type("MESSAGE_DATA") {
        Some(id) => id,
        None => return Err(TelemetryError::InvalidType),
    };
    let card: DataEndpoint = match reg.schema.try_named_endpoint("SD_CARD") {
        Some(id) => id,
        None => return Err(TelemetryError::InvalidType),
    };
    let to: [u32; 1] = [card];
    assert(to@ =~= seq![card]);
    let bytes: Vec<u8> = codec::copy_range(payload, 0, payload.len());
    assert(bytes@ =~= payload@);
    Packet::new(reg, ty, &to, "CMP_NODE", ts, bytes)
}

/// The numbers 19, 33 and 52 as the bits of floating-point numbers.
pub open spec fn sample_position() -> Seq<u32> {
    seq![0x4198_0000u32, 0x4204_0000u32, 0x4250_0000u32]
}

/// Makes a packet with a position for the card and the radio; `InvalidType` where one of them is
/// not defined.
pub fn fake_telemetry_packet_bytes(reg: &mut Registry) -> (r: TelemetryResult<Packet>)
    ensures
        match (
            old(reg).schema@.message_named("GPS_DATA"@),
            old(reg).schema@.endpoint_named("SD_CARD"@),
            old(reg).schema@.endpoint_named("RADIO"@),
        ) {
            (Some(t), Some(card), Some(radio)) => packet::typed_packet_made(
                *old(reg),
                *final(reg),
                t.id,
                MessageDataType::Float32,
                seq![card.id, radio.id],
                packet::device_name(),
                1_123_581_321,
                packet::le_items(sample_position()),
                r,
            ),
            _ => r == Err::<Packet, TelemetryError>(TelemetryError::InvalidType) && *final(reg)
                == *old(reg),
        },
{
    let ty: DataType = match reg.schema.try_named_type("GPS_DATA") {
        Some(id) => id,
        None => return Err(TelemetryError::InvalidType),
    };
    let card: DataEndpoint = match reg.schema.try_named_endpoint("SD_CARD") {
        Some(id) => id,
        None => return Err(TelemetryError::InvalidType),
    };
    let radio: DataEndpoint = match reg.schema.try_named_endpoint("RADIO") {
        Some(id) => id,
        None => return Err(TelemetryError::InvalidType),
    };
    let to: [u32; 2] = [card, radio];
    assert(to@ =~= seq![card, radio]);
    let vals: [u32; 3] = [0x4198_0000u32, 0x4204_0000u32, 0x4250_0000u32];
    assert(vals@ =~= sample_position());
    Packet::from_f32_bits(reg, ty, &vals, &to, 1_123_581_321)
}

/// Who takes packets for the card, and how many came.
#[derive(Debug, Clone, Copy, PartialEq, Eq, Structural)]
pub struct PacketCounter {
    pub handler: Handler,
    /// Packets that came, modulo the numbers that there are.
    pub count: usize,
}

/// Who counts packets for the card, on from `count`; none where there is no card.
pub fn get_handler(schema: &Schema, count: usize) -> (r: Option<PacketCounter>)
    ensures
        r == (match schema@.endpoint_named("SD_CARD"@) {
            Some(e) => Some(
                PacketCounter { handler: Handler { endpoint: e.id, packed: false }, count },
            ),
            None => None,
        }),
{
    match bind_sd_card(schema) {
        Some(handler) => Some(PacketCounter { handler, count }),
        None => None,
    }
}

impl PacketCounter {
    /// Takes a packet, whatever it is, and counts it.
    pub fn take(&mut self, p: &Packet) -> (r: TelemetryResult<()>)
        ensures
            r is Ok,
            final(self).handler == old(self).handler,
            final(self).count == old(self).count.wrapping_add(1),
            *final(self) == old(self).after(1),
    {
        proof {
            let w: int = usize::MAX + 1;
            if self.count < usize::MAX {
                vstd::arithmetic::div_mod::lemma_small_mod((self.count + 1) as nat, w as nat);
            } else {
                vstd::arithmetic::div_mod::lemma_mod_self_0(w);
            }
        }
        self.count = self.count.wrapping_add(1);
        Ok(())
    }

    /// The counter after so many packets.
    pub open spec fn after(self, packets: nat) -> PacketCounter {
        PacketCounter {
            count: ((self.count + packets) % (usize::MAX + 1)) as usize,
            ..self
        }
    }
}

/// Packets that come one after the other are all counted.
pub proof fn lemma_every_packet_counts(c: PacketCounter, m: nat, n: nat)
    ensures
        c.after(m).after(n) == c.after(m + n),
        c.after(0) == c,
{
    let w: int = usize::MAX + 1;
    vstd::arithmetic::div_mod::lemma_small_mod(c.count as nat, w as nat);
    vstd::arithmetic::div_mod::lemma_add_mod_noop_right(n as int, c.count + m, w);
}

/// Bytes of one element of a message type.
pub open spec fn element_bytes(e: MessageElement) -> nat {
    if e.elements() == 0 {
        0
    } else {
        e.static_size() / e.elements()
    }
}

/// Whether a packet is a position of numbers of four bytes.
pub open spec fn is_position(sc: SchemaSpec, p: PacketSpec) -> bool {
    sc.message_named("GPS_DATA"@) matches Some(t) && t.id == p.ty && element_bytes(t.element) == 4
}

/// What the card keeps of a packet: its type, and the numbers of four bytes in it. Only positions
/// are for the card.
pub fn get_sd_card_handler(schema: &Schema, p: &Packet) -> (r: (DataType, Vec<u32>))
    requires
        is_position(schema@, p@),
    ensures
        r.0 == p@.ty,
        packet::le_items(r.1@) == p@.payload.take(p@.payload.len() - p@.payload.len() % 4),
{
    let all: &[u8] = p.payload();
    let whole: usize = all.len() - all.len() % 4;
    let bytes: Vec<u8> = codec::copy_range(all, 0, whole);
    assert(bytes@ =~= p@.payload.take(p@.payload.len() - p@.payload.len() % 4));
    let vals: Vec<u32> = packet::decode_le::<u32>(bytes.as_slice());
    (p.data_type(), vals)
}

/// Who keeps positions: the handler of the card; none where there is no card.
pub fn bind_sd_card(schema: &Schema) -> (r: Option<Handler>)
    ensures
        r == (match schema@.endpoint_named("SD_CARD"@) {
            Some(e) => Some(Handler { endpoint: e.id, packed: false }),
            None => None,
        }),
{
    match schema.try_named_endpoint("SD_CARD") {
        Some(id) => Some(Handler { endpoint: id, packed: false }),
        None => None,
    }
}

/// Whether a packet is a position of numbers of four bytes.
pub fn takes_position(schema: &Schema, p: &Packet) -> (b: bool)
    ensures
        b == is_position(schema@, p@),
{
    match schema.data_type_definition_by_name("GPS_DATA") {
        Some(d) => {
            let count: u64 = d.element.count() as u64;
            d.id == p.data_type() && count > 0 && d.element.needed_size() / count == 4
        },
        None => false,
    }
}

/// Copies the packet in one place to another. A place that is not there is refused, and so is a
/// packet that is not valid; copying a packet to itself does nothing.
pub fn copy_telemetry_packet_raw(
    reg: &mut Registry,
    places: &mut Vec<Packet>,
    dest: Option<usize>,
    src: Option<usize>,
) -> (r: Result<(), &'static str>)
    ensures
        match (dest, src) {
            (Some(d), Some(s)) if d < old(places)@.len() && s < old(places)@.len() => if d == s {
                &&& r is Ok
                &&& final(places)@ == old(places)@
                &&& *final(reg) == *old(reg)
            } else {
                let p = old(places)@[s as int]@;
                exists|made: TelemetryResult<Packet>|
                    {
                        &&& #[trigger] packet::packet_made(
                            *old(reg),
                            *final(reg),
                            p.ty,
                            p.endpoints,
                            p.sender,
                            p.timestamp,
                            p.payload,
                            made,
                        )
                        &&& match made {
                            Ok(q) => r is Ok && final(places)@ == old(places)@.update(d as int, q),
                            Err(_) => (r matches Err(m) && m@ == "packet validation failed"@)
                                && final(places)@ == old(places)@,
                        }
                    }
            },
            _ => (r matches Err(m) && m@ == "null packet"@) && final(places)@ == old(places)@
                && *final(reg) == *old(reg),
        },
{
    let (d, s): (usize, usize) = match (dest, src) {
        (Some(d), Some(s)) => (d, s),
        _ => return Err("null packet"),
    };
    if d >= places.len() || s >= places.len() {
        return Err("null packet");
    }
    if d == s {
        return Ok(());
    }
    let bytes: Vec<u8> = codec::copy_range(places[s].payload(), 0, places[s].payload().len());
    assert(bytes@ =~= places@[s as int]@.payload);
    let made: TelemetryResult<Packet> = Packet::new(
        reg,
        places[s].data_type(),
        places[s].endpoints(),
        places[s].sender(),
        places[s].timestamp(),
        bytes,
    );
    let ghost kept = made;
    match made {
        Ok(q) => {
            places.set(d, q);
            Ok(())
        },
        Err(_) => Err("packet validation failed"),
    }
}

/// Takes a result that says that a handler failed, and no other.
pub fn handle_errors(result: TelemetryResult<()>)
    requires
        result matches Err(TelemetryError::HandlerError(_)),
{
    match result {
        Err(TelemetryError::HandlerError(_)) => {},
        _ => {
            assert(false);
        },
    }
}

/// Whether a result says that a handler failed.
pub fn is_handler_failure(result: &TelemetryResult<()>) -> (b: bool)
    ensures
        b == (result matches Err(TelemetryError::HandlerError(_))),
{
    match result {
        Err(TelemetryError::HandlerError(_)) => true,
        _ => false,
    }
}

/// What giving a board a link to another does: there is the link, and a packet that is sent over
/// it crosses to the other board.
pub open spec fn wired(
    s: Station,
    after: Station,
    name: Seq<char>,
    r: TelemetryResult<Crossing>,
) -> bool {
    match r {
        Ok(c) => c.to == CROSSED_LINK && s.joined(
            after,
            name,
            false,
            LinkOptions::unchanged(),
            false,
            Ok(c.side),
        ),
        Err(e) => s.joined(after, name, false, LinkOptions::unchanged(), false, Err(e)),
    }
}

fn wire_up(s: &mut Station, name: &str) -> (r: TelemetryResult<Crossing>)
    requires
        old(s).wf(),
    ensures
        final(s).wf(),
        wired(*old(s), *final(s), name@, r),
{
    match s.add_side(name, false, LinkOptions::plain(), false) {
        Ok(side) => Ok(Crossing { side, to: CROSSED_LINK }),
        Err(e) => Err(e),
    }
}

/// Gives each of two boards a link to the other. A packet that a board sends over its new link is
/// handed to the other as it is, and comes there over the first link, whichever the new one is;
/// what comes of it there is handed back. That is what the crossing does that each link is given.
pub fn crosswire(a: &mut Station, b: &mut Station) -> (r: (
    TelemetryResult<Crossing>,
    TelemetryResult<Crossing>,
))
    requires
        old(a).wf(),
        old(b).wf(),
    ensures
        final(a).wf(),
        final(b).wf(),
        wired(*old(a), *final(a), "a-to-b"@, r.0),
        wired(*old(b), *final(b), "b-to-a"@, r.1),
        r.0 matches Ok(f) ==> f.to == 0,
        r.1 matches Ok(g) ==> g.to == 0,
{
    let x: TelemetryResult<Crossing> = wire_up(a, "a-to-b");
    let y: TelemetryResult<Crossing> = wire_up(b, "b-to-a");
    (x, y)
}

/// Whether every step of a meeting of two boards succeeds.
pub open spec fn exchange_succeeds(p: Pair, l: Join) -> bool {
    forall|q: Pair, r: TelemetryResult<()>| #[trigger] p.met(0, q, l, r) ==> r is Ok
}

/// Two boards that a link joins tell each other of themselves: both announce themselves, and then
/// each in turn works on all that waits, twice. Where nothing else is going on, addresses and names
/// are settled then: the second board gives way to the first where it has to, and the first to the
/// second as that stands by then; what a board gave up is there for its program to be told.
pub fn exchange_discovery(
    a: &mut Station,
    b: &mut Station,
    reg: &mut Registry,
    side_a: usize,
    side_b: usize,
    now: u64,
) -> (r: TelemetryResult<()>)
    requires
        old(a).wf(),
        old(b).wf(),
        old(reg).schema@.wf(),
        old(a).core.has_side(side_a),
        old(b).core.has_side(side_b),
        meeting::can_meet(
            (Pair { x: *old(a), y: *old(b), reg: *old(reg) }),
            (Join { side_x: side_a, side_y: side_b, now }),
        ) || exchange_succeeds(
            (Pair { x: *old(a), y: *old(b), reg: *old(reg) }),
            (Join { side_x: side_a, side_y: side_b, now }),
        ),
    ensures
        final(a).wf(),
        final(b).wf(),
        final(reg).schema@ == old(reg).schema@,
        r is Ok,
        (Pair { x: *old(a), y: *old(b), reg: *old(reg) }).met(
            0,
            (Pair { x: *final(a), y: *final(b), reg: *final(reg) }),
            (Join { side_x: side_a, side_y: side_b, now }),
            r,
        ),
        meeting::is_plain_meeting(
            (Pair { x: *old(a), y: *old(b), reg: *old(reg) }),
            (Join { side_x: side_a, side_y: side_b, now }),
        ) ==> {
            let known = old(b).known_after(
                old(a).core.identity,
                old(a).core.sender@,
                CROSSED_LINK,
                now,
            );
            let taken = address::addresses(known);
            let change = address::change(
                old(b).core.identity,
                old(b).core.sender@,
                old(a).core.identity,
                old(a).core.sender@,
                taken,
            );
            let moves = meeting::moves_in(old(b).told@);
            &&& final(b).is_quiet()
            &&& final(b).core.identity == address::resolved(
                old(b).core.identity,
                old(a).core.identity,
                taken,
            )
            &&& final(b).core.sender@ == address::name_after(
                old(b).core.identity,
                old(b).core.sender@,
                old(a).core.identity,
                old(a).core.sender@,
                taken,
            )
            &&& final(b).directory@ == known
            &&& meeting::moves_in(final(b).told@) == (match change {
                Some(c) => moves.push(c),
                None => moves,
            })
        },
        meeting::is_plain_meeting(
            (Pair { x: *old(a), y: *old(b), reg: *old(reg) }),
            (Join { side_x: side_a, side_y: side_b, now }),
        ) ==> {
            let known = old(a).known_after(
                final(b).core.identity,
                final(b).core.sender@,
                CROSSED_LINK,
                now,
            );
            let taken = address::addresses(known);
            let change = address::change(
                old(a).core.identity,
                old(a).core.sender@,
                final(b).core.identity,
                final(b).core.sender@,
                taken,
            );
            let moves = meeting::moves_in(old(a).told@);
            &&& final(a).is_quiet()
            &&& final(a).core.identity == address::resolved(
                old(a).core.identity,
                final(b).core.identity,
                taken,
            )
            &&& final(a).core.sender@ == address::name_after(
                old(a).core.identity,
                old(a).core.sender@,
                final(b).core.identity,
                final(b).core.sender@,
                taken,
            )
            &&& final(a).directory@ == known
            &&& meeting::moves_in(final(a).told@) == (match change {
                Some(c) => moves.push(c),
                None => moves,
            })
        },
{
    let r: TelemetryResult<()> = encounter::meet(a, b, reg, side_a, side_b, now);
    proof {
        let p = Pair { x: *old(a), y: *old(b), reg: *old(reg) };
        let q = Pair { x: *a, y: *b, reg: *reg };
        let l = Join { side_x: side_a, side_y: side_b, now };
        if meeting::can_meet(p, l) {
            meeting::lemma_meeting_succeeds(p, l);
        }
        assert(p.met(0, q, l, r));
        if meeting::is_plain_meeting(p, l) {
            meeting::lemma_meeting_settles(p, q, l, r);
        }
    }
    r
}

} // verus!
