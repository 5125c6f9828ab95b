//! What holds of packets as they are shown, known and filled.
use vstd::prelude::*;
use vstd::string::*;
use crate::codec;
use crate::endpoint_set;
use crate::error::TelemetryError;
use crate::jobs;
use crate::meta::{DataEndpoint, MessageClass, MessageDataType, MessageElement};
use crate::packet;
use crate::packet::{LeBytes, PacketSpec};
use crate::rle;
use crate::schema;
use crate::text;

verus! {

/// Whether a part stands in a text.
pub open spec fn shows(t: Seq<char>, part: Seq<char>) -> bool {
    exists|i: int| #[trigger] stands_at(t, part, i)
}

/// Whether a part stands in a text at a place.
pub open spec fn stands_at(t: Seq<char>, part: Seq<char>, i: int) -> bool {
    0 <= i && i + part.len() <= t.len() && t.subrange(i, i + part.len()) == part
}

proof fn lemma_stands(a: Seq<char>, part: Seq<char>, b: Seq<char>)
    ensures
        stands_at(a + part + b, part, a.len() as int),
{
    assert((a + part + b).subrange(a.len() as int, (a.len() + part.len()) as int) =~= part);
}

/// A packet's head shows, one behind the other, its type, how many bytes it carries, who sent it,
/// which endpoints it is for, and when it was made, as a number and as clock time.
pub proof fn lemma_head_shows_all(s: schema::SchemaSpec, p: PacketSpec)
    ensures
        ({
            let t = packet::header_text(s, p);
            exists|a: int, b: int, c: int, d: int, e: int|
                {
                    &&& #[trigger] stands_at(t, "Type: "@ + packet::type_label(s, p.ty), a)
                    &&& #[trigger] stands_at(t, ", Data Size: "@ + text::decimal(p.payload.len()), b)
                    &&& #[trigger] stands_at(t, ", Sender: "@ + p.sender, c)
                    &&& #[trigger] stands_at(
                        t,
                        ", Endpoints: ["@ + packet::endpoint_labels(s, p.endpoints) + "]"@,
                        d,
                    )
                    &&& #[trigger] stands_at(
                        t,
                        ", Timestamp: "@ + text::decimal(p.timestamp as nat) + " ("@
                            + text::clock_text(p.timestamp) + ")"@,
                        e,
                    )
                    &&& 0 == a < b < c < d < e
                }
        }),
{
    reveal_strlit("Type: ");
    reveal_strlit(", Data Size: ");
    reveal_strlit(", Sender: ");
    reveal_strlit(", Endpoints: [");
    reveal_strlit("]");
    reveal_strlit("], Timestamp: ");
    reveal_strlit(", Timestamp: ");
    reveal_strlit(" (");
    reveal_strlit(")");
    let none = Seq::<char>::empty();
    let t = packet::header_text(s, p);
    let p1 = "Type: "@ + packet::type_label(s, p.ty);
    let p2 = ", Data Size: "@ + text::decimal(p.payload.len());
    let p3 = ", Sender: "@ + p.sender;
    let p4 = ", Endpoints: ["@ + packet::endpoint_labels(s, p.endpoints) + "]"@;
    let p5 = ", Timestamp: "@ + text::decimal(p.timestamp as nat) + " ("@ + text::clock_text(
        p.timestamp,
    ) + ")"@;
    assert(t =~= none + p1 + (p2 + p3 + p4 + p5));
    assert(t =~= p1 + p2 + (p3 + p4 + p5));
    assert(t =~= (p1 + p2) + p3 + (p4 + p5));
    assert(t =~= (p1 + p2 + p3) + p4 + p5);
    assert(t =~= (p1 + p2 + p3 + p4) + p5 + none);
    lemma_stands(none, p1, p2 + p3 + p4 + p5);
    lemma_stands(p1, p2, p3 + p4 + p5);
    lemma_stands(p1 + p2, p3, p4 + p5);
    lemma_stands(p1 + p2 + p3, p4, p5);
    lemma_stands(p1 + p2 + p3 + p4, p5, none);
    assert(stands_at(t, p1, 0));
    assert(stands_at(t, p2, p1.len() as int));
    assert(stands_at(t, p3, (p1 + p2).len() as int));
    assert(stands_at(t, p4, (p1 + p2 + p3).len() as int));
    assert(stands_at(t, p5, (p1 + p2 + p3 + p4).len() as int));
}

/// What has a name is shown by it, and what has none by its number.
pub proof fn lemma_labels_name(s: schema::SchemaSpec, ep: DataEndpoint, ty: u32)
    ensures
        s.endpoint(ep) matches Some(e) ==> packet::endpoint_label(s, ep) == e.name,
        s.endpoint(ep) is None ==> stands_at(
            packet::endpoint_label(s, ep),
            text::decimal(ep as nat),
            packet::endpoint_label(s, ep).len() - text::decimal(ep as nat).len(),
        ),
        s.message(ty) matches Some(t) ==> packet::type_label(s, ty) == t.name,
        s.message(ty) is None ==> stands_at(
            packet::type_label(s, ty),
            text::decimal(ty as nat),
            packet::type_label(s, ty).len() - text::decimal(ty as nat).len(),
        ),
{
    let none = Seq::<char>::empty();
    let a = "ENDPOINT_"@ + text::decimal(ep as nat);
    let b = "TYPE_"@ + text::decimal(ty as nat);
    lemma_stands("ENDPOINT_"@, text::decimal(ep as nat), none);
    lemma_stands("TYPE_"@, text::decimal(ty as nat), none);
    assert(a + none =~= a);
    assert(b + none =~= b);
}

/// Every endpoint of a list is shown in it, and a list of one shows that alone; the text of a list
/// starts with that of any shorter one.
pub proof fn lemma_endpoints_are_shown(s: schema::SchemaSpec, ids: Seq<DataEndpoint>, i: int)
    requires
        0 <= i < ids.len(),
    ensures
        shows(packet::endpoint_labels(s, ids), packet::endpoint_label(s, ids[i])),
        ids.len() == 1 ==> packet::endpoint_labels(s, ids) == packet::endpoint_label(s, ids[0]),
        ids.len() > 1 ==> packet::endpoint_labels(s, ids) == packet::endpoint_labels(
            s,
            ids.drop_last(),
        ) + ", "@ + packet::endpoint_label(s, ids.last()),
    decreases ids.len(),
{
    let none = Seq::<char>::empty();
    let t = packet::endpoint_labels(s, ids);
    let last = packet::endpoint_label(s, ids.last());
    if ids.len() == 1 {
        assert(t =~= none + last + none);
        lemma_stands(none, last, none);
    } else {
        let rest = ids.drop_last();
        let front = packet::endpoint_labels(s, rest);
        if i == ids.len() - 1 {
            assert(t =~= (front + ", "@) + last + none);
            lemma_stands(front + ", "@, last, none);
        } else {
            lemma_endpoints_are_shown(s, rest, i);
            let part = packet::endpoint_label(s, ids[i]);
            let k = choose|k: int| #[trigger] stands_at(front, part, k);
            assert(t.subrange(k, k + part.len()) =~= front.subrange(k, k + part.len()));
            assert(stands_at(t, part, k));
        }
    }
}

/// Bytes are shown each behind a space, as a number of two digits that reads back as the byte.
pub proof fn lemma_bytes_are_shown(b: Seq<u8>, i: int)
    requires
        0 <= i < b.len(),
    ensures
        packet::hex_text(b).len() == 5 * b.len(),
        packet::hex_text(b).subrange(5 * i, 5 * i + 3) == seq![' ', '0', 'x'],
        text::number_in(packet::hex_text(b).subrange(5 * i + 3, 5 * i + 5), 16) == Some(
            b[i] as nat,
        ),
    decreases b.len(),
{
    reveal_strlit(" 0x");
    reveal_strlit("");
    let t = packet::hex_text(b);
    let rest = b.drop_last();
    let front = packet::hex_text(rest);
    let last = b.len() - 1;
    text::lemma_hex_reads_back(b.last());
    if rest.len() == 0 {
        assert(front.len() == 0);
    } else {
        lemma_bytes_are_shown(
            rest,
            if i < last {
                i
            } else {
                0
            },
        );
    }
    assert(front.len() == 5 * last);
    if i == last {
        assert(t.subrange(5 * i, 5 * i + 3) =~= seq![' ', '0', 'x']);
        assert(t.subrange(5 * i + 3, 5 * i + 5) =~= text::hex2(b.last()));
    } else {
        assert(t.subrange(5 * i, 5 * i + 3) =~= front.subrange(5 * i, 5 * i + 3));
        assert(t.subrange(5 * i + 3, 5 * i + 5) =~= front.subrange(5 * i + 3, 5 * i + 5));
    }
}

/// A text payload is shown without the NUL bytes at its end, and without those alone: what is left
/// is its front, and does not end with one.
pub proof fn lemma_only_nuls_are_trimmed(b: Seq<u8>)
    ensures
        packet::trimmed(b).len() <= b.len(),
        packet::trimmed(b) == b.take(packet::trimmed(b).len() as int),
        forall|i: int| packet::trimmed(b).len() <= i < b.len() ==> b[i] == 0,
        packet::trimmed(b).len() > 0 ==> packet::trimmed(b).last() != 0,
    decreases b.len(),
{
    if b.len() > 0 && b.last() == 0 {
        let rest = b.drop_last();
        lemma_only_nuls_are_trimmed(rest);
        let n = packet::trimmed(b).len();
        assert(rest.take(n as int) =~= b.take(n as int));
        assert forall|i: int| n <= i < b.len() implies b[i] == 0 by {
            if i < rest.len() {
                assert(rest[i] == b[i]);
            }
        }
    } else {
        assert(b.take(b.len() as int) =~= b);
    }
}

/// A packet of text is shown with its text, all others with their bytes; and behind its head, with
/// a word that tells an error from other data.
pub proof fn lemma_packet_is_shown(s: schema::SchemaSpec, p: PacketSpec)
    ensures
        shows(packet::packet_text(s, p), packet::header_text(s, p)),
        p.element.kind() != MessageDataType::String ==> shows(
            packet::packet_text(s, p),
            packet::hex_text(p.payload),
        ),
        p.element.kind() == MessageDataType::String && vstd::utf8::valid_utf8(
            packet::trimmed(p.payload),
        ) ==> shows(
            packet::packet_text(s, p),
            "\""@ + vstd::utf8::decode_utf8(packet::trimmed(p.payload)) + "\""@,
        ),
        p.element.message_class() == MessageClass::Error ==> shows(
            packet::packet_text(s, p),
            ", Error: ("@,
        ),
        p.element.message_class() != MessageClass::Error ==> shows(
            packet::packet_text(s, p),
            ", Data: ("@,
        ),
{
    let head = packet::header_text(s, p);
    let label = if p.element.message_class() == MessageClass::Error {
        ", Error: ("@
    } else {
        ", Data: ("@
    };
    let data = match packet::payload_text(p) {
        Some(t) => "\""@ + t + "\""@,
        None => packet::hex_text(p.payload),
    };
    let t = packet::packet_text(s, p);
    assert(t =~= "{"@ + head + (label + data + ")}"@));
    assert(t =~= ("{"@ + head) + label + (data + ")}"@));
    assert(t =~= ("{"@ + head + label) + data + ")}"@);
    lemma_stands("{"@, head, label + data + ")}"@);
    lemma_stands("{"@ + head, label, data + ")}"@);
    lemma_stands("{"@ + head + label, data, ")}"@);
}

/// Packets are known apart by what they say: the bytes that a packet is known by are those of
/// another exactly where both come from the same address, have the same type, time, nonce and
/// payload, and are for the same endpoints.
pub proof fn lemma_packets_are_told_apart(a: PacketSpec, b: PacketSpec)
    ensures
        packet::identity_bytes(a) == packet::identity_bytes(b) <==> {
            &&& a.address == b.address
            &&& a.ty == b.ty
            &&& a.timestamp == b.timestamp
            &&& a.nonce == b.nonce
            &&& a.payload == b.payload
            &&& endpoint_set::bitmap(a.endpoints) == endpoint_set::bitmap(b.endpoints)
        },
{
    if packet::identity_bytes(a) == packet::identity_bytes(b) {
        lemma_identity_parts(a);
        lemma_identity_parts(b);
        let none = Seq::<u8>::empty();
        codec::lemma_le_roundtrip(a.nonce, a.address, a.timestamp, none);
        codec::lemma_le_roundtrip(b.nonce, b.address, b.timestamp, none);
        codec::lemma_le_roundtrip(0, a.ty, 0, none);
        codec::lemma_le_roundtrip(0, b.ty, 0, none);
        assert(codec::le4(a.address) + none =~= codec::le4(a.address));
        assert(codec::le4(b.address) + none =~= codec::le4(b.address));
        assert(codec::le4(a.ty) + none =~= codec::le4(a.ty));
        assert(codec::le4(b.ty) + none =~= codec::le4(b.ty));
        assert(codec::le8(a.timestamp) + none =~= codec::le8(a.timestamp));
        assert(codec::le8(b.timestamp) + none =~= codec::le8(b.timestamp));
        assert(codec::le2(a.nonce) + none =~= codec::le2(a.nonce));
        assert(codec::le2(b.nonce) + none =~= codec::le2(b.nonce));
    }
}

proof fn lemma_identity_parts(p: PacketSpec)
    ensures
        ({
            let s = packet::identity_bytes(p);
            &&& s.subrange(0, 4) == codec::le4(p.address)
            &&& s.subrange(4, 8) == codec::le4(p.ty)
            &&& s.subrange(8, 16) == codec::le8(p.timestamp)
            &&& s.subrange(16, 18) == codec::le2(p.nonce)
            &&& s.subrange(18, 50) == endpoint_set::bitmap(p.endpoints)
            &&& s.skip(50) == p.payload
            &&& s.len() == 50 + p.payload.len()
        }),
{
    let s = packet::identity_bytes(p);
    codec::lemma_le_roundtrip(p.nonce, p.address, p.timestamp, Seq::empty());
    codec::lemma_le_roundtrip(0, p.ty, 0, Seq::empty());
    assert(s.subrange(0, 4) =~= codec::le4(p.address));
    assert(s.subrange(4, 8) =~= codec::le4(p.ty));
    assert(s.subrange(8, 16) =~= codec::le8(p.timestamp));
    assert(s.subrange(16, 18) =~= codec::le2(p.nonce));
    assert(s.subrange(18, 50) =~= endpoint_set::bitmap(p.endpoints));
    assert(s.skip(50) =~= p.payload);
}

/// A payload is as long as the elements that it is to hold: as many as are fixed, or, where any
/// number may be, a whole number of them; one without data is empty.
pub proof fn lemma_payload_holds_whole_elements(e: MessageElement, len: nat)
    ensures
        e matches MessageElement::Static(n, kind, _) ==> (e.fits(len) <==> len == n
            * kind.width()),
        e matches MessageElement::Dynamic(kind, _) ==> (e.fits(len) <==> exists|n: nat|
            len == #[trigger] (n * kind.width())),
        MessageDataType::NoData.width() == 0,
        MessageDataType::UInt8.width() == 1 && MessageDataType::Int8.width() == 1
            && MessageDataType::Bool.width() == 1,
        MessageDataType::UInt16.width() == 2 && MessageDataType::Int16.width() == 2,
        MessageDataType::UInt32.width() == 4 && MessageDataType::Int32.width() == 4
            && MessageDataType::Float32.width() == 4,
        MessageDataType::UInt64.width() == 8 && MessageDataType::Int64.width() == 8
            && MessageDataType::Float64.width() == 8,
        MessageDataType::UInt128.width() == 16 && MessageDataType::Int128.width() == 16,
        MessageDataType::String.width() == 1 && MessageDataType::Binary.width() == 1,
{
    match e {
        MessageElement::Dynamic(kind, _) => {
            let w = kind.width();
            if w == 0 {
                assert(forall|n: nat| #[trigger] (n * w) == 0) by (nonlinear_arith)
                    requires
                        w == 0,
                ;
                assert(0nat * w == 0);
                if len == 0 {
                    assert(len == 0nat * w);
                }
            } else {
                if e.fits(len) {
                    let n = len / w;
                    vstd::arithmetic::div_mod::lemma_fundamental_div_mod(len as int, w as int);
                    assert(len == n * w) by (nonlinear_arith)
                        requires
                            len == w * (len / w) + len % w,
                            len % w == 0,
                            n == len / w,
                    ;
                }
                if exists|n: nat| len == #[trigger] (n * w) {
                    let n = choose|n: nat| len == #[trigger] (n * w);
                    vstd::arithmetic::div_mod::lemma_mod_multiples_basic(n as int, w as int);
                }
            }
        },
        _ => {},
    }
}

/// A packet is refused where it is for nobody, or where its payload does not fit its type, and then
/// the error tells how long it was and how long it should have been; and otherwise never.
pub proof fn lemma_refused_packets(e: MessageElement, endpoints: Seq<DataEndpoint>, len: nat)
    requires
        len <= packet::MAX_PAYLOAD,
        e.static_size() <= packet::MAX_PAYLOAD,
    ensures
        packet::packet_fault(e, endpoints, len) is None <==> endpoints.len() > 0 && e.fits(len),
        endpoints.len() == 0 ==> packet::packet_fault(e, endpoints, len) == Some(
            TelemetryError::EmptyEndpoints,
        ),
        endpoints.len() > 0 && !e.fits(len) ==> (packet::packet_fault(e, endpoints, len) matches Some(
            TelemetryError::SizeMismatch { expected, got },
        ) && got == len && (e matches MessageElement::Static(n, kind, _) ==> expected == n
            * kind.width()) && (e matches MessageElement::Dynamic(kind, _) ==> expected
            == kind.width())),
{
}

/// A payload of numbers holds them one behind the other: the bytes of each stand in its place.
pub proof fn lemma_numbers_stand_in_order<T: LeBytes>(v: Seq<T>, i: int)
    requires
        0 <= i < v.len(),
    ensures
        packet::le_items(v).len() == v.len() * T::size(),
        packet::le_items(v).subrange(i * T::size(), i * T::size() + T::size()) == v[i].bytes(),
    decreases v.len(),
{
    let n = T::size();
    let last = v.len() - 1;
    let rest = v.drop_last();
    let front = packet::le_items(rest);
    let all = packet::le_items(v);
    v.last().lemma_size();
    if rest.len() > 0 {
        lemma_numbers_stand_in_order(
            rest,
            if i < last {
                i
            } else {
                0
            },
        );
    }
    assert(front.len() == last * n) by {
        if rest.len() == 0 {
            assert(0 * n == 0) by (nonlinear_arith);
        }
    }
    assert(v.len() * n == last * n + n) by (nonlinear_arith)
        requires
            last == v.len() - 1,
    ;
    if i == last {
        assert(all.subrange(last * n, last * n + n) =~= v.last().bytes());
    } else {
        assert(0 <= i * n && i * n + n <= last * n) by (nonlinear_arith)
            requires
                0 <= i < last,
        ;
        assert(all.subrange(i * n, i * n + n) =~= front.subrange(i * n, i * n + n));
    }
}

/// Compressing never makes bytes much longer: one byte for each block of literals there can be, and
/// a run of equal bytes becomes two.
pub proof fn lemma_compressed_is_short(lits: Seq<u8>, s: Seq<u8>)
    requires
        lits.len() <= rle::MAX_LITERALS,
    ensures
        128 * rle::blocks(lits, s).len() <= 129 * (lits.len() + s.len()) + 127,
        lits.len() == 0 && s.len() > 0 && rle::run_of(s, s[0], rle::MAX_RUN as nat)
            >= rle::MIN_RUN ==> rle::blocks(lits, s).len() == 2 + rle::blocks(
            lits,
            s.skip(rle::run_of(s, s[0], rle::MAX_RUN as nat) as int),
        ).len(),
    decreases s.len(),
{
    if s.len() > 0 {
        let n = rle::run_of(s, s[0], rle::MAX_RUN as nat);
        rle::lemma_run_of(s, s[0], rle::MAX_RUN as nat);
        if n >= rle::MIN_RUN {
            lemma_compressed_is_short(Seq::<u8>::empty(), s.skip(n as int));
            if lits.len() == 0 {
                assert(lits =~= Seq::<u8>::empty());
            }
        } else if lits.len() == rle::MAX_LITERALS {
            lemma_compressed_is_short(seq![s[0]], s.skip(1));
        } else {
            lemma_compressed_is_short(lits.push(s[0]), s.skip(1));
        }
    }
}

/// What is said of a failure names the device and the error, and for a handler its endpoint.
pub proof fn lemma_failures_are_named(
    sc: schema::SchemaSpec,
    ep: DataEndpoint,
    device: Seq<char>,
    error: TelemetryError,
)
    ensures
        shows(
            jobs::handler_failure_text(sc, ep, device, jobs::error_text(error)),
            packet::endpoint_label(sc, ep),
        ),
        shows(jobs::handler_failure_text(sc, ep, device, jobs::error_text(error)), device),
        shows(
            jobs::handler_failure_text(sc, ep, device, jobs::error_text(error)),
            jobs::error_text(error),
        ),
        shows(jobs::side_failure_text(device, jobs::error_text(error)), device),
        shows(jobs::side_failure_text(device, jobs::error_text(error)), jobs::error_text(error)),
        shows(jobs::error_text(error), error.code().name()),
        shows(jobs::error_text(error), error.detail()),
{
    let none = Seq::<char>::empty();
    let e = jobs::error_text(error);
    let l = packet::endpoint_label(sc, ep);
    let a = "Handler for endpoint "@;
    let b = " failed on device \""@;
    let c = "\": "@;
    let t = jobs::handler_failure_text(sc, ep, device, e);
    assert(t =~= a + l + (b + device + c + e));
    assert(t =~= (a + l + b) + device + (c + e));
    assert(t =~= (a + l + b + device + c) + e + none);
    lemma_stands(a, l, b + device + c + e);
    lemma_stands(a + l + b, device, c + e);
    lemma_stands(a + l + b + device + c, e, none);
    let d = "TX Handler failed on device \""@;
    let u = jobs::side_failure_text(device, e);
    assert(u =~= d + device + (c + e));
    assert(u =~= (d + device + c) + e + none);
    lemma_stands(d, device, c + e);
    lemma_stands(d + device + c, e, none);
    assert(e =~= none + error.code().name() + error.detail());
    assert(e =~= error.code().name() + error.detail() + none);
    lemma_stands(none, error.code().name(), error.detail());
    lemma_stands(error.code().name(), error.detail(), none);
}

} // verus!
