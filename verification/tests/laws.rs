//! The laws of the library and its limits on chosen values.
use sedsnet::address::{
    AddressChangeReason, AddressRoute, Directory, Identity, Peer, MAX_PEERS,
};
use sedsnet::capacity::{LinkRate, SLOW_LINK_BPS};
use sedsnet::chunks;
use sedsnet::codec;
use sedsnet::common;
use sedsnet::compact;
use sedsnet::crc32::crc32_of;
use sedsnet::definition;
use sedsnet::discovery;
use sedsnet::e2e::{Opening, RouterE2eEncryptionMode, LOCKED_MARK};
use sedsnet::encounter::Crossing;
use sedsnet::endpoint_set;
use sedsnet::error::{TelemetryError, TelemetryErrorCode};
use sedsnet::exchange::Delivery;
use sedsnet::hash;
use sedsnet::jobs::{facts_of, Handler, Target, MAX_HANDLER_RETRIES};
use sedsnet::ledger::{read_receipt, Ledger, ReturnRoutes, RELIABLE_MAX_RETURN_ROUTES};
use sedsnet::meeting::may_meet;
use sedsnet::meta::{
    E2eEncryptionPolicy, MessageClass, MessageDataType, MessageElement, ReliableMode,
    EP_TELEMETRY_ERROR, FIRST_USER_TYPE, TY_DISCOVERY_SCHEMA, TY_DISCOVERY_SCHEMA_REQUEST,
    TY_DISCOVERY_TOPOLOGY, TY_DISCOVERY_TOPOLOGY_REQUEST, TY_RELIABLE_ACK, TY_TELEMETRY_ERROR,
};
use sedsnet::p2p::{P2pHead, P2pKind, P2pMessage, P2pStreamEventKind, Streams};
use sedsnet::packet::Packet;
use sedsnet::presence::Presence;
use sedsnet::pump::{Pump, PumpStep};
use sedsnet::queue::WorkQueue;
use sedsnet::recent::RecentIds;
use sedsnet::registry::Registry;
use sedsnet::reliable::{Arrival, ReliableRx, ReliableTx, RELIABLE_RETRANSMIT_MS};
use sedsnet::rle;
use sedsnet::router::Router;
use sedsnet::routes::{RoutePolicy, RouteQuery, RouteSelectionMode, SideFacts};
use sedsnet::schema::Schema;
use sedsnet::station::Station;
use sedsnet::stats::{LinkEvent, SideStats};
use sedsnet::text;
use sedsnet::timekeeper::{TimeSyncConfig, TimeSyncLeader, TimeSyncRole, TimeSyncTracker};
use sedsnet::timesync;
use sedsnet::topology;
use sedsnet::transport::{Link, LinkOptions};
use sedsnet::variables::{asked_type, question, Permissions, Variables};
use sedsnet::varint;
use sedsnet::wire_format;

/// A registry with one endpoint and types of numbers, text and truth values.
fn registry() -> Registry {
    let mut s = Schema::new();
    let card = s.register_endpoint_with_description("CARD", "storage", false).unwrap();
    for (name, element, mode) in [
        (
            "POSITION",
            MessageElement::Static(3, MessageDataType::UInt16, MessageClass::Data),
            ReliableMode::BestEffort,
        ),
        (
            "NOTE",
            MessageElement::Dynamic(MessageDataType::String, MessageClass::Data),
            ReliableMode::BestEffort,
        ),
        (
            "ORDER",
            MessageElement::Static(4, MessageDataType::UInt8, MessageClass::Data),
            ReliableMode::Ordered,
        ),
    ] {
        s.register_data_type_with_description(name, "", element, &[card], mode, 5).unwrap();
    }
    Registry::new(s)
}

fn type_of(r: &Registry, name: &str) -> u32 {
    r.schema.try_named_type(name).unwrap()
}

fn card(r: &Registry) -> u32 {
    r.schema.try_named_endpoint("CARD").unwrap()
}

fn note(r: &mut Registry, sender: &str, text: &str, time: u64) -> Packet {
    let (ty, ep) = (type_of(r, "NOTE"), card(r));
    Packet::new(r, ty, &[ep], sender, time, text.as_bytes().to_vec()).unwrap()
}

fn station(name: &str) -> Station {
    Station::new(Router::new(false, name), None, true)
}

#[test]
fn numbers_of_varying_length_come_back() {
    let cases: [(u64, &[u8]); 5] = [
        (0, &[0]),
        (127, &[127]),
        (128, &[128, 1]),
        (300, &[172, 2]),
        (u64::MAX, &[255, 255, 255, 255, 255, 255, 255, 255, 255, 1]),
    ];
    for (x, bytes) in cases {
        let mut out = Vec::new();
        varint::write_uleb(&mut out, x);
        assert_eq!(out, bytes);
        assert_eq!(varint::uleb_len(x), bytes.len());
        assert!(matches!(varint::read_uleb_at(&out, 0), Ok((y, n)) if y == x && n == bytes.len()));
    }
    assert!(matches!(varint::read_uleb_at(&[128], 0), Err(varint::VarintFault::ShortRead)));
    let long = [255, 255, 255, 255, 255, 255, 255, 255, 255, 2];
    assert!(matches!(varint::read_uleb_at(&long, 0), Err(varint::VarintFault::TooLong)));
}

#[test]
fn bytes_of_numbers_and_texts_come_back() {
    let mut out = Vec::new();
    codec::write_le2(&mut out, 0x1234);
    codec::write_le4(&mut out, 0xdead_beef);
    codec::write_le8(&mut out, 7);
    codec::write_text(&mut out, "näher");
    assert_eq!(&out[..6], &[0x34, 0x12, 0xef, 0xbe, 0xad, 0xde]);
    assert_eq!(codec::read_le2_at(&out, 0), Some((0x1234, 2)));
    assert_eq!(codec::read_le4_at(&out, 2), Some((0xdead_beef, 6)));
    assert_eq!(codec::read_le8_at(&out, 6), Some((7, 14)));
    assert_eq!(codec::read_text_at(&out, 14), Some(("näher".to_owned(), out.len())));
    assert_eq!(codec::read_le8_at(&out[..13], 6), None);
}

#[test]
fn bytes_that_are_no_text_are_refused() {
    assert_eq!(codec::text_of(vec![0xc3, 0xa4]), Some("ä".to_owned()));
    assert_eq!(codec::text_of(vec![0xc3]), None);
    assert_eq!(codec::text_of(vec![0xff, 0xfe]), None);
    assert_eq!(codec::text_of(Vec::new()), Some(String::new()));
}

#[test]
fn checksum_has_its_known_value() {
    let all = b"123456789";
    assert_eq!(crc32_of(all, all.len()), 0xcbf4_3926);
    assert_eq!(crc32_of(all, 0), 0);
}

#[test]
fn hash_goes_on_where_it_stopped() {
    let whole = hash::hash_bytes_u64(hash::SENDER_SEED, b"abcdef");
    let half = hash::hash_bytes_u64(hash::SENDER_SEED, b"abc");
    assert_eq!(hash::hash_bytes_u64(half, b"def"), whole);
    assert_eq!(hash::sender_hash("abcdef"), whole);
    assert_eq!(hash::sender_address_u32("abcdef") as u64, whole % (1 << 32));
}

#[test]
fn runs_of_bytes_come_back() {
    for src in [
        Vec::new(),
        vec![1, 2, 3],
        vec![0; 500],
        (0..=255u8).chain([7; 40]).chain(0..=255u8).collect::<Vec<u8>>(),
    ] {
        let packed = rle::compress(&src);
        assert_eq!(rle::decompress(&packed, src.len()), Some(src));
    }
    assert!(rle::compress(&[0; 500]).len() < 20);
    assert_eq!(rle::decompress(&rle::compress(&[0; 500]), 499), None);
}

#[test]
fn sets_of_endpoints_ignore_order() {
    let a = endpoint_set::bitmap_of(&[9, 3, 100]);
    assert_eq!(a, endpoint_set::bitmap_of(&[100, 9, 3, 3]));
    assert_eq!(endpoint_set::members_at(&a, 0), vec![3, 9, 100]);
    let once = endpoint_set::canonical_of(&[100, 9, 3, 9]);
    assert_eq!(once, vec![3, 9, 100]);
    assert_eq!(endpoint_set::canonical_of(&once), once);
}

#[test]
fn error_codes_are_one_to_one() {
    for n in -100..100 {
        if let Some(c) = TelemetryErrorCode::try_from_i32(n) {
            assert_eq!(c.as_i32(), n);
        }
    }
    assert_eq!(TelemetryError::BadArg.to_error_code(), TelemetryErrorCode::BadArg);
    assert_eq!(TelemetryErrorCode::try_from_i32(i32::MAX), None);
}

#[test]
fn numbers_of_kinds_come_back() {
    for n in 0..=255 {
        if let Some(x) = MessageDataType::from_number(n) {
            assert_eq!(x.as_number(), n);
        }
        if let Some(x) = MessageClass::from_number(n) {
            assert_eq!(x.as_number(), n);
        }
        if let Some(x) = ReliableMode::from_number(n) {
            assert_eq!(x.as_number(), n);
        }
        if let Some(x) = E2eEncryptionPolicy::from_number(n) {
            assert_eq!(x.as_number(), n);
        }
    }
    assert_eq!(MessageDataType::UInt64.byte_width(), 8);
}

#[test]
fn lists_of_ids_come_back() {
    let mut out = vec![42];
    definition::write_ids(&mut out, &[5, 0, 70_000]);
    let (ids, end) = definition::read_ids_at(&out, 1).unwrap();
    assert_eq!((ids, end), (vec![5, 0, 70_000], out.len()));
    assert!(definition::read_ids_at(&out[..out.len() - 1], 1).is_none());
}

#[test]
fn packets_are_checked_when_they_are_made() {
    let mut r = registry();
    let (ty, ep) = (type_of(&r, "POSITION"), card(&r));
    let bad = |x: Result<Packet, TelemetryError>| x.err().unwrap();
    assert_eq!(
        bad(Packet::new(&mut r, 60_000, &[ep], "A", 1, vec![0; 6])),
        TelemetryError::InvalidType
    );
    assert_eq!(
        bad(Packet::new(&mut r, ty, &[], "A", 1, vec![0; 6])),
        TelemetryError::EmptyEndpoints
    );
    assert_eq!(
        bad(Packet::new(&mut r, ty, &[ep], "A", 1, vec![0; 5])),
        TelemetryError::SizeMismatch { expected: 6, got: 5 }
    );
    let p = Packet::new(&mut r, ty, &[ep], "A", 1, vec![1, 0, 2, 0, 0, 1]).unwrap();
    assert_eq!(p.data_as_u16().unwrap(), vec![1, 2, 256]);
    assert!(matches!(p.data_as_bool(), Err(TelemetryError::TypeMismatch { .. })));
}

#[test]
fn frames_come_back_and_keep_identity() {
    let mut r = registry();
    r.note_sender("BOARD_A");
    let p = note(&mut r, "BOARD_A", "hello hello hello hello", 1_700_000_000_000);
    let frame = wire_format::pack_packet(&r.schema, &p);
    let q = wire_format::unpack_packet(&r, &frame).unwrap();
    assert_eq!(q.packet_id(), p.packet_id());
    assert_eq!(q.payload(), p.payload());
    assert_eq!(q.sender(), "BOARD_A");
    assert_eq!(q.timestamp(), p.timestamp());
    assert_eq!(wire_format::pack_packet(&r.schema, &q), frame);
    for i in 0..frame.len() {
        let mut hurt = frame.clone();
        hurt[i] ^= 1;
        assert!(wire_format::unpack_packet(&r, &hurt).is_err());
    }
    assert!(wire_format::unpack_packet(&r, &frame[..3]).is_err());
}

#[test]
fn frames_ignore_the_order_of_endpoints() {
    let mut r = registry();
    let other = r.schema.register_endpoint_with_description("RADIO", "", false).unwrap();
    let (ty, ep) = (type_of(&r, "POSITION"), card(&r));
    let a = Packet::new(&mut r, ty, &[ep, other], "A", 5, vec![0; 6]).unwrap().with_nonce(9);
    let b = Packet::new(&mut r, ty, &[other, ep, ep], "A", 5, vec![0; 6]).unwrap().with_nonce(9);
    assert_eq!(a.packet_id(), b.packet_id());
    assert_eq!(
        wire_format::pack_packet(&r.schema, &a),
        wire_format::pack_packet(&r.schema, &b)
    );
}

#[test]
fn text_of_a_packet_is_its_bytes() {
    let mut r = registry();
    let p = note(&mut r, "A", "grüße", 1);
    assert_eq!(p.data_as_utf8(), Some("grüße".to_owned()));
    let (ty, ep) = (type_of(&r, "NOTE"), card(&r));
    let q = Packet::new(&mut r, ty, &[ep], "A", 1, vec![0xff]).unwrap();
    assert_eq!(q.data_as_utf8(), None);
}

#[test]
fn clock_text_has_its_form() {
    assert_eq!(text::decimal_string(0), "0");
    assert_eq!(text::decimal_string(u64::MAX), "18446744073709551615");
    assert!(text::clock_string(1_234).contains("234"));
}

#[test]
fn pieces_of_a_frame_join_in_any_order() {
    let frame: Vec<u8> = (0..200u8).collect();
    let mut pieces = chunks::split(frame.clone(), 77, 48).unwrap();
    assert!(pieces.len() > 1);
    assert!(pieces.iter().all(|p| p.len() <= 48));
    pieces.reverse();
    let mut waiting = chunks::Reassembly::new();
    let last = pieces.len() - 1;
    for (i, p) in pieces.into_iter().enumerate() {
        let (id, index, count, body) = chunks::chunk_at(&p).unwrap();
        assert_eq!(id, 77);
        assert_eq!(count as usize, last + 1);
        let got = waiting.collect(id, index, count, body);
        assert_eq!(got, if i == last { Some(frame.clone()) } else { None });
    }
    assert_eq!(waiting.len(), 0);
    assert_eq!(chunks::split(frame.clone(), 1, 12), None);
    assert_eq!(chunks::split(frame.clone(), 1, 0), Some(vec![frame]));
}

#[test]
fn unfinished_transfers_are_few() {
    let mut waiting = chunks::Reassembly::new();
    for id in 0..20 {
        assert_eq!(waiting.collect(id, 0, 2, vec![1]), None);
        assert!(waiting.len() <= chunks::MAX_PARTIAL_TRANSFERS);
    }
    assert_eq!(waiting.collect(19, 1, 2, vec![2]), Some(vec![1, 2]));
    assert_eq!(waiting.collect(0, 1, 2, vec![2]), None);
}

#[test]
fn parts_of_a_frame_join() {
    let mut r = registry();
    let p = note(&mut r, "A", "abc", 1_000);
    let frame = wire_format::pack_packet(&r.schema, &p);
    let body = &frame[..frame.len() - wire_format::CRC32_BYTES];
    let parts = compact::cut_of(body).unwrap();
    assert_eq!(parts.join(), body);
    assert_eq!(compact::rebuild(&parts.template(), &parts.variable()), Some(body.to_vec()));
    assert!(compact::cut_of(&[]).is_none());
}

#[test]
fn dictionaries_stay_in_step_and_small() {
    let (mut a, mut b) = (compact::Dictionary::new(), compact::Dictionary::new());
    for i in 0..10u8 {
        a.say(4, vec![i]);
        b.hear(4, vec![i]);
        assert_eq!(a.len(), b.len());
        assert!(a.len() <= 4);
    }
    assert!(a.say(4, vec![9]).0);
    assert!(!a.say(4, vec![0]).0);
}

#[test]
fn frames_cross_a_link_and_loss_does_not_alter_them() {
    let mut r = registry();
    let options =
        LinkOptions { templates: true, max_frame: 64, max_templates: 8, ..LinkOptions::plain() };
    let (mut tx, mut rx) = (Link::new(options), Link::new(options));
    for i in 0..40u64 {
        let p = note(&mut r, "A", "a text that is a little longer than others", 1_000 + i);
        let frame = wire_format::pack_packet(&r.schema, &p);
        let pieces = tx.encode(frame.clone(), false, 0, 5).unwrap();
        if i == 0 || i % 7 == 3 {
            continue;
        }
        let mut got = None;
        for w in pieces {
            assert!(w.len() <= 64);
            got = rx.decode(&w);
        }
        assert!(got.is_none() || got == Some(frame));
    }
    let p = note(&mut r, "A", "more", 2_000);
    let frame = wire_format::pack_packet(&r.schema, &p);
    let narrow = LinkOptions { max_frame: 12, ..LinkOptions::plain() };
    assert!(matches!(
        Link::new(narrow).encode(frame, false, 0, 5),
        Err(TelemetryError::PacketTooLarge(_))
    ));
}

#[test]
fn transfers_of_boards_differ() {
    let options = LinkOptions { max_frame: 40, ..LinkOptions::plain() };
    let mut link = Link::new(options);
    let address = 0x1234_5678;
    for n in 0..3u32 {
        let pieces = link.encode(vec![7; 100], false, 0, address).unwrap();
        let (id, _, _, _) = chunks::chunk_at(&pieces[0]).unwrap();
        assert_eq!(id, (address % (1 << 20)) * 4096 + n);
    }
}

#[test]
fn counters_of_types_stay_apart() {
    let mut s = SideStats::new();
    s.note(20, LinkEvent::Came(10));
    s.note(21, LinkEvent::Went { size: 5, relayed: true });
    s.note(20, LinkEvent::CameFramed(3));
    s.note(20, LinkEvent::Taken { relayed: true, local: true });
    s.note(20, LinkEvent::NotTaken { last: false });
    s.note(20, LinkEvent::NotTaken { last: true });
    s.note(21, LinkEvent::Stuck { last: false });
    s.note(21, LinkEvent::Stuck { last: true });
    let t = s.totals;
    assert_eq!((t.rx_packets, t.rx_bytes, t.tx_packets, t.tx_bytes), (2, 13, 1, 5));
    assert_eq!((t.relayed_rx_packets, t.relayed_tx_packets, t.local_deliveries), (1, 1, 1));
    assert_eq!((t.local_retries, t.local_failures), (2, 1));
    assert_eq!((t.tx_retries, t.tx_failures), (2, 1));
    let a = s.types.iter().find(|t| t.data_type == 20).unwrap();
    let b = s.types.iter().find(|t| t.data_type == 21).unwrap();
    assert_eq!((a.rx_packets, a.relayed_rx_packets, a.tx_packets), (2, 1, 0));
    assert_eq!((a.handler_failures, a.tx_retries), (1, 0));
    assert_eq!((b.rx_packets, b.tx_packets, b.relayed_tx_packets, b.tx_retries), (0, 1, 1, 2));
}

#[test]
fn rates_blend_and_peaks_bound_them() {
    let mut r = LinkRate::new();
    r.observe(1_000, 10, 100);
    assert_eq!((r.capacity, r.samples), (800_000, 1));
    r.observe(100, 10, 200);
    assert_eq!(r.capacity, (800_000 * 3 + 80_000) / 4);
    assert_eq!(r.peak_capacity, 800_000);
    assert!(r.peak_usage >= r.usage);
    r.observe(1, 0, 300);
    assert_eq!(r.capacity, (620_000 * 3 + 8_000) / 4);
    assert!(r.available() <= r.capacity);
}

#[test]
fn faster_links_get_a_larger_share() {
    let mut b = station("A");
    for name in ["fast", "half", "slow", "new"] {
        b.add_side(name, false, LinkOptions::plain(), false).unwrap();
    }
    for (side, capacity) in [(0, 100_000), (1, 50_000), (2, SLOW_LINK_BPS - 1)] {
        b.core.note_capacity(side, capacity).unwrap();
    }
    let shares: Vec<u8> = facts_of(&b.core.sides).iter().map(|f| f.share).collect();
    assert_eq!(shares, vec![4, 2, 1, 1]);
    assert!(b.core.is_slow(2) && !b.core.is_slow(1) && !b.core.is_slow(3));
    assert_eq!(
        b.core.note_capacity(9, 1),
        Err(TelemetryError::HandlerError("invalid side id"))
    );
}

fn identity(address: u32, birth: u64, owner: u64) -> Identity {
    Identity { address, requested: 0, mode: 0, birth, owner }
}

#[test]
fn one_of_two_boards_gives_way() {
    let mut a = Router::new(false, "A");
    let mut b = Router::new(false, "B");
    a.identity = identity(50, 10, 1);
    b.identity = identity(50, 20, 2);
    let (of_a, of_b) = (a.identity, b.identity);
    let taken = vec![50, 51];
    let moved_a = a.settle_address(of_b, "B", &taken);
    let moved_b = b.settle_address(of_a, "A", &taken);
    assert!(moved_a.is_some() != moved_b.is_some());
    let c = moved_a.or(moved_b).unwrap();
    assert_eq!(c.reason, AddressChangeReason::DynamicConflict);
    assert_eq!(c.old_address, 50);
    assert!(!taken.contains(&c.new_address));
    assert_ne!(a.identity.address, b.identity.address);
}

#[test]
fn a_board_with_the_same_name_is_renamed() {
    let mut b = Router::new(false, "SAME");
    b.identity = identity(7, 20, 2);
    let c = b.settle_address(identity(8, 10, 1), "SAME", &vec![8]).unwrap();
    assert_eq!(c.reason, AddressChangeReason::HostnameConflict);
    assert_eq!(b.sender, "SAME-7");
}

#[test]
fn boards_that_were_heard_are_found() {
    let mut d = Directory::new();
    for i in 0..(MAX_PEERS as u32 + 10) {
        d.hear(Peer {
            name: format!("B{i}"),
            identity: identity(1_000 + i, 1, i as u64),
            side: 3,
            last_seen: 5,
        });
        assert!(d.taken().len() <= MAX_PEERS);
        assert!(matches!(d.route(0, 1_000 + i), AddressRoute::Over(3)));
        assert!(d.named(&format!("B{i}")).is_some());
    }
    assert!(matches!(d.route(9, 9), AddressRoute::Here));
    assert!(matches!(d.route(9, 1_000), AddressRoute::Nowhere));
}

fn head(kind: P2pKind) -> P2pHead {
    P2pHead {
        kind,
        source_address: 1,
        destination_address: 2,
        source_port: 3,
        destination_port: 4,
        source_stream: 5,
        destination_stream: 6,
        sequence: 7,
    }
}

#[test]
fn messages_from_board_to_board_come_back() {
    for kind in [P2pKind::Datagram, P2pKind::Open, P2pKind::Data, P2pKind::Reset] {
        let m = P2pMessage {
            head: head(kind),
            source_hostname: "BOARD".to_owned(),
            payload: vec![1, 2, 3],
        };
        let n = P2pMessage::from_bytes(&m.to_bytes()).unwrap();
        assert!(n.head == m.head);
        assert_eq!((n.source_hostname, n.payload), (m.source_hostname, m.payload));
    }
    assert!(P2pMessage::from_bytes(&[]).is_none());
    assert!(P2pMessage::from_bytes(&[99; 40]).is_none());
}

#[test]
fn a_handshake_joins_two_boards() {
    let (mut a, mut b) = (Streams::new(), Streams::new());
    let open = a.ask(1, 2, 80, 1_000).unwrap();
    assert!(a.next_data(open.source_stream, 1).is_none());
    let step = b.take(&open, true);
    assert!(matches!(step.event, Some((P2pStreamEventKind::Accepted, _))));
    let step = a.take(&step.reply.unwrap(), true);
    assert!(matches!(step.event, Some((P2pStreamEventKind::Connected, _))));
    let data = a.next_data(open.source_stream, 1).unwrap();
    assert_eq!(data.sequence, 0);
    assert_eq!(a.next_data(open.source_stream, 1).unwrap().sequence, 1);
    assert!(matches!(b.take(&data, true).event, Some((P2pStreamEventKind::Data, _))));
    let end = a.end(open.source_stream, 1).unwrap();
    assert!(matches!(b.take(&end, true).event, Some((P2pStreamEventKind::Closed, _))));
    let reply = b.take(&data, true).reply.unwrap();
    assert!(reply.kind == P2pKind::Reset);
}

#[test]
fn nobody_answers_for_a_port_that_is_not_taken() {
    let (mut a, mut b) = (Streams::new(), Streams::new());
    let open = a.ask(1, 2, 80, 1_000).unwrap();
    let step = b.take(&open, false);
    assert!(step.event.is_none());
    assert!(step.reply.unwrap().kind == P2pKind::Reset);
    let second = a.ask(1, 2, 80, 1_000).unwrap();
    assert_ne!(second.source_stream, open.source_stream);
}

#[test]
fn the_best_source_of_time_is_followed() {
    let cfg = TimeSyncConfig { role: TimeSyncRole::Consumer, ..TimeSyncConfig::default() };
    let mut t = TimeSyncTracker::new(cfg);
    assert!(t.leader(0, false).is_none());
    t.note_source("FAR", 9, 10);
    t.note_source("NEAR", 2, 10);
    assert!(matches!(t.leader(11, false), Some(TimeSyncLeader::Remote(x)) if x.sender == "NEAR"));
    let late = 10 + cfg.source_timeout_ms + 1;
    t.note_source("FAR", 9, late);
    assert!(matches!(t.leader(late, false), Some(TimeSyncLeader::Remote(x)) if x.sender == "FAR"));
    let q = t.poll_request(late).unwrap();
    assert!(t.poll_request(late).is_none());
    let a = timesync::TimeSyncResponse { seq: q.seq, t1_ms: q.t1_ms, t2_ms: late + 50, t3_ms: late + 50 };
    let s = t.take_response(a, late + 20).unwrap();
    assert_eq!((s.offset_ms, s.delay_ms), (40, 20));
    assert!(t.take_response(a, late + 20).is_none());
}

#[test]
fn an_even_way_has_no_offset() {
    let s = timesync::compute_offset_delay(100, 150, 150, 200);
    assert_eq!((s.offset_ms, s.delay_ms), (0, 100));
    let s = timesync::compute_offset_delay(100, 1_150, 1_160, 210);
    assert_eq!((s.offset_ms, s.delay_ms), (1_000, 100));
}

#[test]
fn messages_about_the_time_come_back() {
    let mut r = registry();
    let q = timesync::build_timesync_request(&mut r, 3, 4).unwrap();
    let x = timesync::decode_timesync_request(&q).unwrap();
    assert_eq!((x.seq, x.t1_ms), (3, 4));
    let a = timesync::build_timesync_response(&mut r, 3, 4, 5, 6).unwrap();
    let y = timesync::decode_timesync_response(&a).unwrap();
    assert_eq!((y.seq, y.t1_ms, y.t2_ms, y.t3_ms), (3, 4, 5, 6));
    assert!(matches!(timesync::decode_timesync_request(&a), Err(TelemetryError::InvalidType)));
}

#[test]
fn a_kept_value_is_given() {
    let mut r = registry();
    let p = note(&mut r, "A", "value", 1);
    let ty = p.data_type();
    let mut v = Variables::new();
    assert!(!v.keeps(ty));
    v.enable(ty, Permissions { read: true, write: false });
    assert!(v.store(&p));
    assert!(!v.store(&p));
    assert_eq!(v.get(ty).unwrap().unwrap().payload(), b"value");
    assert_eq!(v.answer(&question(ty)).unwrap().payload(), b"value");
    assert_eq!(v.set(&p), Err(TelemetryError::PermissionDenied));
    assert_eq!(asked_type(&question(ty)), Some(ty));
    v.enable(ty, Permissions { read: false, write: true });
    assert!(matches!(v.get(ty), Err(TelemetryError::PermissionDenied)));
    assert!(v.set(&p).is_ok());
}

#[test]
fn a_packet_waits_for_its_boards() {
    let mut l = Ledger::new();
    l.follow(1, vec![10, 20], 2);
    l.strike(1, 10);
    assert_eq!(l.holders(1), Some(&vec![20]));
    l.strike(1, 20);
    assert_eq!(l.holders(1), None);
    l.follow(2, vec![10], 2);
    l.follow(3, vec![10], 2);
    l.follow(4, vec![10, 30], 2);
    assert_eq!(l.len(), 2);
    l.keep(&vec![30]);
    assert_eq!((l.holders(3), l.holders(4)), (None, Some(&vec![30])));
}

#[test]
fn the_way_back_is_the_last_link() {
    let mut r = ReturnRoutes::new();
    r.note(1, 4);
    r.note(1, 4);
    assert_eq!((r.find(1), r.items.len()), (Some(4), 1));
    r.note(1, 5);
    assert_eq!(r.find(1), Some(5));
    for id in 0..1_000 {
        r.note(id, 6);
        assert!(r.items.len() <= RELIABLE_MAX_RETURN_ROUTES);
    }
    assert_eq!((r.find(999), r.find(2)), (Some(6), None));
}

#[test]
fn memory_of_packets_is_first_in_first_out() {
    let mut m = RecentIds::new(3);
    for id in [1, 2, 3] {
        assert!(m.insert(id));
    }
    assert!(!m.insert(1));
    assert!(m.insert(4));
    assert!(!m.contains(1) && m.contains(2) && m.contains(4));
    assert_eq!((m.len(), m.capacity()), (3, 3));
}

#[test]
fn the_highest_rank_comes_first_and_old_before_new() {
    let mut q: WorkQueue<&str> = WorkQueue::new();
    for (rank, item) in [(1, "low"), (9, "first"), (9, "second"), (4, "middle")] {
        assert!(q.push(rank, 10, item, 50).is_ok());
    }
    assert_eq!(q.used_bytes(), 40);
    assert!(matches!(q.push(9, 11, "full", 50), Err("full")));
    assert_eq!(q.top_rank(), Some(9));
    let order: Vec<&str> = (0..4).map(|_| q.pop().unwrap().item).collect();
    assert_eq!(order, vec!["first", "second", "middle", "low"]);
    assert_eq!((q.len(), q.used_bytes()), (0, 0));
    assert!(q.pop().is_none());
}

#[test]
fn both_queues_have_their_turn() {
    let mut p = Pump::new(0, 0);
    let steps: Vec<bool> =
        (0..4).map(|i| matches!(p.next(i, true, true), PumpStep::Receive)).collect();
    assert!(steps[0] != steps[1] && steps[1] != steps[2] && steps[2] != steps[3]);
    assert!(matches!(p.next(u64::MAX, true, false), PumpStep::Receive));
    assert!(matches!(p.next(9, false, false), PumpStep::Stop));
    let mut p = Pump::new(100, 10);
    assert!(!matches!(p.next(105, false, true), PumpStep::Stop));
    assert!(matches!(p.next(110, false, true), PumpStep::Stop));
}

#[test]
fn numbered_frames_are_handed_on_in_order_and_once() {
    let mut rx = ReliableRx::new();
    let first = rx.expected_seq();
    let (a, got) = rx.accept(first + 1, vec![2]);
    assert!(matches!(a, Arrival::Early) && got.is_empty());
    let (a, got) = rx.accept(first, vec![1]);
    assert!(matches!(a, Arrival::InTurn));
    assert_eq!(got, vec![vec![1], vec![2]]);
    let (a, got) = rx.accept(first, vec![1]);
    assert!(matches!(a, Arrival::Again) && got.is_empty());
    assert_eq!(rx.expected_seq(), first + 2);
    let (a, _) = rx.accept(first + 1_000_000, vec![9]);
    assert!(matches!(a, Arrival::TooEarly));
}

#[test]
fn frames_are_sent_again_until_they_are_acknowledged() {
    let mut tx = ReliableTx::new();
    let seq = tx.next_seq();
    tx.record(vec![5], 100);
    assert_eq!(tx.pending(), 1);
    assert!(tx.take_due(100 + RELIABLE_RETRANSMIT_MS - 1).is_empty());
    assert_eq!(tx.take_due(100 + RELIABLE_RETRANSMIT_MS), vec![vec![5]]);
    assert_eq!(tx.find(seq), Some(vec![5]));
    tx.acknowledge(seq);
    assert_eq!(tx.pending(), 0);
    assert!(tx.take_due(u64::MAX).is_empty());
}

fn query(source: Option<usize>, mode: RouteSelectionMode) -> RouteQuery {
    RouteQuery {
        source,
        ty: FIRST_USER_TYPE,
        link_local: false,
        reliable: false,
        heard: true,
        default_mode: mode,
    }
}

#[test]
fn packets_take_links_that_they_are_meant_for() {
    let side = SideFacts { alive: true, egress: true, link_local: false, share: 1 };
    let closed = SideFacts { egress: false, ..side };
    let sides = [side, side, closed, side];
    let overlaps = [1; 4];
    let mut p = RoutePolicy::new();
    let q = query(Some(0), RouteSelectionMode::Fanout);
    assert_eq!(p.choose_sides(&sides, &overlaps, q), vec![1, 3]);
    p.set_route(Some(0), 3, false);
    assert_eq!(p.choose_sides(&sides, &overlaps, q), vec![1]);
    assert_eq!(p.route(Some(0), 3), Some(false));
    p.set_route(Some(0), 3, true);
    p.set_typed_route(Some(0), FIRST_USER_TYPE, 3, true);
    assert_eq!(p.choose_sides(&sides, &overlaps, q), vec![3]);
    assert_eq!(p.route(None, 3), None);
    p.set_route(None, 1, false);
    p.clear_route(None, 1);
    assert_eq!(p.route(None, 1), None);
    p.forget_side(3);
    assert_eq!(p.route(Some(0), 3), None);
    assert_eq!(p.typed_route(Some(0), FIRST_USER_TYPE, 3), None);
}

#[test]
fn shares_decide_how_often_a_link_is_taken() {
    let fast = SideFacts { alive: true, egress: true, link_local: false, share: 3 };
    let slow = SideFacts { share: 1, ..fast };
    let mut p = RoutePolicy::new();
    let mut count = [0; 2];
    for _ in 0..8 {
        for s in p.choose_sides(&[fast, slow], &[1; 2], query(None, RouteSelectionMode::Balanced)) {
            count[s] += 1;
        }
    }
    assert_eq!(count, [6, 2]);
}

#[test]
fn boards_are_known_until_they_leave_or_fall_silent() {
    let ep = 40;
    let mut p = Presence::new();
    p.learn_endpoints(1, 77, "B", vec![ep], 100);
    assert!(p.leads_to(Some(1), ep, 101) && p.leads_to(None, ep, 101));
    assert!(!p.leads_to(Some(0), ep, 101) && p.leads_elsewhere(0, ep, 101));
    assert_eq!(p.board_side(77, 101), Some(1));
    let late = 100 + discovery::DISCOVERY_ROUTE_TTL_MS + 1;
    assert!(!p.leads_to(Some(1), ep, late) && !p.hears_anyone(late));
    p.note_alive(1, 77, "B", late);
    assert!(p.leads_to(Some(1), ep, late));
    p.leave(77);
    assert!(!p.knows(None, 77));
    p.learn_endpoints(2, 78, "C", vec![ep], late);
    p.drop_side(2);
    assert_eq!(p.len(), 0);
}

#[test]
fn one_board_is_elected_whoever_asks() {
    let board = |name: &str| discovery::TopologyBoardNode {
        sender_id: name.to_owned(),
        reachable_endpoints: Vec::new(),
        reachable_timesync_sources: Vec::new(),
        connections: Vec::new(),
    };
    let a = topology::elect_discovery_master("A", &vec![board("A"), board("B"), board("C")]);
    let b = topology::elect_discovery_master("B", &vec![board("C"), board("B"), board("A")]);
    let c = topology::elect_discovery_master("C", &vec![board("B"), board("A"), board("C")]);
    assert!(a == b && b == c);
}

#[test]
fn definitions_come_back_and_merging_twice_changes_nothing() {
    let mut r = registry();
    let snapshot = r.schema.export_schema();
    let p = discovery::build_discovery_schema_from_snapshot(&mut r, "A", 1, &snapshot).unwrap();
    let got = discovery::decode_discovery_schema(&p).unwrap();
    let mut other = Schema::new();
    assert!(other.merge_schema_snapshot(&got));
    assert!(!other.merge_schema_snapshot(&got));
    assert_eq!(other.try_named_type("ORDER"), r.schema.try_named_type("ORDER"));
    assert!(matches!(
        Schema::new().merge_schema_snapshot_with_budget(&got, 1),
        Err(TelemetryError::PacketTooLarge(_))
    ));
}

#[test]
fn a_packet_that_comes_again_makes_nothing_to_be_done() {
    let mut r = registry();
    let mut b = station("B");
    let ep = card(&r);
    b.core.add_handler(Handler { endpoint: ep, packed: false }).unwrap();
    for name in ["left", "right"] {
        b.add_side(name, false, LinkOptions::plain(), false).unwrap();
    }
    let p = note(&mut r, "A", "once", 1);
    assert!(matches!(b.receive(&mut r, &p, Some(0), 10), Ok(Delivery::Nothing)));
    let mut targets = Vec::new();
    while let Some(j) = b.core.next_job(&r.schema, 10) {
        targets.push(j.target);
    }
    assert!(targets.contains(&Target::Handler(0)));
    assert!(!targets.contains(&Target::Side(0)));
    b.receive(&mut r, &p, Some(1), 11).ok().unwrap();
    assert!(b.core.is_idle());
    let e = b.receive(&mut r, &p, Some(5), 12).err().unwrap();
    assert_eq!(e, TelemetryError::HandlerError("router: invalid side id"));
}

#[test]
fn a_letter_arrives_once_and_as_it_was_written() {
    let mut r = registry();
    let (mut a, mut b) = (station("A"), station("B"));
    for x in [&mut a, &mut b] {
        x.add_side("wire", false, LinkOptions::plain(), false).unwrap();
    }
    let mine = b.core.identity.address;
    assert_eq!(a.send_letter(&mut r, mine, 80, 9, b"hi", 1), Err(TelemetryError::BadArg));
    a.directory.hear(Peer {
        name: "B".to_owned(),
        identity: b.core.identity,
        side: 0,
        last_seen: 1,
    });
    a.send_letter(&mut r, mine, 80, 9, b"hi", 1).unwrap();
    let job = a.core.next_job(&r.schema, 1).unwrap();
    assert!(job.target == Target::Side(0));
    let p = job.packet.unwrap();
    match b.receive(&mut r, &p, Some(0), 2) {
        Ok(Delivery::Datagram(m)) => {
            assert_eq!((m.source_hostname.as_str(), m.payload.as_slice()), ("A", &b"hi"[..]));
            assert_eq!((m.head.source_port, m.head.destination_port), (9, 80));
        }
        _ => panic!("no letter"),
    }
    assert!(matches!(b.receive(&mut r, &p, Some(0), 3), Ok(Delivery::Nothing)));
}

#[test]
fn a_letter_arrives_over_a_link_of_frames() {
    let mut r = registry();
    let (mut a, mut b) = (station("A"), station("B"));
    let options = LinkOptions { max_frame: 48, templates: true, ..LinkOptions::plain() };
    for x in [&mut a, &mut b] {
        x.add_side("wire", true, options, false).unwrap();
    }
    let mine = b.core.identity.address;
    a.directory.hear(Peer {
        name: "B".to_owned(),
        identity: b.core.identity,
        side: 0,
        last_seen: 1,
    });
    let text: Vec<u8> = (0..90).collect();
    a.send_letter(&mut r, mine, 80, 9, &text, 1).unwrap();
    let job = a.core.next_job(&r.schema, 1).unwrap();
    let pieces = a.encode(0, job.frame.unwrap(), 1).unwrap();
    assert!(pieces.len() > 1);
    let last = pieces.len() - 1;
    for (i, w) in pieces.iter().enumerate() {
        let d = b.receive_bytes(&mut r, w, Some(0), 2).ok().unwrap();
        if i < last {
            assert!(matches!(d, Delivery::Nothing));
        } else {
            assert!(matches!(d, Delivery::Datagram(m) if m.payload == text));
        }
    }
    assert_eq!(b.wires[0].stats.totals.rx_packets, 1);
}

#[test]
fn a_job_is_tried_a_few_times_and_counted() {
    let mut r = registry();
    let mut b = station("B");
    b.add_side("wire", false, LinkOptions::plain(), false).unwrap();
    let p = note(&mut r, "B", "out", 1);
    let (changed, sent) = b.submit(&r, &p, 1);
    assert!(!changed && sent.is_ok());
    let mut tries = 0;
    while let Some(j) = b.core.next_job(&r.schema, 1) {
        if !matches!(j.target, Target::Side(0)) || j.packet.as_ref().unwrap().data_type() == TY_TELEMETRY_ERROR {
            continue;
        }
        tries += 1;
        b.note_job(&r, &j, false, 1, 1);
        b.core.finish_job(&mut r, j, Err(TelemetryError::Io("broken")), 1);
    }
    assert_eq!(tries, MAX_HANDLER_RETRIES as i32);
    let t = b.wires[0].stats.totals;
    assert_eq!((t.tx_retries, t.tx_failures, t.tx_packets), (3, 1, 0));
    assert_eq!((b.failures.failures, b.failures.tries), (1, 3));
    assert!(b.core.take_failure().is_err());
    assert!(b.core.take_failure().is_ok());
}

#[test]
fn a_link_is_measured_by_what_it_takes() {
    let mut b = station("B");
    b.add_side("wire", false, LinkOptions::plain(), false).unwrap();
    b.probe(0, 1_000, 1_000, 5).unwrap();
    assert_eq!(b.core.sides[0].capacity, 8_000);
    assert!(b.core.is_slow(0));
    assert_eq!(b.probe(1, 1, 1, 5), Err(TelemetryError::HandlerError("invalid side id")));
}

#[test]
fn a_question_is_answered_over_the_link_that_it_came_over() {
    let mut r = registry();
    let mut b = station("B");
    b.add_side("wire", false, LinkOptions::plain(), false).unwrap();
    let p = note(&mut r, "B", "value", 1);
    b.variables.enable(p.data_type(), Permissions { read: true, write: true });
    let (changed, _) = b.submit(&r, &p, 1);
    assert!(changed);
    while b.core.next_job(&r.schema, 1).is_some() {}
    let mut a = station("A");
    a.add_side("wire", false, LinkOptions::plain(), false).unwrap();
    a.ask_value(&mut r, p.data_type(), 2).unwrap();
    let q = a.core.next_job(&r.schema, 2).unwrap().packet.unwrap();
    b.receive(&mut r, &q, Some(0), 3).ok().unwrap();
    let j = b.core.next_job(&r.schema, 3).unwrap();
    assert!(j.target == Target::Side(0));
    assert_eq!(j.packet.unwrap().payload(), b"value");
}

#[test]
fn a_packet_that_was_taken_is_confirmed_once_to_who_sent_it() {
    let mut r = registry();
    let (ty, ep) = (type_of(&r, "ORDER"), card(&r));
    let mut a = station("A");
    a.add_side("wire", false, LinkOptions::plain(), false).unwrap();
    let heard = discovery::build_discovery_announce(&mut r, "B", 1, &[ep]).unwrap();
    a.receive(&mut r, &heard, Some(0), 1).ok().unwrap();
    let p = Packet::new(&mut r, ty, &[ep], "A", 2, vec![7; 4]).unwrap();
    a.follow(&p, 2);
    assert_eq!(a.pending.holders(p.packet_id()), Some(&vec![hash::sender_address_u32("B")]));

    let mut b = station("B");
    b.core.add_handler(Handler { endpoint: ep, packed: false }).unwrap();
    b.core.add_handler(Handler { endpoint: ep, packed: false }).unwrap();
    b.add_side("wire", false, LinkOptions::plain(), false).unwrap();
    b.receive(&mut r, &p, Some(0), 3).ok().unwrap();
    let mut confirmed = Vec::new();
    let mut said = Vec::new();
    while let Some(j) = b.core.next_job(&r.schema, 3) {
        match j.target {
            Target::Handler(_) => confirmed.push(b.confirm_job(&mut r, &j, 3)),
            Target::Side(s) => said.push((s, j.packet.unwrap())),
        }
    }
    assert_eq!(confirmed, vec![Ok(true), Ok(false)]);
    assert_eq!(said.len(), 1);
    let (side, q) = said.pop().unwrap();
    assert_eq!((side, q.sender()), (0, "E2EACK:B"));
    assert_eq!(q.wire_target_senders(), &[hash::sender_hash("B"), hash::sender_hash("A")]);
    assert_eq!(read_receipt(&q), Some((p.packet_id(), hash::sender_hash("B"))));
    assert!(a.take_receipt(&q));
    assert_eq!(a.pending.holders(p.packet_id()), None);

    let mut lone = station("LONE");
    assert_eq!(lone.confirm(&mut r, &p, 3), Ok(false));
    assert!(lone.core.next_job(&r.schema, 3).is_none());
}

#[test]
fn a_receipt_is_read_by_its_mark_or_by_who_it_names() {
    let mut r = registry();
    let id = 77u64.to_le_bytes().to_vec();
    let to = [EP_TELEMETRY_ERROR];
    let q = Packet::new(&mut r, TY_RELIABLE_ACK, &to, "E2EACK:B", 0, id.clone()).unwrap();
    assert_eq!(read_receipt(&q), Some((77, hash::sender_hash("B"))));
    let q = Packet::new(&mut r, TY_RELIABLE_ACK, &to, "@addr:1", 0, id.clone()).unwrap();
    assert_eq!(read_receipt(&q), None);
    let q = q.with_wire_contract(false, vec![5, 6]);
    assert_eq!(read_receipt(&q), Some((77, 5)));
    let q = Packet::new(&mut r, TY_RELIABLE_ACK, &to, "E2EACK:", 0, id).unwrap();
    assert_eq!(read_receipt(&q), None);
    let q = Packet::new(&mut r, TY_RELIABLE_ACK, &to, "E2EACK:B", 0, vec![1; 7]).unwrap();
    assert_eq!(read_receipt(&q), None);
}

#[test]
fn waiting_packets_are_taken_by_rank() {
    let mut r = registry();
    let mut b = station("B");
    b.add_side("wire", false, LinkOptions::plain(), false).unwrap();
    let p = note(&mut r, "A", "later", 1);
    let q = timesync::build_timesync_request(&mut r, 1, 2).unwrap();
    b.queue(&r, &p, Some(0), 1).unwrap();
    b.queue(&r, &q, Some(0), 1).unwrap();
    assert_eq!(b.core.rx.len(), 2);
    assert!(b.work_next(&mut r, 2).unwrap().is_ok());
    assert!(b.work_next(&mut r, 2).unwrap().is_ok());
    assert!(b.work_next(&mut r, 2).is_none());
    assert_eq!(
        b.queue(&r, &p, Some(3), 1),
        Err(TelemetryError::HandlerError("router: invalid side id"))
    );
}

#[test]
fn reports_of_failures_go_to_their_endpoint() {
    let mut r = registry();
    let p = Packet::new(&mut r, TY_TELEMETRY_ERROR, &[EP_TELEMETRY_ERROR], "A", 1, b"oh".to_vec());
    assert_eq!(p.unwrap().data_as_utf8(), Some("oh".to_owned()));
}

#[test]
fn numbers_of_a_packet_are_read_by_their_width() {
    let mut r = registry();
    let ep = card(&r);
    let mut make = |name: &str, kind: MessageDataType, bytes: Vec<u8>| {
        let element = MessageElement::Dynamic(kind, MessageClass::Data);
        let mode = ReliableMode::BestEffort;
        let s = &mut r.schema;
        let ty = s
            .register_data_type_with_description(name, "", element, &[ep], mode, 5)
            .unwrap();
        Packet::new(&mut r, ty, &[ep], "A", 1, bytes).unwrap()
    };
    let bytes: Vec<u8> = (1..=8).collect();
    let small = make("SMALL", MessageDataType::UInt8, bytes.clone());
    assert_eq!(small.data_as_u8().unwrap(), bytes);
    let middle = make("MIDDLE", MessageDataType::UInt32, bytes.clone());
    assert_eq!(middle.data_as_u32().unwrap(), vec![0x0403_0201, 0x0807_0605]);
    let large = make("LARGE", MessageDataType::UInt64, bytes.clone());
    assert_eq!(large.data_as_u64().unwrap(), vec![0x0807_0605_0403_0201]);
    let real = make("REAL", MessageDataType::Float64, 1.5f64.to_le_bytes().to_vec());
    assert_eq!(real.data_as_f64_bits().unwrap(), vec![1.5f64.to_bits()]);
    assert!(small.data_as_u64().is_err());
}

/// A registry with the types that boards have in common.
fn common_registry() -> Registry {
    let mut r = Registry::new(Schema::new());
    let mut done = false;
    common::ensure_common_test_schema(&mut r.schema, &mut done).unwrap();
    assert!(done);
    r
}

#[test]
fn common_types_are_made_once() {
    let mut s = Schema::new();
    let mut done = false;
    common::ensure_common_test_schema(&mut s, &mut done).unwrap();
    assert!(done);
    let card = s.endpoint_definition_by_name("SD_CARD").unwrap().id;
    assert!(s.endpoint_definition_by_name("RADIO").is_some());
    let before = s.current_max_data_type_id();
    common::ensure_common_test_schema(&mut s, &mut done).unwrap();
    assert_eq!(s.current_max_data_type_id(), before);
    assert_eq!(s.endpoint_definition_by_name("SD_CARD").unwrap().id, card);
    let mut fresh = Schema::new();
    common::ensure_common_test_schema(&mut fresh, &mut done).unwrap();
    assert!(fresh.endpoint_definition_by_name("SD_CARD").is_none());
}

#[test]
fn a_sample_packet_is_a_position() {
    let mut r = common_registry();
    let p = common::fake_telemetry_packet_bytes(&mut r).unwrap();
    assert!(common::takes_position(&r.schema, &p));
    let (ty, bits) = common::get_sd_card_handler(&r.schema, &p);
    assert_eq!(ty, p.data_type());
    let bytes: Vec<u8> = bits.iter().flat_map(|b| b.to_le_bytes()).collect();
    assert_eq!(bytes, p.payload());
    assert!(common::make_message_packet(&mut r, b"text", 3).is_err());
    let error = Packet::new(&mut r, TY_TELEMETRY_ERROR, &[EP_TELEMETRY_ERROR], "A", 3, b"no".to_vec());
    let other = error.unwrap();
    assert!(!common::takes_position(&r.schema, &other));
    let both = vec![p.copied(), other, p.copied()];
    assert_eq!(common::count_packets_of_type(&both, ty), 2);
    let card = r.schema.endpoint_definition_by_name("SD_CARD").unwrap().id;
    assert_eq!(common::bind_sd_card(&r.schema).unwrap().endpoint, card);
    assert!(common::bind_sd_card(&Schema::new()).is_none());
}

#[test]
fn a_failed_handler_is_told_from_other_errors() {
    assert!(common::is_handler_failure(&Err(TelemetryError::HandlerError("no"))));
    assert!(!common::is_handler_failure(&Err(TelemetryError::BadArg)));
    assert!(!common::is_handler_failure(&Ok(())));
    common::handle_errors(Err(TelemetryError::HandlerError("no")));
}

/// Two boards that are wired together and have met.
fn met(a: (&str, Identity), b: (&str, Identity)) -> (Station, Station) {
    let mut r = common_registry();
    let (mut x, mut y) = (station(a.0), station(b.0));
    x.core.identity = a.1;
    y.core.identity = b.1;
    let (sx, sy) = common::crosswire(&mut x, &mut y);
    let (f, g) = (sx.unwrap(), sy.unwrap());
    assert_eq!((f, g), (Crossing { side: 0, to: 0 }, Crossing { side: 0, to: 0 }));
    let (sx, sy) = (f.side, g.side);
    assert_eq!((x.core.sides[sx].name.as_str(), y.core.sides[sy].name.as_str()), ("a-to-b", "b-to-a"));
    assert!(may_meet(&x, &y, &r, sx, sy, 5));
    common::exchange_discovery(&mut x, &mut y, &mut r, sx, sy, 5).unwrap();
    assert!(x.core.is_idle() && y.core.is_idle());
    (x, y)
}

fn asks_for(address: u32, mode: u8, birth: u64, owner: u64) -> Identity {
    Identity { address, requested: address, mode, birth, owner }
}

fn moves(s: &Station) -> Vec<AddressChangeReason> {
    s.told
        .iter()
        .filter_map(|d| match d {
            Delivery::Moved(c) => Some(c.reason),
            _ => None,
        })
        .collect()
}

#[test]
fn of_two_boards_that_ask_for_an_address_the_older_has_it() {
    let (x, y) = met(("older", asks_for(77, 0, 1, 1)), ("newer", asks_for(77, 0, 2, 2)));
    assert_eq!(x.core.identity.address, 77);
    assert_ne!(y.core.identity.address, 77);
    assert_eq!((moves(&x).len(), moves(&y).len()), (0, 1));
    assert_eq!(moves(&y)[0], AddressChangeReason::RequestedConflict);
    assert_eq!(x.directory.named("newer").unwrap().identity.address, y.core.identity.address);
    assert_eq!(y.directory.named("older").unwrap().identity.address, 77);
}

#[test]
fn a_fixed_address_beats_one_that_is_asked_for() {
    let (x, y) = met(("asks", asks_for(77, 0, 1, 1)), ("fixed", asks_for(77, discovery::ADDRESS_MODE_STATIC, 9, 2)));
    assert_ne!(x.core.identity.address, 77);
    assert_eq!(y.core.identity.address, 77);
    assert_eq!((moves(&x).len(), moves(&y).len()), (1, 0));
}

#[test]
fn boards_of_one_name_part() {
    let (x, y) = met(("same", asks_for(10, 0, 1, 1)), ("same", asks_for(11, 0, 2, 2)));
    assert_eq!(x.core.sender, "same");
    assert_ne!(y.core.sender, "same");
    assert_ne!(x.core.sender, y.core.sender);
    assert_eq!(moves(&y), vec![AddressChangeReason::HostnameConflict]);
}

#[test]
fn a_relay_says_how_a_link_failed() {
    let mut r = registry();
    let mut b = Station::new(Router::new(true, "relay"), None, true);
    b.add_side("in", false, LinkOptions::plain(), false).unwrap();
    b.add_side("out", false, LinkOptions::plain(), false).unwrap();
    let p = note(&mut r, "A", "through", 1);
    b.receive(&mut r, &p, Some(0), 1).ok().unwrap();
    let j = b.core.next_job(&r.schema, 1).unwrap();
    assert!(matches!(j.target, Target::Side(1)));
    b.note_job(&r, &j, false, 1, 1);
    b.core.finish_job(&mut r, j, Err(TelemetryError::Io("cut")), 1);
    assert!(b.core.next_job(&r.schema, 1).is_none());
    assert_eq!(b.core.take_failure(), Err(TelemetryError::Io("cut")));
    let t = b.wires[1].stats.totals;
    assert_eq!((t.tx_retries, t.tx_failures, t.tx_packets), (1, 1, 0));
    assert_eq!((b.failures.failures, b.failures.tries), (1, 1));
}

#[test]
fn a_wanted_value_is_asked_for_and_kept() {
    let mut r = registry();
    let mut a = station("A");
    a.add_side("wire", false, LinkOptions::plain(), false).unwrap();
    let p = note(&mut r, "B", "value", 1);
    assert!(a.want_value(&mut r, p.data_type(), 2).unwrap().is_none());
    assert!(a.variables.keeps(p.data_type()));
    let q = a.core.next_job(&r.schema, 2).unwrap().packet.unwrap();
    assert_eq!(asked_type(q.payload()), Some(p.data_type()));
    assert!(a.keep_value(&p));
    let v = a.want_value(&mut r, p.data_type(), 3).unwrap().unwrap();
    assert_eq!(v.payload(), p.payload());
    assert!(a.core.is_idle());
    a.variables.enable(p.data_type(), Permissions { read: false, write: true });
    assert!(matches!(
        a.want_value(&mut r, p.data_type(), 4),
        Err(TelemetryError::PermissionDenied)
    ));
}

#[test]
fn a_board_tells_of_its_rules_and_links() {
    let mut b = station("B");
    b.add_side("one", false, LinkOptions::plain(), false).unwrap();
    b.add_side("two", false, LinkOptions::plain(), true).unwrap();
    b.core.policy.set_route(Some(0), 1, false);
    b.core.policy.set_route_weight(None, 0, 7);
    b.core.policy.set_typed_route(Some(1), FIRST_USER_TYPE, 0, true);
    let rows = b.route_rows();
    assert_eq!(rows.len(), 6);
    assert_eq!((rows[0].source, rows[0].side, rows[0].weight), (None, 0, Some(7)));
    assert_eq!((rows[3].source, rows[3].side, rows[3].enabled), (Some(0), 1, Some(false)));
    assert!(rows[5].enabled.is_none() && rows[5].weight.is_none());
    assert_eq!(b.typed_rule(Some(1), FIRST_USER_TYPE, 0), Some(true));
    assert_eq!(b.typed_rule(Some(1), FIRST_USER_TYPE, 1), None);
    assert_eq!(b.mode_rule(None), None);
    b.core.policy.set_source_route_mode(None, RouteSelectionMode::Failover);
    assert_eq!(b.mode_rule(None), Some(RouteSelectionMode::Failover));
    let s = b.side_report(1);
    assert!(s.link_local && s.ingress && s.egress && s.balanced);
    assert_eq!((s.effective_weight, s.retries, s.tx_templates), (1, 0, 0));
    b.probe(1, 1_000, 1_000, 5).unwrap();
    assert_eq!(b.side_report(1).rate.capacity, 8_000);
    let all = b.board_report(0);
    assert_eq!((all.rx_len, all.tx_len, all.route_count, all.pending), (0, 0, 0, 0));
    let boards = b.known_boards(0);
    assert_eq!(boards.len(), 1);
    assert_eq!(boards[0].sender_id, "B");
    b.core.add_handler(Handler { endpoint: 200, packed: false }).unwrap();
    b.core.add_handler(Handler { endpoint: 150, packed: false }).unwrap();
    assert_eq!(b.advertised_endpoints(0), vec![150, 200]);
}

#[test]
fn a_locked_frame_comes_back() {
    let mut r = registry();
    let mut b = Router::new(false, "B");
    let p = note(&mut r, "A", "for few", 7);
    let w = wire_format::pack_packet(&r.schema, &p);
    assert!(b.closing(&r.schema, &w, vec![1, 2]).is_none());
    b.can_lock = true;
    b.e2e_key = 5;
    assert!(b.closing(&r.schema, &w, vec![1, 2]).is_none());
    b.e2e_mode = RouterE2eEncryptionMode::ForceAll;
    assert!(!b.refuses(&r.schema, p.data_type()));
    let c = b.closing(&r.schema, &w, vec![1, 2]).unwrap();
    assert_eq!((c.key, c.text.as_slice()), (5, &b"for few"[..]));
    let hidden: Vec<u8> = c.text.iter().map(|x| !x).collect();
    let locked = c.close(&[9, 9, 9], &hidden);
    assert_eq!(locked[0], LOCKED_MARK);
    assert!(wire_format::peek_envelope(&r, &locked).is_err());
    let o = Opening::of_frame(&locked).unwrap();
    assert_eq!((o.key, o.nonce.as_slice(), o.tag.as_slice()), (5, &[1, 2][..], &[9, 9, 9][..]));
    assert_eq!((&o.shown, &o.cipher), (&c.shown, &hidden));
    assert_eq!(o.open(b"for few"), w);
    assert!(Opening::of_frame(&w).is_none());
    b.can_lock = false;
    assert!(b.refuses(&r.schema, p.data_type()));
    assert!(!b.refuses(&r.schema, TY_TELEMETRY_ERROR));
}

#[test]
fn a_board_has_as_many_links_as_it_is_given() {
    let mut b = station("B");
    for i in 0..1_500 {
        assert_eq!(b.add_side("link", false, LinkOptions::plain(), false).unwrap(), i);
    }
    b.core.policy.set_route(Some(1_499), 1_400, false);
    b.core.policy.set_route(Some(1_400), 1_499, true);
    assert_eq!(b.core.policy.route(Some(1_499), 1_400), Some(false));
    assert_eq!(b.core.policy.route(Some(1_400), 1_499), Some(true));
    assert_eq!(b.core.policy.route(Some(1_499), 1_499), None);
    b.core.remove_side(1_400).unwrap();
    assert_eq!(b.core.policy.route(Some(1_499), 1_400), None);
    assert_eq!(b.core.policy.route(Some(1_400), 1_499), None);
}

#[test]
fn a_board_that_comes_late_is_told() {
    let mut r = registry();
    let (mut a, mut b, mut c) = (station("A"), station("B"), station("C"));
    let options = LinkOptions { reliable: true, ..LinkOptions::plain() };
    a.add_side("to-b", true, options, false).unwrap();
    b.add_side("to-a", true, options, false).unwrap();
    b.add_side("to-c", true, options, false).unwrap();
    c.add_side("to-b", true, options, false).unwrap();
    a.announce(&mut r, 1).unwrap();
    while let Some(j) = a.core.next_job(&r.schema, 1) {
        b.receive_frame(&mut r, j.frame.unwrap(), Some(0), 1).ok().unwrap();
    }
    while b.core.next_job(&r.schema, 1).is_some() {}
    c.request_topology(&mut r, 2).unwrap();
    let j = c.core.next_job(&r.schema, 2).unwrap();
    let f = j.frame.unwrap();
    let info = wire_format::peek_frame_info(&r, &f).unwrap();
    assert_eq!(info.envelope.ty, TY_DISCOVERY_TOPOLOGY_REQUEST);
    assert!(info.reliable.is_some());
    let q = match b.receive_frame(&mut r, f, Some(1), 2) {
        Ok(Delivery::Asked(q)) => q,
        _ => panic!("no question"),
    };
    assert_eq!((q.ty, q.side, q.first), (TY_DISCOVERY_TOPOLOGY_REQUEST, 1, true));
    assert_eq!(q.asker, hash::sender_hash("C"));
    b.reply(&mut r, q, 2).unwrap();
    let mut told = 0;
    let mut asked = 0;
    while let Some(j) = b.core.next_job(&r.schema, 2) {
        let f = j.frame.unwrap();
        let info = wire_format::peek_frame_info(&r, &f).unwrap();
        if info.envelope.ty == TY_DISCOVERY_TOPOLOGY {
            assert!(info.reliable.is_some());
            assert_eq!(info.targets, vec![q.asker]);
            told += 1;
            if matches!(j.target, Target::Side(1)) {
                c.receive_frame(&mut r, f, Some(0), 2).ok().unwrap();
            }
        } else if info.envelope.ty == TY_DISCOVERY_TOPOLOGY_REQUEST {
            assert!(matches!(j.target, Target::Side(0)));
            asked += 1;
        }
    }
    assert_eq!(told, 2);
    assert!(asked <= 1);
    let names: Vec<String> = c.known_boards(2).into_iter().map(|x| x.sender_id).collect();
    assert!(names.contains(&"A".to_string()) && names.contains(&"B".to_string()));
    c.request_schema(&mut r, 3).unwrap();
    while let Some(j) = c.core.next_job(&r.schema, 3) {
        let f = j.frame.unwrap();
        if let Ok(Delivery::Asked(q)) = b.receive_frame(&mut r, f, Some(1), 3) {
            assert_eq!(q.ty, TY_DISCOVERY_SCHEMA_REQUEST);
            b.reply(&mut r, q, 3).unwrap();
        }
    }
    let mut defined = 0;
    while let Some(j) = b.core.next_job(&r.schema, 3) {
        let info = wire_format::peek_frame_info(&r, &j.frame.unwrap()).unwrap();
        if info.envelope.ty == TY_DISCOVERY_SCHEMA {
            assert!(info.reliable.is_some() && matches!(j.target, Target::Side(1)));
            defined += 1;
        }
    }
    assert_eq!(defined, 1);
}

#[test]
fn every_packet_for_the_card_counts() {
    let mut r = common_registry();
    let p = common::fake_telemetry_packet_bytes(&mut r).unwrap();
    let mut c = common::get_handler(&r.schema, usize::MAX - 1).unwrap();
    let card = r.schema.endpoint_definition_by_name("SD_CARD").unwrap().id;
    assert_eq!(c.handler, Handler { endpoint: card, packed: false });
    assert_eq!(c.count, usize::MAX - 1);
    for n in [usize::MAX, 0, 1] {
        assert_eq!(c.take(&p), Ok(()));
        assert_eq!(c.count, n);
    }
    assert!(common::get_handler(&Schema::new(), 3).is_none());
}

#[test]
fn a_packet_crosses_to_the_first_link_of_the_other_board() {
    let mut r = registry();
    let (mut x, mut y) = (station("X"), station("Y"));
    y.add_side("old", false, LinkOptions::plain(), false).unwrap();
    let (f, g) = common::crosswire(&mut x, &mut y);
    let (f, g) = (f.unwrap(), g.unwrap());
    assert_eq!((f, g), (Crossing { side: 0, to: 0 }, Crossing { side: 1, to: 0 }));
    assert_eq!(y.core.sides[1].name, "b-to-a");
    let p = note(&mut r, "X", "hello", 3);
    f.pass(&mut y, &mut r, &p, 4).unwrap();
    assert_eq!(y.wires[0].stats.totals.rx_packets, 1);
    assert_eq!(y.wires[1].stats.totals.rx_packets, 0);
    y.core.set_side_ingress_enabled(0, false).unwrap();
    assert_eq!(
        f.pass(&mut y, &mut r, &p, 5),
        Err(TelemetryError::HandlerError("side ingress disabled"))
    );
    assert!(!may_meet(&x, &y, &r, f.side, g.side, 6));
    y.core.set_side_ingress_enabled(0, true).unwrap();
    while y.core.next_job(&r.schema, 6).is_some() {}
    assert!(may_meet(&x, &y, &r, f.side, g.side, 6));
    common::exchange_discovery(&mut x, &mut y, &mut r, f.side, g.side, 6).unwrap();
    assert_eq!(y.directory.named("X").unwrap().side, 0);
    assert_eq!(x.directory.named("Y").unwrap().side, 0);
    x.core.relay = true;
    assert!(!may_meet(&x, &y, &r, f.side, g.side, 7));
}

#[test]
fn a_sample_makes_a_packet_for_any_endpoint() {
    let mut r = registry();
    r.schema.register_endpoint_id(9_003, "FAR", "", false).unwrap();
    let far = r.schema.ensure_endpoint(9_003);
    assert_eq!(far, Ok(9_003));
    let shape = MessageElement::Static(3, MessageDataType::UInt16, MessageClass::Data);
    let mode = ReliableMode::BestEffort;
    let ty = r.schema.register_data_type_id(900, "FAR_DATA", "", shape, &[9_003], mode, 1).unwrap();
    let n = common::test_payload_len_for(&r.schema, ty) as usize;
    assert_eq!(n, 6);
    let p = Packet::new(&mut r, ty, &[9_003], "A", 1, vec![0; n]).unwrap();
    assert_eq!(p.endpoints(), &[9_003]);
    let long = MessageElement::Static(u32::MAX, MessageDataType::UInt16, MessageClass::Data);
    assert_eq!(
        r.schema.register_data_type_id(901, "LONG", "", long, &[9_003], mode, 1),
        Err(TelemetryError::BadArg)
    );
    let whole = MessageElement::Static(u32::MAX, MessageDataType::UInt8, MessageClass::Data);
    r.schema.register_data_type_id(901, "LONG", "", whole, &[9_003], mode, 1).unwrap();
}
