//! What holds of packets that are delivered from board to board: who confirms them, over which link,
//! and what is counted on the way.
use vstd::prelude::*;
use crate::capacity;
use crate::codec;
use crate::conduct;
use crate::definition::DataTypeDefinition;
use crate::discovery;
use crate::duties;
use crate::egress;
use crate::error::{TelemetryError, TelemetryResult};
use crate::exchange::Delivery;
use crate::hash;
use crate::inquiry;
use crate::jobs;
use crate::jobs::{Handler, JobSpec, Target};
use crate::keeping;
use crate::ledger;
use crate::meta::{
    DataEndpoint, DataType, MessageDataType, ReliableMode, EP_TELEMETRY_ERROR, FIRST_USER_TYPE,
    TY_MANAGED_VARIABLE_VALUE, TY_RELIABLE_ACK, TY_TIMESYNC_REQUEST,
    TY_TIMESYNC_RESPONSE,
};
use crate::packet;
use crate::packet::{LeBytes, Packet, PacketSpec};
use crate::presence;
use crate::receipt;
use crate::registry;
use crate::registry::Registry;
use crate::router;
use crate::schema;
use crate::station::{Station, Wire};
use crate::stats;
use crate::stats::Totals;
use crate::table;
use crate::timekeeper;
use crate::timekeeper::{TimeAction, TimeSyncTracker};
use crate::timesync;
use crate::timesync::TimeSyncResponse;
use crate::topology;
use crate::variables;
use crate::wire_format;

verus! {

/// Whether a packet confirms that the board `name` has the packet `id`.
pub open spec fn confirms(q: PacketSpec, id: u64, name: Seq<char>) -> bool {
    ledger::acked(q) == Some((id, hash::name_address(name)))
}

/// A packet that came over a link is confirmed over this link, by a message that the boards on the
/// way understand: this board has this packet.
pub proof fn lemma_packet_is_confirmed_over_its_link(
    s: Station,
    after: Station,
    reg: Registry,
    later: Registry,
    p: PacketSpec,
    side: usize,
    now: u64,
    r: TelemetryResult<bool>,
)
    requires
        ledger::route_of(s.returns.items@, packet::packet_identity(p)) == Some(side),
        s.confirmed(after, reg, later, p, now, r),
        r is Ok,
        keeping::is_open(s.core, side),
    ensures
        jobs::jobs(after.core.agenda@).len() == jobs::jobs(s.core.agenda@).len() + 1,
        exists|q: PacketSpec| #[trigger]
            keeping::takes(jobs::jobs(after.core.agenda@).last(), q, side) && confirms(
                q,
                packet::packet_identity(p),
                s.core.sender@,
            ),
{
    let id = packet::packet_identity(p);
    let made = choose|made: TelemetryResult<Packet>|
        {
            &&& #[trigger] packet::packet_made(
                reg,
                later,
                TY_RELIABLE_ACK,
                seq![EP_TELEMETRY_ERROR],
                receipt::receipt_name(s.core.sender@),
                now,
                codec::le8(id),
                made,
            )
            &&& match made {
                Ok(q) => r == Ok::<bool, TelemetryError>(true) && s.spread(
                    after,
                    s.receipt(q@, s.origin(p, now)),
                    seq![side],
                ),
                Err(e) => r == Err::<bool, TelemetryError>(e) && after == s,
            }
        };
    let q = made->Ok_0;
    table::lemma_lookup_sound::<DataTypeDefinition>(reg.schema@.types, TY_RELIABLE_ACK);
    let said = s.receipt(q@, s.origin(p, now));
    receipt::lemma_receipt_is_understood(said, id, s.core.sender@, s.origin(p, now));
    lemma_one_copy(s, after, said, side);
    assert(keeping::takes(jobs::jobs(after.core.agenda@).last(), said, side));
}

proof fn lemma_one_copy(s: Station, after: Station, p: PacketSpec, side: usize)
    requires
        s.spread(after, p, seq![side]),
        keeping::is_open(s.core, side),
    ensures
        jobs::jobs(after.core.agenda@).len() == jobs::jobs(s.core.agenda@).len() + 1,
        keeping::takes(jobs::jobs(after.core.agenda@).last(), p, side),
{
    let one = duties::copies(s.core, p, seq![side]);
    assert(seq![side].drop_last() =~= Seq::<usize>::empty());
    assert(duties::copies(s.core, p, Seq::<usize>::empty()).len() == 0);
    assert(one.len() == 1);
    let all = jobs::jobs(after.core.agenda@);
    assert(all == jobs::jobs(s.core.agenda@) + one);
    assert(all.last() == one[0]);
}

/// Where the sender of a packet is said by its address alone, it is the board that was heard of
/// last with this address; every other sender is who it says.
pub proof fn lemma_name_behind_an_address(names: Seq<Seq<char>>, sender: Seq<char>)
    ensures
        ({
            let full = receipt::full_name(names, sender);
            &&& (forall|i: int|
                0 <= i < names.len() ==> registry::address_text(
                    hash::name_address(#[trigger] names[i]),
                ) != sender) ==> full == sender
            &&& forall|i: int|
                {
                    &&& 0 <= i < names.len()
                    &&& registry::address_text(hash::name_address(names[i])) == sender
                    &&& forall|k: int|
                        i < k < names.len() ==> registry::address_text(
                            hash::name_address(#[trigger] names[k]),
                        ) != sender
                } ==> full == #[trigger] names[i]
        }),
    decreases names.len(),
{
    if names.len() > 0 {
        let front = names.drop_last();
        lemma_name_behind_an_address(front, sender);
        let last = registry::address_text(hash::name_address(names.last())) == sender;
        assert(names[names.len() - 1] == names.last());
        if !last {
            if forall|i: int|
                0 <= i < names.len() ==> registry::address_text(
                    hash::name_address(#[trigger] names[i]),
                ) != sender {
                assert forall|i: int| 0 <= i < front.len() implies registry::address_text(
                    hash::name_address(#[trigger] front[i]),
                ) != sender by {
                    assert(names[i] == front[i]);
                }
            }
            assert forall|i: int|
                {
                    &&& 0 <= i < names.len()
                    &&& registry::address_text(hash::name_address(names[i])) == sender
                    &&& forall|k: int|
                        i < k < names.len() ==> registry::address_text(
                            hash::name_address(#[trigger] names[k]),
                        ) != sender
                } implies receipt::full_name(names, sender) == #[trigger] names[i] by {
                assert(i < front.len());
                assert(front[i] == names[i]);
                assert forall|k: int| i < k < front.len() implies registry::address_text(
                    hash::name_address(#[trigger] front[k]),
                ) != sender by {
                    assert(names[k] == front[k]);
                }
            }
        }
    }
}

/// The handler that a job is for.
pub open spec fn handler_of(j: JobSpec) -> int {
    match j.target {
        Target::Handler(h) => h as int,
        Target::Side(_) => -1,
    }
}

proof fn lemma_takers(hs: Seq<Handler>, p: PacketSpec, frame: Option<Seq<u8>>, quiet: bool)
    requires
        hs.len() <= usize::MAX,
    ensures
        ({
            let js = jobs::handler_jobs(hs, p, frame, quiet);
            &&& forall|k: int|
                0 <= k < js.len() ==> {
                    &&& (#[trigger] js[k]).target is Handler
                    &&& 0 <= handler_of(js[k]) < hs.len()
                    &&& js[k].packet == Some(p)
                    &&& p.endpoints.contains(hs[handler_of(js[k])].endpoint)
                    &&& k > 0 ==> handler_of(js[0]) < handler_of(js[k])
                }
            &&& js.len() > 0 ==> receipt::is_first_taker(hs, handler_of(js[0]), p)
            &&& js.len() == 0 ==> receipt::is_first_taker(hs, hs.len() as int, p)
        }),
    decreases hs.len(),
{
    if hs.len() > 0 {
        let front = hs.drop_last();
        let few = jobs::handler_jobs(front, p, frame, quiet);
        let js = jobs::handler_jobs(hs, p, frame, quiet);
        lemma_takers(front, p, frame, quiet);
        assert forall|k: int| 0 <= k < few.len() implies js[k] == few[k] by {}
        assert forall|k: int| 0 <= k < js.len() implies {
            &&& (#[trigger] js[k]).target is Handler
            &&& 0 <= handler_of(js[k]) < hs.len()
            &&& js[k].packet == Some(p)
            &&& p.endpoints.contains(hs[handler_of(js[k])].endpoint)
            &&& k > 0 ==> handler_of(js[0]) < handler_of(js[k])
        } by {
            if k < few.len() {
                assert(few[k] == js[k]);
                assert(few[0] == js[0]);
                assert(front[handler_of(few[k])] == hs[handler_of(few[k])]);
            } else {
                if k > 0 {
                    assert(few[0] == js[0]);
                }
            }
        }
        assert forall|k: int| 0 <= k < front.len() implies front[k] == hs[k] by {}
        if js.len() > 0 && few.len() > 0 {
            assert(js[0] == few[0]);
        }
    }
}

/// However many handlers on a board take a packet that is delivered reliably, the board confirms
/// it once: when the first of them is done.
pub proof fn lemma_board_confirms_once(
    s: Station,
    sc: schema::SchemaSpec,
    p: PacketSpec,
    frame: Option<Seq<u8>>,
    quiet: bool,
    k: int,
)
    requires
        s.reliable,
        p.ty >= FIRST_USER_TYPE,
        sc.message(p.ty) matches Some(t) && t.reliable != ReliableMode::BestEffort,
        0 <= k < jobs::handler_jobs(s.core.handlers@, p, frame, quiet).len(),
    ensures
        s.owes_receipt(sc, jobs::handler_jobs(s.core.handlers@, p, frame, quiet)[k]) <==> k == 0,
{
    let hs = s.core.handlers@;
    let js = jobs::handler_jobs(hs, p, frame, quiet);
    assert(hs.len() == s.core.handlers.len());
    lemma_takers(hs, p, frame, quiet);
    assert(js[k].target is Handler);
    assert(js[0].target is Handler);
    if k > 0 {
        let first = handler_of(js[0]);
        assert(p.endpoints.contains(hs[first].endpoint));
        assert(first < handler_of(js[k]));
    }
}

/// Packets that are sent for what they are worth are confirmed by nobody.
pub proof fn lemma_plain_packets_are_not_confirmed(
    s: Station,
    sc: schema::SchemaSpec,
    p: PacketSpec,
    j: JobSpec,
)
    requires
        j.packet == Some(p),
        !s.reliable || p.ty < FIRST_USER_TYPE || !(sc.message(p.ty) matches Some(t) && t.reliable
            != ReliableMode::BestEffort),
    ensures
        !s.owes_receipt(sc, j),
{
}

/// The way back of a packet of a program is the link over which it came.
pub proof fn lemma_way_back_is_remembered(
    s: Station,
    after: Station,
    p: PacketSpec,
    side: usize,
    now: u64,
)
    requires
        s.returns.items@.len() <= ledger::RELIABLE_MAX_RETURN_ROUTES,
        p.ty >= FIRST_USER_TYPE,
        s.noted_user(after, p, Some(side)),
    ensures
        after.way_back(p, now) == Some(side),
{
    let mid = choose|mid: Station| #[trigger]
        s.tallied(mid, p, Some(side)) && mid.routed_user(after, p, Some(side));
    assert(mid.returns == s.returns);
    ledger::lemma_way_back(s.returns.items@, packet::packet_identity(p), side);
}

/// A packet of a program that is sent waits for every board that is known to take it.
pub proof fn lemma_sent_packet_is_followed(
    s: Station,
    after: Station,
    sc: schema::SchemaSpec,
    p: PacketSpec,
    now: u64,
    r: TelemetryResult<()>,
)
    requires
        ledger::once(s.pending@),
        s.reliable,
        p.ty >= FIRST_USER_TYPE,
        s.sent_out(after, sc, p, now, r),
        presence::holders(s.core.presence@, Some(s.core.remote(p)), now).len() > 0,
    ensures
        ledger::holders_of(after.pending@, packet::packet_identity(p)) == Some(
            presence::holders(s.core.presence@, Some(s.core.remote(p)), now),
        ),
{
    let mid = choose|mid: Station|
        {
            &&& #[trigger] s.prepared(mid, p, now)
            &&& after == Station { core: after.core, ..mid }
        };
    let kept = choose|kept: Station| #[trigger] s.kept_value(kept, p) && kept.followed(mid, p, now);
    assert(kept.core == s.core && kept.pending == s.pending);
    ledger::lemma_packet_waits_for_its_boards(
        s.pending@,
        packet::packet_identity(p),
        presence::holders(s.core.presence@, Some(s.core.remote(p)), now),
        0,
        ledger::RELIABLE_MAX_END_TO_END_PENDING as nat,
    );
}

/// A question for the time goes to the board whose time is gone by, over the link that leads to
/// it, and nowhere else.
pub proof fn lemma_time_is_asked_of_its_source(
    s: Station,
    after: Station,
    sc: schema::SchemaSpec,
    p: PacketSpec,
    side: usize,
    now: u64,
    r: TelemetryResult<()>,
)
    requires
        p.ty == TY_TIMESYNC_REQUEST,
        s.way_to_time(now) == Some(side),
        s.sent_out(after, sc, p, now, r),
        keeping::is_open(s.core, side),
    ensures
        r is Ok,
        jobs::jobs(after.core.agenda@).len() == jobs::jobs(s.core.agenda@).len() + 1,
        keeping::takes(jobs::jobs(after.core.agenda@).last(), p, side),
{
}

/// Whether a counter is the higher by some number.
pub open spec fn grew(before: u64, after: u64, by: int) -> bool {
    after - before == by
}

/// Whether there is room for more in each counter of a link.
pub open spec fn may_count(t: Totals, bytes: int) -> bool {
    &&& t.rx_packets < u64::MAX && t.tx_packets < u64::MAX
    &&& t.relayed_rx_packets < u64::MAX && t.relayed_tx_packets < u64::MAX
    &&& t.local_deliveries < u64::MAX && t.local_retries < u64::MAX && t.local_failures < u64::MAX
    &&& t.tx_retries < u64::MAX && t.tx_failures < u64::MAX
    &&& t.rx_bytes + bytes <= u64::MAX && t.tx_bytes + bytes <= u64::MAX
}

/// A frame that went over a link is counted there with its bytes, as passed on where the packet is
/// of another board; on no other link, and not as a failure.
pub proof fn lemma_what_went_is_counted(
    s: Station,
    after: Station,
    sc: schema::SchemaSpec,
    j: JobSpec,
    p: PacketSpec,
    f: Seq<u8>,
    side: usize,
    started: u64,
    ended: u64,
)
    requires
        s.job_noted(after, sc, j, true, started, ended),
        j.target == Target::Side(side),
        j.packet == Some(p),
        j.frame == Some(f),
        f.len() <= usize::MAX,
        side < s.wires@.len(),
        may_count(s.wires@[side as int].stats.totals, f.len() as int),
    ensures
        ({
            let was = s.wires@[side as int].stats.totals;
            let now = after.wires@[side as int].stats.totals;
            &&& grew(was.tx_packets, now.tx_packets, 1)
            &&& grew(was.tx_bytes, now.tx_bytes, f.len() as int)
            &&& grew(
                was.relayed_tx_packets,
                now.relayed_tx_packets,
                if hash::name_address(p.sender) != hash::name_address(s.core.sender@) {
                    1int
                } else {
                    0
                },
            )
            &&& now.tx_retries == was.tx_retries
            &&& now.tx_failures == was.tx_failures
            &&& now.rx_packets == was.rx_packets
            &&& now.rx_bytes == was.rx_bytes
        }),
        after.wires@.len() == s.wires@.len(),
        forall|i: int|
            0 <= i < s.wires@.len() && i != side ==> after.wires@[i] == s.wires@[i],
        after.failures == s.failures,
        ended <= started ==> after.wires@[side as int].rate == s.wires@[side as int].rate
            && after.core == s.core,
{
}

/// A link over which something did not go counts a try, and a failure where it was the last: the
/// third, or the first on a relay. Only what failed for good counts among the failures of the
/// board, with all its tries.
pub proof fn lemma_what_did_not_go_is_counted(
    s: Station,
    after: Station,
    sc: schema::SchemaSpec,
    j: JobSpec,
    p: PacketSpec,
    side: usize,
    started: u64,
    ended: u64,
)
    requires
        s.job_noted(after, sc, j, false, started, ended),
        j.target == Target::Side(side),
        j.packet == Some(p),
        side < s.wires@.len(),
        may_count(s.wires@[side as int].stats.totals, 0),
        s.failures.failures < u64::MAX,
        s.failures.tries + j.tries + 1 <= u64::MAX,
    ensures
        ({
            let was = s.wires@[side as int].stats.totals;
            let now = after.wires@[side as int].stats.totals;
            let last = j.tries >= 2 || s.core.relay;
            &&& grew(was.tx_retries, now.tx_retries, 1)
            &&& grew(
                was.tx_failures,
                now.tx_failures,
                if last {
                    1int
                } else {
                    0
                },
            )
            &&& now.tx_packets == was.tx_packets
            &&& now.tx_bytes == was.tx_bytes
            &&& grew(
                s.failures.failures,
                after.failures.failures,
                if last {
                    1int
                } else {
                    0
                },
            )
            &&& grew(
                s.failures.tries,
                after.failures.tries,
                if last {
                    j.tries + 1
                } else {
                    0
                },
            )
        }),
        after.wires@[side as int].rate == s.wires@[side as int].rate,
        forall|i: int|
            0 <= i < s.wires@.len() && i != side ==> after.wires@[i] == s.wires@[i],
{
}

/// A packet that a handler did not take is counted on the link over which it came.
pub proof fn lemma_what_was_not_taken_is_counted(
    s: Station,
    after: Station,
    sc: schema::SchemaSpec,
    j: JobSpec,
    p: PacketSpec,
    side: usize,
    started: u64,
    ended: u64,
)
    requires
        s.job_noted(after, sc, j, false, started, ended),
        j.target is Handler,
        j.packet == Some(p),
        ledger::route_of(s.returns.items@, packet::packet_identity(p)) == Some(side),
        side < s.wires@.len(),
        may_count(s.wires@[side as int].stats.totals, 0),
    ensures
        ({
            let was = s.wires@[side as int].stats.totals;
            let now = after.wires@[side as int].stats.totals;
            &&& grew(was.local_retries, now.local_retries, 1)
            &&& grew(
                was.local_failures,
                now.local_failures,
                if j.tries >= 2 {
                    1int
                } else {
                    0
                },
            )
            &&& now.tx_retries == was.tx_retries
        }),
        after.core == s.core,
{
}

/// A packet that comes over a link is counted there with the bytes of its payload.
pub proof fn lemma_what_came_is_counted(s: Station, after: Station, p: PacketSpec, side: usize)
    requires
        s.counted_in(after, p, side),
        side < s.wires@.len(),
        p.payload.len() <= usize::MAX,
        may_count(s.wires@[side as int].stats.totals, p.payload.len() as int),
    ensures
        ({
            let was = s.wires@[side as int].stats.totals;
            let now = after.wires@[side as int].stats.totals;
            &&& grew(was.rx_packets, now.rx_packets, 1)
            &&& grew(was.rx_bytes, now.rx_bytes, p.payload.len() as int)
            &&& now.tx_packets == was.tx_packets
        }),
        after.core == s.core,
        forall|i: int|
            0 <= i < s.wires@.len() && i != side ==> after.wires@[i] == s.wires@[i],
{
}

/// A packet of a program counts as delivered here the first time that it comes, where a handler of
/// this board takes it and it is for this board; when it comes again it counts for nothing.
pub proof fn lemma_delivery_is_counted_once(s: Station, after: Station, p: PacketSpec, side: usize)
    requires
        s.tallied(after, p, Some(side)),
        side < s.wires@.len(),
        p.ty >= FIRST_USER_TYPE,
        may_count(s.wires@[side as int].stats.totals, 0),
    ensures
        s.core.recent@.contains(packet::packet_identity(p)) ==> after == s,
        !s.core.recent@.contains(packet::packet_identity(p)) ==> ({
            let was = s.wires@[side as int].stats.totals;
            let now = after.wires@[side as int].stats.totals;
            let here = (p.targets.len() == 0 || p.targets.contains(
                hash::name_hash(s.core.sender@),
            )) && exists|h: int, i: int|
                0 <= h < s.core.handlers@.len() && 0 <= i < p.endpoints.len()
                    && #[trigger] s.core.handlers@[h].endpoint == #[trigger] p.endpoints[i];
            &&& grew(
                was.local_deliveries,
                now.local_deliveries,
                if here {
                    1int
                } else {
                    0
                },
            )
            &&& grew(
                was.relayed_rx_packets,
                now.relayed_rx_packets,
                if s.core.relay {
                    0int
                } else {
                    1
                },
            )
        }),
{
    let hs = s.core.handlers@;
    let is = |e: DataEndpoint| jobs::handled(hs, e);
    let few = p.endpoints.filter(is);
    assert(jobs::locals(hs, p.endpoints) == few);
    if few.len() > 0 {
        p.endpoints.lemma_filter_contains_rev(is, few[0]);
        let i = choose|i: int| 0 <= i < p.endpoints.len() && p.endpoints[i] == few[0];
        p.endpoints.lemma_filter_pred(is, 0);
        assert(is(few[0]));
        assert(p.endpoints[i] == few[0]);
    }
    if exists|h: int, i: int|
        0 <= h < hs.len() && 0 <= i < p.endpoints.len() && #[trigger] hs[h].endpoint
            == #[trigger] p.endpoints[i] {
        let (h, i) = choose|h: int, i: int|
            0 <= h < hs.len() && 0 <= i < p.endpoints.len() && #[trigger] hs[h].endpoint
                == #[trigger] p.endpoints[i];
        assert(is(p.endpoints[i]));
        p.endpoints.lemma_filter_contains(is, i);
    }
}

/// A message that a board has a packet goes on over the link over which the packet came: so it
/// comes back to who sent it.
pub proof fn lemma_confirmation_goes_back(
    s: Station,
    after: Station,
    q: PacketSpec,
    id: u64,
    board: u32,
    side: usize,
)
    requires
        ledger::route_of(s.returns.items@, id) == Some(side),
        s.receipted(after, q, id, board),
        keeping::is_open(s.core, side),
    ensures
        jobs::jobs(after.core.agenda@).len() == jobs::jobs(s.core.agenda@).len() + 1,
        keeping::takes(jobs::jobs(after.core.agenda@).last(), q, side),
{
    let one = duties::copies(s.core, q, seq![side]);
    assert(seq![side].drop_last() =~= Seq::<usize>::empty());
    assert(duties::copies(s.core, q, Seq::<usize>::empty()).len() == 0);
    assert(one.len() == 1);
    let all = jobs::jobs(after.core.agenda@);
    assert(all == jobs::jobs(s.core.agenda@) + one);
    assert(all.last() == one[0]);
}

/// A packet that comes to a relay again while boards still wait for it goes to each of these, over
/// the link that leads to it, but never back over the link over which it came.
pub proof fn lemma_packet_is_repeated_for_who_waits(
    s: Station,
    after: Station,
    sc: schema::SchemaSpec,
    p: PacketSpec,
    side: usize,
    boards: Seq<u32>,
    now: u64,
    r: TelemetryResult<()>,
    i: int,
    to: usize,
)
    requires
        s.core.side_fault(Some(side)) is None,
        s.core.relay,
        p.ty >= FIRST_USER_TYPE,
        s.core.recent@.contains(packet::packet_identity(p)),
        ledger::holders_of(s.pending@, packet::packet_identity(p)) == Some(boards),
        s.set_aside(after, sc, p, Some(side), now, r),
        0 <= i < boards.len(),
        presence::way_to_board(s.core.presence@, boards[i], now) == Some(to),
        to != side,
        keeping::is_open(s.core, to),
    ensures
        r is Ok,
        exists|k: int|
            s.core.agenda@.len() <= k < after.core.agenda@.len() && #[trigger] keeping::takes(
                after.core.agenda@[k]@,
                p,
                to,
            ),
        forall|k: int|
            s.core.agenda@.len() <= k < after.core.agenda@.len() ==> !#[trigger] keeping::takes(
                after.core.agenda@[k]@,
                p,
                side,
            ),
{
    let ways = duties::ways(s.core.presence@, boards, side, now);
    assert(ledger::acked(p) is None);
    let mid = choose|mid: Station|
        #[trigger] s.counted_in(mid, p, side) && r is Ok && mid.spread(after, p, ways);
    assert(mid.core == s.core);
    keeping::lemma_ways_lead_to_who_waits(s.core.presence@, boards, side, now);
    keeping::lemma_each_open_link_gets_a_copy(s.core, p, ways);
    let more = duties::copies(s.core, p, ways);
    let old_jobs = jobs::jobs(s.core.agenda@);
    let all = jobs::jobs(after.core.agenda@);
    assert(all == old_jobs + more);
    assert(all.len() == after.core.agenda@.len());
    assert(old_jobs.len() == s.core.agenda@.len());
    assert(ways.contains(to));
    let k = choose|k: int| 0 <= k < more.len() && #[trigger] keeping::takes(more[k], p, to);
    let at = old_jobs.len() + k;
    assert(all[at] == more[k]);
    assert(all[at] == after.core.agenda@[at]@);
    assert(keeping::takes(after.core.agenda@[at]@, p, to));
    assert forall|n: int| s.core.agenda@.len() <= n < after.core.agenda@.len() implies
        !#[trigger] keeping::takes(after.core.agenda@[n]@, p, side) by {
        let m = n - old_jobs.len();
        assert(all[n] == more[m]);
        assert(all[n] == after.core.agenda@[n]@);
        assert(keeping::takes_over_one(s.core, more[m], p, ways));
        let x = choose|x: usize| #[trigger]
            keeping::takes(more[m], p, x) && ways.contains(x) && keeping::is_open(s.core, x);
        assert(x != side);
    }
}

/// A program is told of a value of a type that it keeps as often as the value changes, and no
/// oftener.
pub proof fn lemma_changed_value_is_told(
    s: Station,
    after: Station,
    reg: Registry,
    reg_after: Registry,
    p: PacketSpec,
    from: Option<usize>,
    now: u64,
    d: Delivery,
)
    requires
        s.worked(after, reg, reg_after, p, from, now, None, Ok(d)),
        p.ty >= FIRST_USER_TYPE,
        s.variables@.contains_key(p.ty),
    ensures
        ({
            let last = s.variables@[p.ty].value;
            &&& last is None || last->0.payload != p.payload ==> (d matches Delivery::Value(q)
                && q@ == p)
            &&& last is Some && last->0.payload == p.payload ==> d is Nothing
            &&& variables::lookup(after.variables@, p.ty).value == Some(p)
        }),
{
    assert(ledger::acked(p) is None);
    let mid = choose|mid: Station|
        {
            &&& #[trigger] s.noted_user(mid, p, from)
            &&& mid.passed_on(after, reg.schema@, p, from, now, None, s.is_news(p), Ok(d))
        };
    let first = choose|first: Station| #[trigger]
        s.tallied(first, p, from) && first.routed_user(mid, p, from);
    assert(first.variables == s.variables);
    assert(after.variables == mid.variables);
}

proof fn lemma_items_len<T: LeBytes>(v: Seq<T>)
    ensures
        packet::le_items(v).len() == v.len() * T::size(),
    decreases v.len(),
{
    if v.len() > 0 {
        lemma_items_len(v.drop_last());
        v.last().lemma_size();
        assert((v.len() - 1) * T::size() + T::size() == v.len() * T::size()) by (nonlinear_arith);
    } else {
        assert(0 * T::size() == 0) by (nonlinear_arith);
    }
}

proof fn lemma_items_apart<T: LeBytes>(v: Seq<T>, w: Seq<T>)
    requires
        packet::le_items(v) == packet::le_items(w),
    ensures
        v.len() == w.len(),
        forall|i: int| 0 <= i < v.len() ==> (#[trigger] v[i]).bytes() == (#[trigger] w[i]).bytes(),
    decreases v.len(),
{
    lemma_items_len(v);
    lemma_items_len(w);
    if v.len() > 0 {
        v.last().lemma_size();
    }
    if w.len() > 0 {
        w.last().lemma_size();
    }
    if v.len() > 0 || w.len() > 0 {
        let n = v.len() as int;
        let m = w.len() as int;
        let size = T::size() as int;
        assert(n == m) by (nonlinear_arith)
            requires
                n * size == m * size,
                size > 0,
        ;
        let a = packet::le_items(v.drop_last());
        let b = packet::le_items(w.drop_last());
        lemma_items_len(v.drop_last());
        lemma_items_len(w.drop_last());
        assert(a =~= packet::le_items(v).take(a.len() as int));
        assert(b =~= packet::le_items(w).take(b.len() as int));
        assert(v.last().bytes() =~= packet::le_items(v).skip(a.len() as int));
        assert(w.last().bytes() =~= packet::le_items(w).skip(b.len() as int));
        lemma_items_apart(v.drop_last(), w.drop_last());
        assert forall|i: int| 0 <= i < v.len() implies (#[trigger] v[i]).bytes() == (
        #[trigger] w[i]).bytes() by {
            if i < v.len() - 1 {
                assert(v.drop_last()[i].bytes() == w.drop_last()[i].bytes());
            }
        }
    }
}

proof fn lemma_whole_items<T: LeBytes>(v: Seq<T>)
    ensures
        packet::le_items(v).len() % T::size() == 0,
{
    let x: T = vstd::pervasive::arbitrary();
    x.lemma_size();
    lemma_items_len(v);
    vstd::arithmetic::div_mod::lemma_mod_multiples_basic(v.len() as int, T::size() as int);
}

/// The numbers that a packet is made of are the numbers that are read from it, in the same order;
/// a packet whose type has another kind of number is neither made nor read.
pub proof fn lemma_numbers_come_back<T: LeBytes>(
    reg: Registry,
    later: Registry,
    ty: DataType,
    kind: MessageDataType,
    endpoints: Seq<DataEndpoint>,
    sender: Seq<char>,
    timestamp: u64,
    v: Seq<T>,
    made: TelemetryResult<Packet>,
    r: TelemetryResult<Vec<T>>,
)
    requires
        packet::typed_packet_made(
            reg,
            later,
            ty,
            kind,
            endpoints,
            sender,
            timestamp,
            packet::le_items(v),
            made,
        ),
        made matches Ok(p) ==> packet::reads_as(p@, kind, r),
    ensures
        made is Ok ==> (r matches Ok(w) && w@.len() == v.len() && forall|i: int|
            0 <= i < v.len() ==> (#[trigger] w@[i]).bytes() == (#[trigger] v[i]).bytes()),
        (reg.schema@.message(ty) matches Some(t) && t.element.kind() != kind) ==> made is Err
            && later == reg,
{
    if let Ok(p) = made {
        lemma_whole_items(v);
        assert(p@.payload == packet::le_items(v));
        assert(p@.element.kind() == kind);
        lemma_items_apart(r->Ok_0@, v);
    }
}

/// A question that comes over a link is told of as it was asked: what is asked for, over which
/// link, by whom, and whether the board is the first that is asked.
pub proof fn lemma_question_is_told(
    s: Station,
    after: Station,
    sc: schema::SchemaSpec,
    p: PacketSpec,
    side: usize,
    on: bool,
    now: u64,
    news: bool,
    d: Delivery,
)
    requires
        router::is_question(p.ty),
        p.payload == discovery::request_bytes(on),
        s.passed_on(after, sc, p, Some(side), now, None, news, Ok(d)),
    ensures
        d matches Delivery::Asked(q) && {
            &&& q.ty == p.ty
            &&& q.side == side
            &&& q.asker == hash::name_hash(p.sender)
            &&& q.first == !on
        },
{
}

/// What is told over slow links goes over every open link that is known to be slow, and over no
/// other; and so soon after it no sign of life is due.
pub proof fn lemma_slow_links_are_told(
    s: Station,
    after: Station,
    p: PacketSpec,
    side: usize,
    now: u64,
)
    requires
        s.core.wf(),
        s.refreshed(after, p, now),
        side < s.core.sides@.len(),
    ensures
        keeping::is_open(s.core, side) && capacity::slow(s.core.sides@[side as int].capacity) ==> exists|
            k: int,
        |
            s.core.agenda@.len() <= k < after.core.agenda@.len() && #[trigger] keeping::takes(
                after.core.agenda@[k]@,
                p,
                side,
            ),
        !capacity::slow(s.core.sides@[side as int].capacity) ==> forall|k: int|
            s.core.agenda@.len() <= k < after.core.agenda@.len() ==> !#[trigger] keeping::takes(
                after.core.agenda@[k]@,
                p,
                side,
            ),
        after.core.sides@.len() == s.core.sides@.len(),
        !after.core.ping_due(side as int, now),
{
    let list = s.slow_list();
    let open = s.core.open_list();
    let slow = duties::is_slow_side(s.core.sides@);
    let mid = choose|mid: Station|
        {
            &&& #[trigger] s.spread(mid, p, list)
            &&& after.core.sides@.len() == mid.core.sides@.len()
            &&& forall|k: int|
                0 <= k < mid.core.sides@.len() ==> (#[trigger] after.core.sides@[k]).pinged == now
            &&& after.core.agenda == mid.core.agenda
        };
    assert(s.core.sides@.len() == s.core.sides.len());
    conduct::lemma_open_links(s.core.sides@, s.core.sides@.len());
    assert(open == egress::open_sides(s.core.sides@, s.core.sides@.len()));
    assert(list == open.filter(slow));
    keeping::lemma_each_open_link_gets_a_copy(s.core, p, list);
    let more = duties::copies(s.core, p, list);
    let old_jobs = jobs::jobs(s.core.agenda@);
    let all = jobs::jobs(after.core.agenda@);
    assert(all == old_jobs + more);
    assert(all.len() == after.core.agenda@.len());
    assert(old_jobs.len() == s.core.agenda@.len());
    if keeping::is_open(s.core, side) && slow(side) {
        assert(open.contains(side));
        let i = choose|i: int| 0 <= i < open.len() && open[i] == side;
        open.lemma_filter_contains(slow, i);
        assert(list.contains(side));
        let k = choose|k: int| 0 <= k < more.len() && #[trigger] keeping::takes(more[k], p, side);
        let at = old_jobs.len() + k;
        assert(all[at] == more[k]);
        assert(all[at] == after.core.agenda@[at]@);
        assert(keeping::takes(after.core.agenda@[at]@, p, side));
    }
    if !slow(side) {
        assert forall|n: int| s.core.agenda@.len() <= n < after.core.agenda@.len() implies
            !#[trigger] keeping::takes(after.core.agenda@[n]@, p, side) by {
            let m = n - old_jobs.len();
            assert(all[n] == more[m]);
            assert(all[n] == after.core.agenda@[n]@);
            assert(keeping::takes_over_one(s.core, more[m], p, list));
            let x = choose|x: usize| #[trigger]
                keeping::takes(more[m], p, x) && list.contains(x) && keeping::is_open(s.core, x);
            let i = choose|i: int| 0 <= i < list.len() && list[i] == x;
            open.lemma_filter_pred(slow, i);
        }
    }
    assert(after.core.sides@[side as int].pinged == now);
}

/// A frame that comes over a link counts there as one, with all its bytes; the packets of its type
/// are counted when they are taken.
pub proof fn lemma_frame_that_came_is_counted(
    w: Wire,
    after: Wire,
    reg: Registry,
    f: Seq<u8>,
    ty: DataType,
)
    requires
        w.framed(after, reg, f),
        wire_format::peek(reg.schema@, f) matches Ok((h, _)) && h.scalars.ty == ty,
        f.len() <= usize::MAX,
        may_count(w.stats.totals, f.len() as int),
    ensures
        grew(w.stats.totals.rx_packets, after.stats.totals.rx_packets, 1),
        grew(w.stats.totals.rx_bytes, after.stats.totals.rx_bytes, f.len() as int),
        after.stats.totals.tx_packets == w.stats.totals.tx_packets,
        stats::counted(after.stats.types@, ty).rx_packets == stats::counted(
            w.stats.types@,
            ty,
        ).rx_packets,
        after.rate == w.rate,
{
    stats::lemma_types_count_apart(
        w.stats.types@,
        ty,
        stats::LinkEvent::CameFramed(f.len() as usize),
        ty,
    );
}

/// Packets that a board makes one after the other are never the same, even where all that they say
/// is: each has a number of its own, the one after that of the packet before it.
pub proof fn lemma_packets_made_in_turn_differ(
    first: Registry,
    mid: Registry,
    last: Registry,
    ty: DataType,
    endpoints: Seq<DataEndpoint>,
    sender: Seq<char>,
    timestamp: u64,
    payload: Seq<u8>,
    p: Packet,
    q: Packet,
)
    requires
        packet::packet_made(first, mid, ty, endpoints, sender, timestamp, payload, Ok(p)),
        packet::packet_made(mid, last, ty, endpoints, sender, timestamp, payload, Ok(q)),
    ensures
        p@.nonce != q@.nonce,
        p@.nonce < u16::MAX ==> q@.nonce == p@.nonce + 1,
        q@ == (PacketSpec { nonce: q@.nonce, ..p@ }),
{
}

/// A question for a value is answered over its link too where it comes in a frame.
pub proof fn lemma_question_in_a_frame_is_answered(
    s: Station,
    after: Station,
    reg: Registry,
    reg_after: Registry,
    f: Seq<u8>,
    question: PacketSpec,
    v: PacketSpec,
    side: usize,
    now: u64,
    r: TelemetryResult<Delivery>,
)
    requires
        Station::carried(reg, f) == Some((question, false)),
        question.ty == TY_MANAGED_VARIABLE_VALUE,
        question.payload == codec::le4(v.ty),
        s.variables@.contains_key(v.ty),
        s.variables@[v.ty].value == Some(v),
        s.took_frame(after, reg, reg_after, f, Some(side), now, r),
        keeping::is_open(s.core, side),
    ensures
        r is Ok,
        jobs::jobs(after.core.agenda@).len() == jobs::jobs(s.core.agenda@).len() + 1,
        keeping::takes(jobs::jobs(after.core.agenda@).last(), v, side),
{
    variables::lemma_question_roundtrip(v.ty);
    assert(s.worked(after, reg, reg_after, question, Some(side), now, None, r));
    assert(s.answered(after, question, Some(side)));
    lemma_one_copy(s, after, v, side);
}

/// The link over which the time is asked for leads to the best of the boards that tell it, even
/// where the board itself tells it too.
pub proof fn lemma_time_comes_from_the_best(s: Station, t: TimeSyncTracker, now: u64, i: int)
    requires
        s.time == Some(t),
        timekeeper::best(
            timekeeper::sources(t.sources@),
            now,
            t.config.source_timeout_ms,
        ) == Some(i),
    ensures
        s.way_to_time(now) == presence::way_to_source(
            s.core.presence@,
            timekeeper::sources(t.sources@)[i].sender,
            now,
        ),
{
}

/// The answer to a question for the time goes back over the link over which the question came, with
/// the times that it names.
pub proof fn lemma_time_is_told_to_who_asked(
    s: Station,
    after: Station,
    reg: Registry,
    reg_after: Registry,
    a: TimeSyncResponse,
    side: usize,
    now: u64,
    told: bool,
)
    requires
        s.acted(after, reg, reg_after, TimeAction::Answer(a), Some(side), now, Ok(told)),
    ensures
        told,
        after.core.tx@.len() == s.core.tx@.len() + 1,
        after.core.tx@.last().item.to == Some(side),
        after.core.tx@.last().item.packet@.ty == TY_TIMESYNC_RESPONSE,
        timesync::read_four(after.core.tx@.last().item.packet@.payload) matches Some((x, _)) && x
            == (a.seq, a.t1_ms, a.t2_ms, a.t3_ms),
{
    table::lemma_lookup_sound::<DataTypeDefinition>(reg.schema@.types, TY_TIMESYNC_RESPONSE);
    codec::lemma_le_roundtrip(0, 0, a.seq, codec::le8(a.t1_ms) + timesync::two(a.t2_ms, a.t3_ms));
    codec::lemma_le_roundtrip(0, 0, a.t1_ms, timesync::two(a.t2_ms, a.t3_ms));
    codec::lemma_le_roundtrip(0, 0, a.t2_ms, codec::le8(a.t3_ms));
    codec::lemma_le_roundtrip(0, 0, a.t3_ms, Seq::empty());
    let all = timesync::four(a.seq, a.t1_ms, a.t2_ms, a.t3_ms);
    let tail = timesync::two(a.t2_ms, a.t3_ms);
    assert(all =~= codec::le8(a.seq) + (codec::le8(a.t1_ms) + tail));
    assert(tail =~= codec::le8(a.t2_ms) + codec::le8(a.t3_ms));
    assert(codec::le8(a.t3_ms) =~= codec::le8(a.t3_ms) + Seq::<u8>::empty());
}

/// The board that speaks for all is asked over the link over which it is heard.
pub proof fn lemma_master_is_asked_where_it_is_heard(
    s: Station,
    now: u64,
    m: Option<usize>,
    i: int,
)
    requires
        s.master_over(now, m),
        s.boards_known(now).len() <= inquiry::MAX_ELECTORS,
        topology::elected(s.boards_known(now), i),
    ensures
        ({
            let name = s.boards_known(now)[i].sender_id;
            &&& name == s.core.sender@ ==> m is None
            &&& name != s.core.sender@ ==> match presence::client_entry(
                s.core.presence@,
                name,
                now,
            ) {
                Some(e) => m == Some(e.side),
                None => m is None,
            }
        }),
{
    let boards = s.boards_known(now);
    let name = choose|name: Seq<char>|
        {
            &&& #[trigger] inquiry::is_master(boards, name)
            &&& m == (if name == s.core.sender@ {
                None
            } else {
                match presence::client_entry(s.core.presence@, name, now) {
                    Some(e) => Some(e.side),
                    None => None,
                }
            })
        };
    let j = choose|j: int| #[trigger] topology::elected(boards, j) && name == boards[j].sender_id;
    topology::lemma_one_is_elected(boards, i, j);
}

} // verus!
