//! What holds of how a board announces itself, keeps things waiting, and does its jobs.
use vstd::prelude::*;
use crate::capacity;
use crate::definition;
use crate::discovery;
use crate::discovery::{
    DISCOVERY_FAST_INTERVAL_MS, DISCOVERY_SLOW_INTERVAL_MS, DISCOVERY_SLOW_LINK_PING_INTERVAL_MS,
};
use crate::egress;
use crate::error::{TelemetryError, TelemetryResult};
use crate::fairness;
use crate::hash;
use crate::ingress;
use crate::jobs;
use crate::jobs::{JobSpec, Side, Target};
use crate::meta::{
    DataEndpoint, ReliableMode, EP_TELEMETRY_ERROR, FIRST_USER_ENDPOINT, TY_DISCOVERY_ANNOUNCE,
    TY_DISCOVERY_LEAVE, TY_DISCOVERY_SCHEMA, TY_DISCOVERY_TIMESYNC_SOURCES, TY_DISCOVERY_TOPOLOGY,
};
use crate::packet;
use crate::packet::PacketSpec;
use crate::presence;
use crate::presence::AnnouncerSpec;
use crate::queue;
use crate::queue::Waiting;
use crate::registry::Registry;
use crate::reliable;
use crate::reliable::{SentSpec, TxSpec};
use crate::router;
use crate::router::{Arriving, Leaving, Router};
use crate::routes;
use crate::routes::RouteSelectionMode;
use crate::schema;
use crate::wire_format;

verus! {

/// The links that are there and open are listed each once, in ascending order, and none is left
/// out.
pub proof fn lemma_open_links(s: Seq<Side>, n: nat)
    requires
        n <= s.len(),
        s.len() <= usize::MAX,
    ensures
        forall|i: usize| #[trigger]
            egress::open_sides(s, n).contains(i) <==> i < n && s[i as int].alive
                && s[i as int].egress,
        forall|i: int, j: int|
            0 <= i < j < egress::open_sides(s, n).len() ==> egress::open_sides(s, n)[i]
                < egress::open_sides(s, n)[j],
    decreases n,
{
    if n > 0 {
        let front = egress::open_sides(s, (n - 1) as nat);
        let all = egress::open_sides(s, n);
        lemma_open_links(s, (n - 1) as nat);
        assert forall|i: int| 0 <= i < front.len() implies #[trigger] front[i] < n - 1 by {
            assert(front.contains(front[i]));
        }
        assert forall|i: usize| #[trigger] all.contains(i) <==> i < n && s[i as int].alive
            && s[i as int].egress by {
            assert(front.contains(i) <==> i < n - 1 && s[i as int].alive && s[i as int].egress);
            if all.contains(i) {
                let k = choose|k: int| 0 <= k < all.len() && all[k] == i;
                if k < front.len() {
                    assert(front[k] == i);
                }
            }
            if i < n && s[i as int].alive && s[i as int].egress {
                if i < n - 1 {
                    let k = choose|k: int| 0 <= k < front.len() && front[k] == i;
                    assert(all[k] == i);
                } else {
                    assert(all[front.len() as int] == i);
                }
            }
        }
    }
}

/// A board announces itself, when it is time, over exactly the links that are open and not known to
/// be slow.
pub proof fn lemma_announced_over_quick_links(r: Router, i: usize)
    requires
        r.sides@.len() <= usize::MAX,
    ensures
        r.quick_list().contains(i) <==> i < r.sides@.len() && r.sides@[i as int].alive
            && r.sides@[i as int].egress && !capacity::slow(r.sides@[i as int].capacity),
        r.open_list().contains(i) <==> i < r.sides@.len() && r.sides@[i as int].alive
            && r.sides@[i as int].egress,
{
    lemma_open_links(r.sides@, r.sides@.len());
    let open = r.open_list();
    let pred = egress::is_quick(r.sides@);
    let quick = open.filter(pred);
    if quick.contains(i) {
        open.lemma_filter_contains_rev(pred, i);
        let k = choose|k: int| 0 <= k < quick.len() && quick[k] == i;
        open.lemma_filter_pred(pred, k);
    }
    if open.contains(i) && pred(i) {
        let k = choose|k: int| 0 <= k < open.len() && open[k] == i;
        open.lemma_filter_contains(pred, k);
    }
}

/// What a board announces over a link is listed each once, in ascending order: exactly the endpoints
/// of which it tells there.
pub proof fn lemma_announcement_lists_all(
    r: Router,
    sc: schema::SchemaSpec,
    side: usize,
    now: u64,
    n: nat,
)
    requires
        n <= u32::MAX,
    ensures
        forall|ep: DataEndpoint| #[trigger]
            r.announced(sc, side, now, n).contains(ep) <==> ep < n && r.announces(
                sc,
                side,
                ep,
                now,
            ),
        forall|i: int, j: int|
            0 <= i < j < r.announced(sc, side, now, n).len() ==> r.announced(sc, side, now, n)[i]
                < r.announced(sc, side, now, n)[j],
    decreases n,
{
    if n > 0 {
        let front = r.announced(sc, side, now, (n - 1) as nat);
        let all = r.announced(sc, side, now, n);
        lemma_announcement_lists_all(r, sc, side, now, (n - 1) as nat);
        assert forall|i: int| 0 <= i < front.len() implies #[trigger] front[i] < n - 1 by {
            assert(front.contains(front[i]));
        }
        assert forall|ep: DataEndpoint| #[trigger] all.contains(ep) <==> ep < n && r.announces(
            sc,
            side,
            ep,
            now,
        ) by {
            assert(front.contains(ep) <==> ep < n - 1 && r.announces(sc, side, ep, now));
            if all.contains(ep) {
                let k = choose|k: int| 0 <= k < all.len() && all[k] == ep;
                if k < front.len() {
                    assert(front[k] == ep);
                }
            }
            if ep < n && r.announces(sc, side, ep, now) {
                if ep < n - 1 {
                    let k = choose|k: int| 0 <= k < front.len() && front[k] == ep;
                    assert(all[k] == ep);
                } else {
                    assert(all[front.len() as int] == ep);
                }
            }
        }
    }
}

/// What a board tells of over a link: what is served there, always, and what can be reached over
/// other links; a board that is no relay does not tell back what it knows over that link alone; and
/// what is not to leave the device is told only over links that do not.
pub proof fn lemma_what_is_told_over_a_link(
    r: Router,
    sc: schema::SchemaSpec,
    side: usize,
    ep: DataEndpoint,
    now: u64,
    h: int,
    other: usize,
)
    requires
        ep >= FIRST_USER_ENDPOINT,
        side < r.sides@.len(),
    ensures
        router::is_link_local(sc, ep) && !r.sides@[side as int].link_local ==> !r.announces(
            sc,
            side,
            ep,
            now,
        ),
        !router::is_link_local(sc, ep) && 0 <= h < r.handlers@.len() && r.handlers@[h].endpoint
            == ep ==> r.announces(sc, side, ep, now),
        !router::is_link_local(sc, ep) && other != side && presence::reaches(
            r.presence@,
            Some(other),
            ep,
            now,
        ) ==> r.announces(sc, side, ep, now),
        !r.relay && !jobs::handled(r.handlers@, ep) && (forall|s: usize|
            s != side ==> !presence::reaches(r.presence@, Some(s), ep, now)) ==> !r.announces(
            sc,
            side,
            ep,
            now,
        ),
        !jobs::handled(r.handlers@, ep) && !presence::reaches(r.presence@, None, ep, now)
            ==> !r.announces(sc, side, ep, now),
{
    let s = r.presence@;
    if other != side && presence::reaches(s, Some(other), ep, now) {
        let i = choose|i: int|
            0 <= i < s.len() && (#[trigger] s[i]).is(Some(other), None) && s[i].live(now)
                && s[i].offers(ep);
        assert(s[i].is(None, None));
        assert(s[i].side != side);
        assert(presence::reaches(s, None, ep, now));
        assert(presence::reaches_elsewhere(s, side, ep, now));
    }
    if presence::reaches_elsewhere(s, side, ep, now) {
        let i = choose|i: int|
            0 <= i < s.len() && (#[trigger] s[i]).side != side && s[i].live(now) && s[i].offers(ep);
        assert(s[i].is(Some(s[i].side), None));
        assert(s[i].is(None, None));
        assert(presence::reaches(s, Some(s[i].side), ep, now));
        assert(presence::reaches(s, None, ep, now));
    }
    if 0 <= h < r.handlers@.len() && r.handlers@[h].endpoint == ep {
        assert(jobs::handled(r.handlers@, ep));
    }
}

/// A board names itself among those that tell the time exactly where it does, or where others name
/// it.
pub proof fn lemma_time_sources(r: Router, now: u64, t: Seq<char>)
    ensures
        r.time_sources(now).contains(t) <==> presence::sources(r.presence@, None, now).contains(t)
            || (r.tells_time && t == r.sender@),
{
    let s = presence::sources(r.presence@, None, now);
    let all = s.push(r.sender@);
    if s.contains(t) {
        let i = choose|i: int| 0 <= i < s.len() && s[i] == t;
        assert(all[i] == t);
    }
    assert(all[s.len() as int] == r.sender@);
    if all.contains(t) {
        let i = choose|i: int| 0 <= i < all.len() && all[i] == t;
        if i < s.len() {
            assert(s[i] == t);
        }
    }
}

/// What is announced is heard: who gets the announcement of a board's endpoints over a link knows
/// from then on that this link leads to each of them, until that is long ago; and of what the board
/// said of itself before, its endpoints, it goes by this alone.
pub proof fn lemma_announced_is_heard(
    s: Seq<AnnouncerSpec>,
    p: PacketSpec,
    ids: Seq<DataEndpoint>,
    side: usize,
    now: u64,
    later: u64,
    ep: DataEndpoint,
)
    requires
        p.ty == TY_DISCOVERY_ANNOUNCE,
        p.payload == definition::ids_bytes(ids),
        ids.len() <= u64::MAX,
        now <= later <= now + discovery::DISCOVERY_ROUTE_TTL_MS,
    ensures
        ids.contains(ep) && ep >= FIRST_USER_ENDPOINT ==> presence::reaches(
            ingress::learnt(s, p, side, now),
            Some(side),
            ep,
            later,
        ),
        presence::found(ingress::learnt(s, p, side, now), Some(side), Some(p.address)) matches Some(
            e,
        ) && e.endpoints == ids && e.last_seen == now,
{
    let none = Seq::<u8>::empty();
    definition::lemma_ids_roundtrip(ids, none);
    assert(definition::ids_bytes(ids) + none =~= definition::ids_bytes(ids));
    let k = presence::known(s, side, p.address, p.sender);
    lemma_found_is(s, side, p.address);
    let e = AnnouncerSpec { endpoints: ids, last_seen: now, ..k };
    assert(ingress::learnt(s, p, side, now) == presence::noted(s, e));
    assert(e.side == side && e.address == p.address);
    if ids.contains(ep) && ep >= FIRST_USER_ENDPOINT {
        presence::lemma_noted_leads(s, e, ep, later);
    }
}

proof fn lemma_found_is(s: Seq<AnnouncerSpec>, side: usize, address: u32)
    ensures
        presence::found(s, Some(side), Some(address)) matches Some(e) ==> e.side == side && e.address
            == address,
    decreases s.len(),
{
    if s.len() > 0 {
        lemma_found_is(s.drop_last(), side, address);
    }
}

/// A board's place among others, and the time sources that it tells of, are learnt as it says them;
/// and a board that leaves is known no more, over any link, while others stay.
pub proof fn lemma_said_is_learnt(
    s: Seq<AnnouncerSpec>,
    p: PacketSpec,
    boards: Seq<discovery::BoardSpec>,
    sources: Seq<Seq<char>>,
    side: usize,
    now: u64,
    x: AnnouncerSpec,
)
    requires
        discovery::short_boards(boards),
        discovery::short_texts(sources),
    ensures
        p.ty == TY_DISCOVERY_TOPOLOGY && p.payload == discovery::boards_bytes(boards) ==> (
        presence::found(ingress::learnt(s, p, side, now), Some(side), Some(p.address)) matches Some(
            e,
        ) && e.boards == boards && e.last_seen == now),
        p.ty == TY_DISCOVERY_TIMESYNC_SOURCES && p.payload == discovery::texts_bytes(sources) ==> (
        presence::found(ingress::learnt(s, p, side, now), Some(side), Some(p.address)) matches Some(
            e,
        ) && e.sources == sources && e.last_seen == now),
        p.ty == TY_DISCOVERY_LEAVE ==> (ingress::learnt(s, p, side, now).contains(x)
            <==> s.contains(x) && x.address != p.address),
{
    let none = Seq::<u8>::empty();
    discovery::lemma_boards_roundtrip(boards, none);
    discovery::lemma_texts_roundtrip(sources, none);
    assert(discovery::boards_bytes(boards) + none =~= discovery::boards_bytes(boards));
    assert(discovery::texts_bytes(sources) + none =~= discovery::texts_bytes(sources));
    lemma_found_is(s, side, p.address);
    let pred = |y: AnnouncerSpec| !y.is(None, Some(p.address));
    let kept = s.filter(pred);
    if kept.contains(x) {
        s.lemma_filter_contains_rev(pred, x);
        let i = choose|i: int| 0 <= i < kept.len() && kept[i] == x;
        s.lemma_filter_pred(pred, i);
    }
    if s.contains(x) && x.address != p.address {
        let i = choose|i: int| 0 <= i < s.len() && s[i] == x;
        s.lemma_filter_contains(pred, i);
    }
}

/// A board that hears of one that came or went announces itself at once, and often for a while; what
/// it already knew changes nothing of that; and what it said itself teaches it nothing.
pub proof fn lemma_news_is_passed_on(r: Router, after: Router, p: PacketSpec, side: usize, now: u64)
    requires
        r.learned(after, p, side, now),
    ensures
        p.address == hash::name_address(r.sender@) ==> after == r,
        p.address != hash::name_address(r.sender@) && p.ty != TY_DISCOVERY_LEAVE && presence::found(
            r.presence@,
            Some(side),
            Some(p.address),
        ) is None ==> after.next_announce == 0 && after.interval == DISCOVERY_FAST_INTERVAL_MS,
        p.address != hash::name_address(r.sender@) && p.ty == TY_DISCOVERY_LEAVE && presence::found(
            r.presence@,
            None,
            Some(p.address),
        ) is Some ==> after.next_announce == 0 && after.interval == DISCOVERY_FAST_INTERVAL_MS,
        p.ty != TY_DISCOVERY_LEAVE && presence::found(r.presence@, Some(side), Some(p.address)) is Some
            ==> after.next_announce == r.next_announce && after.interval == r.interval,
        after.agenda == r.agenda,
        after.handlers == r.handlers,
{
}

/// A board announces itself when it is time and not before; then the time to the next announcement
/// doubles, up to the longest there is.
pub proof fn lemma_announcements_slow_down(
    r: Router,
    after: Router,
    reg: Registry,
    reg_after: Registry,
    now: u64,
    x: TelemetryResult<bool>,
)
    requires
        r.polled(after, reg, reg_after, now, x),
        now + r.interval <= u64::MAX,
    ensures
        now < r.next_announce ==> x == Ok::<bool, TelemetryError>(false) && after == r,
        x == Ok::<bool, TelemetryError>(true) ==> {
            &&& now >= r.next_announce
            &&& after.next_announce == now + r.interval
            &&& r.interval <= DISCOVERY_SLOW_INTERVAL_MS / 2 ==> after.interval == 2 * r.interval
            &&& r.interval >= DISCOVERY_SLOW_INTERVAL_MS / 2 ==> after.interval
                == DISCOVERY_SLOW_INTERVAL_MS
            &&& after.agenda@.len() == r.agenda@.len() + 2 * r.quick_list().len()
        },
{
    assert(jobs::jobs(after.agenda@).len() == after.agenda@.len());
    assert(jobs::jobs(r.agenda@).len() == r.agenda@.len());
}

/// A sign of life is due only over links that are open and slow, and not before the time between two
/// of them has passed.
pub proof fn lemma_signs_of_life_are_spaced(r: Router, side: int, now: u64)
    ensures
        r.ping_due(side, now) ==> r.sides@[side].alive && r.sides@[side].egress && 0
            < r.sides@[side].capacity < capacity::SLOW_LINK_BPS,
        r.ping_due(side, now) ==> now - r.sides@[side].pinged
            >= DISCOVERY_SLOW_LINK_PING_INTERVAL_MS,
        r.sides@[side].alive && r.sides@[side].egress && 0 < r.sides@[side].capacity
            < capacity::SLOW_LINK_BPS && now - r.sides@[side].pinged
            >= DISCOVERY_SLOW_LINK_PING_INTERVAL_MS ==> r.ping_due(side, now),
{
}

/// What waits stays within the budget: something is kept waiting exactly where there is room for
/// what it costs, and then the room is smaller by as much; else nothing changes.
pub proof fn lemma_budget_is_kept(
    r: Router,
    after: Router,
    sc: schema::SchemaSpec,
    w: Waiting<Arriving>,
    x: TelemetryResult<()>,
)
    requires
        r.side_fault(w.item.from) is None,
        r.queued(after, sc, w, x),
    ensures
        x is Ok <==> r.shared(sc) + w.cost <= router::MAX_QUEUE_BUDGET,
        x is Ok ==> after.shared(sc) == r.shared(sc) + w.cost && after.rx@.last() == w
            && after.rx@.drop_last() == r.rx@,
        x is Err ==> after == r,
{
    if x is Ok {
        queue::lemma_costs_add_up(r.rx@, w, 0);
        assert(r.rx@.push(w).drop_last() =~= r.rx@);
    }
}

/// The same holds of packets that are to leave; and a packet that waits costs more than its payload
/// alone, and as much more as the payload is longer.
pub proof fn lemma_leaving_stays_within_budget(
    r: Router,
    after: Router,
    sc: schema::SchemaSpec,
    p: packet::Packet,
    to: Option<usize>,
    x: TelemetryResult<()>,
    q: PacketSpec,
)
    requires
        r.queued_out(after, sc, p, to, x),
        p@.payload.len() <= packet::MAX_PAYLOAD,
    ensures
        x is Ok ==> after.shared(sc) <= router::MAX_QUEUE_BUDGET,
        x is Ok ==> after.shared(sc) > r.shared(sc) + p@.payload.len(),
        x is Ok ==> after.tx@.last().rank == sc.scheduler_rank(p@.ty) && after.tx@.last().item.packet
            == p && after.tx@.last().item.to == to && after.tx@.drop_last() == r.tx@,
        x is Err ==> after == r,
        egress::packet_cost(p@) > p@.payload.len(),
        egress::packet_cost(q) - egress::packet_cost(p@) == q.payload.len() - p@.payload.len(),
{
    if x is Ok {
        let w = after.tx@.last();
        queue::lemma_costs_add_up(r.tx@, w, 0);
        assert(after.tx@.drop_last() =~= r.tx@);
        assert(r.tx@.push(w) =~= after.tx@);
    }
}

/// What leaves next outranks all that stays, and came before what has its rank; so of two packets
/// that wait the one of higher rank leaves first, whichever came first.
pub proof fn lemma_higher_rank_leaves_first(r: Router, after: Router, w: Waiting<Leaving>, j: int)
    requires
        r.tx_popped(after, w),
        0 <= j < r.tx@.len(),
    ensures
        r.tx@[j].rank <= w.rank,
        exists|i: int|
            0 <= i < r.tx@.len() && #[trigger] r.tx@[i] == w && after.tx@ == r.tx@.remove(i) && (j < i
                ==> r.tx@[j].rank < w.rank),
        after.tx@.len() == r.tx@.len() - 1,
{
    let i = choose|i: int| #[trigger]
        queue::comes_next(r.tx@, i) && w == r.tx@[i] && after.tx@ == r.tx@.remove(i);
    if j < i {
        assert(r.tx@[j].rank < r.tx@[i].rank);
    } else if i < j {
        assert(r.tx@[j].rank <= r.tx@[i].rank);
    }
    assert(r.tx@[i] == w);
}

/// And so does what came: of what waits to be taken, the highest rank is taken first, in the order
/// in which it came.
pub proof fn lemma_higher_rank_is_taken_first(r: Router, after: Router, w: Waiting<Arriving>, j: int)
    requires
        r.rx_popped(after, w),
        0 <= j < r.rx@.len(),
    ensures
        r.rx@[j].rank <= w.rank,
        exists|i: int|
            0 <= i < r.rx@.len() && #[trigger] r.rx@[i] == w && after.rx@ == r.rx@.remove(i) && (j < i
                ==> r.rx@[j].rank < w.rank),
        after.rx@.len() == r.rx@.len() - 1,
{
    let i = choose|i: int| #[trigger]
        queue::comes_next(r.rx@, i) && w == r.rx@[i] && after.rx@ == r.rx@.remove(i);
    if j < i {
        assert(r.rx@[j].rank < r.rx@[i].rank);
    } else if i < j {
        assert(r.rx@[j].rank <= r.rx@[i].rank);
    }
    assert(r.rx@[i] == w);
}

/// A job that fails is tried three times in all, at once and before all others; then its failure is
/// told, and it is given up. A link of a relay is tried once, and its failure told as it is. A job
/// that is done leaves nothing behind.
pub proof fn lemma_failing_job_is_tried_three_times(
    r: Router,
    after: Router,
    reg: Registry,
    reg_after: Registry,
    j: JobSpec,
    result: TelemetryResult<()>,
    now: u64,
)
    requires
        r.finished(after, reg, reg_after, j, result, now),
        j.tries < 3,
    ensures
        result is Ok ==> after == r && reg_after == reg,
        result is Err && !(r.relay && j.target is Side) && j.tries < 2 ==> {
            &&& after.agenda@.len() == r.agenda@.len() + 1
            &&& after.agenda@[0]@ == (JobSpec { tries: (j.tries + 1) as u8, ..j })
            &&& forall|k: int| 0 <= k < r.agenda@.len() ==> after.agenda@[k + 1]@ == #[trigger] r.agenda@[k]@
            &&& after.failure == r.failure
        },
        result is Err && !(r.relay && j.target is Side) && j.tries == 2 ==> after.failure is Some,
        result matches Err(e) ==> (r.relay && j.target is Side ==> after.failure == Some(e)
            && after.agenda == r.agenda),
{
    let old_jobs = jobs::jobs(r.agenda@);
    let new_jobs = jobs::jobs(after.agenda@);
    assert(old_jobs.len() == r.agenda@.len());
    assert(new_jobs.len() == after.agenda@.len());
    if result is Err && !(r.relay && j.target is Side) && j.tries < 2 {
        let first = JobSpec { tries: (j.tries + 1) as u8, ..j };
        assert(new_jobs == seq![first] + old_jobs);
        assert(new_jobs[0] == after.agenda@[0]@);
        assert forall|k: int| 0 <= k < r.agenda@.len() implies after.agenda@[k + 1]@ == #[trigger] r.agenda@[k]@ by {
            assert(new_jobs[k + 1] == old_jobs[k]);
            assert(new_jobs[k + 1] == after.agenda@[k + 1]@);
        }
    }
}

/// The failure of a job is told to the other endpoints of its packet that are served here, and, where
/// a handler failed that was the only one, to those who take errors; a failed report is not reported.
pub proof fn lemma_who_is_told_of_failures(r: Router, j: JobSpec, p: PacketSpec, e: DataEndpoint)
    requires
        j.packet == Some(p),
    ensures
        j.quiet ==> r.report_endpoints(j).len() == 0,
        !j.quiet && j.target is Side ==> (r.report_endpoints(j).contains(e) <==> p.endpoints.contains(
            e,
        ) && jobs::handled(r.handlers@, e)),
        !j.quiet && (j.target matches Target::Handler(h) && e != EP_TELEMETRY_ERROR && h
            < r.handlers@.len()) ==> (r.report_endpoints(j).contains(e) <==> p.endpoints.contains(e)
            && jobs::handled(r.handlers@, e) && (j.target matches Target::Handler(h) && e
            != r.handlers@[h as int].endpoint)),
        !j.quiet && j.target is Handler ==> r.report_endpoints(j).len() > 0,
{
    jobs::lemma_endpoints_fall_in_two(r.handlers@, p.endpoints, e);
    let here = jobs::locals(r.handlers@, p.endpoints);
    assert(here.contains(e) <==> p.endpoints.contains(e) && jobs::handled(r.handlers@, e)) by {
        if jobs::handled(r.handlers@, e) {
            let i = choose|i: int|
                0 <= i < r.handlers@.len() && (#[trigger] r.handlers@[i]).endpoint == e;
            assert(r.handlers@[i].endpoint == e);
        }
    }
    match j.target {
        Target::Handler(h) => {
            let pred = |x: DataEndpoint| x != r.handlers@[h as int].endpoint;
            let rest = here.filter(pred);
            if rest.contains(e) {
                here.lemma_filter_contains_rev(pred, e);
                let i = choose|i: int| 0 <= i < rest.len() && rest[i] == e;
                here.lemma_filter_pred(pred, i);
            }
            if here.contains(e) && pred(e) {
                let i = choose|i: int| 0 <= i < here.len() && here[i] == e;
                here.lemma_filter_contains(pred, i);
            }
            let one = seq![EP_TELEMETRY_ERROR];
            if one.contains(e) {
                let i = choose|i: int| 0 <= i < one.len() && one[i] == e;
                assert(one[i] == EP_TELEMETRY_ERROR);
            }
        },
        Target::Side(_) => {},
    }
}

/// A packet that goes over a link that numbers its frames gets the next number of its type there, and
/// waits under it for its acknowledgement; the one after it gets the number after.
pub proof fn lemma_frames_are_numbered(
    r: Router,
    after: Router,
    sc: schema::SchemaSpec,
    taken: JobSpec,
    now: u64,
    p: PacketSpec,
    side: usize,
)
    requires
        r.job_taken(after, sc, taken, now),
        r.agenda@[0]@.packet == Some(p),
        r.agenda@[0]@.frame is None,
        r.agenda@[0]@.target == Target::Side(side),
        side < r.sides@.len(),
        r.sides@[side as int].packed,
        r.sides@[side as int].reliable,
        router::is_sure(sc, p),
        wire_format::can_travel(sc, p),
    ensures
        ({
            let key = router::flow_key(side, p.ty);
            let n = router::flow(r.sent@, key).next;
            &&& taken.frame matches Some(f) && (wire_format::peek(sc, f) matches Ok((x, _)) && (
            x.reliable matches Some(h) && h.seq == n && h.flags % 2 == 0))
            &&& after.sent@.contains_key(key)
            &&& after.sent@[key].sent.last().seq == n
            &&& Some(after.sent@[key].sent.last().frame) == taken.frame
            &&& after.sent@[key].sent.last().at == now
            &&& n < u32::MAX ==> after.sent@[key].next == n + 1
            &&& !r.sent@.contains_key(key) ==> n == 1
        }),
{
    let key = router::flow_key(side, p.ty);
    let t = router::flow(r.sent@, key);
    let h = router::flow_header(sc, p.ty, t.next);
    wire_format::lemma_frame_shows_type(sc, p, Some(h));
    let f = wire_format::frame(sc, p, Some(h));
    assert(taken.frame == Some(f));
    let all = t.sent.push(SentSpec { seq: t.next, frame: f, at: now });
    if all.len() > reliable::RELIABLE_MAX_PENDING {
        assert(all.skip(1).last() == all.last());
    }
}

proof fn lemma_nothing_due_twice(t: TxSpec, now: u64)
    ensures
        t.resent(now).resent(now) == t.resent(now),
        t.resent(now).due(now) == Seq::<Seq<u8>>::empty(),
{
    let once = t.resent(now);
    assert(once.resent(now).sent =~= once.sent);
    let due = |e: SentSpec| reliable::is_due(e.at, now);
    assert forall|i: int| 0 <= i < once.sent.len() implies !due(#[trigger] once.sent[i]) by {}
    lemma_filter_none(once.sent, due);
    assert(once.due(now) =~= Seq::<Seq<u8>>::empty());
}

proof fn lemma_filter_none(s: Seq<SentSpec>, keep: spec_fn(SentSpec) -> bool)
    requires
        forall|i: int| 0 <= i < s.len() ==> !keep(#[trigger] s[i]),
    ensures
        s.filter(keep).len() == 0,
    decreases s.len(),
{
    reveal(Seq::filter);
    if s.len() > 0 {
        let rest = s.drop_last();
        assert forall|i: int| 0 <= i < rest.len() implies !keep(#[trigger] rest[i]) by {
            assert(rest[i] == s[i]);
        }
        lemma_filter_none(rest, keep);
        assert(!keep(s[s.len() - 1]));
    }
}

proof fn lemma_contains_last(s: Seq<u128>, k: u128)
    requires
        s.len() > 0,
    ensures
        s.contains(k) <==> s.drop_last().contains(k) || s.last() == k,
{
    let rest = s.drop_last();
    if s.contains(k) {
        let i = choose|i: int| 0 <= i < s.len() && s[i] == k;
        if i < rest.len() {
            assert(rest[i] == k);
        }
    }
    if rest.contains(k) {
        let i = choose|i: int| 0 <= i < rest.len() && rest[i] == k;
        assert(s[i] == k);
    }
    assert(s[s.len() - 1] == s.last());
}

/// Whether a job sends a frame again that waited too long, over the link that it went over.
pub open spec fn sends_due_frame(
    sent: Map<u128, TxSpec>,
    flows: Seq<u128>,
    now: u64,
    j: JobSpec,
) -> bool {
    exists|x: u128, f: Seq<u8>|
        #![trigger sent[x].due(now).contains(f)]
        sent.contains_key(x) && flows.contains(x) && sent[x].due(now).contains(f) && j
            == ingress::raw_job(router::flow_side(x), f)
}

/// What is due on any link goes out again: each frame that waited too long, as it was, over the link
/// that it went over; and it counts as sent now.
pub proof fn lemma_due_frames_go_out_again(
    sent: Map<u128, TxSpec>,
    flows: Seq<u128>,
    now: u64,
    k: u128,
)
    ensures
        forall|x: u128| #[trigger]
            egress::resent(sent, flows, now).contains_key(x) <==> sent.contains_key(x),
        sent.contains_key(k) ==> egress::resent(sent, flows, now)[k] == (if flows.contains(k) {
            sent[k].resent(now)
        } else {
            sent[k]
        }),
        forall|f: Seq<u8>|
            sent.contains_key(k) && flows.contains(k) && sent[k].due(now).contains(f)
                ==> #[trigger] egress::due_jobs(sent, flows, now).contains(
                ingress::raw_job(router::flow_side(k), f),
            ),
        forall|i: int|
            0 <= i < egress::due_jobs(sent, flows, now).len() ==> sends_due_frame(
                sent,
                flows,
                now,
                #[trigger] egress::due_jobs(sent, flows, now)[i],
            ),
    decreases flows.len(),
{
    if flows.len() > 0 {
        let rest = flows.drop_last();
        let last = flows.last();
        let m = egress::resent(sent, rest, now);
        let front = egress::due_jobs(sent, rest, now);
        let all = egress::due_jobs(sent, flows, now);
        lemma_due_frames_go_out_again(sent, rest, now, k);
        lemma_due_frames_go_out_again(sent, rest, now, last);
        lemma_contains_last(flows, k);
        assert(m.contains_key(last) <==> sent.contains_key(last));
        if sent.contains_key(last) {
            lemma_nothing_due_twice(sent[last], now);
        }
        let more = if m.contains_key(last) {
            egress::raw_jobs(router::flow_side(last), m[last].due(now))
        } else {
            Seq::empty()
        };
        assert(all =~= front + more);
        assert forall|f: Seq<u8>|
            sent.contains_key(k) && flows.contains(k) && sent[k].due(now).contains(
                f,
            ) implies #[trigger] all.contains(ingress::raw_job(router::flow_side(k), f)) by {
            let j = ingress::raw_job(router::flow_side(k), f);
            if rest.contains(k) {
                assert(front.contains(j));
                let i = choose|i: int| 0 <= i < front.len() && front[i] == j;
                assert(all[i] == j);
            } else {
                assert(k == last);
                assert(m[last] == sent[last]);
                let d = sent[k].due(now);
                let i = choose|i: int| 0 <= i < d.len() && d[i] == f;
                assert(more[i] == j);
                assert(all[front.len() + i] == j);
            }
        }
        assert forall|i: int| 0 <= i < all.len() implies sends_due_frame(
            sent,
            flows,
            now,
            #[trigger] all[i],
        ) by {
            if i < front.len() {
                assert(all[i] == front[i]);
                assert(sends_due_frame(sent, rest, now, front[i]));
                let (x, f) = choose|x: u128, f: Seq<u8>|
                    #![trigger sent[x].due(now).contains(f)]
                    sent.contains_key(x) && rest.contains(x) && sent[x].due(now).contains(f)
                        && front[i] == ingress::raw_job(router::flow_side(x), f);
                lemma_contains_last(flows, x);
                assert(sent[x].due(now).contains(f));
            } else {
                let n = i - front.len();
                let d = m[last].due(now);
                assert(all[i] == more[n]);
                assert(d.len() > 0);
                assert(!rest.contains(last));
                assert(m[last] == sent[last]);
                lemma_contains_last(flows, last);
                assert(d[n] == d[n]);
                assert(sent[last].due(now).contains(d[n]));
            }
        }
    }
}

/// Whether a packet is meant for a link of a board.
pub open spec fn is_meant(
    r: Router,
    sc: schema::SchemaSpec,
    p: PacketSpec,
    from: Option<usize>,
    now: u64,
    side: usize,
) -> bool {
    &&& side < r.sides@.len()
    &&& r.policy@.meant(
        jobs::facts(r.sides@),
        r.overlaps(p, now),
        r.query(sc, p, from, now),
        side as int,
    )
}

proof fn lemma_one_or_all(
    r: Router,
    sc: schema::SchemaSpec,
    p: PacketSpec,
    from: Option<usize>,
    now: u64,
    side: usize,
)
    requires
        r.wf(),
        r.remote(p).len() > 0,
        is_meant(r, sc, p, from, now, side),
    ensures
        ({
            let q = r.query(sc, p, from, now);
            let n = r.sides@.len() as int;
            if r.policy@.mode(q, n) == RouteSelectionMode::Fanout {
                r.chosen(sc, p, from, now).contains(side)
            } else {
                r.chosen(sc, p, from, now).len() == 1
            }
        }),
{
    let facts = jobs::facts(r.sides@);
    let overlaps = r.overlaps(p, now);
    let q = r.query(sc, p, from, now);
    assert(facts.len() == r.sides@.len());
    if r.policy@.mode(q, facts.len() as int) == RouteSelectionMode::Fanout {
        fairness::lemma_fanout_takes_all(r.policy@, facts, overlaps, q);
    } else {
        routes::lemma_meant_is_chosen(r.policy@, facts, overlaps, q, side as int);
    }
}

/// Unless something else was said, a packet that came over a link goes on over every link that it
/// is meant for, and a packet of this board over one of them.
pub proof fn lemma_unsaid_ways(
    r: Router,
    sc: schema::SchemaSpec,
    p: PacketSpec,
    from: Option<usize>,
    now: u64,
    side: usize,
)
    requires
        r.wf(),
        !r.policy@.modes.contains_key(routes::source_code(from)),
        r.remote(p).len() > 0,
        is_meant(r, sc, p, from, now, side),
    ensures
        from is Some ==> r.chosen(sc, p, from, now).contains(side),
        from is None ==> r.chosen(sc, p, from, now).len() == 1,
{
    lemma_one_or_all(r, sc, p, from, now, side);
}

/// What was said for a source holds for its packets: all links that they are meant for, where all
/// was said, else one. Only what is to be delivered reliably goes over one link even where all was
/// said, if it is of this board and no rule names its links.
pub proof fn lemma_said_ways(
    r: Router,
    sc: schema::SchemaSpec,
    p: PacketSpec,
    from: Option<usize>,
    now: u64,
    side: usize,
)
    requires
        r.wf(),
        r.policy@.modes.contains_key(routes::source_code(from)),
        r.remote(p).len() > 0,
        is_meant(r, sc, p, from, now, side),
    ensures
        ({
            let all = r.policy@.modes[routes::source_code(from)] == RouteSelectionMode::Fanout;
            let sure = sc.message(p.ty) matches Some(t) && t.reliable != ReliableMode::BestEffort;
            let named = r.policy@.named(r.query(sc, p, from, now), r.sides@.len() as int);
            &&& all && (from is Some || !sure || named) ==> r.chosen(sc, p, from, now).contains(side)
            &&& !all || (from is None && sure && !named) ==> r.chosen(sc, p, from, now).len() == 1
        }),
{
    lemma_one_or_all(r, sc, p, from, now, side);
}

/// The jobs of a relay rest once a link failed, until somebody was told; other boards go on.
pub proof fn lemma_only_a_relay_rests(r: Router)
    ensures
        !r.relay ==> !r.rests(),
        r.failure is None ==> !r.rests(),
        r.relay && r.failure is Some ==> r.rests(),
{
}

/// Of the frames that are numbered those of a type that may come in any order say so, and no
/// others.
pub proof fn lemma_unordered_frames_are_marked(
    r: Router,
    after: Router,
    sc: schema::SchemaSpec,
    taken: JobSpec,
    now: u64,
    p: PacketSpec,
    side: usize,
)
    requires
        r.job_taken(after, sc, taken, now),
        r.agenda@[0]@.packet == Some(p),
        r.agenda@[0]@.frame is None,
        r.agenda@[0]@.target == Target::Side(side),
        side < r.sides@.len(),
        r.sides@[side as int].packed,
        wire_format::can_travel(sc, p),
    ensures
        taken.frame matches Some(f) && (wire_format::peek(sc, f) matches Ok((x, _)) && ({
            let numbered = r.sides@[side as int].reliable && router::is_sure(sc, p);
            let unordered = sc.message(p.ty) matches Some(t) && t.reliable
                == ReliableMode::Unordered;
            &&& x.reliable is Some <==> numbered
            &&& numbered ==> x.reliable->0.flags == (if unordered {
                2u8
            } else {
                0u8
            })
        })),
{
    let key = router::flow_key(side, p.ty);
    let t = router::flow(r.sent@, key);
    let h = router::flow_header(sc, p.ty, t.next);
    wire_format::lemma_frame_shows_type(sc, p, Some(h));
    wire_format::lemma_frame_shows_type(sc, p, None);
}

/// What gets a number on one end is what the other end expects to have one; what a board tells of
/// the network on its own account has none.
pub proof fn lemma_what_is_numbered(sc: schema::SchemaSpec, p: PacketSpec)
    ensures
        router::is_sure(sc, p) ==> router::may_number(sc, p.ty),
        (p.ty == TY_DISCOVERY_TOPOLOGY || p.ty == TY_DISCOVERY_SCHEMA) && sc.message(p.ty) == Some(
            schema::builtin_type(p.ty),
        ) ==> (router::is_sure(sc, p) <==> p.targets.len() > 0),
        (sc.message(p.ty) matches Some(t) && t.reliable != ReliableMode::BestEffort)
            ==> router::is_sure(sc, p),
{
}

/// A packet that is kept for a link that is closed meanwhile is dropped; for one that is open it
/// becomes a job of this link.
pub proof fn lemma_closed_link_gets_nothing(r: Router, after: Router, p: PacketSpec, side: usize)
    requires
        r.sent_to(after, p, side),
    ensures
        side < r.sides@.len() && r.sides@[side as int].alive && r.sides@[side as int].egress ==> {
            &&& jobs::jobs(after.agenda@).len() == jobs::jobs(r.agenda@).len() + 1
            &&& jobs::jobs(after.agenda@).last().target == Target::Side(side)
            &&& jobs::jobs(after.agenda@).last().packet == Some(p)
        },
        !(side < r.sides@.len() && r.sides@[side as int].alive && r.sides@[side as int].egress)
            ==> after == r,
{
}

/// A packet that waits counts for its payload and for as much besides as any other.
pub proof fn lemma_packets_cost_their_payload(p: PacketSpec, q: PacketSpec)
    ensures
        egress::packet_cost(p) - egress::packet_cost(q) == p.payload.len() - q.payload.len(),
        egress::packet_cost(p) > p.payload.len(),
{
}

} // verus!
