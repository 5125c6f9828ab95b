//! What holds of frames that are delivered reliably over a link, from one end to the other.
use vstd::prelude::*;
use crate::codec;
use crate::error::TelemetryResult;
use crate::ingress;
use crate::jobs;
use crate::jobs::{JobSpec, Target};
use crate::meta::{DataType, TY_RELIABLE_ACK, TY_RELIABLE_PACKET_REQUEST};
use crate::packet::PacketSpec;
use crate::registry::Registry;
use crate::reliable;
use crate::reliable::{Arrival, RxSpec, SentSpec, TxSpec};
use crate::router;
use crate::router::Router;
use crate::wire_format;

verus! {

/// Whether a job tells the other end of a link something about the frame `n` of a type.
pub open spec fn tells(j: JobSpec, side: usize, what: DataType, ty: DataType, n: u32) -> bool {
    &&& j.target == Target::Side(side)
    &&& j.frame is None
    &&& j.packet matches Some(q) && q.ty == what && ingress::control_words(q.payload) == Some(
        (ty, n),
    )
}

/// Whether a router got a job that tells the other end something about a frame.
pub open spec fn told(
    first: Router,
    after: Router,
    side: usize,
    what: DataType,
    ty: DataType,
    n: u32,
) -> bool {
    exists|k: int|
        first.agenda@.len() <= k < after.agenda@.len() && #[trigger] tells(
            after.agenda@[k]@,
            side,
            what,
            ty,
            n,
        )
}

proof fn lemma_words_read_back(ty: u32, n: u32)
    ensures
        ingress::control_words(codec::le4(ty) + codec::le4(n)) == Some((ty, n)),
{
    codec::lemma_le_roundtrip(0, ty, 0, codec::le4(n));
    codec::lemma_le_roundtrip(0, n, 0, Seq::empty());
    assert(codec::le4(n) + Seq::<u8>::empty() =~= codec::le4(n));
}

proof fn lemma_answers_are_told(
    mid: Router,
    after: Router,
    reg: Registry,
    reg_after: Registry,
    list: Seq<(DataType, u32)>,
    side: usize,
    ty: DataType,
    now: u64,
    i: int,
)
    requires
        mid.answered(after, reg, reg_after, list, side, ty, now),
        0 <= i < list.len(),
        ingress::is_control(list[i].0),
    ensures
        told(mid, after, side, list[i].0, ty, list[i].1),
{
    let more = ingress::reply_jobs(list, side, ty, mid.sender@, now, reg.nonce);
    let old_jobs = jobs::jobs(mid.agenda@);
    let all = jobs::jobs(after.agenda@);
    assert(all == old_jobs + more);
    let k = old_jobs.len() + i;
    assert(all[k] == more[i]);
    assert(all.len() == after.agenda@.len());
    assert(old_jobs.len() == mid.agenda@.len());
    assert(all[k] == after.agenda@[k]@);
    lemma_words_read_back(ty, list[i].1);
    assert(tells(after.agenda@[k]@, side, list[i].0, ty, list[i].1));
}

/// Whether a frame comes over a link that numbers its frames, in a line, and is the frame `seq` of
/// its type.
pub open spec fn comes_in_line(
    first: Router,
    reg: Registry,
    frame: Seq<u8>,
    side: usize,
    ty: DataType,
    seq: u32,
) -> bool {
    &&& first.side_fault(Some(side)) is None
    &&& wire_format::peek(reg.schema@, frame) matches Ok((h, _)) && h.scalars.ty == ty && (
    h.reliable matches Some(x) && x.flags == 0 && x.seq == seq)
    &&& first.numbers(reg.schema@, side, ty)
}

/// Whatever has arrived is acknowledged: once a numbered frame was taken, now or before, so that
/// the receiver waits for a later one, the sender is told of a number that covers it, each time
/// that the frame comes.
pub proof fn lemma_arrived_is_acknowledged(
    first: Router,
    after: Router,
    reg: Registry,
    reg_after: Registry,
    frame: Seq<u8>,
    side: usize,
    ty: DataType,
    seq: u32,
    now: u64,
    r: TelemetryResult<Vec<Vec<u8>>>,
)
    requires
        comes_in_line(first, reg, frame, side, ty, seq),
        first.sorted_in(after, reg, reg_after, frame, Some(side), now, r),
        seq < ingress::inflow(after.held@, router::flow_key(side, ty)).expected,
    ensures
        exists|n: u32| seq <= n && #[trigger] told(first, after, side, TY_RELIABLE_ACK, ty, n),
{
    let key = router::flow_key(side, ty);
    let link = ingress::inflow(first.held@, key);
    let list = ingress::replies(link.arrival(seq), seq, link.arrived(seq, frame).expected);
    let mid = choose|mid: Router|
        {
            &&& #[trigger] first.kept(mid, key, link.arrived(seq, frame))
            &&& mid.answered(after, reg, reg_after, list, side, ty, now)
        };
    assert(after.held@ == mid.held@);
    let next = link.arrived(seq, frame).expected;
    assert(ingress::inflow(after.held@, key) == link.arrived(seq, frame));
    if link.arrival(seq) == Arrival::InTurn {
        reliable::lemma_handed_without_gap(link, seq, frame);
    }
    assert(list[0].0 == TY_RELIABLE_ACK);
    assert(list[0].1 == next - 1);
    lemma_answers_are_told(mid, after, reg, reg_after, list, side, ty, now, 0);
    assert(told(first, after, side, TY_RELIABLE_ACK, ty, (next - 1) as u32));
}

/// What is missing is asked for: where a numbered frame comes before its turn, the sender is asked
/// for the frame whose turn it is, and nothing is handed on.
pub proof fn lemma_missing_is_asked_for(
    first: Router,
    after: Router,
    reg: Registry,
    reg_after: Registry,
    frame: Seq<u8>,
    side: usize,
    ty: DataType,
    seq: u32,
    now: u64,
    r: TelemetryResult<Vec<Vec<u8>>>,
)
    requires
        comes_in_line(first, reg, frame, side, ty, seq),
        first.sorted_in(after, reg, reg_after, frame, Some(side), now, r),
        ({
            let link = ingress::inflow(first.held@, router::flow_key(side, ty));
            &&& link.expected < seq
            &&& !link.held.contains_key(seq as u128)
        }),
    ensures
        told(
            first,
            after,
            side,
            TY_RELIABLE_PACKET_REQUEST,
            ty,
            ingress::inflow(first.held@, router::flow_key(side, ty)).expected,
        ),
        ingress::inflow(after.held@, router::flow_key(side, ty)).expected == ingress::inflow(
            first.held@,
            router::flow_key(side, ty),
        ).expected,
        r matches Ok(v) && v@.len() == 0,
{
    let key = router::flow_key(side, ty);
    let link = ingress::inflow(first.held@, key);
    let list = ingress::replies(link.arrival(seq), seq, link.arrived(seq, frame).expected);
    let mid = choose|mid: Router|
        {
            &&& #[trigger] first.kept(mid, key, link.arrived(seq, frame))
            &&& mid.answered(after, reg, reg_after, list, side, ty, now)
        };
    let i = list.len() - 1;
    lemma_answers_are_told(mid, after, reg, reg_after, list, side, ty, now, i);
    match r {
        Ok(v) => {
            assert(v@.map_values(|f: Vec<u8>| f@).len() == v@.len());
        },
        Err(_) => {},
    }
}

/// What the sender keeps of a link once everything up to a number was acknowledged: exactly the
/// later frames, as they were, in their order.
pub proof fn lemma_only_later_frames_wait(t: TxSpec, ack: u32, e: SentSpec)
    ensures
        t.acknowledged(ack).sent.contains(e) <==> t.sent.contains(e) && ack < e.seq,
        t.acknowledged(ack).next == t.next,
        t.acknowledged(ack).acknowledged(ack) == t.acknowledged(ack),
{
    let keep = |x: SentSpec| x.seq > ack;
    let kept = t.sent.filter(keep);
    assert(t.acknowledged(ack).sent == kept);
    if kept.contains(e) {
        t.sent.lemma_filter_contains_rev(keep, e);
        let i = choose|i: int| 0 <= i < kept.len() && kept[i] == e;
        t.sent.lemma_filter_pred(keep, i);
    }
    if t.sent.contains(e) && ack < e.seq {
        let i = choose|i: int| 0 <= i < t.sent.len() && t.sent[i] == e;
        t.sent.lemma_filter_contains(keep, i);
    }
    assert forall|i: int| 0 <= i < kept.len() implies keep(#[trigger] kept[i]) by {
        t.sent.lemma_filter_pred(keep, i);
    }
    lemma_filter_all(kept, keep);
}

proof fn lemma_filter_all(s: Seq<SentSpec>, keep: spec_fn(SentSpec) -> bool)
    requires
        forall|i: int| 0 <= i < s.len() ==> keep(#[trigger] s[i]),
    ensures
        s.filter(keep) == s,
    decreases s.len(),
{
    reveal(Seq::filter);
    if s.len() > 0 {
        let rest = s.drop_last();
        assert forall|i: int| 0 <= i < rest.len() implies keep(#[trigger] rest[i]) by {
            assert(rest[i] == s[i]);
        }
        lemma_filter_all(rest, keep);
        assert(keep(s[s.len() - 1]));
        assert(rest.push(s.last()) =~= s);
    } else {
        assert(s.filter(keep) =~= s);
    }
}

/// A sender that gets the message that a number has arrived keeps no frame up to it, and every
/// later one: nothing that arrived is sent again, and nothing that did not is given up.
pub proof fn lemma_acknowledged_rests(
    b: Router,
    after: Router,
    q: PacketSpec,
    side: usize,
    ty: DataType,
    n: u32,
    e: SentSpec,
)
    requires
        q.ty == TY_RELIABLE_ACK,
        ingress::control_words(q.payload) == Some((ty, n)),
        b.controlled(after, q, side),
        b.sent@.contains_key(router::flow_key(side, ty)),
    ensures
        after.sent@.contains_key(router::flow_key(side, ty)),
        after.sent@[router::flow_key(side, ty)].sent.contains(e)
            <==> b.sent@[router::flow_key(side, ty)].sent.contains(e) && n < e.seq,
        forall|k: u128|
            k != router::flow_key(side, ty) ==> (#[trigger] after.sent@.contains_key(k)
                == b.sent@.contains_key(k)) && (b.sent@.contains_key(k) ==> after.sent@[k]
                == b.sent@[k]),
        after.agenda == b.agenda,
{
    lemma_only_later_frames_wait(b.sent@[router::flow_key(side, ty)], n, e);
}

/// A sender that is asked for a frame sends it again over the link, as it was, and as the last of
/// its jobs, and goes on waiting for it.
pub proof fn lemma_asked_for_is_sent_again(
    b: Router,
    after: Router,
    q: PacketSpec,
    side: usize,
    ty: DataType,
    e: SentSpec,
    i: int,
)
    requires
        q.ty == TY_RELIABLE_PACKET_REQUEST,
        ingress::control_words(q.payload) == Some((ty, e.seq)),
        b.controlled(after, q, side),
        b.sent@.contains_key(router::flow_key(side, ty)),
        ({
            let sent = b.sent@[router::flow_key(side, ty)].sent;
            &&& 0 <= i < sent.len() && sent[i] == e
            &&& forall|k: int| i < k < sent.len() ==> (#[trigger] sent[k]).seq != e.seq
        }),
    ensures
        after.agenda@.len() == b.agenda@.len() + 1,
        after.agenda@.last()@.target == Target::Side(side),
        after.agenda@.last()@.frame == Some(e.frame),
        after.sent == b.sent,
{
    let sent = b.sent@[router::flow_key(side, ty)].sent;
    lemma_found_frame(sent, e.seq, i);
    let all = jobs::jobs(after.agenda@);
    assert(all.len() == after.agenda@.len());
    assert(jobs::jobs(b.agenda@).len() == b.agenda@.len());
    assert(all[all.len() - 1] == after.agenda@[after.agenda@.len() - 1]@);
}

proof fn lemma_found_frame(sent: Seq<SentSpec>, seq: u32, i: int)
    requires
        0 <= i < sent.len(),
        sent[i].seq == seq,
        forall|k: int| i < k < sent.len() ==> (#[trigger] sent[k]).seq != seq,
    ensures
        reliable::frame_of(sent, seq) == Some(sent[i].frame),
    decreases sent.len(),
{
    let last = sent.len() - 1;
    if i < last {
        assert(sent[last].seq != seq);
        let rest = sent.drop_last();
        assert forall|k: int| i < k < rest.len() implies (#[trigger] rest[k]).seq != seq by {
            assert(rest[k] == sent[k]);
        }
        lemma_found_frame(rest, seq, i);
    }
}

/// A frame that goes out waits under the number that it went out with, and with it all that waited
/// before, as long as there is room; the next frame has the next number. Numbers start at one and
/// are never zero.
pub proof fn lemma_sent_frame_waits(t: TxSpec, frame: Seq<u8>, now: u64)
    requires
        t.next > 0,
    ensures
        reliable::frame_of(t.recorded(frame, now).sent, t.next) == Some(frame),
        t.sent.len() < reliable::RELIABLE_MAX_PENDING ==> t.recorded(frame, now).sent.drop_last()
            == t.sent,
        t.sent.len() == reliable::RELIABLE_MAX_PENDING ==> t.recorded(frame, now).sent.drop_last()
            == t.sent.skip(1),
        t.recorded(frame, now).sent.last() == (SentSpec { seq: t.next, frame, at: now }),
        t.recorded(frame, now).next > 0,
        t.next < u32::MAX ==> t.recorded(frame, now).next == t.next + 1,
        t.recorded(frame, now).next != t.next,
{
    let all = t.sent.push(SentSpec { seq: t.next, frame, at: now });
    let sent = t.recorded(frame, now).sent;
    assert(all.drop_last() =~= t.sent);
    if all.len() > reliable::RELIABLE_MAX_PENDING {
        assert(all.skip(1).drop_last() =~= t.sent.skip(1));
        assert(all.skip(1).last() == all.last());
    }
}

/// What was sent and not acknowledged for as long as it takes is due: exactly those frames, in the
/// order in which they went out first; and once they went out again, none of them is due before as
/// much time has passed again.
pub proof fn lemma_due_is_what_waited_long(t: TxSpec, now: u64, later: u64, f: Seq<u8>)
    requires
        forall|i: int| 0 <= i < t.sent.len() ==> (#[trigger] t.sent[i]).at <= now,
        now <= later < now + reliable::RELIABLE_RETRANSMIT_MS,
    ensures
        t.due(now).contains(f) <==> exists|i: int|
            0 <= i < t.sent.len() && (#[trigger] t.sent[i]).frame == f && t.sent[i].at
                + reliable::RELIABLE_RETRANSMIT_MS <= now,
        t.resent(now).sent.len() == t.sent.len(),
        forall|i: int|
            0 <= i < t.sent.len() ==> {
                let e = #[trigger] t.resent(now).sent[i];
                &&& e.seq == t.sent[i].seq
                &&& e.frame == t.sent[i].frame
                &&& t.sent[i].at + reliable::RELIABLE_RETRANSMIT_MS <= now ==> e.at == now
                    && !reliable::is_due(e.at, later)
                &&& t.sent[i].at + reliable::RELIABLE_RETRANSMIT_MS > now ==> e == t.sent[i]
            },
{
    let due = |e: SentSpec| reliable::is_due(e.at, now);
    let get = |e: SentSpec| e.frame;
    let list = t.sent.filter(due);
    assert(t.due(now) == list.map_values(get));
    if t.due(now).contains(f) {
        let k = choose|k: int| 0 <= k < t.due(now).len() && t.due(now)[k] == f;
        assert(list[k].frame == f);
        assert(list.contains(list[k]));
        t.sent.lemma_filter_pred(due, k);
        t.sent.lemma_filter_contains_rev(due, list[k]);
        let i = choose|i: int| 0 <= i < t.sent.len() && t.sent[i] == list[k];
        assert(t.sent[i].frame == f);
    }
    if exists|i: int|
        0 <= i < t.sent.len() && (#[trigger] t.sent[i]).frame == f && t.sent[i].at
            + reliable::RELIABLE_RETRANSMIT_MS <= now {
        let i = choose|i: int|
            0 <= i < t.sent.len() && (#[trigger] t.sent[i]).frame == f && t.sent[i].at
                + reliable::RELIABLE_RETRANSMIT_MS <= now;
        t.sent.lemma_filter_contains(due, i);
        let k = choose|k: int| 0 <= k < list.len() && list[k] == t.sent[i];
        assert(t.due(now)[k] == f);
    }
}

/// Whether the receiving half of a link waits for nothing that it has: the frame whose turn it is
/// has not come, and what came early is within reach.
pub open spec fn waits_rightly(x: RxSpec) -> bool {
    &&& !x.held.contains_key(x.expected as u128)
    &&& forall|k: u128| #[trigger] x.held.contains_key(k) ==> x.expected < k < u32::MAX
}

/// What becomes of a frame: the one whose turn it is is handed on at once, and with it all that
/// follow it without a gap; one that comes a little early is kept, as it came, until then; one that
/// came before changes nothing. The receiver never waits for a frame that it has.
pub proof fn lemma_frames_wait_for_their_turn(x: RxSpec, seq: u32, frame: Seq<u8>)
    requires
        waits_rightly(x),
        seq < u32::MAX,
    ensures
        waits_rightly(x.arrived(seq, frame)),
        seq == x.expected ==> {
            &&& x.handed(seq, frame).len() > 0
            &&& x.handed(seq, frame)[0] == frame
            &&& x.arrived(seq, frame).expected > seq
            &&& forall|k: u128| #[trigger]
                x.arrived(seq, frame).held.contains_key(k) <==> x.held.contains_key(k)
                    && x.arrived(seq, frame).expected <= k
        },
        seq != x.expected ==> {
            &&& x.handed(seq, frame).len() == 0
            &&& x.arrived(seq, frame).expected == x.expected
            &&& forall|k: u128|
                k != seq ==> (#[trigger] x.arrived(seq, frame).held.contains_key(k)
                    == x.held.contains_key(k))
        },
        x.expected < seq <= x.expected + reliable::RELIABLE_WINDOW ==> x.arrived(
            seq,
            frame,
        ).held.contains_key(seq as u128),
        x.expected < seq <= x.expected + reliable::RELIABLE_WINDOW && !x.held.contains_key(
            seq as u128,
        ) ==> x.arrived(seq, frame).held[seq as u128] == frame,
        seq > x.expected + reliable::RELIABLE_WINDOW ==> x.arrived(seq, frame) == x,
        forall|k: u128|
            x.held.contains_key(k) && #[trigger] x.arrived(seq, frame).held.contains_key(k)
                ==> x.arrived(seq, frame).held[k] == x.held[k],
{
    if seq == x.expected {
        lemma_run_ends(x.held, seq + 1);
        let end = seq + 1 + reliable::run(x.held, seq + 1).len();
        assert(x.arrived(seq, frame).expected == end);
        assert forall|k: u128| #[trigger] x.arrived(seq, frame).held.contains_key(k) implies end < k
            < u32::MAX by {
            assert(x.held.contains_key(k));
        }
    }
}

proof fn lemma_run_ends(held: Map<u128, Seq<u8>>, from: int)
    requires
        0 <= from <= u32::MAX,
        forall|k: u128| #[trigger] held.contains_key(k) ==> k < u32::MAX,
    ensures
        from + reliable::run(held, from).len() <= u32::MAX,
        !held.contains_key((from + reliable::run(held, from).len()) as u128),
    decreases u32::MAX - from,
{
    if from < u32::MAX && held.contains_key(from as u128) {
        lemma_run_ends(held, from + 1);
    }
}

/// A number is new or was taken: below the number that a receiver waits for there is nothing that
/// it would hand on.
pub proof fn lemma_taken_stays_taken(x: RxSpec, seq: u32, frame: Seq<u8>)
    requires
        seq < x.expected,
    ensures
        x.arrived(seq, frame) == x,
        x.handed(seq, frame).len() == 0,
{
}

/// A frame that came early reaches the handlers with the one that was missing: of two frames that
/// come in the wrong order, both are handed on with the second, in the right order.
pub proof fn lemma_exchanged_frames_are_put_right(x: RxSpec, a: Seq<u8>, b: Seq<u8>)
    requires
        waits_rightly(x),
        x.expected < u32::MAX - 2,
        !x.held.contains_key((x.expected + 1) as u128),
        !x.held.contains_key((x.expected + 2) as u128),
    ensures
        ({
            let second = (x.expected + 1) as u32;
            let early = x.arrived(second, b);
            &&& x.handed(second, b).len() == 0
            &&& early.handed(x.expected, a) == seq![a, b]
            &&& early.arrived(x.expected, a).expected == x.expected + 2
        }),
{
    let second = (x.expected + 1) as u32;
    let early = x.arrived(second, b);
    assert(early.held == x.held.insert(second as u128, b));
    reveal_with_fuel(reliable::run, 3);
    assert(!early.held.contains_key((second + 1) as u128));
    assert(reliable::run(early.held, second + 1) =~= Seq::<Seq<u8>>::empty());
    assert(reliable::run(early.held, second as int) =~= seq![b]);
    assert(early.handed(x.expected, a) =~= seq![a, b]);
}

/// A frame that is numbered but out of any line is handed on as soon as it comes, and the sender is
/// told that this very frame came; nothing else changes for the frames that come in line.
pub proof fn lemma_unordered_frame_is_handed_on(
    first: Router,
    after: Router,
    reg: Registry,
    reg_after: Registry,
    frame: Seq<u8>,
    side: usize,
    ty: DataType,
    seq: u32,
    now: u64,
    r: TelemetryResult<Vec<Vec<u8>>>,
)
    requires
        first.side_fault(Some(side)) is None,
        wire_format::peek(reg.schema@, frame) matches Ok((h, _)) && h.scalars.ty == ty && (
        h.reliable matches Some(x) && x.flags == 2 && x.seq == seq),
        first.numbers(reg.schema@, side, ty),
        first.sorted_in(after, reg, reg_after, frame, Some(side), now, r),
    ensures
        r matches Ok(v) && v@.len() == 1 && v@[0]@ == frame,
        told(first, after, side, TY_RELIABLE_ACK, ty, seq),
        after.held@ == first.held@,
{
    let list = seq![(TY_RELIABLE_ACK, seq)];
    lemma_answers_are_told(first, after, reg, reg_after, list, side, ty, now, 0);
    let v = r->Ok_0;
    let views = v@.map_values(|f: Vec<u8>| f@);
    assert(views == seq![frame]);
    assert(views.len() == v@.len());
    assert(views[0] == v@[0]@);
}

/// A frame without a number is handed on as it is, and nobody is told anything.
pub proof fn lemma_plain_frame_is_handed_on(
    first: Router,
    after: Router,
    reg: Registry,
    reg_after: Registry,
    frame: Seq<u8>,
    from: Option<usize>,
    now: u64,
    r: TelemetryResult<Vec<Vec<u8>>>,
)
    requires
        first.side_fault(from) is None,
        wire_format::peek(reg.schema@, frame) matches Ok((h, _)) && h.reliable is None,
        first.sorted_in(after, reg, reg_after, frame, from, now, r),
    ensures
        r matches Ok(v) && v@.len() == 1 && v@[0]@ == frame,
        after == first,
{
    let v = r->Ok_0;
    let views = v@.map_values(|f: Vec<u8>| f@);
    assert(views == seq![frame]);
    assert(views.len() == v@.len());
    assert(views[0] == v@[0]@);
}

/// An acknowledgement that comes over a link is nothing to hand on: no frame up to the number that
/// it names waits any longer on this link.
pub proof fn lemma_acknowledgement_sets_free(
    first: Router,
    after: Router,
    reg: Registry,
    reg_after: Registry,
    frame: Seq<u8>,
    side: usize,
    ty: DataType,
    ack: u32,
    now: u64,
    r: TelemetryResult<Vec<Vec<u8>>>,
    e: SentSpec,
)
    requires
        first.side_fault(Some(side)) is None,
        wire_format::peek(reg.schema@, frame) matches Ok((h, _)) && h.scalars.ty == ty && (
        h.reliable matches Some(x) && x.flags % 2 == 1 && x.ack == ack),
        first.sorted_in(after, reg, reg_after, frame, Some(side), now, r),
        after.sent@.contains_key(router::flow_key(side, ty)),
        after.sent@[router::flow_key(side, ty)].sent.contains(e),
    ensures
        r matches Ok(v) && v@.len() == 0,
        e.seq > ack,
        first.sent@.contains_key(router::flow_key(side, ty)),
        first.sent@[router::flow_key(side, ty)].sent.contains(e),
{
    let key = router::flow_key(side, ty);
    let v = r->Ok_0;
    assert(v@.map_values(|f: Vec<u8>| f@).len() == v@.len());
    lemma_only_later_frames_wait(first.sent@[key], ack, e);
}

/// Where several frames are handed on at once and something goes wrong, the first thing that went
/// wrong is told; where nothing did, all went well.
pub proof fn lemma_first_error_is_told(v: Seq<TelemetryResult<()>>)
    ensures
        ingress::first_error(v) is Ok <==> forall|i: int| 0 <= i < v.len() ==> #[trigger] v[i] is Ok,
        forall|i: int|
            {
                &&& 0 <= i < v.len()
                &&& v[i] is Err
                &&& forall|k: int| 0 <= k < i ==> #[trigger] v[k] is Ok
            } ==> ingress::first_error(v) == #[trigger] v[i],
    decreases v.len(),
{
    if v.len() > 0 {
        let rest = v.skip(1);
        lemma_first_error_is_told(rest);
        if v[0] is Ok {
            if ingress::first_error(v) is Ok {
                assert forall|i: int| 0 <= i < v.len() implies #[trigger] v[i] is Ok by {
                    if i > 0 {
                        assert(rest[i - 1] == v[i]);
                    }
                }
            }
            assert forall|i: int| 0 <= i < rest.len() implies #[trigger] rest[i] == v[i + 1] by {}
            assert forall|i: int|
                {
                    &&& 0 <= i < v.len()
                    &&& v[i] is Err
                    &&& forall|k: int| 0 <= k < i ==> #[trigger] v[k] is Ok
                } implies ingress::first_error(v) == #[trigger] v[i] by {
                assert(rest[i - 1] == v[i]);
                assert forall|k: int| 0 <= k < i - 1 implies #[trigger] rest[k] is Ok by {
                    assert(v[k + 1] is Ok);
                }
            }
        }
    }
}

} // verus!
