//! What holds of values that a board keeps for others, of the copies of a packet that it sends,
//! and of frames that were damaged on their way.
use vstd::prelude::*;
use crate::codec;
use crate::crc32;
use crate::duties;
use crate::error::{TelemetryError, TelemetryResult};
use crate::jobs;
use crate::jobs::{JobSpec, Target};
use crate::meta::DataType;
use crate::packet::{Packet, PacketSpec};
use crate::presence;
use crate::registry::Registry;
use crate::router::Router;
use crate::schema;
use crate::station::Station;
use crate::variables;
use crate::wire_format;
use crate::wire_format::FrameFault;

verus! {

/// Whether a job takes a packet over a link.
pub open spec fn takes(j: JobSpec, p: PacketSpec, side: usize) -> bool {
    &&& j.target == Target::Side(side)
    &&& j.packet == Some(p)
    &&& j.frame is None
    &&& j.tries == 0
}

/// Whether a packet may go over a link.
pub open spec fn is_open(core: Router, side: usize) -> bool {
    side < core.sides@.len() && core.sides@[side as int].alive && core.sides@[side as int].egress
}

/// Whether a job takes a packet over one of some links.
pub open spec fn takes_over_one(core: Router, j: JobSpec, p: PacketSpec, sides: Seq<usize>) -> bool {
    exists|s: usize| #[trigger] takes(j, p, s) && sides.contains(s) && is_open(core, s)
}

/// Every open link of a list gets its copy of a packet, and nothing else goes anywhere.
pub proof fn lemma_each_open_link_gets_a_copy(core: Router, p: PacketSpec, sides: Seq<usize>)
    ensures
        forall|s: usize| #[trigger]
            sides.contains(s) && is_open(core, s) ==> exists|k: int|
                0 <= k < duties::copies(core, p, sides).len() && #[trigger] takes(
                    duties::copies(core, p, sides)[k],
                    p,
                    s,
                ),
        forall|k: int|
            0 <= k < duties::copies(core, p, sides).len() ==> takes_over_one(
                core,
                #[trigger] duties::copies(core, p, sides)[k],
                p,
                sides,
            ),
        duties::copies(core, p, sides).len() <= sides.len(),
        (forall|s: usize| #[trigger] sides.contains(s) ==> is_open(core, s)) ==> duties::copies(
            core,
            p,
            sides,
        ).len() == sides.len(),
    decreases sides.len(),
{
    let all = duties::copies(core, p, sides);
    if sides.len() > 0 {
        let front = sides.drop_last();
        let rest = duties::copies(core, p, front);
        let last = sides.last();
        lemma_each_open_link_gets_a_copy(core, p, front);
        assert(sides.contains(last));
        assert forall|s: usize| front.contains(s) implies sides.contains(s) by {
            let i = choose|i: int| 0 <= i < front.len() && front[i] == s;
            assert(sides[i] == s);
        }
        assert forall|s: usize| sides.contains(s) implies s == last || front.contains(s) by {
            let i = choose|i: int| 0 <= i < sides.len() && sides[i] == s;
            if i < front.len() {
                assert(front[i] == s);
            }
        }
        assert forall|k: int| 0 <= k < rest.len() implies all[k] == rest[k] by {}
        assert forall|s: usize| #[trigger] sides.contains(s) && is_open(core, s) implies exists|
            k: int,
        | 0 <= k < all.len() && #[trigger] takes(all[k], p, s) by {
            if front.contains(s) {
                let k = choose|k: int| 0 <= k < rest.len() && #[trigger] takes(rest[k], p, s);
                assert(takes(all[k], p, s));
            } else {
                assert(takes(all[all.len() - 1], p, s));
            }
        }
        assert forall|k: int| 0 <= k < all.len() implies takes_over_one(
            core,
            #[trigger] all[k],
            p,
            sides,
        ) by {
            if k < rest.len() {
                assert(takes_over_one(core, rest[k], p, front));
                let s = choose|s: usize| #[trigger]
                    takes(rest[k], p, s) && front.contains(s) && is_open(core, s);
                assert(takes(all[k], p, s));
            } else {
                assert(takes(all[k], p, last));
            }
        }
    }
}

/// A packet that is still waited for goes over a link exactly if the link leads to one of the
/// boards that wait for it and is not the one that it came from; and over no link twice.
pub proof fn lemma_ways_lead_to_who_waits(
    known: Seq<presence::AnnouncerSpec>,
    boards: Seq<u32>,
    from: usize,
    now: u64,
)
    ensures
        forall|s: usize| #[trigger]
            duties::ways(known, boards, from, now).contains(s) <==> s != from && exists|i: int|
                0 <= i < boards.len() && #[trigger] presence::way_to_board(known, boards[i], now)
                    == Some(s),
        duties::ways(known, boards, from, now).no_duplicates(),
    decreases boards.len(),
{
    let all = duties::ways(known, boards, from, now);
    if boards.len() > 0 {
        let front = boards.drop_last();
        let rest = duties::ways(known, front, from, now);
        lemma_ways_lead_to_who_waits(known, front, from, now);
        let here = presence::way_to_board(known, boards.last(), now);
        assert forall|s: usize| #[trigger] all.contains(s) <==> s != from && exists|i: int|
            0 <= i < boards.len() && #[trigger] presence::way_to_board(known, boards[i], now)
                == Some(s) by {
            if all.contains(s) {
                let k = choose|k: int| 0 <= k < all.len() && all[k] == s;
                if k < rest.len() {
                    assert(rest[k] == s);
                    assert(rest.contains(s));
                    let i = choose|i: int|
                        0 <= i < front.len() && #[trigger] presence::way_to_board(
                            known,
                            front[i],
                            now,
                        ) == Some(s);
                    assert(presence::way_to_board(known, boards[i], now) == Some(s));
                } else {
                    assert(presence::way_to_board(known, boards[boards.len() - 1], now) == Some(
                        s,
                    ));
                }
            }
            if s != from && exists|i: int|
                0 <= i < boards.len() && #[trigger] presence::way_to_board(known, boards[i], now)
                    == Some(s) {
                let i = choose|i: int|
                    0 <= i < boards.len() && #[trigger] presence::way_to_board(
                        known,
                        boards[i],
                        now,
                    ) == Some(s);
                if i < front.len() {
                    assert(presence::way_to_board(known, front[i], now) == Some(s));
                    assert(rest.contains(s));
                }
                if rest.contains(s) {
                    let k = choose|k: int| 0 <= k < rest.len() && rest[k] == s;
                    assert(all[k] == s);
                } else {
                    assert(all == rest.push(s));
                    assert(all[rest.len() as int] == s);
                }
            }
        }
        if all != rest {
            let s = here->0;
            assert(all == rest.push(s));
            assert forall|i: int, j: int| 0 <= i < all.len() && 0 <= j < all.len() && i
                != j implies all[i] != all[j] by {
                if i == rest.len() {
                    assert(rest.contains(rest[j]));
                } else if j == rest.len() {
                    assert(rest.contains(rest[i]));
                }
            }
        }
    }
}

/// A value of a type that is kept is given back: to who asks for it over a link, over this link;
/// and to the program, where it may read it. Values of other types stay as they are, and so does
/// what may be done with them.
pub proof fn lemma_kept_value_comes_back(
    first: Station,
    mid: Station,
    after: Station,
    p: PacketSpec,
    question: PacketSpec,
    side: usize,
)
    requires
        first.variables@.contains_key(p.ty),
        first.kept_value(mid, p),
        question.payload == codec::le4(p.ty),
        mid.answered(after, question, Some(side)),
        is_open(mid.core, side),
    ensures
        jobs::jobs(after.core.agenda@).len() == jobs::jobs(mid.core.agenda@).len() + 1,
        jobs::jobs(after.core.agenda@).drop_last() == jobs::jobs(mid.core.agenda@),
        takes(jobs::jobs(after.core.agenda@).last(), p, side),
        forall|ty: DataType|
            ty != p.ty ==> variables::lookup(mid.variables@, ty) == #[trigger] variables::lookup(
                first.variables@,
                ty,
            ),
        forall|ty: DataType| #[trigger]
            variables::lookup(mid.variables@, ty).permissions == variables::lookup(
                first.variables@,
                ty,
            ).permissions,
        after.variables@ == mid.variables@,
{
    variables::lemma_question_roundtrip(p.ty);
    assert(variables::lookup(mid.variables@, p.ty).value == Some(p));
    assert(mid.spread(after, p, seq![side]));
    let one = duties::copies(mid.core, p, seq![side]);
    assert(seq![side].drop_last() =~= Seq::<usize>::empty());
    assert(duties::copies(mid.core, p, Seq::<usize>::empty()).len() == 0);
    assert(one.len() == 1);
    let all = jobs::jobs(after.core.agenda@);
    assert(all == jobs::jobs(mid.core.agenda@) + one);
    assert(all.drop_last() =~= jobs::jobs(mid.core.agenda@));
    assert(all.last() == one[0]);
}

/// A program that wants a value that was kept gets it, and nobody is asked; where it may not read
/// values of the type it is refused, whether there is one or not.
pub proof fn lemma_wanted_value_is_given(
    first: Station,
    mid: Station,
    after: Station,
    reg: Registry,
    later: Registry,
    p: PacketSpec,
    now: u64,
    r: TelemetryResult<Option<Packet>>,
)
    requires
        first.variables@.contains_key(p.ty),
        first.kept_value(mid, p),
        mid.wanted(after, reg, later, p.ty, now, r),
    ensures
        first.variables@[p.ty].permissions.read ==> (r matches Ok(Some(v)) && v@ == p),
        !first.variables@[p.ty].permissions.read ==> r == Err::<Option<Packet>, TelemetryError>(
            TelemetryError::PermissionDenied,
        ),
        after == mid,
        later == reg,
{
}

/// A value is news once: a packet that says again what was said last is none, and one that says
/// something else is. Of types that are not kept nothing is news.
pub proof fn lemma_news_are_told_once(
    first: Station,
    mid: Station,
    p: PacketSpec,
    q: PacketSpec,
)
    requires
        first.kept_value(mid, p),
        q.ty == p.ty,
    ensures
        mid.is_news(q) <==> first.variables@.contains_key(p.ty) && q.payload != p.payload,
{
}

proof fn lemma_numbers_differ(a: u32, b: u32)
    ensures
        codec::le4(a) == codec::le4(b) ==> a == b,
{
    variables::lemma_question_roundtrip(a);
    variables::lemma_question_roundtrip(b);
}

/// A frame in which one byte changed on the way is refused, whichever byte it is.
pub proof fn lemma_damaged_frame_is_refused(
    sc: schema::SchemaSpec,
    names: Seq<Seq<char>>,
    frame: Seq<u8>,
    i: int,
    b: u8,
)
    requires
        wire_format::peek(sc, frame) is Ok,
        0 <= i < frame.len(),
        b != frame[i],
    ensures
        wire_format::peek(sc, frame.update(i, b)) matches Err(e) && e == FrameFault::BadCrc,
        wire_format::parse(sc, names, frame.update(i, b)) matches Err(e) && e
            == FrameFault::BadCrc,
{
    let n = frame.len() - wire_format::CRC32_BYTES;
    let hurt = frame.update(i, b);
    let s = frame.take(n);
    let t = hurt.take(n);
    assert(frame.skip(n) == codec::le4(crc32::crc32(s)));
    if i < n {
        crc32::lemma_changed_byte_is_noticed(s, t, i);
        lemma_numbers_differ(crc32::crc32(s), crc32::crc32(t));
        assert(hurt.skip(n) =~= frame.skip(n));
    } else {
        assert(t =~= s);
        assert(hurt.skip(n)[i - n] != frame.skip(n)[i - n]);
    }
}

} // verus!
