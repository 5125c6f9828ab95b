//! What two boards know of each other once they have met.
use vstd::prelude::*;
use crate::address;
use crate::address::{AddressChange, Identity, PeerSpec};
use crate::brevity;
use crate::common;
use crate::discovery;
use crate::duties;
use crate::egress;
use crate::encounter::{Crossing, Join, Pair, CROSSED_LINK};
use crate::error::{TelemetryError, TelemetryResult};
use crate::exchange;
use crate::exchange::Delivery;
use crate::hash;
use crate::ingress;
use crate::jobs;
use crate::jobs::{Job, JobSpec, Side, Target};
use crate::meta::{EP_DISCOVERY, TY_DISCOVERY_SCHEMA};
use crate::packet;
use crate::packet::PacketSpec;
use crate::presence;
use crate::presence::AnnouncerSpec;
use crate::registry::Registry;
use crate::router::Router;
use crate::schema;
use crate::schema::SchemaSnapshot;
use crate::station::Station;

verus! {

/// How a board stands among others: by which address and name, what it knows of others, and which
/// changes its program has to be told of.
pub struct Standing {
    pub identity: Identity,
    pub name: Seq<char>,
    pub known: Seq<PeerSpec>,
    pub moves: Seq<AddressChange>,
}

/// The changes of address or name that the program has to be told of.
pub open spec fn moves_in(told: Seq<Delivery>) -> Seq<AddressChange>
    decreases told.len(),
{
    if told.len() == 0 {
        Seq::empty()
    } else {
        match told.last() {
            Delivery::Moved(c) => moves_in(told.drop_last()).push(c),
            _ => moves_in(told.drop_last()),
        }
    }
}

impl Standing {
    /// How a board stands after it heard a board claim an address and a name.
    pub open spec fn meets(self, other: Identity, name: Seq<char>, side: usize, now: u64) -> Standing {
        let known = if other.owner == self.identity.owner {
            self.known
        } else {
            address::heard(self.known, PeerSpec { name, identity: other, side, last_seen: now })
        };
        let taken = address::addresses(known);
        Standing {
            identity: address::resolved(self.identity, other, taken),
            name: address::name_after(self.identity, self.name, other, name, taken),
            known,
            moves: match address::change(self.identity, self.name, other, name, taken) {
                Some(c) => self.moves.push(c),
                None => self.moves,
            },
        }
    }

    /// How a board stands after it took a packet.
    pub open spec fn hears(self, p: PacketSpec, side: usize, now: u64) -> Standing {
        match exchange::claim(p) {
            Some((other, name)) => self.meets(other, name, side, now),
            None => self,
        }
    }

    /// How a board stands after another did a job.
    pub open spec fn after_job(self, j: JobSpec, l: Join) -> Standing {
        match j.packet {
            Some(p) => if j.target == Target::Side(l.side_x) {
                self.hears(p, CROSSED_LINK, l.now)
            } else {
                self
            },
            None => self,
        }
    }

    /// How a board stands after another did jobs, one after the other.
    pub open spec fn after_jobs(self, js: Seq<JobSpec>, l: Join) -> Standing
        decreases js.len(),
    {
        if js.len() == 0 {
            self
        } else {
            self.after_job(js[0], l).after_jobs(js.skip(1), l)
        }
    }
}

impl Station {
    pub open spec fn standing(self) -> Standing {
        Standing {
            identity: self.core.identity,
            name: self.core.sender@,
            known: self.directory@,
            moves: moves_in(self.told@),
        }
    }

    /// Whether what waits and what is to be done is the same at two times.
    pub open spec fn waits_alike(self, other: Station) -> bool {
        &&& self.core.rx == other.core.rx
        &&& self.core.tx == other.core.tx
        &&& self.core.agenda == other.core.agenda
        &&& self.core.failure == other.core.failure
        &&& self.core.relay == other.core.relay
    }
}

proof fn lemma_told(told: Seq<Delivery>, d: Delivery)
    ensures
        moves_in(told.push(d)) == (match d {
            Delivery::Moved(c) => moves_in(told).push(c),
            _ => moves_in(told),
        }),
{
    assert(told.push(d).drop_last() =~= told);
}

#[verifier::rlimit(60)]
proof fn lemma_takes_discovery(
    y: Station,
    after: Station,
    reg: Registry,
    reg_after: Registry,
    p: PacketSpec,
    side: usize,
    now: u64,
    r: TelemetryResult<()>,
)
    requires
        y.takes(after, reg, reg_after, p, side, now, r),
        r is Ok || y.core.side_fault(Some(side)) is None,
        discovery::is_discovery(p.ty),
    ensures
        r is Ok,
        after.core.presence@ == y.core.presence@ || after.core.presence@ == ingress::learnt(
            y.core.presence@,
            p,
            side,
            now,
        ),
        after.standing() == y.standing().hears(p, side, now),
        after.waits_alike(y),
        reg_after == reg,
        after.core.sides == y.core.sides,
{
    reveal(Station::takes);
    let (mid, x) = choose|mid: Station, x: TelemetryResult<Delivery>|
        {
            &&& #[trigger] y.took_in(mid, reg, reg_after, p, Some(side), now, x)
            &&& match x {
                Ok(d) => r is Ok && mid.kept_told(after, d),
                Err(e) => r == Err::<(), TelemetryError>(e) && after == mid,
            }
        };
    assert(y.core.side_fault(Some(side)) is None);
    let (met, moved) = choose|met: Station, moved: Option<AddressChange>|
        {
            &&& #[trigger] y.noted(met, p, Some(side), now, moved)
            &&& met.worked(mid, reg, reg_after, p, Some(side), now, moved, x)
        };
    let counted = choose|c: Station| #[trigger]
        y.counted_in(c, p, side) && c.heard(met, p, side, now, moved);
    assert(counted.standing() == y.standing());
    assert(met.standing().moves == y.standing().moves);
    let noted = choose|n: Station|
        {
            &&& #[trigger] met.noted_user(n, p, Some(side))
            &&& n.passed_on(
                mid,
                reg.schema@,
                p,
                Some(side),
                now,
                moved,
                met.is_news(p),
                x,
            )
        };
    assert(noted.core.side_fault(Some(side)) is None);
    assert(x is Ok);
    let d = x->Ok_0;
    assert(noted.core == met.core && noted.directory == met.directory && noted.told == met.told);
    assert(mid.core.identity == met.core.identity && mid.core.sender == met.core.sender);
    assert(mid.waits_alike(y));
    lemma_told(y.told@, d);
}

/// Whether a job carries a message of boards about themselves over a link.
pub open spec fn is_word(j: JobSpec) -> bool {
    &&& j.target is Side
    &&& j.packet matches Some(p) && discovery::is_discovery(p.ty)
}

#[verifier::rlimit(60)]
proof fn lemma_carries_word(p: Pair, q: Pair, l: Join, r: TelemetryResult<()>)
    requires
        p.carried(q, l, r),
        r is Ok || p.y.core.side_fault(Some(CROSSED_LINK)) is None,
        p.x.core.agenda@.len() > 0,
        is_word(p.x.core.agenda@[0]@),
    ensures
        r is Ok,
        q.y.core.presence@ == p.y.core.presence@ || q.y.core.presence@ == ingress::learnt(
            p.y.core.presence@,
            p.x.core.agenda@[0]@.packet->0,
            CROSSED_LINK,
            l.now,
        ),
        q.x.core.agenda@ == p.x.core.agenda@.skip(1),
        q.x.core.rx == p.x.core.rx && q.x.core.tx == p.x.core.tx && q.x.core.failure
            == p.x.core.failure && q.x.core.relay == p.x.core.relay,
        q.x.standing() == p.x.standing(),
        q.x.core.sides == p.x.core.sides,
        q.y.standing() == p.y.standing().after_job(p.x.core.agenda@[0]@, l),
        q.reg == p.reg,
        q.y.waits_alike(p.y),
        q.y.core.sides == p.y.core.sides,
{
    reveal(Pair::carried);
    let (mid, j) = choose|mid: Station, j: Job|
        {
            &&& #[trigger] p.x.took_job(mid, p.reg.schema@, j, l.now)
            &&& match (j@.target == Target::Side(l.side_x), j@.packet) {
                (true, Some(pk)) => {
                    &&& p.y.takes(q.y, p.reg, q.reg, pk, CROSSED_LINK, l.now, r)
                    &&& match r {
                        Ok(_) => mid.marked_done(q.x, q.reg.schema@, j, l.now),
                        Err(_) => q.x == mid,
                    }
                },
                _ => {
                    &&& r is Ok
                    &&& mid.kept_told(q.x, Delivery::Task(j))
                    &&& q.y == p.y
                    &&& q.reg == p.reg
                },
            }
        };
    let first = p.x.core.agenda@[0]@;
    assert(j@.packet == first.packet && j@.target == first.target && mid.standing()
        == p.x.standing() && mid.core.agenda@ == p.x.core.agenda@.skip(1) && mid.core.sides
        == p.x.core.sides && mid.core.rx == p.x.core.rx && mid.core.tx == p.x.core.tx
        && mid.core.failure == p.x.core.failure && mid.core.relay == p.x.core.relay) by {
        reveal(Station::took_job);
    }
    let pk = first.packet->0;
    if j@.target == Target::Side(l.side_x) {
        lemma_takes_discovery(p.y, q.y, p.reg, q.reg, pk, CROSSED_LINK, l.now, r);
        assert(q.x.core == mid.core && q.x.directory == mid.directory && q.x.told == mid.told) by {
            reveal(Station::marked_done);
        }
    } else {
        lemma_told(mid.told@, Delivery::Task(j));
    }
}

proof fn lemma_carries_words(
    p: Pair,
    q: Pair,
    l: Join,
    n: nat,
    r: TelemetryResult<()>,
    before: Seq<AnnouncerSpec>,
    name: Seq<char>,
    sources: Seq<Seq<char>>,
)
    requires
        p.carried_all(q, l, n, r),
        r is Ok || p.y.core.side_fault(Some(CROSSED_LINK)) is None,
        brevity::heard_only(before, p.y.core.presence@, CROSSED_LINK, name, sources),
        forall|i: int|
            0 <= i < n ==> brevity::is_from(
                (#[trigger] p.x.core.agenda@[i])@.packet->0,
                name,
                sources,
            ),
        n == p.x.core.agenda@.len(),
        p.x.core.failure is None,
        forall|i: int| 0 <= i < n ==> is_word(#[trigger] p.x.core.agenda@[i]@),
    ensures
        r is Ok,
        brevity::heard_only(before, q.y.core.presence@, CROSSED_LINK, name, sources),
        q.x.core.agenda@.len() == 0,
        q.x.core.rx == p.x.core.rx && q.x.core.tx == p.x.core.tx && q.x.core.failure is None
            && q.x.core.relay == p.x.core.relay,
        q.x.standing() == p.x.standing(),
        q.x.core.sides == p.x.core.sides,
        q.y.standing() == p.y.standing().after_jobs(jobs::jobs(p.x.core.agenda@), l),
        q.reg == p.reg,
        q.y.waits_alike(p.y),
        q.y.core.sides == p.y.core.sides,
    decreases n,
{
    let js = jobs::jobs(p.x.core.agenda@);
    if n > 0 {
        let (mid, x) = choose|mid: Pair, x: TelemetryResult<()>|
            {
                &&& #[trigger] p.carried(mid, l, x)
                &&& match x {
                    Ok(_) => mid.carried_all(q, l, (n - 1) as nat, r),
                    Err(e) => r == Err::<(), TelemetryError>(e) && q == mid,
                }
            };
        assert(is_word(p.x.core.agenda@[0]@));
        lemma_carries_word(p, mid, l, x);
        assert forall|i: int| 0 <= i < n - 1 implies is_word(#[trigger] mid.x.core.agenda@[i]@)
            && brevity::is_from(mid.x.core.agenda@[i]@.packet->0, name, sources) by {
            assert(mid.x.core.agenda@[i] == p.x.core.agenda@[i + 1]);
        }
        brevity::lemma_hears_on(
            before,
            p.y.core.presence@,
            p.x.core.agenda@[0]@.packet->0,
            CROSSED_LINK,
            name,
            sources,
            l.now,
        );
        assert(mid.y.core.side_fault(Some(CROSSED_LINK)) == p.y.core.side_fault(
            Some(CROSSED_LINK),
        ));
        lemma_carries_words(mid, q, l, (n - 1) as nat, r, before, name, sources);
        assert(jobs::jobs(mid.x.core.agenda@) =~= js.skip(1));
        assert(js[0] == p.x.core.agenda@[0]@);
    }
}

proof fn lemma_silence(s: Standing, js: Seq<JobSpec>, l: Join)
    requires
        forall|i: int| 0 <= i < js.len() ==> s.after_job(#[trigger] js[i], l) == s,
    ensures
        s.after_jobs(js, l) == s,
    decreases js.len(),
{
    if js.len() > 0 {
        assert(s.after_job(js[0], l) == s);
        assert forall|i: int| 0 <= i < js.skip(1).len() implies s.after_job(
            #[trigger] js.skip(1)[i],
            l,
        ) == s by {
            assert(js.skip(1)[i] == js[i + 1]);
        }
        lemma_silence(s, js.skip(1), l);
    }
}

/// Whether a job says nothing of an address to the other board.
pub open spec fn is_silent(j: JobSpec, l: Join) -> bool {
    j.target != Target::Side(l.side_x) || (j.packet matches Some(p) ==> exchange::claim(p) is None)
}

proof fn lemma_one_claim(s: Standing, js: Seq<JobSpec>, l: Join, k: int)
    requires
        0 <= k < js.len(),
        forall|i: int| 0 <= i < js.len() && i != k ==> is_silent(#[trigger] js[i], l),
    ensures
        s.after_jobs(js, l) == s.after_job(js[k], l),
    decreases js.len(),
{
    let rest = js.skip(1);
    if k == 0 {
        let t = s.after_job(js[0], l);
        assert forall|i: int| 0 <= i < rest.len() implies t.after_job(#[trigger] rest[i], l)
            == t by {
            assert(rest[i] == js[i + 1]);
            assert(is_silent(js[i + 1], l));
        }
        lemma_silence(t, rest, l);
    } else {
        assert(is_silent(js[0], l));
        assert(s.after_job(js[0], l) == s);
        assert forall|i: int| 0 <= i < rest.len() && i != k - 1 implies is_silent(
            #[trigger] rest[i],
            l,
        ) by {
            assert(rest[i] == js[i + 1]);
        }
        lemma_one_claim(s, rest, l, k - 1);
    }
}

proof fn lemma_open_sides(s: Seq<Side>, n: nat)
    requires
        n <= s.len(),
        n <= usize::MAX,
    ensures
        forall|i: int, j: int|
            0 <= i < j < egress::open_sides(s, n).len() ==> #[trigger] egress::open_sides(s, n)[i]
                < #[trigger] egress::open_sides(s, n)[j],
        forall|i: int|
            0 <= i < egress::open_sides(s, n).len() ==> #[trigger] egress::open_sides(s, n)[i] < n,
        forall|i: usize|
            i < n && egress::is_open(s[i as int]) ==> #[trigger] egress::open_sides(s, n).contains(
                i,
            ),
    decreases n,
{
    if n > 0 {
        lemma_open_sides(s, (n - 1) as nat);
        let front = egress::open_sides(s, (n - 1) as nat);
        let all = egress::open_sides(s, n);
        assert forall|i: usize| i < n && egress::is_open(s[i as int]) implies #[trigger] all.contains(
            i,
        ) by {
            if i == n - 1 {
                assert(all[all.len() - 1] == i);
            } else {
                assert(front.contains(i));
                let k = choose|k: int| 0 <= k < front.len() && front[k] == i;
                assert(all[k] == i);
            }
        }
    }
}

proof fn lemma_copies(core: Router, p: PacketSpec, sides: Seq<usize>, i: int)
    requires
        0 <= i < duties::copies(core, p, sides).len(),
    ensures
        duties::copies(core, p, sides)[i].packet == Some(p),
        duties::copies(core, p, sides)[i].target is Side,
    decreases sides.len(),
{
    let rest = duties::copies(core, p, sides.drop_last());
    if i < rest.len() {
        lemma_copies(core, p, sides.drop_last(), i);
    }
}

/// Whether what a board has to announce fits into packets.
pub open spec fn can_speak(core: Router, reg: Registry, now: u64) -> bool {
    &&& core.can_announce(reg.schema@, core.open_list(), now)
    &&& discovery::snapshot_bytes(reg.schema@.exported()).len() <= packet::MAX_PAYLOAD
}

/// What a board that has nothing else to do sends when it announces itself.
#[verifier::rlimit(60)]
proof fn lemma_speaks(
    x: Station,
    after: Station,
    reg: Registry,
    reg_after: Registry,
    now: u64,
    r: TelemetryResult<()>,
) -> (schema_packet: PacketSpec)
    requires
        x.speaks(after, reg, reg_after, now, r),
        r is Ok || can_speak(x.core, reg, now),
        x.core.agenda@.len() == 0,
        reg.schema@.wf(),
    ensures
        r is Ok,
        jobs::jobs(after.core.agenda@).len() >= 2 * x.core.open_list().len(),
        forall|i: int|
            0 <= i < 2 * x.core.open_list().len() ==> #[trigger] jobs::jobs(after.core.agenda@)[i]
                == x.core.announcements(reg.schema@, x.core.open_list(), now, reg.nonce)[i],
        forall|i: int|
            2 * x.core.open_list().len() <= i < after.core.agenda@.len() ==> (
            #[trigger] jobs::jobs(after.core.agenda@)[i]).packet == Some(schema_packet)
                && jobs::jobs(after.core.agenda@)[i].target is Side,
        schema_packet.ty == TY_DISCOVERY_SCHEMA,
        schema_packet.sender == x.core.sender@,
        schema_packet.address == hash::name_address(x.core.sender@),
        reg_after.schema == reg.schema,
        x.core.can_announce(reg.schema@, x.core.open_list(), now),
        after.standing() == x.standing(),
        after.core.rx == x.core.rx && after.core.tx == x.core.tx && after.core.failure
            == x.core.failure && after.core.relay == x.core.relay,
        after.core.sides@.len() == x.core.sides@.len(),
        forall|i: int|
            0 <= i < x.core.sides@.len() ==> (#[trigger] after.core.sides@[i]).alive
                == x.core.sides@[i].alive && after.core.sides@[i].egress
                == x.core.sides@[i].egress && after.core.sides@[i].ingress
                == x.core.sides@[i].ingress,
{
    reveal(Station::speaks);
    let list = x.core.open_list();
    let (core, reg_mid, said) = choose|
        mid: Router,
        reg_mid: Registry,
        said: TelemetryResult<()>,
    |
        {
            &&& #[trigger] x.core.spoke(mid, reg, reg_mid, x.core.open_list(), now, said)
            &&& match said {
                Ok(_) => Station { core: mid, ..x }.refreshed_by(
                    after,
                    reg_mid,
                    reg_after,
                    now,
                    r,
                ),
                Err(e) => {
                    &&& r == Err::<(), TelemetryError>(e)
                    &&& after == Station { core: mid, ..x }
                    &&& reg_after == reg_mid
                },
            }
        };
    let base = Station { core, ..x };
    let ann = x.core.announcements(reg.schema@, list, now, reg.nonce);
    assert(jobs::jobs(x.core.agenda@) + ann =~= ann);
    assert(jobs::jobs(core.agenda@) == ann);
    let made = choose|made: TelemetryResult<packet::Packet>|
        {
            &&& #[trigger] packet::packet_made(
                reg_mid,
                reg_after,
                TY_DISCOVERY_SCHEMA,
                seq![EP_DISCOVERY],
                base.core.sender@,
                now,
                discovery::snapshot_bytes(reg_mid.schema@.exported()),
                made,
            )
            &&& match made {
                Ok(p) => r is Ok && base.refreshed(after, p@, now),
                Err(e) => r == Err::<(), TelemetryError>(e) && after == base,
            }
        };
    assert(reg_mid.schema@.message(TY_DISCOVERY_SCHEMA) == Some(
        schema::builtin_type(TY_DISCOVERY_SCHEMA),
    ));
    assert(made is Ok);
    let pk = made->Ok_0@;
    let mid = choose|mid: Station|
        {
            &&& #[trigger] base.spread(mid, pk, base.slow_list())
            &&& after.core.sides@.len() == mid.core.sides@.len()
            &&& forall|k: int|
                0 <= k < mid.core.sides@.len() ==> (#[trigger] after.core.sides@[k]) == (Side {
                    pinged: now,
                    ..mid.core.sides@[k]
                })
            &&& after == Station {
                core: Router { sides: after.core.sides, ..mid.core },
                ..mid
            }
        };
    let cop = duties::copies(base.core, pk, base.slow_list());
    let all = jobs::jobs(after.core.agenda@);
    assert(all == ann + cop);
    assert(all.len() == after.core.agenda@.len());
    assert forall|i: int| 2 * list.len() <= i < after.core.agenda@.len() implies (#[trigger]
    all[i]).packet == Some(pk) && all[i].target is Side by {
        assert(all[i] == cop[i - 2 * list.len()]);
        lemma_copies(base.core, pk, base.slow_list(), i - 2 * list.len());
    }
    pk
}

/// Whether the flags of links are the same at two times.
pub open spec fn same_flags(a: Seq<Side>, b: Seq<Side>) -> bool {
    &&& a.len() == b.len()
    &&& forall|i: int|
        0 <= i < a.len() ==> (#[trigger] a[i]).alive == b[i].alive && a[i].egress == b[i].egress
            && a[i].ingress == b[i].ingress
}

/// What the announcement of a board says of its address over one link.
proof fn lemma_address_is_claimed(x: Station, reg: Registry, l: Join, k: int)
    requires
        !x.core.relay,
        reg.schema@.wf(),
        x.core.can_announce(reg.schema@, x.core.open_list(), l.now),
        0 <= k < x.core.open_list().len(),
    ensures
        ({
            let ann = x.core.announcements(reg.schema@, x.core.open_list(), l.now, reg.nonce);
            &&& ann[2 * k].packet matches Some(p) && exchange::claim(p) == Some(
                (x.core.identity, x.core.sender@),
            )
            &&& ann[2 * k].target == Target::Side(x.core.open_list()[k])
            &&& is_word(ann[2 * k])
            &&& brevity::is_from(
                ann[2 * k].packet->0,
                x.core.sender@,
                x.core.time_sources(l.now),
            )
            &&& ann[2 * k + 1].packet matches Some(p) && exchange::claim(p) is None
            &&& ann[2 * k + 1].target == Target::Side(x.core.open_list()[k])
            &&& is_word(ann[2 * k + 1])
            &&& brevity::is_from(
                ann[2 * k + 1].packet->0,
                x.core.sender@,
                x.core.time_sources(l.now),
            )
        }),
{
    let list = x.core.open_list();
    let ann = x.core.announcements(reg.schema@, list, l.now, reg.nonce);
    assert((2 * k) / 2 == k && (2 * k) % 2 == 0);
    assert((2 * k + 1) / 2 == k && (2 * k + 1) % 2 == 1);
    let a = x.core.address_over(reg.schema@, list[k], l.now);
    assert(x.core.is_sendable(reg.schema@, list, 2 * k, l.now));
    discovery::lemma_address_is_short(a);
    discovery::lemma_address_roundtrip(a, Seq::empty());
    assert(discovery::address_bytes(a) + Seq::<u8>::empty() =~= discovery::address_bytes(a));
}

#[verifier::rlimit(60)]
proof fn lemma_announced(p: Pair, q: Pair, l: Join, r: TelemetryResult<()>)
    requires
        p.announced(q, l, r),
        r is Ok || (can_speak(p.x.core, p.reg, l.now) && p.y.core.side_fault(
            Some(CROSSED_LINK),
        ) is None),
        p.x.is_quiet(),
        !p.x.core.relay,
        p.reg.schema@.wf(),
        p.x.core.sides@.len() <= usize::MAX,
        l.side_x < p.x.core.sides@.len(),
        egress::is_open(p.x.core.sides@[l.side_x as int]),
    ensures
        r is Ok,
        brevity::heard_only(
            p.y.core.presence@,
            q.y.core.presence@,
            CROSSED_LINK,
            p.x.core.sender@,
            p.x.core.time_sources(l.now),
        ),
        q.x.is_quiet(),
        q.x.core.relay == p.x.core.relay,
        q.x.standing() == p.x.standing(),
        same_flags(q.x.core.sides@, p.x.core.sides@),
        q.y.standing() == p.y.standing().meets(
            p.x.core.identity,
            p.x.core.sender@,
            CROSSED_LINK,
            l.now,
        ),
        q.y.waits_alike(p.y),
        q.y.core.sides == p.y.core.sides,
        q.reg.schema == p.reg.schema,
{
    reveal(Pair::announced);
    reveal(Pair::ran);
    let (spoken, reg_mid, x) = choose|spoken: Station, reg_mid: Registry, x: TelemetryResult<()>|
        {
            &&& #[trigger] p.x.speaks(spoken, p.reg, reg_mid, l.now, x)
            &&& match x {
                Ok(_) => Pair { x: spoken, y: p.y, reg: reg_mid }.ran(q, l, r),
                Err(e) => {
                    &&& r == Err::<(), TelemetryError>(e)
                    &&& q == Pair { x: spoken, y: p.y, reg: reg_mid }
                },
            }
        };
    let name = p.x.core.sender@;
    let sources = p.x.core.time_sources(l.now);
    let pk = lemma_speaks(p.x, spoken, p.reg, reg_mid, l.now, x);
    let pair = Pair { x: spoken, y: p.y, reg: reg_mid };
    let (told, z) = choose|told: Station, z: TelemetryResult<()>|
        {
            &&& #[trigger] pair.x.confessed(told, z)
            &&& match z {
                Ok(_) => Pair { x: told, ..pair }.carried_all(q, l, told.core.agenda@.len(), r),
                Err(e) => {
                    &&& r == Err::<(), TelemetryError>(e)
                    &&& q == Pair { x: told, ..pair }
                },
            }
        };
    assert(told == spoken);
    let list = p.x.core.open_list();
    let ann = p.x.core.announcements(p.reg.schema@, list, l.now, p.reg.nonce);
    let all = jobs::jobs(spoken.core.agenda@);
    assert(all.len() == spoken.core.agenda@.len());
    lemma_open_sides(p.x.core.sides@, p.x.core.sides@.len());
    assert(list.contains(l.side_x));
    let k = choose|k: int| 0 <= k < list.len() && list[k] == l.side_x;
    assert forall|i: int| 0 <= i < all.len() implies is_word(#[trigger] all[i]) && brevity::is_from(
        all[i].packet->0,
        name,
        sources,
    ) && (i != 2 * k ==> is_silent(all[i], l)) by {
        if i < 2 * list.len() {
            assert(all[i] == ann[i]);
            lemma_address_is_claimed(p.x, p.reg, l, i / 2);
            if i % 2 == 0 {
                assert(i == 2 * (i / 2));
            } else {
                assert(i == 2 * (i / 2) + 1);
            }
            if i / 2 < k {
                assert(list[i / 2] < list[k]);
            } else if i / 2 > k {
                assert(list[k] < list[i / 2]);
            }
        } else {
            assert(all[i].packet == Some(pk));
        }
    }
    assert forall|i: int| 0 <= i < spoken.core.agenda@.len() implies is_word(
        #[trigger] spoken.core.agenda@[i]@,
    ) && brevity::is_from(spoken.core.agenda@[i]@.packet->0, name, sources) by {
        assert(all[i] == spoken.core.agenda@[i]@);
        assert(is_word(all[i]));
    }
    lemma_carries_words(
        pair,
        q,
        l,
        spoken.core.agenda@.len(),
        r,
        p.y.core.presence@,
        name,
        sources,
    );
    lemma_address_is_claimed(p.x, p.reg, l, k);
    assert(all[2 * k] == ann[2 * k]);
    lemma_one_claim(p.y.standing(), all, l, 2 * k);
}

proof fn lemma_processed(p: Pair, q: Pair, l: Join, r: TelemetryResult<()>)
    requires
        p.processed(q, l, r),
        p.x.is_quiet(),
    ensures
        q == p,
        r is Ok,
{
    reveal(Pair::processed);
    reveal(Pair::emptied);
    reveal(Pair::ran);
    let (came, reg_mid, x) = choose|came: Station, reg_mid: Registry, x: TelemetryResult<()>|
        {
            &&& #[trigger] p.x.worked_rx(came, p.reg, reg_mid, l.now, p.x.core.rx@.len(), x)
            &&& match x {
                Err(e) => {
                    &&& r == Err::<(), TelemetryError>(e)
                    &&& q == Pair { x: came, y: p.y, reg: reg_mid }
                },
                Ok(_) => Pair { x: came, y: p.y, reg: reg_mid }.emptied(q, l, r),
            }
        };
    assert(came == p.x && reg_mid == p.reg);
    assert(p.emptied(q, l, r));
    let (left, z) = choose|left: Station, z: TelemetryResult<()>|
        {
            &&& #[trigger] p.x.worked_tx(left, p.reg.schema@, l.now, p.x.core.tx@.len(), z)
            &&& match z {
                Err(e) => {
                    &&& r == Err::<(), TelemetryError>(e)
                    &&& q == Pair { x: left, ..p }
                },
                Ok(_) => Pair { x: left, ..p }.ran(q, l, r),
            }
        };
    assert(left == p.x);
    assert(p.ran(q, l, r));
    let (told, y) = choose|told: Station, y: TelemetryResult<()>|
        {
            &&& #[trigger] p.x.confessed(told, y)
            &&& match y {
                Ok(_) => Pair { x: told, ..p }.carried_all(q, l, told.core.agenda@.len(), r),
                Err(e) => {
                    &&& r == Err::<(), TelemetryError>(e)
                    &&& q == Pair { x: told, ..p }
                },
            }
        };
    assert(told == p.x);
}

/// Whether two boards can tell each other of themselves over the link that joins them, and nothing
/// else is going on.
pub open spec fn is_plain_meeting(p: Pair, l: Join) -> bool {
    &&& p.x.is_quiet()
    &&& p.y.is_quiet()
    &&& !p.x.core.relay
    &&& !p.y.core.relay
    &&& l.side_x < p.x.core.sides@.len() && egress::is_open(p.x.core.sides@[l.side_x as int])
    &&& l.side_y < p.y.core.sides@.len() && egress::is_open(p.y.core.sides@[l.side_y as int])
}

/// Bytes of names that two boards may know of when they meet.
pub const MAX_WORDS: u64 = 0x1000_0000;

/// Whether two boards that tell each other of themselves succeed: they can, each takes what comes
/// over the link that packets cross to, and what they have to say is not too long.
pub open spec fn can_meet(p: Pair, l: Join) -> bool {
    &&& is_plain_meeting(p, l)
    &&& p.x.core.side_fault(Some(CROSSED_LINK)) is None
    &&& p.y.core.side_fault(Some(CROSSED_LINK)) is None
    &&& p.x.core.word_cost() + p.y.core.word_cost() <= MAX_WORDS
    &&& discovery::snapshot_bytes(p.reg.schema@.exported()).len() <= packet::MAX_PAYLOAD
}

/// The second board can still say what it has to say once it heard the first.
proof fn lemma_still_speaks(p: Pair, q: Pair, l: Join)
    requires
        can_meet(p, l),
        brevity::heard_only(
            p.y.core.presence@,
            q.y.core.presence@,
            CROSSED_LINK,
            p.x.core.sender@,
            p.x.core.time_sources(l.now),
        ),
        q.y.standing() == p.y.standing().meets(
            p.x.core.identity,
            p.x.core.sender@,
            CROSSED_LINK,
            l.now,
        ),
        q.reg.schema == p.reg.schema,
    ensures
        can_speak(q.y.core, q.reg, l.now),
{
    let x = p.x.core;
    let known = q.y.standing().known;
    brevity::lemma_heard_cost(
        p.y.core.presence@,
        q.y.core.presence@,
        CROSSED_LINK,
        x.sender@,
        x.time_sources(l.now),
    );
    brevity::lemma_sources_cost(x, l.now);
    brevity::lemma_name_cost(
        p.y.core.identity,
        p.y.core.sender@,
        x.identity,
        x.sender@,
        address::addresses(known),
    );
    brevity::lemma_words_bound_speech(q.y.core, q.reg.schema@, q.y.core.open_list(), l.now);
}

/// Two boards that meet settle their addresses and names: the second hears the first, then the
/// first hears the second as it stands by then, each change is there to be told, and nothing is
/// left to be done. They do so wherever the meeting succeeds, and it succeeds wherever they can
/// meet.
#[verifier::rlimit(60)]
pub proof fn lemma_meeting_settles(p: Pair, q: Pair, l: Join, r: TelemetryResult<()>)
    requires
        p.wf(),
        is_plain_meeting(p, l),
        p.met(0, q, l, r),
        r is Ok || can_meet(p, l),
    ensures
        r is Ok,
        ({
            let y = p.y.standing().meets(p.x.core.identity, p.x.core.sender@, CROSSED_LINK, l.now);
            &&& q.y.standing() == y
            &&& q.x.standing() == p.x.standing().meets(y.identity, y.name, CROSSED_LINK, l.now)
        }),
        q.x.is_quiet(),
        q.y.is_quiet(),
{
    let (p1, r1) = lemma_next_step(p, 0, q, l, r);
    assert(p.announced(p1, l, r1));
    if can_meet(p, l) {
        brevity::lemma_words_bound_speech(p.x.core, p.reg.schema@, p.x.core.open_list(), l.now);
    }
    lemma_announced(p, p1, l, r1);
    if can_meet(p, l) {
        lemma_still_speaks(p, p1, l);
        assert(p1.x.core.side_fault(Some(CROSSED_LINK)) is None);
    }
    let (p2, r2) = lemma_next_step(p1, 1, q, l, r);
    assert(p1.turned().announced(p2.turned(), l.turned(), r2));
    lemma_announced(p1.turned(), p2.turned(), l.turned(), r2);
    let (p3, r3) = lemma_next_step(p2, 2, q, l, r);
    lemma_processed(p2, p3, l, r3);
    let (p4, r4) = lemma_next_step(p3, 3, q, l, r);
    lemma_processed(p3.turned(), p4.turned(), l.turned(), r4);
    let (p5, r5) = lemma_next_step(p4, 4, q, l, r);
    lemma_processed(p4, p5, l, r5);
    let (p6, r6) = lemma_next_step(p5, 5, q, l, r);
    lemma_processed(p5.turned(), p6.turned(), l.turned(), r6);
    assert(q == p6);
}

proof fn lemma_next_step(p: Pair, k: nat, q: Pair, l: Join, r: TelemetryResult<()>) -> (res: (
    Pair,
    TelemetryResult<()>,
))
    requires
        k < 6,
        p.met(k, q, l, r),
    ensures
        p.step(k, res.0, l, res.1),
        r is Ok ==> res.1 is Ok,
        res.1 is Ok ==> res.0.met(k + 1, q, l, r),
{
    choose|mid: Pair, x: TelemetryResult<()>|
        {
            &&& #[trigger] p.step(k, mid, l, x)
            &&& match x {
                Ok(_) => mid.met(k + 1, q, l, r),
                Err(e) => r == Err::<(), TelemetryError>(e) && q == mid,
            }
        }
}

/// Two boards that have met have two addresses and two names: the one that wins keeps both, and the
/// other has an address and a name that the first does not have.
pub proof fn lemma_met_boards_part(p: Pair, q: Pair, l: Join, r: TelemetryResult<()>)
    requires
        p.wf(),
        is_plain_meeting(p, l),
        p.met(0, q, l, r),
        r is Ok || can_meet(p, l),
        p.x.core.identity.owner != p.y.core.identity.owner,
    ensures
        r is Ok,
        q.x.core.identity.address != q.y.core.identity.address,
        q.x.core.sender@ != q.y.core.sender@,
        p.x.core.identity.beats(p.y.core.identity) ==> q.x.core.identity == p.x.core.identity
            && q.x.core.sender@ == p.x.core.sender@,
        p.y.core.identity.beats(p.x.core.identity) ==> q.y.core.identity == p.y.core.identity
            && q.y.core.sender@ == p.y.core.sender@,
{
    lemma_meeting_settles(p, q, l, r);
    let (x, y) = (p.x.standing(), p.y.standing());
    let met = y.meets(x.identity, x.name, CROSSED_LINK, l.now);
    let first = PeerSpec {
        name: x.name,
        identity: x.identity,
        side: CROSSED_LINK,
        last_seen: l.now,
    };
    let second = PeerSpec {
        name: met.name,
        identity: met.identity,
        side: CROSSED_LINK,
        last_seen: l.now,
    };
    address::lemma_one_gives_way(x.identity, y.identity);
    address::lemma_heard_is_found(y.known, first);
    address::lemma_heard_is_found(x.known, second);
    address::lemma_moved_is_free(
        y.identity.address,
        address::addresses(address::heard(y.known, first)),
    );
    address::lemma_moved_is_free(
        x.identity.address,
        address::addresses(address::heard(x.known, second)),
    );
    reveal_strlit("-");
}

/// Whether two boards can meet.
pub fn may_meet(
    a: &Station,
    b: &Station,
    reg: &Registry,
    side_a: usize,
    side_b: usize,
    now: u64,
) -> (ok: bool)
    ensures
        ok == can_meet(
            (Pair { x: *a, y: *b, reg: *reg }),
            (Join { side_x: side_a, side_y: side_b, now }),
        ),
{
    if !a.is_ready(side_a) || !b.is_ready(side_b) {
        return false;
    }
    let snapshot: SchemaSnapshot = reg.schema.export_schema();
    if discovery::snapshot_payload(&snapshot).len() as u64 > packet::MAX_PAYLOAD {
        return false;
    }
    let first: u64 = match presence::add_text(a.core.sender.as_str(), 0, MAX_WORDS) {
        Some(n) => n,
        None => return false,
    };
    let both: u64 = match presence::add_text(b.core.sender.as_str(), first, MAX_WORDS) {
        Some(n) => n,
        None => return false,
    };
    match a.core.presence.added(both, MAX_WORDS) {
        Some(n) => b.core.presence.added(n, MAX_WORDS).is_some(),
        None => false,
    }
}

impl Station {
    /// Whether a board has nothing to do, sends over a link, and takes what crosses.
    pub open spec fn can_join(self, side: usize) -> bool {
        &&& self.is_quiet()
        &&& !self.core.relay
        &&& side < self.core.sides@.len() && egress::is_open(self.core.sides@[side as int])
        &&& self.core.side_fault(Some(CROSSED_LINK)) is None
    }

    fn is_ready(&self, side: usize) -> (b: bool)
        ensures
            b == self.can_join(side),
    {
        self.core.rx.len() == 0 && self.core.tx.len() == 0 && self.core.agenda.len() == 0
            && self.core.failure.is_none() && !self.core.relay && side < self.core.sides.len()
            && self.core.sides[side].alive && self.core.sides[side].egress && self.core.check_side(
            Some(CROSSED_LINK),
        ).is_ok()
    }

    /// Whether a board was just made: it has no link, nothing to do, and has heard of nobody.
    pub open spec fn is_new(self) -> bool {
        &&& self.is_quiet()
        &&& !self.core.relay
        &&& self.core.sides@.len() == 0
        &&& self.core.presence@.len() == 0
    }
}

/// New boards that were wired to each other meet: every step succeeds, however they are called, as
/// long as their names and the definitions fit into packets.
pub proof fn lemma_new_boards_meet(
    a: Station,
    b: Station,
    x: Station,
    y: Station,
    f: Crossing,
    g: Crossing,
    reg: Registry,
    now: u64,
)
    requires
        a.is_new(),
        b.is_new(),
        common::wired(a, x, "a-to-b"@, Ok(f)),
        common::wired(b, y, "b-to-a"@, Ok(g)),
        x.wf(),
        y.wf(),
        reg.schema@.wf(),
        brevity::text_cost(a.core.sender@) + brevity::text_cost(b.core.sender@) <= MAX_WORDS,
        discovery::snapshot_bytes(reg.schema@.exported()).len() <= packet::MAX_PAYLOAD,
    ensures
        can_meet((Pair { x, y, reg }), (Join { side_x: f.side, side_y: g.side, now })),
        common::exchange_succeeds(
            (Pair { x, y, reg }),
            (Join { side_x: f.side, side_y: g.side, now }),
        ),
{
    let p = Pair { x, y, reg };
    let l = Join { side_x: f.side, side_y: g.side, now };
    assert(can_meet(p, l));
    lemma_meeting_succeeds(p, l);
}

/// Boards that can meet do: every step of the meeting succeeds.
pub proof fn lemma_meeting_succeeds(p: Pair, l: Join)
    requires
        p.wf(),
        can_meet(p, l),
    ensures
        common::exchange_succeeds(p, l),
{
    assert forall|q: Pair, r: TelemetryResult<()>| #[trigger] p.met(0, q, l, r) implies r is Ok by {
        lemma_meeting_settles(p, q, l, r);
    }
}

} // verus!
