//! The state of a router and what it decides.
//!
//! A router never calls anyone. It keeps an agenda of jobs; the program around it takes them from
//! the agenda one by one, does them, and says how each went.
use vstd::prelude::*;
use vstd::string::*;
use crate::address::Identity;
use crate::assoc::Assoc;
use crate::codec;
use crate::discovery;
use crate::e2e::RouterE2eEncryptionMode;
use crate::error::{TelemetryError, TelemetryResult};
use crate::jobs;
use crate::jobs::{
    facts_of, handler_failure_string, is_for_me, part_endpoints, push_handler_jobs, push_side_jobs,
    side_failure_string, Handler, Job, JobSpec, Side, Target, MAX_HANDLER_RETRIES,
};
use crate::meta::{
    DataEndpoint, DataType, ReliableMode, EP_TELEMETRY_ERROR, TY_DISCOVERY_SCHEMA,
    TY_DISCOVERY_SCHEMA_REQUEST, TY_DISCOVERY_TOPOLOGY, TY_DISCOVERY_TOPOLOGY_REQUEST,
    TY_TELEMETRY_ERROR,
};
use crate::packet;
use crate::packet::{Packet, PacketSpec};
use crate::presence;
use crate::presence::Presence;
use crate::queue::WorkQueue;
use crate::recent::RecentIds;
use crate::registry::Registry;
use crate::reliable::{ReliableRx, ReliableTx, RxSpec, TxSpec};
use crate::routes;
use crate::routes::{RoutePolicy, RouteQuery, RouteSelectionMode, SideFacts, MAX_SIDES};
use crate::schema;
use crate::schema::Schema;
use crate::wire_format;
use crate::wire_format::{ReliableHeader, RELIABLE_FLAG_UNSEQUENCED};

verus! {

/// Bytes that queues, schema and tables of a router may take together.
pub const MAX_QUEUE_BUDGET: usize = 1_048_576;

/// Bytes that are set aside for the packets that were seen lately.
pub const RECENT_RX_QUEUE_BYTES: usize = 2048;

/// As many packets are remembered.
pub const MAX_RECENT_RX_IDS: usize = 256;

/// A packet or a frame that came and waits.
pub struct Arriving {
    pub packet: Option<Packet>,
    pub frame: Option<Vec<u8>>,
    pub from: Option<usize>,
}

/// A packet that is to leave and waits; for one link, where it says so.
pub struct Leaving {
    pub packet: Packet,
    pub to: Option<usize>,
}

/// The state of a router.
pub struct Router {
    /// It only hands packets on.
    pub relay: bool,
    pub sender: String,
    pub identity: Identity,
    pub handlers: Vec<Handler>,
    pub sides: Vec<Side>,
    pub policy: RoutePolicy,
    pub presence: Presence,
    pub recent: RecentIds,
    pub rx: WorkQueue<Arriving>,
    pub tx: WorkQueue<Leaving>,
    /// Frames that were sent over a link and not acknowledged, by link and type.
    pub sent: Assoc<ReliableTx>,
    /// Frames that came over a link before their turn, by link and type.
    pub held: Assoc<ReliableRx>,
    /// The keys that `sent` and `held` have had.
    pub flows: Vec<u128>,
    pub agenda: Vec<Job>,
    /// How a job failed for good that nobody was told of yet.
    pub failure: Option<TelemetryError>,
    /// Which messages are locked on their way, where they can be.
    pub e2e_mode: RouterE2eEncryptionMode,
    /// There is someone who locks and unlocks, and the key to ask for.
    pub can_lock: bool,
    pub e2e_key: u32,
    /// When the board announces itself next, and how long it waits after that.
    pub next_announce: u64,
    pub interval: u64,
    /// How often a board came or went.
    pub news: u64,
    /// The board tells others the time.
    pub tells_time: bool,
}

/// The key of a link and a type.
pub open spec fn flow_key(side: usize, ty: DataType) -> u128 {
    (ty * 0x1_0000_0000 + side) as u128
}

/// The link of a key.
pub open spec fn flow_side(key: u128) -> usize {
    (key % 0x1_0000_0000) as usize
}

/// Whether messages of a type are delivered reliably.
pub open spec fn is_reliable(sc: schema::SchemaSpec, ty: DataType) -> bool {
    sc.message(ty) matches Some(t) && t.reliable != ReliableMode::BestEffort
}

/// Whether messages of a type ask boards for what they know.
pub open spec fn is_question(ty: DataType) -> bool {
    ty == TY_DISCOVERY_TOPOLOGY_REQUEST || ty == TY_DISCOVERY_SCHEMA_REQUEST
}

/// Whether messages of a type can be answers.
pub open spec fn is_answer(ty: DataType) -> bool {
    ty == TY_DISCOVERY_TOPOLOGY || ty == TY_DISCOVERY_SCHEMA
}

/// Whether a packet gets a number on a link that numbers its frames: its type is delivered
/// reliably, it is a question, or it is the answer to one, which names who asked.
pub open spec fn is_sure(sc: schema::SchemaSpec, p: PacketSpec) -> bool {
    is_reliable(sc, p.ty) || is_question(p.ty) || (is_answer(p.ty) && p.targets.len() > 0)
}

/// Whether frames of a type may have a number.
pub open spec fn may_number(sc: schema::SchemaSpec, ty: DataType) -> bool {
    is_reliable(sc, ty) || is_question(ty) || is_answer(ty)
}

/// Whether messages of a type are delivered reliably, in any order.
pub open spec fn is_unordered(sc: schema::SchemaSpec, ty: DataType) -> bool {
    sc.message(ty) matches Some(t) && t.reliable == ReliableMode::Unordered
}

/// Whether an endpoint is not to be reached from outside the device.
pub open spec fn is_link_local(sc: schema::SchemaSpec, ep: DataEndpoint) -> bool {
    sc.endpoint(ep) matches Some(e) && e.link_local_only
}

/// The frames that were sent under a key.
pub open spec fn flow(sent: Map<u128, TxSpec>, key: u128) -> TxSpec {
    if sent.contains_key(key) {
        sent[key]
    } else {
        TxSpec { next: 1, sent: Seq::empty() }
    }
}

/// The header of a frame with the number `seq`.
pub open spec fn flow_header(sc: schema::SchemaSpec, ty: DataType, seq: u32) -> ReliableHeader {
    ReliableHeader {
        flags: if is_unordered(sc, ty) {
            RELIABLE_FLAG_UNSEQUENCED
        } else {
            0
        },
        seq,
        ack: 0,
    }
}

fn key_of_flow(side: usize, ty: DataType) -> (k: u128)
    requires
        side < MAX_SIDES,
    ensures
        k == flow_key(side, ty),
        flow_side(k) == side,
{
    ty as u128 * 0x1_0000_0000 + side as u128
}

pub(crate) fn reliable_of(schema: &Schema, ty: DataType) -> (b: bool)
    ensures
        b == is_reliable(schema@, ty),
{
    match schema.message_meta(ty) {
        Some(t) => t.reliable != ReliableMode::BestEffort,
        None => false,
    }
}

fn is_sure_packet(schema: &Schema, p: &Packet) -> (b: bool)
    ensures
        b == is_sure(schema@, p@),
{
    let ty: DataType = p.data_type();
    reliable_of(schema, ty) || ty == TY_DISCOVERY_TOPOLOGY_REQUEST || ty
        == TY_DISCOVERY_SCHEMA_REQUEST || ((ty == TY_DISCOVERY_TOPOLOGY || ty
        == TY_DISCOVERY_SCHEMA) && p.wire_target_senders().len() > 0)
}

pub(crate) fn may_number_of(schema: &Schema, ty: DataType) -> (b: bool)
    ensures
        b == may_number(schema@, ty),
{
    reliable_of(schema, ty) || ty == TY_DISCOVERY_TOPOLOGY_REQUEST || ty
        == TY_DISCOVERY_SCHEMA_REQUEST || ty == TY_DISCOVERY_TOPOLOGY || ty == TY_DISCOVERY_SCHEMA
}

fn unordered_of(schema: &Schema, ty: DataType) -> (b: bool)
    ensures
        b == is_unordered(schema@, ty),
{
    match schema.message_meta(ty) {
        Some(t) => t.reliable == ReliableMode::Unordered,
        None => false,
    }
}

pub(crate) fn link_local_of(schema: &Schema, ep: DataEndpoint) -> (b: bool)
    ensures
        b == is_link_local(schema@, ep),
{
    match schema.endpoint_definition(ep) {
        Some(e) => e.link_local_only,
        None => false,
    }
}

fn any_link_local(schema: &Schema, eps: &Vec<DataEndpoint>) -> (b: bool)
    ensures
        b == exists|i: int| 0 <= i < eps@.len() && is_link_local(schema@, #[trigger] eps@[i]),
{
    let mut i: usize = 0;
    while i < eps.len()
        invariant
            i <= eps@.len(),
            forall|j: int| 0 <= j < i ==> !is_link_local(schema@, #[trigger] eps@[j]),
        decreases eps@.len() - i,
    {
        if link_local_of(schema, eps[i]) {
            return true;
        }
        i = i + 1;
    }
    false
}

impl Router {
    /// What holds of every router.
    pub open spec fn wf(self) -> bool {
        &&& self.sides@.len() <= MAX_SIDES
        &&& self.recent.wf()
        &&& self.rx.wf()
        &&& self.tx.wf()
        &&& forall|k: u128| #[trigger] self.sent@.contains_key(k) ==> self.flows@.contains(k)
        &&& forall|k: u128| #[trigger] self.held@.contains_key(k) ==> self.flows@.contains(k)
    }

    /// Whether a link is there.
    pub open spec fn has_side(self, side: usize) -> bool {
        side < self.sides@.len() && self.sides@[side as int].alive
    }

    /// The endpoints of a packet that are not served here.
    pub open spec fn remote(self, p: PacketSpec) -> Seq<DataEndpoint> {
        if jobs::for_me(p, self.sender@) {
            jobs::strangers(self.handlers@, p.endpoints)
        } else {
            p.endpoints
        }
    }

    /// What routing needs to know of a packet.
    pub open spec fn query(
        self,
        sc: schema::SchemaSpec,
        p: PacketSpec,
        from: Option<usize>,
        now: u64,
    ) -> RouteQuery {
        let away = self.remote(p);
        RouteQuery {
            source: from,
            ty: p.ty,
            link_local: exists|i: int| 0 <= i < away.len() && is_link_local(sc, #[trigger] away[i]),
            reliable: is_reliable(sc, p.ty),
            heard: presence::anyone(self.presence@, now),
            default_mode: if from is None {
                RouteSelectionMode::Balanced
            } else {
                RouteSelectionMode::Fanout
            },
        }
    }

    /// How many endpoints of a packet each link leads to.
    pub open spec fn overlaps(self, p: PacketSpec, now: u64) -> Seq<usize> {
        Seq::new(
            self.sides@.len(),
            |i: int|
                presence::overlap(self.presence@, i as usize, self.remote(p), now) as usize,
        )
    }

    /// The links that a packet takes.
    pub open spec fn chosen(
        self,
        sc: schema::SchemaSpec,
        p: PacketSpec,
        from: Option<usize>,
        now: u64,
    ) -> Seq<usize> {
        if self.remote(p).len() == 0 {
            Seq::empty()
        } else {
            self.policy@.chosen(
                jobs::facts(self.sides@),
                self.overlaps(p, now),
                self.query(sc, p, from, now),
            )
        }
    }

    /// The rules after a packet took its links.
    pub open spec fn policy_after(
        self,
        sc: schema::SchemaSpec,
        p: PacketSpec,
        from: Option<usize>,
        now: u64,
    ) -> routes::PolicySpec {
        if self.remote(p).len() == 0 {
            self.policy@
        } else {
            self.policy@.after_choice(
                jobs::facts(self.sides@),
                self.overlaps(p, now),
                self.query(sc, p, from, now),
            )
        }
    }

    /// What is to be done with a packet that came over a link, or is of this board.
    pub open spec fn jobs_for(
        self,
        sc: schema::SchemaSpec,
        p: PacketSpec,
        frame: Option<Seq<u8>>,
        from: Option<usize>,
        now: u64,
        quiet: bool,
    ) -> Seq<JobSpec> {
        (if jobs::for_me(p, self.sender@) {
            jobs::handler_jobs(self.handlers@, p, frame, quiet)
        } else {
            Seq::empty()
        }) + jobs::side_jobs(self.chosen(sc, p, from, now), p, quiet)
    }

    /// What delivering a packet does to a router.
    pub open spec fn delivered(
        self,
        after: Router,
        sc: schema::SchemaSpec,
        p: PacketSpec,
        frame: Option<Seq<u8>>,
        from: Option<usize>,
        now: u64,
        quiet: bool,
    ) -> bool {
        &&& jobs::jobs(after.agenda@) == jobs::jobs(self.agenda@) + self.jobs_for(
            sc,
            p,
            frame,
            from,
            now,
            quiet,
        )
        &&& after.policy@ == self.policy_after(sc, p, from, now)
        &&& after == Router { agenda: after.agenda, policy: after.policy, ..self }
    }

    /// Whether a job goes over a link that numbers its frames, and has no number yet.
    pub open spec fn goes_reliably(self, sc: schema::SchemaSpec, j: JobSpec) -> bool {
        &&& j.frame is None
        &&& j.packet matches Some(p) && is_sure(sc, p)
        &&& j.target matches Target::Side(s) && s < self.sides@.len()
            && self.sides@[s as int].packed && self.sides@[s as int].reliable
    }

    /// Whether a job asks for a frame.
    pub open spec fn asks_frame(self, j: JobSpec) -> bool {
        match j.target {
            Target::Side(s) => s < self.sides@.len() && self.sides@[s as int].packed,
            Target::Handler(h) => h < self.handlers@.len() && self.handlers@[h as int].packed,
        }
    }

    /// A job with the frame that it asks for.
    pub open spec fn prepared(self, sc: schema::SchemaSpec, j: JobSpec) -> JobSpec {
        match (j.packet, j.frame) {
            (Some(p), None) => if self.goes_reliably(sc, j) {
                let key = flow_key(j.target->Side_0, p.ty);
                JobSpec {
                    frame: Some(
                        wire_format::frame(
                            sc,
                            p,
                            Some(flow_header(sc, p.ty, flow(self.sent@, key).next)),
                        ),
                    ),
                    ..j
                }
            } else if self.asks_frame(j) {
                JobSpec { frame: Some(wire_format::frame(sc, p, None)), ..j }
            } else {
                j
            },
            _ => j,
        }
    }

    /// A router without links or handlers.
    pub fn new(relay: bool, sender: &str) -> (r: Router)
        ensures
            r.wf(),
            r.relay == relay,
            r.sender@ == sender@,
            r.identity == Identity::named(sender@),
            r.handlers@ == Seq::<Handler>::empty(),
            r.sides@ == Seq::<Side>::empty(),
            r.policy@ == routes::PolicySpec::none(),
            r.presence@ == Seq::<presence::AnnouncerSpec>::empty(),
            r.recent@ == Seq::<u64>::empty(),
            r.recent.bound() == RECENT_RX_QUEUE_BYTES / 8,
            r.rx@.len() == 0,
            r.tx@.len() == 0,
            r.sent@ == Map::<u128, TxSpec>::empty(),
            r.held@ == Map::<u128, RxSpec>::empty(),
            r.flows@ == Seq::<u128>::empty(),
            r.agenda@ == Seq::<Job>::empty(),
            r.failure is None,
            r.e2e_mode == RouterE2eEncryptionMode::Preferred,
            !r.can_lock,
            r.e2e_key == 0,
            r.next_announce == 0,
            r.interval == discovery::DISCOVERY_FAST_INTERVAL_MS,
            r.news == 0,
            !r.tells_time,
    {
        Router {
            relay,
            sender: sender.to_owned(),
            identity: Identity::of_name(sender),
            handlers: Vec::new(),
            sides: Vec::new(),
            policy: RoutePolicy::new(),
            presence: Presence::new(),
            recent: RecentIds::new(RECENT_RX_QUEUE_BYTES / 8),
            rx: WorkQueue::new(),
            tx: WorkQueue::new(),
            sent: Assoc::new(),
            held: Assoc::new(),
            flows: Vec::new(),
            agenda: Vec::new(),
            failure: None,
            e2e_mode: RouterE2eEncryptionMode::Preferred,
            can_lock: false,
            e2e_key: 0,
            next_announce: 0,
            interval: discovery::DISCOVERY_FAST_INTERVAL_MS,
            news: 0,
            tells_time: false,
        }
    }

    fn overlaps_of(&self, away: &Vec<DataEndpoint>, now: u64) -> (r: Vec<usize>)
        requires
            self.sides@.len() <= MAX_SIDES,
        ensures
            r@ == Seq::new(
                self.sides@.len(),
                |i: int|
                    presence::overlap(self.presence@, i as usize, away@, now) as usize,
            ),
    {
        let mut r: Vec<usize> = Vec::new();
        let mut i: usize = 0;
        while i < self.sides.len()
            invariant
                i <= self.sides@.len() <= MAX_SIDES,
                r@.len() == i,
                forall|j: int|
                    0 <= j < i ==> #[trigger] r@[j] == presence::overlap(
                        self.presence@,
                        j as usize,
                        away@,
                        now,
                    ) as usize,
            decreases self.sides@.len() - i,
        {
            r.push(self.presence.overlap_of(i, away.as_slice(), now));
            i = i + 1;
        }
        r
    }

    /// Decides what is to be done with a packet and puts it on the agenda.
    pub fn deliver(
        &mut self,
        schema: &Schema,
        p: &Packet,
        frame: Option<Vec<u8>>,
        from: Option<usize>,
        now: u64,
        quiet: bool,
    )
        requires
            old(self).wf(),
            routes::fair_source(from),
        ensures
            final(self).wf(),
            old(self).delivered(
                *final(self),
                schema@,
                p@,
                jobs::frame_in(frame),
                from,
                now,
                quiet,
            ),
    {
        let mine: bool = is_for_me(p, self.sender.as_str());
        let away: Vec<DataEndpoint> = if mine {
            part_endpoints(&self.handlers, p.endpoints()).1
        } else {
            let v: Vec<DataEndpoint> = codec::copy_u32(p.endpoints());
            v
        };
        assert(away@ =~= self.remote(p@));
        if mine {
            push_handler_jobs(&mut self.agenda, &self.handlers, p, &frame, quiet);
        }
        let ghost with_locals = jobs::jobs(self.agenda@);
        if away.len() > 0 {
            let q = RouteQuery {
                source: from,
                ty: p.data_type(),
                link_local: any_link_local(schema, &away),
                reliable: reliable_of(schema, p.data_type()),
                heard: self.presence.hears_anyone(now),
                default_mode: if from.is_none() {
                    RouteSelectionMode::Balanced
                } else {
                    RouteSelectionMode::Fanout
                },
            };
            let overlaps: Vec<usize> = self.overlaps_of(&away, now);
            let facts: Vec<SideFacts> = facts_of(&self.sides);
            assert(q == old(self).query(schema@, p@, from, now));
            assert(overlaps@ =~= old(self).overlaps(p@, now));
            let chosen: Vec<usize> = self.policy.choose_sides(
                facts.as_slice(),
                overlaps.as_slice(),
                q,
            );
            push_side_jobs(&mut self.agenda, &chosen, p, quiet);
        } else {
            assert(jobs::side_jobs(Seq::<usize>::empty(), p@, quiet) =~= Seq::<JobSpec>::empty());
        }
        proof {
            let first = if mine {
                jobs::handler_jobs(old(self).handlers@, p@, jobs::frame_in(frame), quiet)
            } else {
                Seq::empty()
            };
            let second = jobs::side_jobs(old(self).chosen(schema@, p@, from, now), p@, quiet);
            assert(with_locals =~= jobs::jobs(old(self).agenda@) + first);
            assert(jobs::jobs(self.agenda@) =~= with_locals + second);
            vstd::seq_lib::lemma_concat_associative(jobs::jobs(old(self).agenda@), first, second);
        }
    }

    /// Whether there is nothing to be done.
    pub fn is_idle(&self) -> (b: bool)
        ensures
            b == (self.agenda@.len() == 0),
    {
        self.agenda.len() == 0
    }

    fn number_job(&mut self, schema: &Schema, j: &mut Job, now: u64)
        requires
            old(self).wf(),
            old(self).goes_reliably(schema@, old(j)@),
        ensures
            final(self).wf(),
            final(j)@ == old(self).prepared(schema@, old(j)@),
            ({
                let key = flow_key(old(j)@.target->Side_0, old(j)@.packet->0.ty);
                &&& final(self).sent@ == old(self).sent@.insert(
                    key,
                    flow(old(self).sent@, key).recorded(final(j)@.frame->0, now),
                )
                &&& final(self).flows@ == (if old(self).sent@.contains_key(key) {
                    old(self).flows@
                } else {
                    old(self).flows@.push(key)
                })
            }),
            *final(self) == (Router {
                sent: final(self).sent,
                flows: final(self).flows,
                ..*old(self)
            }),
    {
        let side: usize = match j.target {
            Target::Side(s) => s,
            Target::Handler(h) => h,
        };
        match &j.packet {
            Some(p) => {
                let key: u128 = key_of_flow(side, p.data_type());
                let ghost before = self.sent@;
                let mut link: ReliableTx = match self.sent.remove(key) {
                    Some(l) => l,
                    None => {
                        self.flows.push(key);
                        ReliableTx::new()
                    },
                };
                assert(link@ == flow(before, key)) by {
                    if !before.contains_key(key) {
                        assert(link@.sent =~= Seq::empty());
                    }
                }
                let h = ReliableHeader {
                    flags: if unordered_of(schema, p.data_type()) {
                        RELIABLE_FLAG_UNSEQUENCED
                    } else {
                        0
                    },
                    seq: link.next_seq(),
                    ack: 0,
                };
                let f: Vec<u8> = wire_format::pack_packet_with_reliable(schema, p, h);
                let kept: Vec<u8> = codec::copy_range(f.as_slice(), 0, f.len());
                assert(kept@ =~= f@);
                link.record(kept, now);
                self.sent.put(key, link);
                assert(self.sent@ =~= before.insert(key, link@));
                j.frame = Some(f);
                proof {
                    let old_flows = old(self).flows@;
                    assert forall|k: u128| #[trigger] self.sent@.contains_key(k) implies
                        self.flows@.contains(k) by {
                        if k == key && !before.contains_key(key) {
                            assert(self.flows@[old_flows.len() as int] == key);
                        } else {
                            assert(before.contains_key(k));
                            let i = choose|i: int| 0 <= i < old_flows.len() && old_flows[i] == k;
                            assert(self.flows@[i] == k);
                        }
                    }
                    assert forall|k: u128| #[trigger] self.held@.contains_key(k) implies
                        self.flows@.contains(k) by {
                        let i = choose|i: int| 0 <= i < old_flows.len() && old_flows[i] == k;
                        assert(self.flows@[i] == k);
                    }
                }
            },
            None => {},
        }
    }

    /// Whether jobs rest until somebody was told of a failure: that is so on a relay.
    pub open spec fn rests(self) -> bool {
        self.relay && self.failure is Some
    }

    /// What taking the next job does, and the job as it is to be done.
    pub open spec fn job_taken(
        self,
        after: Router,
        sc: schema::SchemaSpec,
        taken: JobSpec,
        now: u64,
    ) -> bool {
        let j = self.agenda@[0]@;
        &&& self.agenda@.len() > 0
        &&& taken == self.prepared(sc, j)
        &&& after.agenda@ == self.agenda@.skip(1)
        &&& if self.goes_reliably(sc, j) {
            let key = flow_key(j.target->Side_0, j.packet->0.ty);
            &&& after.sent@ == self.sent@.insert(
                key,
                flow(self.sent@, key).recorded(taken.frame->0, now),
            )
            &&& after.flows@ == (if self.sent@.contains_key(key) {
                self.flows@
            } else {
                self.flows@.push(key)
            })
            &&& after == Router {
                sent: after.sent,
                flows: after.flows,
                agenda: after.agenda,
                ..self
            }
        } else {
            after == Router { agenda: after.agenda, ..self }
        }
    }

    /// Takes the next job from the agenda, with the frame that it asks for. A frame that goes
    /// over a reliable link for the first time gets its number here. On a relay jobs rest while there
    /// is a failure that nobody was told of.
    pub fn next_job(&mut self, schema: &Schema, now: u64) -> (r: Option<Job>)
        requires
            old(self).wf(),
        ensures
            final(self).wf(),
            old(self).agenda@.len() == 0 || old(self).rests() ==> r is None && *final(self)
                == *old(self),
            old(self).agenda@.len() > 0 && !old(self).rests() ==> (r matches Some(x) && old(
                self,
            ).job_taken(*final(self), schema@, x@, now)),
    {
        if self.agenda.len() == 0 || (self.relay && self.failure.is_some()) {
            return None;
        }
        let mut j: Job = self.agenda.remove(0);
        assert(self.agenda@ =~= old(self).agenda@.skip(1));
        let packed: bool = match j.target {
            Target::Side(s) => s < self.sides.len() && self.sides[s].packed,
            Target::Handler(h) => h < self.handlers.len() && self.handlers[h].packed,
        };
        let numbered: bool = match j.target {
            Target::Side(s) => packed && self.sides[s].reliable,
            Target::Handler(_) => false,
        };
        if j.frame.is_some() || j.packet.is_none() {
            return Some(j);
        }
        let sure: bool = match &j.packet {
            Some(p) => is_sure_packet(schema, p),
            None => false,
        };
        if numbered && sure {
            self.number_job(schema, &mut j, now);
        } else if packed {
            match &j.packet {
                Some(p) => {
                    j.frame = Some(wire_format::pack_packet(schema, p));
                },
                None => {},
            }
        }
        Some(j)
    }

    /// Whom the failure of a job is reported to.
    pub open spec fn report_endpoints(self, j: JobSpec) -> Seq<DataEndpoint> {
        match j.packet {
            None => Seq::empty(),
            Some(p) => if j.quiet {
                Seq::empty()
            } else {
                let here = jobs::locals(self.handlers@, p.endpoints);
                match j.target {
                    Target::Side(_) => here,
                    Target::Handler(h) => {
                        let rest = here.filter(
                            |e: DataEndpoint| e != self.handlers@[h as int].endpoint,
                        );
                        if rest.len() == 0 {
                            seq![EP_TELEMETRY_ERROR]
                        } else {
                            rest
                        }
                    },
                }
            },
        }
    }

    /// What is reported of a job that failed.
    pub open spec fn report_text(
        self,
        sc: schema::SchemaSpec,
        j: JobSpec,
        e: TelemetryError,
    ) -> Seq<char> {
        match j.target {
            Target::Side(_) => jobs::side_failure_text(self.sender@, jobs::error_text(e)),
            Target::Handler(h) => jobs::handler_failure_text(
                sc,
                self.handlers@[h as int].endpoint,
                self.sender@,
                jobs::error_text(e),
            ),
        }
    }

    /// What the report of a job that failed for good does.
    pub open spec fn reported(
        self,
        after: Router,
        reg: Registry,
        reg_after: Registry,
        j: JobSpec,
        e: TelemetryError,
        now: u64,
    ) -> bool {
        let to = self.report_endpoints(j);
        if to.len() == 0 {
            after == self && reg_after == reg
        } else {
            exists|r: TelemetryResult<Packet>|
                {
                    &&& #[trigger] packet::packet_made(
                        reg,
                        reg_after,
                        TY_TELEMETRY_ERROR,
                        to,
                        self.sender@,
                        now,
                        vstd::utf8::encode_utf8(self.report_text(reg.schema@, j, e)),
                        r,
                    )
                    &&& match r {
                        Ok(p) => self.delivered(after, reg.schema@, p@, None, None, now, true),
                        Err(_) => after == self,
                    }
                }
        }
    }

    /// Whether a job that failed is not tried again: it has failed three times, or a link of a relay
    /// failed.
    pub open spec fn gives_up(self, j: JobSpec) -> bool {
        j.tries + 1 >= MAX_HANDLER_RETRIES || self.passes_on(j)
    }

    /// Whether a failure of a job comes out as it is: that of a link of a relay.
    pub open spec fn passes_on(self, j: JobSpec) -> bool {
        self.relay && j.target is Side
    }

    /// What the outcome of a job does: a job that failed is tried again at once, until it has
    /// failed three times; then the failure is remembered and reported. A link of a relay is not
    /// tried again, and its failure is remembered as it is.
    pub open spec fn finished(
        self,
        after: Router,
        reg: Registry,
        reg_after: Registry,
        j: JobSpec,
        result: TelemetryResult<()>,
        now: u64,
    ) -> bool {
        match result {
            Ok(_) => after == self && reg_after == reg,
            Err(e) => if self.passes_on(j) {
                &&& reg_after == reg
                &&& after == Router { failure: Some(e), ..self }
            } else if !self.gives_up(j) {
                &&& reg_after == reg
                &&& jobs::jobs(after.agenda@) == seq![
                    JobSpec { tries: (j.tries + 1) as u8, ..j },
                ] + jobs::jobs(self.agenda@)
                &&& after == Router { agenda: after.agenda, ..self }
            } else {
                &&& after.failure matches Some(TelemetryError::HandlerError(m)) && m@
                    == "handler failed"@
                &&& Router { failure: after.failure, ..self }.reported(
                    after,
                    reg,
                    reg_after,
                    j,
                    e,
                    now,
                )
            },
        }
    }

    fn report_targets(&self, j: &Job) -> (v: Vec<DataEndpoint>)
        requires
            j.target matches Target::Handler(h) ==> h < self.handlers@.len(),
        ensures
            v@ == self.report_endpoints(j@),
    {
        match &j.packet {
            None => Vec::new(),
            Some(p) => {
                if j.quiet {
                    return Vec::new();
                }
                let here: Vec<DataEndpoint> = part_endpoints(&self.handlers, p.endpoints()).0;
                match j.target {
                    Target::Side(_) => here,
                    Target::Handler(h) => {
                        let own: DataEndpoint = self.handlers[h].endpoint;
                        let mut v: Vec<DataEndpoint> = all_but(&here, own);
                        assert(here@.filter(
                            |e: DataEndpoint| e != self.handlers@[h as int].endpoint,
                        ) == here@.filter(|e: DataEndpoint| e != own)) by {
                            assert((|e: DataEndpoint| e != self.handlers@[h as int].endpoint)
                                =~= (|e: DataEndpoint| e != own));
                        }
                        if v.len() == 0 {
                            v.push(EP_TELEMETRY_ERROR);
                            assert(v@ =~= seq![EP_TELEMETRY_ERROR]);
                        }
                        v
                    },
                }
            },
        }
    }

    fn report(&mut self, reg: &mut Registry, j: &Job, e: &TelemetryError, now: u64)
        requires
            old(self).wf(),
            j.target matches Target::Handler(h) ==> h < old(self).handlers@.len(),
        ensures
            final(self).wf(),
            old(self).reported(*final(self), *old(reg), *final(reg), j@, *e, now),
    {
        let to: Vec<DataEndpoint> = self.report_targets(j);
        if to.len() == 0 {
            return;
        }
        let text: String = match j.target {
            Target::Side(_) => side_failure_string(self.sender.as_str(), e),
            Target::Handler(h) => handler_failure_string(
                &reg.schema,
                self.handlers[h].endpoint,
                self.sender.as_str(),
                e,
            ),
        };
        assert(text@ == self.report_text(reg.schema@, j@, *e));
        let mut payload: Vec<u8> = Vec::new();
        codec::write_bytes(&mut payload, text.as_str().as_bytes());
        assert(payload@ =~= vstd::utf8::encode_utf8(text@));
        let made: TelemetryResult<Packet> = Packet::new(
            reg,
            TY_TELEMETRY_ERROR,
            to.as_slice(),
            self.sender.as_str(),
            now,
            payload,
        );
        let ghost kept = made;
        assert(packet::packet_made(
            *old(reg),
            *reg,
            TY_TELEMETRY_ERROR,
            self.report_endpoints(j@),
            self.sender@,
            now,
            vstd::utf8::encode_utf8(self.report_text(old(reg).schema@, j@, *e)),
            kept,
        ));
        match &made {
            Ok(p) => {
                self.deliver(&reg.schema, p, None, None, now, true);
                assert(old(self).delivered(*self, old(reg).schema@, p@, None, None, now, true));
            },
            Err(_) => {},
        }
    }

    /// Takes note of how a job went.
    pub fn finish_job(
        &mut self,
        reg: &mut Registry,
        j: Job,
        result: TelemetryResult<()>,
        now: u64,
    )
        requires
            old(self).wf(),
            j.target matches Target::Handler(h) ==> h < old(self).handlers@.len(),
        ensures
            final(self).wf(),
            old(self).finished(*final(self), *old(reg), *final(reg), j@, result, now),
    {
        match result {
            Ok(_) => {},
            Err(e) => {
                let of_link: bool = match j.target {
                    Target::Side(_) => true,
                    Target::Handler(_) => false,
                };
                if self.relay && of_link {
                    self.failure = Some(e);
                } else if j.tries < MAX_HANDLER_RETRIES - 1 {
                    let ghost jv = j@;
                    let again = Job {
                        target: j.target,
                        packet: j.packet,
                        frame: j.frame,
                        tries: j.tries + 1,
                        quiet: j.quiet,
                    };
                    let ghost before = self.agenda@;
                    self.agenda.insert(0, again);
                    assert(jobs::jobs(self.agenda@) =~= seq![again@] + jobs::jobs(before));
                } else {
                    self.failure = Some(TelemetryError::HandlerError("handler failed"));
                    self.report(reg, &j, &e, now);
                }
            },
        }
    }

    /// Says how a job has failed for good since this was last asked, if one has.
    pub fn take_failure(&mut self) -> (r: TelemetryResult<()>)
        ensures
            *final(self) == (Router { failure: None, ..*old(self) }),
            match old(self).failure {
                Some(e) => r == Err::<(), TelemetryError>(e),
                None => r is Ok,
            },
    {
        match self.failure.take() {
            Some(e) => Err(e),
            None => Ok(()),
        }
    }
}

fn all_but(list: &Vec<DataEndpoint>, own: DataEndpoint) -> (v: Vec<DataEndpoint>)
    ensures
        v@ == list@.filter(|e: DataEndpoint| e != own),
{
    let ghost pred = |e: DataEndpoint| e != own;
    let mut v: Vec<DataEndpoint> = Vec::new();
    let mut i: usize = 0;
    proof {
        reveal(Seq::filter);
        assert(list@.take(0).filter(pred) =~= Seq::<DataEndpoint>::empty());
    }
    while i < list.len()
        invariant
            i <= list@.len(),
            pred == (|e: DataEndpoint| e != own),
            v@ == list@.take(i as int).filter(pred),
        decreases list@.len() - i,
    {
        proof {
            assert(list@.take(i + 1) =~= list@.take(i as int).push(list@[i as int]));
            list@.take(i as int).lemma_filter_push(list@[i as int], pred);
        }
        if list[i] != own {
            v.push(list[i]);
        }
        i = i + 1;
    }
    assert(list@.take(i as int) =~= list@);
    v
}

} // verus!
