//! A board: a router, what it knows of its links and of other boards, and what it does with the
//! messages that boards send one another for their own sake.
use vstd::prelude::*;
use crate::address::{Directory, PeerSpec};
use crate::capacity::LinkRate;
use crate::chunks;
use crate::common;
use crate::error::{TelemetryError, TelemetryResult};
use crate::exchange::Delivery;
use crate::hash;
use crate::jobs::{Job, JobSpec, Target, MAX_HANDLER_RETRIES};
use crate::ledger;
use crate::ledger::{EntrySpec, Ledger, ReturnRoutes};
use crate::meta::DataType;
use crate::p2p::{Stream, Streams};
use crate::packet;
use crate::packet::{Packet, PacketSpec};
use crate::presence;
use crate::registry::Registry;
use crate::router::Router;
use crate::schema;
use crate::stats;
use crate::stats::{FailureCounters, LinkEvent, SideStats};
use crate::timekeeper;
use crate::timekeeper::{TimeSyncConfig, TimeSyncRole, TimeSyncTracker};
use crate::transport::{Link, LinkCounters, LinkOptions};
use crate::variables::{VariableSpec, Variables};
use crate::wire_format;

verus! {

/// What a board knows of a link.
pub struct Wire {
    pub link: Link,
    pub stats: SideStats,
    pub rate: LinkRate,
}

impl Wire {
    pub fn new(options: LinkOptions) -> (r: Wire)
        ensures
            r.is_fresh(options),
    {
        Wire { link: Link::new(options), stats: SideStats::new(), rate: LinkRate::new() }
    }

    /// Whether nothing went over the link yet.
    pub open spec fn is_fresh(self, options: LinkOptions) -> bool {
        &&& self.link.options == options
        &&& self.link.tx@.len() == 0
        &&& self.link.rx@.len() == 0
        &&& self.link.waiting@.len() == 0
        &&& self.link.cuts == 0
        &&& self.link.limit == usize::MAX
        &&& self.link.news == 0
        &&& self.link.counters == LinkCounters::none()
        &&& self.stats.totals == stats::Totals::zero()
        &&& self.stats.types@.len() == 0
        &&& self.rate == LinkRate::unknown()
    }

    /// What counting something that happens on the link does.
    pub open spec fn counted(self, after: Wire, ty: DataType, e: LinkEvent) -> bool {
        &&& after.stats.totals == self.stats.totals.after(e)
        &&& after.stats.types@ == stats::noted(self.stats.types@, ty, e)
        &&& after == Wire { stats: after.stats, ..self }
    }

    /// What a packet that comes over the link does.
    pub open spec fn came(self, after: Wire, p: PacketSpec, size: usize) -> bool {
        Wire { link: Link { limit: self.link.limit_after(p), ..self.link }, ..self }.counted(
            after,
            p.ty,
            LinkEvent::Came(size),
        )
    }

    /// Counts a packet that comes over the link, and takes from it what the other end says of
    /// itself.
    pub fn take(&mut self, p: &Packet, size: usize)
        ensures
            old(self).came(*final(self), p@, size),
    {
        self.link.note(p);
        self.stats.note(p.data_type(), LinkEvent::Came(size));
    }

    /// What bytes that come over the link do to its ends.
    pub open spec fn decoded(self, after: Wire, bytes: Seq<u8>) -> bool {
        &&& after.link.rx@ == self.link.heard(bytes)
        &&& after.link.waiting@ == self.link.gathered(bytes).0
        &&& after.link.counters == self.link.counters_after(bytes)
        &&& after.link == Link {
            rx: after.link.rx,
            waiting: after.link.waiting,
            counters: after.link.counters,
            ..self.link
        }
        &&& after == Wire { link: after.link, ..self }
    }

    /// What a frame that comes over the link does.
    pub open spec fn framed(self, after: Wire, reg: Registry, f: Seq<u8>) -> bool {
        match wire_format::parse(reg.schema@, reg.known_names(), f) {
            Ok((p, _)) => Wire {
                link: Link { limit: self.link.limit_after(p), ..self.link },
                ..self
            }.counted(after, p.ty, LinkEvent::CameFramed(f.len() as usize)),
            Err(_) => match common::frame_type(reg.schema@, f) {
                Some(ty) => self.counted(after, ty, LinkEvent::CameFramed(f.len() as usize)),
                None => after == self,
            },
        }
    }

    /// Counts a frame that comes over the link.
    pub fn take_frame(&mut self, reg: &Registry, f: &[u8])
        ensures
            old(self).framed(*final(self), *reg, f@),
    {
        if let Ok(p) = wire_format::unpack_packet(reg, f) {
            self.link.note(&p);
            self.stats.note(p.data_type(), LinkEvent::CameFramed(f.len()));
        } else if let Some(ty) = common::packed_frame_type(reg, f) {
            self.stats.note(ty, LinkEvent::CameFramed(f.len()));
        }
    }

    /// What the attempt to send something counts as.
    pub open spec fn outcome(ok: bool, last: bool, size: usize, relayed: bool) -> LinkEvent {
        if ok {
            LinkEvent::Went { size, relayed }
        } else {
            LinkEvent::Stuck { last }
        }
    }
}

/// A board.
pub struct Station {
    pub core: Router,
    pub wires: Vec<Wire>,
    /// Boards whose addresses are known.
    pub directory: Directory,
    pub streams: Streams,
    /// Ports on which the program takes streams.
    pub stream_ports: Vec<u16>,
    /// How the board takes part in telling the time, if it does.
    pub time: Option<TimeSyncTracker>,
    pub variables: Variables,
    /// Packets that went out, with the boards that did not say that they have them.
    pub pending: Ledger,
    /// Packets of which boards said that they have them.
    pub acked: Ledger,
    /// Where packets came from.
    pub returns: ReturnRoutes,
    /// Packets are followed to the boards that they are for.
    pub reliable: bool,
    /// Handlers and links that failed for good.
    pub failures: FailureCounters,
    /// What came for the program and was not handed to it yet.
    pub told: Vec<Delivery>,
}

impl Station {
    /// Something is known of each link, and the router is sound.
    pub open spec fn wf(self) -> bool {
        &&& self.core.wf()
        &&& self.wires@.len() == self.core.sides@.len()
        &&& self.directory.wf()
        &&& self.streams@.wf()
    }

    /// A board that knows nothing of others.
    pub fn new(core: Router, time: Option<TimeSyncConfig>, reliable: bool) -> (r: Station)
        requires
            core.wf(),
            core.sides@.len() == 0,
        ensures
            r.wf(),
            r.core == (Router {
                tells_time: time matches Some(t) && t.role == TimeSyncRole::Source,
                ..core
            }),
            r.wires@ == Seq::<Wire>::empty(),
            r.directory@ == Seq::<PeerSpec>::empty(),
            r.streams@.items == Seq::<Stream>::empty(),
            r.stream_ports@ == Seq::<u16>::empty(),
            match time {
                Some(c) => r.time matches Some(t) && t.config == c && timekeeper::sources(
                    t.sources@,
                ).len() == 0 && t.next_announce == 0 && t.next_request == 0 && t.seq == 0 && t.pending is None
                    && t.sample is None,
                None => r.time is None,
            },
            r.variables@ == Map::<DataType, VariableSpec>::empty(),
            r.pending@ == Seq::<EntrySpec>::empty(),
            r.acked@ == Seq::<EntrySpec>::empty(),
            r.returns.items@ == Seq::<(u64, usize)>::empty(),
            r.reliable == reliable,
            r.failures == FailureCounters::zero(),
            r.told@ == Seq::<Delivery>::empty(),
    {
        let mut core: Router = core;
        core.tells_time = match time {
            Some(t) => t.role == TimeSyncRole::Source,
            None => false,
        };
        Station {
            core,
            wires: Vec::new(),
            directory: Directory::new(),
            streams: Streams::new(),
            stream_ports: Vec::new(),
            time: match time {
                Some(c) => Some(TimeSyncTracker::new(c)),
                None => None,
            },
            variables: Variables::new(),
            pending: Ledger::new(),
            acked: Ledger::new(),
            returns: ReturnRoutes::new(),
            reliable,
            failures: FailureCounters::new(),
            told: Vec::new(),
        }
    }

    /// What the change of one link does.
    pub open spec fn with_wire(self, after: Station, side: usize) -> bool {
        &&& after.wires@.len() == self.wires@.len()
        &&& forall|i: int|
            0 <= i < self.wires@.len() && i != side ==> after.wires@[i] == self.wires@[i]
        &&& after == Station { wires: after.wires, ..self }
    }

    /// What adding a link does.
    pub open spec fn joined(
        self,
        after: Station,
        name: Seq<char>,
        packed: bool,
        options: LinkOptions,
        link_local: bool,
        r: TelemetryResult<usize>,
    ) -> bool {
        &&& self.core.side_added(after.core, name, packed, options, link_local, r)
        &&& match r {
            Ok(side) => {
                let w = after.wires@[side as int];
                &&& w.is_fresh(options)
                &&& after.wires@ == (if side < self.wires@.len() {
                    self.wires@.update(side as int, w)
                } else {
                    self.wires@.push(w)
                })
                &&& after == Station { core: after.core, wires: after.wires, ..self }
            },
            Err(_) => after == self,
        }
    }

    /// Adds a link.
    pub fn add_side(
        &mut self,
        name: &str,
        packed: bool,
        options: LinkOptions,
        link_local: bool,
    ) -> (r: TelemetryResult<usize>)
        requires
            old(self).wf(),
        ensures
            final(self).wf(),
            old(self).joined(*final(self), name@, packed, options, link_local, r),
    {
        let r: TelemetryResult<usize> = self.core.add_side(name, packed, options, link_local);
        if let Ok(side) = r {
            if side < self.wires.len() {
                self.wires.set(side, Wire::new(options));
            } else {
                self.wires.push(Wire::new(options));
            }
        }
        r
    }

    /// What it does that bytes come over a link.
    pub open spec fn arrived(
        self,
        after: Station,
        reg: Registry,
        bytes: Seq<u8>,
        from: Option<usize>,
        r: TelemetryResult<Option<Vec<u8>>>,
    ) -> bool {
        match (self.core.side_fault(from), from) {
            (Some(w), _) => {
                &&& r matches Err(TelemetryError::HandlerError(m)) && m@ == w
                &&& after == self
            },
            (None, None) => {
                &&& r matches Ok(Some(f)) && f@ == bytes
                &&& after == self
            },
            (None, Some(side)) => {
                let before = self.wires@[side as int];
                &&& self.with_wire(after, side)
                &&& match before.link.arrives(bytes) {
                    None => {
                        &&& r matches Ok(None)
                        &&& before.decoded(after.wires@[side as int], bytes)
                    },
                    Some(f) => {
                        &&& r matches Ok(Some(x)) && x@ == f
                        &&& exists|mid: Wire| #[trigger]
                            before.decoded(mid, bytes) && mid.framed(
                                after.wires@[side as int],
                                reg,
                                f,
                            )
                    },
                }
            },
        }
    }

    /// Takes bytes that come over a link, and gives the frame that is then complete.
    pub fn arrive(&mut self, reg: &Registry, bytes: &[u8], from: Option<usize>) -> (r:
        TelemetryResult<Option<Vec<u8>>>)
        requires
            old(self).wf(),
        ensures
            final(self).wf(),
            old(self).arrived(*final(self), *reg, bytes@, from, r),
    {
        if let Err(e) = self.core.check_side(from) {
            return Err(e);
        }
        match from {
            None => {
                let mut all: Vec<u8> = Vec::new();
                all.extend_from_slice(bytes);
                assert(all@ =~= bytes@);
                Ok(Some(all))
            },
            Some(side) => {
                let frame: Option<Vec<u8>> = self.wires[side].link.decode(bytes);
                let ghost mid = self.wires@[side as int];
                assert(old(self).wires@[side as int].decoded(mid, bytes@));
                if let Some(f) = &frame {
                    self.wires[side].take_frame(reg, f.as_slice());
                }
                Ok(frame)
            },
        }
    }

    /// Counts a frame that came over a link locked, once it is unlocked.
    pub fn count_opened(&mut self, reg: &Registry, f: &[u8], from: Option<usize>)
        requires
            old(self).wf(),
        ensures
            final(self).wf(),
            match from {
                Some(side) => if side < old(self).wires@.len() {
                    &&& old(self).with_wire(*final(self), side)
                    &&& old(self).wires@[side as int].framed(
                        final(self).wires@[side as int],
                        *reg,
                        f@,
                    )
                } else {
                    *final(self) == *old(self)
                },
                None => *final(self) == *old(self),
            },
    {
        if let Some(side) = from {
            if side < self.wires.len() {
                self.wires[side].take_frame(reg, f);
            }
        }
    }

    /// What the form of a frame for a link is made of.
    pub open spec fn shares(self, side: usize, now: u64) -> bool {
        presence::names(self.core.presence@, Some(side), now).len() > 1
    }

    /// Gives a frame the form in which it goes over a link.
    pub fn encode(&mut self, side: usize, frame: Vec<u8>, now: u64) -> (r: TelemetryResult<
        Vec<Vec<u8>>,
    >)
        requires
            old(self).wf(),
            side < old(self).wires@.len(),
        ensures
            final(self).wf(),
            old(self).with_wire(*final(self), side),
            ({
                let before = old(self).wires@[side as int];
                let after = final(self).wires@[side as int];
                let shared = old(self).shares(side, now);
                let form = before.link.form(frame@, shared, old(self).core.news);
                &&& before.link.sent(after.link, frame@, shared, old(self).core.news)
                &&& after == (Wire { link: after.link, ..before })
                &&& match r {
                    Ok(v) => chunks::can_split(form, before.link.options.max_frame)
                        && chunks::byte_lists(v@) == chunks::split_up(
                        form,
                        chunks::transfer_id(
                            hash::name_address(old(self).core.sender@),
                            before.link.cuts,
                        ),
                        before.link.options.max_frame,
                    ),
                    Err(e) => (e matches TelemetryError::PacketTooLarge(m) && m@
                        == "frame does not fit the link"@) && !chunks::can_split(
                        form,
                        before.link.options.max_frame,
                    ),
                }
            }),
    {
        let shared: bool = self.core.is_shared(side, now);
        let address: u32 = hash::sender_address_u32(self.core.sender.as_str());
        let news: u64 = self.core.news;
        self.wires[side].link.encode(frame, shared, news, address)
    }

    /// The type of what a job carries.
    pub open spec fn job_type(sc: schema::SchemaSpec, j: JobSpec) -> Option<DataType> {
        match (j.packet, j.frame) {
            (Some(p), _) => Some(p.ty),
            (None, Some(f)) => common::frame_type(sc, f),
            (None, None) => None,
        }
    }

    /// Bytes that a job puts on a link.
    pub open spec fn job_size(j: JobSpec) -> usize {
        match j.frame {
            Some(f) => f.len() as usize,
            None => 0,
        }
    }

    /// Bytes by which a link is measured.
    pub open spec fn job_weight(sc: schema::SchemaSpec, j: JobSpec) -> usize {
        match j.packet {
            Some(p) => wire_format::frame(sc, p, None).len() as usize,
            None => Self::job_size(j),
        }
    }

    /// Whether a job carries a packet of another board.
    pub open spec fn is_foreign(self, j: JobSpec) -> bool {
        j.packet matches Some(p) && hash::name_address(p.sender) != hash::name_address(
            self.core.sender@,
        )
    }

    /// What the outcome of a job for a link does to what is known of the link: it is counted, and
    /// where it took time the link is measured by it.
    pub open spec fn link_noted(
        self,
        after: Station,
        sc: schema::SchemaSpec,
        side: usize,
        j: JobSpec,
        ok: bool,
        started: u64,
        ended: u64,
    ) -> bool {
        match Self::job_type(sc, j) {
            Some(ty) => if side < self.wires@.len() {
                let before = self.wires@[side as int];
                let rate = if ok && ended > started {
                    before.rate.after(
                        Self::job_weight(sc, j),
                        (ended - started) as u64,
                        ended,
                    )
                } else {
                    before.rate
                };
                &&& self.with_wire(Station { core: self.core, ..after }, side)
                &&& Wire { rate, ..before }.counted(
                    after.wires@[side as int],
                    ty,
                    Wire::outcome(
                        ok,
                        self.core.gives_up(j),
                        Self::job_size(j),
                        self.is_foreign(j),
                    ),
                )
                &&& if ok && ended > started {
                    self.core.rated(after.core, side, rate.capacity)
                } else {
                    after.core == self.core
                }
            } else {
                after == self
            },
            None => after == self,
        }
    }

    /// What the outcome of a job for a handler does: a failure is counted on the link over which
    /// the packet came.
    pub open spec fn handler_noted(self, after: Station, j: JobSpec, ok: bool) -> bool {
        match (ok, j.packet) {
            (false, Some(p)) => match ledger::route_of(
                self.returns.items@,
                packet::packet_identity(p),
            ) {
                Some(side) => if side < self.wires@.len() {
                    &&& self.with_wire(after, side)
                    &&& self.wires@[side as int].counted(
                        after.wires@[side as int],
                        p.ty,
                        LinkEvent::NotTaken { last: self.core.gives_up(j) },
                    )
                } else {
                    after == self
                },
                None => after == self,
            },
            _ => after == self,
        }
    }

    /// What the outcome of a job does to what is counted.
    pub open spec fn job_noted(
        self,
        after: Station,
        sc: schema::SchemaSpec,
        j: JobSpec,
        ok: bool,
        started: u64,
        ended: u64,
    ) -> bool {
        let failures = if !ok && self.core.gives_up(j) {
            self.failures.after(j.tries + 1)
        } else {
            self.failures
        };
        let mid = Station { failures, ..self };
        match j.target {
            Target::Side(side) => mid.link_noted(after, sc, side, j, ok, started, ended),
            Target::Handler(_) => mid.handler_noted(after, j, ok),
        }
    }

    #[verifier::rlimit(60)]
    fn note_link(
        &mut self,
        reg: &Registry,
        side: usize,
        j: &Job,
        ok: bool,
        last: bool,
        started: u64,
        ended: u64,
    )
        requires
            old(self).wf(),
            last == old(self).core.gives_up(j@),
        ensures
            final(self).wf(),
            old(self).link_noted(*final(self), reg.schema@, side, j@, ok, started, ended),
    {
        if side >= self.wires.len() {
            return;
        }
        let size: usize = match &j.frame {
            Some(f) => f.len(),
            None => 0,
        };
        let ty: DataType = match &j.packet {
            Some(p) => p.data_type(),
            None => match &j.frame {
                Some(f) => match common::packed_frame_type(reg, f.as_slice()) {
                    Some(ty) => ty,
                    None => return,
                },
                None => return,
            },
        };
        let relayed: bool = match &j.packet {
            Some(p) => hash::sender_address_u32(p.sender()) != hash::sender_address_u32(
                self.core.sender.as_str(),
            ),
            None => false,
        };
        let event: LinkEvent = if ok {
            LinkEvent::Went { size, relayed }
        } else {
            LinkEvent::Stuck { last }
        };
        self.wires[side].stats.note(ty, event);
        if ok && ended > started {
            let weight: usize = match &j.packet {
                Some(p) => wire_format::packet_wire_size(&reg.schema, p),
                None => size,
            };
            self.wires[side].rate.observe(weight, ended - started, ended);
            let capacity: u64 = self.wires[side].rate.capacity;
            let _ = self.core.note_capacity(side, capacity);
        }
    }

    fn note_handler(&mut self, j: &Job, ok: bool, last: bool)
        requires
            old(self).wf(),
            last == old(self).core.gives_up(j@),
        ensures
            final(self).wf(),
            old(self).handler_noted(*final(self), j@, ok),
    {
        if ok {
            return;
        }
        if let Some(p) = &j.packet {
            if let Some(side) = self.returns.find(p.packet_id()) {
                if side < self.wires.len() {
                    self.wires[side].stats.note(p.data_type(), LinkEvent::NotTaken { last });
                }
            }
        }
    }

    /// Takes note of the outcome of a job.
    pub fn note_job(&mut self, reg: &Registry, j: &Job, ok: bool, started: u64, ended: u64)
        requires
            old(self).wf(),
        ensures
            final(self).wf(),
            old(self).job_noted(*final(self), reg.schema@, j@, ok, started, ended),
    {
        let of_link: bool = match j.target {
            Target::Side(_) => true,
            Target::Handler(_) => false,
        };
        let last: bool = j.tries >= MAX_HANDLER_RETRIES - 1 || (self.core.relay && of_link);
        if !ok && last {
            self.failures.note(j.tries as u64 + 1);
        }
        match j.target {
            Target::Side(side) => self.note_link(reg, side, j, ok, last, started, ended),
            Target::Handler(_) => self.note_handler(j, ok, last),
        }
    }

    /// A link was measured from outside.
    pub fn probe(&mut self, side: usize, bytes: usize, ms: u64, now: u64) -> (r: TelemetryResult<()>)
        requires
            old(self).wf(),
        ensures
            final(self).wf(),
            r is Ok <==> old(self).core.has_side(side),
            r matches Err(e) ==> (e matches TelemetryError::HandlerError(m) && m@
                == "invalid side id"@) && *final(self) == *old(self),
            ({
                let rate = old(self).wires@[side as int].rate.after(bytes, ms, now);
                &&& old(self).core.rated(final(self).core, side, rate.capacity)
                &&& old(self).core.has_side(side) ==> old(self).with_wire(
                    (Station { core: old(self).core, ..*final(self) }),
                    side,
                ) && final(self).wires@[side as int] == (Wire {
                    rate,
                    ..old(self).wires@[side as int]
                })
            }),
    {
        if side >= self.wires.len() || !self.core.sides[side].alive {
            return self.core.note_capacity(side, 0);
        }
        self.wires[side].rate.observe(bytes, ms, now);
        let capacity: u64 = self.wires[side].rate.capacity;
        self.core.note_capacity(side, capacity)
    }
}

} // verus!
