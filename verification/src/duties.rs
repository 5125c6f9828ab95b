//! What a board does for others: it follows their packets until they have arrived, keeps values,
//! and tells the time.
use vstd::prelude::*;
use crate::capacity;
use crate::definition;
use crate::discovery;
use crate::error::{TelemetryError, TelemetryResult};
use crate::jobs;
use crate::jobs::{JobSpec, Side, Target};
use crate::ledger;
use crate::ledger::{RELIABLE_MAX_END_TO_END_ACK_CACHE, RELIABLE_MAX_END_TO_END_PENDING};
use crate::meta::{
    DataType, EP_DISCOVERY, EP_TELEMETRY_ERROR, EP_TIMESYNC, FIRST_USER_TYPE,
    TY_DISCOVERY_ANNOUNCE, TY_DISCOVERY_SCHEMA, TY_MANAGED_VARIABLE_VALUE,
    TY_TIMESYNC_ANNOUNCE, TY_TIMESYNC_REQUEST, TY_TIMESYNC_RESPONSE,
};
use crate::packet;
use crate::packet::{Packet, PacketSpec};
use crate::presence;
use crate::registry::Registry;
use crate::router::Router;
use crate::schema::SchemaSnapshot;
use crate::station::Station;
use crate::timekeeper::{TimeAction, TimeSyncLeader, TimeSyncTracker};
use crate::timesync;
use crate::variables;
use crate::variables::{Permissions, VariableSpec};

verus! {

/// The jobs that take a packet over each of some links that are open.
pub open spec fn copies(core: Router, p: PacketSpec, sides: Seq<usize>) -> Seq<JobSpec>
    decreases sides.len(),
{
    if sides.len() == 0 {
        Seq::empty()
    } else {
        let rest = copies(core, p, sides.drop_last());
        let side = sides.last();
        if core.has_side(side) && core.sides@[side as int].egress {
            rest.push(
                JobSpec {
                    target: Target::Side(side),
                    packet: Some(p),
                    frame: None,
                    tries: 0,
                    quiet: false,
                },
            )
        } else {
            rest
        }
    }
}

/// The links that lead to boards, each once, without the one that a packet came from.
pub open spec fn ways(
    known: Seq<presence::AnnouncerSpec>,
    boards: Seq<u32>,
    from: usize,
    now: u64,
) -> Seq<usize>
    decreases boards.len(),
{
    if boards.len() == 0 {
        Seq::empty()
    } else {
        let rest = ways(known, boards.drop_last(), from, now);
        match presence::way_to_board(known, boards.last(), now) {
            Some(s) => if s == from || rest.contains(s) {
                rest
            } else {
                rest.push(s)
            },
            None => rest,
        }
    }
}

fn is_listed(v: &Vec<usize>, x: usize) -> (b: bool)
    ensures
        b == v@.contains(x),
{
    let mut i: usize = 0;
    while i < v.len()
        invariant
            i <= v@.len(),
            forall|k: int| 0 <= k < i ==> v@[k] != x,
        decreases v@.len() - i,
    {
        if v[i] == x {
            return true;
        }
        i = i + 1;
    }
    false
}

impl Station {
    /// What sending a packet over some links does.
    pub open spec fn spread(self, after: Station, p: PacketSpec, sides: Seq<usize>) -> bool {
        &&& jobs::jobs(after.core.agenda@) == jobs::jobs(self.core.agenda@) + copies(
            self.core,
            p,
            sides,
        )
        &&& after == Station { core: Router { agenda: after.core.agenda, ..self.core }, ..self }
    }

    pub(crate) fn send_copies(&mut self, p: &Packet, sides: &Vec<usize>)
        requires
            old(self).wf(),
        ensures
            final(self).wf(),
            old(self).spread(*final(self), p@, sides@),
    {
        let ghost first = jobs::jobs(self.core.agenda@);
        let mut i: usize = 0;
        assert(first + copies(self.core, p@, sides@.take(0)) =~= first);
        while i < sides.len()
            invariant
                i <= sides@.len(),
                self.wf(),
                first == jobs::jobs(old(self).core.agenda@),
                jobs::jobs(self.core.agenda@) == first + copies(
                    old(self).core,
                    p@,
                    sides@.take(i as int),
                ),
                *self == (Station {
                    core: Router { agenda: self.core.agenda, ..old(self).core },
                    ..*old(self)
                }),
            decreases sides@.len() - i,
        {
            let ghost before = jobs::jobs(self.core.agenda@);
            let ghost done = copies(old(self).core, p@, sides@.take(i as int));
            let _ = self.core.send_over(p.copied(), sides[i]);
            proof {
                assert(sides@.take(i + 1).drop_last() =~= sides@.take(i as int));
                let all = copies(old(self).core, p@, sides@.take(i + 1));
                if old(self).core.has_side(sides@[i as int])
                    && old(self).core.sides@[sides@[i as int] as int].egress {
                    assert(first + done.push(all.last()) =~= (first + done).push(all.last()));
                }
            }
            i = i + 1;
        }
        assert(sides@.take(i as int) =~= sides@);
    }

    /// What it does that a board says that it has a packet: the packet waits for it no longer,
    /// and the board that it came from is told.
    pub open spec fn receipted(self, after: Station, p: PacketSpec, id: u64, board: u32) -> bool {
        &&& after.pending@ == ledger::struck(self.pending@, id, board)
        &&& after.acked@ == ledger::counted(
            self.acked@,
            id,
            board,
            RELIABLE_MAX_END_TO_END_ACK_CACHE as nat,
            RELIABLE_MAX_END_TO_END_PENDING as nat,
        )
        &&& match ledger::route_of(self.returns.items@, id) {
            Some(side) => jobs::jobs(after.core.agenda@) == jobs::jobs(self.core.agenda@) + copies(
                self.core,
                p,
                seq![side],
            ) && after.core == Router { agenda: after.core.agenda, ..self.core },
            None => after.core == self.core,
        }
        &&& after == Station {
            pending: after.pending,
            acked: after.acked,
            core: after.core,
            ..self
        }
    }

    /// Takes a message that a board has a packet; says whether it was one.
    pub fn take_receipt(&mut self, p: &Packet) -> (b: bool)
        requires
            old(self).wf(),
        ensures
            final(self).wf(),
            match ledger::acked(p@) {
                Some((id, board)) => b && old(self).receipted(*final(self), p@, id, board),
                None => !b && *final(self) == *old(self),
            },
    {
        let (id, board): (u64, u32) = match ledger::acknowledged(p) {
            Some(x) => x,
            None => return false,
        };
        self.pending.strike(id, board);
        self.acked.count(
            id,
            board,
            RELIABLE_MAX_END_TO_END_ACK_CACHE,
            RELIABLE_MAX_END_TO_END_PENDING,
        );
        if let Some(side) = self.returns.find(id) {
            let mut back: Vec<usize> = Vec::new();
            back.push(side);
            assert(back@ =~= seq![side]);
            self.send_copies(p, &back);
        }
        true
    }

    /// What following a packet to the boards that it is for does.
    pub open spec fn followed(self, after: Station, p: PacketSpec, now: u64) -> bool {
        if self.reliable && p.ty >= FIRST_USER_TYPE {
            &&& after.pending@ == ledger::followed(
                self.pending@,
                packet::packet_identity(p),
                presence::holders(self.core.presence@, Some(self.core.remote(p)), now),
                RELIABLE_MAX_END_TO_END_PENDING as nat,
            )
            &&& after == Station { pending: after.pending, ..self }
        } else {
            after == self
        }
    }

    /// Follows a packet to the boards that it is for.
    pub fn follow(&mut self, p: &Packet, now: u64)
        requires
            old(self).wf(),
        ensures
            final(self).wf(),
            old(self).followed(*final(self), p@, now),
    {
        if self.reliable && p.data_type() >= FIRST_USER_TYPE {
            let boards: Vec<u32> = self.core.destinations(p, now);
            self.pending.follow(p.packet_id(), boards, RELIABLE_MAX_END_TO_END_PENDING);
        }
    }

    /// Waits no longer for boards that were lost sight of.
    pub fn forget_lost(&mut self, now: u64)
        requires
            old(self).wf(),
        ensures
            final(self).wf(),
            ({
                let known = presence::holders(old(self).core.presence@, None, now);
                &&& final(self).pending@ == ledger::kept(old(self).pending@, known)
                &&& final(self).acked@ == ledger::kept(old(self).acked@, known)
                &&& *final(self) == (Station {
                    pending: final(self).pending,
                    acked: final(self).acked,
                    ..*old(self)
                })
            }),
    {
        let known: Vec<u32> = self.core.presence.holders_of(None, now);
        self.pending.keep(&known);
        self.acked.keep(&known);
    }

    /// Whether a packet that comes again is still waited for.
    pub open spec fn is_wanted(self, p: PacketSpec) -> bool {
        let id = packet::packet_identity(p);
        &&& self.core.relay
        &&& p.ty >= FIRST_USER_TYPE
        &&& self.core.recent@.contains(id)
        &&& ledger::holders_of(self.pending@, id) is Some
    }

    /// Sends a packet that comes again to those who did not say that they have it; says whether it
    /// was one.
    pub fn send_again(&mut self, p: &Packet, from: usize, now: u64) -> (b: bool)
        requires
            old(self).wf(),
        ensures
            final(self).wf(),
            b == old(self).is_wanted(p@),
            !b ==> *final(self) == *old(self),
            b ==> old(self).spread(
                *final(self),
                p@,
                ways(
                    old(self).core.presence@,
                    ledger::holders_of(
                        old(self).pending@,
                        packet::packet_identity(p@),
                    )->0,
                    from,
                    now,
                ),
            ),
    {
        if !self.core.relay || p.data_type() < FIRST_USER_TYPE || !self.core.recent.contains(
            p.packet_id(),
        ) {
            return false;
        }
        let mut sides: Vec<usize> = Vec::new();
        match self.pending.holders(p.packet_id()) {
            Some(boards) => {
                let mut i: usize = 0;
                while i < boards.len()
                    invariant
                        i <= boards@.len(),
                        sides@ == ways(
                            self.core.presence@,
                            boards@.take(i as int),
                            from,
                            now,
                        ),
                    decreases boards@.len() - i,
                {
                    assert(boards@.take(i + 1).drop_last() =~= boards@.take(i as int));
                    if let Some(s) = self.core.presence.board_side(boards[i], now) {
                        if s != from && !is_listed(&sides, s) {
                            sides.push(s);
                        }
                    }
                    i = i + 1;
                }
                assert(boards@.take(i as int) =~= boards@);
            },
            None => return false,
        }
        self.send_copies(p, &sides);
        true
    }

    /// What a packet does that carries a value.
    pub open spec fn kept_value(self, after: Station, p: PacketSpec) -> bool {
        if self.variables@.contains_key(p.ty) {
            &&& after.variables@ == self.variables@.insert(
                p.ty,
                VariableSpec { value: Some(p), ..variables::lookup(self.variables@, p.ty) },
            )
            &&& after == Station { variables: after.variables, ..self }
        } else {
            after == self
        }
    }

    /// Whether a packet carries a new value.
    pub open spec fn is_news(self, p: PacketSpec) -> bool {
        &&& self.variables@.contains_key(p.ty)
        &&& !(variables::lookup(self.variables@, p.ty).value matches Some(q) && q.payload
            == p.payload)
    }

    /// Keeps the value that a packet carries, where values of its type are kept; says whether it
    /// changed.
    pub fn keep_value(&mut self, p: &Packet) -> (changed: bool)
        requires
            old(self).wf(),
        ensures
            final(self).wf(),
            old(self).kept_value(*final(self), p@),
            changed == old(self).is_news(p@),
    {
        if self.variables.keeps(p.data_type()) {
            self.variables.store(p)
        } else {
            false
        }
    }

    /// What a question for a value does: where the value is known it goes back.
    pub open spec fn answered(self, after: Station, p: PacketSpec, from: Option<usize>) -> bool {
        let value = match variables::read_question(p.payload) {
            Some(ty) => variables::lookup(self.variables@, ty).value,
            None => None,
        };
        match (value, from) {
            (Some(v), Some(side)) => self.spread(after, v, seq![side]),
            _ => after == self,
        }
    }

    /// Answers a question for a value.
    pub fn answer(&mut self, p: &Packet, from: Option<usize>)
        requires
            old(self).wf(),
        ensures
            final(self).wf(),
            old(self).answered(*final(self), p@, from),
    {
        if let (Some(v), Some(side)) = (self.variables.answer(p.payload()), from) {
            let mut back: Vec<usize> = Vec::new();
            back.push(side);
            assert(back@ =~= seq![side]);
            self.send_copies(&v, &back);
        }
    }

    /// What asking other boards for a value does: the question goes over every open link.
    pub open spec fn questioned(
        self,
        after: Station,
        reg: Registry,
        later: Registry,
        ty: DataType,
        now: u64,
        r: TelemetryResult<()>,
    ) -> bool {
        exists|made: TelemetryResult<Packet>|
            {
                &&& #[trigger] packet::packet_made(
                    reg,
                    later,
                    TY_MANAGED_VARIABLE_VALUE,
                    seq![EP_TELEMETRY_ERROR],
                    self.core.sender@,
                    now,
                    variables::question_bytes(ty),
                    made,
                )
                &&& match made {
                    Ok(p) => r is Ok && self.spread(after, p@, self.core.open_list()),
                    Err(e) => r == Err::<(), TelemetryError>(e) && after == self,
                }
            }
    }

    /// Asks other boards for a value.
    pub fn ask_value(&mut self, reg: &mut Registry, ty: DataType, now: u64) -> (r: TelemetryResult<
        (),
    >)
        requires
            old(self).wf(),
        ensures
            final(self).wf(),
            final(reg).schema@ == old(reg).schema@,
            old(self).questioned(*final(self), *old(reg), *final(reg), ty, now, r),
    {
        let to: [u32; 1] = [EP_TELEMETRY_ERROR];
        assert(to@ =~= seq![EP_TELEMETRY_ERROR]);
        let made: TelemetryResult<Packet> = Packet::new(
            reg,
            TY_MANAGED_VARIABLE_VALUE,
            &to,
            self.core.sender.as_str(),
            now,
            variables::question(ty),
        );
        let ghost m = made;
        assert(packet::packet_made(
            *old(reg),
            *reg,
            TY_MANAGED_VARIABLE_VALUE,
            seq![EP_TELEMETRY_ERROR],
            old(self).core.sender@,
            now,
            variables::question_bytes(ty),
            m,
        ));
        match made {
            Ok(p) => {
                let open: Vec<usize> = self.core.open_side_ids();
                self.send_copies(&p, &open);
                Ok(())
            },
            Err(e) => Err(e),
        }
    }

    /// Whether values of a type are kept from now on, with what was kept of them before.
    pub open spec fn keeps_from_now(self, after: Station, ty: DataType) -> bool {
        &&& after.variables@ == (if self.variables@.contains_key(ty) {
            self.variables@
        } else {
            self.variables@.insert(ty, variables::lookup(self.variables@, ty))
        })
        &&& after == Station { variables: after.variables, ..self }
    }

    /// Keeps values of a type from now on.
    pub fn keep_from_now(&mut self, ty: DataType)
        requires
            old(self).wf(),
        ensures
            final(self).wf(),
            old(self).keeps_from_now(*final(self), ty),
    {
        if !self.variables.keeps(ty) {
            self.variables.enable(ty, Permissions { read: true, write: true });
        }
    }

    /// What wanting a value does: one that is known is handed out; for another the other boards
    /// are asked, and it is kept when it comes.
    pub open spec fn wanted(
        self,
        after: Station,
        reg: Registry,
        later: Registry,
        ty: DataType,
        now: u64,
        r: TelemetryResult<Option<Packet>>,
    ) -> bool {
        let known = variables::lookup(self.variables@, ty);
        if !known.permissions.read {
            &&& r == Err::<Option<Packet>, TelemetryError>(TelemetryError::PermissionDenied)
            &&& after == self
            &&& later == reg
        } else if known.value is Some {
            &&& r matches Ok(v)
            &&& variables::packet_in(v) == known.value
            &&& after == self
            &&& later == reg
        } else {
            exists|mid: Station, asked: TelemetryResult<()>|
                {
                    &&& self.keeps_from_now(mid, ty)
                    &&& #[trigger] mid.questioned(after, reg, later, ty, now, asked)
                    &&& match asked {
                        Ok(_) => r == Ok::<Option<Packet>, TelemetryError>(None),
                        Err(e) => r == Err::<Option<Packet>, TelemetryError>(e),
                    }
                }
        }
    }

    /// Hands out a value, or asks other boards for it.
    pub fn want_value(&mut self, reg: &mut Registry, ty: DataType, now: u64) -> (r: TelemetryResult<
        Option<Packet>,
    >)
        requires
            old(self).wf(),
        ensures
            final(self).wf(),
            final(reg).schema@ == old(reg).schema@,
            old(self).wanted(*final(self), *old(reg), *final(reg), ty, now, r),
    {
        match self.variables.get(ty) {
            Err(e) => Err(e),
            Ok(Some(p)) => Ok(Some(p)),
            Ok(None) => {
                self.keep_from_now(ty);
                let ghost mid = *self;
                let asked: TelemetryResult<()> = self.ask_value(reg, ty, now);
                assert(mid.questioned(*self, *old(reg), *reg, ty, now, asked));
                match asked {
                    Ok(_) => Ok(None),
                    Err(e) => Err(e),
                }
            },
        }
    }

    /// The link over which the board is reached whose time is gone by.
    pub open spec fn way_to_time(self, now: u64) -> Option<usize> {
        match self.time {
            Some(t) => match t.follows(now, false) {
                Some(e) => presence::way_to_source(self.core.presence@, e.sender, now),
                None => None,
            },
            None => None,
        }
    }

    pub fn time_side(&self, now: u64) -> (r: Option<usize>)
        ensures
            r == self.way_to_time(now),
    {
        match &self.time {
            Some(t) => match t.leader(now, false) {
                Some(TimeSyncLeader::Remote(x)) => self.core.presence.source_side(&x.sender, now),
                _ => None,
            },
            None => None,
        }
    }

    /// What keeping a packet waiting that this board made does; `stops` is the answer where there
    /// is room.
    pub open spec fn queued_up(
        self,
        after: Station,
        reg: Registry,
        made: TelemetryResult<Packet>,
        to: Option<usize>,
        stops: bool,
        r: TelemetryResult<bool>,
    ) -> bool {
        match made {
            Ok(p) => {
                &&& after == Station { core: after.core, ..self }
                &&& match r {
                    Ok(b) => b == stops && self.core.queued_out(
                        after.core,
                        reg.schema@,
                        p,
                        to,
                        Ok(()),
                    ),
                    Err(e) => self.core.queued_out(after.core, reg.schema@, p, to, Err(e)),
                }
            },
            Err(e) => r == Err::<bool, TelemetryError>(e) && after == self,
        }
    }

    /// What a message about the time asks of the board.
    pub open spec fn acted(
        self,
        after: Station,
        reg: Registry,
        reg_after: Registry,
        action: TimeAction,
        from: Option<usize>,
        now: u64,
        r: TelemetryResult<bool>,
    ) -> bool {
        match (action, from) {
            (TimeAction::Ask(q), _) => exists|made: TelemetryResult<Packet>|
                {
                    &&& #[trigger] packet::packet_made(
                        reg,
                        reg_after,
                        TY_TIMESYNC_REQUEST,
                        seq![EP_TIMESYNC],
                        packet::device_name(),
                        q.t1_ms,
                        timesync::two(q.seq, q.t1_ms),
                        made,
                    )
                    &&& self.queued_up(after, reg_after, made, self.way_to_time(now), false, r)
                },
            (TimeAction::Answer(a), Some(side)) => exists|made: TelemetryResult<Packet>|
                {
                    &&& #[trigger] packet::packet_made(
                        reg,
                        reg_after,
                        TY_TIMESYNC_RESPONSE,
                        seq![EP_TIMESYNC],
                        packet::device_name(),
                        a.t3_ms,
                        timesync::four(a.seq, a.t1_ms, a.t2_ms, a.t3_ms),
                        made,
                    )
                    &&& self.queued_up(after, reg_after, made, Some(side), true, r)
                },
            _ => r == Ok::<bool, TelemetryError>(false) && after == self && reg_after == reg,
        }
    }

    fn act(
        &mut self,
        reg: &mut Registry,
        action: TimeAction,
        from: Option<usize>,
        now: u64,
    ) -> (r: TelemetryResult<bool>)
        requires
            old(self).wf(),
        ensures
            final(self).wf(),
            final(reg).schema@ == old(reg).schema@,
            old(self).acted(*final(self), *old(reg), *final(reg), action, from, now, r),
    {
        match (action, from) {
            (TimeAction::Ask(q), _) => {
                let to: Option<usize> = self.time_side(now);
                let made: TelemetryResult<Packet> = timesync::build_timesync_request(
                    reg,
                    q.seq,
                    q.t1_ms,
                );
                self.queue_up(reg, made, to, false)
            },
            (TimeAction::Answer(a), Some(side)) => {
                let made: TelemetryResult<Packet> = timesync::build_timesync_response(
                    reg,
                    a.seq,
                    a.t1_ms,
                    a.t2_ms,
                    a.t3_ms,
                );
                self.queue_up(reg, made, Some(side), true)
            },
            _ => Ok(false),
        }
    }

    fn queue_up(
        &mut self,
        reg: &Registry,
        made: TelemetryResult<Packet>,
        to: Option<usize>,
        stops: bool,
    ) -> (r: TelemetryResult<bool>)
        requires
            old(self).wf(),
        ensures
            final(self).wf(),
            old(self).queued_up(*final(self), *reg, made, to, stops, r),
    {
        match made {
            Ok(p) => match self.core.queue_tx(&reg.schema, p, to) {
                Ok(_) => Ok(stops),
                Err(e) => Err(e),
            },
            Err(e) => Err(e),
        }
    }

    /// What a message about the time does.
    pub open spec fn took_time(
        self,
        after: Station,
        reg: Registry,
        reg_after: Registry,
        p: PacketSpec,
        from: Option<usize>,
        now: u64,
        r: TelemetryResult<bool>,
    ) -> bool {
        match self.time {
            None => r == Ok::<bool, TelemetryError>(false) && after == self && reg_after == reg,
            Some(t) => exists|later: TimeSyncTracker, action: TimeAction|
                {
                    &&& #[trigger] t.took(later, p, now, action)
                    &&& Station { time: Some(later), ..self }.acted(
                        after,
                        reg,
                        reg_after,
                        action,
                        from,
                        now,
                        r,
                    )
                },
        }
    }

    /// Takes a message about the time; says whether it goes no further.
    pub fn take_time(
        &mut self,
        reg: &mut Registry,
        p: &Packet,
        from: Option<usize>,
        now: u64,
    ) -> (r: TelemetryResult<bool>)
        requires
            old(self).wf(),
        ensures
            final(self).wf(),
            final(reg).schema@ == old(reg).schema@,
            old(self).took_time(*final(self), *old(reg), *final(reg), p@, from, now, r),
    {
        let mut t: TimeSyncTracker = match self.time.take() {
            Some(t) => t,
            None => return Ok(false),
        };
        let action: TimeAction = t.take(p, now);
        let ghost later = t;
        assert(old(self).time->0.took(later, p@, now, action));
        self.time = Some(t);
        self.act(reg, action, from, now)
    }

    /// The message by which a board that tells the time says so, where it is time to, and the
    /// links that it is for: those that are open and not known to be slow.
    pub fn time_announcement(&mut self, reg: &mut Registry, now: u64) -> (r: TelemetryResult<
        Option<(Packet, Vec<usize>)>,
    >)
        requires
            old(self).wf(),
        ensures
            final(self).wf(),
            final(reg).schema@ == old(reg).schema@,
            match old(self).time {
                None => (r matches Ok(None)) && *final(self) == *old(self) && *final(reg) == *old(
                    reg,
                ),
                Some(t) => {
                    &&& *final(self) == (Station { time: final(self).time, ..*old(self) })
                    &&& final(self).time matches Some(later) && if t.announces(now) {
                        &&& later == t.announced(now)
                        &&& exists|made: TelemetryResult<Packet>|
                            {
                                &&& #[trigger] packet::packet_made(
                                    *old(reg),
                                    *final(reg),
                                    TY_TIMESYNC_ANNOUNCE,
                                    seq![EP_TIMESYNC],
                                    old(self).core.sender@,
                                    now,
                                    timesync::two(t.config.priority, now),
                                    made,
                                )
                                &&& match made {
                                    Ok(p) => r matches Ok(Some((q, v))) && q@ == p@ && v@
                                        == old(self).core.quick_list(),
                                    Err(e) => r matches Err(x) && x == e,
                                }
                            }
                    } else {
                        &&& later == t
                        &&& r matches Ok(None)
                        &&& *final(reg) == *old(reg)
                    }
                },
            },
    {
        let mut t: TimeSyncTracker = match self.time.take() {
            Some(t) => t,
            None => return Ok(None),
        };
        let due: bool = t.poll_announce(now);
        let priority: u64 = t.config.priority;
        self.time = Some(t);
        if !due {
            return Ok(None);
        }
        let made: TelemetryResult<Packet> = timesync::build_timesync_announce_with_sender(
            reg,
            self.core.sender.as_str(),
            priority,
            now,
        );
        match made {
            Ok(p) => Ok(Some((p, self.core.quick_side_ids()))),
            Err(e) => Err(e),
        }
    }

    /// A relay that has heard something new announces itself before it works on its queues, where
    /// it is time to; says whether it did.
    pub fn greet(&mut self, reg: &mut Registry, now: u64) -> (r: TelemetryResult<bool>)
        requires
            old(self).wf(),
            old(reg).schema@.wf(),
        ensures
            final(self).wf(),
            final(reg).schema@ == old(reg).schema@,
            if old(self).core.relay && old(self).core.news > 0 {
                &&& old(self).core.polled(final(self).core, *old(reg), *final(reg), now, r)
                &&& *final(self) == (Station { core: final(self).core, ..*old(self) })
            } else {
                &&& r == Ok::<bool, TelemetryError>(false)
                &&& *final(self) == *old(self)
                &&& *final(reg) == *old(reg)
            },
    {
        if self.core.relay && self.core.news > 0 {
            self.core.poll_discovery(reg, now)
        } else {
            Ok(false)
        }
    }

    /// Sends a sign of life over the first slow link over which one is due; says whether one was.
    pub fn ping_slow(&mut self, reg: &mut Registry, now: u64) -> (r: TelemetryResult<bool>)
        requires
            old(self).wf(),
        ensures
            final(self).wf(),
            final(reg).schema@ == old(reg).schema@,
            (forall|k: int|
                0 <= k < old(self).core.sides@.len() ==> !#[trigger] old(self).core.ping_due(
                    k,
                    now,
                )) ==> r == Ok::<bool, TelemetryError>(false) && *final(self) == *old(self)
                && *final(reg) == *old(reg),
            forall|side: usize|
                side < old(self).core.sides@.len() && old(self).core.ping_due(side as int, now) && (
                forall|k: int| 0 <= k < side ==> !#[trigger] old(self).core.ping_due(k, now))
                    ==> #[trigger] old(self).pinged(
                    *final(self),
                    *old(reg),
                    *final(reg),
                    side,
                    now,
                    r,
                ),
    {
        let side: usize = match self.core.next_ping(now) {
            Some(side) => side,
            None => return Ok(false),
        };
        let ghost mid = *self;
        assert(self.core.sides@ =~= old(self).core.sides@.update(
            side as int,
            Side { pinged: now, ..old(self).core.sides@[side as int] },
        ));
        assert(old(self).marked(mid, side, now));
        let none: [u32; 0] = [];
        assert(none@ =~= Seq::<u32>::empty());
        let made: TelemetryResult<Packet> = discovery::build_discovery_announce(
            reg,
            self.core.sender.as_str(),
            now,
            &none,
        );
        let ghost m = made;
        assert(packet::packet_made(
            *old(reg),
            *reg,
            TY_DISCOVERY_ANNOUNCE,
            seq![EP_DISCOVERY],
            old(self).core.sender@,
            now,
            definition::ids_bytes(Seq::empty()),
            m,
        ));
        match made {
            Ok(p) => {
                let mut over: Vec<usize> = Vec::new();
                over.push(side);
                assert(over@ =~= seq![side]);
                self.send_copies(&p, &over);
                Ok(true)
            },
            Err(e) => Err(e),
        }
    }

    /// What noting that a sign of life goes over a link does.
    pub open spec fn marked(self, after: Station, side: usize, now: u64) -> bool {
        &&& after.core.sides@ == self.core.sides@.update(
            side as int,
            Side { pinged: now, ..self.core.sides@[side as int] },
        )
        &&& after == Station { core: Router { sides: after.core.sides, ..self.core }, ..self }
    }

    /// What a sign of life over a link does.
    pub open spec fn pinged(
        self,
        after: Station,
        reg: Registry,
        reg_after: Registry,
        side: usize,
        now: u64,
        r: TelemetryResult<bool>,
    ) -> bool {
        exists|mid: Station, made: TelemetryResult<Packet>|
            {
                &&& #[trigger] self.marked(mid, side, now)
                &&& #[trigger] packet::packet_made(
                    reg,
                    reg_after,
                    TY_DISCOVERY_ANNOUNCE,
                    seq![EP_DISCOVERY],
                    self.core.sender@,
                    now,
                    definition::ids_bytes(Seq::empty()),
                    made,
                )
                &&& match made {
                    Ok(p) => r == Ok::<bool, TelemetryError>(true) && mid.spread(
                        after,
                        p@,
                        seq![side],
                    ),
                    Err(e) => r == Err::<bool, TelemetryError>(e) && after == mid,
                }
            }
    }

    /// The links that are open and known to be slow.
    pub open spec fn slow_list(self) -> Seq<usize> {
        self.core.open_list().filter(is_slow_side(self.core.sides@))
    }

    fn slow_side_ids(&self) -> (v: Vec<usize>)
        requires
            self.wf(),
        ensures
            v@ == self.slow_list(),
    {
        let open: Vec<usize> = self.core.open_side_ids();
        let ghost slow = is_slow_side(self.core.sides@);
        let mut v: Vec<usize> = Vec::new();
        let mut i: usize = 0;
        proof {
            reveal(Seq::filter);
            assert(open@.take(0).filter(slow) =~= Seq::<usize>::empty());
        }
        while i < open.len()
            invariant
                i <= open@.len(),
                slow == is_slow_side(self.core.sides@),
                forall|k: int|
                    0 <= k < open@.len() ==> #[trigger] open@[k] < self.core.sides@.len(),
                v@ == open@.take(i as int).filter(slow),
            decreases open@.len() - i,
        {
            proof {
                assert(open@.take(i + 1) =~= open@.take(i as int).push(open@[i as int]));
                open@.take(i as int).lemma_filter_push(open@[i as int], slow);
                assert(open@[i as int] < self.core.sides@.len());
            }
            if self.core.is_slow(open[i]) {
                v.push(open[i]);
            }
            i = i + 1;
        }
        assert(open@.take(i as int) =~= open@);
        v
    }

    /// Tells the definitions of this board over the links that are slow, and notes that something
    /// went over every link.
    pub fn refresh_slow(&mut self, reg: &mut Registry, now: u64) -> (r: TelemetryResult<()>)
        requires
            old(self).wf(),
        ensures
            final(self).wf(),
            final(reg).schema@ == old(reg).schema@,
            old(self).refreshed_by(*final(self), *old(reg), *final(reg), now, r),
    {
        let snapshot: SchemaSnapshot = reg.schema.export_schema();
        let made: TelemetryResult<Packet> = discovery::build_discovery_schema_from_snapshot(
            reg,
            self.core.sender.as_str(),
            now,
            &snapshot,
        );
        let ghost m = made;
        assert(packet::packet_made(
            *old(reg),
            *reg,
            TY_DISCOVERY_SCHEMA,
            seq![EP_DISCOVERY],
            old(self).core.sender@,
            now,
            discovery::snapshot_bytes(old(reg).schema@.exported()),
            m,
        ));
        match made {
            Ok(p) => {
                let slow: Vec<usize> = self.slow_side_ids();
                self.send_copies(&p, &slow);
                let ghost mid = *self;
                assert(old(self).spread(mid, p@, old(self).slow_list()));
                self.core.note_refresh(now);
                Ok(())
            },
            Err(e) => Err(e),
        }
    }

    /// What the attempt to tell the definitions over slow links does.
    pub open spec fn refreshed_by(
        self,
        after: Station,
        reg: Registry,
        reg_after: Registry,
        now: u64,
        r: TelemetryResult<()>,
    ) -> bool {
        exists|made: TelemetryResult<Packet>|
            {
                &&& #[trigger] packet::packet_made(
                    reg,
                    reg_after,
                    TY_DISCOVERY_SCHEMA,
                    seq![EP_DISCOVERY],
                    self.core.sender@,
                    now,
                    discovery::snapshot_bytes(reg.schema@.exported()),
                    made,
                )
                &&& match made {
                    Ok(p) => r is Ok && self.refreshed(after, p@, now),
                    Err(e) => r == Err::<(), TelemetryError>(e) && after == self,
                }
            }
    }

    /// What the attempt to announce the board over all its links does.
    pub open spec fn announced_by(
        self,
        after: Station,
        reg: Registry,
        reg_after: Registry,
        now: u64,
        r: TelemetryResult<()>,
    ) -> bool {
        exists|mid: Router, reg_mid: Registry, said: TelemetryResult<()>|
            {
                &&& #[trigger] self.core.spoke(
                    mid,
                    reg,
                    reg_mid,
                    self.core.open_list(),
                    now,
                    said,
                )
                &&& match said {
                    Ok(_) => Station { core: mid, ..self }.refreshed_by(
                        after,
                        reg_mid,
                        reg_after,
                        now,
                        r,
                    ),
                    Err(e) => {
                        &&& r == Err::<(), TelemetryError>(e)
                        &&& after == Station { core: mid, ..self }
                        &&& reg_after == reg_mid
                    },
                }
            }
    }

    /// Announces the board over all its links.
    pub fn announce(&mut self, reg: &mut Registry, now: u64) -> (r: TelemetryResult<()>)
        requires
            old(self).wf(),
            old(reg).schema@.wf(),
        ensures
            final(self).wf(),
            final(reg).schema@ == old(reg).schema@,
            old(self).announced_by(*final(self), *old(reg), *final(reg), now, r),
    {
        let said: TelemetryResult<()> = self.core.announce(reg, now);
        let ghost s = said;
        assert(old(self).core.spoke(
            self.core,
            *old(reg),
            *reg,
            old(self).core.open_list(),
            now,
            s,
        ));
        match said {
            Ok(_) => self.refresh_slow(reg, now),
            Err(e) => Err(e),
        }
    }

    /// What telling the definitions over slow links does.
    pub open spec fn refreshed(self, after: Station, p: PacketSpec, now: u64) -> bool {
        exists|mid: Station|
            {
                &&& #[trigger] self.spread(mid, p, self.slow_list())
                &&& after.core.sides@.len() == mid.core.sides@.len()
                &&& forall|k: int|
                    0 <= k < mid.core.sides@.len() ==> (#[trigger] after.core.sides@[k]) == (Side {
                        pinged: now,
                        ..mid.core.sides@[k]
                    })
                &&& after == Station {
                    core: Router { sides: after.core.sides, ..mid.core },
                    ..mid
                }
            }
    }
}

/// The links that are known to be slow.
pub open spec fn is_slow_side(v: Seq<Side>) -> spec_fn(usize) -> bool {
    |i: usize| capacity::slow(v[i as int].capacity)
}

} // verus!
