//! How a board takes what comes over its links, and what its program sends.
use vstd::prelude::*;
use crate::address::AddressChange;
use crate::duties;
use crate::egress;
use crate::error::{TelemetryError, TelemetryResult};
use crate::exchange::{Delivery, Question};
use crate::hash;
use crate::jobs;
use crate::ledger;
use crate::meta::{
    DataType, FIRST_USER_TYPE, TY_DISCOVERY_SCHEMA_REQUEST, TY_DISCOVERY_TOPOLOGY_REQUEST,
    TY_MANAGED_VARIABLE_VALUE, TY_P2P_MESSAGE, TY_TIMESYNC_ANNOUNCE, TY_TIMESYNC_REQUEST,
    TY_TIMESYNC_RESPONSE,
};
use crate::packet;
use crate::packet::{Packet, PacketSpec};
use crate::queue::Waiting;
use crate::registry::Registry;
use crate::router;
use crate::router::Arriving;
use crate::schema;
use crate::station::Station;
use crate::stats::LinkEvent;
use crate::table;
use crate::wire_format;

verus! {

/// Whether a type is about the time.
pub open spec fn about_time(ty: DataType) -> bool {
    TY_TIMESYNC_ANNOUNCE <= ty <= TY_TIMESYNC_RESPONSE
}

/// Whether the program is told what there is to tell of a packet that goes the way of all packets.
pub open spec fn delivers(
    d: Delivery,
    p: PacketSpec,
    from: Option<usize>,
    moved: Option<AddressChange>,
    news: bool,
) -> bool {
    match (moved, from) {
        (Some(c), _) => d == Delivery::Moved(c),
        (None, Some(side)) if router::is_question(p.ty) => d == Delivery::Asked(
            Question {
                ty: p.ty,
                side,
                asker: hash::name_hash(p.sender),
                first: p.payload.len() == 0,
            },
        ),
        _ => if news {
            d matches Delivery::Value(q) && q@ == p
        } else {
            d is Nothing
        },
    }
}

fn delivery(p: &Packet, from: Option<usize>, moved: Option<AddressChange>, news: bool) -> (d:
    Delivery)
    ensures
        delivers(d, p@, from, moved, news),
{
    if let Some(c) = moved {
        return Delivery::Moved(c);
    }
    let ty: DataType = p.data_type();
    if let Some(side) = from {
        if ty == TY_DISCOVERY_TOPOLOGY_REQUEST || ty == TY_DISCOVERY_SCHEMA_REQUEST {
            return Delivery::Asked(
                Question {
                    ty,
                    side,
                    asker: hash::sender_hash(p.sender()),
                    first: p.payload().len() == 0,
                },
            );
        }
    }
    if news {
        Delivery::Value(p.copied())
    } else {
        Delivery::Nothing
    }
}

impl Station {
    /// What counting a packet that comes over a link does.
    pub open spec fn counted_in(self, after: Station, p: PacketSpec, side: usize) -> bool {
        &&& self.with_wire(after, side)
        &&& self.wires@[side as int].came(after.wires@[side as int], p, p.payload.len() as usize)
    }

    /// What a packet does before anything is decided: it is counted, and its sender is heard of.
    pub open spec fn noted(
        self,
        after: Station,
        p: PacketSpec,
        from: Option<usize>,
        now: u64,
        moved: Option<AddressChange>,
    ) -> bool {
        match from {
            None => moved is None && after == self,
            Some(side) => exists|mid: Station| #[trigger]
                self.counted_in(mid, p, side) && mid.heard(after, p, side, now, moved),
        }
    }

    /// Whether a handler of this board takes a packet.
    pub open spec fn is_local(self, p: PacketSpec) -> bool {
        jobs::for_me(p, self.core.sender@) && jobs::locals(
            self.core.handlers@,
            p.endpoints,
        ).len() > 0
    }

    /// What counting a packet that is taken for the first time does. A relay counts when the packet
    /// comes that it hands it on.
    pub open spec fn tallied(self, after: Station, p: PacketSpec, from: Option<usize>) -> bool {
        match from {
            Some(side) => if side < self.wires@.len() && p.ty >= FIRST_USER_TYPE
                && !self.core.recent@.contains(packet::packet_identity(p)) {
                &&& self.with_wire(after, side)
                &&& self.wires@[side as int].counted(
                    after.wires@[side as int],
                    p.ty,
                    LinkEvent::Taken { relayed: !self.core.relay, local: self.is_local(p) },
                )
            } else {
                after == self
            },
            None => after == self,
        }
    }

    /// What noting where a packet came from does, and the value that it may carry.
    pub open spec fn routed_user(self, after: Station, p: PacketSpec, from: Option<usize>) -> bool {
        let items = match from {
            Some(side) => if p.ty >= FIRST_USER_TYPE {
                ledger::routed(self.returns.items@, packet::packet_identity(p), side)
            } else {
                self.returns.items@
            },
            None => self.returns.items@,
        };
        &&& after.returns.items@ == items
        &&& Station { returns: after.returns, ..self }.kept_value(after, p)
    }

    /// What a packet does that is taken: it is counted, where it came from is noted, and the value
    /// that it may carry is kept.
    pub open spec fn noted_user(self, after: Station, p: PacketSpec, from: Option<usize>) -> bool {
        exists|mid: Station| #[trigger]
            self.tallied(mid, p, from) && mid.routed_user(after, p, from)
    }

    /// What handing a packet to the router does.
    pub open spec fn passed_on(
        self,
        after: Station,
        sc: schema::SchemaSpec,
        p: PacketSpec,
        from: Option<usize>,
        now: u64,
        moved: Option<AddressChange>,
        news: bool,
        r: TelemetryResult<Delivery>,
    ) -> bool {
        &&& after == Station { core: after.core, ..self }
        &&& match r {
            Ok(d) => delivers(d, p, from, moved, news) && self.core.received(after.core, sc, p, None, from, now, Ok(())),
            Err(e) => self.core.received(after.core, sc, p, None, from, now, Err(e)),
        }
    }

    /// What a packet does once it is noted: messages that boards send one another for their own
    /// sake are dealt with here, all others go to the router.
    pub open spec fn worked(
        self,
        after: Station,
        reg: Registry,
        reg_after: Registry,
        p: PacketSpec,
        from: Option<usize>,
        now: u64,
        moved: Option<AddressChange>,
        r: TelemetryResult<Delivery>,
    ) -> bool {
        if p.ty == TY_P2P_MESSAGE {
            self.took_message(after, reg, reg_after, p, now, r)
        } else if p.ty == TY_MANAGED_VARIABLE_VALUE {
            &&& self.answered(after, p, from)
            &&& reg_after == reg
            &&& r matches Ok(Delivery::Nothing)
        } else if about_time(p.ty) {
            exists|mid: Station, said: TelemetryResult<bool>|
                {
                    &&& #[trigger] self.took_time(mid, reg, reg_after, p, from, now, said)
                    &&& match said {
                        Err(e) => r == Err::<Delivery, TelemetryError>(e) && after == mid,
                        Ok(true) => (r matches Ok(Delivery::Nothing)) && after == mid,
                        Ok(false) => mid.passed_on(
                            after,
                            reg_after.schema@,
                            p,
                            from,
                            now,
                            None,
                            false,
                            r,
                        ),
                    }
                }
        } else {
            match ledger::acked(p) {
                Some((id, board)) => {
                    &&& self.receipted(after, p, id, board)
                    &&& reg_after == reg
                    &&& r matches Ok(Delivery::Nothing)
                },
                None => {
                    &&& reg_after == reg
                    &&& exists|mid: Station|
                        {
                            &&& #[trigger] self.noted_user(mid, p, from)
                            &&& mid.passed_on(
                                after,
                                reg.schema@,
                                p,
                                from,
                                now,
                                moved,
                                self.is_news(p),
                                r,
                            )
                        }
                },
            }
        }
    }

    fn pass_on(
        &mut self,
        reg: &Registry,
        p: &Packet,
        from: Option<usize>,
        now: u64,
        moved: Option<AddressChange>,
        news: bool,
    ) -> (r: TelemetryResult<Delivery>)
        requires
            old(self).wf(),
        ensures
            final(self).wf(),
            old(self).passed_on(*final(self), reg.schema@, p@, from, now, moved, news, r),
    {
        match self.core.receive(&reg.schema, p, None, from, now) {
            Ok(_) => Ok(delivery(p, from, moved, news)),
            Err(e) => Err(e),
        }
    }

    fn work(
        &mut self,
        reg: &mut Registry,
        p: &Packet,
        from: Option<usize>,
        now: u64,
        moved: Option<AddressChange>,
    ) -> (r: TelemetryResult<Delivery>)
        requires
            old(self).wf(),
        ensures
            final(self).wf(),
            final(reg).schema@ == old(reg).schema@,
            old(self).worked(*final(self), *old(reg), *final(reg), p@, from, now, moved, r),
    {
        let ty: DataType = p.data_type();
        if ty == TY_P2P_MESSAGE {
            return self.take_message(reg, p, now);
        }
        if ty == TY_MANAGED_VARIABLE_VALUE {
            self.answer(p, from);
            return Ok(Delivery::Nothing);
        }
        if TY_TIMESYNC_ANNOUNCE <= ty && ty <= TY_TIMESYNC_RESPONSE {
            let said: TelemetryResult<bool> = self.take_time(reg, p, from, now);
            let ghost mid = *self;
            let ghost s = said;
            assert(old(self).took_time(mid, *old(reg), *reg, p@, from, now, s));
            return match said {
                Err(e) => Err(e),
                Ok(true) => Ok(Delivery::Nothing),
                Ok(false) => self.pass_on(reg, p, from, now, None, false),
            };
        }
        if self.take_receipt(p) {
            return Ok(Delivery::Nothing);
        }
        let news: bool = self.note_user(p, from);
        self.pass_on(reg, p, from, now, moved, news)
    }

    fn note_user(&mut self, p: &Packet, from: Option<usize>) -> (news: bool)
        requires
            old(self).wf(),
        ensures
            final(self).wf(),
            old(self).noted_user(*final(self), p@, from),
            news == old(self).is_news(p@),
    {
        self.tally(p, from);
        let ghost mid = *self;
        assert(old(self).tallied(mid, p@, from));
        if let Some(side) = from {
            if p.data_type() >= FIRST_USER_TYPE {
                self.returns.note(p.packet_id(), side);
            }
        }
        let news: bool = self.keep_value(p);
        assert(mid.routed_user(*self, p@, from));
        news
    }

    fn tally(&mut self, p: &Packet, from: Option<usize>)
        requires
            old(self).wf(),
        ensures
            final(self).wf(),
            old(self).tallied(*final(self), p@, from),
    {
        let side: usize = match from {
            Some(side) => side,
            None => return,
        };
        if side >= self.wires.len() || p.data_type() < FIRST_USER_TYPE || self.core.recent.contains(
            p.packet_id(),
        ) {
            return;
        }
        let relayed: bool = !self.core.relay;
        let local: bool = jobs::is_for_me(p, self.core.sender.as_str()) && jobs::part_endpoints(
            &self.core.handlers,
            p.endpoints(),
        ).0.len() > 0;
        self.wires[side].stats.note(p.data_type(), LinkEvent::Taken { relayed, local });
    }

    /// What a packet that comes does.
    pub open spec fn took_in(
        self,
        after: Station,
        reg: Registry,
        reg_after: Registry,
        p: PacketSpec,
        from: Option<usize>,
        now: u64,
        r: TelemetryResult<Delivery>,
    ) -> bool {
        match self.core.side_fault(from) {
            Some(w) => {
                &&& r matches Err(TelemetryError::HandlerError(m)) && m@ == w
                &&& after == self
                &&& reg_after == reg
            },
            None => exists|mid: Station, moved: Option<AddressChange>|
                {
                    &&& #[trigger] self.noted(mid, p, from, now, moved)
                    &&& mid.worked(after, reg, reg_after, p, from, now, moved, r)
                },
        }
    }

    /// Takes a packet that comes over a link, or from nowhere.
    pub fn receive(
        &mut self,
        reg: &mut Registry,
        p: &Packet,
        from: Option<usize>,
        now: u64,
    ) -> (r: TelemetryResult<Delivery>)
        requires
            old(self).wf(),
        ensures
            final(self).wf(),
            final(reg).schema@ == old(reg).schema@,
            old(self).took_in(*final(self), *old(reg), *final(reg), p@, from, now, r),
    {
        if let Err(e) = self.core.check_side(from) {
            return Err(e);
        }
        let mut moved: Option<AddressChange> = None;
        if let Some(side) = from {
            self.wires[side].take(p, p.data_size());
            let ghost mid = *self;
            assert(old(self).counted_in(mid, p@, side));
            moved = self.hear_address(p, side, now);
        }
        assert(old(self).noted(*self, p@, from, now, moved));
        self.work(reg, p, from, now, moved)
    }

    /// The packet that a frame carries, where it carries one.
    pub open spec fn carried(reg: Registry, f: Seq<u8>) -> Option<(PacketSpec, bool)> {
        match (
            wire_format::peek(reg.schema@, f),
            wire_format::parse(reg.schema@, reg.known_names(), f),
        ) {
            (Ok((h, _)), Ok((p, _))) => match h.reliable {
                Some(x) => if x.flags % 2 == 1 {
                    None
                } else {
                    Some((p, true))
                },
                None => Some((p, false)),
            },
            _ => None,
        }
    }

    /// Whether boards send such a packet for their own sake.
    pub open spec fn is_own(p: PacketSpec) -> bool {
        ||| p.ty == TY_P2P_MESSAGE
        ||| p.ty == TY_MANAGED_VARIABLE_VALUE
        ||| about_time(p.ty)
        ||| ledger::acked(p) is Some
    }

    /// What the packet that a frame carries does before the frame goes to the router.
    pub open spec fn introduced(
        self,
        after: Station,
        p: PacketSpec,
        from: Option<usize>,
        now: u64,
        moved: Option<AddressChange>,
    ) -> bool {
        match from {
            Some(side) => exists|mid: Station| #[trigger]
                self.heard(mid, p, side, now, moved) && mid.noted_user(after, p, from),
            None => moved is None && self.noted_user(after, p, from),
        }
    }

    /// What handing a frame to the router does.
    pub open spec fn frame_passed(
        self,
        after: Station,
        reg: Registry,
        reg_after: Registry,
        f: Seq<u8>,
        from: Option<usize>,
        now: u64,
        said: TelemetryResult<()>,
    ) -> bool {
        &&& after == Station { core: after.core, ..self }
        &&& self.core.frame_received(after.core, reg, reg_after, f, from, now, said)
    }

    /// What a frame that comes does.
    pub open spec fn took_frame(
        self,
        after: Station,
        reg: Registry,
        reg_after: Registry,
        f: Seq<u8>,
        from: Option<usize>,
        now: u64,
        r: TelemetryResult<Delivery>,
    ) -> bool {
        match Self::carried(reg, f) {
            Some((p, numbered)) => if Self::is_own(p) && !numbered {
                self.worked(after, reg, reg_after, p, from, now, None, r)
            } else {
                exists|mid: Station, moved: Option<AddressChange>, said: TelemetryResult<()>|
                    {
                        &&& #[trigger] self.introduced(mid, p, from, now, moved)
                        &&& #[trigger] mid.frame_passed(
                            after,
                            reg,
                            reg_after,
                            f,
                            from,
                            now,
                            said,
                        )
                        &&& match said {
                            Ok(_) => r matches Ok(d) && delivers(d, p, from, moved, self.is_news(p)),
                            Err(e) => r == Err::<Delivery, TelemetryError>(e),
                        }
                    }
            },
            None => exists|said: TelemetryResult<()>|
                {
                    &&& #[trigger] self.frame_passed(
                        after,
                        reg,
                        reg_after,
                        f,
                        from,
                        now,
                        said,
                    )
                    &&& match said {
                        Ok(_) => r matches Ok(Delivery::Nothing),
                        Err(e) => r == Err::<Delivery, TelemetryError>(e),
                    }
                },
        }
    }

    fn unwrap_frame(reg: &Registry, f: &[u8]) -> (r: Option<(Packet, bool)>)
        ensures
            match Self::carried(*reg, f@) {
                Some((p, numbered)) => r matches Some((q, n)) && q@ == p && n == numbered,
                None => r is None,
            },
    {
        let numbered: bool = match wire_format::peek_frame_info(reg, f) {
            Ok(info) => match info.reliable {
                Some(x) => {
                    if x.flags % 2 == 1 {
                        return None;
                    }
                    true
                },
                None => false,
            },
            Err(_) => return None,
        };
        match wire_format::unpack_packet(reg, f) {
            Ok(p) => Some((p, numbered)),
            Err(_) => None,
        }
    }

    fn pass_frame(&mut self, reg: &mut Registry, f: Vec<u8>, from: Option<usize>, now: u64) -> (r:
        TelemetryResult<()>)
        requires
            old(self).wf(),
            old(reg).schema@.wf(),
        ensures
            final(self).wf(),
            final(reg).schema == old(reg).schema,
            old(self).frame_passed(*final(self), *old(reg), *final(reg), f@, from, now, r),
    {
        self.core.receive_frame(reg, f, from, now)
    }

    /// Takes a frame that came over a link.
    pub fn receive_frame(&mut self, reg: &mut Registry, f: Vec<u8>, from: Option<usize>, now: u64) -> (r:
        TelemetryResult<Delivery>)
        requires
            old(self).wf(),
            old(reg).schema@.wf(),
        ensures
            final(self).wf(),
            final(reg).schema@ == old(reg).schema@,
            old(self).took_frame(*final(self), *old(reg), *final(reg), f@, from, now, r),
    {
        let (p, numbered): (Packet, bool) = match Self::unwrap_frame(reg, f.as_slice()) {
            Some(x) => x,
            None => {
                let said: TelemetryResult<()> = self.pass_frame(reg, f, from, now);
                return match said {
                    Ok(_) => Ok(Delivery::Nothing),
                    Err(e) => Err(e),
                };
            },
        };
        let ty: DataType = p.data_type();
        let own: bool = ty == TY_P2P_MESSAGE || ty == TY_MANAGED_VARIABLE_VALUE || (
        TY_TIMESYNC_ANNOUNCE <= ty && ty <= TY_TIMESYNC_RESPONSE) || ledger::acknowledged(
            &p,
        ).is_some();
        if own && !numbered {
            return self.work(reg, &p, from, now, None);
        }
        let mut moved: Option<AddressChange> = None;
        if let Some(side) = from {
            moved = self.hear_address(&p, side, now);
            assert(old(self).heard(*self, p@, side, now, moved));
        }
        let ghost mid = *self;
        let news: bool = self.note_user(&p, from);
        assert(mid.noted_user(*self, p@, from));
        assert(old(self).introduced(*self, p@, from, now, moved));
        let said: TelemetryResult<()> = self.pass_frame(reg, f, from, now);
        match said {
            Ok(_) => Ok(delivery(&p, from, moved, news)),
            Err(e) => Err(e),
        }
    }

    /// Takes bytes that come over a link.
    pub fn receive_bytes(
        &mut self,
        reg: &mut Registry,
        bytes: &[u8],
        from: Option<usize>,
        now: u64,
    ) -> (r: TelemetryResult<Delivery>)
        requires
            old(self).wf(),
            old(reg).schema@.wf(),
        ensures
            final(self).wf(),
            final(reg).schema@ == old(reg).schema@,
            exists|mid: Station, got: TelemetryResult<Option<Vec<u8>>>|
                {
                    &&& #[trigger] old(self).arrived(mid, *old(reg), bytes@, from, got)
                    &&& match got {
                        Err(e) => r == Err::<Delivery, TelemetryError>(e) && *final(self) == mid
                            && *final(reg) == *old(reg),
                        Ok(None) => (r matches Ok(Delivery::Nothing)) && *final(self) == mid
                            && *final(reg) == *old(reg),
                        Ok(Some(f)) => mid.took_frame(
                            *final(self),
                            *old(reg),
                            *final(reg),
                            f@,
                            from,
                            now,
                            r,
                        ),
                    }
                },
    {
        let got: TelemetryResult<Option<Vec<u8>>> = self.arrive(reg, bytes, from);
        let ghost g = got;
        assert(old(self).arrived(*self, *old(reg), bytes@, from, g));
        match got {
            Err(e) => Err(e),
            Ok(None) => Ok(Delivery::Nothing),
            Ok(Some(f)) => self.receive_frame(reg, f, from, now),
        }
    }

    /// A packet as it waits to be taken.
    pub open spec fn waiting(sc: schema::SchemaSpec, p: Packet, from: Option<usize>) -> Waiting<
        Arriving,
    > {
        Waiting {
            rank: sc.scheduler_rank(p@.ty),
            cost: table::capped(egress::packet_cost(p@)) as usize,
            item: Arriving { packet: Some(p), frame: None, from },
        }
    }

    /// What keeping a packet that came waiting does.
    pub open spec fn put_aside(
        self,
        after: Station,
        sc: schema::SchemaSpec,
        p: PacketSpec,
        from: Option<usize>,
        r: TelemetryResult<()>,
    ) -> bool {
        &&& after == Station { core: after.core, ..self }
        &&& exists|c: Packet|
            c@ == p && #[trigger] self.core.queued(
                after.core,
                sc,
                Self::waiting(sc, c, from),
                r,
            )
    }

    /// What a packet does that a relay hands on: it is followed, where it came from is
    /// remembered, and it is counted.
    pub open spec fn relayed(self, after: Station, p: PacketSpec, side: usize, now: u64) -> bool {
        exists|mid: Station|
            {
                &&& #[trigger] self.followed(mid, p, now)
                &&& after.returns.items@ == ledger::routed(
                    mid.returns.items@,
                    packet::packet_identity(p),
                    side,
                )
                &&& Station { returns: after.returns, ..mid }.with_wire(after, side)
                &&& mid.wires@[side as int].counted(
                    after.wires@[side as int],
                    p.ty,
                    LinkEvent::Taken { relayed: true, local: false },
                )
            }
    }

    /// What a packet does that is to wait: a message that a board has a packet is taken at once,
    /// and so is a packet that comes again while it is waited for.
    pub open spec fn set_aside(
        self,
        after: Station,
        sc: schema::SchemaSpec,
        p: PacketSpec,
        from: Option<usize>,
        now: u64,
        r: TelemetryResult<()>,
    ) -> bool {
        match (self.core.side_fault(from), ledger::acked(p), from) {
            (Some(w), _, _) => {
                &&& r matches Err(TelemetryError::HandlerError(m)) && m@ == w
                &&& after == self
            },
            (None, Some((id, board)), _) => r is Ok && self.receipted(after, p, id, board),
            (None, None, None) => self.put_aside(after, sc, p, from, r),
            (None, None, Some(side)) => exists|mid: Station|
                {
                    &&& #[trigger] self.counted_in(mid, p, side)
                    &&& if !self.core.relay || p.ty < FIRST_USER_TYPE {
                        mid.put_aside(after, sc, p, from, r)
                    } else if self.is_wanted(p) {
                        &&& r is Ok
                        &&& mid.spread(
                            after,
                            p,
                            duties::ways(
                                self.core.presence@,
                                ledger::holders_of(
                                    self.pending@,
                                    packet::packet_identity(p),
                                )->0,
                                side,
                                now,
                            ),
                        )
                    } else {
                        exists|done: Station| #[trigger]
                            mid.relayed(done, p, side, now) && done.put_aside(
                                after,
                                sc,
                                p,
                                from,
                                r,
                            )
                    }
                },
        }
    }

    fn put(&mut self, reg: &Registry, p: &Packet, from: Option<usize>) -> (r: TelemetryResult<()>)
        requires
            old(self).wf(),
        ensures
            final(self).wf(),
            old(self).put_aside(*final(self), reg.schema@, p@, from, r),
    {
        let c: Packet = p.copied();
        let ghost copy = c;
        let r: TelemetryResult<()> = self.core.queue_packet(&reg.schema, c, from);
        assert(copy@ == p@ && old(self).core.queued(
            self.core,
            reg.schema@,
            Self::waiting(reg.schema@, copy, from),
            r,
        ));
        r
    }

    fn relay_on(&mut self, p: &Packet, side: usize, now: u64)
        requires
            old(self).wf(),
            side < old(self).wires@.len(),
        ensures
            final(self).wf(),
            final(self).core == old(self).core,
            old(self).relayed(*final(self), p@, side, now),
    {
        self.follow(p, now);
        let ghost mid = *self;
        assert(old(self).followed(mid, p@, now));
        self.returns.note(p.packet_id(), side);
        self.wires[side].stats.note(
            p.data_type(),
            LinkEvent::Taken { relayed: true, local: false },
        );
    }

    /// Keeps a packet that comes waiting.
    pub fn queue(&mut self, reg: &Registry, p: &Packet, from: Option<usize>, now: u64) -> (r:
        TelemetryResult<()>)
        requires
            old(self).wf(),
        ensures
            final(self).wf(),
            old(self).set_aside(*final(self), reg.schema@, p@, from, now, r),
    {
        if let Err(e) = self.core.check_side(from) {
            return Err(e);
        }
        if self.take_receipt(p) {
            return Ok(());
        }
        let side: usize = match from {
            Some(side) => side,
            None => return self.put(reg, p, from),
        };
        self.wires[side].take(p, p.data_size());
        let ghost mid = *self;
        assert(old(self).counted_in(mid, p@, side));
        if self.core.relay && p.data_type() >= FIRST_USER_TYPE {
            if self.send_again(p, side, now) {
                return Ok(());
            }
            self.relay_on(p, side, now);
            assert(mid.relayed(*self, p@, side, now));
        }
        self.put(reg, p, from)
    }

    /// What a packet that waited does before anything is decided: its sender is heard of.
    pub open spec fn met(
        self,
        after: Station,
        p: PacketSpec,
        from: Option<usize>,
        now: u64,
        moved: Option<AddressChange>,
    ) -> bool {
        match from {
            Some(side) => self.heard(after, p, side, now, moved),
            None => moved is None && after == self,
        }
    }

    /// What taking what comes next from those that came does.
    pub open spec fn popped(self, after: Station, w: Waiting<Arriving>) -> bool {
        &&& self.core.rx_popped(after.core, w)
        &&& after == Station { core: after.core, ..self }
    }

    /// What something does that waited.
    pub open spec fn resumed(
        self,
        after: Station,
        reg: Registry,
        reg_after: Registry,
        item: Arriving,
        now: u64,
        r: TelemetryResult<Delivery>,
    ) -> bool {
        match (self.core.side_fault(item.from), item.packet, item.frame) {
            (Some(w), _, _) => {
                &&& r matches Err(TelemetryError::HandlerError(m)) && m@ == w
                &&& after == self
                &&& reg_after == reg
            },
            (None, Some(p), _) => exists|mid: Station, moved: Option<AddressChange>|
                {
                    &&& #[trigger] self.met(mid, p@, item.from, now, moved)
                    &&& mid.worked(after, reg, reg_after, p@, item.from, now, moved, r)
                },
            (None, None, Some(f)) => self.took_frame(
                after,
                reg,
                reg_after,
                f@,
                item.from,
                now,
                r,
            ),
            (None, None, None) => {
                &&& r matches Ok(Delivery::Nothing)
                &&& after == self
                &&& reg_after == reg
            },
        }
    }

    fn resume(&mut self, reg: &mut Registry, item: Arriving, now: u64) -> (r: TelemetryResult<
        Delivery,
    >)
        requires
            old(self).wf(),
            old(reg).schema@.wf(),
        ensures
            final(self).wf(),
            final(reg).schema@ == old(reg).schema@,
            old(self).resumed(*final(self), *old(reg), *final(reg), item, now, r),
    {
        if let Err(e) = self.core.check_side(item.from) {
            return Err(e);
        }
        match (item.packet, item.frame) {
            (Some(p), _) => {
                let moved: Option<AddressChange> = match item.from {
                    Some(side) => self.hear_address(&p, side, now),
                    None => None,
                };
                assert(old(self).met(*self, p@, item.from, now, moved));
                self.work(reg, &p, item.from, now, moved)
            },
            (None, Some(f)) => self.receive_frame(reg, f, item.from, now),
            (None, None) => Ok(Delivery::Nothing),
        }
    }

    /// Works on what came and waits: the next of the highest rank.
    pub fn work_next(&mut self, reg: &mut Registry, now: u64) -> (r: Option<
        TelemetryResult<Delivery>,
    >)
        requires
            old(self).wf(),
            old(reg).schema@.wf(),
        ensures
            final(self).wf(),
            final(reg).schema@ == old(reg).schema@,
            old(self).core.rx@.len() == 0 ==> r is None && *final(self) == *old(self)
                && *final(reg) == *old(reg),
            old(self).core.rx@.len() > 0 ==> exists|mid: Station, w: Waiting<Arriving>|
                {
                    &&& #[trigger] old(self).popped(mid, w)
                    &&& r matches Some(x) && mid.resumed(
                        *final(self),
                        *old(reg),
                        *final(reg),
                        w.item,
                        now,
                        x,
                    )
                },
    {
        match self.core.rx.pop() {
            None => None,
            Some(w) => {
                let ghost mid = *self;
                let ghost wv = w;
                assert(old(self).core.rx_popped(mid.core, wv));
                assert(old(self).popped(mid, wv));
                Some(self.resume(reg, w.item, now))
            },
        }
    }

    /// What a packet of this board does: where values of its type are kept it is kept, it is
    /// followed to the boards that it is for, and it goes out; a question for the time goes to the
    /// board whose time is gone by.
    pub open spec fn sent_out(
        self,
        after: Station,
        sc: schema::SchemaSpec,
        p: PacketSpec,
        now: u64,
        r: TelemetryResult<()>,
    ) -> bool {
        exists|mid: Station|
            {
                &&& #[trigger] self.prepared(mid, p, now)
                &&& after == Station { core: after.core, ..mid }
                &&& match (p.ty == TY_TIMESYNC_REQUEST, self.way_to_time(now)) {
                    (true, Some(side)) => mid.core.sent_over(after.core, p, side, r),
                    _ => mid.core.submitted(after.core, sc, p, now, r),
                }
            }
    }

    /// What is done with a packet of this board before it goes out.
    pub open spec fn prepared(self, after: Station, p: PacketSpec, now: u64) -> bool {
        exists|mid: Station| #[trigger] self.kept_value(mid, p) && mid.followed(after, p, now)
    }

    /// Sends a packet of this board; says whether it carries a value that is kept and changed.
    pub fn submit(&mut self, reg: &Registry, p: &Packet, now: u64) -> (r: (bool, TelemetryResult<()>))
        requires
            old(self).wf(),
        ensures
            final(self).wf(),
            r.0 == old(self).is_news(p@),
            old(self).sent_out(*final(self), reg.schema@, p@, now, r.1),
    {
        let changed: bool = self.keep_value(p);
        assert(old(self).kept_value(*self, p@));
        self.follow(p, now);
        assert(old(self).prepared(*self, p@, now));
        if p.data_type() == TY_TIMESYNC_REQUEST {
            if let Some(side) = self.time_side(now) {
                let r: TelemetryResult<()> = self.core.send_over(p.copied(), side);
                return (changed, r);
            }
        }
        let r: TelemetryResult<()> = self.core.submit(&reg.schema, p, now);
        (changed, r)
    }
}

} // verus!
