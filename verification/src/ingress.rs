//! What a router does with what comes in.
use vstd::prelude::*;
use vstd::string::*;
use crate::codec;
use crate::definition;
use crate::discovery;
use crate::discovery::DISCOVERY_FAST_INTERVAL_MS;
use crate::error::{TelemetryError, TelemetryResult};
use crate::hash;
use crate::jobs;
use crate::jobs::{Job, JobSpec, Target};
use crate::meta::{
    DataType, EP_TELEMETRY_ERROR, TY_DISCOVERY_ADDRESS, TY_DISCOVERY_ANNOUNCE, TY_DISCOVERY_LEAVE,
    TY_DISCOVERY_TIMESYNC_SOURCES, TY_DISCOVERY_TOPOLOGY, TY_RELIABLE_ACK,
    TY_RELIABLE_PACKET_REQUEST, TY_RELIABLE_PARTIAL_ACK,
};
use crate::packet;
use crate::packet::{Packet, PacketSpec};
use crate::presence;
use crate::presence::AnnouncerSpec;
use crate::recent;
use crate::registry;
use crate::registry::Registry;
use crate::reliable;
use crate::reliable::{Arrival, ReliableRx, RxSpec};
use crate::router;
use crate::router::Router;
use crate::routes;
use crate::schema;
use crate::schema::Schema;
use crate::wire_format;
use crate::wire_format::ReliableHeader;

verus! {

/// Whether a type is of messages by which two ends of a link agree on what arrived.
pub open spec fn is_control(ty: DataType) -> bool {
    TY_RELIABLE_ACK <= ty <= TY_RELIABLE_PACKET_REQUEST
}

/// The two numbers in a message of such a type: a type, and the number of a frame.
pub open spec fn control_words(payload: Seq<u8>) -> Option<(u32, u32)> {
    match codec::read_le4(payload) {
        Some((ty, rest)) => match codec::read_le4(rest) {
            Some((n, end)) => if end.len() == 0 {
                Some((ty, n))
            } else {
                None
            },
            None => None,
        },
        None => None,
    }
}

/// What is known after a discovery message came over a link.
pub open spec fn learnt(
    s: Seq<AnnouncerSpec>,
    p: PacketSpec,
    side: usize,
    now: u64,
) -> Seq<AnnouncerSpec> {
    let k = presence::known(s, side, p.address, p.sender);
    if p.ty == TY_DISCOVERY_LEAVE {
        presence::others(s, None, Some(p.address))
    } else if p.ty == TY_DISCOVERY_ANNOUNCE {
        match discovery::whole(definition::read_ids(p.payload)) {
            Some(v) => presence::noted(s, AnnouncerSpec { endpoints: v, last_seen: now, ..k }),
            None => s,
        }
    } else if p.ty == TY_DISCOVERY_ADDRESS {
        match discovery::whole(discovery::read_address(p.payload)) {
            Some(a) => presence::noted(
                s,
                AnnouncerSpec {
                    endpoints: a.reachable_endpoints,
                    sources: a.reachable_timesync_sources,
                    last_seen: now,
                    ..k
                },
            ),
            None => s,
        }
    } else if p.ty == TY_DISCOVERY_TIMESYNC_SOURCES {
        match discovery::whole(discovery::read_texts(p.payload)) {
            Some(v) => presence::noted(s, AnnouncerSpec { sources: v, last_seen: now, ..k }),
            None => s,
        }
    } else if p.ty == TY_DISCOVERY_TOPOLOGY {
        match discovery::whole(discovery::read_boards(p.payload)) {
            Some(v) => presence::noted(s, AnnouncerSpec { boards: v, last_seen: now, ..k }),
            None => s,
        }
    } else {
        presence::noted(s, AnnouncerSpec { last_seen: now, ..k })
    }
}

/// Whether a discovery message tells of a board that came or went.
pub open spec fn is_news(s: Seq<AnnouncerSpec>, p: PacketSpec, side: usize) -> bool {
    if p.ty == TY_DISCOVERY_LEAVE {
        presence::found(s, None, Some(p.address)) is Some
    } else {
        presence::found(s, Some(side), Some(p.address)) is None
    }
}

/// A frame goes over a link as it is.
pub open spec fn raw_job(side: usize, frame: Seq<u8>) -> JobSpec {
    JobSpec { target: Target::Side(side), packet: None, frame: Some(frame), tries: 0, quiet: false }
}

/// The frames that came over a link.
pub open spec fn inflow(held: Map<u128, RxSpec>, key: u128) -> RxSpec {
    if held.contains_key(key) {
        held[key]
    } else {
        RxSpec { expected: 1, held: Map::empty() }
    }
}

/// What the other end is told when a frame with the number `seq` arrives and the frame
/// `expected` is next.
pub open spec fn replies(a: Arrival, seq: u32, expected: u32) -> Seq<(DataType, u32)> {
    match a {
        Arrival::InTurn => seq![(TY_RELIABLE_ACK, expected.wrapping_sub(1))],
        Arrival::Again => seq![(TY_RELIABLE_ACK, expected.wrapping_sub(1))],
        Arrival::Early => seq![
            (TY_RELIABLE_PARTIAL_ACK, seq),
            (TY_RELIABLE_PACKET_REQUEST, expected),
        ],
        Arrival::TooEarly => seq![(TY_RELIABLE_PACKET_REQUEST, expected)],
    }
}

/// The nonce after `k` packets were made.
pub open spec fn nonce_after(n: u16, k: nat) -> u16 {
    ((n + k) % 65536) as u16
}

/// What the other end is told, as jobs.
pub open spec fn reply_jobs(
    list: Seq<(DataType, u32)>,
    side: usize,
    ty: DataType,
    sender: Seq<char>,
    now: u64,
    nonce: u16,
) -> Seq<JobSpec> {
    Seq::new(
        list.len(),
        |i: int|
            JobSpec {
                target: Target::Side(side),
                packet: Some(
                    packet::new_packet(
                        schema::builtin_type(list[i].0),
                        seq![EP_TELEMETRY_ERROR],
                        sender,
                        now,
                        codec::le4(ty) + codec::le4(list[i].1),
                        nonce_after(nonce, i as nat),
                    ),
                ),
                frame: None,
                tries: 0,
                quiet: false,
            },
    )
}

/// The number after a number; after the largest comes zero.
pub open spec fn next_count(n: u64) -> u64 {
    if n == u64::MAX {
        0
    } else {
        (n + 1) as u64
    }
}

/// The first error among results.
pub open spec fn first_error(v: Seq<TelemetryResult<()>>) -> TelemetryResult<()>
    decreases v.len(),
{
    if v.len() == 0 {
        Ok(())
    } else if v[0] is Err {
        v[0]
    } else {
        first_error(v.skip(1))
    }
}

impl Router {
    /// Why nothing may come over a link.
    pub open spec fn side_fault(self, from: Option<usize>) -> Option<Seq<char>> {
        match from {
            None => None,
            Some(s) => if !self.has_side(s) {
                Some(
                    if self.relay {
                        "relay: invalid side id"@
                    } else {
                        "router: invalid side id"@
                    },
                )
            } else if !self.sides@[s as int].ingress {
                Some("side ingress disabled"@)
            } else {
                None
            },
        }
    }

    /// Whether something may come over a link.
    pub fn check_side(&self, from: Option<usize>) -> (r: TelemetryResult<()>)
        ensures
            match self.side_fault(from) {
                Some(w) => r matches Err(TelemetryError::HandlerError(m)) && m@ == w,
                None => r is Ok,
            },
    {
        match from {
            None => Ok(()),
            Some(s) => {
                if s >= self.sides.len() || !self.sides[s].alive {
                    if self.relay {
                        Err(TelemetryError::HandlerError("relay: invalid side id"))
                    } else {
                        Err(TelemetryError::HandlerError("router: invalid side id"))
                    }
                } else if !self.sides[s].ingress {
                    Err(TelemetryError::HandlerError("side ingress disabled"))
                } else {
                    Ok(())
                }
            },
        }
    }

    /// What a discovery message does: one of this board does nothing; one that tells of a board
    /// that came or went makes this board announce itself soon, and more often.
    pub open spec fn learned(self, after: Router, p: PacketSpec, side: usize, now: u64) -> bool {
        if p.address == hash::name_address(self.sender@) {
            after == self
        } else {
            let news = is_news(self.presence@, p, side);
            &&& after.presence@ == learnt(self.presence@, p, side, now)
            &&& after == Router {
                presence: after.presence,
                next_announce: if news {
                    0
                } else {
                    self.next_announce
                },
                interval: if news {
                    DISCOVERY_FAST_INTERVAL_MS
                } else {
                    self.interval
                },
                news: if news {
                    next_count(self.news)
                } else {
                    self.news
                },
                ..self
            }
        }
    }

    fn learn(&mut self, p: &Packet, side: usize, now: u64)
        requires
            old(self).wf(),
        ensures
            final(self).wf(),
            old(self).learned(*final(self), p@, side, now),
    {
        if p.sender_address() == hash::sender_address_u32(self.sender.as_str()) {
            return;
        }
        let a: u32 = p.sender_address();
        let ty: DataType = p.data_type();
        let news: bool = if ty == TY_DISCOVERY_LEAVE {
            self.presence.knows(None, a)
        } else {
            !self.presence.knows(Some(side), a)
        };
        if news {
            self.next_announce = 0;
            self.interval = DISCOVERY_FAST_INTERVAL_MS;
            self.news = if self.news == u64::MAX {
                0
            } else {
                self.news + 1
            };
        }
        if ty == TY_DISCOVERY_ADDRESS {
            if let Ok(x) = discovery::decode_discovery_address(p) {
                self.presence.learn_reach(
                    side,
                    a,
                    p.sender(),
                    x.reachable_endpoints,
                    x.reachable_timesync_sources,
                    now,
                );
            }
        } else if ty == TY_DISCOVERY_LEAVE {
            self.presence.leave(a);
        } else if ty == TY_DISCOVERY_ANNOUNCE {
            if let Ok(v) = discovery::decode_discovery_announce(p) {
                self.presence.learn_endpoints(side, a, p.sender(), v, now);
            }
        } else if ty == TY_DISCOVERY_TIMESYNC_SOURCES {
            if let Ok(v) = discovery::decode_discovery_timesync_sources(p) {
                self.presence.learn_sources(side, a, p.sender(), v, now);
            }
        } else if ty == TY_DISCOVERY_TOPOLOGY {
            if let Ok(v) = discovery::decode_discovery_topology(p) {
                self.presence.learn_boards(side, a, p.sender(), v, now);
            }
        } else {
            self.presence.note_alive(side, a, p.sender(), now);
        }
    }

    /// What a message about frames of a link does: frames that arrived need not be kept, and one
    /// that is asked for is sent again.
    pub open spec fn controlled(self, after: Router, p: PacketSpec, side: usize) -> bool {
        match control_words(p.payload) {
            None => after == self,
            Some((ty, n)) => {
                let key = router::flow_key(side, ty);
                if p.ty == TY_RELIABLE_ACK && self.sent@.contains_key(key) {
                    &&& after.sent@ == self.sent@.insert(key, self.sent@[key].acknowledged(n))
                    &&& after == Router { sent: after.sent, ..self }
                } else if p.ty == TY_RELIABLE_PACKET_REQUEST {
                    match reliable::frame_of(router::flow(self.sent@, key).sent, n) {
                        Some(f) => {
                            &&& jobs::jobs(after.agenda@) == jobs::jobs(self.agenda@).push(
                                raw_job(side, f),
                            )
                            &&& after == Router { agenda: after.agenda, ..self }
                        },
                        None => after == self,
                    }
                } else {
                    after == self
                }
            },
        }
    }

    fn acknowledge(&mut self, key: u128, n: u32)
        requires
            old(self).wf(),
        ensures
            final(self).wf(),
            old(self).sent@.contains_key(key) ==> final(self).sent@ == old(self).sent@.insert(
                key,
                old(self).sent@[key].acknowledged(n),
            ) && *final(self) == (Router { sent: final(self).sent, ..*old(self) }),
            !old(self).sent@.contains_key(key) ==> *final(self) == *old(self),
    {
        let has: bool = self.sent.get(key).is_some();
        if has {
            let ghost before = self.sent@;
            if let Some(mut l) = self.sent.remove(key) {
                l.acknowledge(n);
                self.sent.put(key, l);
                assert(self.sent@ =~= before.insert(key, l@));
            }
        }
    }

    pub(crate) fn send_raw(&mut self, side: usize, frame: Vec<u8>)
        requires
            old(self).wf(),
        ensures
            final(self).wf(),
            jobs::jobs(final(self).agenda@) == jobs::jobs(old(self).agenda@).push(
                raw_job(side, frame@),
            ),
            *final(self) == (Router { agenda: final(self).agenda, ..*old(self) }),
    {
        let ghost before = self.agenda@;
        let j = Job {
            target: Target::Side(side),
            packet: None,
            frame: Some(frame),
            tries: 0,
            quiet: false,
        };
        let ghost jv = j@;
        self.agenda.push(j);
        assert(jobs::jobs(self.agenda@) =~= jobs::jobs(before).push(jv));
    }

    fn control(&mut self, p: &Packet, side: usize)
        requires
            old(self).wf(),
            side < routes::MAX_SIDES,
        ensures
            final(self).wf(),
            old(self).controlled(*final(self), p@, side),
    {
        let bytes: &[u8] = p.payload();
        let total: usize = bytes.len();
        assert(bytes@.skip(0) =~= bytes@);
        let (ty, at): (u32, usize) = match codec::read_le4_at(bytes, 0) {
            Some(x) => x,
            None => return,
        };
        let (n, end): (u32, usize) = match codec::read_le4_at(bytes, at) {
            Some(x) => x,
            None => return,
        };
        if end != total {
            return;
        }
        let key: u128 = ty as u128 * 0x1_0000_0000 + side as u128;
        assert(key == router::flow_key(side, ty));
        if p.data_type() == TY_RELIABLE_ACK {
            self.acknowledge(key, n);
        } else if p.data_type() == TY_RELIABLE_PACKET_REQUEST {
            let found: Option<Vec<u8>> = match self.sent.get(key) {
                Some(l) => l.find(n),
                None => None,
            };
            if let Some(f) = found {
                self.send_raw(side, f);
            }
        }
    }

    /// What remembering a packet does.
    pub open spec fn seen(self, after: Router, id: u64) -> bool {
        &&& after.recent@ == recent::remembered(self.recent@, self.recent.bound(), id)
        &&& after.recent.bound() == self.recent.bound()
        &&& after == Router { recent: after.recent, ..self }
    }

    /// What a packet that came over a link, or from this board, does: one that was seen before
    /// does nothing; a discovery message tells of boards; any other is delivered.
    pub open spec fn received(
        self,
        after: Router,
        sc: schema::SchemaSpec,
        p: PacketSpec,
        frame: Option<Seq<u8>>,
        from: Option<usize>,
        now: u64,
        r: TelemetryResult<()>,
    ) -> bool {
        match self.side_fault(from) {
            Some(w) => {
                &&& r matches Err(TelemetryError::HandlerError(m)) && m@ == w
                &&& after == self
            },
            None => {
                &&& r is Ok
                &&& if is_control(p.ty) {
                    match from {
                        Some(s) => self.controlled(after, p, s),
                        None => after == self,
                    }
                } else {
                    exists|mid: Router|
                        {
                            &&& #[trigger] self.seen(mid, packet::packet_identity(p))
                            &&& if self.recent@.contains(packet::packet_identity(p)) {
                                after == mid
                            } else if discovery::is_discovery(p.ty) {
                                match from {
                                    Some(s) => mid.learned(after, p, s, now),
                                    None => after == mid,
                                }
                            } else {
                                mid.delivered(after, sc, p, frame, from, now, false)
                            }
                        }
                }
            },
        }
    }

    /// Takes a packet that came over a link, or from this board.
    pub fn receive(
        &mut self,
        schema: &Schema,
        p: &Packet,
        frame: Option<Vec<u8>>,
        from: Option<usize>,
        now: u64,
    ) -> (r: TelemetryResult<()>)
        requires
            old(self).wf(),
        ensures
            final(self).wf(),
            old(self).received(
                *final(self),
                schema@,
                p@,
                jobs::frame_in(frame),
                from,
                now,
                r,
            ),
    {
        if let Err(e) = self.check_side(from) {
            return Err(e);
        }
        let ty: DataType = p.data_type();
        if TY_RELIABLE_ACK <= ty && ty <= TY_RELIABLE_PACKET_REQUEST {
            if let Some(s) = from {
                self.control(p, s);
            }
            return Ok(());
        }
        let fresh: bool = self.recent.insert(p.packet_id());
        let ghost mid = *self;
        assert(old(self).seen(mid, packet::packet_identity(p@)));
        if !fresh {
            return Ok(());
        }
        if discovery::is_discovery_type(ty) {
            if let Some(s) = from {
                self.learn(p, s, now);
            }
            return Ok(());
        }
        self.deliver(schema, p, frame, from, now, false);
        Ok(())
    }

    fn reply_all(
        &mut self,
        reg: &mut Registry,
        list: &Vec<(DataType, u32)>,
        side: usize,
        ty: DataType,
        now: u64,
    )
        requires
            old(self).wf(),
            old(reg).schema@.wf(),
            forall|i: int| 0 <= i < list@.len() ==> is_control(#[trigger] list@[i].0),
            list@.len() < 100,
        ensures
            final(self).wf(),
            jobs::jobs(final(self).agenda@) == jobs::jobs(old(self).agenda@) + reply_jobs(
                list@,
                side,
                ty,
                old(self).sender@,
                now,
                old(reg).nonce,
            ),
            *final(self) == (Router { agenda: final(self).agenda, ..*old(self) }),
            replied(*old(reg), *final(reg), old(self).sender@, list@.len()),
    {
        let mut i: usize = 0;
        let ghost first = jobs::jobs(self.agenda@);
        let ghost all = reply_jobs(list@, side, ty, self.sender@, now, reg.nonce);
        assert(first + all.take(0) =~= first);
        while i < list.len()
            invariant
                i <= list@.len() < 100,
                self.wf(),
                reg.schema@.wf(),
                *self == (Router { agenda: self.agenda, ..*old(self) }),
                first == jobs::jobs(old(self).agenda@),
                all == reply_jobs(list@, side, ty, old(self).sender@, now, old(reg).nonce),
                jobs::jobs(self.agenda@) == first + all.take(i as int),
                replied(*old(reg), *reg, old(self).sender@, i as nat),
                forall|k: int| 0 <= k < list@.len() ==> is_control(#[trigger] list@[k].0),
            decreases list@.len() - i,
        {
            let ghost before = self.agenda@;
            let ghost reg_before = *reg;
            let mut payload: Vec<u8> = Vec::new();
            codec::write_le4(&mut payload, ty);
            codec::write_le4(&mut payload, list[i].1);
            assert(payload@ =~= codec::le4(ty) + codec::le4(list@[i as int].1));
            let to: [u32; 1] = [EP_TELEMETRY_ERROR];
            assert(to@ =~= seq![EP_TELEMETRY_ERROR]);
            assert(is_control(list@[i as int].0));
            assert(reg.schema@.message(list@[i as int].0) == Some(
                schema::builtin_type(list@[i as int].0),
            ));
            let made: TelemetryResult<Packet> = Packet::new(
                reg,
                list[i].0,
                &to,
                self.sender.as_str(),
                now,
                payload,
            );
            match made {
                Ok(p) => {
                    let j = Job {
                        target: Target::Side(side),
                        packet: Some(p),
                        frame: None,
                        tries: 0,
                        quiet: false,
                    };
                    let ghost jv = j@;
                    self.agenda.push(j);
                    proof {
                        assert(jobs::jobs(self.agenda@) =~= jobs::jobs(before).push(jv));
                        assert(jv == all[i as int]);
                        assert(all.take(i + 1) =~= all.take(i as int).push(jv));
                        assert((first + all.take(i as int)).push(jv) =~= first + all.take(
                            i as int,
                        ).push(jv));
                        lemma_noted_once(*old(reg), reg_before, *reg, old(self).sender@, i as nat);
                    }
                },
                Err(_) => {
                    assert(false);
                },
            }
            i = i + 1;
        }
        assert(all.take(i as int) =~= all);
    }

    /// Whether frames that come over a link are numbered.
    pub open spec fn numbers(self, sc: schema::SchemaSpec, side: usize, ty: DataType) -> bool {
        self.has_side(side) && self.sides@[side as int].reliable && router::may_number(sc, ty)
    }

    /// What a frame that comes over a link does to the link, and which frames' turn it then is.
    pub open spec fn sorted_in(
        self,
        after: Router,
        reg: Registry,
        reg_after: Registry,
        frame: Seq<u8>,
        from: Option<usize>,
        now: u64,
        r: TelemetryResult<Vec<Vec<u8>>>,
    ) -> bool {
        match self.side_fault(from) {
            Some(w) => {
                &&& r matches Err(TelemetryError::HandlerError(m)) && m@ == w
                &&& after == self
                &&& reg_after == reg
            },
            None => match wire_format::peek(reg.schema@, frame) {
                Err(f) => {
                    &&& r matches Err(e) && f.reported_by(e)
                    &&& after == self
                    &&& reg_after == reg
                },
                Ok((h, _)) => {
                    let ty = h.scalars.ty;
                    match (h.reliable, from) {
                        (Some(x), Some(s)) => {
                            let key = router::flow_key(s, ty);
                            if x.flags % 2 == 1 {
                                &&& frames_are(r, Seq::empty())
                                &&& reg_after == reg
                                &&& if self.sent@.contains_key(key) {
                                    &&& after.sent@ == self.sent@.insert(
                                        key,
                                        self.sent@[key].acknowledged(x.ack),
                                    )
                                    &&& after == Router { sent: after.sent, ..self }
                                } else {
                                    after == self
                                }
                            } else if !self.numbers(reg.schema@, s, ty) {
                                &&& frames_are(r, seq![frame])
                                &&& after == self
                                &&& reg_after == reg
                            } else if (x.flags / 2) % 2 == 1 {
                                &&& frames_are(r, seq![frame])
                                &&& self.answered(
                                    after,
                                    reg,
                                    reg_after,
                                    seq![(TY_RELIABLE_ACK, x.seq)],
                                    s,
                                    ty,
                                    now,
                                )
                            } else {
                                let link = inflow(self.held@, key);
                                &&& frames_are(r, link.handed(x.seq, frame))
                                &&& exists|mid: Router|
                                    {
                                        &&& #[trigger] self.kept(
                                            mid,
                                            key,
                                            link.arrived(x.seq, frame),
                                        )
                                        &&& mid.answered(
                                            after,
                                            reg,
                                            reg_after,
                                            replies(
                                                link.arrival(x.seq),
                                                x.seq,
                                                link.arrived(x.seq, frame).expected,
                                            ),
                                            s,
                                            ty,
                                            now,
                                        )
                                    }
                            }
                        },
                        (Some(x), None) => {
                            &&& frames_are(
                                r,
                                if x.flags % 2 == 1 {
                                    Seq::empty()
                                } else {
                                    seq![frame]
                                },
                            )
                            &&& after == self
                            &&& reg_after == reg
                        },
                        (None, _) => {
                            &&& frames_are(r, seq![frame])
                            &&& after == self
                            &&& reg_after == reg
                        },
                    }
                },
            },
        }
    }

    /// What answering does.
    pub open spec fn answered(
        self,
        after: Router,
        reg: Registry,
        reg_after: Registry,
        list: Seq<(DataType, u32)>,
        side: usize,
        ty: DataType,
        now: u64,
    ) -> bool {
        &&& jobs::jobs(after.agenda@) == jobs::jobs(self.agenda@) + reply_jobs(
            list,
            side,
            ty,
            self.sender@,
            now,
            reg.nonce,
        )
        &&& after == Router { agenda: after.agenda, ..self }
        &&& replied(reg, reg_after, self.sender@, list.len())
    }

    /// What a change of the receiving half of a link does.
    pub open spec fn kept(self, after: Router, key: u128, link: RxSpec) -> bool {
        &&& after.held@ == self.held@.insert(key, link)
        &&& after.flows@ == (if self.held@.contains_key(key) {
            self.flows@
        } else {
            self.flows@.push(key)
        })
        &&& after == Router { held: after.held, flows: after.flows, ..self }
    }

    fn hold(&mut self, key: u128, seq: u32, frame: Vec<u8>) -> (r: (Arrival, u32, Vec<Vec<u8>>))
        requires
            old(self).wf(),
        ensures
            final(self).wf(),
            ({
                let link = inflow(old(self).held@, key);
                &&& r.0 == link.arrival(seq)
                &&& r.1 == link.arrived(seq, frame@).expected
                &&& r.2@.map_values(|f: Vec<u8>| f@) == link.handed(seq, frame@)
                &&& old(self).kept(*final(self), key, link.arrived(seq, frame@))
            }),
    {
        let ghost before = self.held@;
        let ghost old_flows = self.flows@;
        let mut link: ReliableRx = match self.held.remove(key) {
            Some(l) => l,
            None => {
                self.flows.push(key);
                ReliableRx::new()
            },
        };
        let (a, frames): (Arrival, Vec<Vec<u8>>) = link.accept(seq, frame);
        let next: u32 = link.expected_seq();
        self.held.put(key, link);
        proof {
            assert(self.held@ =~= before.insert(key, link@));
            assert forall|k: u128| #[trigger] self.held@.contains_key(k) implies
                self.flows@.contains(k) by {
                if k == key && !before.contains_key(key) {
                    assert(self.flows@[old_flows.len() as int] == key);
                } else {
                    assert(before.contains_key(k));
                    let i = choose|i: int| 0 <= i < old_flows.len() && old_flows[i] == k;
                    assert(self.flows@[i] == k);
                }
            }
            assert forall|k: u128| #[trigger] self.sent@.contains_key(k) implies
                self.flows@.contains(k) by {
                let i = choose|i: int| 0 <= i < old_flows.len() && old_flows[i] == k;
                assert(self.flows@[i] == k);
            }
        }
        (a, next, frames)
    }

    /// Decides which frames' turn it is when a frame comes over a link, and tells the other end.
    pub fn sort_frame(
        &mut self,
        reg: &mut Registry,
        frame: Vec<u8>,
        from: Option<usize>,
        now: u64,
    ) -> (r: TelemetryResult<Vec<Vec<u8>>>)
        requires
            old(self).wf(),
            old(reg).schema@.wf(),
        ensures
            final(self).wf(),
            final(reg).schema == old(reg).schema,
            old(self).sorted_in(
                *final(self),
                *old(reg),
                *final(reg),
                frame@,
                from,
                now,
                r,
            ),
    {
        if let Err(e) = self.check_side(from) {
            return Err(e);
        }
        let info = match wire_format::peek_frame_info(reg, frame.as_slice()) {
            Ok(i) => i,
            Err(e) => return Err(e),
        };
        let ty: DataType = info.envelope.ty;
        let ghost given = frame@;
        let (x, s): (ReliableHeader, usize) = match (info.reliable, from) {
            (Some(x), Some(s)) => (x, s),
            (Some(x), None) => {
                let mut out: Vec<Vec<u8>> = Vec::new();
                if x.flags % 2 == 0 {
                    out.push(frame);
                    assert(out@.map_values(|f: Vec<u8>| f@) =~= seq![given]);
                } else {
                    assert(out@.map_values(|f: Vec<u8>| f@) =~= Seq::empty());
                }
                return Ok(out);
            },
            (None, _) => {
                let mut out: Vec<Vec<u8>> = Vec::new();
                out.push(frame);
                assert(out@.map_values(|f: Vec<u8>| f@) =~= seq![given]);
                return Ok(out);
            },
        };
        let key: u128 = ty as u128 * 0x1_0000_0000 + s as u128;
        assert(key == router::flow_key(s, ty));
        let mut out: Vec<Vec<u8>> = Vec::new();
        assert(out@.map_values(|f: Vec<u8>| f@) =~= Seq::empty());
        if x.flags % 2 == 1 {
            self.acknowledge(key, x.ack);
            return Ok(out);
        }
        let numbered: bool = self.sides[s].reliable && router::may_number_of(&reg.schema, ty);
        if !numbered {
            out.push(frame);
            assert(out@.map_values(|f: Vec<u8>| f@) =~= seq![given]);
            return Ok(out);
        }
        let mut list: Vec<(DataType, u32)> = Vec::new();
        if (x.flags / 2) % 2 == 1 {
            list.push((TY_RELIABLE_ACK, x.seq));
            assert(list@ =~= seq![(TY_RELIABLE_ACK, x.seq)]);
            self.reply_all(reg, &list, s, ty, now);
            out.push(frame);
            assert(out@.map_values(|f: Vec<u8>| f@) =~= seq![given]);
            return Ok(out);
        }
        let (a, next, frames): (Arrival, u32, Vec<Vec<u8>>) = self.hold(key, x.seq, frame);
        let ghost mid = *self;
        match a {
            Arrival::InTurn => {
                list.push((TY_RELIABLE_ACK, next.wrapping_sub(1)));
            },
            Arrival::Again => {
                list.push((TY_RELIABLE_ACK, next.wrapping_sub(1)));
            },
            Arrival::Early => {
                list.push((TY_RELIABLE_PARTIAL_ACK, x.seq));
                list.push((TY_RELIABLE_PACKET_REQUEST, next));
            },
            Arrival::TooEarly => {
                list.push((TY_RELIABLE_PACKET_REQUEST, next));
            },
        }
        assert(list@ =~= replies(a, x.seq, next));
        self.reply_all(reg, &list, s, ty, now);
        proof {
            let link = inflow(old(self).held@, key);
            assert(old(self).kept(mid, key, link.arrived(x.seq, given)));
            assert(mid.answered(*self, *old(reg), *reg, list@, s, ty, now));
        }
        Ok(frames)
    }

    /// What a frame whose turn it is does.
    pub open spec fn taken(
        self,
        after: Router,
        reg: Registry,
        frame: Seq<u8>,
        from: Option<usize>,
        now: u64,
        r: TelemetryResult<()>,
    ) -> bool {
        match wire_format::parse(reg.schema@, reg.known_names(), frame) {
            Err(f) => {
                &&& r matches Err(e) && f.reported_by(e)
                &&& after == self
            },
            Ok((p, _)) => self.received(after, reg.schema@, p, Some(frame), from, now, r),
        }
    }

    /// Takes a frame whose turn it is.
    pub fn take_frame(
        &mut self,
        reg: &Registry,
        frame: Vec<u8>,
        from: Option<usize>,
        now: u64,
    ) -> (r: TelemetryResult<()>)
        requires
            old(self).wf(),
        ensures
            final(self).wf(),
            old(self).taken(*final(self), *reg, frame@, from, now, r),
    {
        match wire_format::unpack_frame(reg, frame.as_slice()) {
            Ok(f) => self.receive(&reg.schema, &f.packet, Some(frame), from, now),
            Err(f) => Err(f.to_error()),
        }
    }

    /// What a frame that comes over a link does: first to the link, then, one after the other,
    /// every frame whose turn it is.
    pub open spec fn frame_received(
        self,
        after: Router,
        reg: Registry,
        reg_after: Registry,
        frame: Seq<u8>,
        from: Option<usize>,
        now: u64,
        r: TelemetryResult<()>,
    ) -> bool {
        exists|mid: Router, a: TelemetryResult<Vec<Vec<u8>>>|
            {
                &&& #[trigger] self.sorted_in(mid, reg, reg_after, frame, from, now, a)
                &&& match a {
                    Err(e) => after == mid && r == Err::<(), TelemetryError>(e),
                    Ok(frames) => mid.all_taken(after, reg_after, frames@, from, now, r),
                }
            }
    }

    /// What taking frames one after the other does.
    pub open spec fn all_taken(
        self,
        after: Router,
        reg: Registry,
        frames: Seq<Vec<u8>>,
        from: Option<usize>,
        now: u64,
        r: TelemetryResult<()>,
    ) -> bool {
        exists|states: Seq<Router>, results: Seq<TelemetryResult<()>>|
            {
                &&& #[trigger] is_trace(states, results, reg, frames, from, now)
                &&& states[0] == self
                &&& states.last() == after
                &&& r == first_error(results)
            }
    }

    /// Takes frames one after the other.
    pub fn take_frames(
        &mut self,
        reg: &Registry,
        frames: Vec<Vec<u8>>,
        from: Option<usize>,
        now: u64,
    ) -> (r: TelemetryResult<()>)
        requires
            old(self).wf(),
        ensures
            final(self).wf(),
            final(self).sides == old(self).sides,
            old(self).all_taken(*final(self), *reg, frames@, from, now, r),
    {
        let ghost all = frames@;
        let ghost mut states: Seq<Router> = seq![*self];
        let ghost mut results: Seq<TelemetryResult<()>> = Seq::empty();
        let ghost mut k: int = 0;
        let mut rest: Vec<Vec<u8>> = frames;
        let mut r: TelemetryResult<()> = Ok(());
        proof {
            assert(rest@ =~= all.skip(0));
            reveal(is_trace);
            assert(is_trace(states, results, *reg, all.take(0), from, now));
            assert(first_error(results) == r);
        }
        while rest.len() > 0
            invariant
                self.wf(),
                0 <= k <= all.len(),
                rest@ == all.skip(k),
                is_trace(states, results, *reg, all.take(k), from, now),
                states.len() > 0,
                self.sides == old(self).sides,
                states[0] == *old(self),
                states.last() == *self,
                r == first_error(results),
            decreases rest@.len(),
        {
            let f: Vec<u8> = rest.remove(0);
            let ghost before = *self;
            let ghost old_results = results;
            let one: TelemetryResult<()> = self.take_frame(reg, f, from, now);
            proof {
                assert(all.skip(k)[0] == all[k]);
                assert(rest@ =~= all.skip(k + 1));
                assert(all.take(k + 1) =~= all.take(k).push(f));
                lemma_trace_push(states, results, *reg, all.take(k), from, now, *self, f, one);
                lemma_first_error_push(results, one);
                states = states.push(*self);
                results = results.push(one);
                k = k + 1;
            }
            if r.is_ok() {
                r = one;
            }
        }
        assert(all.take(k) =~= all);
        r
    }

    /// Takes a frame that comes over a link, and the frames whose turn it then is.
    pub fn receive_frame(
        &mut self,
        reg: &mut Registry,
        frame: Vec<u8>,
        from: Option<usize>,
        now: u64,
    ) -> (r: TelemetryResult<()>)
        requires
            old(self).wf(),
            old(reg).schema@.wf(),
        ensures
            final(self).wf(),
            final(reg).schema == old(reg).schema,
            final(self).sides == old(self).sides,
            old(self).frame_received(
                *final(self),
                *old(reg),
                *final(reg),
                frame@,
                from,
                now,
                r,
            ),
    {
        let ghost given = frame@;
        let turns: TelemetryResult<Vec<Vec<u8>>> = self.sort_frame(reg, frame, from, now);
        let ghost a = turns;
        let ghost mid = *self;
        assert(old(self).sorted_in(mid, *old(reg), *reg, given, from, now, a));
        match turns {
            Ok(frames) => self.take_frames(reg, frames, from, now),
            Err(e) => Err(e),
        }
    }
}

/// Whether `states` are the states of a router that takes `frames` one after the other, and
/// `results` what came of each.
#[verifier::opaque]
pub open spec fn is_trace(
    states: Seq<Router>,
    results: Seq<TelemetryResult<()>>,
    reg: Registry,
    frames: Seq<Vec<u8>>,
    from: Option<usize>,
    now: u64,
) -> bool {
    &&& states.len() == frames.len() + 1
    &&& results.len() == frames.len()
    &&& forall|i: int|
        0 <= i < frames.len() ==> states[i].taken(
            states[i + 1],
            reg,
            (#[trigger] frames[i])@,
            from,
            now,
            results[i],
        )
}

proof fn lemma_trace_push(
    states: Seq<Router>,
    results: Seq<TelemetryResult<()>>,
    reg: Registry,
    frames: Seq<Vec<u8>>,
    from: Option<usize>,
    now: u64,
    after: Router,
    f: Vec<u8>,
    r: TelemetryResult<()>,
)
    requires
        is_trace(states, results, reg, frames, from, now),
        states.last().taken(after, reg, f@, from, now, r),
    ensures
        is_trace(states.push(after), results.push(r), reg, frames.push(f), from, now),
{
    reveal(is_trace);
    let s = states.push(after);
    let v = results.push(r);
    let w = frames.push(f);
    assert forall|i: int| 0 <= i < w.len() implies s[i].taken(
        s[i + 1],
        reg,
        (#[trigger] w[i])@,
        from,
        now,
        v[i],
    ) by {
        if i < frames.len() {
            assert(w[i] == frames[i]);
            assert(s[i] == states[i] && s[i + 1] == states[i + 1]);
            assert(v[i] == results[i]);
        } else {
            assert(s[i] == states.last());
        }
    }
}

/// What making packets does to the registry.
pub open spec fn replied(reg: Registry, after: Registry, sender: Seq<char>, n: nat) -> bool {
    &&& after.schema == reg.schema
    &&& after.nonce == nonce_after(reg.nonce, n)
    &&& after.known_names() == (if n == 0 {
        reg.known_names()
    } else {
        registry::with_name(reg.known_names(), sender)
    })
}

/// Whether a result is the given frames.
pub open spec fn frames_are(r: TelemetryResult<Vec<Vec<u8>>>, frames: Seq<Seq<u8>>) -> bool {
    r matches Ok(v) && v@.map_values(|f: Vec<u8>| f@) == frames
}

/// One packet more is made.
pub proof fn lemma_noted_once(
    first: Registry,
    before: Registry,
    after: Registry,
    sender: Seq<char>,
    n: nat,
)
    requires
        replied(first, before, sender, n),
        after.schema == before.schema,
        after.nonce == before.nonce.wrapping_add(1),
        after.known_names() == registry::with_name(before.known_names(), sender),
    ensures
        replied(first, after, sender, n + 1),
{
    registry::lemma_with_name(first.known_names(), sender, 0);
}

proof fn lemma_first_error_push(v: Seq<TelemetryResult<()>>, x: TelemetryResult<()>)
    ensures
        first_error(v.push(x)) == (if first_error(v) is Err {
            first_error(v)
        } else {
            x
        }),
    decreases v.len(),
{
    if v.len() == 0 {
        assert(v.push(x).skip(1) =~= Seq::empty());
        assert(first_error(v.push(x).skip(1)) == Ok::<(), TelemetryError>(()));
        match x {
            Ok(u) => {
                assert(u == ());
            },
            Err(_) => {},
        }
    } else {
        assert(v.push(x).skip(1) =~= v.skip(1).push(x));
        lemma_first_error_push(v.skip(1), x);
    }
}

/// A packet that comes again, over whichever link, makes nothing to be done.
pub proof fn lemma_packet_comes_once(
    first: Router,
    mid: Router,
    after: Router,
    sc: schema::SchemaSpec,
    p: PacketSpec,
    frame: Option<Seq<u8>>,
    from: Option<usize>,
    frame_again: Option<Seq<u8>>,
    from_again: Option<usize>,
    now: u64,
    later: u64,
    r: TelemetryResult<()>,
    r_again: TelemetryResult<()>,
)
    requires
        first.wf(),
        !is_control(p.ty),
        first.side_fault(from) is None,
        first.received(mid, sc, p, frame, from, now, r),
        mid.received(after, sc, p, frame_again, from_again, later, r_again),
    ensures
        jobs::jobs(after.agenda@) == jobs::jobs(mid.agenda@),
        after.recent@ == mid.recent@,
{
    recent::lemma_seen_stays_seen(
        first.recent@,
        first.recent.bound(),
        packet::packet_identity(p),
    );
}

proof fn lemma_jobs_elsewhere(
    r: Router,
    sc: schema::SchemaSpec,
    p: PacketSpec,
    frame: Option<Seq<u8>>,
    side: usize,
    now: u64,
    quiet: bool,
    k: int,
)
    requires
        r.sides@.len() <= routes::MAX_SIDES,
        0 <= k < r.jobs_for(sc, p, frame, Some(side), now, quiet).len(),
    ensures
        r.jobs_for(sc, p, frame, Some(side), now, quiet)[k].target != Target::Side(side),
{
    let ours = if jobs::for_me(p, r.sender@) {
        jobs::handler_jobs(r.handlers@, p, frame, quiet)
    } else {
        Seq::empty()
    };
    let chosen = r.chosen(sc, p, Some(side), now);
    let all = r.jobs_for(sc, p, frame, Some(side), now, quiet);
    if k < ours.len() {
        assert(all[k] == ours[k]);
        assert(r.handlers.len() == r.handlers@.len());
        jobs::lemma_handler_order(r.handlers@, p, frame, quiet, k);
    } else {
        let n = k - ours.len();
        assert(all[k] == jobs::side_jobs(chosen, p, quiet)[n]);
        routes::lemma_chosen_are_meant(
            r.policy@,
            jobs::facts(r.sides@),
            r.overlaps(p, now),
            r.query(sc, p, Some(side), now),
            n,
        );
    }
}

/// A packet never goes back over the link that it came over.
#[verifier::rlimit(40)]
pub proof fn lemma_packet_never_goes_back(
    first: Router,
    after: Router,
    sc: schema::SchemaSpec,
    p: PacketSpec,
    frame: Option<Seq<u8>>,
    side: usize,
    now: u64,
    r: TelemetryResult<()>,
    i: int,
)
    requires
        first.wf(),
        !is_control(p.ty),
        first.received(after, sc, p, frame, Some(side), now, r),
        first.agenda@.len() <= i < after.agenda@.len(),
    ensures
        after.agenda@[i]@.target != Target::Side(side),
{
    let old_jobs = jobs::jobs(first.agenda@);
    let all = jobs::jobs(after.agenda@);
    assert(old_jobs.len() == first.agenda@.len());
    assert(all.len() == after.agenda@.len());
    assert(all[i] == after.agenda@[i]@);
    assert(first.side_fault(Some(side)) is None);
    let id = packet::packet_identity(p);
    assert(exists|mid: Router|
        #[trigger] first.seen(mid, id) && mid.delivered(
            after,
            sc,
            p,
            frame,
            Some(side),
            now,
            false,
        ));
    let mid = choose|mid: Router| #[trigger]
        first.seen(mid, id) && mid.delivered(after, sc, p, frame, Some(side), now, false);
    let more = mid.jobs_for(sc, p, frame, Some(side), now, false);
    assert(all == old_jobs + more);
    lemma_jobs_elsewhere(mid, sc, p, frame, side, now, false, i - old_jobs.len());
}

/// A packet for an endpoint that is served here, and for this board, is handed to the handler the
/// first time that it comes, whatever link it comes over.
#[verifier::rlimit(40)]
pub proof fn lemma_handler_gets_packet(
    first: Router,
    after: Router,
    sc: schema::SchemaSpec,
    p: PacketSpec,
    frame: Option<Seq<u8>>,
    from: Option<usize>,
    now: u64,
    r: TelemetryResult<()>,
    h: usize,
)
    requires
        first.side_fault(from) is None,
        !is_control(p.ty),
        !discovery::is_discovery(p.ty),
        !first.recent@.contains(packet::packet_identity(p)),
        first.received(after, sc, p, frame, from, now, r),
        h < first.handlers@.len(),
        p.endpoints.contains(first.handlers@[h as int].endpoint),
        jobs::for_me(p, first.sender@),
    ensures
        jobs::jobs(after.agenda@).contains(
            JobSpec { target: Target::Handler(h), packet: Some(p), frame, tries: 0, quiet: false },
        ),
{
    let j = JobSpec {
        target: Target::Handler(h),
        packet: Some(p),
        frame,
        tries: 0,
        quiet: false,
    };
    let id = packet::packet_identity(p);
    assert(exists|mid: Router|
        #[trigger] first.seen(mid, id) && mid.delivered(after, sc, p, frame, from, now, false));
    let mid = choose|mid: Router| #[trigger]
        first.seen(mid, id) && mid.delivered(after, sc, p, frame, from, now, false);
    let ours = jobs::handler_jobs(mid.handlers@, p, frame, false);
    assert(first.handlers.len() == first.handlers@.len());
    jobs::lemma_every_handler_gets_it(mid.handlers@, p, frame, false, h);
    let k = choose|k: int| 0 <= k < ours.len() && ours[k] == j;
    let before = jobs::jobs(mid.agenda@);
    let more = mid.jobs_for(sc, p, frame, from, now, false);
    assert(more[k] == j);
    assert((before + more)[before.len() + k] == j);
}

} // verus!
