//! What a board does with messages that boards send one another: claims of addresses, letters and
//! streams from board to board.
use vstd::prelude::*;
use crate::address;
use crate::address::{AddressChange, AddressRoute, Identity, Peer, PeerSpec};
use crate::discovery;
use crate::error::{TelemetryError, TelemetryResult};
use crate::jobs::Job;
use crate::meta::{DataType, EP_TELEMETRY_ERROR, TY_DISCOVERY_ADDRESS, TY_P2P_MESSAGE};
use crate::p2p;
use crate::p2p::{
    P2pHead, P2pKind, P2pMessage, P2pSpec, P2pStreamEventKind, Stream, StreamStep, StreamsSpec,
};
use crate::packet;
use crate::packet::{Packet, PacketSpec};
use crate::recent;
use crate::registry::Registry;
use crate::router::Router;
use crate::station::Station;

verus! {

/// What a board asks.
#[derive(Debug, Clone, Copy, PartialEq, Eq, Structural)]
pub struct Question {
    pub ty: DataType,
    /// The link that the question came over.
    pub side: usize,
    /// The hash of the name of who asks.
    pub asker: u64,
    /// Nobody else asked first.
    pub first: bool,
}

/// What a message brings to the program.
pub enum Delivery {
    Nothing,
    /// The board gave way to another.
    Moved(AddressChange),
    /// A letter came.
    Datagram(P2pMessage),
    /// Something happened to a stream.
    Stream(P2pStreamEventKind, Stream, P2pMessage),
    /// A value that the board keeps changed; the packet carries it.
    Value(Packet),
    /// A board asks for what this board knows.
    Asked(Question),
    /// There is something to be done that the program has to see to.
    Task(Job),
}

/// The address and the name that a packet claims for its sender.
pub open spec fn claim(p: PacketSpec) -> Option<(Identity, Seq<char>)> {
    if p.ty == TY_DISCOVERY_ADDRESS {
        match discovery::whole(discovery::read_address(p.payload)) {
            Some(a) => Some(
                (
                    Identity {
                        address: a.address,
                        requested: a.requested_address,
                        mode: a.mode,
                        birth: a.birth_ms,
                        owner: a.owner_hash,
                    },
                    a.hostname,
                ),
            ),
            None => None,
        }
    } else {
        None
    }
}

impl Station {
    /// Boards that are known once a board claims an address.
    pub open spec fn known_after(
        self,
        other: Identity,
        name: Seq<char>,
        side: usize,
        now: u64,
    ) -> Seq<PeerSpec> {
        if other.owner == self.core.identity.owner {
            self.directory@
        } else {
            address::heard(
                self.directory@,
                PeerSpec { name, identity: other, side, last_seen: now },
            )
        }
    }

    /// What a packet that claims an address does.
    pub open spec fn heard(
        self,
        after: Station,
        p: PacketSpec,
        side: usize,
        now: u64,
        r: Option<AddressChange>,
    ) -> bool {
        match claim(p) {
            None => r is None && after == self,
            Some((other, name)) => {
                let known = self.known_after(other, name, side, now);
                &&& after.directory@ == known
                &&& r == address::change(
                    self.core.identity,
                    self.core.sender@,
                    other,
                    name,
                    address::addresses(known),
                )
                &&& self.core.settled(after.core, other, name, address::addresses(known))
                &&& after == Station { core: after.core, directory: after.directory, ..self }
            },
        }
    }

    /// Takes a claim of an address: the board is remembered, and gives way or is given way to.
    pub fn hear_address(&mut self, p: &Packet, side: usize, now: u64) -> (r: Option<AddressChange>)
        requires
            old(self).wf(),
        ensures
            final(self).wf(),
            old(self).heard(*final(self), p@, side, now, r),
    {
        let a = match discovery::decode_discovery_address(p) {
            Ok(a) => a,
            Err(_) => return None,
        };
        let other = Identity {
            address: a.address,
            requested: a.requested_address,
            mode: a.mode,
            birth: a.birth_ms,
            owner: a.owner_hash,
        };
        assert(claim(p@) == Some((other, a.hostname@)));
        if other.owner != self.core.identity.owner {
            self.directory.hear(
                Peer { name: a.hostname.clone(), identity: other, side, last_seen: now },
            );
        }
        let taken: Vec<u32> = self.directory.taken();
        self.core.settle_address(other, a.hostname.as_str(), &taken)
    }

    /// The bytes of a message of this board.
    pub open spec fn letter(self, head: P2pHead, payload: Seq<u8>) -> Seq<u8> {
        p2p::message_bytes(P2pSpec { head, source_hostname: self.core.sender@, payload })
    }

    /// What sending a message to another board does: it goes over the link over which the board
    /// was heard of.
    pub open spec fn posted(
        self,
        after: Station,
        reg: Registry,
        reg_after: Registry,
        head: P2pHead,
        payload: Seq<u8>,
        now: u64,
        r: TelemetryResult<()>,
    ) -> bool {
        match address::way_to(
            self.directory@,
            self.core.identity.address,
            head.destination_address,
        ) {
            AddressRoute::Over(side) => exists|made: TelemetryResult<Packet>|
                {
                    &&& #[trigger] packet::packet_made(
                        reg,
                        reg_after,
                        TY_P2P_MESSAGE,
                        seq![EP_TELEMETRY_ERROR],
                        self.core.sender@,
                        now,
                        self.letter(head, payload),
                        made,
                    )
                    &&& match made {
                        Ok(p) => {
                            &&& self.core.sent_over(after.core, p@, side, r)
                            &&& after == Station { core: after.core, ..self }
                        },
                        Err(e) => r == Err::<(), TelemetryError>(e) && after == self,
                    }
                },
            _ => {
                &&& r == Err::<(), TelemetryError>(TelemetryError::BadArg)
                &&& after == self
                &&& reg_after == reg
            },
        }
    }

    /// Sends a message to another board.
    pub fn post(&mut self, reg: &mut Registry, head: P2pHead, payload: &[u8], now: u64) -> (r:
        TelemetryResult<()>)
        requires
            old(self).wf(),
        ensures
            final(self).wf(),
            final(reg).schema@ == old(reg).schema@,
            old(self).posted(*final(self), *old(reg), *final(reg), head, payload@, now, r),
    {
        let side: usize = match self.directory.route(
            self.core.identity.address,
            head.destination_address,
        ) {
            AddressRoute::Over(side) => side,
            _ => return Err(TelemetryError::BadArg),
        };
        let mut bytes: Vec<u8> = Vec::new();
        bytes.extend_from_slice(payload);
        assert(bytes@ =~= payload@);
        let m = P2pMessage { head, source_hostname: self.core.sender.clone(), payload: bytes };
        let to: [u32; 1] = [EP_TELEMETRY_ERROR];
        assert(to@ =~= seq![EP_TELEMETRY_ERROR]);
        let made: TelemetryResult<Packet> = Packet::new(
            reg,
            TY_P2P_MESSAGE,
            &to,
            self.core.sender.as_str(),
            now,
            m.to_bytes(),
        );
        assert(packet::packet_made(
            *old(reg),
            *reg,
            TY_P2P_MESSAGE,
            seq![EP_TELEMETRY_ERROR],
            old(self).core.sender@,
            now,
            old(self).letter(head, payload@),
            made,
        ));
        match made {
            Ok(p) => self.core.send_over(p, side),
            Err(e) => Err(e),
        }
    }

    /// Sends a letter to the board with an address.
    pub fn send_letter(
        &mut self,
        reg: &mut Registry,
        address: u32,
        port: u16,
        source_port: u16,
        payload: &[u8],
        now: u64,
    ) -> (r: TelemetryResult<()>)
        requires
            old(self).wf(),
        ensures
            final(self).wf(),
            final(reg).schema@ == old(reg).schema@,
            old(self).posted(
                *final(self),
                *old(reg),
                *final(reg),
                (P2pHead {
                    kind: P2pKind::Datagram,
                    source_address: old(self).core.identity.address,
                    destination_address: address,
                    source_port,
                    destination_port: port,
                    source_stream: 0,
                    destination_stream: 0,
                    sequence: 0,
                }),
                payload@,
                now,
                r,
            ),
    {
        let head = P2pHead {
            kind: P2pKind::Datagram,
            source_address: self.core.identity.address,
            destination_address: address,
            source_port,
            destination_port: port,
            source_stream: 0,
            destination_stream: 0,
            sequence: 0,
        };
        self.post(reg, head, payload, now)
    }

    /// What it does that the streams change and a stream then carries a message; a board that
    /// does not have the stream refuses.
    pub open spec fn wrote(
        self,
        after: Station,
        reg: Registry,
        reg_after: Registry,
        step: (StreamsSpec, Option<Stream>),
        kind: P2pKind,
        payload: Seq<u8>,
        now: u64,
        r: TelemetryResult<()>,
    ) -> bool {
        exists|mid: Station|
            {
                &&& #[trigger] self.restreamed(mid, step.0)
                &&& match step.1 {
                    Some(s) => mid.posted(
                        after,
                        reg,
                        reg_after,
                        p2p::stream_head(kind, s, self.core.identity.address),
                        payload,
                        now,
                        r,
                    ),
                    None => {
                        &&& r == Err::<(), TelemetryError>(TelemetryError::BadArg)
                        &&& after == mid
                        &&& reg_after == reg
                    },
                }
            }
    }

    pub open spec fn restreamed(self, after: Station, streams: StreamsSpec) -> bool {
        &&& after.streams@ == streams
        &&& after == Station { streams: after.streams, ..self }
    }

    /// Asks the board with an address for a stream; gives the number of the stream.
    pub fn open_stream(
        &mut self,
        reg: &mut Registry,
        address: u32,
        port: u16,
        source_port: u16,
        now: u64,
    ) -> (r: TelemetryResult<u32>)
        requires
            old(self).wf(),
        ensures
            final(self).wf(),
            final(reg).schema@ == old(reg).schema@,
            ({
                let step = old(self).streams@.asked(address, port, source_port);
                exists|said: TelemetryResult<()>|
                    {
                        &&& #[trigger] old(self).wrote(
                            *final(self),
                            *old(reg),
                            *final(reg),
                            step,
                            P2pKind::Open,
                            Seq::empty(),
                            now,
                            said,
                        )
                        &&& match said {
                            Ok(_) => r matches Ok(id) && (step.1 matches Some(s) && id == s.id),
                            Err(e) => r == Err::<u32, TelemetryError>(e),
                        }
                    }
            }),
    {
        let me: u32 = self.core.identity.address;
        let head: Option<P2pHead> = self.streams.ask(me, address, port, source_port);
        let ghost step = old(self).streams@.asked(address, port, source_port);
        assert(old(self).restreamed(*self, step.0));
        let none: [u8; 0] = [];
        assert(none@ =~= Seq::<u8>::empty());
        let said: TelemetryResult<()> = match head {
            Some(h) => self.post(reg, h, &none, now),
            None => Err(TelemetryError::BadArg),
        };
        let ghost s = said;
        assert(old(self).wrote(
            *self,
            *old(reg),
            *reg,
            step,
            P2pKind::Open,
            Seq::empty(),
            now,
            s,
        ));
        match (said, head) {
            (Ok(_), Some(h)) => Ok(h.source_stream),
            (Ok(_), None) => Err(TelemetryError::BadArg),
            (Err(e), _) => Err(e),
        }
    }

    /// Sends bytes over a stream.
    pub fn send_on_stream(&mut self, reg: &mut Registry, id: u32, payload: &[u8], now: u64) -> (r:
        TelemetryResult<()>)
        requires
            old(self).wf(),
        ensures
            final(self).wf(),
            final(reg).schema@ == old(reg).schema@,
            old(self).wrote(
                *final(self),
                *old(reg),
                *final(reg),
                old(self).streams@.data_sent(id),
                P2pKind::Data,
                payload@,
                now,
                r,
            ),
    {
        let me: u32 = self.core.identity.address;
        let head: Option<P2pHead> = self.streams.next_data(id, me);
        assert(old(self).restreamed(*self, old(self).streams@.data_sent(id).0));
        match head {
            Some(h) => self.post(reg, h, payload, now),
            None => Err(TelemetryError::BadArg),
        }
    }

    /// Ends a stream.
    pub fn close_stream(&mut self, reg: &mut Registry, id: u32, now: u64) -> (r: TelemetryResult<
        (),
    >)
        requires
            old(self).wf(),
        ensures
            final(self).wf(),
            final(reg).schema@ == old(reg).schema@,
            old(self).wrote(
                *final(self),
                *old(reg),
                *final(reg),
                old(self).streams@.ended(id),
                P2pKind::Close,
                Seq::empty(),
                now,
                r,
            ),
    {
        let me: u32 = self.core.identity.address;
        let head: Option<P2pHead> = self.streams.end(id, me);
        assert(old(self).restreamed(*self, old(self).streams@.ended(id).0));
        let none: [u8; 0] = [];
        assert(none@ =~= Seq::<u8>::empty());
        match head {
            Some(h) => self.post(reg, h, &none, now),
            None => Err(TelemetryError::BadArg),
        }
    }

    /// What remembering that a packet came does.
    pub open spec fn remembers(self, after: Station, id: u64) -> bool {
        let core = after.core;
        &&& core.recent@ == recent::remembered(self.core.recent@, self.core.recent.bound(), id)
        &&& core.recent.bound() == self.core.recent.bound()
        &&& after == Station { core: Router { recent: core.recent, ..self.core }, ..self }
    }

    /// What a message for a stream of this board does.
    pub open spec fn streamed(self, after: Station, h: P2pHead) -> bool {
        &&& after.streams@ == self.streams@.after(
            h,
            self.stream_ports@.contains(h.destination_port),
        )
        &&& after == Station { streams: after.streams, ..self }
    }

    /// Whether a delivery is what happened to a stream.
    pub open spec fn tells(d: Delivery, step: StreamStep, m: P2pSpec) -> bool {
        match step.event {
            Some((k, s)) => d matches Delivery::Stream(k2, s2, x) && k2 == k && s2 == s && x@ == m,
            None => d is Nothing,
        }
    }

    /// What a message from board to board does that came for the first time: it is for this
    /// board, goes on to the board that it is for, or is lost.
    pub open spec fn handed(
        self,
        after: Station,
        reg: Registry,
        reg_after: Registry,
        p: PacketSpec,
        m: P2pSpec,
        now: u64,
        r: TelemetryResult<Delivery>,
    ) -> bool {
        match address::way_to(
            self.directory@,
            self.core.identity.address,
            m.head.destination_address,
        ) {
            AddressRoute::Nowhere => {
                &&& r matches Ok(Delivery::Nothing)
                &&& after == self
                &&& reg_after == reg
            },
            AddressRoute::Over(side) => {
                &&& reg_after == reg
                &&& after == Station { core: after.core, ..self }
                &&& match r {
                    Ok(d) => d is Nothing && self.core.sent_over(after.core, p, side, Ok(())),
                    Err(e) => self.core.sent_over(after.core, p, side, Err(e)),
                }
            },
            AddressRoute::Here => if m.head.kind == P2pKind::Datagram {
                &&& r matches Ok(Delivery::Datagram(x)) && x@ == m
                &&& after == self
                &&& reg_after == reg
            } else {
                let step = self.streams@.step(
                    m.head,
                    self.stream_ports@.contains(m.head.destination_port),
                );
                &&& r matches Ok(d) && Self::tells(d, step, m)
                &&& exists|mid: Station|
                    {
                        &&& #[trigger] self.streamed(mid, m.head)
                        &&& match step.reply {
                            Some(h) => exists|said: TelemetryResult<()>| #[trigger]
                                mid.posted(after, reg, reg_after, h, Seq::empty(), now, said),
                            None => after == mid && reg_after == reg,
                        }
                    }
            },
        }
    }

    fn has_stream_port(&self, port: u16) -> (b: bool)
        ensures
            b == self.stream_ports@.contains(port),
    {
        let mut i: usize = 0;
        while i < self.stream_ports.len()
            invariant
                i <= self.stream_ports@.len(),
                forall|k: int| 0 <= k < i ==> self.stream_ports@[k] != port,
            decreases self.stream_ports@.len() - i,
        {
            if self.stream_ports[i] == port {
                return true;
            }
            i = i + 1;
        }
        false
    }

    /// What a message from board to board does.
    pub open spec fn took_message(
        self,
        after: Station,
        reg: Registry,
        reg_after: Registry,
        p: PacketSpec,
        now: u64,
        r: TelemetryResult<Delivery>,
    ) -> bool {
        exists|mid: Station|
            {
                &&& #[trigger] self.remembers(mid, packet::packet_identity(p))
                &&& if self.core.recent@.contains(packet::packet_identity(p)) {
                    &&& r matches Ok(Delivery::Nothing)
                    &&& after == mid
                    &&& reg_after == reg
                } else {
                    match p2p::read_message(p.payload) {
                        Some(m) => mid.handed(after, reg, reg_after, p, m, now, r),
                        None => {
                            &&& r matches Err(TelemetryError::Unpack(w)) && w@ == "p2p message"@
                            &&& after == mid
                            &&& reg_after == reg
                        },
                    }
                }
            }
    }

    fn hand(&mut self, reg: &mut Registry, p: &Packet, m: P2pMessage, now: u64) -> (r:
        TelemetryResult<Delivery>)
        requires
            old(self).wf(),
        ensures
            final(self).wf(),
            final(reg).schema@ == old(reg).schema@,
            old(self).handed(*final(self), *old(reg), *final(reg), p@, m@, now, r),
    {
        match self.directory.route(self.core.identity.address, m.head.destination_address) {
            AddressRoute::Nowhere => Ok(Delivery::Nothing),
            AddressRoute::Over(side) => match self.core.send_over(p.copied(), side) {
                Ok(_) => Ok(Delivery::Nothing),
                Err(e) => Err(e),
            },
            AddressRoute::Here => {
                if m.head.kind == P2pKind::Datagram {
                    return Ok(Delivery::Datagram(m));
                }
                let bound: bool = self.has_stream_port(m.head.destination_port);
                let step: StreamStep = self.streams.take(&m.head, bound);
                let ghost mid = *self;
                assert(old(self).streamed(mid, m.head));
                if let Some(h) = step.reply {
                    let nothing: [u8; 0] = [];
                    assert(nothing@ =~= Seq::<u8>::empty());
                    let said: TelemetryResult<()> = self.post(reg, h, &nothing, now);
                    assert(mid.posted(*self, *old(reg), *reg, h, Seq::empty(), now, said));
                }
                Ok(
                    match step.event {
                        Some((k, s)) => Delivery::Stream(k, s, m),
                        None => Delivery::Nothing,
                    },
                )
            },
        }
    }

    /// Takes a message from board to board.
    pub fn take_message(&mut self, reg: &mut Registry, p: &Packet, now: u64) -> (r: TelemetryResult<
        Delivery,
    >)
        requires
            old(self).wf(),
        ensures
            final(self).wf(),
            final(reg).schema@ == old(reg).schema@,
            old(self).took_message(*final(self), *old(reg), *final(reg), p@, now, r),
    {
        let fresh: bool = self.core.recent.insert(p.packet_id());
        assert(old(self).remembers(*self, packet::packet_identity(p@)));
        if !fresh {
            return Ok(Delivery::Nothing);
        }
        match P2pMessage::from_bytes(p.payload()) {
            Some(m) => self.hand(reg, p, m, now),
            None => Err(TelemetryError::Unpack("p2p message")),
        }
    }
}

/// A letter that a board sends is handed to the program of the board that it is for as it was
/// written.
pub proof fn lemma_letter_arrives(
    a: Station,
    b: Station,
    after: Station,
    reg: Registry,
    reg_after: Registry,
    p: PacketSpec,
    head: P2pHead,
    payload: Seq<u8>,
    now: u64,
    r: TelemetryResult<Delivery>,
)
    requires
        head.kind == P2pKind::Datagram,
        vstd::utf8::encode_utf8(a.core.sender@).len() <= u64::MAX,
        p.payload == a.letter(head, payload),
        head.destination_address == b.core.identity.address,
        !b.core.recent@.contains(packet::packet_identity(p)),
        b.took_message(after, reg, reg_after, p, now, r),
    ensures
        r matches Ok(Delivery::Datagram(m)) && m@ == (P2pSpec {
            head,
            source_hostname: a.core.sender@,
            payload,
        }),
{
    p2p::lemma_message_roundtrip(
        P2pSpec { head, source_hostname: a.core.sender@, payload },
    );
}

/// A message from board to board that comes again is not handed out again.
pub proof fn lemma_letter_comes_once(
    a: Station,
    mid: Station,
    after: Station,
    reg: Registry,
    reg_mid: Registry,
    reg_after: Registry,
    p: PacketSpec,
    now: u64,
    later: u64,
    first: TelemetryResult<Delivery>,
    second: TelemetryResult<Delivery>,
)
    requires
        a.wf(),
        a.took_message(mid, reg, reg_mid, p, now, first),
        mid.took_message(after, reg_mid, reg_after, p, later, second),
    ensures
        second matches Ok(Delivery::Nothing),
        after.core.recent@ == mid.core.recent@,
        reg_after == reg_mid,
{
    let id = packet::packet_identity(p);
    recent::lemma_seen_stays_seen(a.core.recent@, a.core.recent.bound(), id);
}

} // verus!
