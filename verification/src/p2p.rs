//! Messages from board to board, and streams of them.
use vstd::prelude::*;
use vstd::string::*;
use crate::codec;

verus! {

/// What a message from board to board is.
#[derive(Debug, Clone, Copy, PartialEq, Eq, Structural)]
pub enum P2pKind {
    /// It stands by itself.
    Datagram,
    /// It asks for a stream.
    Open,
    /// It grants one.
    Accept,
    /// It carries bytes of a stream.
    Data,
    /// It ends a stream.
    Close,
    /// It says that there is no such stream.
    Reset,
}

impl P2pKind {
    pub open spec fn number(self) -> u8 {
        match self {
            P2pKind::Datagram => 0,
            P2pKind::Open => 1,
            P2pKind::Accept => 2,
            P2pKind::Data => 3,
            P2pKind::Close => 4,
            P2pKind::Reset => 5,
        }
    }

    pub open spec fn with_number(n: u8) -> Option<P2pKind> {
        match n {
            0 => Some(P2pKind::Datagram),
            1 => Some(P2pKind::Open),
            2 => Some(P2pKind::Accept),
            3 => Some(P2pKind::Data),
            4 => Some(P2pKind::Close),
            5 => Some(P2pKind::Reset),
            _ => None,
        }
    }

    fn as_u8(self) -> (n: u8)
        ensures
            n == self.number(),
    {
        match self {
            P2pKind::Datagram => 0,
            P2pKind::Open => 1,
            P2pKind::Accept => 2,
            P2pKind::Data => 3,
            P2pKind::Close => 4,
            P2pKind::Reset => 5,
        }
    }

    fn from_u8(n: u8) -> (r: Option<P2pKind>)
        ensures
            r == P2pKind::with_number(n),
    {
        match n {
            0 => Some(P2pKind::Datagram),
            1 => Some(P2pKind::Open),
            2 => Some(P2pKind::Accept),
            3 => Some(P2pKind::Data),
            4 => Some(P2pKind::Close),
            5 => Some(P2pKind::Reset),
            _ => None,
        }
    }
}

/// Where a message comes from and where it goes.
#[derive(Debug, Clone, Copy, PartialEq, Eq, Structural)]
pub struct P2pHead {
    pub kind: P2pKind,
    pub source_address: u32,
    pub destination_address: u32,
    pub source_port: u16,
    pub destination_port: u16,
    /// The stream, by the number that the sender gave it.
    pub source_stream: u32,
    /// The stream, by the number that the receiver gave it.
    pub destination_stream: u32,
    pub sequence: u32,
}

/// A message from board to board, as a value.
pub struct P2pSpec {
    pub head: P2pHead,
    pub source_hostname: Seq<char>,
    pub payload: Seq<u8>,
}

/// A message from board to board.
#[derive(Debug)]
pub struct P2pMessage {
    pub head: P2pHead,
    pub source_hostname: String,
    pub payload: Vec<u8>,
}

impl View for P2pMessage {
    type V = P2pSpec;

    open spec fn view(&self) -> P2pSpec {
        P2pSpec {
            head: self.head,
            source_hostname: self.source_hostname@,
            payload: self.payload@,
        }
    }
}

pub open spec fn end_bytes(h: P2pHead, rest: Seq<u8>) -> Seq<u8> {
    codec::le4(h.source_address) + (codec::le4(h.destination_address) + (codec::le2(h.source_port)
        + (codec::le2(h.destination_port) + rest)))
}

pub open spec fn stream_bytes(h: P2pHead, rest: Seq<u8>) -> Seq<u8> {
    codec::le4(h.source_stream) + (codec::le4(h.destination_stream) + (codec::le4(h.sequence)
        + rest))
}

/// The bytes of a message.
pub open spec fn message_bytes(m: P2pSpec) -> Seq<u8> {
    seq![m.head.kind.number()] + end_bytes(
        m.head,
        stream_bytes(m.head, codec::text_bytes(m.source_hostname) + m.payload),
    )
}

pub open spec fn read_ends(s: Seq<u8>) -> Option<((u32, u32, u16, u16), Seq<u8>)> {
    match codec::read_le4(s) {
        Some((a, s1)) => match codec::read_le4(s1) {
            Some((b, s2)) => match codec::read_le2(s2) {
                Some((c, s3)) => match codec::read_le2(s3) {
                    Some((d, s4)) => Some(((a, b, c, d), s4)),
                    None => None,
                },
                None => None,
            },
            None => None,
        },
        None => None,
    }
}

pub open spec fn read_streams(s: Seq<u8>) -> Option<((u32, u32, u32), Seq<u8>)> {
    match codec::read_le4(s) {
        Some((a, s1)) => match codec::read_le4(s1) {
            Some((b, s2)) => match codec::read_le4(s2) {
                Some((c, s3)) => Some(((a, b, c), s3)),
                None => None,
            },
            None => None,
        },
        None => None,
    }
}

pub open spec fn read_head(s: Seq<u8>) -> Option<(P2pHead, Seq<u8>)> {
    if s.len() == 0 {
        None
    } else {
        match P2pKind::with_number(s[0]) {
            Some(kind) => match read_ends(s.skip(1)) {
                Some((e, s1)) => match read_streams(s1) {
                    Some((t, s2)) => Some(
                        (
                            P2pHead {
                                kind,
                                source_address: e.0,
                                destination_address: e.1,
                                source_port: e.2,
                                destination_port: e.3,
                                source_stream: t.0,
                                destination_stream: t.1,
                                sequence: t.2,
                            },
                            s2,
                        ),
                    ),
                    None => None,
                },
                None => None,
            },
            None => None,
        }
    }
}

/// The message that bytes are.
pub open spec fn read_message(s: Seq<u8>) -> Option<P2pSpec> {
    match read_head(s) {
        Some((head, s1)) => match codec::read_text(s1) {
            Some((source_hostname, payload)) => Some(
                P2pSpec { head, source_hostname, payload },
            ),
            None => None,
        },
        None => None,
    }
}

proof fn lemma_ends_roundtrip(a: u32, b: u32, c: u16, d: u16, rest: Seq<u8>)
    ensures
        read_ends(codec::le4(a) + (codec::le4(b) + (codec::le2(c) + (codec::le2(d) + rest))))
            == Some(((a, b, c, d), rest)),
{
    let r3 = codec::le2(d) + rest;
    let r2 = codec::le2(c) + r3;
    let r1 = codec::le4(b) + r2;
    codec::lemma_le_roundtrip(0, a, 0, r1);
    codec::lemma_le_roundtrip(0, b, 0, r2);
    codec::lemma_le_roundtrip(c, 0, 0, r3);
    codec::lemma_le_roundtrip(d, 0, 0, rest);
}

proof fn lemma_streams_roundtrip(a: u32, b: u32, c: u32, rest: Seq<u8>)
    ensures
        read_streams(codec::le4(a) + (codec::le4(b) + (codec::le4(c) + rest))) == Some(
            ((a, b, c), rest),
        ),
{
    let r2 = codec::le4(c) + rest;
    let r1 = codec::le4(b) + r2;
    codec::lemma_le_roundtrip(0, a, 0, r1);
    codec::lemma_le_roundtrip(0, b, 0, r2);
    codec::lemma_le_roundtrip(0, c, 0, rest);
}

/// A message is read as it was written.
pub proof fn lemma_message_roundtrip(m: P2pSpec)
    requires
        vstd::utf8::encode_utf8(m.source_hostname).len() <= u64::MAX,
    ensures
        read_message(message_bytes(m)) == Some(m),
{
    let h = m.head;
    let rest = codec::text_bytes(m.source_hostname) + m.payload;
    let t = stream_bytes(h, rest);
    let e = end_bytes(h, t);
    let s = message_bytes(m);
    assert(s.skip(1) =~= e);
    lemma_ends_roundtrip(
        h.source_address,
        h.destination_address,
        h.source_port,
        h.destination_port,
        t,
    );
    lemma_streams_roundtrip(h.source_stream, h.destination_stream, h.sequence, rest);
    codec::lemma_text_roundtrip(m.source_hostname, m.payload);
}

impl P2pMessage {
    pub fn to_bytes(&self) -> (out: Vec<u8>)
        ensures
            out@ == message_bytes(self@),
    {
        let h: P2pHead = self.head;
        let mut out: Vec<u8> = Vec::new();
        out.push(h.kind.as_u8());
        codec::write_le4(&mut out, h.source_address);
        codec::write_le4(&mut out, h.destination_address);
        codec::write_le2(&mut out, h.source_port);
        codec::write_le2(&mut out, h.destination_port);
        codec::write_le4(&mut out, h.source_stream);
        codec::write_le4(&mut out, h.destination_stream);
        codec::write_le4(&mut out, h.sequence);
        codec::write_text(&mut out, self.source_hostname.as_str());
        codec::write_bytes(&mut out, self.payload.as_slice());
        assert(out@ =~= message_bytes(self@));
        out
    }

    pub fn from_bytes(buf: &[u8]) -> (r: Option<P2pMessage>)
        ensures
            match read_message(buf@) {
                Some(m) => r matches Some(x) && x@ == m,
                None => r is None,
            },
    {
        let total: usize = buf.len();
        if total == 0 {
            return None;
        }
        let kind: P2pKind = match P2pKind::from_u8(buf[0]) {
            Some(k) => k,
            None => return None,
        };
        let (source_address, p1): (u32, usize) = match codec::read_le4_at(buf, 1) {
            Some(x) => x,
            None => return None,
        };
        let (destination_address, p2): (u32, usize) = match codec::read_le4_at(buf, p1) {
            Some(x) => x,
            None => return None,
        };
        let (source_port, p3): (u16, usize) = match codec::read_le2_at(buf, p2) {
            Some(x) => x,
            None => return None,
        };
        let (destination_port, p4): (u16, usize) = match codec::read_le2_at(buf, p3) {
            Some(x) => x,
            None => return None,
        };
        let (source_stream, p5): (u32, usize) = match codec::read_le4_at(buf, p4) {
            Some(x) => x,
            None => return None,
        };
        let (destination_stream, p6): (u32, usize) = match codec::read_le4_at(buf, p5) {
            Some(x) => x,
            None => return None,
        };
        let (sequence, p7): (u32, usize) = match codec::read_le4_at(buf, p6) {
            Some(x) => x,
            None => return None,
        };
        let (source_hostname, p8): (String, usize) = match codec::read_text_at(buf, p7) {
            Some(x) => x,
            None => return None,
        };
        let payload: Vec<u8> = codec::copy_range(buf, p8, total);
        assert(payload@ =~= buf@.skip(p8 as int));
        let head = P2pHead {
            kind,
            source_address,
            destination_address,
            source_port,
            destination_port,
            source_stream,
            destination_stream,
            sequence,
        };
        Some(P2pMessage { head, source_hostname, payload })
    }
}

/// One end of a stream.
#[derive(Debug, Clone, Copy, PartialEq, Eq, Structural)]
pub struct Stream {
    /// The number that this board gave it.
    pub id: u32,
    /// The number that the other board gave it.
    pub peer_id: u32,
    pub peer_address: u32,
    pub local_port: u16,
    pub peer_port: u16,
    /// How many messages went out.
    pub sent: u32,
    /// The other board has granted it.
    pub open: bool,
}

/// What a program learns of a stream.
#[derive(Debug, Clone, Copy, PartialEq, Eq, Structural)]
pub enum P2pStreamEventKind {
    /// Another board asked for it.
    Accepted,
    /// Another board granted it.
    Connected,
    /// Bytes came.
    Data,
    /// The other board ended it.
    Closed,
    /// The other board does not know it.
    Reset,
}

/// What comes of a message: what the program on a port learns, and what is answered.
#[derive(Debug, Clone, Copy)]
pub struct StreamStep {
    pub event: Option<(P2pStreamEventKind, Stream)>,
    pub reply: Option<P2pHead>,
}

/// The place of a stream.
pub open spec fn place_of(s: Seq<Stream>, id: u32) -> Option<int>
    decreases s.len(),
{
    if s.len() == 0 {
        None
    } else if s.last().id == id {
        Some(s.len() - 1)
    } else {
        place_of(s.drop_last(), id)
    }
}

/// The place of the stream that a message is about: its numbers and its sender have to fit.
pub open spec fn place_for(s: Seq<Stream>, h: P2pHead) -> Option<int> {
    match place_of(s, h.destination_stream) {
        Some(i) => if s[i].peer_address == h.source_address && (if h.kind == P2pKind::Accept {
            !s[i].open
        } else {
            s[i].peer_id == h.source_stream || (h.kind == P2pKind::Reset && !s[i].open)
        }) {
            Some(i)
        } else {
            None
        },
        None => None,
    }
}

/// A message of a stream.
pub open spec fn stream_head(kind: P2pKind, s: Stream, me: u32) -> P2pHead {
    P2pHead {
        kind,
        source_address: me,
        destination_address: s.peer_address,
        source_port: s.local_port,
        destination_port: s.peer_port,
        source_stream: s.id,
        destination_stream: s.peer_id,
        sequence: s.sent,
    }
}

/// The answer to a message of a stream that is not known.
pub open spec fn refusal(h: P2pHead) -> P2pHead {
    P2pHead {
        kind: P2pKind::Reset,
        source_address: h.destination_address,
        destination_address: h.source_address,
        source_port: h.destination_port,
        destination_port: h.source_port,
        source_stream: h.destination_stream,
        destination_stream: h.source_stream,
        sequence: 0,
    }
}

/// The stream that another board asked for.
pub open spec fn granted(h: P2pHead, id: u32) -> Stream {
    Stream {
        id,
        peer_id: h.source_stream,
        peer_address: h.source_address,
        local_port: h.destination_port,
        peer_port: h.source_port,
        sent: 0,
        open: true,
    }
}

/// The streams of a board, as a value.
pub struct StreamsSpec {
    pub items: Seq<Stream>,
    /// The number of the next stream.
    pub next: u32,
}

impl StreamsSpec {
    /// No two streams have one number, and the next number is free.
    pub open spec fn wf(self) -> bool {
        &&& forall|i: int, j: int|
            0 <= i < j < self.items.len() ==> (#[trigger] self.items[i]).id != (
            #[trigger] self.items[j]).id
        &&& forall|i: int| 0 <= i < self.items.len() ==> (#[trigger] self.items[i]).id < self.next
    }

    /// The streams once bytes went out over one, and the stream as it was; none where it is not
    /// open.
    pub open spec fn data_sent(self, id: u32) -> (StreamsSpec, Option<Stream>) {
        match place_of(self.items, id) {
            Some(i) => if self.items[i].open {
                let s = self.items[i];
                let next = Stream {
                    sent: if s.sent == u32::MAX {
                        0
                    } else {
                        (s.sent + 1) as u32
                    },
                    ..s
                };
                (StreamsSpec { items: self.items.update(i, next), ..self }, Some(s))
            } else {
                (self, None)
            },
            None => (self, None),
        }
    }

    /// The streams once this board ended one, and the stream as it was.
    pub open spec fn ended(self, id: u32) -> (StreamsSpec, Option<Stream>) {
        match place_of(self.items, id) {
            Some(i) => (
                StreamsSpec { items: self.items.remove(i), ..self },
                Some(self.items[i]),
            ),
            None => (self, None),
        }
    }

    /// What asking another board for a stream gives: the number of the stream, unless all numbers
    /// are used up.
    pub open spec fn asked(self, address: u32, peer_port: u16, local_port: u16) -> (
        StreamsSpec,
        Option<Stream>,
    ) {
        if self.next == u32::MAX {
            (self, None)
        } else {
            let s = Stream {
                id: self.next,
                peer_id: 0,
                peer_address: address,
                local_port,
                peer_port,
                sent: 0,
                open: false,
            };
            (StreamsSpec { items: self.items.push(s), next: (self.next + 1) as u32 }, Some(s))
        }
    }

    /// What a message of a stream does. `bound` says whether a program listens on the port.
    pub open spec fn after(self, h: P2pHead, bound: bool) -> StreamsSpec {
        if h.kind == P2pKind::Open {
            if bound && self.next < u32::MAX {
                StreamsSpec {
                    items: self.items.push(granted(h, self.next)),
                    next: (self.next + 1) as u32,
                }
            } else {
                self
            }
        } else {
            match place_for(self.items, h) {
                Some(i) => if h.kind == P2pKind::Accept {
                    StreamsSpec {
                        items: self.items.update(
                            i,
                            Stream { peer_id: h.source_stream, open: true, ..self.items[i] },
                        ),
                        ..self
                    }
                } else if h.kind == P2pKind::Data {
                    self
                } else {
                    StreamsSpec { items: self.items.remove(i), ..self }
                },
                None => self,
            }
        }
    }

    /// What comes of a message of a stream.
    pub open spec fn step(self, h: P2pHead, bound: bool) -> StreamStep {
        if h.kind == P2pKind::Open {
            if bound && self.next < u32::MAX {
                let s = granted(h, self.next);
                StreamStep {
                    event: Some((P2pStreamEventKind::Accepted, s)),
                    reply: Some(stream_head(P2pKind::Accept, s, h.destination_address)),
                }
            } else {
                StreamStep { event: None, reply: Some(refusal(h)) }
            }
        } else {
            match place_for(self.items, h) {
                Some(i) => {
                    let s = self.items[i];
                    let event = match h.kind {
                        P2pKind::Accept => Some(
                            (
                                P2pStreamEventKind::Connected,
                                Stream { peer_id: h.source_stream, open: true, ..s },
                            ),
                        ),
                        P2pKind::Data => Some((P2pStreamEventKind::Data, s)),
                        P2pKind::Close => Some((P2pStreamEventKind::Closed, s)),
                        P2pKind::Reset => Some((P2pStreamEventKind::Reset, s)),
                        _ => None,
                    };
                    StreamStep { event, reply: None }
                },
                None => StreamStep {
                    event: None,
                    reply: if h.kind == P2pKind::Data {
                        Some(refusal(h))
                    } else {
                        None
                    },
                },
            }
        }
    }
}

proof fn lemma_place_bounds(s: Seq<Stream>, id: u32)
    ensures
        place_of(s, id) matches Some(i) ==> 0 <= i < s.len() && s[i].id == id,
        place_of(s, id) is None ==> forall|i: int| 0 <= i < s.len() ==> (#[trigger] s[i]).id != id,
    decreases s.len(),
{
    if s.len() > 0 && s.last().id != id {
        lemma_place_bounds(s.drop_last(), id);
        if place_of(s, id) is None {
            assert forall|i: int| 0 <= i < s.len() implies (#[trigger] s[i]).id != id by {
                if i < s.len() - 1 {
                    assert(s.drop_last()[i].id != id);
                }
            }
        }
    }
}

/// Streams keep their numbers apart, whatever is asked for and whatever comes.
pub proof fn lemma_streams_stay_apart(
    t: StreamsSpec,
    h: P2pHead,
    bound: bool,
    address: u32,
    peer_port: u16,
    local_port: u16,
)
    requires
        t.wf(),
    ensures
        t.after(h, bound).wf(),
        t.asked(address, peer_port, local_port).0.wf(),
{
    lemma_place_bounds(t.items, h.destination_stream);
}

/// Two boards that join by a stream know each other's numbers: one asks, the other grants, and
/// from then on a message of either is known to the other.
pub proof fn lemma_handshake_joins(
    a: StreamsSpec,
    b: StreamsSpec,
    address_a: u32,
    address_b: u32,
    peer_port: u16,
    local_port: u16,
)
    requires
        a.wf(),
        b.wf(),
        a.next < u32::MAX,
        b.next < u32::MAX,
    ensures
        ({
            let (a1, s) = a.asked(address_b, peer_port, local_port);
            let ask = stream_head(P2pKind::Open, s->0, address_a);
            let b1 = b.after(ask, true);
            let answer = b.step(ask, true).reply->0;
            let a2 = a1.after(answer, true);
            let mine = a2.items.last();
            let theirs = b1.items.last();
            &&& b.step(ask, true).event == Some((P2pStreamEventKind::Accepted, theirs))
            &&& a1.step(answer, true).event == Some((P2pStreamEventKind::Connected, mine))
            &&& mine.open && theirs.open
            &&& mine.peer_id == theirs.id && theirs.peer_id == mine.id
            &&& b1.step(stream_head(P2pKind::Data, mine, address_a), true).event == Some(
                (P2pStreamEventKind::Data, theirs),
            )
            &&& a2.step(stream_head(P2pKind::Data, theirs, address_b), true).event == Some(
                (P2pStreamEventKind::Data, mine),
            )
            &&& b1.after(stream_head(P2pKind::Close, mine, address_a), true).items =~= b.items
        }),
{
    let (a1, s) = a.asked(address_b, peer_port, local_port);
    let ask = stream_head(P2pKind::Open, s->0, address_a);
    let b1 = b.after(ask, true);
    let answer = b.step(ask, true).reply->0;
    assert(a1.items.last() == s->0);
    assert(place_of(a1.items, answer.destination_stream) == Some(a1.items.len() - 1));
    let a2 = a1.after(answer, true);
    let mine = a2.items.last();
    let theirs = b1.items.last();
    assert(place_of(b1.items, theirs.id) == Some(b1.items.len() - 1));
    assert(place_of(a2.items, mine.id) == Some(a2.items.len() - 1));
    assert(b1.items.remove(b1.items.len() - 1) =~= b.items);
}

/// The streams of a board.
#[derive(Debug)]
pub struct Streams {
    items: Vec<Stream>,
    next: u32,
}

impl View for Streams {
    type V = StreamsSpec;

    closed spec fn view(&self) -> StreamsSpec {
        StreamsSpec { items: self.items@, next: self.next }
    }
}

fn head_of(kind: P2pKind, s: &Stream, me: u32) -> (h: P2pHead)
    ensures
        h == stream_head(kind, *s, me),
{
    P2pHead {
        kind,
        source_address: me,
        destination_address: s.peer_address,
        source_port: s.local_port,
        destination_port: s.peer_port,
        source_stream: s.id,
        destination_stream: s.peer_id,
        sequence: s.sent,
    }
}

fn refuse(h: &P2pHead) -> (r: P2pHead)
    ensures
        r == refusal(*h),
{
    P2pHead {
        kind: P2pKind::Reset,
        source_address: h.destination_address,
        destination_address: h.source_address,
        source_port: h.destination_port,
        destination_port: h.source_port,
        source_stream: h.destination_stream,
        destination_stream: h.source_stream,
        sequence: 0,
    }
}

impl Streams {
    pub fn new() -> (r: Streams)
        ensures
            r@ == (StreamsSpec { items: Seq::<Stream>::empty(), next: 1 }),
            r@.wf(),
    {
        Streams { items: Vec::new(), next: 1 }
    }

    fn place(&self, id: u32) -> (r: Option<usize>)
        ensures
            match place_of(self@.items, id) {
                Some(i) => r matches Some(k) && k == i && k < self@.items.len(),
                None => r is None,
            },
    {
        let mut n: usize = self.items.len();
        proof {
            assert(self.items@.take(n as int) =~= self.items@);
            lemma_place_bounds(self.items@, id);
        }
        while n > 0
            invariant
                n <= self.items@.len(),
                place_of(self.items@, id) == place_of(self.items@.take(n as int), id),
            decreases n,
        {
            assert(self.items@.take(n as int).drop_last() =~= self.items@.take(n - 1));
            if self.items[n - 1].id == id {
                return Some(n - 1);
            }
            n = n - 1;
        }
        None
    }

    /// Asks another board for a stream.
    pub fn ask(&mut self, me: u32, address: u32, peer_port: u16, local_port: u16) -> (r: Option<
        P2pHead,
    >)
        requires
            old(self)@.wf(),
        ensures
            final(self)@.wf(),
            final(self)@ == old(self)@.asked(address, peer_port, local_port).0,
            match old(self)@.asked(address, peer_port, local_port).1 {
                Some(s) => r == Some(stream_head(P2pKind::Open, s, me)),
                None => r is None,
            },
    {
        if self.next == u32::MAX {
            return None;
        }
        let s = Stream {
            id: self.next,
            peer_id: 0,
            peer_address: address,
            local_port,
            peer_port,
            sent: 0,
            open: false,
        };
        self.next = self.next + 1;
        self.items.push(s);
        Some(head_of(P2pKind::Open, &s, me))
    }

    /// Takes a message of a stream.
    pub fn take(&mut self, h: &P2pHead, bound: bool) -> (r: StreamStep)
        requires
            old(self)@.wf(),
        ensures
            final(self)@.wf(),
            final(self)@ == old(self)@.after(*h, bound),
            r == old(self)@.step(*h, bound),
    {
        proof {
            lemma_streams_stay_apart(self@, *h, bound, 0, 0, 0);
        }
        if h.kind == P2pKind::Open {
            if !bound || self.next == u32::MAX {
                return StreamStep { event: None, reply: Some(refuse(h)) };
            }
            let s = Stream {
                id: self.next,
                peer_id: h.source_stream,
                peer_address: h.source_address,
                local_port: h.destination_port,
                peer_port: h.source_port,
                sent: 0,
                open: true,
            };
            self.next = self.next + 1;
            self.items.push(s);
            return StreamStep {
                event: Some((P2pStreamEventKind::Accepted, s)),
                reply: Some(head_of(P2pKind::Accept, &s, h.destination_address)),
            };
        }
        let found: Option<usize> = match self.place(h.destination_stream) {
            Some(i) => {
                let s: Stream = self.items[i];
                let fits: bool = if h.kind == P2pKind::Accept {
                    !s.open
                } else {
                    s.peer_id == h.source_stream || (h.kind == P2pKind::Reset && !s.open)
                };
                if s.peer_address == h.source_address && fits {
                    Some(i)
                } else {
                    None
                }
            },
            None => None,
        };
        match found {
            Some(i) => {
                let mut s: Stream = self.items[i];
                let event: Option<(P2pStreamEventKind, Stream)> = match h.kind {
                    P2pKind::Accept => {
                        s.peer_id = h.source_stream;
                        s.open = true;
                        self.items.set(i, s);
                        Some((P2pStreamEventKind::Connected, s))
                    },
                    P2pKind::Data => Some((P2pStreamEventKind::Data, s)),
                    P2pKind::Close => {
                        let _ = self.items.remove(i);
                        Some((P2pStreamEventKind::Closed, s))
                    },
                    P2pKind::Reset => {
                        let _ = self.items.remove(i);
                        Some((P2pStreamEventKind::Reset, s))
                    },
                    _ => {
                        let _ = self.items.remove(i);
                        None
                    },
                };
                StreamStep { event, reply: None }
            },
            None => StreamStep {
                event: None,
                reply: if h.kind == P2pKind::Data {
                    Some(refuse(h))
                } else {
                    None
                },
            },
        }
    }

    /// The front of the next message of a stream, where there is one that was granted.
    pub fn next_data(&mut self, id: u32, me: u32) -> (r: Option<P2pHead>)
        requires
            old(self)@.wf(),
        ensures
            final(self)@.wf(),
            final(self)@ == old(self)@.data_sent(id).0,
            match old(self)@.data_sent(id).1 {
                Some(s) => r == Some(stream_head(P2pKind::Data, s, me)),
                None => r is None,
            },
    {
        match self.place(id) {
            Some(i) => {
                let mut s: Stream = self.items[i];
                if !s.open {
                    return None;
                }
                let h: P2pHead = head_of(P2pKind::Data, &s, me);
                s.sent = if s.sent == u32::MAX {
                    0
                } else {
                    s.sent + 1
                };
                self.items.set(i, s);
                Some(h)
            },
            None => None,
        }
    }

    /// Ends a stream.
    pub fn end(&mut self, id: u32, me: u32) -> (r: Option<P2pHead>)
        requires
            old(self)@.wf(),
        ensures
            final(self)@.wf(),
            final(self)@ == old(self)@.ended(id).0,
            match old(self)@.ended(id).1 {
                Some(s) => r == Some(stream_head(P2pKind::Close, s, me)),
                None => r is None,
            },
    {
        match self.place(id) {
            Some(i) => {
                let s: Stream = self.items.remove(i);
                Some(head_of(P2pKind::Close, &s, me))
            },
            None => None,
        }
    }
}

} // verus!
