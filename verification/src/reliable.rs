//! Sequence numbers over one link: what was sent and not acknowledged, and what came early.
use vstd::prelude::*;
use crate::assoc::Assoc;

verus! {

/// Milliseconds after which a frame that was not acknowledged is sent again.
pub const RELIABLE_RETRANSMIT_MS: u64 = 200;

/// Most frames of one link that wait for their acknowledgement.
pub const RELIABLE_MAX_PENDING: usize = 64;

/// How far ahead of its turn a frame may come and still be kept.
pub const RELIABLE_WINDOW: u32 = 64;

/// A frame that waits for its acknowledgement, as a value.
pub struct SentSpec {
    pub seq: u32,
    pub frame: Seq<u8>,
    /// When it was last sent.
    pub at: u64,
}

/// A frame that waits for its acknowledgement.
pub struct SentFrame {
    pub seq: u32,
    pub frame: Vec<u8>,
    pub at: u64,
}

impl View for SentFrame {
    type V = SentSpec;

    open spec fn view(&self) -> SentSpec {
        SentSpec { seq: self.seq, frame: self.frame@, at: self.at }
    }
}

/// The sending half of a link, as a value.
pub struct TxSpec {
    /// The number of the next frame.
    pub next: u32,
    pub sent: Seq<SentSpec>,
}

/// The number after `n`; after the last one comes the first again.
pub open spec fn after(n: u32) -> u32 {
    if n == u32::MAX {
        1
    } else {
        (n + 1) as u32
    }
}

/// Whether a frame sent at `at` is due again.
pub open spec fn is_due(at: u64, now: u64) -> bool {
    now.wrapping_sub(at) >= RELIABLE_RETRANSMIT_MS
}

impl TxSpec {
    /// The half after a frame went out: it waits, and the oldest gives way where too many do.
    pub open spec fn recorded(self, frame: Seq<u8>, now: u64) -> TxSpec {
        let all = self.sent.push(SentSpec { seq: self.next, frame, at: now });
        TxSpec {
            next: after(self.next),
            sent: if all.len() > RELIABLE_MAX_PENDING {
                all.skip(1)
            } else {
                all
            },
        }
    }

    /// The half after everything up to `ack` was acknowledged.
    pub open spec fn acknowledged(self, ack: u32) -> TxSpec {
        TxSpec { next: self.next, sent: self.sent.filter(|e: SentSpec| e.seq > ack) }
    }

    /// The half after what was due went out again.
    pub open spec fn resent(self, now: u64) -> TxSpec {
        TxSpec {
            next: self.next,
            sent: self.sent.map_values(
                |e: SentSpec|
                    if is_due(e.at, now) {
                        SentSpec { at: now, ..e }
                    } else {
                        e
                    },
            ),
        }
    }

    /// The frames that are due, in the order in which they went out first.
    pub open spec fn due(self, now: u64) -> Seq<Seq<u8>> {
        self.sent.filter(|e: SentSpec| is_due(e.at, now)).map_values(|e: SentSpec| e.frame)
    }
}

/// The latest frame in the list with the number `seq`.
pub open spec fn frame_of(sent: Seq<SentSpec>, seq: u32) -> Option<Seq<u8>>
    decreases sent.len(),
{
    if sent.len() == 0 {
        None
    } else if sent.last().seq == seq {
        Some(sent.last().frame)
    } else {
        frame_of(sent.drop_last(), seq)
    }
}

/// The sending half of a link.
pub struct ReliableTx {
    next: u32,
    sent: Vec<SentFrame>,
}

impl View for ReliableTx {
    type V = TxSpec;

    closed spec fn view(&self) -> TxSpec {
        TxSpec { next: self.next, sent: self.sent@.map_values(|e: SentFrame| e@) }
    }
}

/// A copy of a byte string.
fn copy_bytes(b: &[u8]) -> (out: Vec<u8>)
    ensures
        out@ == b@,
{
    let out: Vec<u8> = crate::codec::copy_range(b, 0, b.len());
    assert(b@.subrange(0, b@.len() as int) =~= b@);
    out
}

impl ReliableTx {
    /// A half over which nothing went out: numbers start at 1.
    pub fn new() -> (r: ReliableTx)
        ensures
            r@.next == 1,
            r@.sent == Seq::<SentSpec>::empty(),
    {
        let r = ReliableTx { next: 1, sent: Vec::new() };
        assert(r@.sent =~= Seq::<SentSpec>::empty());
        r
    }

    /// The number of the next frame.
    pub fn next_seq(&self) -> (n: u32)
        ensures
            n == self@.next,
    {
        self.next
    }

    /// How many frames wait for their acknowledgement.
    pub fn pending(&self) -> (n: usize)
        ensures
            n == self@.sent.len(),
    {
        self.sent.len()
    }

    /// Takes note that a frame with the next number went out.
    pub fn record(&mut self, frame: Vec<u8>, now: u64)
        ensures
            final(self)@ == old(self)@.recorded(frame@, now),
    {
        let ghost start = self@;
        let e = SentFrame { seq: self.next, frame, at: now };
        let ghost ev = e@;
        let ghost before = self.sent@;
        self.sent.push(e);
        let ghost all = start.sent.push(ev);
        assert(self.sent@.map_values(|e: SentFrame| e@) =~= all);
        if self.sent.len() > RELIABLE_MAX_PENDING {
            let _ = self.sent.remove(0);
            assert(self.sent@.map_values(|e: SentFrame| e@) =~= all.skip(1));
        }
        self.next = if self.next == u32::MAX {
            1
        } else {
            self.next + 1
        };
    }

    /// Takes note that everything up to `ack` arrived.
    pub fn acknowledge(&mut self, ack: u32)
        ensures
            final(self)@ == old(self)@.acknowledged(ack),
    {
        let ghost keep = |e: SentSpec| e.seq > ack;
        let ghost all = self@.sent;
        let mut kept: Vec<SentFrame> = Vec::new();
        let mut i: usize = 0;
        proof {
            reveal(Seq::filter);
            assert(all.take(0).filter(keep) =~= Seq::<SentSpec>::empty());
        }
        while i < self.sent.len()
            invariant
                i <= self.sent@.len() == all.len(),
                *self == *old(self),
                all == self@.sent,
                keep == (|e: SentSpec| e.seq > ack),
                kept@.map_values(|e: SentFrame| e@) =~= all.take(i as int).filter(keep),
            decreases self.sent@.len() - i,
        {
            proof {
                assert(all.take(i + 1) =~= all.take(i as int).push(all[i as int]));
                all.take(i as int).lemma_filter_push(all[i as int], keep);
            }
            if self.sent[i].seq > ack {
                let ghost before = kept@;
                let e = SentFrame {
                    seq: self.sent[i].seq,
                    frame: copy_bytes(&self.sent[i].frame),
                    at: self.sent[i].at,
                };
                let ghost ev = e@;
                kept.push(e);
                assert(kept@.map_values(|e: SentFrame| e@) =~= before.map_values(
                    |e: SentFrame| e@,
                ).push(ev));
            }
            i = i + 1;
        }
        assert(all.take(i as int) =~= all);
        self.sent = kept;
    }

    /// The frame with the number `seq`, if it still waits.
    pub fn find(&self, seq: u32) -> (r: Option<Vec<u8>>)
        ensures
            match frame_of(self@.sent, seq) {
                Some(f) => r matches Some(v) && v@ == f,
                None => r is None,
            },
    {
        let ghost all = self@.sent;
        let mut i: usize = self.sent.len();
        assert(all.take(i as int) =~= all);
        while i > 0
            invariant
                i <= self.sent@.len() == all.len(),
                all == self@.sent,
                frame_of(all, seq) == frame_of(all.take(i as int), seq),
            decreases i,
        {
            assert(all.take(i as int).drop_last() =~= all.take(i - 1));
            assert(all.take(i as int).last() == self.sent@[i - 1]@);
            if self.sent[i - 1].seq == seq {
                return Some(copy_bytes(&self.sent[i - 1].frame));
            }
            i = i - 1;
        }
        None
    }

    /// The frames that are due again; they count as sent now.
    pub fn take_due(&mut self, now: u64) -> (frames: Vec<Vec<u8>>)
        ensures
            final(self)@ == old(self)@.resent(now),
            frames@.map_values(|f: Vec<u8>| f@) == old(self)@.due(now),
    {
        let ghost all = self@.sent;
        let ghost due = |e: SentSpec| is_due(e.at, now);
        let ghost get = |e: SentSpec| e.frame;
        let ghost renew = |e: SentSpec|
            if is_due(e.at, now) {
                SentSpec { at: now, ..e }
            } else {
                e
            };
        let mut frames: Vec<Vec<u8>> = Vec::new();
        let mut renewed: Vec<SentFrame> = Vec::new();
        let mut i: usize = 0;
        proof {
            reveal(Seq::filter);
            assert(all.take(0).filter(due).map_values(get) =~= Seq::<Seq<u8>>::empty());
            assert(all.take(0).map_values(renew) =~= Seq::<SentSpec>::empty());
        }
        while i < self.sent.len()
            invariant
                i <= self.sent@.len() == all.len(),
                *self == *old(self),
                all == self@.sent,
                due == (|e: SentSpec| is_due(e.at, now)),
                get == (|e: SentSpec| e.frame),
                renew == (|e: SentSpec|
                    if is_due(e.at, now) {
                        SentSpec { at: now, ..e }
                    } else {
                        e
                    }),
                renewed@.map_values(|e: SentFrame| e@) =~= all.take(i as int).map_values(renew),
                frames@.map_values(|f: Vec<u8>| f@) =~= all.take(i as int).filter(due).map_values(
                    get,
                ),
            decreases self.sent@.len() - i,
        {
            let ghost here = all[i as int];
            let ghost done = all.take(i as int);
            proof {
                assert(all.take(i + 1) =~= done.push(here));
                done.lemma_filter_push(here, due);
                assert(done.push(here).map_values(renew) =~= done.map_values(renew).push(
                    renew(here),
                ));
            }
            let is: bool = now.wrapping_sub(self.sent[i].at) >= RELIABLE_RETRANSMIT_MS;
            let ghost before_r = renewed@;
            let e = SentFrame {
                seq: self.sent[i].seq,
                frame: copy_bytes(&self.sent[i].frame),
                at: if is {
                    now
                } else {
                    self.sent[i].at
                },
            };
            let ghost ev = e@;
            renewed.push(e);
            assert(renewed@.map_values(|e: SentFrame| e@) =~= before_r.map_values(
                |e: SentFrame| e@,
            ).push(ev));
            if is {
                let ghost before_f = frames@;
                let f: Vec<u8> = copy_bytes(&self.sent[i].frame);
                let ghost fv = f@;
                frames.push(f);
                proof {
                    assert(frames@.map_values(|f: Vec<u8>| f@) =~= before_f.map_values(
                        |f: Vec<u8>| f@,
                    ).push(fv));
                    assert(done.filter(due).push(here).map_values(get) =~= done.filter(
                        due,
                    ).map_values(get).push(here.frame));
                }
            }
            i = i + 1;
        }
        assert(all.take(i as int) =~= all);
        self.sent = renewed;
        frames
    }
}

/// What waits for an acknowledgement never exceeds its bound.
pub proof fn lemma_pending_bounded(t: TxSpec, frame: Seq<u8>, now: u64)
    requires
        t.sent.len() <= RELIABLE_MAX_PENDING,
    ensures
        t.recorded(frame, now).sent.len() <= RELIABLE_MAX_PENDING,
{
}

/// A frame that was acknowledged is not sent again.
pub proof fn lemma_acknowledged_is_silent(t: TxSpec, ack: u32, seq: u32)
    requires
        seq <= ack,
    ensures
        frame_of(t.acknowledged(ack).sent, seq) is None,
{
    let kept = t.acknowledged(ack).sent;
    let keep = |e: SentSpec| e.seq > ack;
    assert forall|i: int| 0 <= i < kept.len() implies (#[trigger] kept[i]).seq != seq by {
        t.sent.lemma_filter_pred(keep, i);
    }
    lemma_frame_of_none(kept, seq);
}

proof fn lemma_frame_of_none(sent: Seq<SentSpec>, seq: u32)
    requires
        forall|i: int| 0 <= i < sent.len() ==> (#[trigger] sent[i]).seq != seq,
    ensures
        frame_of(sent, seq) is None,
    decreases sent.len(),
{
    if sent.len() > 0 {
        assert forall|i: int| 0 <= i < sent.drop_last().len() implies (
        #[trigger] sent.drop_last()[i]).seq != seq by {
            assert(sent.drop_last()[i] == sent[i]);
        }
        lemma_frame_of_none(sent.drop_last(), seq);
    }
}

/// The receiving half of a link, as a value.
pub struct RxSpec {
    /// The number of the frame whose turn it is.
    pub expected: u32,
    /// Frames that came early.
    pub held: Map<u128, Seq<u8>>,
}

/// The frames in `held` from number `from` on without a gap.
pub open spec fn run(held: Map<u128, Seq<u8>>, from: int) -> Seq<Seq<u8>>
    decreases u32::MAX - from,
{
    if 0 <= from < u32::MAX && held.contains_key(from as u128) {
        seq![held[from as u128]] + run(held, from + 1)
    } else {
        Seq::<Seq<u8>>::empty()
    }
}

/// `held` without the numbers from `from` up to `to`.
pub open spec fn beyond(held: Map<u128, Seq<u8>>, from: int, to: int) -> Map<u128, Seq<u8>> {
    Map::new(|k: u128| held.contains_key(k) && !(from <= k < to), |k: u128| held[k])
}

/// What becomes of a frame.
#[derive(Debug, Clone, Copy, PartialEq, Eq, Structural)]
pub enum Arrival {
    /// It was its turn.
    InTurn,
    /// It came early and is kept.
    Early,
    /// It came too early and is dropped.
    TooEarly,
    /// It came before.
    Again,
}

impl RxSpec {
    pub open spec fn arrival(self, seq: u32) -> Arrival {
        if seq < self.expected {
            Arrival::Again
        } else if seq == self.expected && seq < u32::MAX {
            Arrival::InTurn
        } else if seq - self.expected <= RELIABLE_WINDOW && seq < u32::MAX {
            if self.held.contains_key(seq as u128) {
                Arrival::Again
            } else {
                Arrival::Early
            }
        } else {
            Arrival::TooEarly
        }
    }

    /// The frames that are handed on when the frame `seq` arrives, in order.
    pub open spec fn handed(self, seq: u32, frame: Seq<u8>) -> Seq<Seq<u8>> {
        if self.arrival(seq) == Arrival::InTurn {
            seq![frame] + run(self.held, seq + 1)
        } else {
            Seq::<Seq<u8>>::empty()
        }
    }

    /// The half after the frame `seq` arrived.
    pub open spec fn arrived(self, seq: u32, frame: Seq<u8>) -> RxSpec {
        match self.arrival(seq) {
            Arrival::InTurn => {
                let end = seq + 1 + run(self.held, seq + 1).len();
                RxSpec { expected: end as u32, held: beyond(self.held, seq + 1, end) }
            },
            Arrival::Early => RxSpec {
                expected: self.expected,
                held: self.held.insert(seq as u128, frame),
            },
            _ => self,
        }
    }
}

/// The receiving half of a link.
pub struct ReliableRx {
    expected: u32,
    held: Assoc<Vec<u8>>,
}

impl View for ReliableRx {
    type V = RxSpec;

    closed spec fn view(&self) -> RxSpec {
        RxSpec { expected: self.expected, held: self.held@ }
    }
}

proof fn lemma_run_bounded(held: Map<u128, Seq<u8>>, from: int)
    requires
        0 <= from <= u32::MAX,
    ensures
        from + run(held, from).len() <= u32::MAX,
    decreases u32::MAX - from,
{
    if from < u32::MAX && held.contains_key(from as u128) {
        lemma_run_bounded(held, from + 1);
    }
}

impl ReliableRx {
    /// A half over which nothing came: the first number is 1.
    pub fn new() -> (r: ReliableRx)
        ensures
            r@ == (RxSpec { expected: 1, held: Map::empty() }),
    {
        ReliableRx { expected: 1, held: Assoc::new() }
    }

    /// The number of the frame whose turn it is.
    pub fn expected_seq(&self) -> (n: u32)
        ensures
            n == self@.expected,
    {
        self.expected
    }

    /// Takes in the frame `seq`; hands on, in order, the frames whose turn has come.
    pub fn accept(&mut self, seq: u32, frame: Vec<u8>) -> (r: (Arrival, Vec<Vec<u8>>))
        ensures
            r.0 == old(self)@.arrival(seq),
            r.1@.map_values(|f: Vec<u8>| f@) == old(self)@.handed(seq, frame@),
            final(self)@ == old(self)@.arrived(seq, frame@),
    {
        let ghost start = self@;
        let ghost fv = frame@;
        let none: Vec<Vec<u8>> = Vec::new();
        assert(none@.map_values(|f: Vec<u8>| f@) =~= Seq::<Seq<u8>>::empty());
        if seq < self.expected {
            return (Arrival::Again, none);
        }
        if seq == u32::MAX {
            return (Arrival::TooEarly, none);
        }
        if seq > self.expected {
            if seq - self.expected > RELIABLE_WINDOW {
                return (Arrival::TooEarly, none);
            }
            if self.held.get(seq as u128).is_some() {
                return (Arrival::Again, none);
            }
            self.held.put(seq as u128, frame);
            return (Arrival::Early, none);
        }
        let mut out: Vec<Vec<u8>> = Vec::new();
        out.push(frame);
        let mut at: u32 = seq + 1;
        proof {
            lemma_run_bounded(start.held, seq + 1);
            assert(out@.map_values(|f: Vec<u8>| f@) =~= seq![fv]);
            assert(beyond(start.held, seq + 1, seq + 1) =~= start.held);
            assert(seq![fv] + run(start.held, seq + 1) =~= out@.map_values(|f: Vec<u8>| f@) + run(
                start.held,
                at as int,
            ));
        }
        loop
            invariant
                seq < at,
                start.held == old(self)@.held,
                seq + 1 + run(start.held, seq + 1).len() <= u32::MAX,
                self.held@ == beyond(start.held, seq + 1, at as int),
                at + run(start.held, at as int).len() == seq + 1 + run(start.held, seq + 1).len(),
                out@.map_values(|f: Vec<u8>| f@) + run(start.held, at as int) == seq![fv] + run(
                    start.held,
                    seq + 1,
                ),
            ensures
                run(start.held, at as int).len() == 0,
            decreases u32::MAX - at,
        {
            if at == u32::MAX {
                break;
            }
            match self.held.remove(at as u128) {
                Some(f) => {
                    let ghost before = out@.map_values(|f: Vec<u8>| f@);
                    let ghost g = f@;
                    out.push(f);
                    proof {
                        assert(start.held.contains_key(at as u128));
                        assert(out@.map_values(|f: Vec<u8>| f@) =~= before.push(g));
                        assert(before + (seq![g] + run(start.held, at + 1)) =~= before.push(g)
                            + run(start.held, at + 1));
                        assert(self.held@ =~= beyond(start.held, seq + 1, at + 1));
                    }
                    at = at + 1;
                },
                None => {
                    proof {
                        assert(!start.held.contains_key(at as u128));
                        assert(self.held@ =~= beyond(start.held, seq + 1, at as int));
                    }
                    break;
                },
            }
        }
        self.expected = at;
        assert(out@.map_values(|f: Vec<u8>| f@) + Seq::<Seq<u8>>::empty() =~= out@.map_values(
            |f: Vec<u8>| f@,
        ));
        assert(run(start.held, at as int) =~= Seq::<Seq<u8>>::empty());
        (Arrival::InTurn, out)
    }
}

/// A link hands on exactly the frames between the number that was expected before and the one
/// that is expected after: each once, none left out.
pub proof fn lemma_handed_without_gap(x: RxSpec, seq: u32, frame: Seq<u8>)
    ensures
        x.arrived(seq, frame).expected == x.expected + x.handed(seq, frame).len(),
{
    if x.arrival(seq) == Arrival::InTurn {
        lemma_run_bounded(x.held, seq + 1);
    }
}

proof fn lemma_run_items(held: Map<u128, Seq<u8>>, from: int, i: int)
    requires
        0 <= from,
        0 <= i < run(held, from).len(),
    ensures
        held.contains_key((from + i) as u128),
        run(held, from)[i] == held[(from + i) as u128],
    decreases u32::MAX - from,
{
    if from < u32::MAX && held.contains_key(from as u128) {
        if i > 0 {
            lemma_run_items(held, from + 1, i - 1);
        }
    }
}

/// The frames that are handed on are the ones that came with those numbers, in that order.
pub proof fn lemma_handed_in_order(x: RxSpec, seq: u32, frame: Seq<u8>, i: int)
    requires
        0 <= i < x.handed(seq, frame).len(),
    ensures
        x.handed(seq, frame)[i] == (if i == 0 {
            frame
        } else {
            x.held[(seq + i) as u128]
        }),
{
    if i > 0 {
        lemma_run_items(x.held, seq + 1, i - 1);
    }
}

/// A frame that was handed on is not handed on again.
pub proof fn lemma_handed_once(x: RxSpec, seq: u32, frame: Seq<u8>, again: u32, other: Seq<u8>)
    requires
        x.arrival(seq) == Arrival::InTurn,
        again < x.arrived(seq, frame).expected,
    ensures
        x.arrived(seq, frame).arrival(again) == Arrival::Again,
        x.arrived(seq, frame).handed(again, other) == Seq::<Seq<u8>>::empty(),
        x.arrived(seq, frame).arrived(again, other) == x.arrived(seq, frame),
{
}

} // verus!
