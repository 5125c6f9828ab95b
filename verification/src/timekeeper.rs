//! Whose time a board goes by.
use vstd::prelude::*;
use vstd::string::*;
use crate::codec;
use crate::discovery;
use crate::error::{TelemetryError, TelemetryResult};
use crate::meta::{DataType, TY_TIMESYNC_ANNOUNCE, TY_TIMESYNC_REQUEST, TY_TIMESYNC_RESPONSE};
use crate::packet::{Packet, PacketSpec};
use crate::timesync;
use crate::timesync::{TimeSyncRequest, TimeSyncResponse, TimeSyncSample};

verus! {

/// What part a board takes in telling the time.
#[derive(Debug, Clone, Copy, PartialEq, Eq, Structural)]
pub enum TimeSyncRole {
    /// It goes by the time of others.
    Consumer,
    /// It tells others the time.
    Source,
}

/// How a board takes part in telling the time.
#[derive(Debug, Clone, Copy, PartialEq, Eq, Structural)]
pub struct TimeSyncConfig {
    pub role: TimeSyncRole,
    /// The lower, the better.
    pub priority: u64,
    pub announce_interval_ms: u64,
    pub request_interval_ms: u64,
    /// A board that was not heard of for so long is not asked.
    pub source_timeout_ms: u64,
}

impl Default for TimeSyncConfig {
    fn default() -> (r: TimeSyncConfig)
        ensures
            r == (TimeSyncConfig {
                role: TimeSyncRole::Consumer,
                priority: 100,
                announce_interval_ms: 1000,
                request_interval_ms: 1000,
                source_timeout_ms: 5000,
            }),
    {
        TimeSyncConfig {
            role: TimeSyncRole::Consumer,
            priority: 100,
            announce_interval_ms: 1000,
            request_interval_ms: 1000,
            source_timeout_ms: 5000,
        }
    }
}

/// A board that tells the time, as a value.
pub struct SourceSpec {
    pub sender: Seq<char>,
    pub priority: u64,
    pub last_seen: u64,
}

/// A board that tells the time.
#[derive(Debug)]
pub struct TimeSource {
    pub sender: String,
    pub priority: u64,
    pub last_seen: u64,
}

impl View for TimeSource {
    type V = SourceSpec;

    open spec fn view(&self) -> SourceSpec {
        SourceSpec {
            sender: self.sender@,
            priority: self.priority,
            last_seen: self.last_seen,
        }
    }
}

impl SourceSpec {
    /// Whether the board was heard of lately.
    pub open spec fn live(self, now: u64, timeout: u64) -> bool {
        now <= self.last_seen + timeout
    }
}

pub open spec fn sources(v: Seq<TimeSource>) -> Seq<SourceSpec> {
    v.map_values(|x: TimeSource| x@)
}

/// The place of a board.
pub open spec fn place_of(s: Seq<SourceSpec>, sender: Seq<char>) -> Option<int>
    decreases s.len(),
{
    if s.len() == 0 {
        None
    } else if s.last().sender == sender {
        Some(s.len() - 1)
    } else {
        place_of(s.drop_last(), sender)
    }
}

/// The boards that are known after one offered to tell the time.
pub open spec fn offered(s: Seq<SourceSpec>, e: SourceSpec) -> Seq<SourceSpec> {
    match place_of(s, e.sender) {
        Some(i) => s.update(i, e),
        None => s.push(e),
    }
}

/// The board to go by: of those that were heard of lately the one with the lowest priority number,
/// and among equals the one that is known longest.
pub open spec fn best(s: Seq<SourceSpec>, now: u64, timeout: u64) -> Option<int>
    decreases s.len(),
{
    if s.len() == 0 {
        None
    } else {
        let e = s.last();
        match best(s.drop_last(), now, timeout) {
            Some(i) => if e.live(now, timeout) && e.priority < s[i].priority {
                Some(s.len() - 1)
            } else {
                Some(i)
            },
            None => if e.live(now, timeout) {
                Some(s.len() - 1)
            } else {
                None
            },
        }
    }
}

/// The board to go by was heard of lately, and no such board is better; where there is none, no
/// board was heard of lately.
pub proof fn lemma_best_is_best(s: Seq<SourceSpec>, now: u64, timeout: u64)
    ensures
        match best(s, now, timeout) {
            Some(i) => 0 <= i < s.len() && s[i].live(now, timeout) && forall|j: int|
                0 <= j < s.len() && (#[trigger] s[j]).live(now, timeout) ==> s[i].priority
                    < s[j].priority || (s[i].priority == s[j].priority && i <= j),
            None => forall|j: int| 0 <= j < s.len() ==> !(#[trigger] s[j]).live(now, timeout),
        },
    decreases s.len(),
{
    if s.len() > 0 {
        let t = s.drop_last();
        lemma_best_is_best(t, now, timeout);
        match best(s, now, timeout) {
            Some(i) => {
                assert forall|j: int| 0 <= j < s.len() && (#[trigger] s[j]).live(
                    now,
                    timeout,
                ) implies s[i].priority < s[j].priority || (s[i].priority == s[j].priority && i
                    <= j) by {
                    if j < s.len() - 1 {
                        assert(t[j].live(now, timeout));
                    }
                }
            },
            None => {
                assert forall|j: int| 0 <= j < s.len() implies !(#[trigger] s[j]).live(
                    now,
                    timeout,
                ) by {
                    if j < s.len() - 1 {
                        assert(!t[j].live(now, timeout));
                    }
                }
            },
        }
    }
}

/// The priority in an offer to tell the time.
pub open spec fn offer_in(p: PacketSpec) -> Option<u64> {
    match discovery::whole(timesync::read_two(p.payload)) {
        Some((priority, _)) => Some(priority),
        None => None,
    }
}

/// The question in a packet.
pub open spec fn question_in(p: PacketSpec) -> Option<TimeSyncRequest> {
    match discovery::whole(timesync::read_two(p.payload)) {
        Some((seq, t1_ms)) => Some(TimeSyncRequest { seq, t1_ms }),
        None => None,
    }
}

/// The answer in a packet.
pub open spec fn answer_in(p: PacketSpec) -> Option<TimeSyncResponse> {
    match discovery::whole(timesync::read_four(p.payload)) {
        Some((seq, t1_ms, t2_ms, t3_ms)) => Some(TimeSyncResponse { seq, t1_ms, t2_ms, t3_ms }),
        None => None,
    }
}

/// Whose time a board goes by.
#[derive(Debug)]
pub enum TimeSyncLeader {
    /// Its own.
    Local,
    /// That of another board.
    Remote(TimeSource),
}

/// What a message about the time asks for.
#[derive(Debug, Clone, Copy, PartialEq, Eq, Structural)]
pub enum TimeAction {
    Nothing,
    /// Ask the board to go by.
    Ask(TimeSyncRequest),
    /// Answer the board that asked.
    Answer(TimeSyncResponse),
}

/// The time a board goes by.
#[derive(Debug)]
pub struct TimeSyncTracker {
    pub config: TimeSyncConfig,
    pub sources: Vec<TimeSource>,
    pub next_announce: u64,
    pub next_request: u64,
    /// The number of the last question.
    pub seq: u64,
    /// The question that is not answered yet.
    pub pending: Option<TimeSyncRequest>,
    /// How far the time is from the board's own clock.
    pub sample: Option<TimeSyncSample>,
}

proof fn lemma_place_bounds(s: Seq<SourceSpec>, sender: Seq<char>)
    ensures
        place_of(s, sender) matches Some(i) ==> 0 <= i < s.len() && s[i].sender == sender,
    decreases s.len(),
{
    if s.len() > 0 && s.last().sender != sender {
        lemma_place_bounds(s.drop_last(), sender);
    }
}

pub open spec fn later(now: u64, by: u64) -> u64 {
    if now + by > u64::MAX {
        u64::MAX
    } else {
        (now + by) as u64
    }
}

impl TimeSyncTracker {
    pub fn new(config: TimeSyncConfig) -> (r: TimeSyncTracker)
        ensures
            r.config == config,
            sources(r.sources@) == Seq::<SourceSpec>::empty(),
            r.next_announce == 0,
            r.next_request == 0,
            r.seq == 0,
            r.pending is None,
            r.sample is None,
    {
        let r = TimeSyncTracker {
            config,
            sources: Vec::new(),
            next_announce: 0,
            next_request: 0,
            seq: 0,
            pending: None,
            sample: None,
        };
        assert(sources(r.sources@) =~= Seq::<SourceSpec>::empty());
        r
    }

    fn place(&self, sender: &str) -> (r: Option<usize>)
        ensures
            match place_of(sources(self.sources@), sender@) {
                Some(i) => r matches Some(k) && k == i && k < self.sources@.len(),
                None => r is None,
            },
    {
        let ghost all = sources(self.sources@);
        let mut n: usize = self.sources.len();
        proof {
            assert(all.take(n as int) =~= all);
            lemma_place_bounds(all, sender@);
        }
        while n > 0
            invariant
                n <= self.sources@.len() == all.len(),
                all == sources(self.sources@),
                place_of(all, sender@) == place_of(all.take(n as int), sender@),
            decreases n,
        {
            assert(all.take(n as int).drop_last() =~= all.take(n - 1));
            assert(all.take(n as int).last() == self.sources@[n - 1]@);
            let name: &str = self.sources[n - 1].sender.as_str();
            let same: bool = codec::same_bytes(name.as_bytes(), sender.as_bytes());
            proof {
                if same {
                    vstd::utf8::encode_utf8_decode_utf8(name@);
                    vstd::utf8::encode_utf8_decode_utf8(sender@);
                }
            }
            if same {
                return Some(n - 1);
            }
            n = n - 1;
        }
        None
    }

    /// A board offers to tell the time.
    pub fn note_source(&mut self, sender: &str, priority: u64, now: u64)
        ensures
            sources(final(self).sources@) == offered(
                sources(old(self).sources@),
                SourceSpec { sender: sender@, priority, last_seen: now },
            ),
            *final(self) == (TimeSyncTracker { sources: final(self).sources, ..*old(self) }),
    {
        let ghost before = self.sources@;
        let x = TimeSource { sender: sender.to_owned(), priority, last_seen: now };
        let ghost xv = x@;
        match self.place(sender) {
            Some(i) => {
                self.sources.set(i, x);
                assert(sources(self.sources@) =~= sources(before).update(i as int, xv));
            },
            None => {
                self.sources.push(x);
                assert(sources(self.sources@) =~= sources(before).push(xv));
            },
        }
    }

    fn best_place(&self, now: u64) -> (r: Option<usize>)
        ensures
            match best(sources(self.sources@), now, self.config.source_timeout_ms) {
                Some(i) => r matches Some(k) && k == i && k < self.sources@.len(),
                None => r is None,
            },
    {
        let ghost all = sources(self.sources@);
        let mut r: Option<usize> = None;
        let mut i: usize = 0;
        assert(all.take(0) =~= Seq::<SourceSpec>::empty());
        while i < self.sources.len()
            invariant
                i <= self.sources@.len() == all.len(),
                all == sources(self.sources@),
                match best(all.take(i as int), now, self.config.source_timeout_ms) {
                    Some(x) => r matches Some(k) && k == x && k < i,
                    None => r is None,
                },
            decreases self.sources@.len() - i,
        {
            proof {
                assert(all.take(i + 1).drop_last() =~= all.take(i as int));
                assert(all.take(i + 1).last() == self.sources@[i as int]@);
                if let Some(k) = r {
                    assert(all.take(i + 1)[k as int] == self.sources@[k as int]@);
                }
            }
            let e: &TimeSource = &self.sources[i];
            let live: bool = now <= e.last_seen || now - e.last_seen
                <= self.config.source_timeout_ms;
            if live {
                r = match r {
                    Some(k) => if e.priority < self.sources[k].priority {
                        Some(i)
                    } else {
                        Some(k)
                    },
                    None => Some(i),
                };
            }
            i = i + 1;
        }
        assert(all.take(i as int) =~= all);
        r
    }

    /// The board to go by, if it is another.
    pub open spec fn follows(self, now: u64, local: bool) -> Option<SourceSpec> {
        match best(sources(self.sources@), now, self.config.source_timeout_ms) {
            Some(i) => {
                let e = sources(self.sources@)[i];
                if local && self.config.priority <= e.priority {
                    None
                } else {
                    Some(e)
                }
            },
            None => None,
        }
    }

    /// Whose time the board goes by; `local` says whether it could go by its own.
    pub fn leader(&self, now: u64, local: bool) -> (r: Option<TimeSyncLeader>)
        ensures
            match self.follows(now, local) {
                Some(e) => r matches Some(TimeSyncLeader::Remote(x)) && x@ == e,
                None => if local {
                    r matches Some(TimeSyncLeader::Local)
                } else {
                    r is None
                },
            },
    {
        match self.best_place(now) {
            Some(i) => {
                let e: &TimeSource = &self.sources[i];
                assert(sources(self.sources@)[i as int] == e@);
                if local && self.config.priority <= e.priority {
                    Some(TimeSyncLeader::Local)
                } else {
                    let x = TimeSource {
                        sender: e.sender.clone(),
                        priority: e.priority,
                        last_seen: e.last_seen,
                    };
                    Some(TimeSyncLeader::Remote(x))
                }
            },
            None => if local {
                Some(TimeSyncLeader::Local)
            } else {
                None
            },
        }
    }

    /// Whether it is time to say that the board tells the time.
    pub open spec fn announces(self, now: u64) -> bool {
        self.config.role == TimeSyncRole::Source && now >= self.next_announce
    }

    pub open spec fn announced(self, now: u64) -> TimeSyncTracker {
        TimeSyncTracker {
            next_announce: later(now, self.config.announce_interval_ms),
            ..self
        }
    }

    /// Whether it is time to offer the time again.
    pub fn poll_announce(&mut self, now: u64) -> (b: bool)
        ensures
            b == old(self).announces(now),
            *final(self) == (if b {
                old(self).announced(now)
            } else {
                *old(self)
            }),
    {
        if self.config.role == TimeSyncRole::Source && now >= self.next_announce {
            self.next_announce = now.saturating_add(self.config.announce_interval_ms);
            true
        } else {
            false
        }
    }

    /// The question for the time, where it is time to ask another board.
    pub fn poll_request(&mut self, now: u64) -> (r: Option<TimeSyncRequest>)
        ensures
            r is Some <==> old(self).config.role == TimeSyncRole::Consumer && now
                >= old(self).next_request && old(self).follows(now, false) is Some,
            match r {
                Some(q) => {
                    &&& q.t1_ms == now
                    &&& q.seq == (if old(self).seq == u64::MAX {
                        0
                    } else {
                        (old(self).seq + 1) as u64
                    })
                    &&& *final(self) == (TimeSyncTracker {
                        seq: q.seq,
                        pending: Some(q),
                        next_request: later(now, old(self).config.request_interval_ms),
                        ..*old(self)
                    })
                },
                None => *final(self) == *old(self),
            },
    {
        if self.config.role != TimeSyncRole::Consumer || now < self.next_request
            || self.best_place(now).is_none() {
            return None;
        }
        self.seq = if self.seq == u64::MAX {
            0
        } else {
            self.seq + 1
        };
        let q = TimeSyncRequest { seq: self.seq, t1_ms: now };
        self.pending = Some(q);
        self.next_request = now.saturating_add(self.config.request_interval_ms);
        Some(q)
    }

    /// Takes the offer in a packet.
    pub fn handle_announce(&mut self, p: &Packet, now: u64) -> (r: TelemetryResult<()>)
        ensures
            p@.ty != TY_TIMESYNC_ANNOUNCE ==> r == Err::<(), TelemetryError>(
                TelemetryError::InvalidType,
            ),
            p@.ty == TY_TIMESYNC_ANNOUNCE && offer_in(p@) is None ==> r matches Err(
                TelemetryError::Unpack(_),
            ),
            r is Err ==> *final(self) == *old(self),
            r is Ok <==> p@.ty == TY_TIMESYNC_ANNOUNCE && offer_in(p@) is Some,
            r is Ok ==> sources(final(self).sources@) == offered(
                sources(old(self).sources@),
                SourceSpec { sender: p@.sender, priority: offer_in(p@)->0, last_seen: now },
            ) && *final(self) == (TimeSyncTracker {
                sources: final(self).sources,
                ..*old(self)
            }),
    {
        match timesync::decode_timesync_announce(p) {
            Ok(a) => {
                self.note_source(p.sender(), a.priority, now);
                Ok(())
            },
            Err(e) => Err(e),
        }
    }

    /// What a message about the time does, and what it asks for.
    pub open spec fn took(
        self,
        after: TimeSyncTracker,
        p: PacketSpec,
        now: u64,
        r: TimeAction,
    ) -> bool {
        if p.ty == TY_TIMESYNC_REQUEST {
            &&& after == self
            &&& r == match question_in(p) {
                Some(q) => if self.config.role == TimeSyncRole::Source {
                    TimeAction::Answer(
                        TimeSyncResponse { seq: q.seq, t1_ms: q.t1_ms, t2_ms: now, t3_ms: now },
                    )
                } else {
                    TimeAction::Nothing
                },
                None => TimeAction::Nothing,
            }
        } else if p.ty == TY_TIMESYNC_ANNOUNCE {
            match offer_in(p) {
                Some(priority) => {
                    let known = offered(
                        sources(self.sources@),
                        SourceSpec { sender: p.sender, priority, last_seen: now },
                    );
                    let asks = self.config.role == TimeSyncRole::Consumer && now
                        >= self.next_request && best(known, now, self.config.source_timeout_ms) is Some;
                    let q = TimeSyncRequest {
                        seq: if self.seq == u64::MAX {
                            0
                        } else {
                            (self.seq + 1) as u64
                        },
                        t1_ms: now,
                    };
                    &&& sources(after.sources@) == known
                    &&& if asks {
                        &&& r == TimeAction::Ask(q)
                        &&& after == TimeSyncTracker {
                            sources: after.sources,
                            seq: q.seq,
                            pending: Some(q),
                            next_request: later(now, self.config.request_interval_ms),
                            ..self
                        }
                    } else {
                        &&& r is Nothing
                        &&& after == TimeSyncTracker { sources: after.sources, ..self }
                    }
                },
                None => r is Nothing && after == self,
            }
        } else if p.ty == TY_TIMESYNC_RESPONSE {
            &&& r is Nothing
            &&& match answer_in(p) {
                Some(a) => if self.awaits(a) {
                    &&& after.sample matches Some(s) && s.offset_ms == timesync::clock_offset(
                        a.t1_ms,
                        a.t2_ms,
                        a.t3_ms,
                        now,
                    ) && s.delay_ms == timesync::path_delay(a.t1_ms, a.t2_ms, a.t3_ms, now)
                    &&& after == TimeSyncTracker { pending: None, sample: after.sample, ..self }
                } else {
                    after == self
                },
                None => after == self,
            }
        } else {
            r is Nothing && after == self
        }
    }

    /// What a message about the time does: an offer makes the board ask, where it is time to; a
    /// question is answered by a board that tells the time; an answer is taken.
    pub fn take(&mut self, p: &Packet, now: u64) -> (r: TimeAction)
        ensures
            old(self).took(*final(self), p@, now, r),
    {
        let ty: DataType = p.data_type();
        if ty == TY_TIMESYNC_REQUEST {
            if let Ok(q) = timesync::decode_timesync_request(p) {
                if self.config.role == TimeSyncRole::Source {
                    return TimeAction::Answer(
                        TimeSyncResponse {
                            seq: q.seq,
                            t1_ms: q.t1_ms,
                            t2_ms: now,
                            t3_ms: now,
                        },
                    );
                }
            }
        } else if ty == TY_TIMESYNC_ANNOUNCE {
            if self.handle_announce(p, now).is_ok() {
                if let Some(q) = self.poll_request(now) {
                    return TimeAction::Ask(q);
                }
            }
        } else if ty == TY_TIMESYNC_RESPONSE {
            if let Ok(a) = timesync::decode_timesync_response(p) {
                let _ = self.take_response(a, now);
            }
        }
        TimeAction::Nothing
    }

    /// Whether an answer is one to the question that is not answered yet.
    pub open spec fn awaits(self, a: TimeSyncResponse) -> bool {
        self.pending matches Some(q) && q.seq == a.seq && q.t1_ms == a.t1_ms
    }

    /// Takes an answer that came at `now`; one that nobody asked for does nothing.
    pub fn take_response(&mut self, a: TimeSyncResponse, now: u64) -> (r: Option<TimeSyncSample>)
        ensures
            r is Some <==> old(self).awaits(a),
            match r {
                Some(s) => {
                    &&& s.offset_ms == timesync::clock_offset(a.t1_ms, a.t2_ms, a.t3_ms, now)
                    &&& s.delay_ms == timesync::path_delay(a.t1_ms, a.t2_ms, a.t3_ms, now)
                    &&& *final(self) == (TimeSyncTracker {
                        pending: None,
                        sample: Some(s),
                        ..*old(self)
                    })
                },
                None => *final(self) == *old(self),
            },
    {
        match self.pending {
            Some(q) => {
                if q.seq != a.seq || q.t1_ms != a.t1_ms {
                    return None;
                }
                let s: TimeSyncSample = timesync::compute_offset_delay(
                    a.t1_ms,
                    a.t2_ms,
                    a.t3_ms,
                    now,
                );
                self.pending = None;
                self.sample = Some(s);
                Some(s)
            },
            None => None,
        }
    }
}

/// A board that offered to tell the time is known from then on, with the priority that it said
/// last, and as long as its time lasts; what is known of others stays.
pub proof fn lemma_offer_is_known(s: Seq<SourceSpec>, e: SourceSpec, x: SourceSpec, now: u64, timeout: u64)
    requires
        forall|i: int, j: int|
            0 <= i < j < s.len() ==> (#[trigger] s[i]).sender != (#[trigger] s[j]).sender,
    ensures
        offered(s, e).contains(e),
        x.sender != e.sender ==> (offered(s, e).contains(x) <==> s.contains(x)),
        x.sender == e.sender && offered(s, e).contains(x) ==> x == e,
        forall|i: int, j: int|
            0 <= i < j < offered(s, e).len() ==> (#[trigger] offered(s, e)[i]).sender != (
            #[trigger] offered(s, e)[j]).sender,
        e.last_seen <= now ==> (e.live(now, timeout) <==> now - e.last_seen <= timeout),
{
    lemma_place(s, e.sender);
    let t = offered(s, e);
    match place_of(s, e.sender) {
        Some(k) => {
            assert(t[k] == e);
            if t.contains(x) {
                let i = choose|i: int| 0 <= i < t.len() && t[i] == x;
                if i != k {
                    assert(s[i] == x);
                    if i < k {
                        assert(s[i].sender != s[k].sender);
                    } else {
                        assert(s[k].sender != s[i].sender);
                    }
                }
            }
            if s.contains(x) && x.sender != e.sender {
                let i = choose|i: int| 0 <= i < s.len() && s[i] == x;
                assert(t[i] == x);
            }
            assert forall|i: int, j: int| 0 <= i < j < t.len() implies (#[trigger] t[i]).sender != (
            #[trigger] t[j]).sender by {
                assert(s[i].sender != s[j].sender);
            }
        },
        None => {
            assert(t[s.len() as int] == e);
            if t.contains(x) {
                let i = choose|i: int| 0 <= i < t.len() && t[i] == x;
                if i < s.len() {
                    assert(s[i] == x);
                }
            }
            if s.contains(x) {
                let i = choose|i: int| 0 <= i < s.len() && s[i] == x;
                assert(t[i] == x);
            }
        },
    }
}

proof fn lemma_place(s: Seq<SourceSpec>, sender: Seq<char>)
    ensures
        match place_of(s, sender) {
            Some(i) => 0 <= i < s.len() && s[i].sender == sender,
            None => forall|i: int| 0 <= i < s.len() ==> (#[trigger] s[i]).sender != sender,
        },
    decreases s.len(),
{
    if s.len() > 0 {
        lemma_place(s.drop_last(), sender);
        if place_of(s, sender) is None {
            assert forall|i: int| 0 <= i < s.len() implies (#[trigger] s[i]).sender != sender by {
                if i < s.len() - 1 {
                    assert(s.drop_last()[i] == s[i]);
                }
            }
        }
    }
}

/// A board goes by another only where that one was heard of lately and no such board has a lower
/// priority number; and by itself, where it may, as soon as its own number is no higher. Where no
/// board was heard of lately, it goes by none.
pub proof fn lemma_follows_the_best(t: TimeSyncTracker, now: u64, local: bool)
    ensures
        match t.follows(now, local) {
            Some(e) => {
                &&& sources(t.sources@).contains(e)
                &&& e.live(now, t.config.source_timeout_ms)
                &&& local ==> e.priority < t.config.priority
                &&& forall|i: int|
                    0 <= i < t.sources@.len() && (#[trigger] sources(t.sources@)[i]).live(
                        now,
                        t.config.source_timeout_ms,
                    ) ==> e.priority <= sources(t.sources@)[i].priority
            },
            None => forall|i: int|
                0 <= i < t.sources@.len() && (#[trigger] sources(t.sources@)[i]).live(
                    now,
                    t.config.source_timeout_ms,
                ) ==> local && t.config.priority <= sources(t.sources@)[i].priority,
        },
{
    let s = sources(t.sources@);
    assert(s.len() == t.sources@.len());
    lemma_best_is_best(s, now, t.config.source_timeout_ms);
}

/// A question for the time that is answered gives the skew of the clocks: where a board asks at
/// `asked` by its own clock, the other answers at `there` by its own, and the answer comes at
/// `back`, the board that asked comes to know the offset and the delay of exactly these times; and
/// where both ways take as long, the offset is how far the other clock is ahead.
pub proof fn lemma_question_gives_the_skew(
    teller: TimeSyncTracker,
    teller_after: TimeSyncTracker,
    asker: TimeSyncTracker,
    asker_after: TimeSyncTracker,
    question: PacketSpec,
    answer: PacketSpec,
    q: TimeSyncRequest,
    there: u64,
    back: u64,
    way: int,
    skew: int,
    said: TimeAction,
    done: TimeAction,
)
    requires
        teller.config.role == TimeSyncRole::Source,
        question.ty == TY_TIMESYNC_REQUEST,
        question.payload == timesync::two(q.seq, q.t1_ms),
        teller.took(teller_after, question, there, said),
        asker.pending == Some(q),
        answer.ty == TY_TIMESYNC_RESPONSE,
        said matches TimeAction::Answer(a) ==> answer.payload == timesync::four(
            a.seq,
            a.t1_ms,
            a.t2_ms,
            a.t3_ms,
        ),
        asker.took(asker_after, answer, back, done),
        0 <= way,
        there == q.t1_ms + way + skew,
        back == q.t1_ms + way + way,
        i64::MIN <= skew <= i64::MAX,
    ensures
        said is Answer,
        asker_after.pending is None,
        asker_after.sample matches Some(s) && s.offset_ms == skew && s.delay_ms == 2 * way,
        teller_after == teller,
{
    let none = Seq::<u8>::empty();
    timesync::lemma_times_roundtrip(q.seq, q.t1_ms, 0, 0, none);
    assert(timesync::two(q.seq, q.t1_ms) + none =~= timesync::two(q.seq, q.t1_ms));
    timesync::lemma_times_roundtrip(q.seq, q.t1_ms, there, there, none);
    assert(timesync::four(q.seq, q.t1_ms, there, there) + none =~= timesync::four(
        q.seq,
        q.t1_ms,
        there,
        there,
    ));
    timesync::lemma_offset_is_the_skew(q.t1_ms, there, there, back, way, 0, skew);
}

/// An answer that was not asked for, or that answers another question, changes nothing; and one who
/// does not tell the time answers no question.
pub proof fn lemma_stray_answers_do_nothing(
    t: TimeSyncTracker,
    after: TimeSyncTracker,
    p: PacketSpec,
    now: u64,
    r: TimeAction,
)
    requires
        t.took(after, p, now, r),
    ensures
        p.ty == TY_TIMESYNC_RESPONSE && t.pending is None ==> after == t,
        p.ty == TY_TIMESYNC_RESPONSE && (t.pending matches Some(q) && answer_in(p) matches Some(a)
            && (a.seq != q.seq || a.t1_ms != q.t1_ms)) ==> after == t,
        p.ty == TY_TIMESYNC_REQUEST && t.config.role != TimeSyncRole::Source ==> r is Nothing
            && after == t,
        p.ty == TY_TIMESYNC_RESPONSE ==> r is Nothing,
{
}

/// A question that is asked is new and waits for its answer, and no other is asked before the time
/// between questions has passed.
pub proof fn lemma_questions_are_spaced(
    t: TimeSyncTracker,
    mid: TimeSyncTracker,
    after: TimeSyncTracker,
    p: PacketSpec,
    p_next: PacketSpec,
    now: u64,
    later: u64,
    r: TimeAction,
    r_next: TimeAction,
)
    requires
        p.ty == TY_TIMESYNC_ANNOUNCE,
        t.took(mid, p, now, r),
        mid.took(after, p_next, later, r_next),
        r is Ask,
        now + t.config.request_interval_ms <= u64::MAX,
    ensures
        r matches TimeAction::Ask(q) && mid.pending == Some(q) && q.t1_ms == now && q.seq != t.seq,
        t.config.role == TimeSyncRole::Consumer,
        later < now + t.config.request_interval_ms ==> !(r_next is Ask),
{
}

/// A board that tells the time says so again and again, each time after the time between offers,
/// and one that does not never does.
pub proof fn lemma_offers_are_spaced(t: TimeSyncTracker, now: u64, later: u64)
    requires
        now + t.config.announce_interval_ms <= u64::MAX,
    ensures
        t.announces(now) ==> t.config.role == TimeSyncRole::Source,
        t.config.role == TimeSyncRole::Source ==> (t.announced(now).announces(later) <==> later
            >= now + t.config.announce_interval_ms),
{
}

} // verus!
