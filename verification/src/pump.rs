//! How long queues are worked on in one call.
use vstd::prelude::*;

verus! {

/// What to do next.
#[derive(Debug, Clone, Copy, PartialEq, Eq, Structural)]
pub enum PumpStep {
    /// Take something from the receive queue.
    Receive,
    /// Take something from the transmit queue.
    Transmit,
    /// Leave the rest for another call.
    Stop,
}

/// Whether the time is up: never without a limit, else once `limit` milliseconds have gone by. The
/// clock may wrap around.
pub open spec fn time_is_up(start: u64, limit: u64, now: u64) -> bool {
    limit != 0 && now.wrapping_sub(start) >= limit
}

/// A call that works on the queues, in turns: transmit, receive, transmit, and so on.
pub struct Pump {
    pub start: u64,
    /// Milliseconds that the call may take; 0 for no limit.
    pub limit: u64,
    /// Whether it is the transmit queue's turn.
    pub transmit_turn: bool,
    /// Whether anything has been done yet.
    pub worked: bool,
    /// Whether anything has been received yet.
    pub received: bool,
}

impl Pump {
    /// A call that starts now.
    pub fn new(start: u64, limit: u64) -> (r: Pump)
        ensures
            r == (Pump { start, limit, transmit_turn: true, worked: false, received: false }),
    {
        Pump { start, limit, transmit_turn: true, worked: false, received: false }
    }

    /// What to do at the time `now`, with work in the queues or not. The first step does not ask
    /// for the time, so that a call does something where there is something to do; and however
    /// long it took, something is received where something came.
    pub open spec fn decision(self, now: u64, rx: bool, tx: bool) -> PumpStep {
        if !rx && !tx {
            PumpStep::Stop
        } else if self.worked && time_is_up(self.start, self.limit, now) {
            if rx && !self.received {
                PumpStep::Receive
            } else {
                PumpStep::Stop
            }
        } else if tx && (self.transmit_turn || !rx) {
            PumpStep::Transmit
        } else {
            PumpStep::Receive
        }
    }

    /// The call after a step.
    pub open spec fn stepped(self, step: PumpStep) -> Pump {
        match step {
            PumpStep::Receive => Pump { transmit_turn: true, worked: true, received: true, ..self },
            PumpStep::Transmit => Pump { transmit_turn: false, worked: true, ..self },
            PumpStep::Stop => self,
        }
    }

    /// Decides what to do next.
    pub fn next(&mut self, now: u64, rx: bool, tx: bool) -> (step: PumpStep)
        ensures
            step == old(self).decision(now, rx, tx),
            *final(self) == old(self).stepped(step),
    {
        let up: bool = self.limit != 0 && now.wrapping_sub(self.start) >= self.limit;
        if !rx && !tx {
            return PumpStep::Stop;
        }
        if self.worked && up && (!rx || self.received) {
            return PumpStep::Stop;
        }
        if !(self.worked && up) && tx && (self.transmit_turn || !rx) {
            self.transmit_turn = false;
            self.worked = true;
            PumpStep::Transmit
        } else {
            self.transmit_turn = true;
            self.worked = true;
            self.received = true;
            PumpStep::Receive
        }
    }
}

/// Without a limit a call ends only when both queues are empty.
pub proof fn lemma_no_limit_drains(p: Pump, now: u64, rx: bool, tx: bool)
    requires
        p.limit == 0,
        p.decision(now, rx, tx) == PumpStep::Stop,
    ensures
        !rx && !tx,
{
}

/// Neither queue waits for more than one step of the other: what is passed over now comes next.
pub proof fn lemma_turns_alternate(p: Pump, now: u64, later: u64)
    requires
        p.decision(now, true, true) != PumpStep::Stop,
        !time_is_up(p.start, p.limit, later),
    ensures
        ({
            let first = p.decision(now, true, true);
            let second = p.stepped(first).decision(later, true, true);
            &&& first == PumpStep::Receive ==> second == PumpStep::Transmit
            &&& first == PumpStep::Transmit ==> second == PumpStep::Receive
        }),
{
}

/// No call ends with something to receive before it has received anything.
pub proof fn lemma_receiving_is_not_starved(p: Pump, now: u64, tx: bool)
    requires
        p.decision(now, true, tx) == PumpStep::Stop,
    ensures
        p.received,
{
}

/// A call with a limit ends in time: once so many milliseconds have gone by since its start, it
/// does nothing but receive once, where it has not yet; before that it does not end while there is
/// work.
pub proof fn lemma_limit_is_kept(p: Pump, now: u64, rx: bool, tx: bool)
    requires
        p.limit > 0,
        p.start <= now,
        p.worked,
    ensures
        now - p.start >= p.limit && (p.received || !rx) ==> p.decision(now, rx, tx)
            == PumpStep::Stop,
        now - p.start >= p.limit ==> p.decision(now, rx, tx) != PumpStep::Transmit,
        now - p.start < p.limit && (rx || tx) ==> p.decision(now, rx, tx) != PumpStep::Stop,
{
}

/// A step is one that there is work for, and a call that did nothing yet does something where there
/// is anything to do; where one queue is empty, the other has all turns.
pub proof fn lemma_steps_have_work(p: Pump, now: u64, rx: bool, tx: bool)
    ensures
        p.decision(now, rx, tx) == PumpStep::Receive ==> rx,
        p.decision(now, rx, tx) == PumpStep::Transmit ==> tx,
        !p.worked && (rx || tx) ==> p.decision(now, rx, tx) != PumpStep::Stop,
        p.stepped(PumpStep::Receive).worked && p.stepped(PumpStep::Receive).received,
        p.stepped(PumpStep::Transmit).worked,
        p.stepped(PumpStep::Transmit).received == p.received,
        forall|s: PumpStep|
            (#[trigger] p.stepped(s)).start == p.start && p.stepped(s).limit == p.limit,
        !p.worked && tx && !rx ==> p.decision(now, rx, tx) == PumpStep::Transmit,
        !p.worked && rx && !tx ==> p.decision(now, rx, tx) == PumpStep::Receive,
{
}

} // verus!
