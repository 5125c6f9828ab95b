//! How fast links are.
use vstd::prelude::*;
use crate::error::{TelemetryError, TelemetryResult};
use crate::router::Router;

verus! {

/// A link that takes fewer bits in a second is slow.
pub const SLOW_LINK_BPS: u64 = 9_600;

/// Bits in a second, where `bytes` took `ms` milliseconds; what takes no time at all is counted as
/// a millisecond.
pub open spec fn rate(bytes: usize, ms: u64) -> u64 {
    let t = if ms == 0 {
        1int
    } else {
        ms as int
    };
    let x = bytes * 8000 / t;
    if x > u64::MAX {
        u64::MAX
    } else {
        x as u64
    }
}

/// What is estimated after one more sample: a quarter of it is new.
pub open spec fn blended(old: u64, sample: u64) -> u64 {
    ((old * 3 + sample) / 4) as u64
}

/// How fast a link is.
#[derive(Debug, Clone, Copy, PartialEq, Eq, Structural)]
pub struct LinkRate {
    /// Bits in a second that the link takes.
    pub capacity: u64,
    pub peak_capacity: u64,
    /// Bits in a second that go over it.
    pub usage: u64,
    pub peak_usage: u64,
    pub samples: u64,
    /// When it was last measured.
    pub last: u64,
}

pub open spec fn larger(a: u64, b: u64) -> u64 {
    if a > b {
        a
    } else {
        b
    }
}

impl LinkRate {
    pub open spec fn unknown() -> LinkRate {
        LinkRate { capacity: 0, peak_capacity: 0, usage: 0, peak_usage: 0, samples: 0, last: 0 }
    }

    /// What is known after `bytes` took `ms` milliseconds, until `now`.
    pub open spec fn after(self, bytes: usize, ms: u64, now: u64) -> LinkRate {
        let fast = rate(bytes, ms);
        let used = rate(
            bytes,
            if now > self.last {
                (now - self.last) as u64
            } else {
                0
            },
        );
        let capacity = if self.samples == 0 {
            fast
        } else {
            blended(self.capacity, fast)
        };
        let usage = if self.samples == 0 {
            used
        } else {
            blended(self.usage, used)
        };
        LinkRate {
            capacity,
            peak_capacity: larger(self.peak_capacity, capacity),
            usage,
            peak_usage: larger(self.peak_usage, usage),
            samples: if self.samples == u64::MAX {
                u64::MAX
            } else {
                (self.samples + 1) as u64
            },
            last: now,
        }
    }

    /// Bits in a second that the link takes beyond those that go over it.
    pub open spec fn headroom(self) -> u64 {
        if self.capacity > self.usage {
            (self.capacity - self.usage) as u64
        } else {
            0
        }
    }

    pub fn new() -> (r: LinkRate)
        ensures
            r == LinkRate::unknown(),
    {
        LinkRate { capacity: 0, peak_capacity: 0, usage: 0, peak_usage: 0, samples: 0, last: 0 }
    }

    /// Takes a measurement.
    pub fn observe(&mut self, bytes: usize, ms: u64, now: u64)
        ensures
            *final(self) == old(self).after(bytes, ms, now),
    {
        let gap: u64 = if now > self.last {
            now - self.last
        } else {
            0
        };
        let fast: u64 = rate_of(bytes, ms);
        let used: u64 = rate_of(bytes, gap);
        if self.samples == 0 {
            self.capacity = fast;
            self.usage = used;
        } else {
            self.capacity = blend(self.capacity, fast);
            self.usage = blend(self.usage, used);
        }
        if self.capacity > self.peak_capacity {
            self.peak_capacity = self.capacity;
        }
        if self.usage > self.peak_usage {
            self.peak_usage = self.usage;
        }
        if self.samples < u64::MAX {
            self.samples = self.samples + 1;
        }
        self.last = now;
    }

    /// Bits in a second that the link takes beyond those that go over it.
    pub fn available(&self) -> (r: u64)
        ensures
            r == self.headroom(),
    {
        if self.capacity > self.usage {
            self.capacity - self.usage
        } else {
            0
        }
    }
}

/// An estimate is never above the highest there was.
pub proof fn lemma_peaks_bound(r: LinkRate, bytes: usize, ms: u64, now: u64)
    ensures
        r.after(bytes, ms, now).capacity <= r.after(bytes, ms, now).peak_capacity,
        r.after(bytes, ms, now).usage <= r.after(bytes, ms, now).peak_usage,
        r.peak_capacity <= r.after(bytes, ms, now).peak_capacity,
        r.peak_usage <= r.after(bytes, ms, now).peak_usage,
{
}

fn rate_of(bytes: usize, ms: u64) -> (r: u64)
    ensures
        r == rate(bytes, ms),
{
    let t: u64 = if ms == 0 {
        1
    } else {
        ms
    };
    let x: u128 = bytes as u128 * 8000 / t as u128;
    if x > u64::MAX as u128 {
        u64::MAX
    } else {
        x as u64
    }
}

fn blend(old_rate: u64, sample: u64) -> (r: u64)
    ensures
        r == blended(old_rate, sample),
{
    ((old_rate as u128 * 3 + sample as u128) / 4) as u64
}

/// Whether a link is known to be slow.
pub open spec fn slow(capacity: u64) -> bool {
    0 < capacity < SLOW_LINK_BPS
}

impl Router {
    /// What it does that a link was measured.
    pub open spec fn rated(self, after: Router, side: usize, capacity: u64) -> bool {
        if self.has_side(side) {
            &&& after.sides@ == self.sides@.update(
                side as int,
                crate::jobs::Side { capacity, ..self.sides@[side as int] },
            )
            &&& after == Router { sides: after.sides, ..self }
        } else {
            after == self
        }
    }

    /// A link was measured.
    pub fn note_capacity(&mut self, side: usize, capacity: u64) -> (r: TelemetryResult<()>)
        requires
            old(self).wf(),
        ensures
            final(self).wf(),
            old(self).rated(*final(self), side, capacity),
            r is Ok <==> old(self).has_side(side),
            r matches Err(e) ==> (e matches TelemetryError::HandlerError(m) && m@
                == "invalid side id"@),
    {
        if side >= self.sides.len() || !self.sides[side].alive {
            return Err(TelemetryError::HandlerError("invalid side id"));
        }
        self.sides[side].capacity = capacity;
        Ok(())
    }

    /// Whether a link is known to be slow.
    pub fn is_slow(&self, side: usize) -> (b: bool)
        ensures
            b == (side < self.sides@.len() && slow(self.sides@[side as int].capacity)),
    {
        side < self.sides.len() && self.sides[side].capacity > 0 && self.sides[side].capacity
            < SLOW_LINK_BPS
    }
}

/// A rate is what goes over a link in a second: so many bits that, at this rate, the bytes take
/// the time that they took, and not at the next higher one.
pub proof fn lemma_rate_is_bits_in_a_second(bytes: usize, ms: u64)
    requires
        ms > 0,
        bytes * 8000 <= u64::MAX,
    ensures
        rate(bytes, ms) * ms <= bytes * 8000,
        bytes * 8000 < (rate(bytes, ms) + 1) * ms,
        rate(bytes, 0) == bytes * 8000,
{
    let b = bytes * 8000;
    let t = ms as int;
    let x = b / t;
    assert(x * t <= b && b < (x + 1) * t && 0 <= x <= b) by (nonlinear_arith)
        requires
            t > 0,
            b >= 0,
            x == b / t,
    ;
    assert(b / 1 == b);
}

/// An estimate moves a quarter of the way to what was measured: it stays where both agree, never
/// leaves what lies between them, and higher samples do not lower it.
pub proof fn lemma_estimate_moves_a_quarter(old: u64, sample: u64, other: u64)
    ensures
        blended(old, old) == old,
        old <= sample ==> old <= blended(old, sample) <= sample,
        sample <= old ==> sample <= blended(old, sample) <= old,
        sample <= other ==> blended(old, sample) <= blended(old, other),
        4 * (blended(old, sample) - old) <= sample - old < 4 * (blended(old, sample) - old) + 4,
{
}

/// The first sample is believed, later ones change the estimate by a quarter; and each counts.
pub proof fn lemma_samples_count(r: LinkRate, bytes: usize, ms: u64, now: u64)
    ensures
        r.samples == 0 ==> r.after(bytes, ms, now).capacity == rate(bytes, ms),
        r.samples > 0 ==> r.after(bytes, ms, now).capacity == blended(r.capacity, rate(bytes, ms)),
        r.samples == 0 && now > r.last ==> r.after(bytes, ms, now).usage == rate(
            bytes,
            (now - r.last) as u64,
        ),
        r.samples > 0 && now > r.last ==> r.after(bytes, ms, now).usage == blended(
            r.usage,
            rate(bytes, (now - r.last) as u64),
        ),
        r.samples < u64::MAX ==> r.after(bytes, ms, now).samples == r.samples + 1,
        r.after(bytes, ms, now).last == now,
        LinkRate::unknown().samples == 0,
{
}

/// What is free on a link and what goes over it make what it takes; a link over which more goes
/// than it takes has nothing free.
pub proof fn lemma_headroom_is_what_is_left(r: LinkRate)
    ensures
        r.usage <= r.capacity ==> r.headroom() + r.usage == r.capacity,
        r.usage >= r.capacity ==> r.headroom() == 0,
{
}

/// A link counts as slow only where it was measured, and then exactly where it takes less than a
/// slow link does; a link that is faster than one that is not slow is not slow.
pub proof fn lemma_slow_links(a: u64, b: u64)
    ensures
        !slow(0),
        !slow(SLOW_LINK_BPS),
        0 < a < SLOW_LINK_BPS ==> slow(a),
        0 < a <= b && slow(b) ==> slow(a),
{
}

/// What was measured of a link is known of this link from then on, and of no other.
pub proof fn lemma_measured_is_known(r: Router, after: Router, side: usize, capacity: u64, other: int)
    requires
        r.rated(after, side, capacity),
        side < r.sides@.len(),
        r.sides@[side as int].alive,
        0 <= other < r.sides@.len(),
    ensures
        after.sides@.len() == r.sides@.len(),
        after.sides@[side as int].capacity == capacity,
        other != side ==> after.sides@[other] == r.sides@[other],
{
}

} // verus!
