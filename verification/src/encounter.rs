//! Two boards that a link joins: what one sends the other takes, until both have nothing left to
//! do.
use vstd::prelude::*;
use crate::error::{TelemetryError, TelemetryResult};
use crate::exchange::Delivery;
use crate::jobs::{Job, Target};
use crate::packet::{Packet, PacketSpec};
use crate::queue::Waiting;
use crate::registry::Registry;
use crate::router::{Arriving, Router};
use crate::schema;
use crate::station::Station;

verus! {

impl Station {
    /// Whether nothing waits, nothing is to be done, and no failure is left to be told.
    pub open spec fn is_quiet(self) -> bool {
        &&& self.core.rx@.len() == 0
        &&& self.core.tx@.len() == 0
        &&& self.core.agenda@.len() == 0
        &&& self.core.failure is None
    }

    /// What keeping something for the program does.
    pub open spec fn kept_told(self, after: Station, d: Delivery) -> bool {
        &&& after.told@ == (if d is Nothing {
            self.told@
        } else {
            self.told@.push(d)
        })
        &&& after == Station { told: after.told, ..self }
    }

    fn keep_told(&mut self, d: Delivery)
        requires
            old(self).wf(),
        ensures
            final(self).wf(),
            old(self).kept_told(*final(self), d),
    {
        match d {
            Delivery::Nothing => {},
            _ => {
                self.told.push(d);
            },
        }
    }

    /// What taking the next job does.
    #[verifier::opaque]
    pub open spec fn took_job(
        self,
        after: Station,
        sc: schema::SchemaSpec,
        j: Job,
        now: u64,
    ) -> bool {
        &&& self.core.job_taken(after.core, sc, j@, now)
        &&& after == Station { core: after.core, ..self }
    }

    /// What taking a packet that comes over a link does.
    #[verifier::opaque]
    pub open spec fn takes(
        self,
        after: Station,
        reg: Registry,
        reg_after: Registry,
        p: PacketSpec,
        side: usize,
        now: u64,
        r: TelemetryResult<()>,
    ) -> bool {
        exists|mid: Station, x: TelemetryResult<Delivery>|
            {
                &&& #[trigger] self.took_in(mid, reg, reg_after, p, Some(side), now, x)
                &&& match x {
                    Ok(d) => r is Ok && mid.kept_told(after, d),
                    Err(e) => r == Err::<(), TelemetryError>(e) && after == mid,
                }
            }
    }

    /// Takes a packet that comes over a link, and keeps what there is to tell the program.
    pub fn take_over(
        &mut self,
        reg: &mut Registry,
        p: &Packet,
        side: usize,
        now: u64,
    ) -> (r: TelemetryResult<()>)
        requires
            old(self).wf(),
        ensures
            final(self).wf(),
            final(reg).schema@ == old(reg).schema@,
            old(self).takes(*final(self), *old(reg), *final(reg), p@, side, now, r),
    {
        reveal(Station::takes);
        let got: TelemetryResult<Delivery> = self.receive(reg, p, Some(side), now);
        let ghost g = got;
        assert(old(self).took_in(*self, *old(reg), *reg, p@, Some(side), now, g));
        match got {
            Ok(d) => {
                self.keep_told(d);
                Ok(())
            },
            Err(e) => Err(e),
        }
    }

    /// What a job that was done does to what is counted.
    #[verifier::opaque]
    pub open spec fn marked_done(
        self,
        after: Station,
        sc: schema::SchemaSpec,
        j: Job,
        now: u64,
    ) -> bool {
        self.job_noted(after, sc, j@, true, now, now)
    }

    fn mark_done(&mut self, reg: &Registry, j: &Job, now: u64)
        requires
            old(self).wf(),
        ensures
            final(self).wf(),
            old(self).marked_done(*final(self), reg.schema@, *j, now),
    {
        reveal(Station::marked_done);
        self.note_job(reg, j, true, now, now);
    }

    /// What announcing the board does.
    #[verifier::opaque]
    pub open spec fn speaks(
        self,
        after: Station,
        reg: Registry,
        reg_after: Registry,
        now: u64,
        r: TelemetryResult<()>,
    ) -> bool {
        self.announced_by(after, reg, reg_after, now, r)
    }

    fn speak_up(&mut self, reg: &mut Registry, now: u64) -> (r: TelemetryResult<()>)
        requires
            old(self).wf(),
            old(reg).schema@.wf(),
        ensures
            final(self).wf(),
            final(reg).schema@ == old(reg).schema@,
            old(self).speaks(*final(self), *old(reg), *final(reg), now, r),
    {
        reveal(Station::speaks);
        self.announce(reg, now)
    }

    fn take_job(&mut self, reg: &Registry, now: u64) -> (r: Option<Job>)
        requires
            old(self).wf(),
            old(self).core.agenda@.len() > 0,
            !old(self).core.rests(),
        ensures
            final(self).wf(),
            r matches Some(j) && old(self).took_job(*final(self), reg.schema@, j, now),
    {
        reveal(Station::took_job);
        self.core.next_job(&reg.schema, now)
    }

    /// What telling of a failure does.
    pub open spec fn confessed(self, after: Station, r: TelemetryResult<()>) -> bool {
        &&& after == Station { core: Router { failure: None, ..self.core }, ..self }
        &&& match self.core.failure {
            Some(e) => r == Err::<(), TelemetryError>(e),
            None => r is Ok,
        }
    }

    /// What working on the next thing that came and waits does.
    #[verifier::opaque]
    pub open spec fn worked_once(
        self,
        after: Station,
        reg: Registry,
        reg_after: Registry,
        now: u64,
        r: TelemetryResult<()>,
    ) -> bool {
        exists|popped: Station, w: Waiting<Arriving>, mid: Station, x: TelemetryResult<Delivery>|
            {
                &&& #[trigger] self.popped(popped, w)
                &&& #[trigger] popped.resumed(mid, reg, reg_after, w.item, now, x)
                &&& match x {
                    Ok(d) => r is Ok && mid.kept_told(after, d),
                    Err(e) => r == Err::<(), TelemetryError>(e) && after == mid,
                }
            }
    }

    /// What working on up to `n` things that came and wait does, one after the other.
    pub open spec fn worked_rx(
        self,
        after: Station,
        reg: Registry,
        reg_after: Registry,
        now: u64,
        n: nat,
        r: TelemetryResult<()>,
    ) -> bool
        decreases n,
    {
        if n == 0 || self.core.rx@.len() == 0 {
            after == self && reg_after == reg && r is Ok
        } else {
            exists|mid: Station, reg_mid: Registry, x: TelemetryResult<()>|
                {
                    &&& #[trigger] self.worked_once(mid, reg, reg_mid, now, x)
                    &&& match x {
                        Ok(_) => mid.worked_rx(after, reg_mid, reg_after, now, (n - 1) as nat, r),
                        Err(e) => {
                            &&& r == Err::<(), TelemetryError>(e)
                            &&& after == mid
                            &&& reg_after == reg_mid
                        },
                    }
                }
        }
    }

    fn work_once(&mut self, reg: &mut Registry, now: u64) -> (r: TelemetryResult<()>)
        requires
            old(self).wf(),
            old(reg).schema@.wf(),
            old(self).core.rx@.len() > 0,
        ensures
            final(self).wf(),
            final(reg).schema@ == old(reg).schema@,
            old(self).worked_once(*final(self), *old(reg), *final(reg), now, r),
    {
        reveal(Station::worked_once);
        let got: Option<TelemetryResult<Delivery>> = self.work_next(reg, now);
        let ghost mid = *self;
        let ghost g = got->0;
        assert(exists|popped: Station, w: Waiting<Arriving>| #[trigger]
            old(self).popped(popped, w) && popped.resumed(mid, *old(reg), *reg, w.item, now, g));
        let r: TelemetryResult<()> = match got {
            None => Ok(()),
            Some(Ok(d)) => {
                self.keep_told(d);
                Ok(())
            },
            Some(Err(e)) => Err(e),
        };
        r
    }

    fn work_rx(&mut self, reg: &mut Registry, now: u64, n: usize) -> (r: TelemetryResult<()>)
        requires
            old(self).wf(),
            old(reg).schema@.wf(),
        ensures
            final(self).wf(),
            final(reg).schema@ == old(reg).schema@,
            old(self).worked_rx(*final(self), *old(reg), *final(reg), now, n as nat, r),
        decreases n,
    {
        if n == 0 || self.core.rx.len() == 0 {
            return Ok(());
        }
        let x: TelemetryResult<()> = self.work_once(reg, now);
        let ghost y = x;
        assert(old(self).worked_once(*self, *old(reg), *reg, now, y));
        match x {
            Ok(_) => self.work_rx(reg, now, n - 1),
            Err(e) => Err(e),
        }
    }

    /// What sending up to `n` packets that wait does, one after the other.
    pub open spec fn worked_tx(
        self,
        after: Station,
        sc: schema::SchemaSpec,
        now: u64,
        n: nat,
        r: TelemetryResult<()>,
    ) -> bool
        decreases n,
    {
        if n == 0 || self.core.tx@.len() == 0 {
            after == self && r is Ok
        } else {
            exists|mid: Station, x: TelemetryResult<()>|
                {
                    &&& #[trigger] self.sent_once(mid, sc, now, x)
                    &&& match x {
                        Ok(_) => mid.worked_tx(after, sc, now, (n - 1) as nat, r),
                        Err(e) => r == Err::<(), TelemetryError>(e) && after == mid,
                    }
                }
        }
    }

    /// What sending the next packet that waits does.
    #[verifier::opaque]
    pub open spec fn sent_once(
        self,
        after: Station,
        sc: schema::SchemaSpec,
        now: u64,
        r: TelemetryResult<()>,
    ) -> bool {
        &&& self.core.tx_worked(after.core, sc, now, Some(r))
        &&& after == Station { core: after.core, ..self }
    }

    fn work_tx(&mut self, reg: &Registry, now: u64, n: usize) -> (r: TelemetryResult<()>)
        requires
            old(self).wf(),
        ensures
            final(self).wf(),
            old(self).worked_tx(*final(self), reg.schema@, now, n as nat, r),
        decreases n,
    {
        if n == 0 || self.core.tx.len() == 0 {
            return Ok(());
        }
        match self.core.work_tx(&reg.schema, now) {
            None => Ok(()),
            Some(x) => {
                let ghost y = x;
                assert(old(self).sent_once(*self, reg.schema@, now, y)) by {
                    reveal(Station::sent_once);
                }
                match x {
                    Ok(_) => self.work_tx(reg, now, n - 1),
                    Err(e) => Err(e),
                }
            },
        }
    }
}

/// The link over which a packet comes to a board that another one was wired to.
pub const CROSSED_LINK: usize = 0;

/// What a board that is wired to another does with a packet that it sends over a link.
#[derive(Debug, Clone, Copy, PartialEq, Eq, Structural)]
pub struct Crossing {
    /// The link that the packet leaves by.
    pub side: usize,
    /// The link that it comes to the other board by.
    pub to: usize,
}

impl Crossing {
    /// Hands a packet to the other board as it is; what comes of it there is handed back.
    pub fn pass(&self, other: &mut Station, reg: &mut Registry, p: &Packet, now: u64) -> (r:
        TelemetryResult<()>)
        requires
            old(other).wf(),
        ensures
            final(other).wf(),
            final(reg).schema@ == old(reg).schema@,
            old(other).takes(*final(other), *old(reg), *final(reg), p@, self.to, now, r),
    {
        other.take_over(reg, p, self.to, now)
    }
}

/// Two boards, and what they have in common.
pub struct Pair {
    pub x: Station,
    pub y: Station,
    pub reg: Registry,
}

/// The link that joins two boards: what it is to either, and the time.
pub struct Join {
    pub side_x: usize,
    pub side_y: usize,
    pub now: u64,
}

impl Join {
    /// The link as the other board sees it.
    pub open spec fn turned(self) -> Join {
        Join { side_x: self.side_y, side_y: self.side_x, now: self.now }
    }
}

impl Pair {
    pub open spec fn wf(self) -> bool {
        &&& self.x.wf()
        &&& self.y.wf()
        &&& self.reg.schema@.wf()
    }

    pub open spec fn turned(self) -> Pair {
        Pair { x: self.y, y: self.x, reg: self.reg }
    }

    /// What doing the next job of the first board does: a packet for the link that joins the
    /// boards crosses to the other; anything else is left to the program.
    #[verifier::opaque]
    pub open spec fn carried(self, after: Pair, l: Join, r: TelemetryResult<()>) -> bool {
        exists|mid: Station, j: Job|
            {
                &&& #[trigger] self.x.took_job(mid, self.reg.schema@, j, l.now)
                &&& match (j@.target == Target::Side(l.side_x), j@.packet) {
                    (true, Some(p)) => {
                        &&& self.y.takes(
                            after.y,
                            self.reg,
                            after.reg,
                            p,
                            CROSSED_LINK,
                            l.now,
                            r,
                        )
                        &&& match r {
                            Ok(_) => mid.marked_done(after.x, after.reg.schema@, j, l.now),
                            Err(_) => after.x == mid,
                        }
                    },
                    _ => {
                        &&& r is Ok
                        &&& mid.kept_told(after.x, Delivery::Task(j))
                        &&& after.y == self.y
                        &&& after.reg == self.reg
                    },
                }
            }
    }

    /// What doing up to `n` jobs of the first board does, one after the other.
    pub open spec fn carried_all(self, after: Pair, l: Join, n: nat, r: TelemetryResult<()>) -> bool
        decreases n,
    {
        if n == 0 || self.x.core.agenda@.len() == 0 || self.x.core.rests() {
            after == self && r is Ok
        } else {
            exists|mid: Pair, x: TelemetryResult<()>|
                {
                    &&& #[trigger] self.carried(mid, l, x)
                    &&& match x {
                        Ok(_) => mid.carried_all(after, l, (n - 1) as nat, r),
                        Err(e) => r == Err::<(), TelemetryError>(e) && after == mid,
                    }
                }
        }
    }

    /// What it does that the first board announces itself to the other.
    #[verifier::opaque]
    pub open spec fn announced(self, after: Pair, l: Join, r: TelemetryResult<()>) -> bool {
        exists|mid: Station, reg_mid: Registry, x: TelemetryResult<()>|
            {
                &&& #[trigger] self.x.speaks(mid, self.reg, reg_mid, l.now, x)
                &&& match x {
                    Ok(_) => Pair { x: mid, y: self.y, reg: reg_mid }.ran(after, l, r),
                    Err(e) => {
                        &&& r == Err::<(), TelemetryError>(e)
                        &&& after == Pair { x: mid, y: self.y, reg: reg_mid }
                    },
                }
            }
    }

    /// What running the jobs of the first board does; a failure that nobody was told of comes
    /// first.
    #[verifier::opaque]
    pub open spec fn ran(self, after: Pair, l: Join, r: TelemetryResult<()>) -> bool {
        exists|mid: Station, x: TelemetryResult<()>|
            {
                &&& #[trigger] self.x.confessed(mid, x)
                &&& match x {
                    Ok(_) => Pair { x: mid, ..self }.carried_all(
                        after,
                        l,
                        mid.core.agenda@.len(),
                        r,
                    ),
                    Err(e) => {
                        &&& r == Err::<(), TelemetryError>(e)
                        &&& after == Pair { x: mid, ..self }
                    },
                }
            }
    }

    /// What sending all that waits to leave does, and then the jobs.
    #[verifier::opaque]
    pub open spec fn emptied(self, after: Pair, l: Join, r: TelemetryResult<()>) -> bool {
        exists|left: Station, x: TelemetryResult<()>|
            {
                &&& #[trigger] self.x.worked_tx(
                    left,
                    self.reg.schema@,
                    l.now,
                    self.x.core.tx@.len(),
                    x,
                )
                &&& match x {
                    Err(e) => {
                        &&& r == Err::<(), TelemetryError>(e)
                        &&& after == Pair { x: left, ..self }
                    },
                    Ok(_) => Pair { x: left, ..self }.ran(after, l, r),
                }
            }
    }

    /// What working on all that waits at the first board does: what came, what is to leave, and
    /// then the jobs.
    #[verifier::opaque]
    pub open spec fn processed(self, after: Pair, l: Join, r: TelemetryResult<()>) -> bool {
        exists|came: Station, reg_mid: Registry, x: TelemetryResult<()>|
            {
                &&& #[trigger] self.x.worked_rx(
                    came,
                    self.reg,
                    reg_mid,
                    l.now,
                    self.x.core.rx@.len(),
                    x,
                )
                &&& match x {
                    Err(e) => {
                        &&& r == Err::<(), TelemetryError>(e)
                        &&& after == Pair { x: came, y: self.y, reg: reg_mid }
                    },
                    Ok(_) => Pair { x: came, y: self.y, reg: reg_mid }.emptied(after, l, r),
                }
            }
    }

    /// The six steps of a meeting: both boards announce themselves, and then each in turn works
    /// on all that waits, twice.
    pub open spec fn step(self, k: nat, after: Pair, l: Join, r: TelemetryResult<()>) -> bool {
        if k == 0 {
            self.announced(after, l, r)
        } else if k == 1 {
            self.turned().announced(after.turned(), l.turned(), r)
        } else if k % 2 == 0 {
            self.processed(after, l, r)
        } else {
            self.turned().processed(after.turned(), l.turned(), r)
        }
    }

    /// What the steps from `k` on do; the first that fails is the last.
    pub open spec fn met(self, k: nat, after: Pair, l: Join, r: TelemetryResult<()>) -> bool
        decreases 6 - k,
    {
        if k >= 6 {
            after == self && r is Ok
        } else {
            exists|mid: Pair, x: TelemetryResult<()>|
                {
                    &&& #[trigger] self.step(k, mid, l, x)
                    &&& match x {
                        Ok(_) => mid.met(k + 1, after, l, r),
                        Err(e) => r == Err::<(), TelemetryError>(e) && after == mid,
                    }
                }
        }
    }
}

fn carry(
    x: &mut Station,
    y: &mut Station,
    reg: &mut Registry,
    side_x: usize,
    side_y: usize,
    now: u64,
) -> (r: TelemetryResult<()>)
    requires
        old(x).wf(),
        old(y).wf(),
        old(reg).schema@.wf(),
        old(x).core.agenda@.len() > 0,
        !old(x).core.rests(),
    ensures
        final(x).wf(),
        final(y).wf(),
        final(reg).schema@ == old(reg).schema@,
        (Pair { x: *old(x), y: *old(y), reg: *old(reg) }).carried(
            (Pair { x: *final(x), y: *final(y), reg: *final(reg) }),
            (Join { side_x, side_y, now }),
            r,
        ),
{
    let j: Job = match x.take_job(reg, now) {
        Some(j) => j,
        None => {
            assert(false);
            return Ok(());
        },
    };
    let ghost mid = *x;
    let ours: bool = match j.target {
        Target::Side(s) => s == side_x,
        Target::Handler(_) => false,
    };
    let ghost jj = j;
    let r: TelemetryResult<()> = if ours && j.packet.is_some() {
        hand_over(x, y, reg, &j, Crossing { side: side_x, to: CROSSED_LINK }, now)
    } else {
        x.keep_told(Delivery::Task(j));
        Ok(())
    };
    proof {
        reveal(Pair::carried);
        let p = Pair { x: *old(x), y: *old(y), reg: *old(reg) };
        let l = Join { side_x, side_y, now };
        let q = Pair { x: *x, y: *y, reg: *reg };
        assert(p.x.took_job(mid, p.reg.schema@, jj, l.now));
        assert(ours == (jj@.target == Target::Side(l.side_x)));
        assert(jj.packet is Some == jj@.packet is Some);
        if ours && jj.packet is Some {
            assert(p.y.takes(q.y, p.reg, q.reg, jj@.packet->0, CROSSED_LINK, l.now, r));
        } else {
            assert(mid.kept_told(q.x, Delivery::Task(jj)));
            assert(q.y == p.y && q.reg == p.reg);
        }
    }
    r
}

fn hand_over(
    x: &mut Station,
    y: &mut Station,
    reg: &mut Registry,
    j: &Job,
    c: Crossing,
    now: u64,
) -> (r: TelemetryResult<()>)
    requires
        old(x).wf(),
        old(y).wf(),
        j.packet is Some,
    ensures
        final(x).wf(),
        final(y).wf(),
        final(reg).schema@ == old(reg).schema@,
        old(y).takes(*final(y), *old(reg), *final(reg), j@.packet->0, c.to, now, r),
        match r {
            Ok(_) => old(x).marked_done(*final(x), final(reg).schema@, *j, now),
            Err(_) => *final(x) == *old(x),
        },
{
    match &j.packet {
        Some(p) => {
            let r: TelemetryResult<()> = c.pass(y, reg, p, now);
            if r.is_ok() {
                x.mark_done(reg, j, now);
            }
            r
        },
        None => Ok(()),
    }
}

fn carry_all(
    x: &mut Station,
    y: &mut Station,
    reg: &mut Registry,
    side_x: usize,
    side_y: usize,
    now: u64,
    n: usize,
) -> (r: TelemetryResult<()>)
    requires
        old(x).wf(),
        old(y).wf(),
        old(reg).schema@.wf(),
    ensures
        final(x).wf(),
        final(y).wf(),
        final(reg).schema@ == old(reg).schema@,
        (Pair { x: *old(x), y: *old(y), reg: *old(reg) }).carried_all(
            (Pair { x: *final(x), y: *final(y), reg: *final(reg) }),
            (Join { side_x, side_y, now }),
            n as nat,
            r,
        ),
    decreases n,
{
    if n == 0 || x.core.agenda.len() == 0 || (x.core.relay && x.core.failure.is_some()) {
        return Ok(());
    }
    let got: TelemetryResult<()> = carry(x, y, reg, side_x, side_y, now);
    let ghost g = got;
    assert((Pair { x: *old(x), y: *old(y), reg: *old(reg) }).carried(
        Pair { x: *x, y: *y, reg: *reg },
        Join { side_x, side_y, now },
        g,
    ));
    match got {
        Ok(_) => carry_all(x, y, reg, side_x, side_y, now, n - 1),
        Err(e) => Err(e),
    }
}

fn run(
    x: &mut Station,
    y: &mut Station,
    reg: &mut Registry,
    side_x: usize,
    side_y: usize,
    now: u64,
) -> (r: TelemetryResult<()>)
    requires
        old(x).wf(),
        old(y).wf(),
        old(reg).schema@.wf(),
    ensures
        final(x).wf(),
        final(y).wf(),
        final(reg).schema@ == old(reg).schema@,
        (Pair { x: *old(x), y: *old(y), reg: *old(reg) }).ran(
            (Pair { x: *final(x), y: *final(y), reg: *final(reg) }),
            (Join { side_x, side_y, now }),
            r,
        ),
{
    reveal(Pair::ran);
    let told: TelemetryResult<()> = x.core.take_failure();
    let ghost t = told;
    assert(old(x).confessed(*x, t));
    let n: usize = x.core.agenda.len();
    match told {
        Ok(_) => carry_all(x, y, reg, side_x, side_y, now, n),
        Err(e) => Err(e),
    }
}

fn speak(
    x: &mut Station,
    y: &mut Station,
    reg: &mut Registry,
    side_x: usize,
    side_y: usize,
    now: u64,
) -> (r: TelemetryResult<()>)
    requires
        old(x).wf(),
        old(y).wf(),
        old(reg).schema@.wf(),
    ensures
        final(x).wf(),
        final(y).wf(),
        final(reg).schema@ == old(reg).schema@,
        (Pair { x: *old(x), y: *old(y), reg: *old(reg) }).announced(
            (Pair { x: *final(x), y: *final(y), reg: *final(reg) }),
            (Join { side_x, side_y, now }),
            r,
        ),
{
    reveal(Pair::announced);
    let said: TelemetryResult<()> = x.speak_up(reg, now);
    let ghost s = said;
    assert(old(x).speaks(*x, *old(reg), *reg, now, s));
    let ghost mid = *x;
    let ghost reg_mid = *reg;
    let r: TelemetryResult<()> = match said {
        Ok(_) => run(x, y, reg, side_x, side_y, now),
        Err(e) => Err(e),
    };
    proof {
        let p = Pair { x: *old(x), y: *old(y), reg: *old(reg) };
        let l = Join { side_x, side_y, now };
        let q = Pair { x: *x, y: *y, reg: *reg };
        assert(p.x.speaks(mid, p.reg, reg_mid, l.now, s));
        if s is Ok {
            assert(Pair { x: mid, y: p.y, reg: reg_mid }.ran(q, l, r));
        } else {
            assert(q == Pair { x: mid, y: p.y, reg: reg_mid });
        }
    }
    r
}

fn process(
    x: &mut Station,
    y: &mut Station,
    reg: &mut Registry,
    side_x: usize,
    side_y: usize,
    now: u64,
) -> (r: TelemetryResult<()>)
    requires
        old(x).wf(),
        old(y).wf(),
        old(reg).schema@.wf(),
    ensures
        final(x).wf(),
        final(y).wf(),
        final(reg).schema@ == old(reg).schema@,
        (Pair { x: *old(x), y: *old(y), reg: *old(reg) }).processed(
            (Pair { x: *final(x), y: *final(y), reg: *final(reg) }),
            (Join { side_x, side_y, now }),
            r,
        ),
{
    reveal(Pair::processed);
    let n: usize = x.core.rx.len();
    let came: TelemetryResult<()> = x.work_rx(reg, now, n);
    let ghost c = came;
    assert(old(x).worked_rx(*x, *old(reg), *reg, now, old(x).core.rx@.len(), c));
    let ghost mid = *x;
    let ghost reg_mid = *reg;
    let r: TelemetryResult<()> = match came {
        Err(e) => Err(e),
        Ok(_) => empty(x, y, reg, side_x, side_y, now),
    };
    proof {
        let p = Pair { x: *old(x), y: *old(y), reg: *old(reg) };
        let l = Join { side_x, side_y, now };
        let q = Pair { x: *x, y: *y, reg: *reg };
        assert(p.x.worked_rx(mid, p.reg, reg_mid, l.now, p.x.core.rx@.len(), c));
        if c is Ok {
            assert(Pair { x: mid, y: p.y, reg: reg_mid }.emptied(q, l, r));
        } else {
            assert(q == Pair { x: mid, y: p.y, reg: reg_mid });
        }
    }
    r
}

fn empty(
    x: &mut Station,
    y: &mut Station,
    reg: &mut Registry,
    side_x: usize,
    side_y: usize,
    now: u64,
) -> (r: TelemetryResult<()>)
    requires
        old(x).wf(),
        old(y).wf(),
        old(reg).schema@.wf(),
    ensures
        final(x).wf(),
        final(y).wf(),
        final(reg).schema@ == old(reg).schema@,
        (Pair { x: *old(x), y: *old(y), reg: *old(reg) }).emptied(
            (Pair { x: *final(x), y: *final(y), reg: *final(reg) }),
            (Join { side_x, side_y, now }),
            r,
        ),
{
    reveal(Pair::emptied);
    let n: usize = x.core.tx.len();
    let left: TelemetryResult<()> = x.work_tx(reg, now, n);
    let ghost z = left;
    assert(old(x).worked_tx(*x, reg.schema@, now, old(x).core.tx@.len(), z));
    let ghost mid = *x;
    let r: TelemetryResult<()> = match left {
        Err(e) => Err(e),
        Ok(_) => run(x, y, reg, side_x, side_y, now),
    };
    proof {
        let p = Pair { x: *old(x), y: *old(y), reg: *old(reg) };
        let l = Join { side_x, side_y, now };
        let q = Pair { x: *x, y: *y, reg: *reg };
        assert(p.x.worked_tx(mid, p.reg.schema@, l.now, p.x.core.tx@.len(), z));
        if z is Ok {
            assert(Pair { x: mid, ..p }.ran(q, l, r));
        } else {
            assert(q == Pair { x: mid, ..p });
        }
    }
    r
}

fn meet_from(
    k: u8,
    a: &mut Station,
    b: &mut Station,
    reg: &mut Registry,
    side_a: usize,
    side_b: usize,
    now: u64,
) -> (r: TelemetryResult<()>)
    requires
        old(a).wf(),
        old(b).wf(),
        old(reg).schema@.wf(),
        k <= 6,
    ensures
        final(a).wf(),
        final(b).wf(),
        final(reg).schema@ == old(reg).schema@,
        (Pair { x: *old(a), y: *old(b), reg: *old(reg) }).met(
            k as nat,
            (Pair { x: *final(a), y: *final(b), reg: *final(reg) }),
            (Join { side_x: side_a, side_y: side_b, now }),
            r,
        ),
    decreases 6 - k,
{
    if k >= 6 {
        return Ok(());
    }
    let got: TelemetryResult<()> = if k == 0 {
        speak(a, b, reg, side_a, side_b, now)
    } else if k == 1 {
        speak(b, a, reg, side_b, side_a, now)
    } else if k % 2 == 0 {
        process(a, b, reg, side_a, side_b, now)
    } else {
        process(b, a, reg, side_b, side_a, now)
    };
    let ghost g = got;
    assert((Pair { x: *old(a), y: *old(b), reg: *old(reg) }).step(
        k as nat,
        Pair { x: *a, y: *b, reg: *reg },
        Join { side_x: side_a, side_y: side_b, now },
        g,
    ));
    match got {
        Ok(_) => meet_from(k + 1, a, b, reg, side_a, side_b, now),
        Err(e) => Err(e),
    }
}

/// Lets two boards that a link joins meet: both announce themselves, and then each in turn works on
/// all that waits, twice. The first step that fails is the last.
pub fn meet(
    a: &mut Station,
    b: &mut Station,
    reg: &mut Registry,
    side_a: usize,
    side_b: usize,
    now: u64,
) -> (r: TelemetryResult<()>)
    requires
        old(a).wf(),
        old(b).wf(),
        old(reg).schema@.wf(),
    ensures
        final(a).wf(),
        final(b).wf(),
        final(reg).schema@ == old(reg).schema@,
        (Pair { x: *old(a), y: *old(b), reg: *old(reg) }).met(
            0,
            (Pair { x: *final(a), y: *final(b), reg: *final(reg) }),
            (Join { side_x: side_a, side_y: side_b, now }),
            r,
        ),
{
    meet_from(0, a, b, reg, side_a, side_b, now)
}

} // verus!
