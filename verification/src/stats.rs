//! What went over the links of a board.
use vstd::prelude::*;
use crate::meta::DataType;

verus! {

/// What went over a link of one type.
#[derive(Debug, Clone, Copy, PartialEq, Eq, Structural)]
pub struct TypeCounters {
    pub data_type: DataType,
    /// Packets that came whole, and packets that went to handlers of this board.
    pub rx_packets: u64,
    /// Packets that came for the first time, and were handed on.
    pub relayed_rx_packets: u64,
    pub tx_packets: u64,
    /// Packets of other boards that went.
    pub relayed_tx_packets: u64,
    pub tx_retries: u64,
    /// Packets that did not go, and packets that a handler of this board did not take.
    pub handler_failures: u64,
}

/// What went over a link of all types.
#[derive(Debug, Clone, Copy, PartialEq, Eq, Structural)]
pub struct Totals {
    pub rx_packets: u64,
    pub rx_bytes: u64,
    /// Packets that came for the first time, and were handed on.
    pub relayed_rx_packets: u64,
    /// Packets that came and went to handlers of this board.
    pub local_deliveries: u64,
    pub local_retries: u64,
    pub local_failures: u64,
    pub tx_packets: u64,
    pub tx_bytes: u64,
    /// Packets of other boards that went.
    pub relayed_tx_packets: u64,
    pub tx_retries: u64,
    pub tx_failures: u64,
}

/// What happens on a link.
#[derive(Debug, Clone, Copy, PartialEq, Eq, Structural)]
pub enum LinkEvent {
    /// A packet of so many bytes came.
    Came(usize),
    /// A frame of so many bytes came; of its type nothing is counted yet.
    CameFramed(usize),
    /// A packet that came is taken: it is handed on, it goes to handlers of this board, or both.
    Taken { relayed: bool, local: bool },
    /// A handler of this board did not take a packet that came; it is the last attempt or not.
    NotTaken { last: bool },
    /// A packet of so many bytes went, of this board or of another.
    Went { size: usize, relayed: bool },
    /// A packet did not go; it is the last attempt or not.
    Stuck { last: bool },
}

pub open spec fn raised(x: u64, by: int) -> u64 {
    if x + by > u64::MAX {
        u64::MAX
    } else {
        (x + by) as u64
    }
}

/// One where something holds, zero where it does not.
pub open spec fn one_if(b: bool) -> int {
    if b {
        1
    } else {
        0
    }
}

fn one_where(b: bool) -> (n: u64)
    ensures
        n == one_if(b),
{
    if b {
        1
    } else {
        0
    }
}

impl Totals {
    pub open spec fn zero() -> Totals {
        Totals {
            rx_packets: 0,
            rx_bytes: 0,
            relayed_rx_packets: 0,
            local_deliveries: 0,
            local_retries: 0,
            local_failures: 0,
            tx_packets: 0,
            tx_bytes: 0,
            relayed_tx_packets: 0,
            tx_retries: 0,
            tx_failures: 0,
        }
    }

    pub open spec fn after(self, e: LinkEvent) -> Totals {
        match e {
            LinkEvent::Came(n) => Totals {
                rx_packets: raised(self.rx_packets, 1),
                rx_bytes: raised(self.rx_bytes, n as int),
                ..self
            },
            LinkEvent::CameFramed(n) => Totals {
                rx_packets: raised(self.rx_packets, 1),
                rx_bytes: raised(self.rx_bytes, n as int),
                ..self
            },
            LinkEvent::Taken { relayed, local } => Totals {
                relayed_rx_packets: raised(self.relayed_rx_packets, one_if(relayed)),
                local_deliveries: raised(self.local_deliveries, one_if(local)),
                ..self
            },
            LinkEvent::NotTaken { last } => Totals {
                local_retries: raised(self.local_retries, 1),
                local_failures: raised(self.local_failures, one_if(last)),
                ..self
            },
            LinkEvent::Went { size, relayed } => Totals {
                tx_packets: raised(self.tx_packets, 1),
                tx_bytes: raised(self.tx_bytes, size as int),
                relayed_tx_packets: raised(self.relayed_tx_packets, one_if(relayed)),
                ..self
            },
            LinkEvent::Stuck { last } => Totals {
                tx_retries: raised(self.tx_retries, 1),
                tx_failures: raised(self.tx_failures, one_if(last)),
                ..self
            },
        }
    }

    fn note(&mut self, e: LinkEvent)
        ensures
            *final(self) == old(self).after(e),
    {
        match e {
            LinkEvent::Came(n) => {
                self.rx_packets = self.rx_packets.saturating_add(1);
                self.rx_bytes = self.rx_bytes.saturating_add(n as u64);
            },
            LinkEvent::CameFramed(n) => {
                self.rx_packets = self.rx_packets.saturating_add(1);
                self.rx_bytes = self.rx_bytes.saturating_add(n as u64);
            },
            LinkEvent::Taken { relayed, local } => {
                self.relayed_rx_packets =
                self.relayed_rx_packets.saturating_add(one_where(relayed));
                self.local_deliveries = self.local_deliveries.saturating_add(one_where(local));
            },
            LinkEvent::NotTaken { last } => {
                self.local_retries = self.local_retries.saturating_add(1);
                self.local_failures = self.local_failures.saturating_add(one_where(last));
            },
            LinkEvent::Went { size, relayed } => {
                self.tx_packets = self.tx_packets.saturating_add(1);
                self.tx_bytes = self.tx_bytes.saturating_add(size as u64);
                self.relayed_tx_packets =
                self.relayed_tx_packets.saturating_add(one_where(relayed));
            },
            LinkEvent::Stuck { last } => {
                self.tx_retries = self.tx_retries.saturating_add(1);
                self.tx_failures = self.tx_failures.saturating_add(one_where(last));
            },
        }
    }
}

impl TypeCounters {
    pub open spec fn zero(ty: DataType) -> TypeCounters {
        TypeCounters {
            data_type: ty,
            rx_packets: 0,
            relayed_rx_packets: 0,
            tx_packets: 0,
            relayed_tx_packets: 0,
            tx_retries: 0,
            handler_failures: 0,
        }
    }

    pub open spec fn after(self, e: LinkEvent) -> TypeCounters {
        match e {
            LinkEvent::Came(_) => TypeCounters { rx_packets: raised(self.rx_packets, 1), ..self },
            LinkEvent::CameFramed(_) => self,
            LinkEvent::Taken { relayed, local } => TypeCounters {
                rx_packets: raised(self.rx_packets, one_if(local)),
                relayed_rx_packets: raised(self.relayed_rx_packets, one_if(relayed)),
                ..self
            },
            LinkEvent::NotTaken { last } => TypeCounters {
                handler_failures: raised(self.handler_failures, one_if(last)),
                ..self
            },
            LinkEvent::Went { relayed, .. } => TypeCounters {
                tx_packets: raised(self.tx_packets, 1),
                relayed_tx_packets: raised(self.relayed_tx_packets, one_if(relayed)),
                ..self
            },
            LinkEvent::Stuck { last } => TypeCounters {
                tx_retries: raised(self.tx_retries, 1),
                handler_failures: raised(self.handler_failures, one_if(last)),
                ..self
            },
        }
    }

    fn note(&mut self, e: LinkEvent)
        ensures
            *final(self) == old(self).after(e),
    {
        match e {
            LinkEvent::Came(_) => {
                self.rx_packets = self.rx_packets.saturating_add(1);
            },
            LinkEvent::CameFramed(_) => {},
            LinkEvent::Taken { relayed, local } => {
                self.rx_packets = self.rx_packets.saturating_add(one_where(local));
                self.relayed_rx_packets =
                self.relayed_rx_packets.saturating_add(one_where(relayed));
            },
            LinkEvent::NotTaken { last } => {
                self.handler_failures = self.handler_failures.saturating_add(one_where(last));
            },
            LinkEvent::Went { size: _, relayed } => {
                self.tx_packets = self.tx_packets.saturating_add(1);
                self.relayed_tx_packets =
                self.relayed_tx_packets.saturating_add(one_where(relayed));
            },
            LinkEvent::Stuck { last } => {
                self.tx_retries = self.tx_retries.saturating_add(1);
                self.handler_failures = self.handler_failures.saturating_add(one_where(last));
            },
        }
    }
}

/// How often handlers and links of a board failed for good, and how often they were tried then.
#[derive(Debug, Clone, Copy, PartialEq, Eq, Structural)]
pub struct FailureCounters {
    pub failures: u64,
    pub tries: u64,
}

impl FailureCounters {
    pub open spec fn zero() -> FailureCounters {
        FailureCounters { failures: 0, tries: 0 }
    }

    /// After something failed for good that was tried so often.
    pub open spec fn after(self, tries: int) -> FailureCounters {
        FailureCounters { failures: raised(self.failures, 1), tries: raised(self.tries, tries) }
    }

    pub fn new() -> (r: FailureCounters)
        ensures
            r == FailureCounters::zero(),
    {
        FailureCounters { failures: 0, tries: 0 }
    }

    pub fn note(&mut self, tries: u64)
        ensures
            *final(self) == old(self).after(tries as int),
    {
        self.failures = self.failures.saturating_add(1);
        self.tries = self.tries.saturating_add(tries);
    }
}

/// The place of a type.
pub open spec fn place(v: Seq<TypeCounters>, ty: DataType) -> Option<int>
    decreases v.len(),
{
    if v.len() == 0 {
        None
    } else if v.last().data_type == ty {
        Some(v.len() - 1)
    } else {
        place(v.drop_last(), ty)
    }
}

/// What is known of a type.
pub open spec fn counted(v: Seq<TypeCounters>, ty: DataType) -> TypeCounters {
    match place(v, ty) {
        Some(i) => v[i],
        None => TypeCounters::zero(ty),
    }
}

/// What is known of the types after something happened.
pub open spec fn noted(v: Seq<TypeCounters>, ty: DataType, e: LinkEvent) -> Seq<TypeCounters> {
    match place(v, ty) {
        Some(i) => v.update(i, v[i].after(e)),
        None => v.push(TypeCounters::zero(ty).after(e)),
    }
}

proof fn lemma_place_bounds(v: Seq<TypeCounters>, ty: DataType)
    ensures
        place(v, ty) matches Some(i) ==> 0 <= i < v.len() && v[i].data_type == ty,
    decreases v.len(),
{
    if v.len() > 0 && v.last().data_type != ty {
        lemma_place_bounds(v.drop_last(), ty);
    }
}

proof fn lemma_place_same(a: Seq<TypeCounters>, b: Seq<TypeCounters>, ty: DataType)
    requires
        a.len() == b.len(),
        forall|i: int| 0 <= i < a.len() ==> (#[trigger] a[i]).data_type == b[i].data_type,
    ensures
        place(a, ty) == place(b, ty),
    decreases a.len(),
{
    if a.len() > 0 {
        assert(a.last().data_type == b.last().data_type);
        assert forall|i: int| 0 <= i < a.drop_last().len() implies (#[trigger]
        a.drop_last()[i]).data_type == b.drop_last()[i].data_type by {
            assert(a[i].data_type == b[i].data_type);
        }
        lemma_place_same(a.drop_last(), b.drop_last(), ty);
    }
}

/// What happens to one type changes what is known of it, and of no other.
pub proof fn lemma_types_count_apart(
    v: Seq<TypeCounters>,
    ty: DataType,
    e: LinkEvent,
    other: DataType,
)
    ensures
        counted(noted(v, ty, e), other) == (if other == ty {
            counted(v, ty).after(e)
        } else {
            counted(v, other)
        }),
{
    lemma_place_bounds(v, ty);
    lemma_place_bounds(v, other);
    let w = noted(v, ty, e);
    match place(v, ty) {
        Some(i) => {
            lemma_place_same(v, w, other);
        },
        None => {
            assert(w.drop_last() =~= v);
        },
    }
}

/// What went over a link.
pub struct SideStats {
    pub totals: Totals,
    pub types: Vec<TypeCounters>,
}

impl SideStats {
    pub fn new() -> (r: SideStats)
        ensures
            r.totals == Totals::zero(),
            r.types@ == Seq::<TypeCounters>::empty(),
    {
        SideStats {
            totals: Totals {
                rx_packets: 0,
                rx_bytes: 0,
                relayed_rx_packets: 0,
                local_deliveries: 0,
                local_retries: 0,
                local_failures: 0,
                tx_packets: 0,
                tx_bytes: 0,
                relayed_tx_packets: 0,
                tx_retries: 0,
                tx_failures: 0,
            },
            types: Vec::new(),
        }
    }

    fn find(&self, ty: DataType) -> (r: Option<usize>)
        ensures
            match place(self.types@, ty) {
                Some(i) => r matches Some(k) && k == i && k < self.types@.len(),
                None => r is None,
            },
    {
        let mut n: usize = self.types.len();
        proof {
            assert(self.types@.take(n as int) =~= self.types@);
            lemma_place_bounds(self.types@, ty);
        }
        while n > 0
            invariant
                n <= self.types@.len(),
                place(self.types@, ty) == place(self.types@.take(n as int), ty),
            decreases n,
        {
            assert(self.types@.take(n as int).drop_last() =~= self.types@.take(n - 1));
            if self.types[n - 1].data_type == ty {
                return Some(n - 1);
            }
            n = n - 1;
        }
        None
    }

    /// Something happened on the link.
    pub fn note(&mut self, ty: DataType, e: LinkEvent)
        ensures
            final(self).totals == old(self).totals.after(e),
            final(self).types@ == noted(old(self).types@, ty, e),
    {
        self.totals.note(e);
        match self.find(ty) {
            Some(i) => {
                let mut x: TypeCounters = self.types[i];
                x.note(e);
                self.types.set(i, x);
            },
            None => {
                let mut x = TypeCounters {
                    data_type: ty,
                    rx_packets: 0,
                    relayed_rx_packets: 0,
                    tx_packets: 0,
                    relayed_tx_packets: 0,
                    tx_retries: 0,
                    handler_failures: 0,
                };
                x.note(e);
                self.types.push(x);
            },
        }
    }
}

/// Each thing that happens on a link is counted where it belongs, once, and nowhere else: what came
/// and its bytes, what went and its bytes, what was passed on, what was tried again, and what
/// failed for good.
pub proof fn lemma_events_are_counted_once(t: Totals, e: LinkEvent)
    requires
        t.rx_packets < u64::MAX,
        t.tx_packets < u64::MAX,
        t.relayed_rx_packets < u64::MAX,
        t.relayed_tx_packets < u64::MAX,
        t.local_deliveries < u64::MAX,
        t.local_retries < u64::MAX,
        t.local_failures < u64::MAX,
        t.tx_retries < u64::MAX,
        t.tx_failures < u64::MAX,
        (e matches LinkEvent::Came(n) ==> t.rx_bytes + n <= u64::MAX),
        (e matches LinkEvent::CameFramed(n) ==> t.rx_bytes + n <= u64::MAX),
        (e matches LinkEvent::Went { size, .. } ==> t.tx_bytes + size <= u64::MAX),
    ensures
        t.after(e).rx_packets - t.rx_packets == (if e is Came || e is CameFramed {
            1int
        } else {
            0
        }),
        t.after(e).rx_bytes - t.rx_bytes == (match e {
            LinkEvent::Came(n) => n as int,
            LinkEvent::CameFramed(n) => n as int,
            _ => 0,
        }),
        t.after(e).tx_packets - t.tx_packets == (if e is Went {
            1int
        } else {
            0
        }),
        t.after(e).tx_bytes - t.tx_bytes == (match e {
            LinkEvent::Went { size, .. } => size as int,
            _ => 0,
        }),
        t.after(e).relayed_rx_packets > t.relayed_rx_packets <==> (e matches LinkEvent::Taken {
            relayed: true,
            ..
        }),
        t.after(e).relayed_tx_packets > t.relayed_tx_packets <==> (e matches LinkEvent::Went {
            relayed: true,
            ..
        }),
        t.after(e).local_deliveries > t.local_deliveries <==> (e matches LinkEvent::Taken {
            local: true,
            ..
        }),
        t.after(e).local_retries > t.local_retries <==> e is NotTaken,
        t.after(e).local_failures > t.local_failures <==> (e matches LinkEvent::NotTaken {
            last: true,
        }),
        t.after(e).tx_retries > t.tx_retries <==> e is Stuck,
        t.after(e).tx_failures > t.tx_failures <==> (e matches LinkEvent::Stuck { last: true }),
        t.after(e).relayed_rx_packets - t.relayed_rx_packets + (t.after(e).relayed_tx_packets
            - t.relayed_tx_packets) + (t.after(e).local_retries - t.local_retries) + (t.after(
            e,
        ).tx_retries - t.tx_retries) <= 1,
        t.after(e).local_deliveries <= t.local_deliveries + 1,
        t.after(e).local_failures <= t.local_failures + 1,
        t.after(e).tx_failures <= t.tx_failures + 1,
        t.relayed_rx_packets <= t.after(e).relayed_rx_packets,
        t.relayed_tx_packets <= t.after(e).relayed_tx_packets,
        t.local_deliveries <= t.after(e).local_deliveries,
        t.local_retries <= t.after(e).local_retries,
        t.local_failures <= t.after(e).local_failures,
        t.tx_retries <= t.after(e).tx_retries,
        t.tx_failures <= t.after(e).tx_failures,
{
}

/// A type counts what happens to its packets in the same way.
pub proof fn lemma_type_counts_its_packets(t: TypeCounters, e: LinkEvent)
    requires
        t.rx_packets < u64::MAX,
        t.tx_packets < u64::MAX,
        t.relayed_rx_packets < u64::MAX,
        t.relayed_tx_packets < u64::MAX,
        t.tx_retries < u64::MAX,
        t.handler_failures < u64::MAX,
    ensures
        t.after(e).data_type == t.data_type,
        t.after(e).rx_packets == t.rx_packets + (if e is Came || (e matches LinkEvent::Taken {
            local: true,
            ..
        }) {
            1int
        } else {
            0
        }),
        t.after(e).tx_packets == t.tx_packets + (if e is Went {
            1int
        } else {
            0
        }),
        t.after(e).relayed_rx_packets == t.relayed_rx_packets + (if e matches LinkEvent::Taken {
            relayed: true,
            ..
        } {
            1int
        } else {
            0
        }),
        t.after(e).relayed_tx_packets == t.relayed_tx_packets + (if e matches LinkEvent::Went {
            relayed: true,
            ..
        } {
            1int
        } else {
            0
        }),
        t.after(e).tx_retries == t.tx_retries + (if e is Stuck {
            1int
        } else {
            0
        }),
        t.after(e).handler_failures == t.handler_failures + (if (e matches LinkEvent::NotTaken {
            last: true,
        }) || (e matches LinkEvent::Stuck { last: true }) {
            1int
        } else {
            0
        }),
{
}

/// What fails for good counts as one failure, and all its tries count.
pub proof fn lemma_failures_count(f: FailureCounters, tries: u8)
    requires
        f.failures < u64::MAX,
        f.tries + tries <= u64::MAX,
    ensures
        f.after(tries as int).failures == f.failures + 1,
        f.after(tries as int).tries == f.tries + tries,
{
}

/// Counters never fall, and stay at the highest number once they have reached it.
pub proof fn lemma_counters_never_fall(t: Totals, e: LinkEvent, c: TypeCounters)
    ensures
        t.after(e).rx_packets >= t.rx_packets && t.after(e).rx_bytes >= t.rx_bytes,
        t.after(e).tx_packets >= t.tx_packets && t.after(e).tx_bytes >= t.tx_bytes,
        t.after(e).relayed_rx_packets >= t.relayed_rx_packets,
        t.after(e).relayed_tx_packets >= t.relayed_tx_packets,
        t.after(e).local_deliveries >= t.local_deliveries,
        t.after(e).local_retries >= t.local_retries,
        t.after(e).local_failures >= t.local_failures,
        t.after(e).tx_retries >= t.tx_retries && t.after(e).tx_failures >= t.tx_failures,
        c.after(e).rx_packets >= c.rx_packets && c.after(e).tx_packets >= c.tx_packets,
        c.after(e).relayed_rx_packets >= c.relayed_rx_packets,
        c.after(e).relayed_tx_packets >= c.relayed_tx_packets,
        c.after(e).tx_retries >= c.tx_retries,
        c.after(e).handler_failures >= c.handler_failures,
{
}

} // verus!
