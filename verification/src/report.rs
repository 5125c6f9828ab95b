//! What a board tells of itself: its links, its rules, and the network as it knows it.
use vstd::prelude::*;
use vstd::string::*;
use crate::capacity::LinkRate;
use crate::discovery;
use crate::discovery::{BoardSpec, TopologyBoardNode};
use crate::endpoint_set;
use crate::jobs::Handler;
use crate::meta::{DataEndpoint, DataType, FIRST_USER_ENDPOINT};
use crate::presence;
use crate::queue;
use crate::routes;
use crate::routes::{PolicySpec, RouteSelectionMode, MAX_SIDES};
use crate::station::Station;
use crate::stats::{FailureCounters, Totals};
use crate::transport;
use crate::transport::{LinkCounters, LinkOptions};

verus! {

/// What the rules say of packets from one place that go over one link.
#[derive(Debug, Clone, Copy)]
pub struct RouteRow {
    pub source: Option<usize>,
    pub side: usize,
    pub enabled: Option<bool>,
    pub weight: Option<u32>,
    pub priority: Option<u32>,
}

/// The places that packets come from: the board itself, and then each link.
pub open spec fn source_at(i: int) -> Option<usize> {
    if i == 0 {
        None
    } else {
        Some((i - 1) as usize)
    }
}

pub open spec fn row(p: PolicySpec, source: Option<usize>, side: usize) -> RouteRow {
    let key = routes::route_key(source, side as int);
    RouteRow {
        source,
        side,
        enabled: routes::said(p.rules, key),
        weight: routes::said(p.weights, key),
        priority: routes::said(p.priorities, key),
    }
}

/// How a link stands, without its name.
#[derive(Debug, Clone, Copy)]
pub struct SideReport {
    pub reliable: bool,
    pub link_local: bool,
    pub ingress: bool,
    pub egress: bool,
    pub totals: Totals,
    /// Attempts that failed, on the link and of handlers that got what came over it.
    pub retries: u64,
    pub rate: LinkRate,
    /// How much more the link takes, and one at least.
    pub effective_weight: u64,
    /// What the link takes decides how often it is chosen.
    pub balanced: bool,
    pub options: LinkOptions,
    pub counters: LinkCounters,
    /// Common parts that the other end knows, and that this end knows.
    pub tx_templates: usize,
    pub rx_templates: usize,
}

/// How much waits, how much is known, and how much failed.
#[derive(Debug, Clone, Copy)]
pub struct BoardReport {
    pub rx_len: usize,
    pub rx_bytes: usize,
    pub tx_len: usize,
    pub tx_bytes: usize,
    /// Links over which boards were heard of.
    pub route_count: usize,
    /// Boards that were heard of.
    pub announcer_count: usize,
    pub return_routes: usize,
    /// Packets that boards did not say that they have.
    pub pending: usize,
    pub failures: FailureCounters,
}

/// How many of the first `n` links boards were heard of over.
pub open spec fn heard_over(p: Seq<presence::AnnouncerSpec>, n: nat, now: u64) -> nat
    decreases n,
{
    if n == 0 {
        0
    } else {
        heard_over(p, (n - 1) as nat, now) + (if presence::names(
            p,
            Some((n - 1) as usize),
            now,
        ).len() > 0 {
            1nat
        } else {
            0nat
        })
    }
}

/// A board of which only the name and its neighbours are known.
pub open spec fn bare_board(name: Seq<char>, connections: Seq<Seq<char>>) -> BoardSpec {
    BoardSpec {
        sender_id: name,
        reachable_endpoints: Seq::empty(),
        reachable_timesync_sources: Seq::empty(),
        connections,
    }
}

/// The boards of some names.
pub open spec fn bare_boards(names: Seq<Seq<char>>) -> Seq<BoardSpec> {
    names.map_values(|x: Seq<char>| bare_board(x, Seq::empty()))
}

/// The endpoints of programs that are served here.
pub open spec fn own_endpoints(hs: Seq<Handler>) -> Seq<DataEndpoint>
    decreases hs.len(),
{
    if hs.len() == 0 {
        Seq::empty()
    } else {
        let front = own_endpoints(hs.drop_last());
        if hs.last().endpoint >= FIRST_USER_ENDPOINT {
            front.push(hs.last().endpoint)
        } else {
            front
        }
    }
}

impl Station {
    /// What the rules say, for each place that packets come from and each link.
    pub fn route_rows(&self) -> (v: Vec<RouteRow>)
        requires
            self.wf(),
        ensures
            ({
                let n = self.core.sides@.len() as int;
                &&& v@.len() == (n + 1) * n
                &&& forall|i: int|
                    0 <= i < v@.len() ==> #[trigger] v@[i] == row(
                        self.core.policy@,
                        source_at(i / n),
                        (i % n) as usize,
                    )
            }),
    {
        let n: usize = self.core.sides.len();
        let mut v: Vec<RouteRow> = Vec::new();
        if n == 0 {
            return v;
        }
        self.add_rows(None, 0, &mut v);
        let mut k: usize = 0;
        assert((0 + 1) * n == n);
        while k < n
            invariant
                n == self.core.sides@.len(),
                self.wf(),
                0 < n,
                k <= n,
                v@.len() == (k + 1) * n,
                self.rows_so_far(v@),
            decreases n - k,
        {
            assert((k + 1 + 1) * n == (k + 1) * n + n) by (nonlinear_arith);
            self.add_rows(Some(k), k + 1, &mut v);
            k = k + 1;
        }
        v
    }

    /// Whether rows are those of the first places.
    pub open spec fn rows_so_far(self, v: Seq<RouteRow>) -> bool {
        let n = self.core.sides@.len() as int;
        forall|i: int|
            0 <= i < v.len() ==> #[trigger] v[i] == row(
                self.core.policy@,
                source_at(i / n),
                (i % n) as usize,
            )
    }

    fn add_rows(&self, source: Option<usize>, at: usize, v: &mut Vec<RouteRow>)
        requires
            self.wf(),
            0 < self.core.sides@.len(),
            at <= self.core.sides@.len(),
            source == source_at(at as int),
            old(v)@.len() == at * self.core.sides@.len(),
            self.rows_so_far(old(v)@),
        ensures
            final(v)@.len() == old(v)@.len() + self.core.sides@.len(),
            self.rows_so_far(final(v)@),
    {
        let n: usize = self.core.sides.len();
        let mut side: usize = 0;
        while side < n
            invariant
                n == self.core.sides@.len(),
                self.wf(),
                side <= n <= MAX_SIDES,
                at <= n,
                source == source_at(at as int),
                v@.len() == at * n + side,
                self.rows_so_far(v@),
            decreases n - side,
        {
            let r = RouteRow {
                source,
                side,
                enabled: self.core.policy.route(source, side),
                weight: self.core.policy.route_weight(source, side),
                priority: self.core.policy.route_priority(source, side),
            };
            proof {
                let i = v@.len() as int;
                vstd::arithmetic::div_mod::lemma_fundamental_div_mod_converse(
                    i,
                    n as int,
                    at as int,
                    side as int,
                );
                assert(r == row(self.core.policy@, source_at(i / n as int), (i % n as int) as usize));
            }
            v.push(r);
            side = side + 1;
        }
    }

    /// How a link stands.
    pub fn side_report(&self, side: usize) -> (r: SideReport)
        requires
            self.wf(),
            side < self.wires@.len(),
        ensures
            ({
                let s = self.core.sides@[side as int];
                let w = self.wires@[side as int];
                &&& r.reliable == s.reliable
                &&& r.link_local == s.link_local
                &&& r.ingress == s.ingress
                &&& r.egress == s.egress
                &&& r.totals == w.stats.totals
                &&& r.retries == transport::more(w.stats.totals.tx_retries, w.stats.totals.local_retries as int)
                &&& r.rate == w.rate
                &&& r.effective_weight == (if w.rate.headroom() > 0 {
                    w.rate.headroom()
                } else {
                    1
                })
                &&& r.balanced == s.alive
                &&& r.options == w.link.options
                &&& r.counters == w.link.counters
                &&& r.tx_templates == w.link.tx@.len()
                &&& r.rx_templates == w.link.rx@.len()
            }),
    {
        let left: u64 = self.wires[side].rate.available();
        SideReport {
            reliable: self.core.sides[side].reliable,
            link_local: self.core.sides[side].link_local,
            ingress: self.core.sides[side].ingress,
            egress: self.core.sides[side].egress,
            totals: self.wires[side].stats.totals,
            retries: self.wires[side].stats.totals.tx_retries.saturating_add(
                self.wires[side].stats.totals.local_retries,
            ),
            rate: self.wires[side].rate,
            effective_weight: if left > 0 {
                left
            } else {
                1
            },
            balanced: self.core.sides[side].alive,
            options: self.wires[side].link.options,
            counters: self.wires[side].link.counters,
            tx_templates: self.wires[side].link.tx.len(),
            rx_templates: self.wires[side].link.rx.len(),
        }
    }

    /// How much waits, how much is known, and how much failed.
    pub fn board_report(&self, now: u64) -> (r: BoardReport)
        requires
            self.wf(),
        ensures
            r.rx_len == self.core.rx@.len(),
            r.rx_bytes == queue::total_cost(self.core.rx@),
            r.tx_len == self.core.tx@.len(),
            r.tx_bytes == queue::total_cost(self.core.tx@),
            r.route_count == heard_over(self.core.presence@, self.core.sides@.len(), now),
            r.announcer_count == presence::names(self.core.presence@, None, now).len(),
            r.return_routes == self.returns.items@.len(),
            r.pending == self.pending@.len(),
            r.failures == self.failures,
    {
        let mut count: usize = 0;
        let mut i: usize = 0;
        while i < self.core.sides.len()
            invariant
                i <= self.core.sides@.len(),
                count <= i,
                count == heard_over(self.core.presence@, i as nat, now),
            decreases self.core.sides@.len() - i,
        {
            if self.core.presence.announcers(Some(i), now).len() > 0 {
                count = count + 1;
            }
            i = i + 1;
        }
        BoardReport {
            rx_len: self.core.rx.len(),
            rx_bytes: self.core.rx.used_bytes(),
            tx_len: self.core.tx.len(),
            tx_bytes: self.core.tx.used_bytes(),
            route_count: count,
            announcer_count: self.core.presence.announcers(None, now).len(),
            return_routes: self.returns.items.len(),
            pending: self.pending.len(),
            failures: self.failures,
        }
    }

    /// The endpoints that are reached over links or served here, each once, in ascending order.
    pub fn advertised_endpoints(&self, now: u64) -> (v: Vec<DataEndpoint>)
        ensures
            v@ == endpoint_set::canonical(
                presence::reached(self.core.presence@, None, now, 256) + own_endpoints(
                    self.core.handlers@,
                ),
            ),
    {
        let mut all: Vec<DataEndpoint> = self.core.presence.reached_endpoints(None, now);
        let ghost reached = all@;
        let mut i: usize = 0;
        assert(all@ =~= reached + own_endpoints(self.core.handlers@.take(0)));
        while i < self.core.handlers.len()
            invariant
                i <= self.core.handlers@.len(),
                all@ == reached + own_endpoints(self.core.handlers@.take(i as int)),
            decreases self.core.handlers@.len() - i,
        {
            assert(self.core.handlers@.take(i + 1).drop_last() =~= self.core.handlers@.take(
                i as int,
            ));
            if self.core.handlers[i].endpoint >= FIRST_USER_ENDPOINT {
                let ghost before = own_endpoints(self.core.handlers@.take(i as int));
                all.push(self.core.handlers[i].endpoint);
                assert(all@ =~= reached + before.push(self.core.handlers@[i as int].endpoint));
            }
            i = i + 1;
        }
        assert(self.core.handlers@.take(i as int) =~= self.core.handlers@);
        endpoint_set::canonical_of(all.as_slice())
    }

    /// The boards that are known: this board with its neighbours, the neighbours, and the boards
    /// that they told of.
    pub open spec fn boards_known(self, now: u64) -> Seq<BoardSpec> {
        let names = presence::names(self.core.presence@, None, now);
        seq![bare_board(self.core.sender@, names)] + bare_boards(names) + presence::told_boards(
            self.core.presence@,
            None,
            now,
        )
    }

    pub fn known_boards(&self, now: u64) -> (v: Vec<TopologyBoardNode>)
        ensures
            discovery::boards(v@) == self.boards_known(now),
    {
        let names: Vec<String> = self.core.presence.announcers(None, now);
        let mut v: Vec<TopologyBoardNode> = Vec::new();
        v.push(
            TopologyBoardNode {
                sender_id: self.core.sender.clone(),
                reachable_endpoints: Vec::new(),
                reachable_timesync_sources: Vec::new(),
                connections: discovery::copy_texts(&names),
            },
        );
        let ghost all = discovery::texts(names@);
        let ghost own = bare_board(self.core.sender@, all);
        assert(v@[0]@.reachable_timesync_sources =~= Seq::empty());
        assert(discovery::boards(v@) =~= seq![own] + bare_boards(all.take(0)));
        let mut i: usize = 0;
        while i < names.len()
            invariant
                i <= names@.len(),
                all == discovery::texts(names@),
                discovery::boards(v@) == seq![own] + bare_boards(all.take(i as int)),
            decreases names@.len() - i,
        {
            let ghost before = v@;
            let b = TopologyBoardNode {
                sender_id: names[i].clone(),
                reachable_endpoints: Vec::new(),
                reachable_timesync_sources: Vec::new(),
                connections: Vec::new(),
            };
            let ghost bv = b@;
            assert(bv == bare_board(all[i as int], Seq::empty())) by {
                assert(bv.connections =~= Seq::empty());
                assert(bv.reachable_timesync_sources =~= Seq::empty());
            }
            v.push(b);
            proof {
                assert(discovery::boards(v@) =~= discovery::boards(before).push(bv));
                assert(bare_boards(all.take(i + 1)) =~= bare_boards(all.take(i as int)).push(bv));
                assert(seq![own] + bare_boards(all.take(i as int)).push(bv) =~= (seq![own]
                    + bare_boards(all.take(i as int))).push(bv));
            }
            i = i + 1;
        }
        assert(all.take(i as int) =~= all);
        let mut told: Vec<TopologyBoardNode> = self.core.presence.boards_told(None, now);
        let ghost first = v@;
        let ghost tail = told@;
        v.append(&mut told);
        assert(discovery::boards(v@) =~= discovery::boards(first) + discovery::boards(tail));
        v
    }

    /// Whether a link is there and boards were heard of over it.
    pub open spec fn is_heard_over(self, side: int, now: u64) -> bool {
        self.core.sides@[side].alive && presence::names(
            self.core.presence@,
            Some(side as usize),
            now,
        ).len() > 0
    }

    /// The links that are there and over which boards were heard of, of the first `n`.
    pub open spec fn heard_list(self, n: nat, now: u64) -> Seq<usize>
        decreases n,
    {
        if n == 0 {
            Seq::empty()
        } else {
            let front = self.heard_list((n - 1) as nat, now);
            if self.is_heard_over(n - 1, now) {
                front.push((n - 1) as usize)
            } else {
                front
            }
        }
    }

    /// The links that are there and over which boards were heard of.
    pub fn heard_sides(&self, now: u64) -> (v: Vec<usize>)
        ensures
            v@ == self.heard_list(self.core.sides@.len(), now),
    {
        let mut v: Vec<usize> = Vec::new();
        let mut i: usize = 0;
        while i < self.core.sides.len()
            invariant
                i <= self.core.sides@.len(),
                v@ == self.heard_list(i as nat, now),
            decreases self.core.sides@.len() - i,
        {
            if self.core.sides[i].alive && self.core.presence.announcers(Some(i), now).len() > 0 {
                v.push(i);
            }
            i = i + 1;
        }
        v
    }

    /// The boards behind a link: the one that is heard, and those that were told of over the link.
    pub fn boards_behind(&self, side: usize, name: &str, now: u64) -> (v: Vec<TopologyBoardNode>)
        ensures
            discovery::boards(v@) == seq![bare_board(name@, Seq::empty())] + presence::told_boards(
                self.core.presence@,
                Some(side),
                now,
            ),
    {
        let mut v: Vec<TopologyBoardNode> = Vec::new();
        v.push(
            TopologyBoardNode {
                sender_id: name.to_owned(),
                reachable_endpoints: Vec::new(),
                reachable_timesync_sources: Vec::new(),
                connections: Vec::new(),
            },
        );
        assert(v@[0]@.connections =~= Seq::empty());
        assert(v@[0]@.reachable_timesync_sources =~= Seq::empty());
        assert(discovery::boards(v@) =~= seq![bare_board(name@, Seq::empty())]);
        let ghost first = v@;
        let mut told: Vec<TopologyBoardNode> = self.core.presence.boards_told(Some(side), now);
        let ghost tail = told@;
        v.append(&mut told);
        assert(discovery::boards(v@) =~= discovery::boards(first) + discovery::boards(tail));
        v
    }

    /// What the rules say of a type, for packets from one place that go over one link.
    pub fn typed_rule(&self, source: Option<usize>, ty: DataType, side: usize) -> (r: Option<bool>)
        ensures
            r == (if routes::fair_source(source) && side < MAX_SIDES {
                routes::said(
                    self.core.policy@.typed,
                    routes::typed_key(source, ty, side as int),
                )
            } else {
                None
            }),
    {
        let fair: bool = match source {
            Some(s) => s < MAX_SIDES,
            None => true,
        };
        if fair && side < MAX_SIDES {
            self.core.policy.typed_route(source, ty, side)
        } else {
            None
        }
    }

    /// How a link is chosen for packets from one place, where that is said.
    pub fn mode_rule(&self, source: Option<usize>) -> (r: Option<RouteSelectionMode>)
        ensures
            r == (if routes::fair_source(source) {
                routes::said(self.core.policy@.modes, routes::source_code(source))
            } else {
                None
            }),
    {
        let fair: bool = match source {
            Some(s) => s < MAX_SIDES,
            None => true,
        };
        if fair {
            self.core.policy.source_route_mode(source)
        } else {
            None
        }
    }
}

} // verus!
