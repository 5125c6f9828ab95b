//! Which links a packet takes.
use vstd::prelude::*;
use crate::assoc;
use crate::assoc::Assoc;
use crate::meta::DataType;

verus! {

/// How one link is chosen among several.
#[derive(Debug, Clone, Copy, PartialEq, Eq, Structural)]
pub enum RouteSelectionMode {
    /// All of them.
    Fanout,
    /// One after the other, in proportion to their weights.
    Weighted,
    /// The one with the lowest priority number.
    Failover,
    /// Of those that reach the most endpoints, one after the other.
    Balanced,
}

impl View for RouteSelectionMode {
    type V = RouteSelectionMode;

    open spec fn view(&self) -> RouteSelectionMode {
        *self
    }
}

/// The largest share of a link.
pub const MAX_SHARE: u8 = 4;

/// Links are numbered below this; so many do not fit the memory of a board.
pub const MAX_SIDES: usize = 0xFFFF_FFFF;

/// What routing needs to know of a link.
#[derive(Debug, Clone, Copy, PartialEq, Eq, Structural)]
pub struct SideFacts {
    pub alive: bool,
    pub egress: bool,
    pub link_local: bool,
    /// How often the link gets its turn, compared to others.
    pub share: u8,
}

/// What routing needs to know of a packet.
#[derive(Debug, Clone, Copy, PartialEq, Eq, Structural)]
pub struct RouteQuery {
    /// The link that it came over; none for a packet of this board.
    pub source: Option<usize>,
    pub ty: DataType,
    /// It may go over local links only.
    pub link_local: bool,
    /// It is to be delivered reliably.
    pub reliable: bool,
    /// Any board has been heard of.
    pub heard: bool,
    /// How a link is chosen where nothing else is said.
    pub default_mode: RouteSelectionMode,
}

/// The number of a source.
pub open spec fn source_code(source: Option<usize>) -> u128 {
    match source {
        None => 0,
        Some(s) => (s + 1) as u128,
    }
}

/// The key of a source and a link.
pub open spec fn route_key(source: Option<usize>, side: int) -> u128 {
    (source_code(source) * 0x1_0000_0000 + side) as u128
}

/// The key of a source, a message type and a link.
pub open spec fn typed_key(source: Option<usize>, ty: DataType, side: int) -> u128 {
    (ty * 0x1_0000_0000_0000_0000 + route_key(source, side)) as u128
}

/// Whether a source is a link that can exist.
pub open spec fn fair_source(source: Option<usize>) -> bool {
    source matches Some(s) ==> s < MAX_SIDES
}

proof fn lemma_two_parts(x: int, y: int, w: int, i: int, j: int)
    by (nonlinear_arith)
    requires
        0 <= i < w,
        0 <= j < w,
        x * w + i == y * w + j,
    ensures
        x == y,
        i == j,
{
}

/// Different sources and links have different keys.
pub proof fn lemma_route_keys_differ(a: Option<usize>, i: int, b: Option<usize>, j: int)
    requires
        fair_source(a),
        fair_source(b),
        0 <= i < MAX_SIDES,
        0 <= j < MAX_SIDES,
        route_key(a, i) == route_key(b, j),
    ensures
        a == b,
        i == j,
{
    lemma_two_parts(source_code(a) as int, source_code(b) as int, 0x1_0000_0000, i, j);
}

/// Different sources, types and links have different keys.
pub proof fn lemma_typed_keys_differ(
    a: Option<usize>,
    t: DataType,
    i: int,
    b: Option<usize>,
    u: DataType,
    j: int,
)
    requires
        fair_source(a),
        fair_source(b),
        0 <= i < MAX_SIDES,
        0 <= j < MAX_SIDES,
        typed_key(a, t, i) == typed_key(b, u, j),
    ensures
        a == b,
        t == u,
        i == j,
{
    assert(route_key(a, i) < 0x1_0000_0000_0000_0000 && route_key(b, j) < 0x1_0000_0000_0000_0000);
    lemma_two_parts(
        t as int,
        u as int,
        0x1_0000_0000_0000_0000,
        route_key(a, i) as int,
        route_key(b, j) as int,
    );
    lemma_route_keys_differ(a, i, b, j);
}

/// Rules, modes, weights and priorities, as a value.
pub struct PolicySpec {
    pub rules: Map<u128, bool>,
    pub typed: Map<u128, bool>,
    pub modes: Map<u128, RouteSelectionMode>,
    pub weights: Map<u128, u32>,
    pub priorities: Map<u128, u32>,
    /// How often a link was chosen for a source.
    pub picks: Map<u128, u64>,
}

/// The value of `k`, or `d` where there is none.
pub open spec fn value_or<V>(m: Map<u128, V>, k: u128, d: V) -> V {
    if m.contains_key(k) {
        m[k]
    } else {
        d
    }
}

/// What is said of other links than `side`.
pub open spec fn without_side<V>(m: Map<u128, V>, side: usize) -> Map<u128, V> {
    m.remove_keys(assoc::part_keys(side as u128, false)).remove_keys(
        assoc::part_keys(source_code(Some(side)), true),
    )
}

/// Nothing is left of what was said of a link that went, and all that was said of others.
pub proof fn lemma_without_side<V>(
    m: Map<u128, V>,
    side: usize,
    source: Option<usize>,
    ty: DataType,
    to: usize,
)
    requires
        side < MAX_SIDES,
        to < MAX_SIDES,
        fair_source(source),
    ensures
        to == side || source == Some(side) ==> {
            &&& !without_side(m, side).contains_key(route_key(source, to as int))
            &&& !without_side(m, side).contains_key(typed_key(source, ty, to as int))
        },
        to != side && source != Some(side) ==> {
            &&& without_side(m, side).contains_key(route_key(source, to as int))
                == m.contains_key(route_key(source, to as int))
            &&& without_side(m, side).contains_key(typed_key(source, ty, to as int))
                == m.contains_key(typed_key(source, ty, to as int))
        },
{
    let c = source_code(source);
    let r = route_key(source, to as int);
    let t = typed_key(source, ty, to as int);
    assert(r == c * 0x1_0000_0000 + to);
    assert(t == ty * 0x1_0000_0000_0000_0000 + c * 0x1_0000_0000 + to);
    let w: int = 0x1_0000_0000;
    vstd::arithmetic::div_mod::lemma_fundamental_div_mod_converse(r as int, w, c as int, to as int);
    vstd::arithmetic::div_mod::lemma_fundamental_div_mod_converse(c as int, w, 0, c as int);
    vstd::arithmetic::div_mod::lemma_fundamental_div_mod_converse(t as int, w, ty * w + c, to as int);
    vstd::arithmetic::div_mod::lemma_fundamental_div_mod_converse(ty * w + c, w, ty as int, c as int);
    assert(assoc::names_part(r, side as u128, false) == (to == side));
    assert(assoc::names_part(r, source_code(Some(side)), true) == (source == Some(side)));
    assert(assoc::names_part(t, side as u128, false) == (to == side));
    assert(assoc::names_part(t, source_code(Some(side)), true) == (source == Some(side)));
}

impl PolicySpec {
    /// No rules at all.
    pub open spec fn none() -> PolicySpec {
        PolicySpec {
            rules: Map::empty(),
            typed: Map::empty(),
            modes: Map::empty(),
            weights: Map::empty(),
            priorities: Map::empty(),
            picks: Map::empty(),
        }
    }

    /// Whether a rule says `yes` of a source and a link.
    pub open spec fn says(self, source: Option<usize>, side: int, yes: bool) -> bool {
        self.rules.contains_key(route_key(source, side)) && self.rules[route_key(source, side)]
            == yes
    }

    /// Whether a rule says `yes` of a source, a message type and a link.
    pub open spec fn says_typed(self, source: Option<usize>, ty: DataType, side: int, yes: bool) -> bool {
        self.typed.contains_key(typed_key(source, ty, side)) && self.typed[typed_key(
            source,
            ty,
            side,
        )] == yes
    }

    /// What is left when a link goes.
    pub open spec fn without(self, side: usize) -> PolicySpec {
        PolicySpec {
            rules: without_side(self.rules, side),
            typed: without_side(self.typed, side),
            modes: self.modes.remove(source_code(Some(side))),
            weights: without_side(self.weights, side),
            priorities: without_side(self.priorities, side),
            picks: self.picks.remove(source_code(Some(side))),
        }
    }

    /// Whether a packet may take a link at all.
    pub open spec fn allowed(self, sides: Seq<SideFacts>, q: RouteQuery, side: int) -> bool {
        &&& 0 <= side < sides.len()
        &&& sides[side].alive
        &&& sides[side].egress
        &&& q.source != Some(side as usize)
        &&& !self.says(q.source, side, false)
        &&& !self.says_typed(q.source, q.ty, side, false)
        &&& q.link_local ==> sides[side].link_local
    }

    /// Whether a rule names links for packets of this source and type.
    pub open spec fn named(self, q: RouteQuery, n: int) -> bool {
        exists|side: int| 0 <= side < n && #[trigger] self.says_typed(q.source, q.ty, side, true)
    }

    /// How many of the first `n` links a packet may take.
    pub open spec fn allowed_count(self, sides: Seq<SideFacts>, q: RouteQuery, n: nat) -> nat
        decreases n,
    {
        if n == 0 {
            0
        } else {
            self.allowed_count(sides, q, (n - 1) as nat) + (if self.allowed(sides, q, n - 1) {
                1nat
            } else {
                0nat
            })
        }
    }

    /// Whether a packet is meant for a link: a rule names it; or, where no rule names any, a rule
    /// opens it, or it leads to an endpoint of the packet; or, while no board has been heard of,
    /// it is the only one.
    pub open spec fn meant(
        self,
        sides: Seq<SideFacts>,
        overlaps: Seq<usize>,
        q: RouteQuery,
        side: int,
    ) -> bool {
        &&& self.allowed(sides, q, side)
        &&& if self.named(q, sides.len() as int) {
            self.says_typed(q.source, q.ty, side, true)
        } else {
            self.says(q.source, side, true) || (if q.heard {
                overlaps[side] > 0
            } else {
                self.allowed_count(sides, q, sides.len()) == 1
            })
        }
    }

    /// The links below `n` that a packet is meant for, in ascending order.
    pub open spec fn pool(
        self,
        sides: Seq<SideFacts>,
        overlaps: Seq<usize>,
        q: RouteQuery,
        n: nat,
    ) -> Seq<usize>
        decreases n,
    {
        if n == 0 {
            Seq::<usize>::empty()
        } else {
            let front = self.pool(sides, overlaps, q, (n - 1) as nat);
            if self.meant(sides, overlaps, q, n - 1) {
                front.push((n - 1) as usize)
            } else {
                front
            }
        }
    }

    /// How a link is chosen. A reliable packet of this board takes one link, unless a rule names
    /// several.
    pub open spec fn mode(self, q: RouteQuery, n: int) -> RouteSelectionMode {
        let m = value_or(self.modes, source_code(q.source), q.default_mode);
        if m == RouteSelectionMode::Fanout && q.reliable && q.source is None && q.default_mode
            == RouteSelectionMode::Balanced && !self.named(q, n) {
            RouteSelectionMode::Balanced
        } else {
            m
        }
    }

    pub open spec fn weight(self, source: Option<usize>, side: usize) -> u32 {
        value_or(self.weights, route_key(source, side as int), 1)
    }

    pub open spec fn priority(self, source: Option<usize>, side: usize) -> u32 {
        value_or(self.priorities, route_key(source, side as int), 0)
    }

    /// The weights of links together.
    pub open spec fn weight_sum(self, source: Option<usize>, pool: Seq<usize>) -> nat
        decreases pool.len(),
    {
        if pool.len() == 0 {
            0
        } else {
            self.weight_sum(source, pool.drop_last()) + self.weight(source, pool.last()) as nat
        }
    }

    /// The link whose share of the weights holds the number `at`, where the links' shares lie one
    /// behind the other.
    pub open spec fn at_weight(self, source: Option<usize>, pool: Seq<usize>, at: nat) -> usize
        decreases pool.len(),
    {
        if pool.len() <= 1 {
            pool[0]
        } else if at >= self.weight_sum(source, pool.drop_last()) {
            pool.last()
        } else {
            self.at_weight(source, pool.drop_last(), at)
        }
    }

    /// The first link with the lowest priority number.
    pub open spec fn first_priority(self, source: Option<usize>, pool: Seq<usize>) -> usize
        decreases pool.len(),
    {
        if pool.len() <= 1 {
            pool[0]
        } else {
            let best = self.first_priority(source, pool.drop_last());
            if self.priority(source, pool.last()) < self.priority(source, best) {
                pool.last()
            } else {
                best
            }
        }
    }

    pub open spec fn pick_count(self, source: Option<usize>) -> u64 {
        value_or(self.picks, source_code(source), 0)
    }

    /// The links that a packet takes.
    pub open spec fn chosen(
        self,
        sides: Seq<SideFacts>,
        overlaps: Seq<usize>,
        q: RouteQuery,
    ) -> Seq<usize> {
        let pool = self.pool(sides, overlaps, q, sides.len());
        let n = self.pick_count(q.source);
        if pool.len() == 0 {
            pool
        } else {
            match self.mode(q, sides.len() as int) {
                RouteSelectionMode::Fanout => pool,
                RouteSelectionMode::Weighted => {
                    let sum = self.weight_sum(q.source, pool);
                    if sum == 0 {
                        seq![pool[0]]
                    } else {
                        seq![self.at_weight(q.source, pool, (n as nat) % sum)]
                    }
                },
                RouteSelectionMode::Failover => seq![self.first_priority(q.source, pool)],
                RouteSelectionMode::Balanced => {
                    let line = slots(sides, widest(overlaps, pool), MAX_SHARE as nat);
                    seq![line[n as int % line.len() as int]]
                },
            }
        }
    }

    /// The rules after a packet took its links.
    pub open spec fn after_choice(
        self,
        sides: Seq<SideFacts>,
        overlaps: Seq<usize>,
        q: RouteQuery,
    ) -> PolicySpec {
        let m = self.mode(q, sides.len() as int);
        if self.pool(sides, overlaps, q, sides.len()).len() > 0 && (m
            == RouteSelectionMode::Weighted || m == RouteSelectionMode::Balanced) {
            PolicySpec {
                picks: self.picks.insert(
                    source_code(q.source),
                    self.pick_count(q.source).wrapping_add(1),
                ),
                ..self
            }
        } else {
            self
        }
    }
}

/// Whether a link has a turn in a round.
pub open spec fn has_turn(sides: Seq<SideFacts>, round: nat) -> spec_fn(usize) -> bool {
    |s: usize| round <= 1 || sides[s as int].share >= round
}

/// The turns of links in so many rounds: all have one in the first, and in each further round
/// those whose share is large enough.
pub open spec fn slots(sides: Seq<SideFacts>, pool: Seq<usize>, rounds: nat) -> Seq<usize>
    decreases rounds,
{
    if rounds == 0 {
        Seq::empty()
    } else {
        slots(sides, pool, (rounds - 1) as nat) + pool.filter(has_turn(sides, rounds))
    }
}

proof fn lemma_all_have_a_turn(sides: Seq<SideFacts>, pool: Seq<usize>)
    ensures
        pool.filter(has_turn(sides, 1)) == pool,
    decreases pool.len(),
{
    reveal(Seq::filter);
    if pool.len() > 0 {
        lemma_all_have_a_turn(sides, pool.drop_last());
        assert(pool.drop_last().push(pool.last()) =~= pool);
    } else {
        assert(pool.filter(has_turn(sides, 1)) =~= pool);
    }
}

proof fn lemma_slots(sides: Seq<SideFacts>, pool: Seq<usize>, rounds: nat)
    ensures
        forall|i: int|
            0 <= i < slots(sides, pool, rounds).len() ==> pool.contains(
                #[trigger] slots(sides, pool, rounds)[i],
            ),
        rounds > 0 ==> slots(sides, pool, rounds).len() >= pool.len(),
        slots(sides, pool, rounds).len() <= rounds * pool.len(),
    decreases rounds,
{
    if rounds > 0 {
        let front = slots(sides, pool, (rounds - 1) as nat);
        let more = pool.filter(has_turn(sides, rounds));
        let all = slots(sides, pool, rounds);
        lemma_slots(sides, pool, (rounds - 1) as nat);
        lemma_all_have_a_turn(sides, pool);
        lemma_filter_len(pool, has_turn(sides, rounds));
        assert forall|i: int| 0 <= i < all.len() implies pool.contains(#[trigger] all[i]) by {
            if i < front.len() {
                assert(all[i] == front[i]);
            } else {
                assert(all[i] == more[i - front.len()]);
            }
        }
        assert(rounds * pool.len() == (rounds - 1) * pool.len() + pool.len())
            by (nonlinear_arith);
    }
}

proof fn lemma_filter_len(pool: Seq<usize>, keep: spec_fn(usize) -> bool)
    ensures
        pool.filter(keep).len() <= pool.len(),
        forall|i: int|
            0 <= i < pool.filter(keep).len() ==> pool.contains(#[trigger] pool.filter(keep)[i]),
    decreases pool.len(),
{
    reveal(Seq::filter);
    if pool.len() > 0 {
        let rest = pool.drop_last();
        lemma_filter_len(rest, keep);
        let all = pool.filter(keep);
        assert forall|i: int| 0 <= i < all.len() implies pool.contains(#[trigger] all[i]) by {
            if i < rest.filter(keep).len() {
                assert(rest.contains(rest.filter(keep)[i]));
                let k = choose|k: int| 0 <= k < rest.len() && rest[k] == rest.filter(keep)[i];
                assert(pool[k] == all[i]);
            } else {
                assert(pool[pool.len() - 1] == all[i]);
            }
        }
    }
}

fn slots_of(sides: &[SideFacts], pool: &Vec<usize>) -> (line: Vec<usize>)
    requires
        forall|i: int| 0 <= i < pool@.len() ==> #[trigger] pool@[i] < sides@.len(),
    ensures
        line@ == slots(sides@, pool@, MAX_SHARE as nat),
{
    let mut line: Vec<usize> = Vec::new();
    let mut round: u8 = 0;
    while round < MAX_SHARE
        invariant
            round <= MAX_SHARE,
            forall|i: int| 0 <= i < pool@.len() ==> #[trigger] pool@[i] < sides@.len(),
            line@ == slots(sides@, pool@, round as nat),
        decreases MAX_SHARE - round,
    {
        let ghost front = line@;
        let ghost keep = has_turn(sides@, (round + 1) as nat);
        let mut i: usize = 0;
        proof {
            reveal(Seq::filter);
            assert(pool@.take(0).filter(keep) =~= Seq::<usize>::empty());
            assert(front + pool@.take(0).filter(keep) =~= front);
        }
        while i < pool.len()
            invariant
                round < MAX_SHARE,
                i <= pool@.len(),
                forall|k: int| 0 <= k < pool@.len() ==> #[trigger] pool@[k] < sides@.len(),
                keep == has_turn(sides@, (round + 1) as nat),
                line@ == front + pool@.take(i as int).filter(keep),
            decreases pool@.len() - i,
        {
            proof {
                assert(pool@.take(i + 1) =~= pool@.take(i as int).push(pool@[i as int]));
                pool@.take(i as int).lemma_filter_push(pool@[i as int], keep);
                assert(pool@[i as int] < sides@.len());
            }
            if round == 0 || sides[pool[i]].share >= round + 1 {
                let ghost before = line@;
                line.push(pool[i]);
                assert(line@ =~= front + pool@.take(i as int).filter(keep).push(pool@[i as int]));
            }
            i = i + 1;
        }
        assert(pool@.take(i as int) =~= pool@);
        round = round + 1;
    }
    line
}

/// The greatest overlap of the links in `pool`.
pub open spec fn widest_overlap(overlaps: Seq<usize>, pool: Seq<usize>) -> nat
    decreases pool.len(),
{
    if pool.len() == 0 {
        0
    } else {
        let rest = widest_overlap(overlaps, pool.drop_last());
        let last = overlaps[pool.last() as int] as nat;
        if last > rest {
            last
        } else {
            rest
        }
    }
}

/// The links in `pool` with the greatest overlap.
pub open spec fn widest(overlaps: Seq<usize>, pool: Seq<usize>) -> Seq<usize> {
    pool.filter(|s: usize| overlaps[s as int] as nat == widest_overlap(overlaps, pool))
}

proof fn lemma_pool_in_range(
    p: PolicySpec,
    sides: Seq<SideFacts>,
    overlaps: Seq<usize>,
    q: RouteQuery,
    n: nat,
)
    requires
        n <= sides.len() <= MAX_SIDES,
    ensures
        forall|i: int|
            0 <= i < p.pool(sides, overlaps, q, n).len() ==> {
                let s = #[trigger] p.pool(sides, overlaps, q, n)[i];
                s < n && p.meant(sides, overlaps, q, s as int)
            },
        p.pool(sides, overlaps, q, n).len() <= n,
    decreases n,
{
    if n > 0 {
        lemma_pool_in_range(p, sides, overlaps, q, (n - 1) as nat);
        let front = p.pool(sides, overlaps, q, (n - 1) as nat);
        let all = p.pool(sides, overlaps, q, n);
        assert forall|i: int| 0 <= i < all.len() implies {
            let s = #[trigger] all[i];
            s < n && p.meant(sides, overlaps, q, s as int)
        } by {
            if i < front.len() {
                assert(all[i] == front[i]);
            }
        }
    }
}

proof fn lemma_widest_exists(overlaps: Seq<usize>, pool: Seq<usize>)
    requires
        pool.len() > 0,
    ensures
        exists|i: int|
            0 <= i < pool.len() && overlaps[#[trigger] pool[i] as int] as nat == widest_overlap(
                overlaps,
                pool,
            ),
    decreases pool.len(),
{
    let rest = pool.drop_last();
    assert(pool[pool.len() - 1] == pool.last());
    if rest.len() > 0 {
        lemma_widest_exists(overlaps, rest);
        let i = choose|i: int|
            0 <= i < rest.len() && overlaps[#[trigger] rest[i] as int] as nat == widest_overlap(
                overlaps,
                rest,
            );
        assert(pool[i] == rest[i]);
    } else {
        assert(widest_overlap(overlaps, rest) == 0);
    }
}

proof fn lemma_widest_not_empty(overlaps: Seq<usize>, pool: Seq<usize>)
    requires
        pool.len() > 0,
    ensures
        widest(overlaps, pool).len() > 0,
        forall|i: int|
            0 <= i < widest(overlaps, pool).len() ==> pool.contains(
                #[trigger] widest(overlaps, pool)[i],
            ),
{
    let pred = |s: usize| overlaps[s as int] as nat == widest_overlap(overlaps, pool);
    lemma_widest_exists(overlaps, pool);
    let i = choose|i: int|
        0 <= i < pool.len() && overlaps[#[trigger] pool[i] as int] as nat == widest_overlap(
            overlaps,
            pool,
        );
    pool.lemma_filter_contains(pred, i);
    assert forall|k: int| 0 <= k < widest(overlaps, pool).len() implies pool.contains(
        #[trigger] widest(overlaps, pool)[k],
    ) by {
        pool.lemma_filter_contains_rev(pred, widest(overlaps, pool)[k]);
    }
}

proof fn lemma_at_weight_member(
    p: PolicySpec,
    source: Option<usize>,
    pool: Seq<usize>,
    at: nat,
)
    requires
        pool.len() > 0,
    ensures
        pool.contains(p.at_weight(source, pool, at)),
    decreases pool.len(),
{
    if pool.len() > 1 {
        lemma_at_weight_member(p, source, pool.drop_last(), at);
        let x = p.at_weight(source, pool.drop_last(), at);
        let i = choose|i: int| 0 <= i < pool.drop_last().len() && pool.drop_last()[i] == x;
        assert(pool[i] == x);
        assert(pool[pool.len() - 1] == pool.last());
    } else {
        assert(pool[0] == p.at_weight(source, pool, at));
    }
}

proof fn lemma_first_priority_member(p: PolicySpec, source: Option<usize>, pool: Seq<usize>)
    requires
        pool.len() > 0,
    ensures
        pool.contains(p.first_priority(source, pool)),
        forall|i: int|
            0 <= i < pool.len() ==> p.priority(source, p.first_priority(source, pool))
                <= p.priority(source, #[trigger] pool[i]),
    decreases pool.len(),
{
    if pool.len() > 1 {
        let rest = pool.drop_last();
        lemma_first_priority_member(p, source, rest);
        let x = p.first_priority(source, rest);
        let i = choose|i: int| 0 <= i < rest.len() && rest[i] == x;
        assert(pool[i] == x);
        assert(pool[pool.len() - 1] == pool.last());
        assert forall|i: int| 0 <= i < pool.len() implies p.priority(
            source,
            p.first_priority(source, pool),
        ) <= p.priority(source, #[trigger] pool[i]) by {
            if i < rest.len() {
                assert(rest[i] == pool[i]);
            }
        }
    } else {
        assert(pool[0] == p.first_priority(source, pool));
    }
}

/// A packet takes only links that it is meant for: never the one that it came over, never one
/// that is gone or closed.
pub proof fn lemma_chosen_are_meant(
    p: PolicySpec,
    sides: Seq<SideFacts>,
    overlaps: Seq<usize>,
    q: RouteQuery,
    i: int,
)
    requires
        sides.len() <= MAX_SIDES,
        0 <= i < p.chosen(sides, overlaps, q).len(),
    ensures
        p.meant(sides, overlaps, q, p.chosen(sides, overlaps, q)[i] as int),
        p.chosen(sides, overlaps, q)[i] < sides.len(),
        q.source != Some(p.chosen(sides, overlaps, q)[i]),
{
    let pool = p.pool(sides, overlaps, q, sides.len());
    lemma_pool_in_range(p, sides, overlaps, q, sides.len());
    lemma_at_weight_member(
        p,
        q.source,
        pool,
        (p.pick_count(q.source) as nat) % p.weight_sum(q.source, pool),
    );
    lemma_first_priority_member(p, q.source, pool);
    lemma_widest_not_empty(overlaps, pool);
    let best = widest(overlaps, pool);
    lemma_slots(sides, best, MAX_SHARE as nat);
    let line = slots(sides, best, MAX_SHARE as nat);
    let n = p.pick_count(q.source) as int;
    assert(0 <= n % (line.len() as int) < line.len()) by (nonlinear_arith)
        requires
            n >= 0,
            line.len() > 0,
    ;
    let x = p.chosen(sides, overlaps, q)[i];
    assert(pool.contains(x)) by {
        match p.mode(q, sides.len() as int) {
            RouteSelectionMode::Balanced => {
                let y = line[n % (line.len() as int)];
                assert(best.contains(y));
                let k = choose|k: int| 0 <= k < best.len() && best[k] == y;
                assert(pool.contains(best[k]));
            },
            _ => {},
        }
    }
    let k = choose|k: int| 0 <= k < pool.len() && pool[k] == x;
    assert(p.meant(sides, overlaps, q, pool[k] as int));
}

proof fn lemma_meant_is_in_pool(
    p: PolicySpec,
    sides: Seq<SideFacts>,
    overlaps: Seq<usize>,
    q: RouteQuery,
    side: int,
    n: nat,
)
    requires
        0 <= side < n,
        p.meant(sides, overlaps, q, side),
    ensures
        p.pool(sides, overlaps, q, n).len() > 0,
    decreases n,
{
    if side < n - 1 {
        lemma_meant_is_in_pool(p, sides, overlaps, q, side, (n - 1) as nat);
    }
}

/// Where a packet is meant for some link, it takes one.
pub proof fn lemma_meant_is_chosen(
    p: PolicySpec,
    sides: Seq<SideFacts>,
    overlaps: Seq<usize>,
    q: RouteQuery,
    side: int,
)
    requires
        0 <= side < sides.len(),
        p.meant(sides, overlaps, q, side),
    ensures
        p.chosen(sides, overlaps, q).len() > 0,
{
    lemma_meant_is_in_pool(p, sides, overlaps, q, side, sides.len());
}

/// What a map holds under a key.
pub open spec fn said<T>(m: Map<u128, T>, key: u128) -> Option<T> {
    if m.contains_key(key) {
        Some(m[key])
    } else {
        None
    }
}

/// Rules, modes, weights and priorities.
pub struct RoutePolicy {
    rules: Assoc<bool>,
    typed: Assoc<bool>,
    modes: Assoc<RouteSelectionMode>,
    weights: Assoc<u32>,
    priorities: Assoc<u32>,
    picks: Assoc<u64>,
}

impl View for RoutePolicy {
    type V = PolicySpec;

    closed spec fn view(&self) -> PolicySpec {
        PolicySpec {
            rules: self.rules@,
            typed: self.typed@,
            modes: self.modes@,
            weights: self.weights@,
            priorities: self.priorities@,
            picks: self.picks@,
        }
    }
}

fn key_of_source(source: Option<usize>) -> (k: u128)
    requires
        fair_source(source),
    ensures
        k == source_code(source),
        k <= MAX_SIDES,
{
    match source {
        None => 0,
        Some(s) => s as u128 + 1,
    }
}

fn key_of_route(source: Option<usize>, side: usize) -> (k: u128)
    requires
        fair_source(source),
        side < MAX_SIDES,
    ensures
        k == route_key(source, side as int),
        k < 0x1_0000_0000_0000_0000,
{
    key_of_source(source) * 0x1_0000_0000 + side as u128
}

fn key_of_typed(source: Option<usize>, ty: DataType, side: usize) -> (k: u128)
    requires
        fair_source(source),
        side < MAX_SIDES,
    ensures
        k == typed_key(source, ty, side as int),
{
    ty as u128 * 0x1_0000_0000_0000_0000 + key_of_route(source, side)
}

impl RoutePolicy {
    /// No rules at all.
    pub fn new() -> (r: RoutePolicy)
        ensures
            r@ == PolicySpec::none(),
    {
        RoutePolicy {
            rules: Assoc::new(),
            typed: Assoc::new(),
            modes: Assoc::new(),
            weights: Assoc::new(),
            priorities: Assoc::new(),
            picks: Assoc::new(),
        }
    }

    /// What was said of a link for a source.
    pub fn route(&self, source: Option<usize>, side: usize) -> (r: Option<bool>)
        requires
            fair_source(source),
            side < MAX_SIDES,
        ensures
            r == said(self@.rules, route_key(source, side as int)),
    {
        match self.rules.get(key_of_route(source, side)) {
            Some(x) => Some(*x),
            None => None,
        }
    }

    /// What was said of a link for a message type of a source.
    pub fn typed_route(&self, source: Option<usize>, ty: DataType, side: usize) -> (r: Option<bool>)
        requires
            fair_source(source),
            side < MAX_SIDES,
        ensures
            r == said(self@.typed, typed_key(source, ty, side as int)),
    {
        match self.typed.get(key_of_typed(source, ty, side)) {
            Some(x) => Some(*x),
            None => None,
        }
    }

    /// How links are chosen for a source, where it was said.
    pub fn source_route_mode(&self, source: Option<usize>) -> (r: Option<RouteSelectionMode>)
        requires
            fair_source(source),
        ensures
            r == said(self@.modes, source_code(source)),
    {
        match self.modes.get(key_of_source(source)) {
            Some(x) => Some(*x),
            None => None,
        }
    }

    /// The weight of a link for a source, where it was said.
    pub fn route_weight(&self, source: Option<usize>, side: usize) -> (r: Option<u32>)
        requires
            fair_source(source),
            side < MAX_SIDES,
        ensures
            r == said(self@.weights, route_key(source, side as int)),
    {
        match self.weights.get(key_of_route(source, side)) {
            Some(x) => Some(*x),
            None => None,
        }
    }

    /// The priority of a link for a source, where it was said.
    pub fn route_priority(&self, source: Option<usize>, side: usize) -> (r: Option<u32>)
        requires
            fair_source(source),
            side < MAX_SIDES,
        ensures
            r == said(self@.priorities, route_key(source, side as int)),
    {
        match self.priorities.get(key_of_route(source, side)) {
            Some(x) => Some(*x),
            None => None,
        }
    }

    /// Opens or closes a link for a source.
    pub fn set_route(&mut self, source: Option<usize>, side: usize, enabled: bool)
        requires
            fair_source(source),
            side < MAX_SIDES,
        ensures
            final(self)@ == (PolicySpec {
                rules: old(self)@.rules.insert(route_key(source, side as int), enabled),
                ..old(self)@
            }),
    {
        self.rules.put(key_of_route(source, side), enabled);
    }

    /// Forgets whether a link is open for a source.
    pub fn clear_route(&mut self, source: Option<usize>, side: usize)
        requires
            fair_source(source),
            side < MAX_SIDES,
        ensures
            final(self)@ == (PolicySpec {
                rules: old(self)@.rules.remove(route_key(source, side as int)),
                ..old(self)@
            }),
    {
        let _ = self.rules.remove(key_of_route(source, side));
    }

    /// Names or closes a link for a message type of a source.
    pub fn set_typed_route(
        &mut self,
        source: Option<usize>,
        ty: DataType,
        side: usize,
        enabled: bool,
    )
        requires
            fair_source(source),
            side < MAX_SIDES,
        ensures
            final(self)@ == (PolicySpec {
                typed: old(self)@.typed.insert(typed_key(source, ty, side as int), enabled),
                ..old(self)@
            }),
    {
        self.typed.put(key_of_typed(source, ty, side), enabled);
    }

    /// Forgets what was said of a link for a message type of a source.
    pub fn clear_typed_route(&mut self, source: Option<usize>, ty: DataType, side: usize)
        requires
            fair_source(source),
            side < MAX_SIDES,
        ensures
            final(self)@ == (PolicySpec {
                typed: old(self)@.typed.remove(typed_key(source, ty, side as int)),
                ..old(self)@
            }),
    {
        let _ = self.typed.remove(key_of_typed(source, ty, side));
    }

    /// Says how links are chosen for a source.
    pub fn set_source_route_mode(&mut self, source: Option<usize>, mode: RouteSelectionMode)
        requires
            fair_source(source),
        ensures
            final(self)@ == (PolicySpec {
                modes: old(self)@.modes.insert(source_code(source), mode),
                ..old(self)@
            }),
    {
        self.modes.put(key_of_source(source), mode);
    }

    /// Forgets how links are chosen for a source.
    pub fn clear_source_route_mode(&mut self, source: Option<usize>)
        requires
            fair_source(source),
        ensures
            final(self)@ == (PolicySpec {
                modes: old(self)@.modes.remove(source_code(source)),
                ..old(self)@
            }),
    {
        let _ = self.modes.remove(key_of_source(source));
    }

    pub fn set_route_weight(&mut self, source: Option<usize>, side: usize, weight: u32)
        requires
            fair_source(source),
            side < MAX_SIDES,
        ensures
            final(self)@ == (PolicySpec {
                weights: old(self)@.weights.insert(route_key(source, side as int), weight),
                ..old(self)@
            }),
    {
        self.weights.put(key_of_route(source, side), weight);
    }

    pub fn clear_route_weight(&mut self, source: Option<usize>, side: usize)
        requires
            fair_source(source),
            side < MAX_SIDES,
        ensures
            final(self)@ == (PolicySpec {
                weights: old(self)@.weights.remove(route_key(source, side as int)),
                ..old(self)@
            }),
    {
        let _ = self.weights.remove(key_of_route(source, side));
    }

    pub fn set_route_priority(&mut self, source: Option<usize>, side: usize, priority: u32)
        requires
            fair_source(source),
            side < MAX_SIDES,
        ensures
            final(self)@ == (PolicySpec {
                priorities: old(self)@.priorities.insert(route_key(source, side as int), priority),
                ..old(self)@
            }),
    {
        self.priorities.put(key_of_route(source, side), priority);
    }

    pub fn clear_route_priority(&mut self, source: Option<usize>, side: usize)
        requires
            fair_source(source),
            side < MAX_SIDES,
        ensures
            final(self)@ == (PolicySpec {
                priorities: old(self)@.priorities.remove(route_key(source, side as int)),
                ..old(self)@
            }),
    {
        let _ = self.priorities.remove(key_of_route(source, side));
    }

    /// Forgets all that was said of a link, as a source or as a way.
    pub fn forget_side(&mut self, side: usize)
        requires
            side < MAX_SIDES,
        ensures
            final(self)@ == old(self)@.without(side),
    {
        let low: u128 = side as u128;
        let code: u128 = key_of_source(Some(side));
        self.rules.drop_part(low, false);
        self.rules.drop_part(code, true);
        self.typed.drop_part(low, false);
        self.typed.drop_part(code, true);
        self.weights.drop_part(low, false);
        self.weights.drop_part(code, true);
        self.priorities.drop_part(low, false);
        self.priorities.drop_part(code, true);
        let _ = self.modes.remove(code);
        let _ = self.picks.remove(code);
    }

    fn says_of(&self, source: Option<usize>, side: usize, yes: bool) -> (b: bool)
        requires
            fair_source(source),
            side < MAX_SIDES,
        ensures
            b == self@.says(source, side as int, yes),
    {
        match self.rules.get(key_of_route(source, side)) {
            Some(v) => *v == yes,
            None => false,
        }
    }

    fn says_typed_of(&self, source: Option<usize>, ty: DataType, side: usize, yes: bool) -> (b: bool)
        requires
            fair_source(source),
            side < MAX_SIDES,
        ensures
            b == self@.says_typed(source, ty, side as int, yes),
    {
        match self.typed.get(key_of_typed(source, ty, side)) {
            Some(v) => *v == yes,
            None => false,
        }
    }

    fn allowed_of(&self, sides: &[SideFacts], q: RouteQuery, side: usize) -> (b: bool)
        requires
            fair_source(q.source),
            side < sides@.len() <= MAX_SIDES,
        ensures
            b == self@.allowed(sides@, q, side as int),
    {
        let f: SideFacts = sides[side];
        let back: bool = match q.source {
            Some(s) => s == side,
            None => false,
        };
        f.alive && f.egress && !back && !self.says_of(q.source, side, false)
            && !self.says_typed_of(q.source, q.ty, side, false) && (!q.link_local || f.link_local)
    }

    fn named_of(&self, q: RouteQuery, n: usize) -> (b: bool)
        requires
            fair_source(q.source),
            n <= MAX_SIDES,
        ensures
            b == self@.named(q, n as int),
    {
        let mut i: usize = 0;
        while i < n
            invariant
                i <= n <= MAX_SIDES,
                fair_source(q.source),
                forall|side: int|
                    0 <= side < i ==> !(#[trigger] self@.says_typed(q.source, q.ty, side, true)),
            decreases n - i,
        {
            if self.says_typed_of(q.source, q.ty, i, true) {
                return true;
            }
            i = i + 1;
        }
        false
    }

    fn pool_of(&self, sides: &[SideFacts], overlaps: &[usize], q: RouteQuery) -> (pool: Vec<usize>)
        requires
            fair_source(q.source),
            sides@.len() <= MAX_SIDES,
            overlaps@.len() == sides@.len(),
        ensures
            pool@ == self@.pool(sides@, overlaps@, q, sides@.len()),
    {
        let named: bool = self.named_of(q, sides.len());
        let mut count: usize = 0;
        let mut i: usize = 0;
        while i < sides.len()
            invariant
                i <= sides@.len() <= MAX_SIDES,
                fair_source(q.source),
                count == self@.allowed_count(sides@, q, i as nat),
                count <= i,
            decreases sides@.len() - i,
        {
            if self.allowed_of(sides, q, i) {
                count = count + 1;
            }
            i = i + 1;
        }
        let mut pool: Vec<usize> = Vec::new();
        let mut k: usize = 0;
        while k < sides.len()
            invariant
                k <= sides@.len() <= MAX_SIDES,
                fair_source(q.source),
                overlaps@.len() == sides@.len(),
                named == self@.named(q, sides@.len() as int),
                count == self@.allowed_count(sides@, q, sides@.len()),
                pool@ == self@.pool(sides@, overlaps@, q, k as nat),
            decreases sides@.len() - k,
        {
            let open: bool = if named {
                self.says_typed_of(q.source, q.ty, k, true)
            } else {
                self.says_of(q.source, k, true) || (if q.heard {
                    overlaps[k] > 0
                } else {
                    count == 1
                })
            };
            if open && self.allowed_of(sides, q, k) {
                pool.push(k);
            }
            k = k + 1;
        }
        pool
    }

    fn mode_of(&self, q: RouteQuery, n: usize) -> (m: RouteSelectionMode)
        requires
            fair_source(q.source),
            n <= MAX_SIDES,
        ensures
            m == self@.mode(q, n as int),
    {
        let m: RouteSelectionMode = match self.modes.get(key_of_source(q.source)) {
            Some(m) => *m,
            None => q.default_mode,
        };
        if m == RouteSelectionMode::Fanout && q.reliable && q.source.is_none() && q.default_mode
            == RouteSelectionMode::Balanced && !self.named_of(q, n) {
            RouteSelectionMode::Balanced
        } else {
            m
        }
    }

    fn weight_of(&self, source: Option<usize>, side: usize) -> (w: u32)
        requires
            fair_source(source),
            side < MAX_SIDES,
        ensures
            w == self@.weight(source, side),
    {
        match self.weights.get(key_of_route(source, side)) {
            Some(w) => *w,
            None => 1,
        }
    }

    fn priority_of(&self, source: Option<usize>, side: usize) -> (p: u32)
        requires
            fair_source(source),
            side < MAX_SIDES,
        ensures
            p == self@.priority(source, side),
    {
        match self.priorities.get(key_of_route(source, side)) {
            Some(p) => *p,
            None => 0,
        }
    }

    fn weight_sum_of(&self, source: Option<usize>, pool: &Vec<usize>, n: usize) -> (w: u64)
        requires
            fair_source(source),
            n <= pool@.len() <= MAX_SIDES,
            forall|i: int| 0 <= i < pool@.len() ==> #[trigger] pool@[i] < MAX_SIDES,
        ensures
            w == self@.weight_sum(source, pool@.take(n as int)),
            w <= n * 0xFFFF_FFFF,
    {
        let mut w: u64 = 0;
        let mut i: usize = 0;
        while i < n
            invariant
                i <= n <= pool@.len() <= MAX_SIDES,
                fair_source(source),
                forall|j: int| 0 <= j < pool@.len() ==> #[trigger] pool@[j] < MAX_SIDES,
                w == self@.weight_sum(source, pool@.take(i as int)),
                w <= i * 0xFFFF_FFFF,
            decreases n - i,
        {
            assert(pool@.take(i + 1).drop_last() =~= pool@.take(i as int));
            assert(pool@[i as int] < MAX_SIDES);
            w = w + self.weight_of(source, pool[i]) as u64;
            i = i + 1;
        }
        w
    }

    fn at_weight_of(&self, source: Option<usize>, pool: &Vec<usize>, at: u64) -> (side: usize)
        requires
            fair_source(source),
            0 < pool@.len() <= MAX_SIDES,
            forall|i: int| 0 <= i < pool@.len() ==> #[trigger] pool@[i] < MAX_SIDES,
        ensures
            side == self@.at_weight(source, pool@, at as nat),
    {
        let mut n: usize = pool.len();
        assert(pool@.take(n as int) =~= pool@);
        while n > 1
            invariant
                1 <= n <= pool@.len() <= MAX_SIDES,
                fair_source(source),
                forall|i: int| 0 <= i < pool@.len() ==> #[trigger] pool@[i] < MAX_SIDES,
                self@.at_weight(source, pool@, at as nat) == self@.at_weight(
                    source,
                    pool@.take(n as int),
                    at as nat,
                ),
            decreases n,
        {
            assert(pool@.take(n as int).drop_last() =~= pool@.take(n - 1));
            if at >= self.weight_sum_of(source, pool, n - 1) {
                return pool[n - 1];
            }
            n = n - 1;
        }
        pool[0]
    }

    fn first_priority_of(&self, source: Option<usize>, pool: &Vec<usize>) -> (side: usize)
        requires
            fair_source(source),
            0 < pool@.len() <= MAX_SIDES,
            forall|i: int| 0 <= i < pool@.len() ==> #[trigger] pool@[i] < MAX_SIDES,
        ensures
            side == self@.first_priority(source, pool@),
    {
        let mut best: usize = pool[0];
        let mut i: usize = 1;
        while i < pool.len()
            invariant
                1 <= i <= pool@.len(),
                best < MAX_SIDES,
                fair_source(source),
                forall|j: int| 0 <= j < pool@.len() ==> #[trigger] pool@[j] < MAX_SIDES,
                best == self@.first_priority(source, pool@.take(i as int)),
            decreases pool@.len() - i,
        {
            assert(pool@.take(i + 1).drop_last() =~= pool@.take(i as int));
            assert(pool@[i as int] < MAX_SIDES);
            if self.priority_of(source, pool[i]) < self.priority_of(source, best) {
                best = pool[i];
            }
            i = i + 1;
        }
        assert(pool@.take(i as int) =~= pool@);
        best
    }

    /// Chooses the links that a packet takes.
    pub fn choose_sides(&mut self, sides: &[SideFacts], overlaps: &[usize], q: RouteQuery) -> (r:
        Vec<usize>)
        requires
            fair_source(q.source),
            sides@.len() <= MAX_SIDES,
            overlaps@.len() == sides@.len(),
        ensures
            r@ == old(self)@.chosen(sides@, overlaps@, q),
            final(self)@ == old(self)@.after_choice(sides@, overlaps@, q),
    {
        let pool: Vec<usize> = self.pool_of(sides, overlaps, q);
        proof {
            lemma_pool_in_range(self@, sides@, overlaps@, q, sides@.len());
            assert forall|i: int| 0 <= i < pool@.len() implies #[trigger] pool@[i] < MAX_SIDES by {
                let s = self@.pool(sides@, overlaps@, q, sides@.len())[i];
            }
        }
        if pool.len() == 0 {
            return pool;
        }
        let mode: RouteSelectionMode = self.mode_of(q, sides.len());
        let n: u64 = match self.picks.get(key_of_source(q.source)) {
            Some(n) => *n,
            None => 0,
        };
        match mode {
            RouteSelectionMode::Fanout => pool,
            RouteSelectionMode::Failover => {
                let mut out: Vec<usize> = Vec::new();
                out.push(self.first_priority_of(q.source, &pool));
                assert(out@ =~= seq![self@.first_priority(q.source, pool@)]);
                out
            },
            RouteSelectionMode::Weighted => {
                let sum: u64 = self.weight_sum_of(q.source, &pool, pool.len());
                assert(pool@.take(pool@.len() as int) =~= pool@);
                let pick: usize = if sum == 0 {
                    pool[0]
                } else {
                    self.at_weight_of(q.source, &pool, n % sum)
                };
                self.picks.put(key_of_source(q.source), n.wrapping_add(1));
                let mut out: Vec<usize> = Vec::new();
                out.push(pick);
                assert(out@ =~= seq![pick]);
                out
            },
            RouteSelectionMode::Balanced => {
                let best: Vec<usize> = widest_of(overlaps, &pool);
                proof {
                    lemma_widest_not_empty(overlaps@, pool@);
                }
                proof {
                    assert forall|i: int| 0 <= i < best@.len() implies #[trigger] best@[i]
                        < sides@.len() by {
                        assert(pool@.contains(best@[i]));
                        let k = choose|k: int| 0 <= k < pool@.len() && pool@[k] == best@[i];
                        let s = self@.pool(sides@, overlaps@, q, sides@.len())[k];
                    }
                    lemma_slots(sides@, best@, MAX_SHARE as nat);
                }
                let line: Vec<usize> = slots_of(sides, &best);
                let pick: usize = line[(n % line.len() as u64) as usize];
                self.picks.put(key_of_source(q.source), n.wrapping_add(1));
                let mut out: Vec<usize> = Vec::new();
                out.push(pick);
                assert(out@ =~= seq![pick]);
                out
            },
        }
    }
}

fn widest_of(overlaps: &[usize], pool: &Vec<usize>) -> (best: Vec<usize>)
    requires
        forall|i: int| 0 <= i < pool@.len() ==> #[trigger] pool@[i] < overlaps@.len(),
    ensures
        best@ == widest(overlaps@, pool@),
{
    let mut top: usize = 0;
    let mut i: usize = 0;
    while i < pool.len()
        invariant
            i <= pool@.len(),
            forall|j: int| 0 <= j < pool@.len() ==> #[trigger] pool@[j] < overlaps@.len(),
            top == widest_overlap(overlaps@, pool@.take(i as int)),
        decreases pool@.len() - i,
    {
        assert(pool@.take(i + 1).drop_last() =~= pool@.take(i as int));
        assert(pool@[i as int] < overlaps@.len());
        if overlaps[pool[i]] > top {
            top = overlaps[pool[i]];
        }
        i = i + 1;
    }
    assert(pool@.take(i as int) =~= pool@);
    let ghost pred = |s: usize| overlaps@[s as int] as nat == widest_overlap(overlaps@, pool@);
    let mut best: Vec<usize> = Vec::new();
    let mut k: usize = 0;
    proof {
        reveal(Seq::filter);
        assert(pool@.take(0).filter(pred) =~= Seq::<usize>::empty());
    }
    while k < pool.len()
        invariant
            k <= pool@.len(),
            forall|j: int| 0 <= j < pool@.len() ==> #[trigger] pool@[j] < overlaps@.len(),
            top == widest_overlap(overlaps@, pool@),
            pred == (|s: usize| overlaps@[s as int] as nat == widest_overlap(overlaps@, pool@)),
            best@ == pool@.take(k as int).filter(pred),
        decreases pool@.len() - k,
    {
        proof {
            assert(pool@.take(k + 1) =~= pool@.take(k as int).push(pool@[k as int]));
            pool@.take(k as int).lemma_filter_push(pool@[k as int], pred);
            assert(pool@[k as int] < overlaps@.len());
        }
        if overlaps[pool[k]] == top {
            best.push(pool[k]);
        }
        k = k + 1;
    }
    assert(pool@.take(k as int) =~= pool@);
    best
}

} // verus!
