//! What holds of the links that packets take, one packet after the other.
use vstd::prelude::*;
use crate::routes;
use crate::routes::{PolicySpec, RouteQuery, RouteSelectionMode, SideFacts};

verus! {

/// How many of the next `n` packets take a link, while nothing else changes.
pub open spec fn times_taken(
    p: PolicySpec,
    sides: Seq<SideFacts>,
    overlaps: Seq<usize>,
    q: RouteQuery,
    side: usize,
    n: nat,
) -> nat
    decreases n,
{
    if n == 0 {
        0
    } else {
        times_taken(p.after_choice(sides, overlaps, q), sides, overlaps, q, side, (n - 1) as nat)
            + (if p.chosen(sides, overlaps, q).contains(side) {
            1nat
        } else {
            0nat
        })
    }
}

/// How many numbers from `from` on, `n` of them, a statement holds of.
pub open spec fn times(f: spec_fn(int) -> bool, from: int, n: nat) -> nat
    decreases n,
{
    if n == 0 {
        0
    } else {
        times(f, from + 1, (n - 1) as nat) + (if f(from) {
            1nat
        } else {
            0nat
        })
    }
}

proof fn lemma_times_split(f: spec_fn(int) -> bool, from: int, n: nat, m: nat)
    ensures
        times(f, from, n + m) == times(f, from, n) + times(f, from + n, m),
    decreases n,
{
    if n > 0 {
        lemma_times_split(f, from + 1, (n - 1) as nat, m);
    }
}

proof fn lemma_times_same(
    f: spec_fn(int) -> bool,
    g: spec_fn(int) -> bool,
    from: int,
    to: int,
    n: nat,
)
    requires
        forall|i: int| 0 <= i < n ==> #[trigger] f(from + i) == g(to + i),
    ensures
        times(f, from, n) == times(g, to, n),
    decreases n,
{
    if n > 0 {
        assert(f(from + 0) == g(to + 0));
        assert forall|i: int| 0 <= i < n - 1 implies #[trigger] f(from + 1 + i) == g(to + 1 + i) by {
            assert(f(from + (i + 1)) == g(to + (i + 1)));
            assert(from + (i + 1) == from + 1 + i);
            assert(to + (i + 1) == to + 1 + i);
        }
        lemma_times_same(f, g, from + 1, to + 1, (n - 1) as nat);
    }
}

proof fn lemma_times_constant(f: spec_fn(int) -> bool, yes: bool, from: int, n: nat)
    requires
        forall|i: int| from <= i < from + n ==> #[trigger] f(i) == yes,
    ensures
        times(f, from, n) == (if yes {
            n
        } else {
            0
        }),
    decreases n,
{
    if n > 0 {
        assert(f(from) == yes);
        lemma_times_constant(f, yes, from + 1, (n - 1) as nat);
    }
}

/// A statement about the remainder holds as often in any stretch of that length.
proof fn lemma_times_round(g: spec_fn(int) -> bool, f: spec_fn(int) -> bool, from: int, len: nat)
    requires
        len > 0,
        from >= 0,
        forall|i: int| i >= 0 ==> #[trigger] f(i) == g(i % (len as int)),
    ensures
        times(f, from, len) == times(g, 0, len),
    decreases from,
{
    if from == 0 {
        assert forall|i: int| 0 <= i < len implies #[trigger] f(0 + i) == g(0 + i) by {
            assert(f(i) == g(i % (len as int)));
            vstd::arithmetic::div_mod::lemma_small_mod(i as nat, len);
        }
        lemma_times_same(f, g, 0, 0, len);
    } else {
        lemma_times_round(g, f, from - 1, len);
        lemma_times_split(f, from - 1, 1, len);
        lemma_times_split(f, from - 1, len, 1);
        let last = from - 1 + len as int;
        vstd::arithmetic::div_mod::lemma_mod_add_multiples_vanish(from - 1, len as int);
        assert((len as int + (from - 1)) % (len as int) == (from - 1) % (len as int));
        assert(f(last) == f(from - 1)) by {
            assert(f(last) == g(last % (len as int)));
            assert(f(from - 1) == g((from - 1) % (len as int)));
            assert(last == len as int + (from - 1));
        }
        assert(times(f, last, 1) == times(f, from - 1, 1)) by {
            reveal_with_fuel(times, 2);
        }
        assert(1 + len == len + 1);
    }
}

/// Whether no link stands twice.
pub open spec fn apart(pool: Seq<usize>) -> bool {
    forall|i: int, j: int| 0 <= i < j < pool.len() ==> pool[i] < pool[j]
}

proof fn lemma_pool_is_apart(
    p: PolicySpec,
    sides: Seq<SideFacts>,
    overlaps: Seq<usize>,
    q: RouteQuery,
    n: nat,
)
    requires
        n <= sides.len() <= routes::MAX_SIDES,
    ensures
        apart(p.pool(sides, overlaps, q, n)),
        forall|s: usize| #[trigger]
            p.pool(sides, overlaps, q, n).contains(s) <==> s < n && p.meant(
                sides,
                overlaps,
                q,
                s as int,
            ),
    decreases n,
{
    let all = p.pool(sides, overlaps, q, n);
    if n > 0 {
        let front = p.pool(sides, overlaps, q, (n - 1) as nat);
        lemma_pool_is_apart(p, sides, overlaps, q, (n - 1) as nat);
        assert forall|i: int| 0 <= i < front.len() implies #[trigger] front[i] < n - 1 by {
            assert(front.contains(front[i]));
        }
        assert forall|s: usize| #[trigger] all.contains(s) <==> s < n && p.meant(
            sides,
            overlaps,
            q,
            s as int,
        ) by {
            assert(front.contains(s) <==> s < n - 1 && p.meant(sides, overlaps, q, s as int));
            if all.contains(s) {
                let i = choose|i: int| 0 <= i < all.len() && all[i] == s;
                if i < front.len() {
                    assert(front[i] == s);
                }
            }
            if s < n && p.meant(sides, overlaps, q, s as int) {
                if s == n - 1 {
                    assert(all[front.len() as int] == s);
                } else {
                    let i = choose|i: int| 0 <= i < front.len() && front[i] == s;
                    assert(all[i] == s);
                }
            }
        }
    }
}

/// The rules after packets were counted.
pub open spec fn counting(p: PolicySpec, picks: Map<u128, u64>) -> PolicySpec {
    PolicySpec { picks, ..p }
}

proof fn lemma_counts_do_not_matter(
    p: PolicySpec,
    picks: Map<u128, u64>,
    sides: Seq<SideFacts>,
    overlaps: Seq<usize>,
    q: RouteQuery,
    n: nat,
)
    ensures
        counting(p, picks).pool(sides, overlaps, q, n) == p.pool(sides, overlaps, q, n),
        counting(p, picks).mode(q, sides.len() as int) == p.mode(q, sides.len() as int),
    decreases n,
{
    let c = counting(p, picks);
    let m = sides.len() as int;
    assert(c.named(q, m) == p.named(q, m)) by {
        if c.named(q, m) {
            let k = choose|k: int| 0 <= k < m && #[trigger] c.says_typed(q.source, q.ty, k, true);
            assert(p.says_typed(q.source, q.ty, k, true));
        }
        if p.named(q, m) {
            let k = choose|k: int| 0 <= k < m && #[trigger] p.says_typed(q.source, q.ty, k, true);
            assert(c.says_typed(q.source, q.ty, k, true));
        }
    }
    lemma_count_same(p, picks, sides, q, sides.len());
    if n > 0 {
        lemma_counts_do_not_matter(p, picks, sides, overlaps, q, (n - 1) as nat);
        assert(c.meant(sides, overlaps, q, n - 1) == p.meant(sides, overlaps, q, n - 1));
    }
}

proof fn lemma_count_same(
    p: PolicySpec,
    picks: Map<u128, u64>,
    sides: Seq<SideFacts>,
    q: RouteQuery,
    n: nat,
)
    ensures
        counting(p, picks).allowed_count(sides, q, n) == p.allowed_count(sides, q, n),
    decreases n,
{
    if n > 0 {
        lemma_count_same(p, picks, sides, q, (n - 1) as nat);
    }
}

proof fn lemma_weights_same(p: PolicySpec, picks: Map<u128, u64>, source: Option<usize>, pool: Seq<usize>)
    ensures
        counting(p, picks).weight_sum(source, pool) == p.weight_sum(source, pool),
        forall|at: nat| #[trigger]
            counting(p, picks).at_weight(source, pool, at) == p.at_weight(source, pool, at),
    decreases pool.len(),
{
    if pool.len() > 0 {
        let rest = pool.drop_last();
        lemma_weights_same(p, picks, source, rest);
        assert forall|at: nat| #[trigger]
            counting(p, picks).at_weight(source, pool, at) == p.at_weight(source, pool, at) by {
            assert(counting(p, picks).at_weight(source, rest, at) == p.at_weight(source, rest, at));
        }
    }
}

/// Whether the number falls on a link.
pub open spec fn falls_on(p: PolicySpec, source: Option<usize>, pool: Seq<usize>, side: usize) -> spec_fn(
    int,
) -> bool {
    |at: int| p.at_weight(source, pool, at as nat) == side
}

proof fn lemma_at_weight_in(p: PolicySpec, source: Option<usize>, pool: Seq<usize>, at: nat)
    requires
        pool.len() > 0,
    ensures
        pool.contains(p.at_weight(source, pool, at)),
    decreases pool.len(),
{
    let rest = pool.drop_last();
    let x = p.at_weight(source, pool, at);
    if pool.len() > 1 && at < p.weight_sum(source, rest) {
        lemma_at_weight_in(p, source, rest, at);
        let i = choose|i: int| 0 <= i < rest.len() && rest[i] == x;
        assert(pool[i] == x);
    } else if pool.len() > 1 {
        assert(pool[pool.len() - 1] == x);
    } else {
        assert(pool[0] == x);
    }
}

proof fn lemma_shares(p: PolicySpec, source: Option<usize>, pool: Seq<usize>, i: int)
    requires
        apart(pool),
        0 <= i < pool.len(),
    ensures
        times(falls_on(p, source, pool, pool[i]), 0, p.weight_sum(source, pool)) == p.weight(
            source,
            pool[i],
        ),
    decreases pool.len(),
{
    let f = falls_on(p, source, pool, pool[i]);
    let rest = pool.drop_last();
    let front = p.weight_sum(source, rest);
    let w = p.weight(source, pool.last()) as nat;
    let last = pool.len() - 1;
    if pool.len() == 1 {
        assert(rest.len() == 0);
        assert(front == 0);
        lemma_times_constant(f, true, 0, w);
    } else {
        lemma_times_split(f, 0, front, w);
        assert(pool.last() == pool[last]);
        assert(apart(rest));
        assert forall|at: int| front <= at < front + w implies #[trigger] f(at) == (i == last) by {
            assert(p.at_weight(source, pool, at as nat) == pool.last());
            if i < last {
                assert(pool[i] < pool[last]);
            }
        }
        lemma_times_constant(f, i == last, front as int, w);
        if i < last {
            let g = falls_on(p, source, rest, pool[i]);
            lemma_shares(p, source, rest, i);
            assert(rest[i] == pool[i]);
            lemma_times_same(f, g, 0, 0, front);
        } else {
            assert forall|at: int| 0 <= at < 0 + front implies #[trigger] f(at) == false by {
                lemma_at_weight_in(p, source, rest, at as nat);
                let x = p.at_weight(source, rest, at as nat);
                let k = choose|k: int| 0 <= k < rest.len() && rest[k] == x;
                assert(pool[k] == x && pool[k] < pool[last]);
            }
            lemma_times_constant(f, false, 0, front);
        }
    }
}

/// A statement about which number the next packet has.
proof fn lemma_taken_is_counted(
    p: PolicySpec,
    sides: Seq<SideFacts>,
    overlaps: Seq<usize>,
    q: RouteQuery,
    side: usize,
    n: nat,
    f: spec_fn(int) -> bool,
)
    requires
        sides.len() <= routes::MAX_SIDES,
        p.pool(sides, overlaps, q, sides.len()).len() > 0,
        p.mode(q, sides.len() as int) == RouteSelectionMode::Weighted || p.mode(
            q,
            sides.len() as int,
        ) == RouteSelectionMode::Balanced,
        p.pick_count(q.source) + n <= u64::MAX,
        forall|k: u64|
            p.pick_count(q.source) <= k < p.pick_count(q.source) + n ==> counting(
                p,
                p.picks.insert(routes::source_code(q.source), k),
            ).chosen(sides, overlaps, q).contains(side) == #[trigger] f(k as int),
    ensures
        times_taken(p, sides, overlaps, q, side, n) == times(f, p.pick_count(q.source) as int, n),
    decreases n,
{
    if n > 0 {
        let code = routes::source_code(q.source);
        let k = p.pick_count(q.source);
        let next = p.after_choice(sides, overlaps, q);
        let picks = p.picks.insert(code, (k + 1) as u64);
        assert(next == counting(p, picks));
        lemma_counts_do_not_matter(p, picks, sides, overlaps, q, sides.len());
        assert(next.pick_count(q.source) == k + 1);
        assert forall|j: u64| k + 1 <= j < k + 1 + (n - 1) implies counting(
            next,
            next.picks.insert(code, j),
        ).chosen(sides, overlaps, q).contains(side) == #[trigger] f(j as int) by {
            assert(next.picks.insert(code, j) =~= p.picks.insert(code, j));
            assert(counting(next, next.picks.insert(code, j)) == counting(
                p,
                p.picks.insert(code, j),
            ));
        }
        lemma_taken_is_counted(next, sides, overlaps, q, side, (n - 1) as nat, f);
        let here = counting(p, p.picks.insert(code, k));
        assert(f(k as int) == here.chosen(sides, overlaps, q).contains(side));
        lemma_counts_do_not_matter(p, p.picks.insert(code, k), sides, overlaps, q, sides.len());
        assert(here.pick_count(q.source) == k);
        lemma_weights_same(
            p,
            p.picks.insert(code, k),
            q.source,
            p.pool(sides, overlaps, q, sides.len()),
        );
        assert(here.chosen(sides, overlaps, q) == p.chosen(sides, overlaps, q));
    }
}

/// Links that are chosen by weight carry packets in proportion to their weights: of as many
/// packets, one after the other, as the weights of all links come to, each link takes exactly as
/// many as its weight.
pub proof fn lemma_weights_are_kept(
    p: PolicySpec,
    sides: Seq<SideFacts>,
    overlaps: Seq<usize>,
    q: RouteQuery,
    side: usize,
)
    requires
        sides.len() <= routes::MAX_SIDES,
        p.mode(q, sides.len() as int) == RouteSelectionMode::Weighted,
        side < sides.len(),
        p.meant(sides, overlaps, q, side as int),
        p.pick_count(q.source) + p.weight_sum(
            q.source,
            p.pool(sides, overlaps, q, sides.len()),
        ) <= u64::MAX,
    ensures
        times_taken(
            p,
            sides,
            overlaps,
            q,
            side,
            p.weight_sum(q.source, p.pool(sides, overlaps, q, sides.len())),
        ) == p.weight(q.source, side),
{
    let pool = p.pool(sides, overlaps, q, sides.len());
    let sum = p.weight_sum(q.source, pool);
    lemma_pool_is_apart(p, sides, overlaps, q, sides.len());
    assert(pool.contains(side));
    let i = choose|i: int| 0 <= i < pool.len() && pool[i] == side;
    lemma_weight_is_part(p, q.source, pool, i);
    if sum > 0 {
        let g = falls_on(p, q.source, pool, side);
        let f = |k: int| g(k % (sum as int));
        let k0 = p.pick_count(q.source);
        let code = routes::source_code(q.source);
        assert forall|k: u64| k0 <= k < k0 + sum implies counting(
            p,
            p.picks.insert(code, k),
        ).chosen(sides, overlaps, q).contains(side) == #[trigger] f(k as int) by {
            let picks = p.picks.insert(code, k);
            let c = counting(p, picks);
            lemma_counts_do_not_matter(p, picks, sides, overlaps, q, sides.len());
            lemma_weights_same(p, picks, q.source, pool);
            assert(c.pick_count(q.source) == k);
            let x = p.at_weight(q.source, pool, (k as nat) % sum);
            assert(c.at_weight(q.source, pool, (k as nat) % sum) == x);
            assert(c.chosen(sides, overlaps, q) =~= seq![x]);
            assert(seq![x][0] == x);
            assert((k as nat) % sum == (k as int) % (sum as int));
        }
        lemma_taken_is_counted(p, sides, overlaps, q, side, sum, f);
        lemma_times_round(g, f, k0 as int, sum);
        lemma_shares(p, q.source, pool, i);
    }
}

proof fn lemma_weight_is_part(p: PolicySpec, source: Option<usize>, pool: Seq<usize>, i: int)
    requires
        0 <= i < pool.len(),
    ensures
        p.weight(source, pool[i]) <= p.weight_sum(source, pool),
    decreases pool.len(),
{
    if i < pool.len() - 1 {
        lemma_weight_is_part(p, source, pool.drop_last(), i);
    }
}

/// A link of which no weight was said counts as one of weight one; so a link without a say among
/// others of weight one gets its turn as often as each of them.
pub proof fn lemma_unsaid_weight_is_one(p: PolicySpec, source: Option<usize>, side: usize)
    requires
        !p.weights.contains_key(routes::route_key(source, side as int)),
    ensures
        p.weight(source, side) == 1,
        (PolicySpec {
            weights: p.weights.insert(routes::route_key(source, side as int), 1),
            ..p
        }).weight(source, side) == p.weight(source, side),
{
}

/// Where packets go over all links, a packet takes exactly the links that it is meant for, each
/// once.
pub proof fn lemma_fanout_takes_all(
    p: PolicySpec,
    sides: Seq<SideFacts>,
    overlaps: Seq<usize>,
    q: RouteQuery,
)
    requires
        sides.len() <= routes::MAX_SIDES,
        p.mode(q, sides.len() as int) == RouteSelectionMode::Fanout,
    ensures
        apart(p.chosen(sides, overlaps, q)),
        forall|s: usize| #[trigger]
            p.chosen(sides, overlaps, q).contains(s) <==> s < sides.len() && p.meant(
                sides,
                overlaps,
                q,
                s as int,
            ),
{
    lemma_pool_is_apart(p, sides, overlaps, q, sides.len());
}

proof fn lemma_first(p: PolicySpec, source: Option<usize>, pool: Seq<usize>, i: int)
    requires
        apart(pool),
        0 <= i < pool.len(),
    ensures
        pool.contains(p.first_priority(source, pool)),
        p.priority(source, p.first_priority(source, pool)) <= p.priority(source, pool[i]),
        p.priority(source, p.first_priority(source, pool)) == p.priority(source, pool[i])
            ==> p.first_priority(source, pool) <= pool[i],
    decreases pool.len(),
{
    let rest = pool.drop_last();
    let last = pool.len() - 1;
    assert(pool.last() == pool[last]);
    if pool.len() > 1 {
        assert(apart(rest));
        let k: int = if i < last {
            i
        } else {
            0
        };
        lemma_first(p, source, rest, k);
        let x = p.first_priority(source, rest);
        let j = choose|j: int| 0 <= j < rest.len() && rest[j] == x;
        assert(pool[j] == x);
        assert(pool[j] < pool[last]);
        assert(rest[k] == pool[k]);
        assert(pool.contains(pool[last]));
    } else {
        assert(pool[0] == p.first_priority(source, pool));
    }
}

/// Where links stand in for one another, a packet takes one link alone: one that it is meant for,
/// before which none with a lower priority number comes, nor an earlier one with the same.
pub proof fn lemma_failover_takes_the_first(
    p: PolicySpec,
    sides: Seq<SideFacts>,
    overlaps: Seq<usize>,
    q: RouteQuery,
    other: usize,
)
    requires
        sides.len() <= routes::MAX_SIDES,
        p.mode(q, sides.len() as int) == RouteSelectionMode::Failover,
        other < sides.len(),
        p.meant(sides, overlaps, q, other as int),
    ensures
        p.chosen(sides, overlaps, q).len() == 1,
        ({
            let taken = p.chosen(sides, overlaps, q)[0];
            &&& taken < sides.len() && p.meant(sides, overlaps, q, taken as int)
            &&& p.priority(q.source, taken) <= p.priority(q.source, other)
            &&& p.priority(q.source, taken) == p.priority(q.source, other) ==> taken <= other
        }),
{
    let pool = p.pool(sides, overlaps, q, sides.len());
    lemma_pool_is_apart(p, sides, overlaps, q, sides.len());
    assert(pool.contains(other));
    let i = choose|i: int| 0 <= i < pool.len() && pool[i] == other;
    lemma_first(p, q.source, pool, i);
}

/// A link of which no priority was said comes as one with the number zero, before all others.
pub proof fn lemma_unsaid_priority_is_first(p: PolicySpec, source: Option<usize>, side: usize)
    requires
        !p.priorities.contains_key(routes::route_key(source, side as int)),
    ensures
        forall|other: usize| p.priority(source, side) <= #[trigger] p.priority(source, other),
{
}

/// How often a link stands in a line.
pub open spec fn places(line: Seq<usize>, side: usize) -> nat
    decreases line.len(),
{
    if line.len() == 0 {
        0
    } else {
        places(line.drop_last(), side) + (if line.last() == side {
            1nat
        } else {
            0nat
        })
    }
}

proof fn lemma_places_join(a: Seq<usize>, b: Seq<usize>, side: usize)
    ensures
        places(a + b, side) == places(a, side) + places(b, side),
    decreases b.len(),
{
    if b.len() == 0 {
        assert(a + b =~= a);
    } else {
        lemma_places_join(a, b.drop_last(), side);
        assert((a + b).drop_last() =~= a + b.drop_last());
    }
}

proof fn lemma_places_filter(pool: Seq<usize>, keep: spec_fn(usize) -> bool, side: usize)
    requires
        apart(pool),
    ensures
        places(pool.filter(keep), side) == (if pool.contains(side) && keep(side) {
            1nat
        } else {
            0nat
        }),
    decreases pool.len(),
{
    reveal(Seq::filter);
    if pool.len() > 0 {
        let rest = pool.drop_last();
        let last = pool.len() - 1;
        assert(apart(rest));
        lemma_places_filter(rest, keep, side);
        assert(pool.last() == pool[last]);
        if rest.contains(side) {
            let k = choose|k: int| 0 <= k < rest.len() && rest[k] == side;
            assert(pool[k] == side && pool[k] < pool[last]);
        }
        if pool.contains(side) && !rest.contains(side) {
            let k = choose|k: int| 0 <= k < pool.len() && pool[k] == side;
            if k < last {
                assert(rest[k] == side);
            }
        }
        if keep(pool.last()) {
            assert(pool.filter(keep) =~= rest.filter(keep).push(pool.last()));
            assert(rest.filter(keep).push(pool.last()).drop_last() =~= rest.filter(keep));
        }
    }
}

/// The turns of a link in a round of balanced links: its share, but one at least.
pub open spec fn turns_of(f: SideFacts) -> nat {
    if f.share == 0 {
        1
    } else if f.share > routes::MAX_SHARE {
        routes::MAX_SHARE as nat
    } else {
        f.share as nat
    }
}

proof fn lemma_places_in_slots(sides: Seq<SideFacts>, pool: Seq<usize>, rounds: nat, side: usize)
    requires
        apart(pool),
        pool.contains(side),
    ensures
        places(routes::slots(sides, pool, rounds), side) == (if rounds == 0 {
            0
        } else if sides[side as int].share <= 1 {
            1
        } else if sides[side as int].share < rounds {
            sides[side as int].share as nat
        } else {
            rounds
        }),
    decreases rounds,
{
    if rounds > 0 {
        lemma_places_in_slots(sides, pool, (rounds - 1) as nat, side);
        lemma_places_join(
            routes::slots(sides, pool, (rounds - 1) as nat),
            pool.filter(routes::has_turn(sides, rounds)),
            side,
        );
        lemma_places_filter(pool, routes::has_turn(sides, rounds), side);
    }
}

proof fn lemma_places_are_times(line: Seq<usize>, f: spec_fn(int) -> bool, side: usize)
    requires
        forall|i: int| 0 <= i < line.len() ==> #[trigger] f(i) == (line[i] == side),
    ensures
        times(f, 0, line.len()) == places(line, side),
    decreases line.len(),
{
    if line.len() > 0 {
        let n = (line.len() - 1) as nat;
        lemma_times_split(f, 0, n, 1);
        assert forall|i: int| 0 <= i < n implies #[trigger] f(i) == (line.drop_last()[i] == side) by {
            assert(line.drop_last()[i] == line[i]);
        }
        lemma_places_are_times(line.drop_last(), f, side);
        assert(f(n as int) == (line[n as int] == side));
        reveal_with_fuel(times, 2);
    }
}

proof fn lemma_widest_bounds(overlaps: Seq<usize>, pool: Seq<usize>, i: int)
    requires
        0 <= i < pool.len(),
    ensures
        overlaps[pool[i] as int] <= routes::widest_overlap(overlaps, pool),
    decreases pool.len(),
{
    if i < pool.len() - 1 {
        lemma_widest_bounds(overlaps, pool.drop_last(), i);
    }
}

/// Whether no link that a packet is meant for leads to more of its endpoints.
pub open spec fn leads_furthest(
    p: PolicySpec,
    sides: Seq<SideFacts>,
    overlaps: Seq<usize>,
    q: RouteQuery,
    side: int,
) -> bool {
    &&& p.meant(sides, overlaps, q, side)
    &&& forall|s: int|
        0 <= s < sides.len() && #[trigger] p.meant(sides, overlaps, q, s) ==> overlaps[s]
            <= overlaps[side]
}

proof fn lemma_widest_members(
    p: PolicySpec,
    sides: Seq<SideFacts>,
    overlaps: Seq<usize>,
    q: RouteQuery,
)
    requires
        sides.len() <= routes::MAX_SIDES,
    ensures
        ({
            let best = routes::widest(overlaps, p.pool(sides, overlaps, q, sides.len()));
            &&& apart(best)
            &&& forall|s: usize| #[trigger]
                best.contains(s) <==> s < sides.len() && leads_furthest(
                    p,
                    sides,
                    overlaps,
                    q,
                    s as int,
                )
            &&& best.len() == 0 ==> p.pool(sides, overlaps, q, sides.len()).len() == 0
        }),
{
    let pool = p.pool(sides, overlaps, q, sides.len());
    let top = routes::widest_overlap(overlaps, pool);
    let pred = |s: usize| overlaps[s as int] as nat == top;
    let best = routes::widest(overlaps, pool);
    assert(best == pool.filter(pred));
    lemma_pool_is_apart(p, sides, overlaps, q, sides.len());
    lemma_filter_apart(pool, pred);
    assert forall|s: usize| #[trigger] best.contains(s) <==> s < sides.len() && leads_furthest(
        p,
        sides,
        overlaps,
        q,
        s as int,
    ) by {
        if best.contains(s) {
            pool.lemma_filter_contains_rev(pred, s);
            let i = choose|i: int| 0 <= i < best.len() && best[i] == s;
            pool.lemma_filter_pred(pred, i);
            assert forall|o: int|
                0 <= o < sides.len() && #[trigger] p.meant(sides, overlaps, q, o) implies overlaps[o]
                <= overlaps[s as int] by {
                assert(pool.contains(o as usize));
                let k = choose|k: int| 0 <= k < pool.len() && pool[k] == o as usize;
                lemma_widest_bounds(overlaps, pool, k);
            }
        }
        if s < sides.len() && leads_furthest(p, sides, overlaps, q, s as int) {
            assert(pool.contains(s));
            let i = choose|i: int| 0 <= i < pool.len() && pool[i] == s;
            lemma_widest_bounds(overlaps, pool, i);
            lemma_widest_is_met(overlaps, pool);
            let k = choose|k: int|
                0 <= k < pool.len() && overlaps[#[trigger] pool[k] as int] as nat == top;
            assert(pool.contains(pool[k]));
            assert(p.meant(sides, overlaps, q, pool[k] as int));
            pool.lemma_filter_contains(pred, i);
        }
    }
    if pool.len() > 0 {
        lemma_widest_is_met(overlaps, pool);
        let k = choose|k: int|
            0 <= k < pool.len() && overlaps[#[trigger] pool[k] as int] as nat == top;
        pool.lemma_filter_contains(pred, k);
    }
}

proof fn lemma_widest_is_met(overlaps: Seq<usize>, pool: Seq<usize>)
    requires
        pool.len() > 0,
    ensures
        exists|k: int|
            0 <= k < pool.len() && overlaps[#[trigger] pool[k] as int] as nat
                == routes::widest_overlap(overlaps, pool),
    decreases pool.len(),
{
    let rest = pool.drop_last();
    let last = pool.len() - 1;
    assert(pool[last] == pool.last());
    if rest.len() > 0 {
        lemma_widest_is_met(overlaps, rest);
        let k = choose|k: int|
            0 <= k < rest.len() && overlaps[#[trigger] rest[k] as int] as nat
                == routes::widest_overlap(overlaps, rest);
        assert(pool[k] == rest[k]);
    } else {
        assert(routes::widest_overlap(overlaps, rest) == 0);
    }
}

proof fn lemma_filter_apart(pool: Seq<usize>, keep: spec_fn(usize) -> bool)
    requires
        apart(pool),
    ensures
        apart(pool.filter(keep)),
    decreases pool.len(),
{
    reveal(Seq::filter);
    if pool.len() > 0 {
        let rest = pool.drop_last();
        let last = pool.len() - 1;
        assert(apart(rest));
        lemma_filter_apart(rest, keep);
        let f = rest.filter(keep);
        assert forall|i: int| 0 <= i < f.len() implies #[trigger] f[i] < pool[last] by {
            assert(f.contains(f[i]));
            rest.lemma_filter_contains_rev(keep, f[i]);
            let k = choose|k: int| 0 <= k < rest.len() && rest[k] == f[i];
            assert(pool[k] < pool[last]);
        }
    }
}

/// Where the load is balanced, a packet takes one link alone, one that leads to as many of its
/// endpoints as any; and in each round every such link gets as many turns as its share, but one at
/// least.
pub proof fn lemma_balance_is_kept(
    p: PolicySpec,
    sides: Seq<SideFacts>,
    overlaps: Seq<usize>,
    q: RouteQuery,
    side: usize,
    round: nat,
)
    requires
        sides.len() <= routes::MAX_SIDES,
        p.mode(q, sides.len() as int) == RouteSelectionMode::Balanced,
        side < sides.len(),
        p.meant(sides, overlaps, q, side as int),
        round == routes::slots(
            sides,
            routes::widest(overlaps, p.pool(sides, overlaps, q, sides.len())),
            routes::MAX_SHARE as nat,
        ).len(),
        p.pick_count(q.source) + round <= u64::MAX,
    ensures
        p.chosen(sides, overlaps, q).len() == 1,
        p.chosen(sides, overlaps, q)[0] < sides.len(),
        leads_furthest(p, sides, overlaps, q, p.chosen(sides, overlaps, q)[0] as int),
        times_taken(p, sides, overlaps, q, side, round) == (if leads_furthest(
            p,
            sides,
            overlaps,
            q,
            side as int,
        ) {
            turns_of(sides[side as int])
        } else {
            0
        }),
{
    let pool = p.pool(sides, overlaps, q, sides.len());
    let best = routes::widest(overlaps, pool);
    let line = routes::slots(sides, best, routes::MAX_SHARE as nat);
    lemma_pool_is_apart(p, sides, overlaps, q, sides.len());
    lemma_widest_members(p, sides, overlaps, q);
    assert(pool.contains(side));
    assert(best.contains(best[0]));
    lemma_places_in_slots(sides, best, routes::MAX_SHARE as nat, best[0]);
    assert(line.len() > 0) by {
        assert(places(line, best[0]) > 0);
    }
    let n0 = p.pick_count(q.source) as int;
    lemma_line_members(sides, best, routes::MAX_SHARE as nat);
    vstd::arithmetic::div_mod::lemma_mod_bound(n0, line.len() as int);
    let x = line[n0 % (line.len() as int)];
    assert(p.chosen(sides, overlaps, q) =~= seq![x]);
    assert(best.contains(x));
    let g = |i: int| line[i] == side;
    let f = |k: int| g(k % (line.len() as int));
    let code = routes::source_code(q.source);
    assert forall|k: u64| n0 <= k < n0 + round implies counting(p, p.picks.insert(code, k)).chosen(
        sides,
        overlaps,
        q,
    ).contains(side) == #[trigger] f(k as int) by {
        let picks = p.picks.insert(code, k);
        let c = counting(p, picks);
        lemma_counts_do_not_matter(p, picks, sides, overlaps, q, sides.len());
        assert(c.pick_count(q.source) == k);
        let y = line[k as int % (line.len() as int)];
        assert(c.chosen(sides, overlaps, q) =~= seq![y]);
        assert(seq![y][0] == y);
    }
    lemma_taken_is_counted(p, sides, overlaps, q, side, round, f);
    lemma_times_round(g, f, n0, round);
    lemma_places_are_times(line, g, side);
    if best.contains(side) {
        lemma_places_in_slots(sides, best, routes::MAX_SHARE as nat, side);
    } else {
        lemma_no_place(line, best, side);
    }
}

proof fn lemma_line_members(sides: Seq<SideFacts>, pool: Seq<usize>, rounds: nat)
    ensures
        forall|i: int|
            0 <= i < routes::slots(sides, pool, rounds).len() ==> pool.contains(
                #[trigger] routes::slots(sides, pool, rounds)[i],
            ),
    decreases rounds,
{
    if rounds > 0 {
        let front = routes::slots(sides, pool, (rounds - 1) as nat);
        let keep = routes::has_turn(sides, rounds);
        let more = pool.filter(keep);
        let all = routes::slots(sides, pool, rounds);
        lemma_line_members(sides, pool, (rounds - 1) as nat);
        assert forall|i: int| 0 <= i < all.len() implies pool.contains(#[trigger] all[i]) by {
            if i < front.len() {
                assert(all[i] == front[i]);
            } else {
                assert(all[i] == more[i - front.len()]);
                assert(more.contains(all[i]));
                pool.lemma_filter_contains_rev(keep, all[i]);
            }
        }
    }
}

proof fn lemma_no_place(line: Seq<usize>, pool: Seq<usize>, side: usize)
    requires
        forall|i: int| 0 <= i < line.len() ==> pool.contains(#[trigger] line[i]),
        !pool.contains(side),
    ensures
        places(line, side) == 0,
    decreases line.len(),
{
    if line.len() > 0 {
        let last = line.len() - 1;
        assert(pool.contains(line[last]));
        assert forall|i: int| 0 <= i < line.drop_last().len() implies pool.contains(
            #[trigger] line.drop_last()[i],
        ) by {
            assert(line.drop_last()[i] == line[i]);
        }
        lemma_no_place(line.drop_last(), pool, side);
    }
}

/// A link that a rule closes for a source, or for a message type of it, is taken by none of its
/// packets, whatever else is said.
pub proof fn lemma_closed_link_is_not_taken(
    p: PolicySpec,
    sides: Seq<SideFacts>,
    overlaps: Seq<usize>,
    q: RouteQuery,
    side: usize,
    i: int,
)
    requires
        sides.len() <= routes::MAX_SIDES,
        ({
            ||| routes::said(p.rules, routes::route_key(q.source, side as int)) == Some(false)
            ||| routes::said(p.typed, routes::typed_key(q.source, q.ty, side as int)) == Some(false)
            ||| side >= sides.len()
            ||| !sides[side as int].alive
            ||| !sides[side as int].egress
            ||| q.source == Some(side)
            ||| q.link_local && !sides[side as int].link_local
        }),
        0 <= i < p.chosen(sides, overlaps, q).len(),
    ensures
        p.chosen(sides, overlaps, q)[i] != side,
{
    routes::lemma_chosen_are_meant(p, sides, overlaps, q, i);
}

/// Where a rule names links for a message type of a source, its packets take those alone.
pub proof fn lemma_named_links_alone(
    p: PolicySpec,
    sides: Seq<SideFacts>,
    overlaps: Seq<usize>,
    q: RouteQuery,
    named: usize,
    i: int,
)
    requires
        sides.len() <= routes::MAX_SIDES,
        named < sides.len(),
        routes::said(p.typed, routes::typed_key(q.source, q.ty, named as int)) == Some(true),
        0 <= i < p.chosen(sides, overlaps, q).len(),
    ensures
        routes::said(
            p.typed,
            routes::typed_key(q.source, q.ty, p.chosen(sides, overlaps, q)[i] as int),
        ) == Some(true),
{
    routes::lemma_chosen_are_meant(p, sides, overlaps, q, i);
    assert(p.says_typed(q.source, q.ty, named as int, true));
}

/// An open link over which a packet may go, and that leads to one of its endpoints, is one that the
/// packet is meant for, unless a rule names others; without a rule that opens it, a link that leads
/// to none is not, once boards have been heard of.
pub proof fn lemma_links_that_lead_there(
    p: PolicySpec,
    sides: Seq<SideFacts>,
    overlaps: Seq<usize>,
    q: RouteQuery,
    side: usize,
)
    requires
        side < sides.len(),
        q.heard,
        forall|s: int|
            0 <= s < sides.len() ==> routes::said(
                p.typed,
                #[trigger] routes::typed_key(q.source, q.ty, s),
            ) is None,
        routes::said(p.rules, routes::route_key(q.source, side as int)) != Some(false),
    ensures
        p.meant(sides, overlaps, q, side as int) <==> {
            &&& sides[side as int].alive
            &&& sides[side as int].egress
            &&& q.source != Some(side)
            &&& q.link_local ==> sides[side as int].link_local
            &&& overlaps[side as int] > 0 || routes::said(
                p.rules,
                routes::route_key(q.source, side as int),
            ) == Some(true)
        },
{
    let m = sides.len() as int;
    if p.named(q, m) {
        let k = choose|k: int| 0 <= k < m && #[trigger] p.says_typed(q.source, q.ty, k, true);
        assert(routes::said(p.typed, routes::typed_key(q.source, q.ty, k)) is None);
    }
    assert(routes::said(p.typed, routes::typed_key(q.source, q.ty, side as int)) is None);
}

/// While no board has been heard of, and no rule names or opens a link, a packet takes a link only
/// where it is the one link that the packet may take at all.
pub proof fn lemma_lone_link_while_unheard(
    p: PolicySpec,
    sides: Seq<SideFacts>,
    overlaps: Seq<usize>,
    q: RouteQuery,
    side: usize,
)
    requires
        side < sides.len() <= routes::MAX_SIDES,
        !q.heard,
        p.typed == Map::<u128, bool>::empty(),
        p.rules == Map::<u128, bool>::empty(),
    ensures
        p.meant(sides, overlaps, q, side as int) <==> {
            &&& p.allowed(sides, q, side as int)
            &&& forall|s: int|
                0 <= s < sides.len() && #[trigger] p.allowed(sides, q, s) ==> s == side
        },
{
    let m = sides.len() as int;
    if p.named(q, m) {
        let k = choose|k: int| 0 <= k < m && #[trigger] p.says_typed(q.source, q.ty, k, true);
    }
    if p.allowed(sides, q, side as int) {
        lemma_lone(p, sides, q, side as int, sides.len());
    }
}

proof fn lemma_lone(p: PolicySpec, sides: Seq<SideFacts>, q: RouteQuery, side: int, n: nat)
    requires
        p.allowed(sides, q, side),
    ensures
        side < n ==> p.allowed_count(sides, q, n) >= 1,
        p.allowed_count(sides, q, n) == (if side < n {
            1nat
        } else {
            0nat
        }) <==> (forall|s: int| 0 <= s < n && #[trigger] p.allowed(sides, q, s) ==> s == side),
        side >= n ==> (p.allowed_count(sides, q, n) == 0 <==> forall|s: int|
            0 <= s < n ==> !(#[trigger] p.allowed(sides, q, s))),
    decreases n,
{
    if n > 0 {
        lemma_lone(p, sides, q, side, (n - 1) as nat);
        let c = p.allowed_count(sides, q, n);
        if forall|s: int| 0 <= s < n && #[trigger] p.allowed(sides, q, s) ==> s == side {
            assert(forall|s: int| 0 <= s < n - 1 && #[trigger] p.allowed(sides, q, s) ==> s == side);
        } else {
            let s = choose|s: int| 0 <= s < n && #[trigger] p.allowed(sides, q, s) && s != side;
            if s < n - 1 {
                assert(!(forall|s: int|
                    0 <= s < n - 1 && #[trigger] p.allowed(sides, q, s) ==> s == side));
            }
        }
    }
}

} // verus!
