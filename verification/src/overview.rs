//! What holds of what a board says of itself: its links, its handlers and the boards that it knows.
use vstd::prelude::*;
use crate::jobs::Handler;
use crate::meta::{DataEndpoint, FIRST_USER_ENDPOINT};
use crate::presence;
use crate::presence::AnnouncerSpec;
use crate::report;
use crate::router::Router;
use crate::routes;
use crate::routes::PolicySpec;
use crate::schema;
use crate::station::Station;

verus! {

/// Whether a board was heard of lately over a link, or over any.
pub open spec fn someone_heard(s: Seq<AnnouncerSpec>, side: Option<usize>, now: u64) -> bool {
    exists|i: int|
        0 <= i < s.len() && (#[trigger] s[i]).live(now) && (side is None || s[i].side == side->0)
}

/// There are names of boards exactly where a board was heard of lately, one for each.
proof fn lemma_names_of_someone(s: Seq<AnnouncerSpec>, side: Option<usize>, now: u64)
    ensures
        presence::names(s, side, now).len() > 0 <==> someone_heard(s, side, now),
        forall|name: Seq<char>| #[trigger]
            presence::names(s, side, now).contains(name) <==> exists|i: int|
                0 <= i < s.len() && (#[trigger] s[i]).live(now) && (side is None || s[i].side
                    == side->0) && s[i].name == name,
    decreases s.len(),
{
    let all = presence::names(s, side, now);
    if s.len() > 0 {
        let front = s.drop_last();
        let few = presence::names(front, side, now);
        let last = s.last();
        let joins = last.live(now) && (side is None || last.side == side->0);
        lemma_names_of_someone(front, side, now);
        assert(last.is(side, None) == (side is None || last.side == side->0));
        if joins {
            assert(all == few.push(last.name));
            assert(s[s.len() - 1].live(now));
        }
        assert forall|name: Seq<char>| #[trigger] all.contains(name) <==> exists|i: int|
            0 <= i < s.len() && (#[trigger] s[i]).live(now) && (side is None || s[i].side
                == side->0) && s[i].name == name by {
            if all.contains(name) {
                let k = choose|k: int| 0 <= k < all.len() && all[k] == name;
                if k < few.len() {
                    assert(few[k] == name);
                    assert(few.contains(name));
                    let i = choose|i: int|
                        0 <= i < front.len() && (#[trigger] front[i]).live(now) && (side is None
                            || front[i].side == side->0) && front[i].name == name;
                    assert(s[i].live(now));
                } else {
                    assert(s[s.len() - 1].live(now));
                }
            }
            if exists|i: int|
                0 <= i < s.len() && (#[trigger] s[i]).live(now) && (side is None || s[i].side
                    == side->0) && s[i].name == name {
                let i = choose|i: int|
                    0 <= i < s.len() && (#[trigger] s[i]).live(now) && (side is None || s[i].side
                        == side->0) && s[i].name == name;
                if i < front.len() {
                    assert(front[i].live(now));
                    assert(few.contains(name));
                    let k = choose|k: int| 0 <= k < few.len() && few[k] == name;
                    assert(all[k] == name);
                } else {
                    assert(all[few.len() as int] == name);
                }
            }
        }
        if few.len() > 0 {
            let i = choose|i: int|
                0 <= i < front.len() && (#[trigger] front[i]).live(now) && (side is None
                    || front[i].side == side->0);
            assert(s[i].live(now));
        }
        if someone_heard(s, side, now) {
            let i = choose|i: int|
                0 <= i < s.len() && (#[trigger] s[i]).live(now) && (side is None || s[i].side
                    == side->0);
            if i < front.len() {
                assert(front[i].live(now));
            }
        }
    }
}

/// The endpoints that a board says it serves are those of programs that it has a handler for.
pub proof fn lemma_served_endpoints(hs: Seq<Handler>)
    ensures
        forall|e: DataEndpoint| #[trigger]
            report::own_endpoints(hs).contains(e) <==> e >= FIRST_USER_ENDPOINT && exists|i: int|
                0 <= i < hs.len() && (#[trigger] hs[i]).endpoint == e,
    decreases hs.len(),
{
    let all = report::own_endpoints(hs);
    if hs.len() > 0 {
        let front = hs.drop_last();
        let few = report::own_endpoints(front);
        lemma_served_endpoints(front);
        assert forall|e: DataEndpoint| #[trigger] all.contains(e) <==> e >= FIRST_USER_ENDPOINT
            && exists|i: int| 0 <= i < hs.len() && (#[trigger] hs[i]).endpoint == e by {
            if all.contains(e) {
                let k = choose|k: int| 0 <= k < all.len() && all[k] == e;
                if k < few.len() {
                    assert(few[k] == e);
                    assert(few.contains(e));
                    let i = choose|i: int|
                        0 <= i < front.len() && (#[trigger] front[i]).endpoint == e;
                    assert(hs[i].endpoint == e);
                } else {
                    assert(hs[hs.len() - 1].endpoint == e);
                }
            }
            if e >= FIRST_USER_ENDPOINT && exists|i: int|
                0 <= i < hs.len() && (#[trigger] hs[i]).endpoint == e {
                let i = choose|i: int| 0 <= i < hs.len() && (#[trigger] hs[i]).endpoint == e;
                if i < front.len() {
                    assert(front[i].endpoint == e);
                    assert(few.contains(e));
                    let k = choose|k: int| 0 <= k < few.len() && few[k] == e;
                    assert(all[k] == e);
                } else {
                    assert(all[few.len() as int] == e);
                }
            }
        }
    }
}

/// The links over which boards are heard are those that are there and over which a board was heard
/// of lately; each is listed once, in ascending order.
pub proof fn lemma_links_with_boards(s: Station, n: nat, now: u64)
    requires
        n <= s.core.sides@.len(),
    ensures
        forall|i: usize| #[trigger]
            s.heard_list(n, now).contains(i) <==> i < n && s.core.sides@[i as int].alive
                && someone_heard(s.core.presence@, Some(i), now),
        forall|i: int, j: int|
            0 <= i < j < s.heard_list(n, now).len() ==> s.heard_list(n, now)[i] < s.heard_list(
                n,
                now,
            )[j],
    decreases n,
{
    let all = s.heard_list(n, now);
    assert(s.core.sides@.len() == s.core.sides.len());
    if n > 0 {
        let few = s.heard_list((n - 1) as nat, now);
        lemma_links_with_boards(s, (n - 1) as nat, now);
        lemma_names_of_someone(s.core.presence@, Some((n - 1) as usize), now);
        assert forall|i: usize| #[trigger] all.contains(i) <==> i < n
            && s.core.sides@[i as int].alive && someone_heard(s.core.presence@, Some(i), now) by {
            assert(few.contains(i) <==> i < n - 1 && s.core.sides@[i as int].alive && someone_heard(
                s.core.presence@,
                Some(i),
                now,
            ));
            if all.contains(i) {
                let k = choose|k: int| 0 <= k < all.len() && all[k] == i;
                if k < few.len() {
                    assert(few[k] == i);
                }
            }
            if few.contains(i) {
                let k = choose|k: int| 0 <= k < few.len() && few[k] == i;
                assert(all[k] == i);
            } else if i == n - 1 && s.is_heard_over(n - 1, now) {
                assert(all[few.len() as int] == i);
            }
        }
        assert forall|i: int| 0 <= i < few.len() implies #[trigger] few[i] < n - 1 by {
            assert(few.contains(few[i]));
        }
    }
}

/// The number of links over which boards are heard counts each such link once, and no other.
pub proof fn lemma_links_are_counted(p: Seq<AnnouncerSpec>, n: nat, now: u64)
    requires
        n < usize::MAX,
    ensures
        report::heard_over(p, n, now) <= n,
        report::heard_over(p, (n + 1) as nat, now) - report::heard_over(p, n, now) == (
        if someone_heard(p, Some(n as usize), now) {
            1int
        } else {
            0
        }),
    decreases n,
{
    lemma_names_of_someone(p, Some(n as usize), now);
    if n > 0 {
        lemma_links_are_counted(p, (n - 1) as nat, now);
    }
}

/// A board knows itself with all its neighbours, each of its neighbours, and whatever these told of;
/// and no other boards.
pub proof fn lemma_boards_that_are_known(s: Station, now: u64, name: Seq<char>)
    ensures
        ({
            let known = s.boards_known(now);
            let told = presence::told_boards(s.core.presence@, None, now);
            &&& known.len() > 0
            &&& known[0].sender_id == s.core.sender@
            &&& known[0].connections.contains(name) <==> exists|i: int|
                0 <= i < s.core.presence@.len() && (#[trigger] s.core.presence@[i]).live(now)
                    && s.core.presence@[i].name == name
            &&& known[0].connections.contains(name) ==> exists|k: int|
                0 < k < known.len() && (#[trigger] known[k]).sender_id == name
            &&& forall|k: int| 0 <= k < told.len() ==> known.contains(#[trigger] told[k])
            &&& forall|k: int|
                0 < k < known.len() ==> known[0].connections.contains(
                    (#[trigger] known[k]).sender_id,
                ) || told.contains(known[k])
        }),
{
    let known = s.boards_known(now);
    let told = presence::told_boards(s.core.presence@, None, now);
    let names = presence::names(s.core.presence@, None, now);
    lemma_names_of_someone(s.core.presence@, None, now);
    let here = seq![report::bare_board(s.core.sender@, names)];
    let near = report::bare_boards(names);
    assert(known == here + near + told);
    assert(known[0] == here[0]);
    if names.contains(name) {
        let i = choose|i: int| 0 <= i < names.len() && names[i] == name;
        assert(known[i + 1] == near[i]);
        assert(known[i + 1].sender_id == name);
    }
    assert forall|k: int| 0 <= k < told.len() implies known.contains(#[trigger] told[k]) by {
        assert(known[1 + near.len() + k] == told[k]);
    }
    assert forall|k: int| 0 < k < known.len() implies known[0].connections.contains(
        (#[trigger] known[k]).sender_id,
    ) || told.contains(known[k]) by {
        if k <= near.len() {
            assert(known[k] == near[k - 1]);
            assert(names[k - 1] == known[k].sender_id);
        } else {
            assert(known[k] == told[k - 1 - near.len()]);
        }
    }
}

/// A row of the table of routes says what was said for its source and its link, and for no other
/// two: to say something for another source or link changes no row but that one's.
pub proof fn lemma_rows_stand_for_themselves(
    p: PolicySpec,
    a: Option<usize>,
    i: usize,
    b: Option<usize>,
    j: usize,
    w: u32,
)
    requires
        routes::fair_source(a),
        routes::fair_source(b),
        i < routes::MAX_SIDES,
        j < routes::MAX_SIDES,
    ensures
        ({
            let q = PolicySpec {
                weights: p.weights.insert(routes::route_key(b, j as int), w),
                ..p
            };
            &&& a == b && i == j ==> report::row(q, a, i).weight == Some(w)
            &&& !(a == b && i == j) ==> report::row(q, a, i) == report::row(p, a, i)
            &&& report::row(p, a, i).source == a && report::row(p, a, i).side == i
        }),
{
    if routes::route_key(a, i as int) == routes::route_key(b, j as int) {
        routes::lemma_route_keys_differ(a, i as int, b, j as int);
    }
}

/// Over each of its links a board tells of all its neighbours, those on other links too.
pub proof fn lemma_neighbours_are_announced(
    r: Router,
    sc: schema::SchemaSpec,
    side: usize,
    now: u64,
    name: Seq<char>,
)
    ensures
        r.board_over(sc, side, now).sender_id == r.sender@,
        r.board_over(sc, side, now).connections.contains(name) <==> exists|i: int|
            0 <= i < r.presence@.len() && (#[trigger] r.presence@[i]).live(now)
                && r.presence@[i].name == name,
{
    lemma_names_of_someone(r.presence@, None, now);
}

} // verus!
