//! What holds of what a board knows of others.
use vstd::prelude::*;
use crate::codec;
use crate::discovery::{BoardSpec, DISCOVERY_ROUTE_TTL_MS};
use crate::meta::{DataEndpoint, FIRST_USER_ENDPOINT};
use crate::presence;
use crate::presence::AnnouncerSpec;
use crate::topology;

verus! {

/// Whether a board that is in a list was heard of lately over a link, or over any.
pub open spec fn near(s: Seq<AnnouncerSpec>, side: Option<usize>, now: u64, e: AnnouncerSpec) -> bool {
    s.contains(e) && e.live(now) && (side is None || side == Some(e.side))
}

proof fn lemma_near_last(s: Seq<AnnouncerSpec>, side: Option<usize>, now: u64, e: AnnouncerSpec)
    requires
        s.len() > 0,
    ensures
        near(s, side, now, e) <==> near(s.drop_last(), side, now, e) || (e == s.last() && e.live(
            now,
        ) && e.is(side, None)),
{
    let rest = s.drop_last();
    if s.contains(e) {
        let i = choose|i: int| 0 <= i < s.len() && s[i] == e;
        if i < rest.len() {
            assert(rest[i] == e);
        }
    }
    if rest.contains(e) {
        let i = choose|i: int| 0 <= i < rest.len() && rest[i] == e;
        assert(s[i] == e);
    }
    assert(s[s.len() - 1] == s.last());
}

/// What a board says of itself holds from the moment it is heard for as long as knowledge lasts,
/// and not a moment longer.
pub proof fn lemma_knowledge_lasts(e: AnnouncerSpec, now: u64, later: u64)
    requires
        e.last_seen <= now <= later,
    ensures
        e.live(e.last_seen),
        e.live(later) ==> e.live(now),
        e.live(later) <==> later - e.last_seen <= DISCOVERY_ROUTE_TTL_MS,
{
}

/// A link leads to an endpoint exactly where a board was heard of lately over it that has the
/// endpoint, or tells of one that has it; the endpoints of the network itself lead nowhere.
pub proof fn lemma_leads_where_someone_has_it(
    s: Seq<AnnouncerSpec>,
    side: Option<usize>,
    ep: DataEndpoint,
    now: u64,
)
    ensures
        presence::reaches(s, side, ep, now) <==> ep >= FIRST_USER_ENDPOINT && exists|
            e: AnnouncerSpec,
        | #[trigger]
            near(s, side, now, e) && (e.endpoints.contains(ep) || exists|b: BoardSpec| #[trigger]
                e.boards.contains(b) && b.reachable_endpoints.contains(ep)),
{
    if presence::reaches(s, side, ep, now) {
        let i = choose|i: int|
            0 <= i < s.len() && (#[trigger] s[i]).is(side, None) && s[i].live(now) && s[i].offers(
                ep,
            );
        let e = s[i];
        assert(s.contains(e));
        if !e.endpoints.contains(ep) {
            let k = choose|k: int|
                0 <= k < e.boards.len() && (#[trigger] e.boards[k]).reachable_endpoints.contains(ep);
            assert(e.boards.contains(e.boards[k]));
        }
        assert(near(s, side, now, e));
    }
    if ep >= FIRST_USER_ENDPOINT && exists|e: AnnouncerSpec| #[trigger]
        near(s, side, now, e) && (e.endpoints.contains(ep) || exists|b: BoardSpec| #[trigger]
            e.boards.contains(b) && b.reachable_endpoints.contains(ep)) {
        let e = choose|e: AnnouncerSpec| #[trigger]
            near(s, side, now, e) && (e.endpoints.contains(ep) || exists|b: BoardSpec| #[trigger]
                e.boards.contains(b) && b.reachable_endpoints.contains(ep));
        let i = choose|i: int| 0 <= i < s.len() && s[i] == e;
        if !e.endpoints.contains(ep) {
            let b = choose|b: BoardSpec| #[trigger]
                e.boards.contains(b) && b.reachable_endpoints.contains(ep);
            let k = choose|k: int| 0 <= k < e.boards.len() && e.boards[k] == b;
            assert(e.boards[k].reachable_endpoints.contains(ep));
        }
        assert(s[i].offers(ep));
    }
}

/// An endpoint can be reached elsewhere where it can be reached over some link, but that one.
pub proof fn lemma_elsewhere_is_another_link(
    s: Seq<AnnouncerSpec>,
    side: usize,
    ep: DataEndpoint,
    now: u64,
)
    ensures
        presence::reaches_elsewhere(s, side, ep, now) <==> exists|other: usize|
            other != side && #[trigger] presence::reaches(s, Some(other), ep, now),
{
    if presence::reaches_elsewhere(s, side, ep, now) {
        let i = choose|i: int|
            0 <= i < s.len() && (#[trigger] s[i]).side != side && s[i].live(now) && s[i].offers(ep);
        assert(s[i].is(Some(s[i].side), None));
        assert(presence::reaches(s, Some(s[i].side), ep, now));
    }
    if exists|other: usize| other != side && #[trigger] presence::reaches(s, Some(other), ep, now) {
        let other = choose|other: usize|
            other != side && #[trigger] presence::reaches(s, Some(other), ep, now);
        let i = choose|i: int|
            0 <= i < s.len() && (#[trigger] s[i]).is(Some(other), None) && s[i].live(now)
                && s[i].offers(ep);
        assert(s[i].side != side);
    }
}

/// How many endpoints a link leads to: for two lists together as many as for each, for one
/// endpoint one or none. So it is none exactly where the link leads to none of them, and all where
/// it leads to all.
pub proof fn lemma_overlap_counts(
    s: Seq<AnnouncerSpec>,
    side: usize,
    a: Seq<DataEndpoint>,
    b: Seq<DataEndpoint>,
    ep: DataEndpoint,
    now: u64,
)
    ensures
        presence::overlap(s, side, a + b, now) == presence::overlap(s, side, a, now)
            + presence::overlap(s, side, b, now),
        presence::overlap(s, side, seq![ep], now) == (if presence::reaches(s, Some(side), ep, now) {
            1nat
        } else {
            0nat
        }),
        presence::overlap(s, side, a, now) == 0 <==> forall|i: int|
            0 <= i < a.len() ==> !presence::reaches(s, Some(side), #[trigger] a[i], now),
        presence::overlap(s, side, a, now) == a.len() <==> forall|i: int|
            0 <= i < a.len() ==> presence::reaches(s, Some(side), #[trigger] a[i], now),
        presence::overlap(s, side, a, now) <= a.len(),
    decreases a.len() + b.len(),
{
    let one = seq![ep];
    assert(one.drop_last() =~= Seq::<DataEndpoint>::empty());
    assert(presence::overlap(s, side, one.drop_last(), now) == 0);
    if b.len() > 0 {
        assert((a + b).drop_last() =~= a + b.drop_last());
        lemma_overlap_counts(s, side, a, b.drop_last(), ep, now);
    } else {
        assert(a + b =~= a);
        if a.len() > 0 {
            let rest = a.drop_last();
            lemma_overlap_counts(s, side, rest, Seq::empty(), ep, now);
            let last = a.len() - 1;
            let yes = presence::reaches(s, Some(side), a[last], now);
            if presence::overlap(s, side, a, now) == 0 {
                assert forall|i: int| 0 <= i < a.len() implies !presence::reaches(
                    s,
                    Some(side),
                    #[trigger] a[i],
                    now,
                ) by {
                    if i < last {
                        assert(rest[i] == a[i]);
                    }
                }
            } else {
                if yes {
                    assert(presence::reaches(s, Some(side), a[last], now));
                } else {
                    let i = choose|i: int|
                        0 <= i < rest.len() && presence::reaches(s, Some(side), #[trigger] rest[i], now);
                    assert(presence::reaches(s, Some(side), a[i], now));
                }
            }
            if presence::overlap(s, side, a, now) == a.len() {
                assert forall|i: int| 0 <= i < a.len() implies presence::reaches(
                    s,
                    Some(side),
                    #[trigger] a[i],
                    now,
                ) by {
                    if i < last {
                        assert(rest[i] == a[i]);
                    }
                }
            } else {
                if !yes {
                    assert(!presence::reaches(s, Some(side), a[last], now));
                } else {
                    let i = choose|i: int|
                        0 <= i < rest.len() && !presence::reaches(
                            s,
                            Some(side),
                            #[trigger] rest[i],
                            now,
                        );
                    assert(!presence::reaches(s, Some(side), a[i], now));
                }
            }
        }
    }
}

/// The endpoints that can be reached are listed each once, in ascending order, and none is left
/// out.
pub proof fn lemma_reached_lists_all(
    s: Seq<AnnouncerSpec>,
    side: Option<usize>,
    now: u64,
    n: nat,
)
    requires
        n <= u32::MAX,
    ensures
        forall|ep: DataEndpoint| #[trigger]
            presence::reached(s, side, now, n).contains(ep) <==> ep < n && presence::reaches(
                s,
                side,
                ep,
                now,
            ),
        forall|i: int, j: int|
            0 <= i < j < presence::reached(s, side, now, n).len() ==> presence::reached(
                s,
                side,
                now,
                n,
            )[i] < presence::reached(s, side, now, n)[j],
    decreases n,
{
    if n > 0 {
        let front = presence::reached(s, side, now, (n - 1) as nat);
        let all = presence::reached(s, side, now, n);
        lemma_reached_lists_all(s, side, now, (n - 1) as nat);
        assert forall|i: int| 0 <= i < front.len() implies #[trigger] front[i] < n - 1 by {
            assert(front.contains(front[i]));
        }
        assert forall|ep: DataEndpoint| #[trigger] all.contains(ep) <==> ep < n
            && presence::reaches(s, side, ep, now) by {
            assert(front.contains(ep) <==> ep < n - 1 && presence::reaches(s, side, ep, now));
            if all.contains(ep) {
                let i = choose|i: int| 0 <= i < all.len() && all[i] == ep;
                if i < front.len() {
                    assert(front[i] == ep);
                }
            }
            if ep < n && presence::reaches(s, side, ep, now) {
                if ep < n - 1 {
                    let i = choose|i: int| 0 <= i < front.len() && front[i] == ep;
                    assert(all[i] == ep);
                } else {
                    assert(all[front.len() as int] == ep);
                }
            }
        }
    }
}

/// Two lists joined hold what either holds, each new text once, and what was there stays in front.
pub proof fn lemma_joined_holds_both(v: Seq<Seq<char>>, more: Seq<Seq<char>>)
    ensures
        forall|t: Seq<char>| #[trigger]
            presence::joined(v, more).contains(t) <==> v.contains(t) || more.contains(t),
        v.no_duplicates() ==> presence::joined(v, more).no_duplicates(),
        v.len() <= presence::joined(v, more).len(),
        presence::joined(v, more).take(v.len() as int) == v,
    decreases more.len(),
{
    let all = presence::joined(v, more);
    if more.len() == 0 {
        assert(v.take(v.len() as int) =~= v);
    } else {
        let rest = more.drop_last();
        let front = presence::joined(v, rest);
        lemma_joined_holds_both(v, rest);
        assert forall|t: Seq<char>| #[trigger] all.contains(t) <==> v.contains(t) || more.contains(
            t,
        ) by {
            assert(front.contains(t) <==> v.contains(t) || rest.contains(t));
            lemma_contains_last(more, t);
            if !front.contains(more.last()) {
                lemma_contains_last(all, t);
                assert(all.drop_last() =~= front);
            }
        }
        if !front.contains(more.last()) {
            assert(all.take(v.len() as int) =~= front.take(v.len() as int));
        }
    }
}

proof fn lemma_contains_last<T>(s: Seq<T>, x: T)
    requires
        s.len() > 0,
    ensures
        s.contains(x) <==> s.drop_last().contains(x) || s.last() == x,
{
    let rest = s.drop_last();
    if s.contains(x) {
        let i = choose|i: int| 0 <= i < s.len() && s[i] == x;
        if i < rest.len() {
            assert(rest[i] == x);
        }
    }
    if rest.contains(x) {
        let i = choose|i: int| 0 <= i < rest.len() && rest[i] == x;
        assert(s[i] == x);
    }
    assert(s[s.len() - 1] == s.last());
}

proof fn lemma_contains_join<T>(a: Seq<T>, b: Seq<T>, x: T)
    ensures
        (a + b).contains(x) <==> a.contains(x) || b.contains(x),
{
    let s = a + b;
    if s.contains(x) {
        let i = choose|i: int| 0 <= i < s.len() && s[i] == x;
        if i < a.len() {
            assert(a[i] == x);
        } else {
            assert(b[i - a.len()] == x);
        }
    }
    if a.contains(x) {
        let i = choose|i: int| 0 <= i < a.len() && a[i] == x;
        assert(s[i] == x);
    }
    if b.contains(x) {
        let i = choose|i: int| 0 <= i < b.len() && b[i] == x;
        assert(s[a.len() + i] == x);
    }
}

/// The time sources are those that boards tell of that were heard of lately, each once.
pub proof fn lemma_sources_are_what_boards_tell(
    s: Seq<AnnouncerSpec>,
    side: Option<usize>,
    now: u64,
)
    ensures
        presence::sources(s, side, now).no_duplicates(),
        forall|t: Seq<char>| #[trigger]
            presence::sources(s, side, now).contains(t) <==> exists|e: AnnouncerSpec| #[trigger]
                near(s, side, now, e) && e.sources.contains(t),
    decreases s.len(),
{
    if s.len() > 0 {
        let rest = s.drop_last();
        let last = s.last();
        let front = presence::sources(rest, side, now);
        lemma_sources_are_what_boards_tell(rest, side, now);
        lemma_joined_holds_both(front, last.sources);
        assert forall|t: Seq<char>| #[trigger]
            presence::sources(s, side, now).contains(t) <==> exists|e: AnnouncerSpec| #[trigger]
                near(s, side, now, e) && e.sources.contains(t) by {
            lemma_near_last(s, side, now, last);
            if presence::sources(s, side, now).contains(t) {
                if front.contains(t) {
                    let e = choose|e: AnnouncerSpec| #[trigger]
                        near(rest, side, now, e) && e.sources.contains(t);
                    lemma_near_last(s, side, now, e);
                } else {
                    assert(near(s, side, now, last) && last.sources.contains(t));
                }
            }
            if exists|e: AnnouncerSpec| #[trigger]
                near(s, side, now, e) && e.sources.contains(t) {
                let e = choose|e: AnnouncerSpec| #[trigger]
                    near(s, side, now, e) && e.sources.contains(t);
                lemma_near_last(s, side, now, e);
                if near(rest, side, now, e) {
                    assert(front.contains(t));
                }
            }
        }
    }
}

/// The boards that take packets for endpoints are listed by their addresses, each once: those that
/// were heard of lately and have one of the endpoints, and, where no endpoints are given, all that
/// were heard of lately.
pub proof fn lemma_holders_are_who_has_it(
    s: Seq<AnnouncerSpec>,
    eps: Option<Seq<DataEndpoint>>,
    now: u64,
)
    ensures
        presence::holders(s, eps, now).no_duplicates(),
        forall|a: u32| #[trigger]
            presence::holders(s, eps, now).contains(a) <==> exists|e: AnnouncerSpec| #[trigger]
                near(s, None, now, e) && e.address == a && (eps matches Some(v) ==> exists|i: int|
                    0 <= i < v.len() && e.offers(#[trigger] v[i])),
    decreases s.len(),
{
    if s.len() > 0 {
        let rest = s.drop_last();
        let last = s.last();
        let front = presence::holders(rest, eps, now);
        let all = presence::holders(s, eps, now);
        lemma_holders_are_who_has_it(rest, eps, now);
        let has = |e: AnnouncerSpec| (eps matches Some(v) ==> exists|i: int|
            0 <= i < v.len() && e.offers(#[trigger] v[i]));
        assert forall|e: AnnouncerSpec| #[trigger] e.takes(eps) == has(e) by {
            match eps {
                Some(v) => {
                    if e.offers_any(v) {
                        let i = choose|i: int| 0 <= i < v.len() && #[trigger] e.offers(v[i]);
                        assert(e.offers(v[i]));
                    }
                    if exists|i: int| 0 <= i < v.len() && e.offers(#[trigger] v[i]) {
                        let i = choose|i: int| 0 <= i < v.len() && e.offers(#[trigger] v[i]);
                        assert(e.offers(v[i]));
                    }
                },
                None => {},
            }
        }
        assert forall|a: u32| #[trigger] all.contains(a) <==> exists|e: AnnouncerSpec| #[trigger]
            near(s, None, now, e) && e.address == a && has(e) by {
            lemma_near_last(s, None, now, last);
            assert(last.takes(eps) == has(last));
            if last.live(now) && last.takes(eps) && !front.contains(last.address) {
                lemma_contains_last(all, a);
                assert(all.drop_last() =~= front);
            }
            if all.contains(a) {
                if front.contains(a) {
                    let e = choose|e: AnnouncerSpec| #[trigger]
                        near(rest, None, now, e) && e.address == a && has(e);
                    lemma_near_last(s, None, now, e);
                } else {
                    assert(near(s, None, now, last) && last.address == a && has(last));
                }
            }
            if exists|e: AnnouncerSpec| #[trigger]
                near(s, None, now, e) && e.address == a && has(e) {
                let e = choose|e: AnnouncerSpec| #[trigger]
                    near(s, None, now, e) && e.address == a && has(e);
                lemma_near_last(s, None, now, e);
                if near(rest, None, now, e) {
                    assert(front.contains(a));
                }
            }
        }
        assert forall|a: u32| #[trigger] all.contains(a) <==> exists|e: AnnouncerSpec| #[trigger]
            near(s, None, now, e) && e.address == a && (eps matches Some(v) ==> exists|i: int|
                0 <= i < v.len() && e.offers(#[trigger] v[i])) by {
            if all.contains(a) {
                let e = choose|e: AnnouncerSpec| #[trigger]
                    near(s, None, now, e) && e.address == a && has(e);
                assert(near(s, None, now, e));
            }
            if exists|e: AnnouncerSpec| #[trigger]
                near(s, None, now, e) && e.address == a && (eps matches Some(v) ==> exists|i: int|
                    0 <= i < v.len() && e.offers(#[trigger] v[i])) {
                let e = choose|e: AnnouncerSpec| #[trigger]
                    near(s, None, now, e) && e.address == a && (eps matches Some(v) ==> exists|
                        i: int,
                    |
                        0 <= i < v.len() && e.offers(#[trigger] v[i]));
                assert(has(e));
            }
        }
    }
}

/// The boards that are told of, and the names of those who tell, are those of all boards that were
/// heard of lately over the link, and of no others.
pub proof fn lemma_told_boards_are_all(s: Seq<AnnouncerSpec>, side: Option<usize>, now: u64)
    ensures
        forall|b: BoardSpec| #[trigger]
            presence::told_boards(s, side, now).contains(b) <==> exists|e: AnnouncerSpec| #[trigger]
                near(s, side, now, e) && e.boards.contains(b),
        forall|t: Seq<char>| #[trigger]
            presence::names(s, side, now).contains(t) <==> exists|e: AnnouncerSpec| #[trigger]
                near(s, side, now, e) && e.name == t,
    decreases s.len(),
{
    if s.len() > 0 {
        let rest = s.drop_last();
        let last = s.last();
        lemma_told_boards_are_all(rest, side, now);
        lemma_near_last(s, side, now, last);
        let front = presence::told_boards(rest, side, now);
        let before = presence::names(rest, side, now);
        let all = presence::names(s, side, now);
        assert forall|b: BoardSpec| #[trigger]
            presence::told_boards(s, side, now).contains(b) <==> exists|e: AnnouncerSpec| #[trigger]
                near(s, side, now, e) && e.boards.contains(b) by {
            lemma_contains_join(front, last.boards, b);
            if presence::told_boards(s, side, now).contains(b) {
                if front.contains(b) {
                    let e = choose|e: AnnouncerSpec| #[trigger]
                        near(rest, side, now, e) && e.boards.contains(b);
                    lemma_near_last(s, side, now, e);
                } else {
                    assert(near(s, side, now, last) && last.boards.contains(b));
                }
            }
            if exists|e: AnnouncerSpec| #[trigger] near(s, side, now, e) && e.boards.contains(b) {
                let e = choose|e: AnnouncerSpec| #[trigger]
                    near(s, side, now, e) && e.boards.contains(b);
                lemma_near_last(s, side, now, e);
                if near(rest, side, now, e) {
                    assert(front.contains(b));
                }
            }
        }
        assert forall|t: Seq<char>| #[trigger] all.contains(t) <==> exists|e: AnnouncerSpec| #[trigger]
            near(s, side, now, e) && e.name == t by {
            if last.is(side, None) && last.live(now) {
                lemma_contains_last(all, t);
                assert(all.drop_last() =~= before);
            }
            if all.contains(t) {
                if before.contains(t) {
                    let e = choose|e: AnnouncerSpec| #[trigger]
                        near(rest, side, now, e) && e.name == t;
                    lemma_near_last(s, side, now, e);
                } else {
                    assert(near(s, side, now, last) && last.name == t);
                }
            }
            if exists|e: AnnouncerSpec| #[trigger] near(s, side, now, e) && e.name == t {
                let e = choose|e: AnnouncerSpec| #[trigger] near(s, side, now, e) && e.name == t;
                lemma_near_last(s, side, now, e);
                if near(rest, side, now, e) {
                    assert(before.contains(t));
                }
            }
        }
    }
}

/// That a board with a name was heard of lately.
pub open spec fn by_name(name: Seq<char>, now: u64) -> spec_fn(AnnouncerSpec) -> bool {
    |x: AnnouncerSpec| x.live(now) && x.name == name
}

/// That a board with an address was heard of lately.
pub open spec fn by_address(address: u32, now: u64) -> spec_fn(AnnouncerSpec) -> bool {
    |x: AnnouncerSpec| x.live(now) && x.address == address
}

/// That a board that tells of a time source was heard of lately.
pub open spec fn by_source(name: Seq<char>, now: u64) -> spec_fn(AnnouncerSpec) -> bool {
    |x: AnnouncerSpec| x.live(now) && x.sources.contains(name)
}

/// That something was heard over a link, of an address.
pub open spec fn by_link(side: Option<usize>, address: Option<u32>) -> spec_fn(AnnouncerSpec) -> bool {
    |x: AnnouncerSpec|
        (side is None || side == Some(x.side)) && (address is None || address == Some(x.address))
}

/// Whether an entry is the last of those in a list that a statement holds of.
pub open spec fn is_last_of(
    s: Seq<AnnouncerSpec>,
    f: spec_fn(AnnouncerSpec) -> bool,
    i: int,
) -> bool {
    &&& 0 <= i < s.len() && f(s[i])
    &&& forall|k: int| i < k < s.len() ==> !f(#[trigger] s[k])
}

/// What is found of a board is the latest that is known of it: by its name, the way to it, the way
/// to a time source, and what was heard over a link; and nothing is found only where there is
/// nothing.
pub proof fn lemma_latest_is_found(
    s: Seq<AnnouncerSpec>,
    name: Seq<char>,
    address: u32,
    side: Option<usize>,
    which: Option<u32>,
    now: u64,
)
    ensures
        match presence::client_entry(s, name, now) {
            Some(e) => exists|i: int| #[trigger]
                is_last_of(s, by_name(name, now), i) && s[i] == e,
            None => forall|i: int|
                0 <= i < s.len() ==> !((#[trigger] s[i]).live(now) && s[i].name == name),
        },
        match presence::way_to_board(s, address, now) {
            Some(w) => exists|i: int| #[trigger]
                is_last_of(s, by_address(address, now), i)
                    && s[i].side == w,
            None => forall|i: int|
                0 <= i < s.len() ==> !((#[trigger] s[i]).live(now) && s[i].address == address),
        },
        match presence::way_to_source(s, name, now) {
            Some(w) => exists|i: int| #[trigger]
                is_last_of(s, by_source(name, now), i)
                    && s[i].side == w,
            None => forall|i: int|
                0 <= i < s.len() ==> !((#[trigger] s[i]).live(now) && s[i].sources.contains(name)),
        },
        match presence::found(s, side, which) {
            Some(e) => exists|i: int| #[trigger]
                is_last_of(s, by_link(side, which), i) && s[i] == e,
            None => forall|i: int| 0 <= i < s.len() ==> !(#[trigger] s[i]).is(side, which),
        },
    decreases s.len(),
{
    let f_name = by_name(name, now);
    let f_address = by_address(address, now);
    let f_source = by_source(name, now);
    let f_link = by_link(side, which);
    if s.len() > 0 {
        let rest = s.drop_last();
        let n = s.len() - 1;
        lemma_latest_is_found(rest, name, address, side, which, now);
        lemma_last_grows(s, f_name);
        lemma_last_grows(s, f_address);
        lemma_last_grows(s, f_source);
        lemma_last_grows(s, f_link);
        if presence::client_entry(s, name, now) is Some && !f_name(s[n]) {
            let i = choose|i: int| #[trigger]
                is_last_of(rest, f_name, i) && rest[i] == presence::client_entry(s, name, now)->0;
            assert(is_last_of(s, f_name, i));
        }
        if presence::way_to_board(s, address, now) is Some && !f_address(s[n]) {
            let i = choose|i: int| #[trigger]
                is_last_of(rest, f_address, i) && rest[i].side == presence::way_to_board(
                    s,
                    address,
                    now,
                )->0;
            assert(is_last_of(s, f_address, i));
        }
        if presence::way_to_source(s, name, now) is Some && !f_source(s[n]) {
            let i = choose|i: int| #[trigger]
                is_last_of(rest, f_source, i) && rest[i].side == presence::way_to_source(
                    s,
                    name,
                    now,
                )->0;
            assert(is_last_of(s, f_source, i));
        }
        if presence::found(s, side, which) is Some && !f_link(s[n]) {
            let i = choose|i: int| #[trigger]
                is_last_of(rest, f_link, i) && rest[i] == presence::found(s, side, which)->0;
            assert(is_last_of(s, f_link, i));
        }
        assert forall|i: int|
            0 <= i < s.len() && presence::client_entry(s, name, now) is None implies !((
        #[trigger] s[i]).live(now) && s[i].name == name) by {
            if i < n {
                assert(rest[i] == s[i]);
            }
        }
        assert forall|i: int|
            0 <= i < s.len() && presence::way_to_board(s, address, now) is None implies !((
        #[trigger] s[i]).live(now) && s[i].address == address) by {
            if i < n {
                assert(rest[i] == s[i]);
            }
        }
        assert forall|i: int|
            0 <= i < s.len() && presence::way_to_source(s, name, now) is None implies !((
        #[trigger] s[i]).live(now) && s[i].sources.contains(name)) by {
            if i < n {
                assert(rest[i] == s[i]);
            }
        }
        assert forall|i: int|
            0 <= i < s.len() && presence::found(s, side, which) is None implies !(
        #[trigger] s[i]).is(side, which) by {
            if i < n {
                assert(rest[i] == s[i]);
            }
        }
    }
}

proof fn lemma_last_grows(s: Seq<AnnouncerSpec>, f: spec_fn(AnnouncerSpec) -> bool)
    requires
        s.len() > 0,
    ensures
        f(s[s.len() - 1]) ==> is_last_of(s, f, s.len() - 1),
        !f(s[s.len() - 1]) ==> forall|i: int| #[trigger]
            is_last_of(s.drop_last(), f, i) ==> is_last_of(s, f, i),
{
    let rest = s.drop_last();
    if !f(s[s.len() - 1]) {
        assert forall|i: int| #[trigger] is_last_of(rest, f, i) implies is_last_of(s, f, i) by {
            assert(rest[i] == s[i]);
            assert forall|k: int| i < k < s.len() implies !f(#[trigger] s[k]) by {
                if k < rest.len() {
                    assert(rest[k] == s[k]);
                }
            }
        }
    }
}

/// What was just learnt of a board over a link is what is known of it there from now on; what is
/// known of others, and over other links, stays.
pub proof fn lemma_learning_touches_one(s: Seq<AnnouncerSpec>, e: AnnouncerSpec, x: AnnouncerSpec)
    ensures
        presence::found(presence::noted(s, e), Some(e.side), Some(e.address)) == Some(e),
        x.side != e.side || x.address != e.address ==> (presence::noted(s, e).contains(x)
            <==> s.contains(x)),
        x.side == e.side && x.address == e.address && presence::noted(s, e).contains(x) ==> x == e,
{
    let pred = |y: AnnouncerSpec| !y.is(Some(e.side), Some(e.address));
    let kept = s.filter(pred);
    let all = presence::noted(s, e);
    assert(all == kept.push(e));
    lemma_contains_last(all, x);
    assert(all.drop_last() =~= kept);
    if kept.contains(x) {
        s.lemma_filter_contains_rev(pred, x);
        let i = choose|i: int| 0 <= i < kept.len() && kept[i] == x;
        s.lemma_filter_pred(pred, i);
    }
    if s.contains(x) && pred(x) {
        let i = choose|i: int| 0 <= i < s.len() && s[i] == x;
        s.lemma_filter_contains(pred, i);
    }
}

/// What is dropped is exactly what is asked for.
pub proof fn lemma_others_stay(
    s: Seq<AnnouncerSpec>,
    side: Option<usize>,
    address: Option<u32>,
    x: AnnouncerSpec,
)
    ensures
        presence::others(s, side, address).contains(x) <==> s.contains(x) && !((side is None || side
            == Some(x.side)) && (address is None || address == Some(x.address))),
{
    let pred = |y: AnnouncerSpec| !y.is(side, address);
    let kept = s.filter(pred);
    if kept.contains(x) {
        s.lemma_filter_contains_rev(pred, x);
        let i = choose|i: int| 0 <= i < kept.len() && kept[i] == x;
        s.lemma_filter_pred(pred, i);
    }
    if s.contains(x) && pred(x) {
        let i = choose|i: int| 0 <= i < s.len() && s[i] == x;
        s.lemma_filter_contains(pred, i);
    }
}

/// Boards are connected where one of them says so, whichever is asked; a board reaches itself
/// without a step, a neighbour in one, and what it reaches it reaches in more steps too.
pub proof fn lemma_steps(b: Seq<BoardSpec>, i: int, j: int, n: nat)
    requires
        0 <= i < b.len(),
        0 <= j < b.len(),
    ensures
        topology::adjacent(b, i, j) == topology::adjacent(b, j, i),
        b[i].connections.contains(b[j].sender_id) ==> topology::adjacent(b, i, j),
        topology::adjacent(b, i, j) ==> b[i].connections.contains(b[j].sender_id)
            || b[j].connections.contains(b[i].sender_id),
        topology::within(b, i, j, 0) <==> i == j,
        topology::within(b, i, j, 1) <==> i == j || topology::adjacent(b, i, j),
        topology::within(b, i, j, n) ==> topology::within(b, i, j, n + 1),
{
    reveal_with_fuel(topology::around, 2);
    let from = topology::around(b, i, 0);
    assert(from.contains(i));
    if topology::adjacent(b, i, j) {
        assert(topology::widened(b, from).contains(j));
    }
    if topology::within(b, i, j, 1) && i != j {
        let k = choose|k: int|
            0 <= k < b.len() && #[trigger] from.contains(k) && topology::adjacent(b, k, j);
        assert(k == i);
    }
    assert(topology::around(b, i, n + 1) == topology::widened(b, topology::around(b, i, n)));
}

/// Ways can be joined: what is reached from a board that is reached is reached too, in as many
/// steps as both ways take.
pub proof fn lemma_ways_join(b: Seq<BoardSpec>, i: int, j: int, k: int, n: nat, m: nat)
    requires
        0 <= i < b.len(),
        0 <= j < b.len(),
        0 <= k < b.len(),
        topology::within(b, i, j, n),
        topology::within(b, j, k, m),
    ensures
        topology::within(b, i, k, n + m),
    decreases m,
{
    if m == 0 {
        assert(topology::around(b, j, 0) =~= set![j]);
    } else {
        let from = topology::around(b, j, (m - 1) as nat);
        assert(topology::around(b, j, m) == topology::widened(b, from));
        let near = topology::around(b, i, (n + m - 1) as nat);
        assert(topology::around(b, i, n + m) == topology::widened(b, near));
        if from.contains(k) {
            lemma_ways_join(b, i, j, k, n, (m - 1) as nat);
        } else {
            let x = choose|x: int|
                0 <= x < b.len() && #[trigger] from.contains(x) && topology::adjacent(b, x, k);
            lemma_ways_join(b, i, j, x, n, (m - 1) as nat);
            assert(near.contains(x));
        }
    }
}

proof fn lemma_fewer_missing(b: Seq<BoardSpec>, i: int, j: int, n: nat, m: nat)
    requires
        m <= b.len(),
        forall|k: int| 0 <= k < b.len() && #[trigger] topology::within(b, j, k, n) ==> topology::within(
            b,
            i,
            k,
            n,
        ),
    ensures
        topology::missing(b, i, n, m) <= topology::missing(b, j, n, m),
        (exists|k: int| 0 <= k < m && #[trigger] topology::within(b, i, k, n) && !topology::within(
            b,
            j,
            k,
            n,
        )) ==> topology::missing(b, i, n, m) < topology::missing(b, j, n, m),
    decreases m,
{
    if m > 0 {
        lemma_fewer_missing(b, i, j, n, (m - 1) as nat);
        if topology::within(b, j, m - 1, n) {
            assert(topology::within(b, i, m - 1, n));
        }
    }
}

proof fn lemma_fewer_hops(b: Seq<BoardSpec>, i: int, j: int, k0: int, n0: nat, n: nat)
    requires
        0 <= k0 < b.len(),
        forall|k: int, m: nat|
            0 <= k < b.len() && #[trigger] topology::within(b, j, k, m) ==> topology::within(
                b,
                i,
                k,
                m,
            ),
        topology::within(b, i, k0, n0),
        !topology::within(b, j, k0, n0),
    ensures
        topology::hops(b, i, n) <= topology::hops(b, j, n),
        n0 < n ==> topology::hops(b, i, n) < topology::hops(b, j, n),
    decreases n,
{
    if n > 0 {
        lemma_fewer_hops(b, i, j, k0, n0, (n - 1) as nat);
        lemma_fewer_missing(b, i, j, (n - 1) as nat, b.len());
        if n0 == n - 1 {
            assert(topology::within(b, i, k0, n0));
        }
    }
}

/// A board in the middle stands before one at the edge: where everything that one board reaches is
/// reached by another in no more steps, and something in fewer, the other stands before it.
pub proof fn lemma_middle_comes_first(b: Seq<BoardSpec>, i: int, j: int, k: int, n: nat)
    requires
        0 <= k < b.len(),
        n < b.len(),
        forall|x: int, m: nat|
            0 <= x < b.len() && #[trigger] topology::within(b, j, x, m) ==> topology::within(
                b,
                i,
                x,
                m,
            ),
        topology::within(b, i, k, n),
        !topology::within(b, j, k, n),
    ensures
        topology::total_hops(b, i) < topology::total_hops(b, j),
        topology::precedes(b, i, j),
        !topology::precedes(b, j, i),
{
    lemma_fewer_hops(b, i, j, k, n, b.len());
}

/// The board that is elected has no more steps to all boards than any other, and among those with
/// as many no greater name.
pub proof fn lemma_elected_is_in_the_middle(b: Seq<BoardSpec>, i: int, j: int)
    requires
        topology::elected(b, i),
        0 <= j < b.len(),
    ensures
        0 <= i < b.len(),
        topology::total_hops(b, i) <= topology::total_hops(b, j),
        topology::total_hops(b, i) == topology::total_hops(b, j) ==> !codec::lex_less(
            vstd::utf8::encode_utf8(b[j].sender_id),
            vstd::utf8::encode_utf8(b[i].sender_id),
        ),
{
    assert(!topology::precedes(b, j, i));
}

/// The links of a network are those that boards tell of, each as a pair of names.
pub proof fn lemma_links_are_what_boards_tell(b: Seq<BoardSpec>, from: Seq<char>, to: Seq<char>)
    ensures
        topology::links(b).contains((from, to)) <==> exists|i: int|
            0 <= i < b.len() && (#[trigger] b[i]).sender_id == from && b[i].connections.contains(to),
    decreases b.len(),
{
    if b.len() > 0 {
        let rest = b.drop_last();
        let n = b.len() - 1;
        lemma_links_are_what_boards_tell(rest, from, to);
        let mine = topology::board_links(b.last());
        lemma_contains_join(topology::links(rest), mine, (from, to));
        if mine.contains((from, to)) {
            let k = choose|k: int| 0 <= k < mine.len() && mine[k] == (from, to);
            assert(b[n].connections[k] == to);
        }
        if b[n].sender_id == from && b[n].connections.contains(to) {
            let k = choose|k: int| 0 <= k < b[n].connections.len() && b[n].connections[k] == to;
            assert(mine[k] == (from, to));
        }
        if topology::links(rest).contains((from, to)) {
            let i = choose|i: int|
                0 <= i < rest.len() && (#[trigger] rest[i]).sender_id == from
                    && rest[i].connections.contains(to);
            assert(b[i].sender_id == from);
        }
        if exists|i: int|
            0 <= i < b.len() && (#[trigger] b[i]).sender_id == from && b[i].connections.contains(
                to,
            ) {
            let i = choose|i: int|
                0 <= i < b.len() && (#[trigger] b[i]).sender_id == from && b[i].connections.contains(
                    to,
                );
            if i < n {
                assert(rest[i].sender_id == from);
            }
        }
    }
}

} // verus!
