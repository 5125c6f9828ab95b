//! How much boards have to say: the names that a board knows of bound the length of what it
//! announces.
use vstd::prelude::*;
use vstd::string::*;
use vstd::utf8::encode_utf8;
use crate::address;
use crate::address::Identity;
use crate::codec;
use crate::definition;
use crate::discovery;
use crate::hash;
use crate::ingress;
use crate::meta::{TY_DISCOVERY_ADDRESS, TY_DISCOVERY_SCHEMA, TY_DISCOVERY_TOPOLOGY};
use crate::packet;
use crate::packet::PacketSpec;
use crate::presence;
use crate::presence::AnnouncerSpec;
use crate::router::Router;
use crate::schema;
use crate::text;
use crate::varint;

verus! {

/// Bytes that a text takes at most when it is written.
pub open spec fn text_cost(t: Seq<char>) -> nat {
    encode_utf8(t).len() + 10
}

pub open spec fn texts_cost(v: Seq<Seq<char>>) -> nat
    decreases v.len(),
{
    if v.len() == 0 {
        0
    } else {
        texts_cost(v.drop_last()) + text_cost(v.last())
    }
}

/// Bytes that the names take at most that boards are known by, and those of their time sources.
pub open spec fn known_cost(s: Seq<AnnouncerSpec>) -> nat
    decreases s.len(),
{
    if s.len() == 0 {
        0
    } else {
        known_cost(s.drop_last()) + entry_cost(s.last())
    }
}

pub open spec fn entry_cost(e: AnnouncerSpec) -> nat {
    text_cost(e.name) + texts_cost(e.sources)
}

impl Router {
    /// Bytes that the names take at most that a board knows of, its own among them.
    pub open spec fn word_cost(self) -> nat {
        text_cost(self.sender@) + known_cost(self.presence@)
    }
}

proof fn lemma_texts_front(v: Seq<Seq<char>>)
    requires
        v.len() > 0,
    ensures
        texts_cost(v) == text_cost(v[0]) + texts_cost(v.skip(1)),
    decreases v.len(),
{
    if v.len() == 1 {
        assert(v.drop_last() =~= Seq::<Seq<char>>::empty());
        assert(v.skip(1) =~= Seq::<Seq<char>>::empty());
    } else {
        lemma_texts_front(v.drop_last());
        assert(v.drop_last().skip(1) =~= v.skip(1).drop_last());
    }
}

pub(crate) proof fn lemma_texts_grow(v: Seq<Seq<char>>, n: int)
    requires
        0 <= n <= v.len(),
    ensures
        texts_cost(v.take(n)) <= texts_cost(v),
    decreases v.len() - n,
{
    if n == v.len() {
        assert(v.take(n) =~= v);
    } else {
        lemma_texts_grow(v, n + 1);
        assert(v.take(n + 1).drop_last() =~= v.take(n));
    }
}

pub(crate) proof fn lemma_known_grows(s: Seq<AnnouncerSpec>, n: int)
    requires
        0 <= n <= s.len(),
    ensures
        known_cost(s.take(n)) <= known_cost(s),
    decreases s.len() - n,
{
    if n == s.len() {
        assert(s.take(n) =~= s);
    } else {
        lemma_known_grows(s, n + 1);
        assert(s.take(n + 1).drop_last() =~= s.take(n));
    }
}

proof fn lemma_texts_push(v: Seq<Seq<char>>, t: Seq<char>)
    ensures
        texts_cost(v.push(t)) == texts_cost(v) + text_cost(t),
{
    assert(v.push(t).drop_last() =~= v);
}

proof fn lemma_text_items_len(v: Seq<Seq<char>>)
    requires
        texts_cost(v) <= u64::MAX,
    ensures
        discovery::text_items(v).len() <= texts_cost(v),
        v.len() <= texts_cost(v),
    decreases v.len(),
{
    if v.len() > 0 {
        lemma_texts_front(v);
        lemma_text_items_len(v.skip(1));
        varint::lemma_uleb_len(encode_utf8(v[0]).len() as u64);
    }
}

proof fn lemma_texts_bytes_len(v: Seq<Seq<char>>)
    requires
        texts_cost(v) <= u64::MAX,
    ensures
        discovery::texts_bytes(v).len() <= texts_cost(v) + 10,
{
    lemma_text_items_len(v);
    varint::lemma_uleb_len(v.len() as u64);
}

proof fn lemma_text_bytes_len(t: Seq<char>)
    requires
        text_cost(t) <= u64::MAX,
    ensures
        codec::text_bytes(t).len() <= text_cost(t),
{
    varint::lemma_uleb_len(encode_utf8(t).len() as u64);
}

proof fn lemma_ids_bytes_len(ids: Seq<u32>)
    requires
        ids.len() <= 256,
    ensures
        definition::id_items(ids).len() <= 10 * ids.len(),
        definition::ids_bytes(ids).len() <= 2570,
    decreases ids.len(),
{
    varint::lemma_uleb_len(ids.len() as u64);
    if ids.len() > 0 {
        lemma_ids_bytes_len(ids.skip(1));
        varint::lemma_uleb_len(ids[0] as u64);
    }
}

proof fn lemma_joined_cost(v: Seq<Seq<char>>, more: Seq<Seq<char>>)
    ensures
        texts_cost(presence::joined(v, more)) <= texts_cost(v) + texts_cost(more),
    decreases more.len(),
{
    if more.len() > 0 {
        lemma_joined_cost(v, more.drop_last());
        lemma_texts_push(presence::joined(v, more.drop_last()), more.last());
    }
}

proof fn lemma_known_cost(s: Seq<AnnouncerSpec>, side: Option<usize>, now: u64)
    ensures
        texts_cost(presence::sources(s, side, now)) <= known_cost(s),
        texts_cost(presence::names(s, side, now)) <= known_cost(s),
    decreases s.len(),
{
    if s.len() > 0 {
        let t = s.drop_last();
        lemma_known_cost(t, side, now);
        lemma_joined_cost(presence::sources(t, side, now), s.last().sources);
        lemma_texts_push(presence::names(t, side, now), s.last().name);
    }
}

/// The names of those who tell the time are among the names that a board knows of.
pub(crate) proof fn lemma_sources_cost(r: Router, now: u64)
    ensures
        texts_cost(r.time_sources(now)) <= r.word_cost(),
{
    lemma_known_cost(r.presence@, None, now);
    lemma_texts_push(presence::sources(r.presence@, None, now), r.sender@);
}

proof fn lemma_announced_len(r: Router, sc: schema::SchemaSpec, side: usize, now: u64, n: nat)
    ensures
        r.announced(sc, side, now, n).len() <= n,
    decreases n,
{
    if n > 0 {
        lemma_announced_len(r, sc, side, now, (n - 1) as nat);
    }
}

proof fn lemma_address_len(a: discovery::AddressSpec)
    requires
        a.reachable_endpoints.len() <= 256,
        a.reachable_network_variables.len() == 0,
        text_cost(a.hostname) <= u64::MAX,
        texts_cost(a.reachable_timesync_sources) <= u64::MAX,
    ensures
        discovery::address_bytes(a).len() <= text_cost(a.hostname) + texts_cost(
            a.reachable_timesync_sources,
        ) + 3072,
{
    lemma_ids_bytes_len(a.reachable_endpoints);
    varint::lemma_uleb_len(0);
    assert(definition::id_items(a.reachable_network_variables).len() == 0);
    lemma_texts_bytes_len(a.reachable_timesync_sources);
    lemma_text_bytes_len(a.hostname);
    assert(discovery::address_numbers(a).len() == 24);
    assert(discovery::capability_bytes(a.link_capabilities).len() == 18);
}

proof fn lemma_board_len(b: discovery::BoardSpec)
    requires
        b.reachable_endpoints.len() <= 256,
        text_cost(b.sender_id) <= u64::MAX,
        texts_cost(b.reachable_timesync_sources) <= u64::MAX,
        texts_cost(b.connections) <= u64::MAX,
    ensures
        discovery::boards_bytes(seq![b]).len() <= text_cost(b.sender_id) + texts_cost(
            b.reachable_timesync_sources,
        ) + texts_cost(b.connections) + 3072,
{
    lemma_ids_bytes_len(b.reachable_endpoints);
    lemma_texts_bytes_len(b.reachable_timesync_sources);
    lemma_texts_bytes_len(b.connections);
    lemma_text_bytes_len(b.sender_id);
    let v = seq![b];
    assert(discovery::board_items(v.skip(1)).len() == 0);
    assert(discovery::board_items(v).len() == discovery::board_bytes(b).len());
    varint::lemma_uleb_len(1);
}

/// What a board announces is not much longer than the names that it knows of.
pub proof fn lemma_words_bound_speech(r: Router, sc: schema::SchemaSpec, list: Seq<usize>, now: u64)
    requires
        2 * r.word_cost() + 4096 <= packet::MAX_PAYLOAD,
    ensures
        r.can_announce(sc, list, now),
{
    lemma_known_cost(r.presence@, None, now);
    lemma_sources_cost(r, now);
    assert forall|i: int| 0 <= i < 2 * list.len() implies #[trigger] r.is_sendable(
        sc,
        list,
        i,
        now,
    ) by {
        let side = list[i / 2];
        lemma_announced_len(r, sc, side, now, 256);
        lemma_ids_bytes_len(r.announced(sc, side, now, 256));
        lemma_board_len(r.board_over(sc, side, now));
        lemma_address_len(r.address_over(sc, side, now));
    }
}

proof fn lemma_all_kept(s: Seq<AnnouncerSpec>, f: spec_fn(AnnouncerSpec) -> bool)
    requires
        forall|i: int| 0 <= i < s.len() ==> f(#[trigger] s[i]),
    ensures
        s.filter(f) == s,
    decreases s.len(),
{
    reveal(Seq::filter);
    if s.len() > 0 {
        let t = s.drop_last();
        lemma_all_kept(t, f);
        t.lemma_filter_push(s.last(), f);
        assert(s =~= t.push(s.last()));
        assert(f(s[s.len() - 1]));
    } else {
        assert(s.filter(f) =~= s);
    }
}

/// What is known of other boards is kept when something is learnt of one.
proof fn lemma_others_stay(s: Seq<AnnouncerSpec>, e: AnnouncerSpec)
    ensures
        presence::others(presence::noted(s, e), Some(e.side), Some(e.address)) == presence::others(
            s,
            Some(e.side),
            Some(e.address),
        ),
        presence::found(presence::noted(s, e), Some(e.side), Some(e.address)) == Some(e),
{
    let f = |x: AnnouncerSpec| !x.is(Some(e.side), Some(e.address));
    let o = s.filter(f);
    assert forall|i: int| 0 <= i < o.len() implies f(#[trigger] o[i]) by {
        s.lemma_filter_pred(f, i);
    }
    lemma_all_kept(o, f);
    o.lemma_filter_push(e, f);
}

proof fn lemma_found_is(s: Seq<AnnouncerSpec>, side: usize, address: u32)
    ensures
        presence::found(s, Some(side), Some(address)) matches Some(e) ==> e.side == side && e.address
            == address,
    decreases s.len(),
{
    if s.len() > 0 {
        lemma_found_is(s.drop_last(), side, address);
    }
}

proof fn lemma_others_cost(s: Seq<AnnouncerSpec>, side: usize, address: u32)
    ensures
        known_cost(presence::others(s, Some(side), Some(address))) + (match presence::found(
            s,
            Some(side),
            Some(address),
        ) {
            Some(e) => entry_cost(e),
            None => 0,
        }) <= known_cost(s),
    decreases s.len(),
{
    reveal(Seq::filter);
    let f = |x: AnnouncerSpec| !x.is(Some(side), Some(address));
    if s.len() > 0 {
        let t = s.drop_last();
        lemma_others_cost(t, side, address);
        t.lemma_filter_push(s.last(), f);
        assert(s =~= t.push(s.last()));
        if f(s.last()) {
            assert(t.filter(f).push(s.last()).drop_last() =~= t.filter(f));
        }
    } else {
        assert(s.filter(f) =~= s);
    }
}

/// Whether a packet is one of those by which a board announces itself: it tells of its address and
/// of no other time sources than `sources`, of its neighbours, or of definitions.
pub open spec fn is_from(p: PacketSpec, name: Seq<char>, sources: Seq<Seq<char>>) -> bool {
    &&& p.sender == name
    &&& p.address == hash::name_address(name)
    &&& p.ty == TY_DISCOVERY_TOPOLOGY || p.ty == TY_DISCOVERY_SCHEMA || (p.ty
        == TY_DISCOVERY_ADDRESS && (discovery::whole(discovery::read_address(p.payload)) matches Some(
        a,
    ) ==> a.reachable_timesync_sources == sources))
}

/// What is known at two times between which nothing was heard over a link but what a board
/// announces of itself.
pub open spec fn heard_only(
    before: Seq<AnnouncerSpec>,
    s: Seq<AnnouncerSpec>,
    side: usize,
    name: Seq<char>,
    sources: Seq<Seq<char>>,
) -> bool {
    let address = hash::name_address(name);
    let k = presence::known(s, side, address, name);
    let first = presence::known(before, side, address, name);
    let rest = presence::others(before, Some(side), Some(address));
    &&& presence::others(s, Some(side), Some(address)) == rest
    &&& k.name == first.name
    &&& k.sources == first.sources || k.sources == sources
    &&& s == before || s == rest.push(k)
}

pub(crate) proof fn lemma_hears_on(
    before: Seq<AnnouncerSpec>,
    s: Seq<AnnouncerSpec>,
    p: PacketSpec,
    side: usize,
    name: Seq<char>,
    sources: Seq<Seq<char>>,
    now: u64,
)
    requires
        heard_only(before, s, side, name, sources),
        is_from(p, name, sources),
    ensures
        heard_only(before, ingress::learnt(s, p, side, now), side, name, sources),
{
    let k = presence::known(s, side, p.address, p.sender);
    lemma_found_is(s, side, p.address);
    let t = ingress::learnt(s, p, side, now);
    if t != s {
        let e = t.last();
        assert(t == presence::noted(s, e) && e.side == side && e.address == p.address && e.name
            == k.name && (e.sources == k.sources || e.sources == sources));
        lemma_others_stay(s, e);
    }
}

pub(crate) proof fn lemma_heard_cost(
    before: Seq<AnnouncerSpec>,
    s: Seq<AnnouncerSpec>,
    side: usize,
    name: Seq<char>,
    sources: Seq<Seq<char>>,
)
    requires
        heard_only(before, s, side, name, sources),
    ensures
        known_cost(s) <= known_cost(before) + text_cost(name) + texts_cost(sources),
{
    let address = hash::name_address(name);
    lemma_others_cost(before, side, address);
    let rest = presence::others(before, Some(side), Some(address));
    if s != before {
        assert(s.drop_last() =~= rest);
    }
}

proof fn lemma_utf8_concat(a: Seq<char>, b: Seq<char>)
    ensures
        encode_utf8(a + b).len() == encode_utf8(a).len() + encode_utf8(b).len(),
    decreases a.len(),
{
    if a.len() == 0 {
        assert(a + b =~= b);
    } else {
        lemma_utf8_concat(a.drop_first(), b);
        assert((a + b).drop_first() =~= a.drop_first() + b);
    }
}

proof fn lemma_utf8_len(t: Seq<char>)
    ensures
        encode_utf8(t).len() <= 4 * t.len(),
    decreases t.len(),
{
    if t.len() > 0 {
        lemma_utf8_len(t.drop_first());
    }
}

proof fn lemma_decimal_len(n: nat, k: nat)
    requires
        k < 20,
        n < vstd::arithmetic::power::pow(10, k + 1),
    ensures
        text::decimal(n).len() <= k + 1,
    decreases k,
{
    vstd::arithmetic::power::lemma_pow1(10);
    if n >= 10 {
        assert(k > 0);
        vstd::arithmetic::power::lemma_pow_adds(10, 1, k);
        lemma_decimal_len(n / 10, (k - 1) as nat);
    }
}

/// A board that gives way has a name that is not much longer.
pub(crate) proof fn lemma_name_cost(
    me: Identity,
    name: Seq<char>,
    other: Identity,
    other_name: Seq<char>,
    taken: Seq<u32>,
)
    ensures
        text_cost(address::name_after(me, name, other, other_name, taken)) <= text_cost(name) + 128,
{
    let a = address::resolved(me, other, taken).address;
    let d = text::decimal(a as nat);
    reveal_strlit("-");
    assert(vstd::arithmetic::power::pow(10, 10) == 10_000_000_000) by {
        reveal_with_fuel(vstd::arithmetic::power::pow, 11);
    }
    lemma_decimal_len(a as nat, 9);
    lemma_utf8_concat(name + "-"@, d);
    lemma_utf8_concat(name, "-"@);
    lemma_utf8_len("-"@);
    lemma_utf8_len(d);
}

} // verus!
