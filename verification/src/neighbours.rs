//! What holds between boards that claim addresses, write to one another, and keep things private.
use vstd::prelude::*;
use vstd::string::*;
use crate::address;
use crate::address::{AddressChangeReason, AddressRoute, Identity, PeerSpec};
use crate::discovery::ADDRESS_MODE_STATIC;
use crate::e2e;
use crate::e2e::RouterE2eEncryptionMode;
use crate::hash;
use crate::meta::{DataType, E2eEncryptionPolicy, FIRST_USER_TYPE};
use crate::p2p;
use crate::p2p::{P2pHead, P2pKind, P2pStreamEventKind, Stream, StreamsSpec};
use crate::router::Router;
use crate::schema;
use crate::station::Station;
use crate::text;

verus! {

/// Who keeps what two boards claim: a board whose address is fixed before one whose address may
/// move; of two alike the one that was there first; and of two of the same age the one whose owner
/// has the lower number.
pub proof fn lemma_who_keeps_the_address(a: Identity, b: Identity)
    ensures
        a.mode == ADDRESS_MODE_STATIC && b.mode != ADDRESS_MODE_STATIC ==> a.beats(b) && !b.beats(
            a,
        ),
        (a.mode == ADDRESS_MODE_STATIC <==> b.mode == ADDRESS_MODE_STATIC) && a.birth < b.birth
            ==> a.beats(b) && !b.beats(a),
        (a.mode == ADDRESS_MODE_STATIC <==> b.mode == ADDRESS_MODE_STATIC) && a.birth == b.birth
            && a.owner < b.owner ==> a.beats(b) && !b.beats(a),
        !a.beats(a),
{
}

/// A board changes its address only where another claims the same and keeps it; then it takes one
/// that nobody has, and says that it did, and why. In all other cases it keeps its address; and it
/// never changes anything else by which it is known.
pub proof fn lemma_address_moves_only_for_another(
    me: Identity,
    name: Seq<char>,
    other: Identity,
    other_name: Seq<char>,
    taken: Seq<u32>,
)
    requires
        taken.len() < u32::MAX - 2,
        taken.contains(other.address),
    ensures
        ({
            let after = address::resolved(me, other, taken);
            let loses = other.owner != me.owner && other.beats(me);
            &&& after == (Identity { address: after.address, ..me })
            &&& other.address != me.address || !loses ==> after.address == me.address
            &&& other.address == me.address && loses ==> {
                &&& after.address != me.address
                &&& after.address != 0
                &&& !taken.contains(after.address)
            }
            &&& match address::change(me, name, other, other_name, taken) {
                Some(c) => {
                    &&& loses
                    &&& c.old_address == me.address
                    &&& c.new_address == after.address
                    &&& other.address == me.address || other_name == name
                    &&& c.reason == AddressChangeReason::HostnameConflict <==> other.address
                        != me.address
                    &&& c.reason == AddressChangeReason::StaticConflict <==> other.address
                        == me.address && me.mode == ADDRESS_MODE_STATIC
                    &&& c.reason == AddressChangeReason::RequestedConflict <==> other.address
                        == me.address && me.mode != ADDRESS_MODE_STATIC && me.requested != 0
                },
                None => after == me && address::name_after(me, name, other, other_name, taken)
                    == name,
            }
        }),
{
    address::lemma_moved_is_free(me.address, taken);
}

/// A board that has to give up its name gets one that starts with it and is longer; and a name is
/// given up only where another board has it and keeps it.
pub proof fn lemma_new_name_is_another(
    me: Identity,
    name: Seq<char>,
    other: Identity,
    other_name: Seq<char>,
    taken: Seq<u32>,
)
    ensures
        ({
            let after = address::name_after(me, name, other, other_name, taken);
            let loses = other.owner != me.owner && other.beats(me);
            &&& after != name <==> loses && other_name == name
            &&& after.take(name.len() as int) == name
            &&& after != name ==> after.len() > name.len()
        }),
{
    let a = address::resolved(me, other, taken).address;
    reveal_strlit("-");
    text::lemma_decimal_reads_back(a as nat);
    let long = address::renamed(name, a);
    assert(long.take(name.len() as int) =~= name);
    assert(name.take(name.len() as int) =~= name);
    assert(long.len() > name.len());
}

/// A board that names itself starts with the address that its name hashes to, as one that may move.
pub proof fn lemma_named_board(name: Seq<char>)
    ensures
        Identity::named(name).address == hash::name_hash(name) % 0x1_0000_0000,
        Identity::named(name).owner == hash::name_hash(name),
        Identity::named(name).mode != ADDRESS_MODE_STATIC,
        Identity::named(name).requested == 0,
{
}

/// Whether a board is the last in a list that a statement holds of.
pub open spec fn is_latest(t: Seq<PeerSpec>, f: spec_fn(PeerSpec) -> bool, i: int) -> bool {
    &&& 0 <= i < t.len() && f(t[i])
    &&& forall|k: int| i < k < t.len() ==> !f(#[trigger] t[k])
}

/// That a board has a name.
pub open spec fn has_name(name: Seq<char>) -> spec_fn(PeerSpec) -> bool {
    |p: PeerSpec| p.name == name
}

/// That a board has an address.
pub open spec fn has_address(a: u32) -> spec_fn(PeerSpec) -> bool {
    |p: PeerSpec| p.identity.address == a
}

/// A board is found under a name or an address as it was heard of last; and where none is found,
/// none has it.
pub proof fn lemma_latest_board_is_found(t: Seq<PeerSpec>, name: Seq<char>, a: u32)
    ensures
        match address::by_name(t, name) {
            Some(p) => exists|i: int| #[trigger] is_latest(t, has_name(name), i) && t[i] == p,
            None => forall|i: int| 0 <= i < t.len() ==> (#[trigger] t[i]).name != name,
        },
        match address::by_address(t, a) {
            Some(p) => exists|i: int| #[trigger] is_latest(t, has_address(a), i) && t[i] == p,
            None => forall|i: int| 0 <= i < t.len() ==> (#[trigger] t[i]).identity.address != a,
        },
    decreases t.len(),
{
    if t.len() > 0 {
        let rest = t.drop_last();
        let n = t.len() - 1;
        let f = has_name(name);
        let g = has_address(a);
        lemma_latest_board_is_found(rest, name, a);
        if f(t[n]) {
            assert(is_latest(t, f, n));
        } else if address::by_name(t, name) is Some {
            let i = choose|i: int| #[trigger]
                is_latest(rest, f, i) && rest[i] == address::by_name(t, name)->0;
            lemma_latest_grows(t, f, i);
        }
        if g(t[n]) {
            assert(is_latest(t, g, n));
        } else if address::by_address(t, a) is Some {
            let i = choose|i: int| #[trigger]
                is_latest(rest, g, i) && rest[i] == address::by_address(t, a)->0;
            lemma_latest_grows(t, g, i);
        }
        assert forall|i: int| 0 <= i < t.len() && address::by_name(t, name) is None implies (
        #[trigger] t[i]).name != name by {
            if i < n {
                assert(rest[i] == t[i]);
            }
        }
        assert forall|i: int| 0 <= i < t.len() && address::by_address(t, a) is None implies (
        #[trigger] t[i]).identity.address != a by {
            if i < n {
                assert(rest[i] == t[i]);
            }
        }
    }
}

proof fn lemma_latest_grows(t: Seq<PeerSpec>, f: spec_fn(PeerSpec) -> bool, i: int)
    requires
        t.len() > 0,
        !f(t[t.len() - 1]),
        is_latest(t.drop_last(), f, i),
    ensures
        is_latest(t, f, i),
{
    let rest = t.drop_last();
    assert(rest[i] == t[i]);
    assert forall|k: int| i < k < t.len() implies !f(#[trigger] t[k]) by {
        if k < rest.len() {
            assert(rest[k] == t[k]);
        }
    }
}

/// What is for this board's address stays here; what is for the address of a board that was heard of
/// goes over the link that it was heard over last; what is for any other goes nowhere.
pub proof fn lemma_letters_find_their_way(t: Seq<PeerSpec>, me: u32, p: PeerSpec, a: u32)
    ensures
        address::way_to(t, me, me) == AddressRoute::Here,
        p.identity.address != me ==> address::way_to(
            address::heard(t, p),
            me,
            p.identity.address,
        ) == AddressRoute::Over(p.side),
        a != me && (forall|i: int| 0 <= i < t.len() ==> (#[trigger] t[i]).identity.address != a)
            ==> address::way_to(t, me, a) == AddressRoute::Nowhere,
{
    address::lemma_heard_is_found(t, p);
    lemma_latest_board_is_found(t, Seq::empty(), a);
    if address::by_address(t, a) is Some && (forall|i: int|
        0 <= i < t.len() ==> (#[trigger] t[i]).identity.address != a) {
        let i = choose|i: int| #[trigger]
            is_latest(t, has_address(a), i) && t[i] == address::by_address(t, a)->0;
        assert(t[i].identity.address != a);
    }
}

/// Hearing of a board replaces what was known of its owner, and nothing else, as long as there is
/// room; where there is none, the board that was heard of first is forgotten, and no other.
pub proof fn lemma_hearing_touches_one(t: Seq<PeerSpec>, p: PeerSpec, x: PeerSpec)
    requires
        t.len() <= address::MAX_PEERS,
        forall|i: int, j: int|
            0 <= i < j < t.len() ==> (#[trigger] t[i]).identity.owner != (
            #[trigger] t[j]).identity.owner,
    ensures
        address::heard(t, p).len() <= address::MAX_PEERS,
        address::heard(t, p).last() == p,
        x.identity.owner == p.identity.owner && address::heard(t, p).contains(x) ==> x == p,
        x.identity.owner != p.identity.owner && address::heard(t, p).contains(x) ==> t.contains(x),
        x.identity.owner != p.identity.owner && t.contains(x) && (t.len() < address::MAX_PEERS
            || address::place_of(t, p.identity.owner) is Some || x != t[0])
            ==> address::heard(t, p).contains(x),
{
    lemma_place(t, p.identity.owner);
    let h = address::heard(t, p);
    let place = address::place_of(t, p.identity.owner);
    let rest = match place {
        Some(i) => t.remove(i),
        None => t,
    };
    let all = rest.push(p);
    let cut: int = if all.len() > address::MAX_PEERS {
        1
    } else {
        0
    };
    assert(h =~= all.skip(cut));
    if h.contains(x) {
        let k = choose|k: int| 0 <= k < h.len() && h[k] == x;
        let m = k + cut;
        assert(all[m] == x);
        if m < rest.len() {
            assert(rest[m] == x);
            match place {
                Some(i) => {
                    let o = if m < i {
                        m
                    } else {
                        m + 1
                    };
                    assert(t[o] == x);
                    if o < i {
                        assert(t[o].identity.owner != t[i].identity.owner);
                    } else {
                        assert(t[i].identity.owner != t[o].identity.owner);
                    }
                },
                None => {
                    assert(t[m] == x);
                },
            }
        }
    }
    if x.identity.owner != p.identity.owner && t.contains(x) && (t.len() < address::MAX_PEERS
        || place is Some || x != t[0]) {
        let o = choose|o: int| 0 <= o < t.len() && t[o] == x;
        match place {
            Some(i) => {
                let m = if o < i {
                    o
                } else {
                    o - 1
                };
                assert(rest[m] == x);
                assert(h[m - cut] == x);
            },
            None => {
                assert(rest[o] == x);
                assert(h[o - cut] == x);
            },
        }
    }
}

proof fn lemma_place(t: Seq<PeerSpec>, owner: u64)
    ensures
        match address::place_of(t, owner) {
            Some(i) => 0 <= i < t.len() && t[i].identity.owner == owner,
            None => forall|i: int| 0 <= i < t.len() ==> (#[trigger] t[i]).identity.owner != owner,
        },
    decreases t.len(),
{
    if t.len() > 0 {
        lemma_place(t.drop_last(), owner);
        if address::place_of(t, owner) is None {
            assert forall|i: int| 0 <= i < t.len() implies (#[trigger] t[i]).identity.owner
                != owner by {
                if i < t.len() - 1 {
                    assert(t.drop_last()[i] == t[i]);
                }
            }
        }
    }
}

/// Messages of the network itself are never locked. Of user messages those are whose type requires
/// it, whatever the board prefers; those whose type prefers it, where the board does too; and all,
/// where the board wants all locked; and no others.
pub proof fn lemma_what_is_locked(mode: RouterE2eEncryptionMode, sc: schema::SchemaSpec, ty: DataType)
    ensures
        ty < FIRST_USER_TYPE ==> !e2e::is_private(mode, sc, ty) && !e2e::is_secret(mode, sc, ty),
        ty >= FIRST_USER_TYPE && mode == RouterE2eEncryptionMode::ForceAll ==> e2e::is_private(
            mode,
            sc,
            ty,
        ) && e2e::is_secret(mode, sc, ty),
        ty >= FIRST_USER_TYPE && mode != RouterE2eEncryptionMode::ForceAll ==> match sc.message(ty) {
            Some(t) => match t.e2e_encryption {
                E2eEncryptionPolicy::RequireOn => e2e::is_private(mode, sc, ty) && e2e::is_secret(
                    mode,
                    sc,
                    ty,
                ),
                E2eEncryptionPolicy::PreferOn => !e2e::is_secret(mode, sc, ty) && (e2e::is_private(
                    mode,
                    sc,
                    ty,
                ) <==> mode == RouterE2eEncryptionMode::Preferred),
                E2eEncryptionPolicy::PreferOff => !e2e::is_private(mode, sc, ty)
                    && !e2e::is_secret(mode, sc, ty),
            },
            None => !e2e::is_private(mode, sc, ty) && !e2e::is_secret(mode, sc, ty),
        },
{
}

/// What may only go out locked never goes out open: a board that can lock does, and one that cannot
/// refuses it; and nothing else is refused for that.
pub proof fn lemma_secrets_never_go_out_open(r: Router, sc: schema::SchemaSpec, ty: DataType)
    ensures
        e2e::is_secret(r.e2e_mode, sc, ty) ==> r.locks(sc, ty) || r.must_refuse(sc, ty),
        r.must_refuse(sc, ty) ==> !r.can_lock && e2e::is_secret(r.e2e_mode, sc, ty),
        r.locks(sc, ty) ==> r.can_lock,
        r.can_lock ==> !r.must_refuse(sc, ty),
        r.can_lock && e2e::is_private(r.e2e_mode, sc, ty) ==> r.locks(sc, ty),
{
}

proof fn lemma_stream_place(s: Seq<Stream>, id: u32)
    ensures
        match p2p::place_of(s, id) {
            Some(i) => 0 <= i < s.len() && s[i].id == id,
            None => forall|i: int| 0 <= i < s.len() ==> (#[trigger] s[i]).id != id,
        },
    decreases s.len(),
{
    if s.len() > 0 {
        lemma_stream_place(s.drop_last(), id);
        if p2p::place_of(s, id) is None {
            assert forall|i: int| 0 <= i < s.len() implies (#[trigger] s[i]).id != id by {
                if i < s.len() - 1 {
                    assert(s.drop_last()[i] == s[i]);
                }
            }
        }
    }
}

/// Bytes go out over a stream only where it is open, and are counted there, and nowhere else, so
/// that each message over it has the next number.
pub proof fn lemma_stream_counts_its_messages(t: StreamsSpec, id: u32, k: int)
    requires
        t.wf(),
        0 <= k < t.items.len(),
    ensures
        t.items[k].id == id && t.items[k].open ==> {
            &&& t.data_sent(id).1 == Some(t.items[k])
            &&& t.items[k].sent < u32::MAX ==> t.data_sent(id).0.items[k] == (Stream {
                sent: (t.items[k].sent + 1) as u32,
                ..t.items[k]
            })
        },
        t.items[k].id == id && !t.items[k].open ==> t.data_sent(id).1 is None && t.data_sent(id).0
            == t,
        t.items[k].id != id ==> t.data_sent(id).0.items[k] == t.items[k],
        t.data_sent(id).0.items.len() == t.items.len(),
        t.data_sent(id).0.next == t.next,
{
    lemma_stream_place(t.items, id);
    if let Some(i) = p2p::place_of(t.items, id) {
        if i < k {
            assert(t.items[i].id != t.items[k].id);
        } else if k < i {
            assert(t.items[k].id != t.items[i].id);
        }
    }
}

/// A stream that is ended is gone, and all others stay; one that is not known cannot be ended.
pub proof fn lemma_ended_stream_is_gone(t: StreamsSpec, id: u32, x: Stream)
    requires
        t.wf(),
    ensures
        t.ended(id).0.items.contains(x) <==> t.items.contains(x) && x.id != id,
        t.ended(id).1 matches Some(s) ==> s.id == id && t.items.contains(s),
        t.ended(id).1 is None ==> t.ended(id).0 == t,
{
    lemma_stream_place(t.items, id);
    match p2p::place_of(t.items, id) {
        Some(i) => {
            let rest = t.items.remove(i);
            assert(t.items.contains(t.items[i]));
            if rest.contains(x) {
                let k = choose|k: int| 0 <= k < rest.len() && rest[k] == x;
                let o = if k < i {
                    k
                } else {
                    k + 1
                };
                assert(t.items[o] == x);
                if o < i {
                    assert(t.items[o].id != t.items[i].id);
                } else {
                    assert(t.items[i].id != t.items[o].id);
                }
            }
            if t.items.contains(x) && x.id != id {
                let o = choose|o: int| 0 <= o < t.items.len() && t.items[o] == x;
                let k = if o < i {
                    o
                } else {
                    o - 1
                };
                assert(rest[k] == x);
            }
        },
        None => {
            if t.items.contains(x) {
                let o = choose|o: int| 0 <= o < t.items.len() && t.items[o] == x;
                assert(t.items[o].id != id);
            }
        },
    }
}

/// A stream that is asked for is new, not open yet, and has the ports and the board that it was
/// asked for with.
pub proof fn lemma_asked_stream_is_new(t: StreamsSpec, address: u32, peer_port: u16, local_port: u16)
    requires
        t.wf(),
        t.next < u32::MAX,
    ensures
        t.asked(address, peer_port, local_port).1 matches Some(s) && !s.open && s.peer_address
            == address && s.peer_port == peer_port && s.local_port == local_port && s.sent == 0
            && t.asked(address, peer_port, local_port).0.items == t.items.push(s),
        forall|i: int|
            0 <= i < t.items.len() ==> (#[trigger] t.items[i]).id != t.asked(
                address,
                peer_port,
                local_port,
            ).0.items.last().id,
{
}

/// A refusal goes back to who sent the message, from where it went, and names its stream.
pub proof fn lemma_refusal_goes_back(h: P2pHead)
    ensures
        p2p::refusal(h).kind == P2pKind::Reset,
        p2p::refusal(h).destination_address == h.source_address,
        p2p::refusal(h).source_address == h.destination_address,
        p2p::refusal(h).destination_port == h.source_port,
        p2p::refusal(h).source_port == h.destination_port,
        p2p::refusal(h).destination_stream == h.source_stream,
        p2p::refusal(h).source_stream == h.destination_stream,
{
}

/// A stream is granted only where someone listens, and else refused; a message for a stream that is
/// not known, or that comes from another board, changes nothing, and who sends data to it is told.
pub proof fn lemma_strangers_change_nothing(t: StreamsSpec, h: P2pHead, bound: bool)
    requires
        t.wf(),
    ensures
        h.kind == P2pKind::Open && !bound ==> t.after(h, bound) == t && t.step(h, bound).event is None
            && t.step(h, bound).reply == Some(p2p::refusal(h)),
        h.kind != P2pKind::Open && (forall|i: int|
            0 <= i < t.items.len() && (#[trigger] t.items[i]).id == h.destination_stream
                ==> t.items[i].peer_address != h.source_address) ==> {
            &&& t.after(h, bound) == t
            &&& t.step(h, bound).event is None
            &&& h.kind == P2pKind::Data ==> t.step(h, bound).reply == Some(p2p::refusal(h))
            &&& h.kind != P2pKind::Data ==> t.step(h, bound).reply is None
        },
{
    lemma_stream_place(t.items, h.destination_stream);
    if let Some(i) = p2p::place_of(t.items, h.destination_stream) {
        assert(t.items[i].id == h.destination_stream);
    }
}

/// A message over an open stream, from the board at its other end, comes out as what it is: data
/// leaves the stream as it is, and its end takes it away; and what comes of it names that stream.
pub proof fn lemma_messages_reach_their_stream(t: StreamsSpec, h: P2pHead, bound: bool, i: int)
    requires
        t.wf(),
        0 <= i < t.items.len(),
        t.items[i].id == h.destination_stream,
        t.items[i].peer_address == h.source_address,
        t.items[i].peer_id == h.source_stream,
        t.items[i].open,
    ensures
        h.kind == P2pKind::Data ==> t.after(h, bound) == t && t.step(h, bound).event == Some(
            (P2pStreamEventKind::Data, t.items[i]),
        ) && t.step(h, bound).reply is None,
        h.kind == P2pKind::Close ==> t.after(h, bound).items == t.items.remove(i) && t.step(
            h,
            bound,
        ).event == Some((P2pStreamEventKind::Closed, t.items[i])),
        h.kind == P2pKind::Reset ==> t.after(h, bound).items == t.items.remove(i) && t.step(
            h,
            bound,
        ).event == Some((P2pStreamEventKind::Reset, t.items[i])),
{
    lemma_stream_place(t.items, h.destination_stream);
    if let Some(k) = p2p::place_of(t.items, h.destination_stream) {
        if k < i {
            assert(t.items[k].id != t.items[i].id);
        } else if i < k {
            assert(t.items[i].id != t.items[k].id);
        }
    } else {
        assert(t.items[i].id != h.destination_stream);
    }
}

/// A stream that is open is not opened again: an answer that comes twice, or from someone else,
/// changes nothing and is not told of.
pub proof fn lemma_stream_opens_once(s: StreamsSpec, h: P2pHead, bound: bool, i: int)
    requires
        h.kind == P2pKind::Accept,
        p2p::place_of(s.items, h.destination_stream) == Some(i),
        s.items[i].open || s.items[i].peer_address != h.source_address,
    ensures
        s.after(h, bound) == s,
        s.step(h, bound).event is None,
        s.step(h, bound).reply is None,
{
}

/// A board learns of every other board that claims an address, whichever it claims, and never of
/// itself.
pub proof fn lemma_claims_of_others_are_learnt(
    s: Station,
    other: Identity,
    name: Seq<char>,
    side: usize,
    now: u64,
)
    ensures
        other.owner == s.core.identity.owner ==> s.known_after(other, name, side, now)
            == s.directory@,
        other.owner != s.core.identity.owner ==> ({
            let known = s.known_after(other, name, side, now);
            &&& known.len() > 0
            &&& known.last() == (PeerSpec { name, identity: other, side, last_seen: now })
            &&& address::by_name(known, name) == Some(known.last())
            &&& address::by_address(known, other.address) == Some(known.last())
        }),
{
    if other.owner != s.core.identity.owner {
        let p = PeerSpec { name, identity: other, side, last_seen: now };
        let known = address::heard(s.directory@, p);
        assert(known.last() == p);
    }
}

/// The new name of a board that has to give up its own is the old one, a dash and its address.
pub proof fn lemma_new_name_says_the_address(name: Seq<char>, address: u32)
    ensures
        ({
            let n = address::renamed(name, address);
            let k = name.len() as int;
            &&& n.len() > k + 1
            &&& n.take(k) == name
            &&& n[k] == '-'
            &&& text::number_in(n.skip(k + 1), 10) == Some(address as nat)
        }),
{
    reveal_strlit("-");
    text::lemma_decimal_reads_back(address as nat);
    let n = address::renamed(name, address);
    let k = name.len() as int;
    assert(n.take(k) =~= name);
    assert(n.skip(k + 1) =~= text::decimal(address as nat));
}

} // verus!
