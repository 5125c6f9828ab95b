//! Addresses and names of boards, and who gives way where two boards claim the same.
use vstd::prelude::*;
use vstd::string::*;
use crate::codec;
use crate::discovery::{ADDRESS_MODE_STATIC, DISCOVERY_FAST_INTERVAL_MS};
use crate::hash;
use crate::router::Router;
use crate::text;

verus! {

/// The most boards whose addresses are kept.
pub const MAX_PEERS: usize = 256;

/// By what a board is known.
#[derive(Debug, Clone, Copy, PartialEq, Eq, Structural)]
pub struct Identity {
    pub address: u32,
    /// The address that was asked for; zero where none was.
    pub requested: u32,
    pub mode: u8,
    /// When the board came up.
    pub birth: u64,
    /// Tells apart boards of one name.
    pub owner: u64,
}

impl Identity {
    /// A board that takes the address that its name hashes to.
    pub open spec fn named(name: Seq<char>) -> Identity {
        Identity {
            address: hash::name_address(name),
            requested: 0,
            mode: 0,
            birth: 0,
            owner: hash::name_hash(name),
        }
    }

    pub fn of_name(name: &str) -> (r: Identity)
        ensures
            r == Identity::named(name@),
    {
        Identity {
            address: hash::sender_address_u32(name),
            requested: 0,
            mode: 0,
            birth: 0,
            owner: hash::sender_hash(name),
        }
    }

    /// Whether `self` keeps what `other` claims too: a fixed address beats one that may move, and
    /// among equals the older board wins.
    pub open spec fn beats(self, other: Identity) -> bool {
        if (self.mode == ADDRESS_MODE_STATIC) != (other.mode == ADDRESS_MODE_STATIC) {
            self.mode == ADDRESS_MODE_STATIC
        } else {
            self.birth < other.birth || (self.birth == other.birth && self.owner < other.owner)
        }
    }

    fn wins(&self, other: &Identity) -> (b: bool)
        ensures
            b == self.beats(*other),
    {
        let s: bool = self.mode == ADDRESS_MODE_STATIC;
        let o: bool = other.mode == ADDRESS_MODE_STATIC;
        if s != o {
            s
        } else {
            self.birth < other.birth || (self.birth == other.birth && self.owner < other.owner)
        }
    }
}

/// Of two boards exactly one gives way.
pub proof fn lemma_one_gives_way(a: Identity, b: Identity)
    requires
        a.owner != b.owner,
    ensures
        a.beats(b) != b.beats(a),
{
}

/// Giving way does not go round in circles.
pub proof fn lemma_beats_is_transitive(a: Identity, b: Identity, c: Identity)
    requires
        a.beats(b),
        b.beats(c),
    ensures
        a.beats(c),
{
}

/// The address after an address.
pub open spec fn next_address(a: u32) -> u32 {
    if a == u32::MAX {
        0
    } else {
        (a + 1) as u32
    }
}

/// The first address, from `a` on, that is not zero and that no board has.
pub open spec fn free_from(a: u32, taken: Seq<u32>, tries: nat) -> u32
    decreases tries,
{
    if tries == 0 || (a != 0 && !taken.contains(a)) {
        a
    } else {
        free_from(next_address(a), taken, (tries - 1) as nat)
    }
}

/// Where a board moves that has to give way.
pub open spec fn moved(a: u32, taken: Seq<u32>) -> u32 {
    free_from(next_address(a), taken, (taken.len() + 2) as nat)
}

spec fn ahead(a: u32, i: int) -> u32 {
    ((a + i) % 0x1_0000_0000) as u32
}

proof fn lemma_free_from_steps(a: u32, taken: Seq<u32>, tries: nat)
    requires
        tries <= 0x1_0000_0000,
    ensures
        ({
            let r = free_from(a, taken, tries);
            (r != 0 && !taken.contains(r)) || forall|i: int|
                0 <= i < tries ==> (#[trigger] ahead(a, i)) == 0 || taken.contains(ahead(a, i))
        }),
    decreases tries,
{
    if tries > 0 && !(a != 0 && !taken.contains(a)) {
        let n = next_address(a);
        lemma_free_from_steps(n, taken, (tries - 1) as nat);
        let r = free_from(a, taken, tries);
        if !(r != 0 && !taken.contains(r)) {
            assert forall|i: int| 0 <= i < tries implies (#[trigger] ahead(a, i)) == 0
                || taken.contains(ahead(a, i)) by {
                if i == 0 {
                    assert(ahead(a, 0) == a);
                } else {
                    assert(ahead(n, i - 1) == ahead(a, i));
                }
            }
        }
    }
}

/// A board that has to give way finds an address that no board has.
pub proof fn lemma_moved_is_free(a: u32, taken: Seq<u32>)
    requires
        taken.len() < u32::MAX - 2,
    ensures
        moved(a, taken) != 0,
        !taken.contains(moved(a, taken)),
{
    let b = next_address(a);
    let n = (taken.len() + 2) as nat;
    lemma_free_from_steps(b, taken, n);
    let r = moved(a, taken);
    if !(r != 0 && !taken.contains(r)) {
        let line = Seq::new(n, |i: int| ahead(b, i));
        let all = taken.push(0);
        assert forall|i: int, j: int| 0 <= i < j < n implies line[i] != line[j] by {
            assert(ahead(b, i) == (b + i) % 0x1_0000_0000);
            assert(ahead(b, j) == (b + j) % 0x1_0000_0000);
        }
        assert(line.no_duplicates());
        line.unique_seq_to_set();
        all.lemma_cardinality_of_set();
        assert forall|x: u32| line.to_set().contains(x) implies all.to_set().contains(x) by {
            let i = choose|i: int| 0 <= i < line.len() && line[i] == x;
            assert(line[i] == ahead(b, i));
            if x == 0 {
                assert(all[taken.len() as int] == 0);
            } else {
                let k = choose|k: int| 0 <= k < taken.len() && taken[k] == x;
                assert(all[k] == x);
            }
        }
        vstd::seq_lib::seq_to_set_is_finite(all);
        vstd::set_lib::lemma_len_subset(line.to_set(), all.to_set());
        assert(false);
    }
}

fn find_free(a: u32, taken: &Vec<u32>) -> (r: u32)
    requires
        taken@.len() <= MAX_PEERS,
    ensures
        r == moved(a, taken@),
{
    let mut x: u32 = if a == u32::MAX {
        0
    } else {
        a + 1
    };
    let mut left: usize = taken.len() + 2;
    while left > 0 && (x == 0 || codec::contains_u32(taken.as_slice(), x))
        invariant
            left <= taken@.len() + 2,
            taken@.len() <= MAX_PEERS,
            free_from(x, taken@, left as nat) == moved(a, taken@),
        decreases left,
    {
        x = if x == u32::MAX {
            0
        } else {
            x + 1
        };
        left = left - 1;
    }
    x
}

/// Why a board changed its address or its name.
#[derive(Debug, Clone, Copy, PartialEq, Eq, Structural)]
pub enum AddressChangeReason {
    /// Its fixed address is that of a board that wins.
    StaticConflict,
    /// The address that it asked for is.
    RequestedConflict,
    /// The address that it took is.
    DynamicConflict,
    /// Its name is.
    HostnameConflict,
}

/// What a board changed.
#[derive(Debug, Clone, Copy, PartialEq, Eq, Structural)]
pub struct AddressChange {
    pub reason: AddressChangeReason,
    pub old_address: u32,
    pub new_address: u32,
}

/// The name of a board that has to give up its own.
pub open spec fn renamed(name: Seq<char>, address: u32) -> Seq<char> {
    name + "-"@ + text::decimal(address as nat)
}

/// Whether a board has to give way to another.
pub open spec fn gives_way(me: Identity, other: Identity) -> bool {
    other.owner != me.owner && other.beats(me)
}

/// By what a board is known after it heard of another.
pub open spec fn resolved(me: Identity, other: Identity, taken: Seq<u32>) -> Identity {
    if gives_way(me, other) && other.address == me.address {
        Identity { address: moved(me.address, taken), ..me }
    } else {
        me
    }
}

/// The name of a board after it heard of another.
pub open spec fn name_after(
    me: Identity,
    name: Seq<char>,
    other: Identity,
    other_name: Seq<char>,
    taken: Seq<u32>,
) -> Seq<char> {
    if gives_way(me, other) && other_name == name {
        renamed(name, resolved(me, other, taken).address)
    } else {
        name
    }
}

/// What a board reports after it heard of another.
pub open spec fn change(
    me: Identity,
    name: Seq<char>,
    other: Identity,
    other_name: Seq<char>,
    taken: Seq<u32>,
) -> Option<AddressChange> {
    if !gives_way(me, other) {
        None
    } else if other.address == me.address {
        Some(
            AddressChange {
                reason: if me.mode == ADDRESS_MODE_STATIC {
                    AddressChangeReason::StaticConflict
                } else if me.requested != 0 {
                    AddressChangeReason::RequestedConflict
                } else {
                    AddressChangeReason::DynamicConflict
                },
                old_address: me.address,
                new_address: moved(me.address, taken),
            },
        )
    } else if other_name == name {
        Some(
            AddressChange {
                reason: AddressChangeReason::HostnameConflict,
                old_address: me.address,
                new_address: me.address,
            },
        )
    } else {
        None
    }
}

/// Two boards that claim one address end with two, once both have heard of the other: one of them
/// keeps it.
pub proof fn lemma_addresses_part(a: Identity, b: Identity, known_a: Seq<u32>, known_b: Seq<u32>)
    requires
        a.owner != b.owner,
        known_a.contains(b.address),
        known_b.contains(a.address),
        known_a.len() <= MAX_PEERS,
        known_b.len() <= MAX_PEERS,
    ensures
        resolved(a, b, known_a).address != resolved(b, a, known_b).address,
        resolved(a, b, known_a) == a || resolved(b, a, known_b) == b,
{
    lemma_moved_is_free(a.address, known_a);
    lemma_moved_is_free(b.address, known_b);
}

impl Router {
    /// What hearing of a board does to a router.
    pub open spec fn settled(
        self,
        after: Router,
        other: Identity,
        other_name: Seq<char>,
        taken: Seq<u32>,
    ) -> bool {
        let moves = change(self.identity, self.sender@, other, other_name, taken) is Some;
        &&& after.identity == resolved(self.identity, other, taken)
        &&& after.sender@ == name_after(self.identity, self.sender@, other, other_name, taken)
        &&& after == Router {
            identity: after.identity,
            sender: after.sender,
            next_announce: if moves {
                0
            } else {
                self.next_announce
            },
            interval: if moves {
                DISCOVERY_FAST_INTERVAL_MS
            } else {
                self.interval
            },
            ..self
        }
    }

    /// Another board was heard of: the board gives way where it has to, and then announces itself
    /// soon.
    pub fn settle_address(
        &mut self,
        other: Identity,
        other_name: &str,
        taken: &Vec<u32>,
    ) -> (r: Option<AddressChange>)
        requires
            old(self).wf(),
            taken@.len() <= MAX_PEERS,
        ensures
            final(self).wf(),
            r == change(old(self).identity, old(self).sender@, other, other_name@, taken@),
            old(self).settled(*final(self), other, other_name@, taken@),
    {
        let me: Identity = self.identity;
        if other.owner == me.owner || !other.wins(&me) {
            return None;
        }
        let same_name: bool = codec::same_bytes(other_name.as_bytes(), self.sender.as_str().as_bytes());
        proof {
            if same_name {
                vstd::utf8::encode_utf8_decode_utf8(other_name@);
                vstd::utf8::encode_utf8_decode_utf8(self.sender@);
            }
        }
        let mut r: Option<AddressChange> = None;
        if other.address == me.address {
            let a: u32 = find_free(me.address, taken);
            self.identity.address = a;
            r = Some(
                AddressChange {
                    reason: if me.mode == ADDRESS_MODE_STATIC {
                        AddressChangeReason::StaticConflict
                    } else if me.requested != 0 {
                        AddressChangeReason::RequestedConflict
                    } else {
                        AddressChangeReason::DynamicConflict
                    },
                    old_address: me.address,
                    new_address: a,
                },
            );
        } else if same_name {
            r = Some(
                AddressChange {
                    reason: AddressChangeReason::HostnameConflict,
                    old_address: me.address,
                    new_address: me.address,
                },
            );
        }
        if same_name {
            let mut name: String = self.sender.clone();
            name.append("-");
            text::push_decimal(&mut name, self.identity.address as u64);
            self.sender = name;
        }
        if r.is_some() {
            self.next_announce = 0;
            self.interval = DISCOVERY_FAST_INTERVAL_MS;
        }
        r
    }
}

/// A board whose address is known, as a value.
pub struct PeerSpec {
    pub name: Seq<char>,
    pub identity: Identity,
    pub side: usize,
    pub last_seen: u64,
}

/// A board whose address is known.
pub struct Peer {
    pub name: String,
    pub identity: Identity,
    pub side: usize,
    pub last_seen: u64,
}

impl View for Peer {
    type V = PeerSpec;

    open spec fn view(&self) -> PeerSpec {
        PeerSpec {
            name: self.name@,
            identity: self.identity,
            side: self.side,
            last_seen: self.last_seen,
        }
    }
}

pub open spec fn peers(v: Seq<Peer>) -> Seq<PeerSpec> {
    v.map_values(|x: Peer| x@)
}

/// The place of the board of an owner.
pub open spec fn place_of(t: Seq<PeerSpec>, owner: u64) -> Option<int>
    decreases t.len(),
{
    if t.len() == 0 {
        None
    } else if t.last().identity.owner == owner {
        Some(t.len() - 1)
    } else {
        place_of(t.drop_last(), owner)
    }
}

/// The board with a name that was heard of last.
pub open spec fn by_name(t: Seq<PeerSpec>, name: Seq<char>) -> Option<PeerSpec>
    decreases t.len(),
{
    if t.len() == 0 {
        None
    } else if t.last().name == name {
        Some(t.last())
    } else {
        by_name(t.drop_last(), name)
    }
}

/// The board with an address that was heard of last.
pub open spec fn by_address(t: Seq<PeerSpec>, address: u32) -> Option<PeerSpec>
    decreases t.len(),
{
    if t.len() == 0 {
        None
    } else if t.last().identity.address == address {
        Some(t.last())
    } else {
        by_address(t.drop_last(), address)
    }
}

/// The boards that are known after one was heard of; where there is no room, the one that was
/// heard of first is forgotten.
pub open spec fn heard(t: Seq<PeerSpec>, p: PeerSpec) -> Seq<PeerSpec> {
    let rest = match place_of(t, p.identity.owner) {
        Some(i) => t.remove(i),
        None => t,
    };
    let all = rest.push(p);
    if all.len() > MAX_PEERS {
        all.skip(1)
    } else {
        all
    }
}

pub open spec fn addresses(t: Seq<PeerSpec>) -> Seq<u32> {
    t.map_values(|x: PeerSpec| x.identity.address)
}

proof fn lemma_place_bounds(t: Seq<PeerSpec>, owner: u64)
    ensures
        place_of(t, owner) matches Some(i) ==> 0 <= i < t.len() && t[i].identity.owner == owner,
    decreases t.len(),
{
    if t.len() > 0 && t.last().identity.owner != owner {
        lemma_place_bounds(t.drop_last(), owner);
    }
}

/// A board that was heard of is found under its name and under its address.
pub proof fn lemma_heard_is_found(t: Seq<PeerSpec>, p: PeerSpec)
    ensures
        by_name(heard(t, p), p.name) == Some(p),
        by_address(heard(t, p), p.identity.address) == Some(p),
        addresses(heard(t, p)).contains(p.identity.address),
        heard(t, p).len() <= t.len() + 1,
{
    lemma_place_bounds(t, p.identity.owner);
    let h = heard(t, p);
    assert(h.len() > 0 && h.last() == p);
    assert(addresses(h)[h.len() - 1] == p.identity.address);
}

/// Where something for an address goes.
#[derive(Debug, Clone, Copy, PartialEq, Eq, Structural)]
pub enum AddressRoute {
    /// It is for this board.
    Here,
    /// It goes over a link.
    Over(usize),
    /// No board has the address.
    Nowhere,
}

/// Where something for an address goes.
pub open spec fn way_to(t: Seq<PeerSpec>, me: u32, address: u32) -> AddressRoute {
    if address == me {
        AddressRoute::Here
    } else {
        match by_address(t, address) {
            Some(p) => AddressRoute::Over(p.side),
            None => AddressRoute::Nowhere,
        }
    }
}

/// The boards whose addresses are known.
pub struct Directory {
    items: Vec<Peer>,
}

impl View for Directory {
    type V = Seq<PeerSpec>;

    closed spec fn view(&self) -> Seq<PeerSpec> {
        peers(self.items@)
    }
}

impl Directory {
    /// No more boards are kept than there is room for.
    pub open spec fn wf(self) -> bool {
        self@.len() <= MAX_PEERS
    }

    pub fn new() -> (r: Directory)
        ensures
            r.wf(),
            r@ == Seq::<PeerSpec>::empty(),
    {
        let r = Directory { items: Vec::new() };
        assert(r@ =~= Seq::<PeerSpec>::empty());
        r
    }

    fn place(&self, owner: u64) -> (r: Option<usize>)
        ensures
            match place_of(self@, owner) {
                Some(i) => r matches Some(k) && k == i && k < self@.len(),
                None => r is None,
            },
    {
        let mut n: usize = self.items.len();
        proof {
            assert(self@.take(n as int) =~= self@);
            lemma_place_bounds(self@, owner);
        }
        while n > 0
            invariant
                n <= self.items@.len() == self@.len(),
                place_of(self@, owner) == place_of(self@.take(n as int), owner),
            decreases n,
        {
            assert(self@.take(n as int).drop_last() =~= self@.take(n - 1));
            assert(self@.take(n as int).last() == self.items@[n - 1]@);
            if self.items[n - 1].identity.owner == owner {
                return Some(n - 1);
            }
            n = n - 1;
        }
        None
    }

    /// A board was heard of.
    pub fn hear(&mut self, p: Peer)
        requires
            old(self).wf(),
        ensures
            final(self).wf(),
            final(self)@ == heard(old(self)@, p@),
    {
        let ghost first = self.items@;
        if let Some(i) = self.place(p.identity.owner) {
            let _ = self.items.remove(i);
            assert(self@ =~= peers(first).remove(i as int));
        }
        proof {
            lemma_place_bounds(old(self)@, p.identity.owner);
        }
        let ghost rest = self.items@;
        let ghost pv = p@;
        self.items.push(p);
        assert(self@ =~= peers(rest).push(pv));
        assert(self@.len() == self.items@.len());
        if self.items.len() > MAX_PEERS {
            let ghost all = self.items@;
            let _ = self.items.remove(0);
            assert(self@ =~= peers(all).skip(1));
        }
    }

    /// The board with a name.
    pub fn named(&self, name: &str) -> (r: Option<&Peer>)
        ensures
            match by_name(self@, name@) {
                Some(p) => r matches Some(x) && x@ == p,
                None => r is None,
            },
    {
        let mut n: usize = self.items.len();
        assert(self@.take(n as int) =~= self@);
        while n > 0
            invariant
                n <= self.items@.len() == self@.len(),
                by_name(self@, name@) == by_name(self@.take(n as int), name@),
            decreases n,
        {
            assert(self@.take(n as int).drop_last() =~= self@.take(n - 1));
            assert(self@.take(n as int).last() == self.items@[n - 1]@);
            let p: &Peer = &self.items[n - 1];
            let same: bool = codec::same_bytes(p.name.as_str().as_bytes(), name.as_bytes());
            proof {
                if same {
                    vstd::utf8::encode_utf8_decode_utf8(p.name@);
                    vstd::utf8::encode_utf8_decode_utf8(name@);
                }
            }
            if same {
                return Some(p);
            }
            n = n - 1;
        }
        None
    }

    /// The board with an address.
    pub fn at(&self, address: u32) -> (r: Option<&Peer>)
        ensures
            match by_address(self@, address) {
                Some(p) => r matches Some(x) && x@ == p,
                None => r is None,
            },
    {
        let mut n: usize = self.items.len();
        assert(self@.take(n as int) =~= self@);
        while n > 0
            invariant
                n <= self.items@.len() == self@.len(),
                by_address(self@, address) == by_address(self@.take(n as int), address),
            decreases n,
        {
            assert(self@.take(n as int).drop_last() =~= self@.take(n - 1));
            assert(self@.take(n as int).last() == self.items@[n - 1]@);
            if self.items[n - 1].identity.address == address {
                return Some(&self.items[n - 1]);
            }
            n = n - 1;
        }
        None
    }

    /// Where something for an address goes.
    pub fn route(&self, me: u32, address: u32) -> (r: AddressRoute)
        ensures
            r == way_to(self@, me, address),
    {
        if address == me {
            AddressRoute::Here
        } else {
            match self.at(address) {
                Some(p) => AddressRoute::Over(p.side),
                None => AddressRoute::Nowhere,
            }
        }
    }

    /// The addresses that boards have.
    pub fn taken(&self) -> (v: Vec<u32>)
        ensures
            v@ == addresses(self@),
    {
        let mut v: Vec<u32> = Vec::new();
        let mut i: usize = 0;
        while i < self.items.len()
            invariant
                i <= self.items@.len() == self@.len(),
                v@ == addresses(self@).take(i as int),
            decreases self.items@.len() - i,
        {
            assert(self@[i as int] == self.items@[i as int]@);
            v.push(self.items[i].identity.address);
            assert(v@ =~= addresses(self@).take(i + 1));
            i = i + 1;
        }
        assert(v@ =~= addresses(self@));
        v
    }
}

} // verus!
