//! Which boards a packet is to reach, and which of them have said that it did.
use vstd::prelude::*;
use vstd::string::*;
use crate::codec;
use crate::hash;
use crate::meta::TY_RELIABLE_ACK;
use crate::packet::{Packet, PacketSpec};

verus! {

/// Most packets that are followed to the boards that they are for.
pub const RELIABLE_MAX_END_TO_END_PENDING: usize = 64;

/// Most packets of which it is kept which boards have them.
pub const RELIABLE_MAX_END_TO_END_ACK_CACHE: usize = 128;

/// Most packets of which it is kept over which link they came.
pub const RELIABLE_MAX_RETURN_ROUTES: usize = 256;

/// A packet and boards, as a value.
#[verifier::ext_equal]
pub struct EntrySpec {
    pub id: u64,
    pub holders: Seq<u32>,
}

/// A packet and boards.
#[derive(Debug)]
pub struct LedgerEntry {
    pub id: u64,
    pub holders: Vec<u32>,
}

impl View for LedgerEntry {
    type V = EntrySpec;

    open spec fn view(&self) -> EntrySpec {
        EntrySpec { id: self.id, holders: self.holders@ }
    }
}

pub open spec fn entries(v: Seq<LedgerEntry>) -> Seq<EntrySpec> {
    v.map_values(|x: LedgerEntry| x@)
}

/// Where a packet stands.
pub open spec fn place_of(t: Seq<EntrySpec>, id: u64) -> Option<int>
    decreases t.len(),
{
    if t.len() == 0 {
        None
    } else if t.last().id == id {
        Some(t.len() - 1)
    } else {
        place_of(t.drop_last(), id)
    }
}

/// The boards of a packet.
pub open spec fn holders_of(t: Seq<EntrySpec>, id: u64) -> Option<Seq<u32>> {
    match place_of(t, id) {
        Some(i) => Some(t[i].holders),
        None => None,
    }
}

pub open spec fn without(t: Seq<EntrySpec>, id: u64) -> Seq<EntrySpec> {
    match place_of(t, id) {
        Some(i) => t.remove(i),
        None => t,
    }
}

/// The last `n` entries.
pub open spec fn latest(t: Seq<EntrySpec>, n: nat) -> Seq<EntrySpec> {
    if t.len() <= n {
        t
    } else {
        t.skip(t.len() - n)
    }
}

/// What is known after a packet went out to boards; one that is for none is not followed.
pub open spec fn followed(t: Seq<EntrySpec>, id: u64, holders: Seq<u32>, capacity: nat) -> Seq<
    EntrySpec,
> {
    if holders.len() == 0 {
        t
    } else {
        latest(without(t, id).push(EntrySpec { id, holders }), capacity)
    }
}

pub open spec fn differs(h: u32) -> spec_fn(u32) -> bool {
    |x: u32| x != h
}

pub open spec fn others(holders: Seq<u32>, h: u32) -> Seq<u32> {
    holders.filter(differs(h))
}

/// What is known after a board said that it has a packet.
pub open spec fn struck(t: Seq<EntrySpec>, id: u64, h: u32) -> Seq<EntrySpec> {
    match place_of(t, id) {
        Some(i) => if others(t[i].holders, h).len() == 0 {
            t.remove(i)
        } else {
            t.update(i, EntrySpec { id, holders: others(t[i].holders, h) })
        },
        None => t,
    }
}

/// What is known of the boards that have a packet after one more has it.
pub open spec fn counted(t: Seq<EntrySpec>, id: u64, h: u32, capacity: nat, most: nat) -> Seq<
    EntrySpec,
> {
    let v = match holders_of(t, id) {
        Some(v) => v,
        None => Seq::empty(),
    };
    let w = if v.contains(h) {
        v
    } else if v.len() < most {
        v.push(h)
    } else {
        v.push(h).skip(1)
    };
    latest(without(t, id).push(EntrySpec { id, holders: w }), capacity)
}

pub open spec fn known_ones(holders: Seq<u32>, known: Seq<u32>) -> Seq<u32> {
    holders.filter(|x: u32| known.contains(x))
}

/// What is known after boards were lost sight of.
pub open spec fn kept(t: Seq<EntrySpec>, known: Seq<u32>) -> Seq<EntrySpec>
    decreases t.len(),
{
    if t.len() == 0 {
        Seq::empty()
    } else {
        let front = kept(t.drop_last(), known);
        let rest = known_ones(t.last().holders, known);
        if rest.len() == 0 {
            front
        } else {
            front.push(EntrySpec { id: t.last().id, holders: rest })
        }
    }
}

proof fn lemma_place_bounds(t: Seq<EntrySpec>, id: u64)
    ensures
        match place_of(t, id) {
            Some(i) => 0 <= i < t.len() && t[i].id == id,
            None => forall|i: int| 0 <= i < t.len() ==> (#[trigger] t[i]).id != id,
        },
    decreases t.len(),
{
    if t.len() > 0 && t.last().id != id {
        lemma_place_bounds(t.drop_last(), id);
        if place_of(t, id) is None {
            assert forall|i: int| 0 <= i < t.len() implies (#[trigger] t[i]).id != id by {
                if i < t.len() - 1 {
                    assert(t.drop_last()[i].id != id);
                }
            }
        }
    }
}

/// Whatever happens, no more packets are kept than there is room for.
pub proof fn lemma_ledger_is_bounded(
    t: Seq<EntrySpec>,
    id: u64,
    holders: Seq<u32>,
    h: u32,
    capacity: nat,
    most: nat,
    known: Seq<u32>,
)
    requires
        t.len() <= capacity,
    ensures
        followed(t, id, holders, capacity).len() <= capacity,
        struck(t, id, h).len() <= capacity,
        counted(t, id, h, capacity, most).len() <= capacity,
        kept(t, known).len() <= t.len(),
{
    lemma_place_bounds(t, id);
    lemma_kept_len(t, known);
}

proof fn lemma_kept_len(t: Seq<EntrySpec>, known: Seq<u32>)
    ensures
        kept(t, known).len() <= t.len(),
    decreases t.len(),
{
    if t.len() > 0 {
        lemma_kept_len(t.drop_last(), known);
    }
}

/// No packet stands in the list twice.
pub open spec fn once(t: Seq<EntrySpec>) -> bool {
    forall|i: int, j: int|
        0 <= i < j < t.len() ==> (#[trigger] t[i]).id != (#[trigger] t[j]).id
}

proof fn lemma_found(t: Seq<EntrySpec>, i: int)
    requires
        once(t),
        0 <= i < t.len(),
    ensures
        place_of(t, t[i].id) == Some(i),
{
    lemma_place_bounds(t, t[i].id);
}

/// A packet that went out waits for exactly the boards that it is for, and each board that has it
/// is waited for no longer: with the last one the packet is forgotten.
pub proof fn lemma_packet_waits_for_its_boards(
    t: Seq<EntrySpec>,
    id: u64,
    holders: Seq<u32>,
    h: u32,
    capacity: nat,
)
    requires
        once(t),
        capacity > 0,
        holders.len() > 0,
    ensures
        ({
            let sent = followed(t, id, holders, capacity);
            let said = struck(sent, id, h);
            &&& once(sent)
            &&& holders_of(sent, id) == Some(holders)
            &&& holders_of(said, id) == (if others(holders, h).len() == 0 {
                None
            } else {
                Some(others(holders, h))
            })
        }),
{
    lemma_place_bounds(t, id);
    let rest = without(t, id);
    assert forall|i: int| 0 <= i < rest.len() implies (#[trigger] rest[i]).id != id by {
        if let Some(k) = place_of(t, id) {
            if i < k {
                assert(rest[i] == t[i]);
            } else {
                assert(rest[i] == t[i + 1]);
            }
        }
    }
    assert(once(rest));
    let e = EntrySpec { id, holders };
    let all = rest.push(e);
    assert(once(all));
    let sent = latest(all, capacity);
    assert(sent.last() == e);
    assert(once(sent));
    lemma_found(sent, sent.len() - 1);
    let said = struck(sent, id, h);
    lemma_place_bounds(said, id);
    if others(holders, h).len() == 0 {
        assert(said =~= sent.drop_last());
        assert forall|i: int| 0 <= i < said.len() implies (#[trigger] said[i]).id != id by {
            assert(said[i] == sent[i]);
            assert(sent[sent.len() - 1].id == id);
        }
    } else {
        assert(said.last().id == id);
    }
}

proof fn lemma_put_once(t: Seq<EntrySpec>, e: EntrySpec, capacity: nat)
    requires
        once(t),
    ensures
        once(without(t, e.id)),
        once(latest(without(t, e.id).push(e), capacity)),
{
    lemma_place_bounds(t, e.id);
    let rest = without(t, e.id);
    assert forall|i: int| 0 <= i < rest.len() implies (#[trigger] rest[i]).id != e.id by {
        if let Some(k) = place_of(t, e.id) {
            if i < k {
                assert(rest[i] == t[i]);
            } else {
                assert(rest[i] == t[i + 1]);
            }
        }
    }
    assert(once(rest.push(e)));
}

proof fn lemma_kept_once(t: Seq<EntrySpec>, known: Seq<u32>)
    requires
        once(t),
    ensures
        once(kept(t, known)),
        forall|i: int|
            0 <= i < kept(t, known).len() ==> exists|k: int|
                0 <= k < t.len() && (#[trigger] t[k]).id == (#[trigger] kept(t, known)[i]).id,
    decreases t.len(),
{
    if t.len() > 0 {
        let front = t.drop_last();
        assert forall|i: int, j: int| 0 <= i < j < front.len() implies (#[trigger] front[i]).id
            != (#[trigger] front[j]).id by {
            assert(t[i].id != t[j].id);
        }
        lemma_kept_once(front, known);
        let f = kept(front, known);
        let all = kept(t, known);
        assert forall|i: int| 0 <= i < f.len() implies (#[trigger] f[i]).id != t.last().id && exists|
            k: int,
        |
            0 <= k < t.len() - 1 && (#[trigger] t[k]).id == f[i].id by {
            let k = choose|k: int| 0 <= k < front.len() && (#[trigger] front[k]).id == f[i].id;
            assert(t[k].id == f[i].id);
            assert(t[k].id != t[t.len() - 1].id);
        }
        assert forall|i: int| 0 <= i < all.len() implies exists|k: int|
            0 <= k < t.len() && (#[trigger] t[k]).id == (#[trigger] all[i]).id by {
            if i == f.len() {
                assert(t[t.len() - 1].id == all[i].id);
            } else {
                assert(all[i] == f[i]);
            }
        }
        assert forall|i: int, j: int| 0 <= i < j < all.len() implies (#[trigger] all[i]).id != (
        #[trigger] all[j]).id by {
            assert(all[i] == f[i]);
            if j < f.len() {
                assert(all[j] == f[j]);
            }
        }
    }
}

/// Whatever happens, no packet comes to stand in the list twice.
pub proof fn lemma_ledger_lists_once(
    t: Seq<EntrySpec>,
    id: u64,
    holders: Seq<u32>,
    h: u32,
    capacity: nat,
    most: nat,
    known: Seq<u32>,
)
    requires
        once(t),
    ensures
        once(followed(t, id, holders, capacity)),
        once(struck(t, id, h)),
        once(counted(t, id, h, capacity, most)),
        once(kept(t, known)),
{
    lemma_place_bounds(t, id);
    lemma_put_once(t, EntrySpec { id, holders }, capacity);
    lemma_kept_once(t, known);
    let all = counted(t, id, h, capacity, most);
    let v = match holders_of(t, id) {
        Some(v) => v,
        None => Seq::empty(),
    };
    let w = if v.contains(h) {
        v
    } else if v.len() < most {
        v.push(h)
    } else {
        v.push(h).skip(1)
    };
    lemma_put_once(t, EntrySpec { id, holders: w }, capacity);
    assert(all == latest(without(t, id).push(EntrySpec { id, holders: w }), capacity));
}

/// A packet waits on while the boards that it is for are known, whatever else they say of
/// themselves.
pub proof fn lemma_known_boards_are_waited_for(t: Seq<EntrySpec>, known: Seq<u32>)
    requires
        forall|i: int, j: int|
            0 <= i < t.len() && 0 <= j < t[i].holders.len() ==> known.contains(
                #[trigger] t[i].holders[j],
            ),
        forall|i: int| 0 <= i < t.len() ==> (#[trigger] t[i]).holders.len() > 0,
    ensures
        kept(t, known) == t,
    decreases t.len(),
{
    if t.len() > 0 {
        let front = t.drop_last();
        assert forall|i: int, j: int|
            0 <= i < front.len() && 0 <= j < front[i].holders.len() implies known.contains(
            #[trigger] front[i].holders[j],
        ) by {
            assert(known.contains(t[i].holders[j]));
        }
        assert forall|i: int| 0 <= i < front.len() implies (#[trigger] front[i]).holders.len()
            > 0 by {
            assert(t[i].holders.len() > 0);
        }
        lemma_known_boards_are_waited_for(front, known);
        let v = t.last().holders;
        assert forall|j: int| 0 <= j < v.len() implies known.contains(#[trigger] v[j]) by {
            assert(known.contains(t[t.len() - 1].holders[j]));
        }
        lemma_all_known(v, known);
        assert(front.push(t.last()) =~= t);
    } else {
        assert(kept(t, known) =~= t);
    }
}

proof fn lemma_all_known(v: Seq<u32>, known: Seq<u32>)
    requires
        forall|j: int| 0 <= j < v.len() ==> known.contains(#[trigger] v[j]),
    ensures
        known_ones(v, known) == v,
    decreases v.len(),
{
    reveal(Seq::filter);
    if v.len() > 0 {
        let w = v.drop_last();
        assert forall|j: int| 0 <= j < w.len() implies known.contains(#[trigger] w[j]) by {
            assert(known.contains(v[j]));
        }
        lemma_all_known(w, known);
        assert(known.contains(v[v.len() - 1]));
        assert(w.push(v.last()) =~= v);
    } else {
        assert(known_ones(v, known) =~= v);
    }
}

fn drop_holder(v: &Vec<u32>, h: u32) -> (r: Vec<u32>)
    ensures
        r@ == others(v@, h),
{
    let ghost keep = differs(h);
    let mut r: Vec<u32> = Vec::new();
    let mut i: usize = 0;
    proof {
        reveal(Seq::filter);
        assert(v@.take(0) =~= Seq::<u32>::empty());
        assert(r@ =~= v@.take(0).filter(keep));
    }
    while i < v.len()
        invariant
            i <= v@.len(),
            keep == differs(h),
            r@ == v@.take(i as int).filter(keep),
        decreases v@.len() - i,
    {
        proof {
            assert(v@.take(i + 1) =~= v@.take(i as int).push(v@[i as int]));
            v@.take(i as int).lemma_filter_push(v@[i as int], keep);
        }
        if v[i] != h {
            r.push(v[i]);
        }
        i = i + 1;
    }
    assert(v@.take(i as int) =~= v@);
    r
}

fn keep_known(v: &Vec<u32>, known: &Vec<u32>) -> (r: Vec<u32>)
    ensures
        r@ == known_ones(v@, known@),
{
    let ghost keep = |x: u32| known@.contains(x);
    let mut r: Vec<u32> = Vec::new();
    let mut i: usize = 0;
    proof {
        reveal(Seq::filter);
        assert(v@.take(0) =~= Seq::<u32>::empty());
        assert(r@ =~= v@.take(0).filter(keep));
    }
    while i < v.len()
        invariant
            i <= v@.len(),
            keep == (|x: u32| known@.contains(x)),
            r@ == v@.take(i as int).filter(keep),
        decreases v@.len() - i,
    {
        proof {
            assert(v@.take(i + 1) =~= v@.take(i as int).push(v@[i as int]));
            v@.take(i as int).lemma_filter_push(v@[i as int], keep);
        }
        if codec::contains_u32(known.as_slice(), v[i]) {
            r.push(v[i]);
        }
        i = i + 1;
    }
    assert(v@.take(i as int) =~= v@);
    r
}

/// Packets and boards.
#[derive(Debug)]
pub struct Ledger {
    items: Vec<LedgerEntry>,
}

impl View for Ledger {
    type V = Seq<EntrySpec>;

    closed spec fn view(&self) -> Seq<EntrySpec> {
        entries(self.items@)
    }
}

impl Ledger {
    pub fn new() -> (r: Ledger)
        ensures
            r@ == Seq::<EntrySpec>::empty(),
    {
        let r = Ledger { items: Vec::new() };
        assert(r@ =~= Seq::<EntrySpec>::empty());
        r
    }

    /// How many packets there are.
    pub fn len(&self) -> (n: usize)
        ensures
            n == self@.len(),
    {
        self.items.len()
    }

    fn place(&self, id: u64) -> (r: Option<usize>)
        ensures
            match place_of(self@, id) {
                Some(i) => r matches Some(k) && k == i && k < self@.len(),
                None => r is None,
            },
    {
        let mut n: usize = self.items.len();
        proof {
            assert(self@.take(n as int) =~= self@);
            lemma_place_bounds(self@, id);
        }
        while n > 0
            invariant
                n <= self.items@.len() == self@.len(),
                place_of(self@, id) == place_of(self@.take(n as int), id),
            decreases n,
        {
            assert(self@.take(n as int).drop_last() =~= self@.take(n - 1));
            assert(self@.take(n as int).last() == self.items@[n - 1]@);
            if self.items[n - 1].id == id {
                return Some(n - 1);
            }
            n = n - 1;
        }
        None
    }

    /// The boards of a packet.
    pub fn holders(&self, id: u64) -> (r: Option<&Vec<u32>>)
        ensures
            match holders_of(self@, id) {
                Some(v) => r matches Some(x) && x@ == v,
                None => r is None,
            },
    {
        match self.place(id) {
            Some(i) => {
                assert(self@[i as int] == self.items@[i as int]@);
                Some(&self.items[i].holders)
            },
            None => None,
        }
    }

    fn put(&mut self, id: u64, holders: Vec<u32>, capacity: usize)
        ensures
            final(self)@ == latest(
                without(old(self)@, id).push(EntrySpec { id, holders: holders@ }),
                capacity as nat,
            ),
    {
        let ghost first = self.items@;
        if let Some(i) = self.place(id) {
            let _ = self.items.remove(i);
            assert(self@ =~= entries(first).remove(i as int));
        }
        let ghost rest = self.items@;
        let x = LedgerEntry { id, holders };
        let ghost xv = x@;
        self.items.push(x);
        assert(self@ =~= entries(rest).push(xv));
        let ghost all = self@;
        let total: usize = self.items.len();
        let mut n: usize = 0;
        assert(self@ =~= all.skip(0));
        while self.items.len() > capacity
            invariant
                n <= all.len() == total,
                self@ == all.skip(n as int),
                n > 0 ==> self@.len() >= capacity,
            decreases self.items@.len(),
        {
            let ghost before = self.items@;
            assert(self@.len() == self.items@.len());
            let _ = self.items.remove(0);
            proof {
                assert(self@ =~= entries(before).skip(1));
                assert(all.skip(n as int).skip(1) =~= all.skip(n + 1));
            }
            n = n + 1;
        }
        assert(self@.len() == self.items@.len());
    }

    /// A packet went out to boards.
    pub fn follow(&mut self, id: u64, holders: Vec<u32>, capacity: usize)
        ensures
            final(self)@ == followed(old(self)@, id, holders@, capacity as nat),
    {
        if holders.len() > 0 {
            self.put(id, holders, capacity);
        }
    }

    /// A board said that it has a packet.
    pub fn strike(&mut self, id: u64, h: u32)
        ensures
            final(self)@ == struck(old(self)@, id, h),
    {
        if let Some(i) = self.place(id) {
            let ghost before = self.items@;
            assert(self@[i as int] == before[i as int]@);
            let rest: Vec<u32> = drop_holder(&self.items[i].holders, h);
            if rest.len() == 0 {
                let _ = self.items.remove(i);
                assert(self@ =~= entries(before).remove(i as int));
            } else {
                let x = LedgerEntry { id, holders: rest };
                let ghost xv = x@;
                self.items.set(i, x);
                assert(self@ =~= entries(before).update(i as int, xv));
            }
        }
    }

    /// One more board has a packet.
    pub fn count(&mut self, id: u64, h: u32, capacity: usize, most: usize)
        ensures
            final(self)@ == counted(old(self)@, id, h, capacity as nat, most as nat),
    {
        let mut v: Vec<u32> = match self.holders(id) {
            Some(v) => codec::copy_u32(v.as_slice()),
            None => Vec::new(),
        };
        let ghost had = v@;
        if !codec::contains_u32(v.as_slice(), h) {
            let full: bool = v.len() >= most;
            v.push(h);
            if full {
                let ghost all = v@;
                let _ = v.remove(0);
                assert(v@ =~= all.skip(1));
            }
        }
        self.put(id, v, capacity);
    }

    /// Boards were lost sight of: only those in `known` are waited for.
    pub fn keep(&mut self, known: &Vec<u32>)
        ensures
            final(self)@ == kept(old(self)@, known@),
    {
        let ghost all = self@;
        let mut rest: Vec<LedgerEntry> = Vec::new();
        let mut i: usize = 0;
        assert(all.take(0) =~= Seq::<EntrySpec>::empty());
        assert(entries(rest@) =~= Seq::<EntrySpec>::empty());
        while i < self.items.len()
            invariant
                i <= self.items@.len() == all.len(),
                all == entries(self.items@),
                entries(rest@) == kept(all.take(i as int), known@),
            decreases self.items@.len() - i,
        {
            assert(all.take(i + 1).drop_last() =~= all.take(i as int));
            assert(all.take(i + 1).last() == self.items@[i as int]@);
            let v: Vec<u32> = keep_known(&self.items[i].holders, known);
            if v.len() > 0 {
                let ghost before = rest@;
                let x = LedgerEntry { id: self.items[i].id, holders: v };
                let ghost xv = x@;
                rest.push(x);
                assert(entries(rest@) =~= entries(before).push(xv));
            }
            i = i + 1;
        }
        assert(all.take(i as int) =~= all);
        self.items = rest;
    }
}

/// What stands before the name of a board that says that it has a packet: "E2EACK:".
pub open spec fn ack_mark() -> Seq<u8> {
    seq![69u8, 50u8, 69u8, 65u8, 67u8, 75u8, 58u8]
}

/// The hash of the board that says that it has a packet: that which the message names first of
/// two, or that of the sender's name behind the mark.
pub open spec fn speaker(p: PacketSpec) -> Option<u64> {
    let b = vstd::utf8::encode_utf8(p.sender);
    if p.targets.len() == 2 {
        Some(p.targets[0])
    } else if b.len() > 7 && b.take(7) == ack_mark() {
        Some(hash::hash_seq(hash::SENDER_SEED, b.skip(7)))
    } else {
        None
    }
}

/// The packet that a board says it has, and the board's hash.
pub open spec fn receipt_in(p: PacketSpec) -> Option<(u64, u64)> {
    if p.ty == TY_RELIABLE_ACK {
        match (codec::read_le8(p.payload), speaker(p)) {
            (Some((id, rest)), Some(h)) => if rest.len() == 0 {
                Some((id, h))
            } else {
                None
            },
            _ => None,
        }
    } else {
        None
    }
}

/// The packet that a board says it has, and the board's address.
pub open spec fn acked(p: PacketSpec) -> Option<(u64, u32)> {
    match receipt_in(p) {
        Some((id, h)) => Some((id, (h % 0x1_0000_0000) as u32)),
        None => None,
    }
}

fn find_speaker(p: &Packet) -> (r: Option<u64>)
    ensures
        r == speaker(p@),
{
    let named: &[u64] = p.wire_target_senders();
    if named.len() == 2 {
        return Some(named[0]);
    }
    let b: &[u8] = p.sender().as_bytes();
    let total: usize = b.len();
    if total <= 7 {
        return None;
    }
    let front: Vec<u8> = codec::copy_range(b, 0, 7);
    assert(front@ =~= b@.take(7));
    let mut mark: Vec<u8> = Vec::new();
    mark.push(69);
    mark.push(50);
    mark.push(69);
    mark.push(65);
    mark.push(67);
    mark.push(75);
    mark.push(58);
    assert(mark@ =~= ack_mark());
    if !codec::same_bytes(front.as_slice(), mark.as_slice()) {
        return None;
    }
    let name: Vec<u8> = codec::copy_range(b, 7, total);
    assert(name@ =~= b@.skip(7));
    Some(hash::hash_bytes_u64(hash::SENDER_SEED, name.as_slice()))
}

/// The packet that a board says it has, and the board's hash.
pub fn read_receipt(p: &Packet) -> (r: Option<(u64, u64)>)
    ensures
        r == receipt_in(p@),
{
    if p.data_type() != TY_RELIABLE_ACK {
        return None;
    }
    let buf: &[u8] = p.payload();
    assert(buf@.skip(0) =~= buf@);
    let (id, end): (u64, usize) = match codec::read_le8_at(buf, 0) {
        Some(x) => x,
        None => return None,
    };
    if end != buf.len() {
        return None;
    }
    match find_speaker(p) {
        Some(h) => Some((id, h)),
        None => None,
    }
}

/// The packet that a board says it has, and the board's address.
pub fn acknowledged(p: &Packet) -> (r: Option<(u64, u32)>)
    ensures
        r == acked(p@),
{
    match read_receipt(p) {
        Some((id, h)) => Some((id, (h % 0x1_0000_0000) as u32)),
        None => None,
    }
}

/// Over which link packets came, as a value.
pub open spec fn route_of(t: Seq<(u64, usize)>, id: u64) -> Option<usize>
    decreases t.len(),
{
    if t.len() == 0 {
        None
    } else if t.last().0 == id {
        Some(t.last().1)
    } else {
        route_of(t.drop_last(), id)
    }
}

/// What is known after a packet came over a link: the latest packets, as many as there is room
/// for.
pub open spec fn routed(t: Seq<(u64, usize)>, id: u64, side: usize) -> Seq<(u64, usize)> {
    if route_of(t, id) == Some(side) {
        t
    } else if t.len() < RELIABLE_MAX_RETURN_ROUTES {
        t.push((id, side))
    } else {
        t.push((id, side)).skip(1)
    }
}

/// The way back of a packet is the link over which it came last; no more are kept than there is
/// room for.
pub proof fn lemma_way_back(t: Seq<(u64, usize)>, id: u64, side: usize)
    requires
        t.len() <= RELIABLE_MAX_RETURN_ROUTES,
    ensures
        route_of(routed(t, id, side), id) == Some(side),
        routed(t, id, side).len() <= RELIABLE_MAX_RETURN_ROUTES,
{
    if route_of(t, id) != Some(side) {
        assert(routed(t, id, side).last() == (id, side));
    }
}

/// Over which link packets came.
#[derive(Debug)]
pub struct ReturnRoutes {
    pub items: Vec<(u64, usize)>,
}

impl ReturnRoutes {
    pub fn new() -> (r: ReturnRoutes)
        ensures
            r.items@ == Seq::<(u64, usize)>::empty(),
    {
        ReturnRoutes { items: Vec::new() }
    }

    /// A packet came over a link.
    pub fn note(&mut self, id: u64, side: usize)
        ensures
            final(self).items@ == routed(old(self).items@, id, side),
    {
        if let Some(s) = self.find(id) {
            if s == side {
                return;
            }
        }
        let full: bool = self.items.len() >= RELIABLE_MAX_RETURN_ROUTES;
        self.items.push((id, side));
        if full {
            let ghost all = self.items@;
            let _ = self.items.remove(0);
            assert(self.items@ =~= all.skip(1));
        }
    }

    /// The link over which a packet came.
    pub fn find(&self, id: u64) -> (r: Option<usize>)
        ensures
            r == route_of(self.items@, id),
    {
        let mut n: usize = self.items.len();
        assert(self.items@.take(n as int) =~= self.items@);
        while n > 0
            invariant
                n <= self.items@.len(),
                route_of(self.items@, id) == route_of(self.items@.take(n as int), id),
            decreases n,
        {
            assert(self.items@.take(n as int).drop_last() =~= self.items@.take(n - 1));
            if self.items[n - 1].0 == id {
                return Some(self.items[n - 1].1);
            }
            n = n - 1;
        }
        None
    }
}

} // verus!
