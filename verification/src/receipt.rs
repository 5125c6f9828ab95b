//! How a board says that it has a packet, and to whom.
use vstd::prelude::*;
use crate::codec;
use crate::discovery;
use crate::error::{TelemetryError, TelemetryResult};
use crate::hash;
use crate::jobs::{Handler, Job, JobSpec, Target};
use crate::ledger;
use crate::meta::{DataType, EP_TELEMETRY_ERROR, FIRST_USER_TYPE, TY_RELIABLE_ACK};
use crate::packet;
use crate::packet::{Packet, PacketSpec};
use crate::presence;
use crate::registry;
use crate::registry::Registry;
use crate::router;
use crate::schema;
use crate::station::Station;

verus! {

/// The name under which a board says that it has a packet.
pub open spec fn receipt_name(name: Seq<char>) -> Seq<char> {
    "E2EACK:"@ + name
}

/// The name of a sender, where only its address is said: that of the board with this address that
/// was heard of last.
pub open spec fn full_name(names: Seq<Seq<char>>, sender: Seq<char>) -> Seq<char>
    decreases names.len(),
{
    if names.len() == 0 {
        sender
    } else if registry::address_text(hash::name_address(names.last())) == sender {
        names.last()
    } else {
        full_name(names.drop_last(), sender)
    }
}

/// Whether a packet goes to no handler before the one at `h`.
pub open spec fn is_first_taker(handlers: Seq<Handler>, h: int, p: PacketSpec) -> bool {
    forall|k: int| 0 <= k < h ==> !p.endpoints.contains(#[trigger] handlers[k].endpoint)
}

/// A message that names who has a packet and who sent it is understood, whatever text stands for
/// its sender: the packet is with the board that is named first.
pub proof fn lemma_receipt_is_understood(q: PacketSpec, id: u64, name: Seq<char>, to: Seq<char>)
    requires
        q.ty == TY_RELIABLE_ACK,
        q.payload == codec::le8(id),
        q.targets == seq![hash::name_hash(name), hash::name_hash(to)],
    ensures
        ledger::acked(q) == Some((id, hash::name_address(name))),
{
    codec::lemma_le_roundtrip(0, 0, id, Seq::empty());
    assert(codec::le8(id) + Seq::<u8>::empty() =~= codec::le8(id));
}

proof fn lemma_joined_bytes(a: Seq<char>, b: Seq<char>)
    ensures
        vstd::utf8::encode_utf8(a + b) == vstd::utf8::encode_utf8(a) + vstd::utf8::encode_utf8(b),
    decreases a.len(),
{
    if a.len() == 0 {
        assert(a + b =~= b);
        assert(vstd::utf8::encode_utf8(a) + vstd::utf8::encode_utf8(b) =~= vstd::utf8::encode_utf8(
            b,
        ));
    } else {
        lemma_joined_bytes(a.drop_first(), b);
        assert((a + b).drop_first() =~= a.drop_first() + b);
        assert(vstd::utf8::encode_utf8(a + b) =~= vstd::utf8::encode_utf8(a)
            + vstd::utf8::encode_utf8(b));
    }
}

/// A message of a board that only the mark before its name shows is understood too.
pub proof fn lemma_mark_is_understood(q: PacketSpec, id: u64, name: Seq<char>)
    requires
        q.ty == TY_RELIABLE_ACK,
        q.payload == codec::le8(id),
        q.targets.len() != 2,
        q.sender == receipt_name(name),
        name.len() > 0,
    ensures
        ledger::acked(q) == Some((id, hash::name_address(name))),
{
    codec::lemma_le_roundtrip(0, 0, id, Seq::empty());
    assert(codec::le8(id) + Seq::<u8>::empty() =~= codec::le8(id));
    reveal_strlit("E2EACK:");
    lemma_joined_bytes("E2EACK:"@, name);
    let front = vstd::utf8::encode_utf8("E2EACK:"@);
    let rest = vstd::utf8::encode_utf8(name);
    assert(vstd::utf8::is_ascii_chars("E2EACK:"@));
    vstd::utf8::is_ascii_chars_encode_utf8("E2EACK:"@);
    assert("E2EACK:"@ =~= seq!['E', '2', 'E', 'A', 'C', 'K', ':']);
    assert(front =~= ledger::ack_mark());
    assert((front + rest).take(7) =~= front);
    assert((front + rest).skip(7) =~= rest);
    assert(vstd::utf8::encode_scalar(name[0] as u32).len() > 0);
}

/// The name of a sender, where only its address is said.
fn find_name(names: &Vec<String>, sender: &str) -> (r: String)
    ensures
        r@ == full_name(discovery::texts(names@), sender@),
{
    let ghost all = discovery::texts(names@);
    let said: String = sender.to_owned();
    let mut n: usize = names.len();
    assert(all.take(n as int) =~= all);
    while n > 0
        invariant
            n <= names@.len() == all.len(),
            all == discovery::texts(names@),
            said@ == sender@,
            full_name(all, sender@) == full_name(all.take(n as int), sender@),
        decreases n,
    {
        assert(all.take(n as int).drop_last() =~= all.take(n - 1));
        assert(all.take(n as int).last() == names@[n - 1]@);
        let t: String = registry::address_label(hash::sender_address_u32(names[n - 1].as_str()));
        if t == said {
            return names[n - 1].clone();
        }
        n = n - 1;
    }
    said
}

fn takes_first(handlers: &Vec<Handler>, h: usize, p: &Packet) -> (b: bool)
    requires
        h <= handlers@.len(),
    ensures
        b == is_first_taker(handlers@, h as int, p@),
{
    let mut k: usize = 0;
    while k < h
        invariant
            k <= h <= handlers@.len(),
            is_first_taker(handlers@, k as int, p@),
        decreases h - k,
    {
        if codec::contains_u32(p.endpoints(), handlers[k].endpoint) {
            assert(p@.endpoints.contains(handlers@[k as int].endpoint));
            return false;
        }
        k = k + 1;
    }
    true
}

/// Makes the message that a board has a packet.
fn make_receipt(reg: &mut Registry, name: &str, id: u64, now: u64) -> (r: TelemetryResult<Packet>)
    ensures
        packet::packet_made(
            *old(reg),
            *final(reg),
            TY_RELIABLE_ACK,
            seq![EP_TELEMETRY_ERROR],
            receipt_name(name@),
            now,
            codec::le8(id),
            r,
        ),
{
    let mut sender: String = "E2EACK:".to_owned();
    sender.append(name);
    let mut payload: Vec<u8> = Vec::new();
    codec::write_le8(&mut payload, id);
    assert(payload@ =~= codec::le8(id));
    let to: [u32; 1] = [EP_TELEMETRY_ERROR];
    assert(to@ =~= seq![EP_TELEMETRY_ERROR]);
    Packet::new(reg, TY_RELIABLE_ACK, &to, sender.as_str(), now, payload)
}

impl Station {
    /// Who a packet comes from.
    pub open spec fn origin(self, p: PacketSpec, now: u64) -> Seq<char> {
        full_name(presence::names(self.core.presence@, None, now), p.sender)
    }

    /// The link over which a packet can be answered: that over which it came, or, where that is no
    /// longer known, the one that leads to the board it comes from.
    pub open spec fn way_back(self, p: PacketSpec, now: u64) -> Option<usize> {
        match ledger::route_of(self.returns.items@, packet::packet_identity(p)) {
            Some(side) => Some(side),
            None => presence::way_to_board(
                self.core.presence@,
                hash::name_address(self.origin(p, now)),
                now,
            ),
        }
    }

    /// The message that this board has a packet, for who sent it.
    pub open spec fn receipt(self, made: PacketSpec, to: Seq<char>) -> PacketSpec {
        PacketSpec {
            inline_shape: false,
            targets: seq![hash::name_hash(self.core.sender@), hash::name_hash(to)],
            ..made
        }
    }

    fn find_origin(&self, p: &Packet, now: u64) -> (r: String)
        ensures
            r@ == self.origin(p@, now),
    {
        let names: Vec<String> = self.core.presence.announcers(None, now);
        find_name(&names, p.sender())
    }

    fn find_way_back(&self, p: &Packet, to: &String, now: u64) -> (r: Option<usize>)
        requires
            to@ == self.origin(p@, now),
        ensures
            r == self.way_back(p@, now),
    {
        match self.returns.find(p.packet_id()) {
            Some(side) => Some(side),
            None => self.core.presence.board_side(hash::sender_address_u32(to.as_str()), now),
        }
    }

    fn send_receipt(&mut self, made: Packet, to: &String, side: usize)
        requires
            old(self).wf(),
        ensures
            final(self).wf(),
            old(self).spread(*final(self), old(self).receipt(made@, to@), seq![side]),
    {
        let mut targets: Vec<u64> = Vec::new();
        targets.push(hash::sender_hash(self.core.sender.as_str()));
        targets.push(hash::sender_hash(to.as_str()));
        let ghost first = made@;
        let q: Packet = made.with_wire_contract(false, targets);
        assert(q@.targets =~= self.receipt(first, to@).targets);
        let mut sides: Vec<usize> = Vec::new();
        sides.push(side);
        assert(sides@ =~= seq![side]);
        self.send_copies(&q, &sides);
    }

    /// What saying that this board has a packet does: where there is a way back, the message goes
    /// over it.
    pub open spec fn confirmed(
        self,
        after: Station,
        reg: Registry,
        later: Registry,
        p: PacketSpec,
        now: u64,
        r: TelemetryResult<bool>,
    ) -> bool {
        match self.way_back(p, now) {
            None => after == self && later == reg && r == Ok::<bool, TelemetryError>(false),
            Some(side) => exists|made: TelemetryResult<Packet>|
                {
                    &&& #[trigger] packet::packet_made(
                        reg,
                        later,
                        TY_RELIABLE_ACK,
                        seq![EP_TELEMETRY_ERROR],
                        receipt_name(self.core.sender@),
                        now,
                        codec::le8(packet::packet_identity(p)),
                        made,
                    )
                    &&& match made {
                        Ok(q) => r == Ok::<bool, TelemetryError>(true) && self.spread(
                            after,
                            self.receipt(q@, self.origin(p, now)),
                            seq![side],
                        ),
                        Err(e) => r == Err::<bool, TelemetryError>(e) && after == self,
                    }
                },
        }
    }

    /// Says to the board that a packet comes from that this board has it; says whether there was a
    /// way back.
    pub fn confirm(&mut self, reg: &mut Registry, p: &Packet, now: u64) -> (r: TelemetryResult<
        bool,
    >)
        requires
            old(self).wf(),
        ensures
            final(self).wf(),
            final(reg).schema@ == old(reg).schema@,
            old(self).confirmed(*final(self), *old(reg), *final(reg), p@, now, r),
    {
        let to: String = self.find_origin(p, now);
        let back: Option<usize> = self.find_way_back(p, &to, now);
        let side: usize = match back {
            Some(side) => side,
            None => return Ok(false),
        };
        let made: TelemetryResult<Packet> = make_receipt(
            reg,
            self.core.sender.as_str(),
            p.packet_id(),
            now,
        );
        let ghost m = made;
        assert(packet::packet_made(
            *old(reg),
            *reg,
            TY_RELIABLE_ACK,
            seq![EP_TELEMETRY_ERROR],
            receipt_name(old(self).core.sender@),
            now,
            codec::le8(packet::packet_identity(p@)),
            m,
        ));
        match made {
            Ok(q) => {
                self.send_receipt(q, &to, side);
                Ok(true)
            },
            Err(e) => Err(e),
        }
    }

    /// Whether this board has to say that it has the packet of a job that is done: the packet is to
    /// be delivered reliably, and it is the first handler that takes it who did the job.
    pub open spec fn owes_receipt(self, sc: schema::SchemaSpec, j: JobSpec) -> bool {
        match (j.target, j.packet) {
            (Target::Handler(h), Some(p)) => {
                &&& self.reliable
                &&& p.ty >= FIRST_USER_TYPE
                &&& router::is_reliable(sc, p.ty)
                &&& h < self.core.handlers@.len()
                &&& is_first_taker(self.core.handlers@, h as int, p)
            },
            _ => false,
        }
    }

    fn owes(&self, sc: &schema::Schema, j: &Job) -> (b: bool)
        ensures
            b == self.owes_receipt(sc@, j@),
    {
        let h: usize = match j.target {
            Target::Handler(h) => h,
            Target::Side(_) => return false,
        };
        let p: &Packet = match &j.packet {
            Some(p) => p,
            None => return false,
        };
        let ty: DataType = p.data_type();
        if !self.reliable || ty < FIRST_USER_TYPE || !router::reliable_of(sc, ty) || h
            >= self.core.handlers.len() {
            return false;
        }
        takes_first(&self.core.handlers, h, p)
    }

    /// Says that this board has the packet of a job that is done, where it has to; says whether it
    /// did.
    pub fn confirm_job(&mut self, reg: &mut Registry, j: &Job, now: u64) -> (r: TelemetryResult<
        bool,
    >)
        requires
            old(self).wf(),
        ensures
            final(self).wf(),
            final(reg).schema@ == old(reg).schema@,
            if old(self).owes_receipt(old(reg).schema@, j@) {
                j@.packet matches Some(p) && old(self).confirmed(
                    *final(self),
                    *old(reg),
                    *final(reg),
                    p,
                    now,
                    r,
                )
            } else {
                *final(self) == *old(self) && *final(reg) == *old(reg) && r == Ok::<
                    bool,
                    TelemetryError,
                >(false)
            },
    {
        if !self.owes(&reg.schema, j) {
            return Ok(false);
        }
        match &j.packet {
            Some(p) => self.confirm(reg, p, now),
            None => Ok(false),
        }
    }
}

/// A board that follows a packet, and gets the message that one of the boards it is for has it,
/// waits for that board no longer: with the last one the packet is forgotten.
pub proof fn lemma_receipt_settles(
    sender: Station,
    waiting: Station,
    after: Station,
    p: PacketSpec,
    q: PacketSpec,
    name: Seq<char>,
    to: Seq<char>,
    now: u64,
)
    requires
        ledger::once(sender.pending@),
        sender.reliable,
        p.ty >= FIRST_USER_TYPE,
        sender.followed(waiting, p, now),
        q.ty == TY_RELIABLE_ACK,
        q.payload == codec::le8(packet::packet_identity(p)),
        q.targets == seq![hash::name_hash(name), hash::name_hash(to)],
        ledger::acked(q) matches Some((id, board)) ==> waiting.receipted(after, q, id, board),
    ensures
        ({
            let boards = presence::holders(
                sender.core.presence@,
                Some(sender.core.remote(p)),
                now,
            );
            let left = ledger::others(boards, hash::name_address(name));
            boards.len() > 0 ==> ledger::holders_of(after.pending@, packet::packet_identity(p))
                == (if left.len() == 0 {
                None
            } else {
                Some(left)
            })
        }),
{
    let id = packet::packet_identity(p);
    let board = hash::name_address(name);
    lemma_receipt_is_understood(q, id, name, to);
    let boards = presence::holders(sender.core.presence@, Some(sender.core.remote(p)), now);
    assert(waiting.receipted(after, q, id, board));
    assert(after.pending@ == ledger::struck(waiting.pending@, id, board));
    if boards.len() > 0 {
        ledger::lemma_packet_waits_for_its_boards(
            sender.pending@,
            id,
            boards,
            board,
            ledger::RELIABLE_MAX_END_TO_END_PENDING as nat,
        );
    }
}

} // verus!
