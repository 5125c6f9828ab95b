//! Boards that come late ask which boards there are and what their messages mean. Who is asked
//! answers, and has the board that speaks for all asked too.
use vstd::prelude::*;
use crate::codec;
use crate::discovery;
use crate::discovery::{BoardSpec, TopologyBoardNode};
use crate::error::{TelemetryError, TelemetryResult};
use crate::exchange::Question;
use crate::meta::{
    DataType, EP_DISCOVERY, TY_DISCOVERY_SCHEMA, TY_DISCOVERY_SCHEMA_REQUEST,
    TY_DISCOVERY_TOPOLOGY, TY_DISCOVERY_TOPOLOGY_REQUEST,
};
use crate::packet;
use crate::packet::{Packet, PacketSpec};
use crate::presence;
use crate::registry::Registry;
use crate::router;
use crate::schema;
use crate::schema::SchemaSnapshot;
use crate::station::Station;
use crate::topology;

verus! {

/// Boards of which at most so many are known can elect one that speaks for all.
pub const MAX_ELECTORS: usize = 0xFFFF_FFFF;

/// Whether `name` is the board that speaks for all.
pub open spec fn is_master(boards: Seq<BoardSpec>, name: Seq<char>) -> bool {
    exists|i: int| #[trigger] topology::elected(boards, i) && name == boards[i].sender_id
}

/// An answer: it names who asked.
pub open spec fn answer_to(p: PacketSpec, asker: u64) -> PacketSpec {
    PacketSpec { targets: seq![asker], ..p }
}

/// Questions and answers get numbers on links that number their frames.
pub proof fn lemma_inquiries_are_sure(sc: schema::SchemaSpec, p: PacketSpec, asker: u64)
    ensures
        router::is_question(p.ty) ==> router::is_sure(sc, p),
        router::is_answer(p.ty) ==> router::is_sure(sc, answer_to(p, asker)),
{
}

impl Station {
    /// What a question does: it goes over the links of a list.
    pub open spec fn inquired(
        self,
        after: Station,
        reg: Registry,
        later: Registry,
        ty: DataType,
        on: bool,
        over: Seq<usize>,
        now: u64,
        r: TelemetryResult<()>,
    ) -> bool {
        exists|made: TelemetryResult<Packet>|
            {
                &&& #[trigger] packet::packet_made(
                    reg,
                    later,
                    ty,
                    seq![EP_DISCOVERY],
                    self.core.sender@,
                    now,
                    discovery::request_bytes(on),
                    made,
                )
                &&& match made {
                    Ok(p) => r is Ok && self.spread(after, p@, over),
                    Err(e) => r == Err::<(), TelemetryError>(e) && after == self,
                }
            }
    }

    fn inquire(
        &mut self,
        reg: &mut Registry,
        ty: DataType,
        on: bool,
        over: &Vec<usize>,
        now: u64,
    ) -> (r: TelemetryResult<()>)
        requires
            old(self).wf(),
        ensures
            final(self).wf(),
            final(reg).schema@ == old(reg).schema@,
            old(self).inquired(*final(self), *old(reg), *final(reg), ty, on, over@, now, r),
    {
        let made: TelemetryResult<Packet> = discovery::build_discovery_request(
            reg,
            ty,
            self.core.sender.as_str(),
            now,
            on,
        );
        let ghost m = made;
        assert(packet::packet_made(
            *old(reg),
            *reg,
            ty,
            seq![EP_DISCOVERY],
            old(self).core.sender@,
            now,
            discovery::request_bytes(on),
            m,
        ));
        match made {
            Ok(p) => {
                self.send_copies(&p, over);
                Ok(())
            },
            Err(e) => Err(e),
        }
    }

    /// Asks over every open link which boards there are.
    pub fn request_topology(&mut self, reg: &mut Registry, now: u64) -> (r: TelemetryResult<()>)
        requires
            old(self).wf(),
        ensures
            final(self).wf(),
            final(reg).schema@ == old(reg).schema@,
            old(self).inquired(
                *final(self),
                *old(reg),
                *final(reg),
                TY_DISCOVERY_TOPOLOGY_REQUEST,
                false,
                old(self).core.open_list(),
                now,
                r,
            ),
    {
        let open: Vec<usize> = self.core.open_side_ids();
        self.inquire(reg, TY_DISCOVERY_TOPOLOGY_REQUEST, false, &open, now)
    }

    /// Asks over every open link what messages mean.
    pub fn request_schema(&mut self, reg: &mut Registry, now: u64) -> (r: TelemetryResult<()>)
        requires
            old(self).wf(),
        ensures
            final(self).wf(),
            final(reg).schema@ == old(reg).schema@,
            old(self).inquired(
                *final(self),
                *old(reg),
                *final(reg),
                TY_DISCOVERY_SCHEMA_REQUEST,
                false,
                old(self).core.open_list(),
                now,
                r,
            ),
    {
        let open: Vec<usize> = self.core.open_side_ids();
        self.inquire(reg, TY_DISCOVERY_SCHEMA_REQUEST, false, &open, now)
    }

    /// Whether the link over which the board that speaks for all is heard is `m`; none where it
    /// is this board, is not heard, or the boards are too many to elect one.
    pub open spec fn master_over(self, now: u64, m: Option<usize>) -> bool {
        let boards = self.boards_known(now);
        if boards.len() > MAX_ELECTORS {
            m is None
        } else {
            exists|name: Seq<char>|
                {
                    &&& #[trigger] is_master(boards, name)
                    &&& m == (if name == self.core.sender@ {
                        None
                    } else {
                        match presence::client_entry(self.core.presence@, name, now) {
                            Some(e) => Some(e.side),
                            None => None,
                        }
                    })
                }
        }
    }

    fn master_side(&self, boards: &Vec<TopologyBoardNode>, now: u64) -> (m: Option<usize>)
        requires
            discovery::boards(boards@) == self.boards_known(now),
        ensures
            self.master_over(now, m),
    {
        let ghost all = discovery::boards(boards@);
        assert(all.len() == boards@.len());
        assert(all.len() > 0);
        if boards.len() > MAX_ELECTORS {
            return None;
        }
        let name: String = topology::elect_discovery_master(self.core.sender.as_str(), boards);
        assert(is_master(all, name@));
        let own: bool = codec::same_bytes(
            name.as_str().as_bytes(),
            self.core.sender.as_str().as_bytes(),
        );
        proof {
            if own {
                vstd::utf8::encode_utf8_decode_utf8(name@);
                vstd::utf8::encode_utf8_decode_utf8(self.core.sender@);
            }
        }
        if own {
            return None;
        }
        match self.core.presence.client(&name, now) {
            Some((side, _)) => Some(side),
            None => None,
        }
    }

    /// What the answer to a question does: it names who asked, and goes over the links of a list.
    pub open spec fn answered_with(
        self,
        after: Station,
        reg: Registry,
        later: Registry,
        ty: DataType,
        payload: Seq<u8>,
        asker: u64,
        over: Seq<usize>,
        now: u64,
        r: TelemetryResult<()>,
    ) -> bool {
        exists|made: TelemetryResult<Packet>|
            {
                &&& #[trigger] packet::packet_made(
                    reg,
                    later,
                    ty,
                    seq![EP_DISCOVERY],
                    self.core.sender@,
                    now,
                    payload,
                    made,
                )
                &&& match made {
                    Ok(p) => r is Ok && self.spread(after, answer_to(p@, asker), over),
                    Err(e) => r == Err::<(), TelemetryError>(e) && after == self,
                }
            }
    }

    fn send_answer(&mut self, made: TelemetryResult<Packet>, asker: u64, over: &Vec<usize>) -> (r:
        TelemetryResult<()>)
        requires
            old(self).wf(),
        ensures
            final(self).wf(),
            match made {
                Ok(p) => r is Ok && old(self).spread(*final(self), answer_to(p@, asker), over@),
                Err(e) => r == Err::<(), TelemetryError>(e) && *final(self) == *old(self),
            },
    {
        match made {
            Ok(p) => {
                let mut to: Vec<u64> = Vec::new();
                to.push(asker);
                assert(to@ =~= seq![asker]);
                let shape: bool = p.has_inline_shape();
                let q: Packet = p.with_wire_contract(shape, to);
                self.send_copies(&q, over);
                Ok(())
            },
            Err(e) => Err(e),
        }
    }

    /// What the question which boards there are does: what is known goes over every open link, so
    /// that all boards on the way know it too; the first who is asked has the board that speaks
    /// for all asked.
    pub open spec fn told_boards(
        self,
        after: Station,
        reg: Registry,
        later: Registry,
        q: Question,
        now: u64,
        r: TelemetryResult<()>,
    ) -> bool {
        exists|mid: Station, reg_mid: Registry, said: TelemetryResult<()>, m: Option<usize>|
            {
                &&& #[trigger] self.answered_with(
                    mid,
                    reg,
                    reg_mid,
                    TY_DISCOVERY_TOPOLOGY,
                    discovery::boards_bytes(self.boards_known(now)),
                    q.asker,
                    self.core.open_list(),
                    now,
                    said,
                )
                &&& #[trigger] self.master_over(now, m)
                &&& if said is Ok && q.first && (m matches Some(s) && s != q.side) {
                    mid.inquired(after, reg_mid, later, q.ty, true, seq![m->0], now, r)
                } else {
                    &&& after == mid
                    &&& later == reg_mid
                    &&& match said {
                        Ok(_) => r is Ok,
                        Err(e) => r == Err::<(), TelemetryError>(e),
                    }
                }
            }
    }

    fn tell_boards(&mut self, reg: &mut Registry, q: Question, now: u64) -> (r: TelemetryResult<()>)
        requires
            old(self).wf(),
        ensures
            final(self).wf(),
            final(reg).schema@ == old(reg).schema@,
            old(self).told_boards(*final(self), *old(reg), *final(reg), q, now, r),
    {
        let boards: Vec<TopologyBoardNode> = self.known_boards(now);
        let m: Option<usize> = self.master_side(&boards, now);
        let made: TelemetryResult<Packet> = discovery::build_discovery_topology(
            reg,
            self.core.sender.as_str(),
            now,
            &boards,
        );
        let ghost g = made;
        assert(packet::packet_made(
            *old(reg),
            *reg,
            TY_DISCOVERY_TOPOLOGY,
            seq![EP_DISCOVERY],
            old(self).core.sender@,
            now,
            discovery::boards_bytes(old(self).boards_known(now)),
            g,
        ));
        let open: Vec<usize> = self.core.open_side_ids();
        let said: TelemetryResult<()> = self.send_answer(made, q.asker, &open);
        let ghost mid = *self;
        let ghost reg_mid = *reg;
        let ghost s = said;
        assert(old(self).answered_with(
            mid,
            *old(reg),
            reg_mid,
            TY_DISCOVERY_TOPOLOGY,
            discovery::boards_bytes(old(self).boards_known(now)),
            q.asker,
            old(self).core.open_list(),
            now,
            s,
        ));
        if let Err(e) = said {
            return Err(e);
        }
        if q.first {
            if let Some(side) = m {
                if side != q.side {
                    let mut over: Vec<usize> = Vec::new();
                    over.push(side);
                    assert(over@ =~= seq![side]);
                    return self.inquire(reg, q.ty, true, &over, now);
                }
            }
        }
        Ok(())
    }

    /// What a question does.
    pub open spec fn replied(
        self,
        after: Station,
        reg: Registry,
        later: Registry,
        q: Question,
        now: u64,
        r: TelemetryResult<()>,
    ) -> bool {
        if q.ty == TY_DISCOVERY_TOPOLOGY_REQUEST {
            self.told_boards(after, reg, later, q, now, r)
        } else {
            self.answered_with(
                after,
                reg,
                later,
                TY_DISCOVERY_SCHEMA,
                discovery::snapshot_bytes(reg.schema@.exported()),
                q.asker,
                seq![q.side],
                now,
                r,
            )
        }
    }

    /// Answers a question: which boards there are, or what messages mean.
    pub fn reply(&mut self, reg: &mut Registry, q: Question, now: u64) -> (r: TelemetryResult<()>)
        requires
            old(self).wf(),
        ensures
            final(self).wf(),
            final(reg).schema@ == old(reg).schema@,
            old(self).replied(*final(self), *old(reg), *final(reg), q, now, r),
    {
        if q.ty == TY_DISCOVERY_TOPOLOGY_REQUEST {
            return self.tell_boards(reg, q, now);
        }
        let snapshot: SchemaSnapshot = reg.schema.export_schema();
        let made: TelemetryResult<Packet> = discovery::build_discovery_schema_from_snapshot(
            reg,
            self.core.sender.as_str(),
            now,
            &snapshot,
        );
        let ghost g = made;
        assert(packet::packet_made(
            *old(reg),
            *reg,
            TY_DISCOVERY_SCHEMA,
            seq![EP_DISCOVERY],
            old(self).core.sender@,
            now,
            discovery::snapshot_bytes(old(reg).schema@.exported()),
            g,
        ));
        let mut over: Vec<usize> = Vec::new();
        over.push(q.side);
        assert(over@ =~= seq![q.side]);
        self.send_answer(made, q.asker, &over)
    }
}

} // verus!
