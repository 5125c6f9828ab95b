//! What a router sends, what it keeps waiting, and how it is set up.
use vstd::prelude::*;
use vstd::string::*;
use crate::assoc;
use crate::capacity;
use crate::codec;
use crate::definition;
use crate::discovery;
use crate::discovery::{
    AddressAdvertisement, AddressSpec, BoardSpec, LinkCapabilities, TopologyBoardNode,
    ADDRESS_STATE_APPROVED, DISCOVERY_SLOW_INTERVAL_MS, DISCOVERY_SLOW_LINK_PING_INTERVAL_MS,
};
use crate::error::{TelemetryError, TelemetryResult};
use crate::ingress;
use crate::jobs;
use crate::jobs::{is_handled, Handler, Job, JobSpec, Side, Target};
use crate::meta::{
    DataEndpoint, DataType, EP_DISCOVERY, EP_TIMESYNC, FIRST_USER_ENDPOINT, TY_DISCOVERY_ADDRESS,
    TY_DISCOVERY_ANNOUNCE, TY_DISCOVERY_TOPOLOGY,
};
use crate::packet;
use crate::packet::{Packet, PacketSpec};
use crate::presence;
use crate::queue;
use crate::queue::Waiting;
use crate::registry::Registry;
use crate::reliable::TxSpec;
use crate::router;
use crate::router::{Arriving, Leaving, Router, MAX_QUEUE_BUDGET};
use crate::routes;
use crate::routes::MAX_SIDES;
use crate::schema;
use crate::schema::Schema;
use crate::table;
use crate::transport::LinkOptions;
use crate::wire_format;

verus! {

/// Bytes that an entry in the table of boards counts for.
pub const ANNOUNCER_BYTES: usize = 64;

/// The rank of discovery messages.
pub const DISCOVERY_RANK: u8 = 255;

/// Bytes that a packet counts for while it waits.
pub open spec fn packet_cost(p: PacketSpec) -> nat {
    p.payload.len() + 32
}

/// The frames that were sent, after those that are due went out again.
pub open spec fn resent(sent: Map<u128, TxSpec>, flows: Seq<u128>, now: u64) -> Map<u128, TxSpec>
    decreases flows.len(),
{
    if flows.len() == 0 {
        sent
    } else {
        let m = resent(sent, flows.drop_last(), now);
        let k = flows.last();
        if m.contains_key(k) {
            m.insert(k, m[k].resent(now))
        } else {
            m
        }
    }
}

/// The frames that are due, as jobs.
pub open spec fn due_jobs(sent: Map<u128, TxSpec>, flows: Seq<u128>, now: u64) -> Seq<JobSpec>
    decreases flows.len(),
{
    if flows.len() == 0 {
        Seq::empty()
    } else {
        let m = resent(sent, flows.drop_last(), now);
        let k = flows.last();
        let front = due_jobs(sent, flows.drop_last(), now);
        if m.contains_key(k) {
            front + raw_jobs(router::flow_side(k), m[k].due(now))
        } else {
            front
        }
    }
}

/// Frames go over a link as they are.
pub open spec fn raw_jobs(side: usize, frames: Seq<Seq<u8>>) -> Seq<JobSpec> {
    frames.map_values(|f: Seq<u8>| ingress::raw_job(side, f))
}

/// Whether a link is there and open.
pub open spec fn is_open(s: Side) -> bool {
    s.alive && s.egress
}

/// The links below `n` that are there and open, in ascending order.
pub open spec fn open_sides(s: Seq<Side>, n: nat) -> Seq<usize>
    decreases n,
{
    if n == 0 {
        Seq::empty()
    } else {
        let front = open_sides(s, (n - 1) as nat);
        if is_open(s[n - 1]) {
            front.push((n - 1) as usize)
        } else {
            front
        }
    }
}

/// Whether a link is not known to be slow.
pub open spec fn is_quick(v: Seq<Side>) -> spec_fn(usize) -> bool {
    |i: usize| !capacity::slow(v[i as int].capacity)
}

impl Router {
    /// Whether an endpoint is announced over a link: it is served here or can be reached over
    /// another link (a relay announces what it reaches over any), and it may be seen over this
    /// one.
    pub open spec fn announces(
        self,
        sc: schema::SchemaSpec,
        side: usize,
        ep: DataEndpoint,
        now: u64,
    ) -> bool {
        &&& ep >= FIRST_USER_ENDPOINT
        &&& jobs::handled(self.handlers@, ep) || (if self.relay {
            presence::reaches(self.presence@, None, ep, now)
        } else {
            presence::reaches_elsewhere(self.presence@, side, ep, now)
        })
        &&& router::is_link_local(sc, ep) ==> self.sides@[side as int].link_local
    }

    /// The endpoints below `n` that are announced over a link, in ascending order.
    pub open spec fn announced(
        self,
        sc: schema::SchemaSpec,
        side: usize,
        now: u64,
        n: nat,
    ) -> Seq<DataEndpoint>
        decreases n,
    {
        if n == 0 {
            Seq::empty()
        } else {
            let front = self.announced(sc, side, now, (n - 1) as nat);
            if self.announces(sc, side, (n - 1) as DataEndpoint, now) {
                front.push((n - 1) as DataEndpoint)
            } else {
                front
            }
        }
    }

    /// The boards that tell the time, as far as this one knows.
    pub open spec fn time_sources(self, now: u64) -> Seq<Seq<char>> {
        let s = presence::sources(self.presence@, None, now);
        if self.tells_time && !s.contains(self.sender@) {
            s.push(self.sender@)
        } else {
            s
        }
    }

    /// The boards that tell the time, as far as this one knows.
    pub fn known_sources(&self, now: u64) -> (v: Vec<String>)
        ensures
            discovery::texts(v@) == self.time_sources(now),
    {
        let mut v: Vec<String> = self.presence.reached_sources(None, now);
        if self.tells_time && !presence::has_text(&v, &self.sender) {
            let ghost before = v@;
            let t: String = self.sender.clone();
            v.push(t);
            assert(discovery::texts(v@) =~= discovery::texts(before).push(t@));
        }
        v
    }

    /// What a board can do over a link.
    pub open spec fn capabilities(self, side: usize) -> LinkCapabilities {
        self.sides@[side as int].capabilities
    }

    /// The address of a board, as it is announced over a link.
    pub open spec fn address_over(self, sc: schema::SchemaSpec, side: usize, now: u64) -> AddressSpec {
        AddressSpec {
            hostname: self.sender@,
            address: self.identity.address,
            requested_address: self.identity.requested,
            mode: self.identity.mode,
            state: ADDRESS_STATE_APPROVED,
            birth_ms: self.identity.birth,
            owner_hash: self.identity.owner,
            reachable_endpoints: self.announced(sc, side, now, 256),
            reachable_network_variables: Seq::empty(),
            reachable_timesync_sources: self.time_sources(now),
            link_capabilities: self.capabilities(side),
        }
    }

    /// A board and its neighbours, as they are announced over a link.
    pub open spec fn board_over(self, sc: schema::SchemaSpec, side: usize, now: u64) -> BoardSpec {
        BoardSpec {
            sender_id: self.sender@,
            reachable_endpoints: self.announced(sc, side, now, 256),
            reachable_timesync_sources: self.time_sources(now),
            connections: presence::names(self.presence@, None, now),
        }
    }

    /// The two messages that a board sends over a link when it announces itself: first what it
    /// reaches (and, unless it is a relay, its address), then its place among the boards.
    pub open spec fn announcement(
        self,
        sc: schema::SchemaSpec,
        side: usize,
        second: bool,
        now: u64,
    ) -> (DataType, Seq<u8>) {
        if second {
            (TY_DISCOVERY_TOPOLOGY, discovery::boards_bytes(seq![self.board_over(sc, side, now)]))
        } else if self.relay {
            (TY_DISCOVERY_ANNOUNCE, definition::ids_bytes(self.announced(sc, side, now, 256)))
        } else {
            (TY_DISCOVERY_ADDRESS, discovery::address_bytes(self.address_over(sc, side, now)))
        }
    }

    /// The announcements, as jobs.
    pub open spec fn announcements(
        self,
        sc: schema::SchemaSpec,
        list: Seq<usize>,
        now: u64,
        nonce: u16,
    ) -> Seq<JobSpec> {
        Seq::new(
            2 * list.len(),
            |i: int|
                {
                    let (ty, payload) = self.announcement(sc, list[i / 2], i % 2 == 1, now);
                    JobSpec {
                        target: Target::Side(list[i / 2]),
                        packet: Some(
                            packet::new_packet(
                                schema::builtin_type(ty),
                                seq![EP_DISCOVERY],
                                self.sender@,
                                now,
                                payload,
                                ingress::nonce_after(nonce, i as nat),
                            ),
                        ),
                        frame: None,
                        tries: 0,
                        quiet: false,
                    }
                },
        )
    }

    /// Whether an announcement has the size of a packet.
    pub open spec fn is_sendable(
        self,
        sc: schema::SchemaSpec,
        list: Seq<usize>,
        i: int,
        now: u64,
    ) -> bool {
        let (_, payload) = self.announcement(sc, list[i / 2], i % 2 == 1, now);
        payload.len() <= packet::MAX_PAYLOAD
    }

    /// Whether all announcements over links have the size of a packet.
    pub open spec fn can_announce(self, sc: schema::SchemaSpec, list: Seq<usize>, now: u64) -> bool {
        forall|i: int|
            0 <= i < 2 * list.len() ==> #[trigger] self.is_sendable(sc, list, i, now)
    }

    /// The endpoints that are announced over a link.
    pub fn announced_endpoints(&self, schema: &Schema, side: usize, now: u64) -> (v: Vec<
        DataEndpoint,
    >)
        requires
            side < self.sides@.len(),
        ensures
            v@ == self.announced(schema@, side, now, 256),
    {
        let mut v: Vec<DataEndpoint> = Vec::new();
        let mut i: u32 = 0;
        while i < 256
            invariant
                i <= 256,
                side < self.sides@.len(),
                v@ == self.announced(schema@, side, now, i as nat),
            decreases 256 - i,
        {
            let reached: bool = if self.relay {
                self.presence.leads_to(None, i, now)
            } else {
                self.presence.leads_elsewhere(side, i, now)
            };
            if i >= FIRST_USER_ENDPOINT && (is_handled(&self.handlers, i) || reached) && (
            !router::link_local_of(schema, i) || self.sides[side].link_local) {
                v.push(i);
            }
            i = i + 1;
        }
        v
    }

    /// The links that are there and open.
    pub fn open_side_ids(&self) -> (v: Vec<usize>)
        requires
            self.sides@.len() <= MAX_SIDES,
        ensures
            v@ == open_sides(self.sides@, self.sides@.len()),
            v@.len() <= self.sides@.len(),
            forall|i: int| 0 <= i < v@.len() ==> #[trigger] v@[i] < self.sides@.len(),
    {
        let mut v: Vec<usize> = Vec::new();
        let mut i: usize = 0;
        while i < self.sides.len()
            invariant
                i <= self.sides@.len() <= MAX_SIDES,
                v@ == open_sides(self.sides@, i as nat),
                v@.len() <= i,
                forall|k: int| 0 <= k < v@.len() ==> #[trigger] v@[k] < i,
            decreases self.sides@.len() - i,
        {
            if self.sides[i].alive && self.sides[i].egress {
                v.push(i);
            }
            i = i + 1;
        }
        v
    }

    fn announcement_packet(
        &self,
        reg: &mut Registry,
        side: usize,
        second: bool,
        now: u64,
    ) -> (r: TelemetryResult<Packet>)
        requires
            side < self.sides@.len(),
        ensures
            ({
                let (ty, payload) = self.announcement(old(reg).schema@, side, second, now);
                packet::packet_made(
                    *old(reg),
                    *final(reg),
                    ty,
                    seq![EP_DISCOVERY],
                    self.sender@,
                    now,
                    payload,
                    r,
                )
            }),
    {
        let eps: Vec<DataEndpoint> = self.announced_endpoints(&reg.schema, side, now);
        let me: &str = self.sender.as_str();
        if second {
            let node = TopologyBoardNode {
                sender_id: self.sender.clone(),
                reachable_endpoints: eps,
                reachable_timesync_sources: self.known_sources(now),
                connections: self.presence.announcers(None, now),
            };
            let ghost view = node@;
            let mut list: Vec<TopologyBoardNode> = Vec::new();
            list.push(node);
            assert(discovery::boards(list@) =~= seq![view]);
            assert(view == self.board_over(reg.schema@, side, now));
            discovery::build_discovery_topology(reg, me, now, &list)
        } else if self.relay {
            discovery::build_discovery_announce(reg, me, now, eps.as_slice())
        } else {
            let a = AddressAdvertisement {
                hostname: self.sender.clone(),
                address: self.identity.address,
                requested_address: self.identity.requested,
                mode: self.identity.mode,
                state: ADDRESS_STATE_APPROVED,
                birth_ms: self.identity.birth,
                owner_hash: self.identity.owner,
                reachable_endpoints: eps,
                reachable_network_variables: Vec::new(),
                reachable_timesync_sources: self.known_sources(now),
                link_capabilities: self.sides[side].capabilities,
            };
            assert(a@ == self.address_over(reg.schema@, side, now));
            discovery::build_discovery_address(reg, me, now, &a)
        }
    }

    /// Announces the board over every open link; where an announcement would be larger than a
    /// packet can be, nothing is announced.
    pub fn announce(&mut self, reg: &mut Registry, now: u64) -> (r: TelemetryResult<()>)
        requires
            old(self).wf(),
            old(reg).schema@.wf(),
        ensures
            final(self).wf(),
            final(reg).schema == old(reg).schema,
            old(self).spoke(*final(self), *old(reg), *final(reg), old(self).open_list(), now, r),
    {
        let list: Vec<usize> = self.open_side_ids();
        self.announce_over(reg, &list, now)
    }

    fn announce_over(&mut self, reg: &mut Registry, list: &Vec<usize>, now: u64) -> (r:
        TelemetryResult<()>)
        requires
            old(self).wf(),
            old(reg).schema@.wf(),
            list@.len() <= old(self).sides@.len(),
            forall|i: int| 0 <= i < list@.len() ==> #[trigger] list@[i] < old(self).sides@.len(),
        ensures
            final(self).wf(),
            final(reg).schema == old(reg).schema,
            old(self).spoke(*final(self), *old(reg), *final(reg), list@, now, r),
    {
        let ghost all = self.announcements(reg.schema@, list@, now, reg.nonce);
        let ghost sc = reg.schema@;
        let mut out: Vec<Job> = Vec::new();
        let end: u64 = 2 * (list.len() as u64);
        let mut i: u64 = 0;
        assert(jobs::jobs(out@) =~= all.take(0));
        while i < end
            invariant
                i <= end == 2 * list@.len(),
                list@.len() <= self.sides@.len() <= MAX_SIDES,
                forall|k: int| 0 <= k < list@.len() ==> #[trigger] list@[k] < self.sides@.len(),
                *self == *old(self),
                self.wf(),
                reg.schema == old(reg).schema,
                reg.schema@ == sc,
                sc.wf(),
                all == self.announcements(sc, list@, now, old(reg).nonce),
                jobs::jobs(out@) == all.take(i as int),
                ingress::replied(*old(reg), *reg, self.sender@, i as nat),
                forall|k: int|
                    0 <= k < i ==> #[trigger] self.is_sendable(sc, list@, k, now),
            decreases 2 * list@.len() - i,
        {
            let ghost before = out@;
            let ghost reg_before = *reg;
            let side: usize = list[(i / 2) as usize];
            assert(list@[i as int / 2] < self.sides@.len());
            let made: TelemetryResult<Packet> = self.announcement_packet(
                reg,
                side,
                i % 2 == 1,
                now,
            );
            proof {
                let (ty, payload) = self.announcement(sc, side, i % 2 == 1, now);
                assert(sc.message(ty) == Some(schema::builtin_type(ty)));
                assert(self.is_sendable(sc, list@, i as int, now)
                    == (payload.len() <= packet::MAX_PAYLOAD));
                if payload.len() > packet::MAX_PAYLOAD {
                    assert(!self.can_announce(sc, list@, now));
                }
            }
            match made {
                Ok(p) => {
                    let j = Job {
                        target: Target::Side(side),
                        packet: Some(p),
                        frame: None,
                        tries: 0,
                        quiet: false,
                    };
                    let ghost jv = j@;
                    out.push(j);
                    proof {
                        assert(jobs::jobs(out@) =~= jobs::jobs(before).push(jv));
                        assert(jv == all[i as int]);
                        assert(all.take(i + 1) =~= all.take(i as int).push(jv));
                        ingress::lemma_noted_once(
                            *old(reg),
                            reg_before,
                            *reg,
                            self.sender@,
                            i as nat,
                        );
                    }
                },
                Err(e) => {
                    assert(self.stops_at(*old(reg), *reg, list@, now, i as int));
                    return Err(e);
                },
            }
            i = i + 1;
        }
        proof {
            assert(all.take(i as int) =~= all);
            assert(self.can_announce(sc, list@, now));
        }
        let ghost before = self.agenda@;
        let ghost tail = out@;
        self.agenda.append(&mut out);
        assert(jobs::jobs(self.agenda@) =~= jobs::jobs(before) + jobs::jobs(tail));
        Ok(())
    }

    /// What announcing the board does.
    pub open spec fn announced_all(
        self,
        after: Router,
        reg: Registry,
        reg_after: Registry,
        list: Seq<usize>,
        now: u64,
    ) -> bool {
        &&& jobs::jobs(after.agenda@) == jobs::jobs(self.agenda@) + self.announcements(
            reg.schema@,
            list,
            now,
            reg.nonce,
        )
        &&& after == Router { agenda: after.agenda, ..self }
        &&& ingress::replied(reg, reg_after, self.sender@, 2 * list.len())
    }

    /// Whether the announcement `k` is the first that is too large; those before it were made, and
    /// are given up.
    pub open spec fn stops_at(
        self,
        reg: Registry,
        reg_after: Registry,
        list: Seq<usize>,
        now: u64,
        k: int,
    ) -> bool {
        &&& 0 <= k < 2 * list.len()
        &&& !self.is_sendable(reg.schema@, list, k, now)
        &&& forall|i: int| 0 <= i < k ==> #[trigger] self.is_sendable(reg.schema@, list, i, now)
        &&& ingress::replied(reg, reg_after, self.sender@, k as nat)
    }

    /// What the attempt to announce the board over some links does.
    pub open spec fn spoke(
        self,
        after: Router,
        reg: Registry,
        reg_after: Registry,
        list: Seq<usize>,
        now: u64,
        r: TelemetryResult<()>,
    ) -> bool {
        if self.can_announce(reg.schema@, list, now) {
            r is Ok && self.announced_all(after, reg, reg_after, list, now)
        } else {
            &&& r == Err::<(), TelemetryError>(TelemetryError::SizeMismatchError)
            &&& after == self
            &&& exists|k: int| #[trigger] self.stops_at(reg, reg_after, list, now, k)
        }
    }

    /// When the next announcement is made, after one at the time `now`.
    pub open spec fn slower(interval: u64) -> u64 {
        if interval * 2 > DISCOVERY_SLOW_INTERVAL_MS {
            DISCOVERY_SLOW_INTERVAL_MS
        } else {
            (interval * 2) as u64
        }
    }

    /// The links that are there and open.
    pub open spec fn open_list(self) -> Seq<usize> {
        open_sides(self.sides@, self.sides@.len())
    }

    /// The links that are open and not known to be slow.
    pub open spec fn quick_list(self) -> Seq<usize> {
        self.open_list().filter(is_quick(self.sides@))
    }

    pub fn quick_side_ids(&self) -> (v: Vec<usize>)
        requires
            self.sides@.len() <= MAX_SIDES,
        ensures
            v@ == self.quick_list(),
            v@.len() <= self.sides@.len(),
            forall|i: int| 0 <= i < v@.len() ==> #[trigger] v@[i] < self.sides@.len(),
    {
        let open: Vec<usize> = self.open_side_ids();
        let ghost quick = is_quick(self.sides@);
        let mut v: Vec<usize> = Vec::new();
        let mut i: usize = 0;
        proof {
            reveal(Seq::filter);
            assert(open@.take(0).filter(quick) =~= Seq::<usize>::empty());
        }
        while i < open.len()
            invariant
                i <= open@.len() <= self.sides@.len(),
                quick == is_quick(self.sides@),
                forall|k: int| 0 <= k < open@.len() ==> #[trigger] open@[k] < self.sides@.len(),
                v@ == open@.take(i as int).filter(quick),
                v@.len() <= i,
                forall|k: int| 0 <= k < v@.len() ==> #[trigger] v@[k] < self.sides@.len(),
            decreases open@.len() - i,
        {
            proof {
                assert(open@.take(i + 1) =~= open@.take(i as int).push(open@[i as int]));
                open@.take(i as int).lemma_filter_push(open@[i as int], quick);
                assert(open@[i as int] < self.sides@.len());
            }
            if !self.is_slow(open[i]) {
                v.push(open[i]);
            }
            i = i + 1;
        }
        assert(open@.take(i as int) =~= open@);
        v
    }

    /// Whether a sign of life is due over a link: it is open and slow, and it is long since the
    /// last.
    pub open spec fn ping_due(self, side: int, now: u64) -> bool {
        let s = self.sides@[side];
        &&& s.alive && s.egress && capacity::slow(s.capacity)
        &&& now >= s.pinged + DISCOVERY_SLOW_LINK_PING_INTERVAL_MS
    }

    /// Takes the next slow link over which a sign of life is due.
    pub fn next_ping(&mut self, now: u64) -> (r: Option<usize>)
        requires
            old(self).wf(),
        ensures
            final(self).wf(),
            match r {
                Some(i) => {
                    &&& i < old(self).sides@.len()
                    &&& old(self).ping_due(i as int, now)
                    &&& forall|k: int| 0 <= k < i ==> !#[trigger] old(self).ping_due(k, now)
                    &&& final(self).sides@.len() == old(self).sides@.len()
                    &&& forall|k: int|
                        0 <= k < old(self).sides@.len() ==> (#[trigger] final(self).sides@[k]) == (
                        if k == i {
                            Side { pinged: now, ..old(self).sides@[k] }
                        } else {
                            old(self).sides@[k]
                        })
                    &&& *final(self) == (Router { sides: final(self).sides, ..*old(self) })
                },
                None => {
                    &&& *final(self) == *old(self)
                    &&& forall|k: int|
                        0 <= k < old(self).sides@.len() ==> !#[trigger] old(self).ping_due(k, now)
                },
            },
    {
        let mut i: usize = 0;
        while i < self.sides.len()
            invariant
                i <= self.sides@.len(),
                self.wf(),
                *self == *old(self),
                forall|k: int| 0 <= k < i ==> !#[trigger] self.ping_due(k, now),
            decreases self.sides@.len() - i,
        {
            let due: bool = self.sides[i].alive && self.sides[i].egress && self.is_slow(i) && now
                >= self.sides[i].pinged && now - self.sides[i].pinged
                >= DISCOVERY_SLOW_LINK_PING_INTERVAL_MS;
            assert(due == self.ping_due(i as int, now));
            if due {
                self.sides[i].pinged = now;
                return Some(i);
            }
            i = i + 1;
        }
        None
    }

    /// A full announcement went over the slow links.
    pub fn note_refresh(&mut self, now: u64)
        requires
            old(self).wf(),
        ensures
            final(self).wf(),
            final(self).sides@.len() == old(self).sides@.len(),
            forall|k: int|
                0 <= k < old(self).sides@.len() ==> (#[trigger] final(self).sides@[k]) == (Side {
                    pinged: now,
                    ..old(self).sides@[k]
                }),
            *final(self) == (Router { sides: final(self).sides, ..*old(self) }),
    {
        let mut i: usize = 0;
        while i < self.sides.len()
            invariant
                i <= self.sides@.len() == old(self).sides@.len(),
                self.wf(),
                forall|k: int|
                    0 <= k < i ==> (#[trigger] self.sides@[k]) == (Side {
                        pinged: now,
                        ..old(self).sides@[k]
                    }),
                forall|k: int|
                    i <= k < self.sides@.len() ==> (#[trigger] self.sides@[k])
                        == old(self).sides@[k],
                *self == (Router { sides: self.sides, ..*old(self) }),
            decreases self.sides@.len() - i,
        {
            self.sides[i].pinged = now;
            i = i + 1;
        }
    }

    /// What looking whether it is time to announce the board does.
    pub open spec fn polled(
        self,
        after: Router,
        reg: Registry,
        reg_after: Registry,
        now: u64,
        r: TelemetryResult<bool>,
    ) -> bool {
        if now < self.next_announce {
            r == Ok::<bool, TelemetryError>(false) && after == self && reg_after == reg
        } else if self.can_announce(reg.schema@, self.quick_list(), now) {
            &&& r == Ok::<bool, TelemetryError>(true)
            &&& Router {
                next_announce: if now + self.interval > u64::MAX {
                    u64::MAX
                } else {
                    (now + self.interval) as u64
                },
                interval: Router::slower(self.interval),
                ..self
            }.announced_all(after, reg, reg_after, self.quick_list(), now)
        } else {
            &&& r == Err::<bool, TelemetryError>(TelemetryError::SizeMismatchError)
            &&& after == self
            &&& exists|k: int| #[trigger]
                self.stops_at(reg, reg_after, self.quick_list(), now, k)
        }
    }

    /// Announces over all links that are not slow, where it is time; after each time the board
    /// waits longer, up to a limit.
    pub fn poll_discovery(&mut self, reg: &mut Registry, now: u64) -> (r: TelemetryResult<bool>)
        requires
            old(self).wf(),
            old(reg).schema@.wf(),
        ensures
            final(self).wf(),
            final(reg).schema == old(reg).schema,
            final(self).sides@.len() == old(self).sides@.len(),
            old(self).polled(*final(self), *old(reg), *final(reg), now, r),
    {
        if now < self.next_announce {
            return Ok(false);
        }
        let list: Vec<usize> = self.quick_side_ids();
        match self.announce_over(reg, &list, now) {
            Ok(_) => {},
            Err(e) => return Err(e),
        }
        let ghost after = *self;
        self.next_announce = now.saturating_add(self.interval);
        self.interval = if self.interval > DISCOVERY_SLOW_INTERVAL_MS / 2 {
            DISCOVERY_SLOW_INTERVAL_MS
        } else {
            self.interval * 2
        };
        proof {
            let timed = Router {
                next_announce: self.next_announce,
                interval: self.interval,
                ..*old(self)
            };
            lemma_announcements_same(
                timed,
                *old(self),
                old(reg).schema@,
                list@,
                now,
                old(reg).nonce,
            );
        }
        Ok(true)
    }

    /// What a packet of this board does: it is remembered, so that it does nothing when it comes
    /// back, and delivered; one that would have to be locked is refused.
    pub open spec fn submitted(
        self,
        after: Router,
        sc: schema::SchemaSpec,
        p: PacketSpec,
        now: u64,
        r: TelemetryResult<()>,
    ) -> bool {
        if self.must_refuse(sc, p.ty) {
            r == Err::<(), TelemetryError>(TelemetryError::BadArg) && after == self
        } else {
            &&& r is Ok
            &&& exists|mid: Router|
                {
                    &&& #[trigger] self.seen(mid, packet::packet_identity(p))
                    &&& mid.delivered(after, sc, p, None, None, now, false)
                }
        }
    }

    /// Sends a packet of this board.
    pub fn submit(&mut self, schema: &Schema, p: &Packet, now: u64) -> (r: TelemetryResult<()>)
        requires
            old(self).wf(),
        ensures
            final(self).wf(),
            old(self).submitted(*final(self), schema@, p@, now, r),
    {
        let ty: DataType = p.data_type();
        if self.refuses(schema, ty) {
            return Err(TelemetryError::BadArg);
        }
        let _ = self.recent.insert(p.packet_id());
        let ghost mid = *self;
        assert(old(self).seen(mid, packet::packet_identity(p@)));
        self.deliver(schema, p, None, None, now, false);
        Ok(())
    }

    /// Sends again what was sent over a link and not acknowledged for too long.
    pub fn resend_due(&mut self, now: u64)
        requires
            old(self).wf(),
        ensures
            final(self).wf(),
            final(self).sent@ == resent(old(self).sent@, old(self).flows@, now),
            jobs::jobs(final(self).agenda@) == jobs::jobs(old(self).agenda@) + due_jobs(
                old(self).sent@,
                old(self).flows@,
                now,
            ),
            *final(self) == (Router {
                sent: final(self).sent,
                agenda: final(self).agenda,
                ..*old(self)
            }),
    {
        let ghost flows = self.flows@;
        let ghost first = jobs::jobs(self.agenda@);
        let ghost sent = self.sent@;
        let mut i: usize = 0;
        proof {
            assert(flows.take(0) =~= Seq::<u128>::empty());
            assert(first + Seq::<JobSpec>::empty() =~= first);
        }
        while i < self.flows.len()
            invariant
                i <= self.flows@.len(),
                self.wf(),
                flows == self.flows@,
                first == jobs::jobs(old(self).agenda@),
                sent == old(self).sent@,
                *self == (Router { sent: self.sent, agenda: self.agenda, ..*old(self) }),
                self.sent@ == resent(sent, flows.take(i as int), now),
                jobs::jobs(self.agenda@) == first + due_jobs(sent, flows.take(i as int), now),
            decreases self.flows@.len() - i,
        {
            let key: u128 = self.flows[i];
            let ghost m = self.sent@;
            let ghost front = due_jobs(sent, flows.take(i as int), now);
            proof {
                assert(flows.take(i + 1).drop_last() =~= flows.take(i as int));
                assert(flows.take(i + 1).last() == key);
            }
            if let Some(mut l) = self.sent.remove(key) {
                let ghost link = l@;
                let frames: Vec<Vec<u8>> = l.take_due(now);
                self.sent.put(key, l);
                proof {
                    assert(self.sent@ =~= m.insert(key, link.resent(now)));
                    assert forall|k: u128| #[trigger] self.sent@.contains_key(k) implies
                        self.flows@.contains(k) by {
                        assert(m.contains_key(k));
                    }
                }
                let ghost mid = *self;
                self.send_frames((key % 0x1_0000_0000) as usize, frames);
                proof {
                    vstd::seq_lib::lemma_concat_associative(
                        first,
                        front,
                        raw_jobs(router::flow_side(key), link.due(now)),
                    );
                }
            } else {
                assert(self.sent@ =~= m);
            }
            i = i + 1;
        }
        assert(flows.take(i as int) =~= flows);
    }

    fn send_frames(&mut self, side: usize, frames: Vec<Vec<u8>>)
        requires
            old(self).wf(),
        ensures
            final(self).wf(),
            jobs::jobs(final(self).agenda@) == jobs::jobs(old(self).agenda@) + raw_jobs(
                side,
                frames@.map_values(|f: Vec<u8>| f@),
            ),
            *final(self) == (Router { agenda: final(self).agenda, ..*old(self) }),
    {
        let ghost all = frames@;
        let ghost views = frames@.map_values(|f: Vec<u8>| f@);
        let ghost first = jobs::jobs(self.agenda@);
        let mut rest: Vec<Vec<u8>> = frames;
        let ghost mut k: int = 0;
        proof {
            assert(rest@ =~= all.skip(0));
            assert(first + raw_jobs(side, views.take(0)) =~= first);
        }
        while rest.len() > 0
            invariant
                self.wf(),
                0 <= k <= all.len(),
                views == all.map_values(|f: Vec<u8>| f@),
                rest@ == all.skip(k),
                *self == (Router { agenda: self.agenda, ..*old(self) }),
                jobs::jobs(self.agenda@) == first + raw_jobs(side, views.take(k)),
            decreases rest@.len(),
        {
            let f: Vec<u8> = rest.remove(0);
            proof {
                assert(all.skip(k)[0] == all[k]);
                assert(rest@ =~= all.skip(k + 1));
                assert(views[k] == f@);
                assert(raw_jobs(side, views.take(k + 1)) =~= raw_jobs(side, views.take(k)).push(
                    ingress::raw_job(side, f@),
                ));
                assert(first + raw_jobs(side, views.take(k)).push(ingress::raw_job(side, f@)) =~= (
                first + raw_jobs(side, views.take(k))).push(ingress::raw_job(side, f@)));
            }
            self.send_raw(side, f);
            proof {
                k = k + 1;
            }
        }
        assert(views.take(k) =~= views);
    }

    /// Bytes that a router takes of its budget.
    pub open spec fn shared(self, sc: schema::SchemaSpec) -> nat {
        self.recent.bound() * 8 + table::capped(sc.cost()) + queue::total_cost(self.rx@)
            + queue::total_cost(self.tx@) + self.presence@.len() * ANNOUNCER_BYTES as nat
    }

    /// Bytes that a router takes of its budget.
    pub fn shared_bytes(&self, schema: &Schema) -> (n: usize)
        requires
            self.wf(),
        ensures
            n == table::capped(self.shared(schema@)),
    {
        let a: usize = times(self.recent.capacity(), 8);
        let b: usize = a.saturating_add(schema.schema_bytes_used());
        let c: usize = b.saturating_add(self.rx.used_bytes());
        let d: usize = c.saturating_add(self.tx.used_bytes());
        d.saturating_add(times(self.presence.len(), ANNOUNCER_BYTES))
    }

    /// Whether something of a cost can wait.
    pub open spec fn has_room(self, sc: schema::SchemaSpec, cost: nat) -> bool {
        self.shared(sc) + cost <= MAX_QUEUE_BUDGET
    }

    /// What keeping something that came waiting does.
    pub open spec fn queued(
        self,
        after: Router,
        sc: schema::SchemaSpec,
        w: Waiting<Arriving>,
        r: TelemetryResult<()>,
    ) -> bool {
        match self.side_fault(w.item.from) {
            Some(m) => {
                &&& r matches Err(TelemetryError::HandlerError(x)) && x@ == m
                &&& after == self
            },
            None => if self.has_room(sc, w.cost as nat) {
                &&& r is Ok
                &&& after.rx@ == self.rx@.push(w)
                &&& after == Router { rx: after.rx, ..self }
            } else {
                &&& r matches Err(TelemetryError::PacketTooLarge(x)) && x@ == "queue is full"@
                &&& after == self
            },
        }
    }

    fn queue_arriving(&mut self, schema: &Schema, rank: u8, cost: usize, item: Arriving) -> (r:
        TelemetryResult<()>)
        requires
            old(self).wf(),
        ensures
            final(self).wf(),
            old(self).queued(*final(self), schema@, (Waiting { rank, cost, item }), r),
    {
        if let Err(e) = self.check_side(item.from) {
            return Err(e);
        }
        let used: usize = self.shared_bytes(schema);
        if used.saturating_add(cost) > MAX_QUEUE_BUDGET {
            return Err(TelemetryError::PacketTooLarge("queue is full"));
        }
        match self.rx.push(rank, cost, item, MAX_QUEUE_BUDGET) {
            Ok(_) => Ok(()),
            Err(_) => Err(TelemetryError::PacketTooLarge("queue is full")),
        }
    }

    /// Keeps a packet that came waiting.
    pub fn queue_packet(&mut self, schema: &Schema, p: Packet, from: Option<usize>) -> (r:
        TelemetryResult<()>)
        requires
            old(self).wf(),
        ensures
            final(self).wf(),
            old(self).queued(
                *final(self),
                schema@,
                (Waiting {
                    rank: schema@.scheduler_rank(p@.ty),
                    cost: table::capped(packet_cost(p@)) as usize,
                    item: (Arriving { packet: Some(p), frame: None, from }),
                }),
                r,
            ),
    {
        let rank: u8 = schema.scheduler_priority(p.data_type());
        let cost: usize = p.data_size().saturating_add(32);
        self.queue_arriving(schema, rank, cost, Arriving { packet: Some(p), frame: None, from })
    }

    /// Keeps a frame that came waiting; one that cannot be read is refused.
    pub fn queue_frame(&mut self, reg: &Registry, frame: Vec<u8>, from: Option<usize>) -> (r:
        TelemetryResult<()>)
        requires
            old(self).wf(),
        ensures
            final(self).wf(),
            match (old(self).side_fault(from), wire_format::peek(reg.schema@, frame@)) {
                (None, Err(f)) => (r matches Err(e) && f.reported_by(e)) && *final(self) == *old(
                    self,
                ),
                (Some(m), Err(f)) => (r matches Err(TelemetryError::HandlerError(x)) && x@ == m)
                    && *final(self) == *old(self),
                (_, Ok((h, _))) => old(self).queued(
                    *final(self),
                    reg.schema@,
                    (Waiting {
                        rank: reg.schema@.scheduler_rank(h.scalars.ty),
                        cost: frame.len(),
                        item: (Arriving { packet: None, frame: Some(frame), from }),
                    }),
                    r,
                ),
            },
    {
        if let Err(e) = self.check_side(from) {
            return Err(e);
        }
        match wire_format::peek_envelope(reg, frame.as_slice()) {
            Ok(env) => {
                let rank: u8 = reg.schema.scheduler_priority(env.ty);
                let cost: usize = frame.len();
                self.queue_arriving(
                    &reg.schema,
                    rank,
                    cost,
                    Arriving { packet: None, frame: Some(frame), from },
                )
            },
            Err(e) => Err(e),
        }
    }

    /// What keeping a packet waiting that is to go out does.
    pub open spec fn queued_out(
        self,
        after: Router,
        sc: schema::SchemaSpec,
        p: Packet,
        to: Option<usize>,
        r: TelemetryResult<()>,
    ) -> bool {
        let cost = table::capped(packet_cost(p@)) as usize;
        if self.has_room(sc, cost as nat) {
            &&& r is Ok
            &&& after.tx@ == self.tx@.push(
                Waiting { rank: sc.scheduler_rank(p@.ty), cost, item: Leaving { packet: p, to } },
            )
            &&& after == Router { tx: after.tx, ..self }
        } else {
            &&& r matches Err(TelemetryError::PacketTooLarge(x)) && x@ == "queue is full"@
            &&& after == self
        }
    }

    /// Keeps a packet that is to leave waiting.
    pub fn queue_tx(&mut self, schema: &Schema, p: Packet, to: Option<usize>) -> (r:
        TelemetryResult<()>)
        requires
            old(self).wf(),
        ensures
            final(self).wf(),
            old(self).queued_out(*final(self), schema@, p, to, r),
    {
        let rank: u8 = schema.scheduler_priority(p.data_type());
        let cost: usize = p.data_size().saturating_add(32);
        let used: usize = self.shared_bytes(schema);
        if used.saturating_add(cost) > MAX_QUEUE_BUDGET {
            return Err(TelemetryError::PacketTooLarge("queue is full"));
        }
        match self.tx.push(rank, cost, Leaving { packet: p, to }, MAX_QUEUE_BUDGET) {
            Ok(_) => Ok(()),
            Err(_) => Err(TelemetryError::PacketTooLarge("queue is full")),
        }
    }

    /// Drops all that waits.
    pub fn clear_queues(&mut self)
        requires
            old(self).wf(),
        ensures
            final(self).wf(),
            final(self).rx@.len() == 0,
            final(self).tx@.len() == 0,
            final(self).agenda@.len() == 0,
            *final(self) == (Router {
                rx: final(self).rx,
                tx: final(self).tx,
                agenda: final(self).agenda,
                ..*old(self)
            }),
    {
        self.rx.clear();
        self.tx.clear();
        self.agenda = Vec::new();
    }

    /// What taking what comes next from those that came does.
    pub open spec fn rx_popped(self, after: Router, w: Waiting<Arriving>) -> bool {
        &&& exists|i: int| #[trigger]
            queue::comes_next(self.rx@, i) && w == self.rx@[i] && after.rx@ == self.rx@.remove(i)
        &&& after == Router { rx: after.rx, ..self }
    }

    /// What taking what comes next from those that leave does.
    pub open spec fn tx_popped(self, after: Router, w: Waiting<Leaving>) -> bool {
        &&& exists|i: int| #[trigger]
            queue::comes_next(self.tx@, i) && w == self.tx@[i] && after.tx@ == self.tx@.remove(i)
        &&& after == Router { tx: after.tx, ..self }
    }

    /// What sending a packet over one link does: nothing, where the link is gone or closed.
    pub open spec fn sent_to(self, after: Router, p: PacketSpec, side: usize) -> bool {
        if side < self.sides@.len() && is_open(self.sides@[side as int]) {
            &&& jobs::jobs(after.agenda@) == jobs::jobs(self.agenda@).push(
                JobSpec {
                    target: Target::Side(side),
                    packet: Some(p),
                    frame: None,
                    tries: 0,
                    quiet: false,
                },
            )
            &&& after == Router { agenda: after.agenda, ..self }
        } else {
            after == self
        }
    }

    /// What working on what waits to leave does.
    pub open spec fn tx_worked(
        self,
        after: Router,
        sc: schema::SchemaSpec,
        now: u64,
        r: Option<TelemetryResult<()>>,
    ) -> bool {
        if self.tx@.len() == 0 {
            r is None && after == self
        } else {
            exists|mid: Router, w: Waiting<Leaving>|
                {
                    &&& #[trigger] self.tx_popped(mid, w)
                    &&& r matches Some(x) && match w.item.to {
                        Some(s) => x is Ok && mid.sent_to(after, w.item.packet@, s),
                        None => mid.submitted(after, sc, w.item.packet@, now, x),
                    }
                }
        }
    }

    /// Works on what waits to leave: the next of the highest rank.
    pub fn work_tx(&mut self, schema: &Schema, now: u64) -> (r: Option<TelemetryResult<()>>)
        requires
            old(self).wf(),
        ensures
            final(self).wf(),
            old(self).tx_worked(*final(self), schema@, now, r),
    {
        match self.tx.pop() {
            None => None,
            Some(w) => {
                let ghost mid = *self;
                let ghost wv = w;
                assert(old(self).tx_popped(mid, wv));
                match w.item.to {
                    Some(s) => {
                        if s < self.sides.len() && self.sides[s].alive && self.sides[s].egress {
                            let ghost before = self.agenda@;
                            let j = Job {
                                target: Target::Side(s),
                                packet: Some(w.item.packet),
                                frame: None,
                                tries: 0,
                                quiet: false,
                            };
                            let ghost jv = j@;
                            self.agenda.push(j);
                            assert(jobs::jobs(self.agenda@) =~= jobs::jobs(before).push(jv));
                        }
                        Some(Ok(()))
                    },
                    None => Some(self.submit(schema, &w.item.packet, now)),
                }
            },
        }
    }

    /// Whether a discovery message came and waits: it is to be learnt before anything leaves.
    pub fn discovery_waits(&self) -> (b: bool)
        ensures
            b == exists|i: int|
                #[trigger] queue::comes_next(self.rx@, i) && self.rx@[i].rank == DISCOVERY_RANK,
    {
        match self.rx.top_rank() {
            Some(r) => {
                proof {
                    let i = choose|i: int| #[trigger]
                        queue::comes_next(self.rx@, i) && r == self.rx@[i].rank;
                    assert forall|j: int| #[trigger] queue::comes_next(self.rx@, j) implies i
                        == j by {
                        queue::lemma_next_is_unique(self.rx@, i, j);
                    }
                }
                r == DISCOVERY_RANK
            },
            None => false,
        }
    }

    /// Adds someone who takes packets for an endpoint. The endpoints of the network itself are
    /// not for that.
    pub fn add_handler(&mut self, h: Handler) -> (r: TelemetryResult<usize>)
        requires
            old(self).wf(),
        ensures
            final(self).wf(),
            h.endpoint == EP_DISCOVERY || h.endpoint == EP_TIMESYNC ==> (r matches Err(
                TelemetryError::HandlerError(m),
            ) && m@ == "reserved internal endpoint handlers must not be user-registered"@) && *final(self) == *old(self),
            h.endpoint != EP_DISCOVERY && h.endpoint != EP_TIMESYNC ==> r == Ok::<
                usize,
                TelemetryError,
            >(old(self).handlers@.len() as usize) && final(self).handlers@ == old(
                self,
            ).handlers@.push(h) && *final(self) == (Router {
                handlers: final(self).handlers,
                ..*old(self)
            }),
    {
        if h.endpoint == EP_DISCOVERY || h.endpoint == EP_TIMESYNC {
            return Err(TelemetryError::HandlerError("reserved internal endpoint handlers must not be user-registered"));
        }
        let n: usize = self.handlers.len();
        self.handlers.push(h);
        Ok(n)
    }

    /// Renames the board.
    pub fn set_sender(&mut self, name: &str)
        requires
            old(self).wf(),
        ensures
            final(self).wf(),
            final(self).sender@ == name@,
            *final(self) == (Router { sender: final(self).sender, ..*old(self) }),
    {
        self.sender = name.to_owned();
    }

    /// What adding a link does: it takes the place of the first that is gone, or a new one behind
    /// all others; where there is no place, it is refused.
    pub open spec fn side_added(
        self,
        after: Router,
        name: Seq<char>,
        packed: bool,
        options: LinkOptions,
        link_local: bool,
        r: TelemetryResult<usize>,
    ) -> bool {
        match r {
            Ok(i) => {
                let s = after.sides@[i as int];
                &&& i <= self.sides@.len()
                &&& i < MAX_SIDES
                &&& forall|k: int| 0 <= k < i ==> (#[trigger] self.sides@[k]).alive
                &&& i < self.sides@.len() ==> !self.sides@[i as int].alive
                &&& after.sides@ == (if i < self.sides@.len() {
                    self.sides@.update(i as int, s)
                } else {
                    self.sides@.push(s)
                })
                &&& s.name@ == name
                &&& s.alive && s.ingress && s.egress
                &&& s.packed == packed
                &&& s.reliable == options.reliable
                &&& s.capabilities == options.announced()
                &&& s.capacity == 0
                &&& s.pinged == 0
                &&& s.link_local == link_local
                &&& after == Router { sides: after.sides, ..self }
            },
            Err(e) => {
                &&& e matches TelemetryError::HandlerError(m) && m@ == "too many sides"@
                &&& self.sides@.len() == MAX_SIDES
                &&& forall|k: int| 0 <= k < MAX_SIDES ==> (#[trigger] self.sides@[k]).alive
                &&& after == self
            },
        }
    }

    /// The boards that a packet is for, as far as this board knows.
    pub fn destinations(&self, p: &Packet, now: u64) -> (v: Vec<u32>)
        ensures
            v@ == presence::holders(self.presence@, Some(self.remote(p@)), now),
    {
        let away: Vec<DataEndpoint> = if jobs::is_for_me(p, self.sender.as_str()) {
            jobs::part_endpoints(&self.handlers, p.endpoints()).1
        } else {
            codec::copy_u32(p.endpoints())
        };
        self.presence.holders_of(Some(&away), now)
    }

    /// What handing a packet to one link does.
    pub open spec fn sent_over(
        self,
        after: Router,
        p: PacketSpec,
        side: usize,
        r: TelemetryResult<()>,
    ) -> bool {
        if self.has_side(side) && self.sides@[side as int].egress {
            &&& r is Ok
            &&& jobs::jobs(after.agenda@) == jobs::jobs(self.agenda@).push(
                JobSpec {
                    target: Target::Side(side),
                    packet: Some(p),
                    frame: None,
                    tries: 0,
                    quiet: false,
                },
            )
            &&& after == Router { agenda: after.agenda, ..self }
        } else {
            &&& r matches Err(TelemetryError::HandlerError(m)) && m@ == "side egress disabled"@
            &&& after == self
        }
    }

    /// Sends a packet over one link.
    pub fn send_over(&mut self, p: Packet, side: usize) -> (r: TelemetryResult<()>)
        requires
            old(self).wf(),
        ensures
            final(self).wf(),
            old(self).sent_over(*final(self), p@, side, r),
    {
        if side >= self.sides.len() || !self.sides[side].alive || !self.sides[side].egress {
            return Err(TelemetryError::HandlerError("side egress disabled"));
        }
        let ghost before = self.agenda@;
        let j = Job {
            target: Target::Side(side),
            packet: Some(p),
            frame: None,
            tries: 0,
            quiet: false,
        };
        let ghost jv = j@;
        self.agenda.push(j);
        assert(jobs::jobs(self.agenda@) =~= jobs::jobs(before).push(jv));
        Ok(())
    }

    /// Whether several boards are heard over a link.
    pub fn is_shared(&self, side: usize, now: u64) -> (b: bool)
        ensures
            b == (presence::names(self.presence@, Some(side), now).len() > 1),
    {
        let v: Vec<String> = self.presence.announcers(Some(side), now);
        assert(discovery::texts(v@).len() == v@.len());
        v.len() > 1
    }

    /// Adds a link, in the place of one that is gone, where there is one.
    pub fn add_side(
        &mut self,
        name: &str,
        packed: bool,
        options: LinkOptions,
        link_local: bool,
    ) -> (r: TelemetryResult<usize>)
        requires
            old(self).wf(),
        ensures
            final(self).wf(),
            old(self).side_added(*final(self), name@, packed, options, link_local, r),
    {
        let mut i: usize = 0;
        while i < self.sides.len() && self.sides[i].alive
            invariant
                i <= self.sides@.len(),
                forall|k: int| 0 <= k < i ==> (#[trigger] self.sides@[k]).alive,
            decreases self.sides@.len() - i,
        {
            i = i + 1;
        }
        if i >= MAX_SIDES {
            return Err(TelemetryError::HandlerError("too many sides"));
        }
        let s = Side {
            name: name.to_owned(),
            alive: true,
            packed,
            ingress: true,
            egress: true,
            link_local,
            reliable: options.reliable,
            capabilities: options.capabilities(),
            capacity: 0,
            pinged: 0,
        };
        if i < self.sides.len() {
            self.sides.set(i, s);
        } else {
            self.sides.push(s);
        }
        Ok(i)
    }

    /// Takes a link away, with all that was known of it.
    pub fn remove_side(&mut self, side: usize) -> (r: TelemetryResult<()>)
        requires
            old(self).wf(),
        ensures
            final(self).wf(),
            r is Ok <==> old(self).has_side(side),
            r is Err ==> *final(self) == *old(self) && (r matches Err(
                TelemetryError::HandlerError(m),
            ) && m@ == "invalid side id"@),
            r is Ok ==> {
                let s = final(self).sides@[side as int];
                &&& final(self).sides@ == old(self).sides@.update(side as int, s)
                &&& !s.alive && !s.ingress && !s.egress
                &&& s.name@ == Seq::<char>::empty()
                &&& final(self).policy@ == old(self).policy@.without(side)
                &&& final(self).presence@ == presence::others(
                    old(self).presence@,
                    Some(side),
                    None,
                )
                &&& final(self).sent@ == old(self).sent@.remove_keys(
                    assoc::part_keys(side as u128, false),
                )
                &&& final(self).held@ == old(self).held@.remove_keys(
                    assoc::part_keys(side as u128, false),
                )
                &&& *final(self) == (Router {
                    sides: final(self).sides,
                    policy: final(self).policy,
                    presence: final(self).presence,
                    sent: final(self).sent,
                    held: final(self).held,
                    ..*old(self)
                })
            },
    {
        if side >= self.sides.len() || !self.sides[side].alive {
            return Err(TelemetryError::HandlerError("invalid side id"));
        }
        let s = Side {
            name: String::new(),
            alive: false,
            packed: false,
            ingress: false,
            egress: false,
            link_local: false,
            reliable: false,
            capabilities: LinkOptions::plain().capabilities(),
            capacity: 0,
            pinged: 0,
        };
        self.sides.set(side, s);
        self.policy.forget_side(side);
        self.presence.drop_side(side);
        self.sent.drop_part(side as u128, false);
        self.held.drop_part(side as u128, false);
        Ok(())
    }

    /// Opens or closes a link for what comes over it.
    pub fn set_side_ingress_enabled(&mut self, side: usize, enabled: bool) -> (r: TelemetryResult<
        (),
    >)
        requires
            old(self).wf(),
        ensures
            final(self).wf(),
            r is Ok <==> old(self).has_side(side),
            r is Err ==> *final(self) == *old(self) && (r matches Err(
                TelemetryError::HandlerError(m),
            ) && m@ == "invalid side id"@),
            r is Ok ==> final(self).sides@ == old(self).sides@.update(
                side as int,
                (Side { ingress: enabled, ..old(self).sides@[side as int] }),
            ) && *final(self) == (Router { sides: final(self).sides, ..*old(self) }),
    {
        if side >= self.sides.len() || !self.sides[side].alive {
            return Err(TelemetryError::HandlerError("invalid side id"));
        }
        self.sides[side].ingress = enabled;
        assert(self.sides@ =~= old(self).sides@.update(
            side as int,
            (Side { ingress: enabled, ..old(self).sides@[side as int] }),
        ));
        Ok(())
    }

    /// Opens or closes a link for what goes over it.
    pub fn set_side_egress_enabled(&mut self, side: usize, enabled: bool) -> (r: TelemetryResult<
        (),
    >)
        requires
            old(self).wf(),
        ensures
            final(self).wf(),
            r is Ok <==> old(self).has_side(side),
            r is Err ==> *final(self) == *old(self) && (r matches Err(
                TelemetryError::HandlerError(m),
            ) && m@ == "invalid side id"@),
            r is Ok ==> final(self).sides@ == old(self).sides@.update(
                side as int,
                (Side { egress: enabled, ..old(self).sides@[side as int] }),
            ) && *final(self) == (Router { sides: final(self).sides, ..*old(self) }),
    {
        if side >= self.sides.len() || !self.sides[side].alive {
            return Err(TelemetryError::HandlerError("invalid side id"));
        }
        self.sides[side].egress = enabled;
        assert(self.sides@ =~= old(self).sides@.update(
            side as int,
            (Side { egress: enabled, ..old(self).sides@[side as int] }),
        ));
        Ok(())
    }

    /// Whether a rule can speak of a source and a link: both have to be there.
    pub fn check_route(&self, source: Option<usize>, side: usize) -> (r: TelemetryResult<()>)
        requires
            self.wf(),
        ensures
            r is Ok <==> self.has_side(side) && (source matches Some(s) ==> self.has_side(s)),
            r is Ok ==> routes::fair_source(source) && side < MAX_SIDES,
            r is Err ==> (r matches Err(TelemetryError::HandlerError(m)) && m@
                == "invalid side id"@),
    {
        let from: bool = match source {
            Some(s) => s < self.sides.len() && self.sides[s].alive,
            None => true,
        };
        if from && side < self.sides.len() && self.sides[side].alive {
            Ok(())
        } else {
            Err(TelemetryError::HandlerError("invalid side id"))
        }
    }
}

/// The product of two numbers, or the largest number where it is larger.
fn times(a: usize, b: usize) -> (r: usize)
    requires
        b <= 64,
    ensures
        r == table::capped((a * b) as nat),
{
    match a.checked_mul(b) {
        Some(x) => x,
        None => usize::MAX,
    }
}

proof fn lemma_announced_same(
    a: Router,
    b: Router,
    sc: schema::SchemaSpec,
    side: usize,
    now: u64,
    n: nat,
)
    requires
        a == (Router { next_announce: a.next_announce, interval: a.interval, ..b }),
    ensures
        a.announced(sc, side, now, n) == b.announced(sc, side, now, n),
    decreases n,
{
    if n > 0 {
        lemma_announced_same(a, b, sc, side, now, (n - 1) as nat);
    }
}

proof fn lemma_announcements_same(
    a: Router,
    b: Router,
    sc: schema::SchemaSpec,
    list: Seq<usize>,
    now: u64,
    nonce: u16,
)
    requires
        a == (Router { next_announce: a.next_announce, interval: a.interval, ..b }),
    ensures
        a.announcements(sc, list, now, nonce) == b.announcements(sc, list, now, nonce),
{
    assert forall|i: int| 0 <= i < 2 * list.len() implies #[trigger] a.announcements(
        sc,
        list,
        now,
        nonce,
    )[i] == b.announcements(sc, list, now, nonce)[i] by {
        lemma_announced_same(a, b, sc, list[i / 2], now, 256);
    }
    assert(a.announcements(sc, list, now, nonce) =~= b.announcements(sc, list, now, nonce));
}

} // verus!
