//! What a router asks of the program around it: to hand a packet to a handler or to a link.
use vstd::prelude::*;
use vstd::string::*;
use crate::codec;
use crate::discovery::LinkCapabilities;
use crate::error::TelemetryError;
use crate::hash;
use crate::meta::DataEndpoint;
use crate::packet;
use crate::packet::{Packet, PacketSpec};
use crate::routes::{SideFacts, MAX_SHARE};
use crate::schema;
use crate::schema::Schema;

verus! {

/// A job is tried this often.
pub const MAX_HANDLER_RETRIES: u8 = 3;

/// Who takes packets for an endpoint of this board, and in which form.
#[derive(Debug, Clone, Copy, PartialEq, Eq, Structural)]
pub struct Handler {
    pub endpoint: DataEndpoint,
    pub packed: bool,
}

/// A link to other boards.
#[derive(Debug, PartialEq, Eq)]
pub struct Side {
    pub name: String,
    pub alive: bool,
    /// The link takes frames.
    pub packed: bool,
    pub ingress: bool,
    pub egress: bool,
    /// The link does not leave the device.
    pub link_local: bool,
    /// Frames are numbered and acknowledged.
    pub reliable: bool,
    /// What this board says of the link.
    pub capabilities: LinkCapabilities,
    /// Bits that the link takes in a second, as far as it was measured.
    pub capacity: u64,
    /// When this board last gave a sign of life over the link, where it is slow.
    pub pinged: u64,
}

/// Where a packet goes.
#[derive(Debug, Clone, Copy, PartialEq, Eq, Structural)]
pub enum Target {
    Handler(usize),
    Side(usize),
}

/// Something to be done, as a value.
pub struct JobSpec {
    pub target: Target,
    pub packet: Option<PacketSpec>,
    pub frame: Option<Seq<u8>>,
    pub tries: u8,
    pub quiet: bool,
}

/// Something to be done: the packet, the frame, or both go to the target.
pub struct Job {
    pub target: Target,
    pub packet: Option<Packet>,
    pub frame: Option<Vec<u8>>,
    /// How often it was tried.
    pub tries: u8,
    /// Its failure is not reported.
    pub quiet: bool,
}

/// A packet as a value.
pub open spec fn packet_in(p: Option<Packet>) -> Option<PacketSpec> {
    match p {
        Some(p) => Some(p@),
        None => None,
    }
}

/// A frame as a value.
pub open spec fn frame_in(f: Option<Vec<u8>>) -> Option<Seq<u8>> {
    match f {
        Some(f) => Some(f@),
        None => None,
    }
}

impl View for Job {
    type V = JobSpec;

    open spec fn view(&self) -> JobSpec {
        JobSpec {
            target: self.target,
            packet: packet_in(self.packet),
            frame: frame_in(self.frame),
            tries: self.tries,
            quiet: self.quiet,
        }
    }
}

/// Jobs as values.
pub open spec fn jobs(v: Seq<Job>) -> Seq<JobSpec> {
    v.map_values(|j: Job| j@)
}

/// What routing needs to know of the links.
pub open spec fn facts(v: Seq<Side>) -> Seq<SideFacts> {
    v.map_values(
        |s: Side|
            SideFacts {
                alive: s.alive,
                egress: s.egress,
                link_local: s.link_local,
                share: share(s.capacity, top_capacity(v)),
            },
    )
}

/// What the fastest link takes.
pub open spec fn top_capacity(v: Seq<Side>) -> u64
    decreases v.len(),
{
    if v.len() == 0 {
        0
    } else {
        let rest = top_capacity(v.drop_last());
        if v.last().capacity > rest {
            v.last().capacity
        } else {
            rest
        }
    }
}

/// How often a link gets its turn: once where it was not measured, else in proportion to the
/// fastest.
pub open spec fn share(capacity: u64, top: u64) -> u8 {
    if capacity == 0 || top == 0 {
        1
    } else if capacity >= top {
        MAX_SHARE
    } else {
        let x = MAX_SHARE * capacity / top as int;
        if x < 1 {
            1
        } else {
            x as u8
        }
    }
}

/// A faster link never gets fewer turns.
pub proof fn lemma_share_is_monotone(a: u64, b: u64, top: u64)
    requires
        0 < a <= b,
    ensures
        1 <= share(a, top) <= share(b, top) <= MAX_SHARE,
{
    if top > 0 {
        let t = top as int;
        let x = a as int;
        let y = b as int;
        assert(4 * x / t <= 4 * y / t && (y < t ==> 0 <= 4 * y / t <= 4)) by (nonlinear_arith)
            requires
                t > 0,
                0 < x <= y,
        ;
        assert(x < t ==> 0 <= 4 * x / t <= 4) by (nonlinear_arith)
            requires
                t > 0,
                0 < x,
        ;
    }
}

fn share_of(capacity: u64, top: u64) -> (r: u8)
    ensures
        r == share(capacity, top),
{
    if capacity == 0 || top == 0 {
        1
    } else if capacity >= top {
        MAX_SHARE
    } else {
        let x: u128 = capacity as u128 * 4 / top as u128;
        assert(0 <= 4 * (capacity as int) / (top as int) <= 4) by (nonlinear_arith)
            requires
                0 < capacity < top,
        ;
        if x < 1 {
            1
        } else {
            x as u8
        }
    }
}

fn top_capacity_of(v: &Vec<Side>) -> (r: u64)
    ensures
        r == top_capacity(v@),
{
    let mut r: u64 = 0;
    let mut i: usize = 0;
    while i < v.len()
        invariant
            i <= v@.len(),
            r == top_capacity(v@.take(i as int)),
        decreases v@.len() - i,
    {
        assert(v@.take(i + 1).drop_last() =~= v@.take(i as int));
        if v[i].capacity > r {
            r = v[i].capacity;
        }
        i = i + 1;
    }
    assert(v@.take(i as int) =~= v@);
    r
}

/// Whether a packet is for the board with the name `me`.
pub open spec fn for_me(p: PacketSpec, me: Seq<char>) -> bool {
    p.targets.len() == 0 || p.targets.contains(hash::name_hash(me))
}

/// Whether someone takes packets for an endpoint.
pub open spec fn handled(hs: Seq<Handler>, ep: DataEndpoint) -> bool {
    exists|i: int| 0 <= i < hs.len() && (#[trigger] hs[i]).endpoint == ep
}

/// The endpoints in `eps` that someone takes packets for.
pub open spec fn locals(hs: Seq<Handler>, eps: Seq<DataEndpoint>) -> Seq<DataEndpoint> {
    eps.filter(|e: DataEndpoint| handled(hs, e))
}

/// The endpoints in `eps` that nobody takes packets for.
pub open spec fn strangers(hs: Seq<Handler>, eps: Seq<DataEndpoint>) -> Seq<DataEndpoint> {
    eps.filter(|e: DataEndpoint| !handled(hs, e))
}

/// A packet goes to everyone who takes packets for one of its endpoints, once.
pub open spec fn handler_jobs(
    hs: Seq<Handler>,
    p: PacketSpec,
    frame: Option<Seq<u8>>,
    quiet: bool,
) -> Seq<JobSpec>
    decreases hs.len(),
{
    if hs.len() == 0 {
        Seq::empty()
    } else {
        let front = handler_jobs(hs.drop_last(), p, frame, quiet);
        if p.endpoints.contains(hs.last().endpoint) {
            front.push(
                JobSpec {
                    target: Target::Handler((hs.len() - 1) as usize),
                    packet: Some(p),
                    frame,
                    tries: 0,
                    quiet,
                },
            )
        } else {
            front
        }
    }
}

/// A packet goes over each of the chosen links.
pub open spec fn side_jobs(chosen: Seq<usize>, p: PacketSpec, quiet: bool) -> Seq<JobSpec> {
    chosen.map_values(
        |s: usize|
            JobSpec { target: Target::Side(s), packet: Some(p), frame: None, tries: 0, quiet },
    )
}

/// No job for a handler is there twice.
pub proof fn lemma_each_handler_once(
    hs: Seq<Handler>,
    p: PacketSpec,
    frame: Option<Seq<u8>>,
    quiet: bool,
    i: int,
    j: int,
)
    requires
        hs.len() <= usize::MAX,
        0 <= i < j < handler_jobs(hs, p, frame, quiet).len(),
    ensures
        handler_jobs(hs, p, frame, quiet)[i].target != handler_jobs(hs, p, frame, quiet)[j].target,
{
    lemma_handler_order(hs, p, frame, quiet, i);
    lemma_handler_order(hs, p, frame, quiet, j);
    lemma_handler_ascending(hs, p, frame, quiet, i, j);
}

/// Every job for a handler is for one who takes packets for an endpoint of the packet.
pub proof fn lemma_handler_order(
    hs: Seq<Handler>,
    p: PacketSpec,
    frame: Option<Seq<u8>>,
    quiet: bool,
    i: int,
)
    requires
        hs.len() <= usize::MAX,
        0 <= i < handler_jobs(hs, p, frame, quiet).len(),
    ensures
        handler_jobs(hs, p, frame, quiet)[i].target matches Target::Handler(h) && h < hs.len()
            && p.endpoints.contains(hs[h as int].endpoint),
    decreases hs.len(),
{
    let front = handler_jobs(hs.drop_last(), p, frame, quiet);
    if i < front.len() {
        lemma_handler_order(hs.drop_last(), p, frame, quiet, i);
        assert(handler_jobs(hs, p, frame, quiet)[i] == front[i]);
    }
}

/// Every handler of an endpoint that a packet is for gets the packet.
pub proof fn lemma_every_handler_gets_it(
    hs: Seq<Handler>,
    p: PacketSpec,
    frame: Option<Seq<u8>>,
    quiet: bool,
    h: usize,
)
    requires
        h < hs.len() <= usize::MAX,
        p.endpoints.contains(hs[h as int].endpoint),
    ensures
        handler_jobs(hs, p, frame, quiet).contains(
            JobSpec {
                target: Target::Handler(h),
                packet: Some(p),
                frame,
                tries: 0,
                quiet,
            },
        ),
    decreases hs.len(),
{
    let front = handler_jobs(hs.drop_last(), p, frame, quiet);
    let all = handler_jobs(hs, p, frame, quiet);
    let j = JobSpec { target: Target::Handler(h), packet: Some(p), frame, tries: 0, quiet };
    if h == hs.len() - 1 {
        assert(all.last() == j);
    } else {
        assert(hs.drop_last()[h as int] == hs[h as int]);
        lemma_every_handler_gets_it(hs.drop_last(), p, frame, quiet, h);
        let k = choose|k: int| 0 <= k < front.len() && front[k] == j;
        assert(all[k] == j);
    }
}

proof fn lemma_handler_ascending(
    hs: Seq<Handler>,
    p: PacketSpec,
    frame: Option<Seq<u8>>,
    quiet: bool,
    i: int,
    j: int,
)
    requires
        hs.len() <= usize::MAX,
        0 <= i < j < handler_jobs(hs, p, frame, quiet).len(),
    ensures
        handler_jobs(hs, p, frame, quiet)[i].target->Handler_0 < handler_jobs(
            hs,
            p,
            frame,
            quiet,
        )[j].target->Handler_0,
    decreases hs.len(),
{
    let front = handler_jobs(hs.drop_last(), p, frame, quiet);
    assert(handler_jobs(hs, p, frame, quiet)[i] == front[i]);
    lemma_handler_order(hs.drop_last(), p, frame, quiet, i);
    if j < front.len() {
        lemma_handler_ascending(hs.drop_last(), p, frame, quiet, i, j);
        assert(handler_jobs(hs, p, frame, quiet)[j] == front[j]);
    }
}

/// Copies a frame.
pub fn copy_frame(f: &Option<Vec<u8>>) -> (r: Option<Vec<u8>>)
    ensures
        frame_in(r) == frame_in(*f),
{
    match f {
        Some(b) => {
            let c: Vec<u8> = codec::copy_range(b.as_slice(), 0, b.len());
            assert(c@ =~= b@);
            Some(c)
        },
        None => None,
    }
}

/// Whether someone takes packets for an endpoint.
pub fn is_handled(hs: &Vec<Handler>, ep: DataEndpoint) -> (b: bool)
    ensures
        b == handled(hs@, ep),
{
    let mut i: usize = 0;
    while i < hs.len()
        invariant
            i <= hs@.len(),
            forall|j: int| 0 <= j < i ==> (#[trigger] hs@[j]).endpoint != ep,
        decreases hs@.len() - i,
    {
        if hs[i].endpoint == ep {
            return true;
        }
        i = i + 1;
    }
    false
}

/// Parts endpoints into those that someone takes packets for and the others.
pub fn part_endpoints(hs: &Vec<Handler>, eps: &[DataEndpoint]) -> (r: (
    Vec<DataEndpoint>,
    Vec<DataEndpoint>,
))
    ensures
        r.0@ == locals(hs@, eps@),
        r.1@ == strangers(hs@, eps@),
{
    let ghost here = |e: DataEndpoint| handled(hs@, e);
    let ghost away = |e: DataEndpoint| !handled(hs@, e);
    let mut a: Vec<DataEndpoint> = Vec::new();
    let mut b: Vec<DataEndpoint> = Vec::new();
    let mut i: usize = 0;
    let total: usize = eps.len();
    proof {
        reveal(Seq::filter);
        assert(eps@.take(0).filter(here) =~= Seq::<DataEndpoint>::empty());
        assert(eps@.take(0).filter(away) =~= Seq::<DataEndpoint>::empty());
    }
    while i < total
        invariant
            i <= total == eps@.len(),
            here == (|e: DataEndpoint| handled(hs@, e)),
            away == (|e: DataEndpoint| !handled(hs@, e)),
            a@ == eps@.take(i as int).filter(here),
            b@ == eps@.take(i as int).filter(away),
        decreases total - i,
    {
        proof {
            assert(eps@.take(i + 1) =~= eps@.take(i as int).push(eps@[i as int]));
            eps@.take(i as int).lemma_filter_push(eps@[i as int], here);
            eps@.take(i as int).lemma_filter_push(eps@[i as int], away);
        }
        if is_handled(hs, eps[i]) {
            a.push(eps[i]);
        } else {
            b.push(eps[i]);
        }
        i = i + 1;
    }
    assert(eps@.take(i as int) =~= eps@);
    (a, b)
}

/// Whether a packet is for the board with the name `me`.
pub fn is_for_me(p: &Packet, me: &str) -> (b: bool)
    ensures
        b == for_me(p@, me@),
{
    let list: &[u64] = p.wire_target_senders();
    let total: usize = list.len();
    if total == 0 {
        return true;
    }
    let h: u64 = hash::sender_hash(me);
    let mut i: usize = 0;
    while i < total
        invariant
            i <= total == list@.len(),
            total > 0,
            list@ == p@.targets,
            h == hash::name_hash(me@),
            forall|j: int| 0 <= j < i ==> list@[j] != h,
        decreases total - i,
    {
        if list[i] == h {
            return true;
        }
        i = i + 1;
    }
    false
}

/// Puts the jobs for the handlers of a packet behind `out`.
pub fn push_handler_jobs(
    out: &mut Vec<Job>,
    hs: &Vec<Handler>,
    p: &Packet,
    frame: &Option<Vec<u8>>,
    quiet: bool,
)
    ensures
        jobs(final(out)@) == jobs(old(out)@) + handler_jobs(hs@, p@, frame_in(*frame), quiet),
{
    let mut i: usize = 0;
    assert(hs@.take(0) =~= Seq::<Handler>::empty());
    assert(jobs(out@) + Seq::<JobSpec>::empty() =~= jobs(out@));
    while i < hs.len()
        invariant
            i <= hs@.len(),
            jobs(out@) == jobs(old(out)@) + handler_jobs(
                hs@.take(i as int),
                p@,
                frame_in(*frame),
                quiet,
            ),
        decreases hs@.len() - i,
    {
        let ghost front = handler_jobs(
                hs@.take(i as int),
                p@,
                frame_in(*frame),
                quiet,
            );
        assert(hs@.take(i + 1).drop_last() =~= hs@.take(i as int));
        assert(hs@.take(i + 1).last() == hs@[i as int]);
        if codec::contains_u32(p.endpoints(), hs[i].endpoint) {
            let ghost before = out@;
            let j = Job {
                target: Target::Handler(i),
                packet: Some(p.copied()),
                frame: copy_frame(frame),
                tries: 0,
                quiet,
            };
            out.push(j);
            assert(jobs(out@) =~= jobs(before).push(j@));
            assert(jobs(old(out)@) + front.push(j@) =~= (jobs(old(out)@) + front).push(j@));
        }
        i = i + 1;
    }
    assert(hs@.take(i as int) =~= hs@);
}

/// Puts the jobs for the chosen links behind `out`.
pub fn push_side_jobs(out: &mut Vec<Job>, chosen: &Vec<usize>, p: &Packet, quiet: bool)
    ensures
        jobs(final(out)@) == jobs(old(out)@) + side_jobs(chosen@, p@, quiet),
{
    let mut i: usize = 0;
    assert(jobs(out@) + side_jobs(chosen@.take(0), p@, quiet) =~= jobs(out@));
    while i < chosen.len()
        invariant
            i <= chosen@.len(),
            jobs(out@) == jobs(old(out)@) + side_jobs(chosen@.take(i as int), p@, quiet),
        decreases chosen@.len() - i,
    {
        let ghost before = out@;
        let ghost front = side_jobs(chosen@.take(i as int), p@, quiet);
        let j = Job {
            target: Target::Side(chosen[i]),
            packet: Some(p.copied()),
            frame: None,
            tries: 0,
            quiet,
        };
        out.push(j);
        assert(jobs(out@) =~= jobs(before).push(j@));
        assert(side_jobs(chosen@.take(i + 1), p@, quiet) =~= front.push(j@));
        assert(jobs(old(out)@) + front.push(j@) =~= (jobs(old(out)@) + front).push(j@));
        i = i + 1;
    }
    assert(chosen@.take(i as int) =~= chosen@);
}

/// What routing needs to know of the links.
pub fn facts_of(v: &Vec<Side>) -> (r: Vec<SideFacts>)
    ensures
        r@ == facts(v@),
{
    let mut r: Vec<SideFacts> = Vec::new();
    let mut i: usize = 0;
    let top: u64 = top_capacity_of(v);
    while i < v.len()
        invariant
            i <= v@.len(),
            top == top_capacity(v@),
            r@ == facts(v@).take(i as int),
        decreases v@.len() - i,
    {
        let f = SideFacts {
            alive: v[i].alive,
            egress: v[i].egress,
            link_local: v[i].link_local,
            share: share_of(v[i].capacity, top),
        };
        r.push(f);
        assert(facts(v@).take(i + 1) =~= facts(v@).take(i as int).push(f));
        i = i + 1;
    }
    assert(facts(v@).take(i as int) =~= facts(v@));
    r
}

/// What is said of a handler that failed.
pub open spec fn handler_failure_text(
    sc: schema::SchemaSpec,
    ep: DataEndpoint,
    device: Seq<char>,
    error: Seq<char>,
) -> Seq<char> {
    "Handler for endpoint "@ + packet::endpoint_label(sc, ep) + " failed on device \""@ + device
        + "\": "@ + error
}

/// What is said of a link that failed.
pub open spec fn side_failure_text(device: Seq<char>, error: Seq<char>) -> Seq<char> {
    "TX Handler failed on device \""@ + device + "\": "@ + error
}

/// The text of an error.
pub open spec fn error_text(e: TelemetryError) -> Seq<char> {
    e.code().name() + e.detail()
}

/// Says that a handler failed.
pub fn handler_failure_string(
    schema: &Schema,
    ep: DataEndpoint,
    device: &str,
    e: &TelemetryError,
) -> (r: String)
    ensures
        r@ == handler_failure_text(schema@, ep, device@, error_text(*e)),
{
    let label: String = packet::endpoint_label_of(schema, ep);
    let error: String = e.to_text();
    let mut out: String = "Handler for endpoint ".to_owned();
    out.append(label.as_str());
    out.append(" failed on device \"");
    out.append(device);
    out.append("\": ");
    out.append(error.as_str());
    out
}

/// Says that a link failed.
pub fn side_failure_string(device: &str, e: &TelemetryError) -> (r: String)
    ensures
        r@ == side_failure_text(device@, error_text(*e)),
{
    let error: String = e.to_text();
    let mut out: String = "TX Handler failed on device \"".to_owned();
    out.append(device);
    out.append("\": ");
    out.append(error.as_str());
    out
}

/// The fastest link is at least as fast as each, and is one of them, where any was measured.
pub proof fn lemma_top_is_the_fastest(v: Seq<Side>, i: int)
    requires
        0 <= i < v.len(),
    ensures
        v[i].capacity <= top_capacity(v),
        exists|k: int| 0 <= k < v.len() && (#[trigger] v[k]).capacity == top_capacity(v),
    decreases v.len(),
{
    let n = v.len() - 1;
    let rest = v.drop_last();
    if n > 0 {
        lemma_top_is_the_fastest(
            rest,
            if i < n {
                i
            } else {
                0
            },
        );
        let k = choose|k: int|
            0 <= k < rest.len() && (#[trigger] rest[k]).capacity == top_capacity(rest);
        assert(v[k].capacity == top_capacity(rest));
        if i < n {
            assert(rest[i] == v[i]);
        }
    } else {
        assert(top_capacity(rest) == 0);
    }
    assert(v[n].capacity == v.last().capacity);
}

/// Links get their turns in proportion to what they take, measured by the fastest: the fastest has
/// all turns there are, a link that takes half as much half as many, rounded down, and each link at
/// least one; so has a link that was not measured.
pub proof fn lemma_share_is_in_proportion(v: Seq<Side>, i: int)
    requires
        0 <= i < v.len(),
    ensures
        ({
            let f = facts(v)[i];
            let top = top_capacity(v);
            &&& facts(v).len() == v.len()
            &&& f.alive == v[i].alive
            &&& f.egress == v[i].egress
            &&& f.link_local == v[i].link_local
            &&& v[i].capacity == 0 ==> f.share == 1
            &&& v[i].capacity == top && top > 0 ==> f.share == MAX_SHARE
            &&& 1 <= f.share <= MAX_SHARE
            &&& f.share > 1 ==> f.share * top <= MAX_SHARE * v[i].capacity
            &&& 0 < v[i].capacity < top ==> MAX_SHARE * v[i].capacity < (f.share + 1) * top
        }),
{
    lemma_top_is_the_fastest(v, i);
    let c = v[i].capacity as int;
    let t = top_capacity(v) as int;
    if 0 < c && c < t {
        let x = 4 * c / t;
        assert(0 <= x <= 4 && x * t <= 4 * c && 4 * c < (x + 1) * t) by (nonlinear_arith)
            requires
                0 < c < t,
                x == 4 * c / t,
        ;
        if x < 1 {
            assert(x == 0);
            assert(4 * c < 2 * t) by (nonlinear_arith)
                requires
                    4 * c < (x + 1) * t,
                    x == 0,
                    t > 0,
            ;
        }
    }
}

/// The endpoints of a packet fall in two parts: those that someone takes packets for here, and
/// those that nobody does.
pub proof fn lemma_endpoints_fall_in_two(hs: Seq<Handler>, eps: Seq<DataEndpoint>, e: DataEndpoint)
    ensures
        locals(hs, eps).contains(e) <==> eps.contains(e) && exists|i: int|
            0 <= i < hs.len() && (#[trigger] hs[i]).endpoint == e,
        strangers(hs, eps).contains(e) <==> eps.contains(e) && !locals(hs, eps).contains(e),
{
    let yes = |x: DataEndpoint| handled(hs, x);
    let no = |x: DataEndpoint| !handled(hs, x);
    if eps.contains(e) {
        let i = choose|i: int| 0 <= i < eps.len() && eps[i] == e;
        if handled(hs, e) {
            eps.lemma_filter_contains(yes, i);
        } else {
            eps.lemma_filter_contains(no, i);
        }
    }
    if locals(hs, eps).contains(e) {
        eps.lemma_filter_contains_rev(yes, e);
        let i = choose|i: int| 0 <= i < locals(hs, eps).len() && locals(hs, eps)[i] == e;
        eps.lemma_filter_pred(yes, i);
    }
    if strangers(hs, eps).contains(e) {
        eps.lemma_filter_contains_rev(no, e);
        let i = choose|i: int| 0 <= i < strangers(hs, eps).len() && strangers(hs, eps)[i] == e;
        eps.lemma_filter_pred(no, i);
    }
}

/// A packet that names nobody is for every board; one that names boards is for those, by their
/// names, and for no others whose names hash otherwise.
pub proof fn lemma_packet_is_for_who_it_names(p: PacketSpec, q: PacketSpec, me: Seq<char>)
    requires
        q.targets == p.targets.push(hash::name_hash(me)),
    ensures
        p.targets.len() == 0 ==> for_me(p, me),
        for_me(q, me),
        for_me(p, me) && p.targets.len() > 0 ==> exists|i: int|
            0 <= i < p.targets.len() && #[trigger] p.targets[i] == hash::name_hash(me),
{
    assert(q.targets[p.targets.len() as int] == hash::name_hash(me));
}

/// Each link that was chosen gets the packet, as it is, once, in the order of the choice, and
/// nothing else is to be done for it.
pub proof fn lemma_each_link_gets_it(chosen: Seq<usize>, p: PacketSpec, quiet: bool, i: int)
    requires
        0 <= i < chosen.len(),
    ensures
        side_jobs(chosen, p, quiet).len() == chosen.len(),
        side_jobs(chosen, p, quiet)[i].target == Target::Side(chosen[i]),
        side_jobs(chosen, p, quiet)[i].packet == Some(p),
        side_jobs(chosen, p, quiet)[i].tries == 0,
        side_jobs(chosen, p, quiet)[i].quiet == quiet,
{
}

} // verus!
