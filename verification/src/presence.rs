//! Which boards have been heard of, over which link, and what they lead to.
use vstd::prelude::*;
use crate::brevity;
use crate::codec;
use crate::discovery;
use crate::discovery::{BoardSpec, TopologyBoardNode, DISCOVERY_ROUTE_TTL_MS};
use crate::meta::{DataEndpoint, FIRST_USER_ENDPOINT};

verus! {

/// What is known of a board, as a value.
pub struct AnnouncerSpec {
    /// The link that it was heard over.
    pub side: usize,
    pub address: u32,
    pub name: Seq<char>,
    pub endpoints: Seq<DataEndpoint>,
    pub sources: Seq<Seq<char>>,
    pub boards: Seq<BoardSpec>,
    pub last_seen: u64,
}

/// What is known of a board.
pub struct Announcer {
    pub side: usize,
    pub address: u32,
    pub name: String,
    pub endpoints: Vec<DataEndpoint>,
    pub sources: Vec<String>,
    pub boards: Vec<TopologyBoardNode>,
    pub last_seen: u64,
}

impl View for Announcer {
    type V = AnnouncerSpec;

    open spec fn view(&self) -> AnnouncerSpec {
        AnnouncerSpec {
            side: self.side,
            address: self.address,
            name: self.name@,
            endpoints: self.endpoints@,
            sources: discovery::texts(self.sources@),
            boards: discovery::boards(self.boards@),
            last_seen: self.last_seen,
        }
    }
}

impl AnnouncerSpec {
    /// A board of which nothing is known yet.
    pub open spec fn fresh(side: usize, address: u32, name: Seq<char>) -> AnnouncerSpec {
        AnnouncerSpec {
            side,
            address,
            name,
            endpoints: Seq::empty(),
            sources: Seq::empty(),
            boards: Seq::empty(),
            last_seen: 0,
        }
    }

    /// Whether the board was heard of lately.
    pub open spec fn live(self, now: u64) -> bool {
        now <= self.last_seen + DISCOVERY_ROUTE_TTL_MS
    }

    /// Whether the board has an endpoint or knows a board that has it.
    pub open spec fn offers(self, ep: DataEndpoint) -> bool {
        ep >= FIRST_USER_ENDPOINT && (self.endpoints.contains(ep) || exists|i: int|
            0 <= i < self.boards.len() && (#[trigger] self.boards[i]).reachable_endpoints.contains(
                ep,
            ))
    }

    /// Whether the board has one of the endpoints; where none are given, any will do.
    pub open spec fn takes(self, eps: Option<Seq<DataEndpoint>>) -> bool {
        match eps {
            Some(v) => self.offers_any(v),
            None => true,
        }
    }

    /// Whether the board has one of the endpoints.
    pub open spec fn offers_any(self, v: Seq<DataEndpoint>) -> bool {
        exists|i: int| 0 <= i < v.len() && #[trigger] self.offers(v[i])
    }

    /// Whether the board is the one that is asked for; where a part is not given, any will do.
    pub open spec fn is(self, side: Option<usize>, address: Option<u32>) -> bool {
        (side matches Some(s) ==> s == self.side) && (address matches Some(a) ==> a
            == self.address)
    }
}

/// The entries in `s` that are not asked for.
pub open spec fn others(
    s: Seq<AnnouncerSpec>,
    side: Option<usize>,
    address: Option<u32>,
) -> Seq<AnnouncerSpec> {
    s.filter(|e: AnnouncerSpec| !e.is(side, address))
}

/// The last entry in `s` that is asked for.
pub open spec fn found(
    s: Seq<AnnouncerSpec>,
    side: Option<usize>,
    address: Option<u32>,
) -> Option<AnnouncerSpec>
    decreases s.len(),
{
    if s.len() == 0 {
        None
    } else if s.last().is(side, address) {
        Some(s.last())
    } else {
        found(s.drop_last(), side, address)
    }
}

/// What is known of a board that was heard over a link.
pub open spec fn known(
    s: Seq<AnnouncerSpec>,
    side: usize,
    address: u32,
    name: Seq<char>,
) -> AnnouncerSpec {
    match found(s, Some(side), Some(address)) {
        Some(e) => e,
        None => AnnouncerSpec::fresh(side, address, name),
    }
}

/// The entries after something was learnt of a board.
pub open spec fn noted(s: Seq<AnnouncerSpec>, e: AnnouncerSpec) -> Seq<AnnouncerSpec> {
    others(s, Some(e.side), Some(e.address)).push(e)
}

/// Whether an endpoint can be reached over a link, or over any where none is given.
pub open spec fn reaches(
    s: Seq<AnnouncerSpec>,
    side: Option<usize>,
    ep: DataEndpoint,
    now: u64,
) -> bool {
    exists|i: int|
        0 <= i < s.len() && (#[trigger] s[i]).is(side, None) && s[i].live(now) && s[i].offers(ep)
}

/// Whether an endpoint can be reached over another link than `side`.
pub open spec fn reaches_elsewhere(
    s: Seq<AnnouncerSpec>,
    side: usize,
    ep: DataEndpoint,
    now: u64,
) -> bool {
    exists|i: int|
        0 <= i < s.len() && (#[trigger] s[i]).side != side && s[i].live(now) && s[i].offers(ep)
}

/// Whether any board was heard of lately.
pub open spec fn anyone(s: Seq<AnnouncerSpec>, now: u64) -> bool {
    exists|i: int| 0 <= i < s.len() && (#[trigger] s[i]).live(now)
}

/// How many of the endpoints can be reached over a link.
pub open spec fn overlap(
    s: Seq<AnnouncerSpec>,
    side: usize,
    eps: Seq<DataEndpoint>,
    now: u64,
) -> nat
    decreases eps.len(),
{
    if eps.len() == 0 {
        0
    } else {
        overlap(s, side, eps.drop_last(), now) + (if reaches(s, Some(side), eps.last(), now) {
            1nat
        } else {
            0nat
        })
    }
}

/// The endpoints below `n` that can be reached over a link, or over any, in ascending order.
pub open spec fn reached(
    s: Seq<AnnouncerSpec>,
    side: Option<usize>,
    now: u64,
    n: nat,
) -> Seq<DataEndpoint>
    decreases n,
{
    if n == 0 {
        Seq::empty()
    } else {
        let front = reached(s, side, now, (n - 1) as nat);
        if reaches(s, side, (n - 1) as DataEndpoint, now) {
            front.push((n - 1) as DataEndpoint)
        } else {
            front
        }
    }
}

/// `v` with what is new in `more` behind it.
pub open spec fn joined(v: Seq<Seq<char>>, more: Seq<Seq<char>>) -> Seq<Seq<char>>
    decreases more.len(),
{
    if more.len() == 0 {
        v
    } else {
        let front = joined(v, more.drop_last());
        if front.contains(more.last()) {
            front
        } else {
            front.push(more.last())
        }
    }
}

/// The time sources that can be reached over a link, or over any.
pub open spec fn sources(s: Seq<AnnouncerSpec>, side: Option<usize>, now: u64) -> Seq<Seq<char>>
    decreases s.len(),
{
    if s.len() == 0 {
        Seq::empty()
    } else {
        let front = sources(s.drop_last(), side, now);
        if s.last().is(side, None) && s.last().live(now) {
            joined(front, s.last().sources)
        } else {
            front
        }
    }
}

/// The addresses of the boards that were heard of lately and have one of the endpoints, or, where
/// none are given, of all boards that were heard of lately; each once.
pub open spec fn holders(
    s: Seq<AnnouncerSpec>,
    eps: Option<Seq<DataEndpoint>>,
    now: u64,
) -> Seq<u32>
    decreases s.len(),
{
    if s.len() == 0 {
        Seq::empty()
    } else {
        let front = holders(s.drop_last(), eps, now);
        let e = s.last();
        if e.live(now) && e.takes(eps) && !front.contains(e.address) {
            front.push(e.address)
        } else {
            front
        }
    }
}

/// The boards that the boards tell of that were heard of lately, over a link, or over any.
pub open spec fn told_boards(s: Seq<AnnouncerSpec>, side: Option<usize>, now: u64) -> Seq<BoardSpec>
    decreases s.len(),
{
    if s.len() == 0 {
        Seq::empty()
    } else {
        let front = told_boards(s.drop_last(), side, now);
        if s.last().is(side, None) && s.last().live(now) {
            front + s.last().boards
        } else {
            front
        }
    }
}

/// What is known of the board with a name that was heard of lately.
pub open spec fn client_entry(s: Seq<AnnouncerSpec>, name: Seq<char>, now: u64) -> Option<
    AnnouncerSpec,
>
    decreases s.len(),
{
    if s.len() == 0 {
        None
    } else if s.last().live(now) && s.last().name == name {
        Some(s.last())
    } else {
        client_entry(s.drop_last(), name, now)
    }
}

/// A board that left is not known any more.
pub proof fn lemma_left_is_unknown(s: Seq<AnnouncerSpec>, address: u32, name: Seq<char>, now: u64)
    requires
        forall|i: int| 0 <= i < s.len() && (#[trigger] s[i]).name == name ==> s[i].address == address,
    ensures
        client_entry(others(s, None, Some(address)), name, now) is None,
    decreases s.len(),
{
    reveal(Seq::filter);
    if s.len() > 0 {
        let t = s.drop_last();
        assert forall|i: int| 0 <= i < t.len() && (#[trigger] t[i]).name == name implies t[i].address
            == address by {
            assert(s[i].name == name);
        }
        lemma_left_is_unknown(t, address, name, now);
        assert(s =~= t.push(s.last()));
        assert(s[s.len() - 1] == s.last());
        let f = others(t, None, Some(address));
        t.lemma_filter_push(s.last(), |e: AnnouncerSpec| !e.is(None, Some(address)));
        if others(s, None, Some(address)) != f {
            assert(others(s, None, Some(address)) == f.push(s.last()));
            assert(f.push(s.last()).drop_last() =~= f);
        }
    }
}

/// The link over which a board was heard of last.
pub open spec fn way_to_board(s: Seq<AnnouncerSpec>, address: u32, now: u64) -> Option<usize>
    decreases s.len(),
{
    if s.len() == 0 {
        None
    } else if s.last().live(now) && s.last().address == address {
        Some(s.last().side)
    } else {
        way_to_board(s.drop_last(), address, now)
    }
}

/// The link over which a time source can be reached: that of the board that was heard of last.
pub open spec fn way_to_source(s: Seq<AnnouncerSpec>, name: Seq<char>, now: u64) -> Option<usize>
    decreases s.len(),
{
    if s.len() == 0 {
        None
    } else if s.last().live(now) && s.last().sources.contains(name) {
        Some(s.last().side)
    } else {
        way_to_source(s.drop_last(), name, now)
    }
}

/// The names of the boards that were heard of lately, over a link, or over any.
pub open spec fn names(s: Seq<AnnouncerSpec>, side: Option<usize>, now: u64) -> Seq<Seq<char>>
    decreases s.len(),
{
    if s.len() == 0 {
        Seq::empty()
    } else {
        let front = names(s.drop_last(), side, now);
        if s.last().is(side, None) && s.last().live(now) {
            front.push(s.last().name)
        } else {
            front
        }
    }
}

/// A board that is out of the list leads nowhere.
pub proof fn lemma_dropped_leads_nowhere(
    s: Seq<AnnouncerSpec>,
    side: usize,
    ep: DataEndpoint,
    now: u64,
)
    ensures
        !reaches(others(s, Some(side), None), Some(side), ep, now),
{
    let t = others(s, Some(side), None);
    assert forall|i: int| 0 <= i < t.len() implies !(#[trigger] t[i]).is(Some(side), None) by {
        s.lemma_filter_pred(|e: AnnouncerSpec| !e.is(Some(side), None), i);
    }
}

/// What was just heard of a board leads to its endpoints, for as long as it lives.
pub proof fn lemma_noted_leads(
    s: Seq<AnnouncerSpec>,
    e: AnnouncerSpec,
    ep: DataEndpoint,
    now: u64,
)
    requires
        e.offers(ep),
        e.live(now),
    ensures
        reaches(noted(s, e), Some(e.side), ep, now),
{
    let t = noted(s, e);
    assert(t[t.len() - 1] == e);
}

/// Nothing leads anywhere once its time is over.
pub proof fn lemma_expired_leads_nowhere(
    s: Seq<AnnouncerSpec>,
    side: Option<usize>,
    ep: DataEndpoint,
    now: u64,
)
    requires
        forall|i: int| 0 <= i < s.len() ==> !(#[trigger] s[i]).live(now),
    ensures
        !reaches(s, side, ep, now),
        !anyone(s, now),
{
}

/// The entries as values.
pub open spec fn entries(v: Seq<Announcer>) -> Seq<AnnouncerSpec> {
    v.map_values(|e: Announcer| e@)
}

/// The boards that have been heard of.
pub struct Presence {
    items: Vec<Announcer>,
}

impl View for Presence {
    type V = Seq<AnnouncerSpec>;

    closed spec fn view(&self) -> Seq<AnnouncerSpec> {
        entries(self.items@)
    }
}

/// The bytes that texts take at most when they are written, and `used`, as long as they are no
/// more than `limit`.
fn add_texts(v: &Vec<String>, used: u64, limit: u64) -> (r: Option<u64>)
    requires
        used <= limit,
    ensures
        r == (if used + brevity::texts_cost(discovery::texts(v@)) <= limit {
            Some((used + brevity::texts_cost(discovery::texts(v@))) as u64)
        } else {
            None
        }),
{
    let ghost all = discovery::texts(v@);
    let mut sum: u64 = used;
    let mut i: usize = 0;
    while i < v.len()
        invariant
            i <= v@.len(),
            all == discovery::texts(v@),
            sum <= limit,
            sum == used + brevity::texts_cost(all.take(i as int)),
        decreases v@.len() - i,
    {
        proof {
            assert(all.take(i + 1).drop_last() =~= all.take(i as int));
            assert(all.take(i + 1).last() == v@[i as int]@);
            brevity::lemma_texts_grow(all, i + 1);
        }
        match add_text(v[i].as_str(), sum, limit) {
            Some(x) => {
                sum = x;
            },
            None => return None,
        }
        i = i + 1;
    }
    assert(all.take(i as int) =~= all);
    Some(sum)
}

pub(crate) fn add_text(t: &str, used: u64, limit: u64) -> (r: Option<u64>)
    requires
        used <= limit,
    ensures
        r == (if used + brevity::text_cost(t@) <= limit {
            Some((used + brevity::text_cost(t@)) as u64)
        } else {
            None
        }),
{
    let n: u64 = t.as_bytes().len() as u64;
    let room: u64 = limit - used;
    if room >= 10 && n <= room - 10 {
        Some(used + n + 10)
    } else {
        None
    }
}

impl Announcer {
    fn matches(&self, side: Option<usize>, address: Option<u32>) -> (b: bool)
        ensures
            b == self@.is(side, address),
    {
        let s: bool = match side {
            Some(x) => x == self.side,
            None => true,
        };
        let a: bool = match address {
            Some(x) => x == self.address,
            None => true,
        };
        s && a
    }

    fn is_live(&self, now: u64) -> (b: bool)
        ensures
            b == self@.live(now),
    {
        now <= self.last_seen || now - self.last_seen <= DISCOVERY_ROUTE_TTL_MS
    }

    fn offers_to(&self, ep: DataEndpoint) -> (b: bool)
        ensures
            b == self@.offers(ep),
    {
        if ep < FIRST_USER_ENDPOINT {
            return false;
        }
        if codec::contains_u32(self.endpoints.as_slice(), ep) {
            return true;
        }
        let mut i: usize = 0;
        while i < self.boards.len()
            invariant
                i <= self.boards@.len(),
                ep >= FIRST_USER_ENDPOINT,
                !self@.endpoints.contains(ep),
                forall|j: int|
                    0 <= j < i ==> !(#[trigger] self@.boards[j]).reachable_endpoints.contains(ep),
            decreases self.boards@.len() - i,
        {
            assert(self@.boards[i as int] == self.boards@[i as int]@);
            if codec::contains_u32(self.boards[i].reachable_endpoints.as_slice(), ep) {
                return true;
            }
            i = i + 1;
        }
        false
    }
}

impl Announcer {
    fn takes_one(&self, eps: Option<&Vec<DataEndpoint>>) -> (b: bool)
        ensures
            b == self@.takes(
                match eps {
                    Some(v) => Some(v@),
                    None => None,
                },
            ),
    {
        match eps {
            None => true,
            Some(v) => {
                let mut i: usize = 0;
                while i < v.len()
                    invariant
                        i <= v@.len(),
                        eps == Some(v),
                        forall|j: int| 0 <= j < i ==> !#[trigger] self@.offers(v@[j]),
                    decreases v@.len() - i,
                {
                    if self.offers_to(v[i]) {
                        assert(self@.offers(v@[i as int]));
                        assert(self@.offers_any(v@));
                        return true;
                    }
                    i = i + 1;
                }
                false
            },
        }
    }
}

pub(crate) fn has_text(v: &Vec<String>, t: &String) -> (b: bool)
    ensures
        b == discovery::texts(v@).contains(t@),
{
    let mut i: usize = 0;
    while i < v.len()
        invariant
            i <= v@.len(),
            forall|j: int| 0 <= j < i ==> #[trigger] discovery::texts(v@)[j] != t@,
        decreases v@.len() - i,
    {
        assert(discovery::texts(v@)[i as int] == v@[i as int]@);
        if v[i] == *t {
            return true;
        }
        i = i + 1;
    }
    false
}

/// Puts what is new in `more` behind `v`.
pub fn join_texts(v: &mut Vec<String>, more: &Vec<String>)
    ensures
        discovery::texts(final(v)@) == joined(discovery::texts(old(v)@), discovery::texts(more@)),
{
    let mut i: usize = 0;
    assert(discovery::texts(more@).take(0) =~= Seq::<Seq<char>>::empty());
    while i < more.len()
        invariant
            i <= more@.len(),
            discovery::texts(v@) == joined(
                discovery::texts(old(v)@),
                discovery::texts(more@).take(i as int),
            ),
        decreases more@.len() - i,
    {
        let ghost all = discovery::texts(more@);
        assert(all.take(i + 1).drop_last() =~= all.take(i as int));
        assert(all.take(i + 1).last() == more@[i as int]@);
        if !has_text(v, &more[i]) {
            let ghost before = v@;
            let t: String = more[i].clone();
            v.push(t);
            assert(discovery::texts(v@) =~= discovery::texts(before).push(t@));
        }
        i = i + 1;
    }
    assert(discovery::texts(more@).take(i as int) =~= discovery::texts(more@));
}

impl Presence {
    /// The bytes that the names take at most that are known, and `used`, as long as they are no
    /// more than `limit`.
    pub fn added(&self, used: u64, limit: u64) -> (r: Option<u64>)
        requires
            used <= limit,
        ensures
            r == (if used + brevity::known_cost(self@) <= limit {
                Some((used + brevity::known_cost(self@)) as u64)
            } else {
                None
            }),
    {
        let ghost all = self@;
        let mut sum: u64 = used;
        let mut i: usize = 0;
        while i < self.items.len()
            invariant
                i <= self.items@.len(),
                all == entries(self.items@),
                sum <= limit,
                sum == used + brevity::known_cost(all.take(i as int)),
            decreases self.items@.len() - i,
        {
            proof {
                assert(all.take(i + 1).drop_last() =~= all.take(i as int));
                assert(all.take(i + 1).last() == self.items@[i as int]@);
                brevity::lemma_known_grows(all, i + 1);
            }
            let named: u64 = match add_text(self.items[i].name.as_str(), sum, limit) {
                Some(x) => x,
                None => return None,
            };
            match add_texts(&self.items[i].sources, named, limit) {
                Some(x) => {
                    sum = x;
                },
                None => return None,
            }
            i = i + 1;
        }
        assert(all.take(i as int) =~= all);
        Some(sum)
    }

    pub fn new() -> (r: Presence)
        ensures
            r@ == Seq::<AnnouncerSpec>::empty(),
    {
        let r = Presence { items: Vec::new() };
        assert(r@ =~= Seq::<AnnouncerSpec>::empty());
        r
    }

    /// How many boards have been heard of.
    pub fn len(&self) -> (n: usize)
        ensures
            n == self@.len(),
    {
        self.items.len()
    }

    fn drop_where(&mut self, side: Option<usize>, address: Option<u32>) -> (r: Option<Announcer>)
        ensures
            final(self)@ == others(old(self)@, side, address),
            match found(old(self)@, side, address) {
                Some(e) => r matches Some(a) && a@ == e,
                None => r is None,
            },
    {
        let ghost all = self@;
        let ghost pred = |e: AnnouncerSpec| !e.is(side, address);
        let mut rest: Vec<Announcer> = Vec::new();
        std::mem::swap(&mut rest, &mut self.items);
        let mut kept: Vec<Announcer> = Vec::new();
        let mut last: Option<Announcer> = None;
        let ghost mut k: int = 0;
        proof {
            reveal(Seq::filter);
            assert(all.take(0).filter(pred) =~= Seq::<AnnouncerSpec>::empty());
            assert(entries(kept@) =~= Seq::<AnnouncerSpec>::empty());
            assert(entries(rest@) =~= all.skip(0));
        }
        while rest.len() > 0
            invariant
                0 <= k <= all.len(),
                pred == (|e: AnnouncerSpec| !e.is(side, address)),
                entries(rest@) == all.skip(k),
                entries(kept@) == all.take(k).filter(pred),
                match found(all.take(k), side, address) {
                    Some(e) => last matches Some(a) && a@ == e,
                    None => last is None,
                },
            decreases rest@.len(),
        {
            let ghost before = rest@;
            let ghost old_kept = kept@;
            let e: Announcer = rest.remove(0);
            proof {
                assert(entries(before).len() == all.skip(k).len());
                assert(entries(before)[0] == e@);
                assert(all.skip(k)[0] == all[k]);
                assert(entries(rest@) =~= all.skip(k + 1)) by {
                    assert forall|j: int| 0 <= j < rest@.len() implies entries(rest@)[j]
                        == all.skip(k + 1)[j] by {
                        assert(rest@[j] == before[j + 1]);
                        assert(entries(before)[j + 1] == all.skip(k)[j + 1]);
                    }
                }
                assert(all.take(k + 1) =~= all.take(k).push(e@));
                all.take(k).lemma_filter_push(e@, pred);
                assert(all.take(k + 1).drop_last() =~= all.take(k));
            }
            if e.matches(side, address) {
                last = Some(e);
            } else {
                kept.push(e);
                assert(entries(kept@) =~= entries(old_kept).push(e@));
            }
            proof {
                k = k + 1;
            }
        }
        assert(entries(rest@).len() == all.skip(k).len());
        assert(all.take(k) =~= all);
        self.items = kept;
        last
    }

    fn take(&mut self, side: usize, address: u32, name: &str) -> (r: Announcer)
        ensures
            final(self)@ == others(old(self)@, Some(side), Some(address)),
            r@ == known(old(self)@, side, address, name@),
            r@.side == side,
            r@.address == address,
    {
        let ghost before = self@;
        proof {
            lemma_found_is(before, Some(side), Some(address));
        }
        match self.drop_where(Some(side), Some(address)) {
            Some(e) => e,
            None => {
                let e = Announcer {
                    side,
                    address,
                    name: name.to_owned(),
                    endpoints: Vec::new(),
                    sources: Vec::new(),
                    boards: Vec::new(),
                    last_seen: 0,
                };
                assert(e@.sources =~= Seq::<Seq<char>>::empty());
                assert(e@.boards =~= Seq::<BoardSpec>::empty());
                e
            },
        }
    }

    fn put(&mut self, e: Announcer)
        ensures
            final(self)@ == old(self)@.push(e@),
    {
        let ghost before = self.items@;
        self.items.push(e);
        assert(self@ =~= entries(before).push(e@));
    }

    /// A board says which endpoints it has.
    pub fn learn_endpoints(
        &mut self,
        side: usize,
        address: u32,
        name: &str,
        endpoints: Vec<DataEndpoint>,
        now: u64,
    )
        ensures
            final(self)@ == noted(
                old(self)@,
                (AnnouncerSpec {
                    endpoints: endpoints@,
                    last_seen: now,
                    ..known(old(self)@, side, address, name@)
                }),
            ),
    {
        let mut e: Announcer = self.take(side, address, name);
        e.endpoints = endpoints;
        e.last_seen = now;
        self.put(e);
    }

    /// A board says which time sources it knows.
    pub fn learn_sources(
        &mut self,
        side: usize,
        address: u32,
        name: &str,
        list: Vec<String>,
        now: u64,
    )
        ensures
            final(self)@ == noted(
                old(self)@,
                (AnnouncerSpec {
                    sources: discovery::texts(list@),
                    last_seen: now,
                    ..known(old(self)@, side, address, name@)
                }),
            ),
    {
        let mut e: Announcer = self.take(side, address, name);
        e.sources = list;
        e.last_seen = now;
        self.put(e);
    }

    /// A board says which boards it knows.
    pub fn learn_boards(
        &mut self,
        side: usize,
        address: u32,
        name: &str,
        list: Vec<TopologyBoardNode>,
        now: u64,
    )
        ensures
            final(self)@ == noted(
                old(self)@,
                (AnnouncerSpec {
                    boards: discovery::boards(list@),
                    last_seen: now,
                    ..known(old(self)@, side, address, name@)
                }),
            ),
    {
        let mut e: Announcer = self.take(side, address, name);
        e.boards = list;
        e.last_seen = now;
        self.put(e);
    }

    /// A board says which endpoints it has and which time sources it knows.
    pub fn learn_reach(
        &mut self,
        side: usize,
        address: u32,
        name: &str,
        endpoints: Vec<DataEndpoint>,
        list: Vec<String>,
        now: u64,
    )
        ensures
            final(self)@ == noted(
                old(self)@,
                (AnnouncerSpec {
                    endpoints: endpoints@,
                    sources: discovery::texts(list@),
                    last_seen: now,
                    ..known(old(self)@, side, address, name@)
                }),
            ),
    {
        let mut e: Announcer = self.take(side, address, name);
        e.endpoints = endpoints;
        e.sources = list;
        e.last_seen = now;
        self.put(e);
    }

    /// Whether a board was heard over a link, or over any where none is given.
    pub fn knows(&self, side: Option<usize>, address: u32) -> (b: bool)
        ensures
            b == (found(self@, side, Some(address)) is Some),
    {
        let mut i: usize = 0;
        assert(self@.take(0) =~= Seq::<AnnouncerSpec>::empty());
        while i < self.items.len()
            invariant
                i <= self.items@.len(),
                found(self@.take(i as int), side, Some(address)) is None,
            decreases self.items@.len() - i,
        {
            assert(self@.take(i + 1).drop_last() =~= self@.take(i as int));
            assert(self@.take(i + 1).last() == self.items@[i as int]@);
            if self.items[i].matches(side, Some(address)) {
                proof {
                    lemma_found_in_part(self@, side, Some(address), i + 1);
                }
                return true;
            }
            i = i + 1;
        }
        assert(self@.take(i as int) =~= self@);
        false
    }

    /// A board was heard.
    pub fn note_alive(&mut self, side: usize, address: u32, name: &str, now: u64)
        ensures
            final(self)@ == noted(
                old(self)@,
                (AnnouncerSpec { last_seen: now, ..known(old(self)@, side, address, name@) }),
            ),
    {
        let mut e: Announcer = self.take(side, address, name);
        e.last_seen = now;
        self.put(e);
    }

    /// A board leaves.
    pub fn leave(&mut self, address: u32)
        ensures
            final(self)@ == others(old(self)@, None, Some(address)),
    {
        let _ = self.drop_where(None, Some(address));
    }

    /// A link goes.
    pub fn drop_side(&mut self, side: usize)
        ensures
            final(self)@ == others(old(self)@, Some(side), None),
    {
        let _ = self.drop_where(Some(side), None);
    }

    /// Whether an endpoint can be reached over a link, or over any where none is given.
    pub fn leads_to(&self, side: Option<usize>, ep: DataEndpoint, now: u64) -> (b: bool)
        ensures
            b == reaches(self@, side, ep, now),
    {
        let mut i: usize = 0;
        while i < self.items.len()
            invariant
                i <= self.items@.len(),
                forall|j: int|
                    0 <= j < i ==> !((#[trigger] self@[j]).is(side, None) && self@[j].live(now)
                        && self@[j].offers(ep)),
            decreases self.items@.len() - i,
        {
            assert(self@[i as int] == self.items@[i as int]@);
            if self.items[i].matches(side, None) && self.items[i].is_live(now)
                && self.items[i].offers_to(ep) {
                return true;
            }
            i = i + 1;
        }
        false
    }

    /// Whether an endpoint can be reached over another link than `side`.
    pub fn leads_elsewhere(&self, side: usize, ep: DataEndpoint, now: u64) -> (b: bool)
        ensures
            b == reaches_elsewhere(self@, side, ep, now),
    {
        let mut i: usize = 0;
        while i < self.items.len()
            invariant
                i <= self.items@.len(),
                forall|j: int|
                    0 <= j < i ==> !((#[trigger] self@[j]).side != side && self@[j].live(now)
                        && self@[j].offers(ep)),
            decreases self.items@.len() - i,
        {
            assert(self@[i as int] == self.items@[i as int]@);
            if self.items[i].side != side && self.items[i].is_live(now)
                && self.items[i].offers_to(ep) {
                return true;
            }
            i = i + 1;
        }
        false
    }

    /// Whether any board was heard of lately.
    pub fn hears_anyone(&self, now: u64) -> (b: bool)
        ensures
            b == anyone(self@, now),
    {
        let mut i: usize = 0;
        while i < self.items.len()
            invariant
                i <= self.items@.len(),
                forall|j: int| 0 <= j < i ==> !(#[trigger] self@[j]).live(now),
            decreases self.items@.len() - i,
        {
            assert(self@[i as int] == self.items@[i as int]@);
            if self.items[i].is_live(now) {
                return true;
            }
            i = i + 1;
        }
        false
    }

    /// How many of the endpoints can be reached over a link.
    pub fn overlap_of(&self, side: usize, eps: &[DataEndpoint], now: u64) -> (n: usize)
        ensures
            n == overlap(self@, side, eps@, now),
    {
        let mut n: usize = 0;
        let mut i: usize = 0;
        let total: usize = eps.len();
        assert(eps@.take(0) =~= Seq::<DataEndpoint>::empty());
        while i < total
            invariant
                i <= total == eps@.len(),
                n <= i,
                n == overlap(self@, side, eps@.take(i as int), now),
            decreases total - i,
        {
            assert(eps@.take(i + 1).drop_last() =~= eps@.take(i as int));
            if self.leads_to(Some(side), eps[i], now) {
                n = n + 1;
            }
            i = i + 1;
        }
        assert(eps@.take(i as int) =~= eps@);
        n
    }

    /// The endpoints that can be reached over a link, or over any, in ascending order.
    pub fn reached_endpoints(&self, side: Option<usize>, now: u64) -> (v: Vec<DataEndpoint>)
        ensures
            v@ == reached(self@, side, now, 256),
    {
        let mut v: Vec<DataEndpoint> = Vec::new();
        let mut i: u32 = 0;
        while i < 256
            invariant
                i <= 256,
                v@ == reached(self@, side, now, i as nat),
            decreases 256 - i,
        {
            if self.leads_to(side, i, now) {
                v.push(i);
            }
            i = i + 1;
        }
        v
    }

    /// The time sources that can be reached over a link, or over any.
    pub fn reached_sources(&self, side: Option<usize>, now: u64) -> (v: Vec<String>)
        ensures
            discovery::texts(v@) == sources(self@, side, now),
    {
        let mut v: Vec<String> = Vec::new();
        let mut i: usize = 0;
        assert(discovery::texts(v@) =~= Seq::<Seq<char>>::empty());
        assert(self@.take(0) =~= Seq::<AnnouncerSpec>::empty());
        while i < self.items.len()
            invariant
                i <= self.items@.len(),
                discovery::texts(v@) == sources(self@.take(i as int), side, now),
            decreases self.items@.len() - i,
        {
            assert(self@.take(i + 1).drop_last() =~= self@.take(i as int));
            assert(self@.take(i + 1).last() == self.items@[i as int]@);
            if self.items[i].matches(side, None) && self.items[i].is_live(now) {
                join_texts(&mut v, &self.items[i].sources);
            }
            i = i + 1;
        }
        assert(self@.take(i as int) =~= self@);
        v
    }

    /// The boards that have one of the endpoints, or all.
    pub fn holders_of(&self, eps: Option<&Vec<DataEndpoint>>, now: u64) -> (v: Vec<u32>)
        ensures
            v@ == holders(
                self@,
                match eps {
                    Some(x) => Some(x@),
                    None => None,
                },
                now,
            ),
    {
        let ghost asked = match eps {
            Some(x) => Some(x@),
            None => None,
        };
        let mut v: Vec<u32> = Vec::new();
        let mut i: usize = 0;
        assert(self@.take(0) =~= Seq::<AnnouncerSpec>::empty());
        while i < self.items.len()
            invariant
                i <= self.items@.len(),
                asked == (match eps {
                    Some(x) => Some(x@),
                    None => None,
                }),
                v@ == holders(self@.take(i as int), asked, now),
            decreases self.items@.len() - i,
        {
            assert(self@.take(i + 1).drop_last() =~= self@.take(i as int));
            assert(self@.take(i + 1).last() == self.items@[i as int]@);
            let e: &Announcer = &self.items[i];
            if e.is_live(now) && e.takes_one(eps) && !codec::contains_u32(
                v.as_slice(),
                e.address,
            ) {
                v.push(e.address);
            }
            i = i + 1;
        }
        assert(self@.take(i as int) =~= self@);
        v
    }

    /// The boards that the boards tell of that were heard of lately, over a link, or over any.
    pub fn boards_told(&self, side: Option<usize>, now: u64) -> (v: Vec<TopologyBoardNode>)
        ensures
            discovery::boards(v@) == told_boards(self@, side, now),
    {
        let mut v: Vec<TopologyBoardNode> = Vec::new();
        let mut i: usize = 0;
        assert(discovery::boards(v@) =~= Seq::<BoardSpec>::empty());
        assert(self@.take(0) =~= Seq::<AnnouncerSpec>::empty());
        while i < self.items.len()
            invariant
                i <= self.items@.len(),
                discovery::boards(v@) == told_boards(self@.take(i as int), side, now),
            decreases self.items@.len() - i,
        {
            assert(self@.take(i + 1).drop_last() =~= self@.take(i as int));
            assert(self@.take(i + 1).last() == self.items@[i as int]@);
            if self.items[i].matches(side, None) && self.items[i].is_live(now) {
                let ghost front = discovery::boards(v@);
                let list: &Vec<TopologyBoardNode> = &self.items[i].boards;
                let ghost all = discovery::boards(list@);
                let mut k: usize = 0;
                assert(front + all.take(0) =~= front);
                while k < list.len()
                    invariant
                        k <= list@.len() == all.len(),
                        all == discovery::boards(list@),
                        discovery::boards(v@) == front + all.take(k as int),
                    decreases list@.len() - k,
                {
                    let ghost before = v@;
                    let b: TopologyBoardNode = list[k].copied();
                    let ghost bv = b@;
                    v.push(b);
                    proof {
                        assert(all[k as int] == bv);
                        assert(discovery::boards(v@) =~= discovery::boards(before).push(bv));
                        assert(front + all.take(k + 1) =~= (front + all.take(k as int)).push(bv));
                    }
                    k = k + 1;
                }
                assert(all.take(k as int) =~= all);
            }
            i = i + 1;
        }
        assert(self@.take(i as int) =~= self@);
        v
    }

    /// The endpoints of the board with a name that was heard of lately, and the link.
    pub fn client(&self, name: &String, now: u64) -> (r: Option<(usize, Vec<DataEndpoint>)>)
        ensures
            match client_entry(self@, name@, now) {
                Some(e) => r matches Some((side, eps)) && side == e.side && eps@ == e.endpoints,
                None => r is None,
            },
    {
        let mut n: usize = self.items.len();
        assert(self@.take(n as int) =~= self@);
        while n > 0
            invariant
                n <= self.items@.len() == self@.len(),
                client_entry(self@, name@, now) == client_entry(
                    self@.take(n as int),
                    name@,
                    now,
                ),
            decreases n,
        {
            assert(self@.take(n as int).drop_last() =~= self@.take(n - 1));
            assert(self@.take(n as int).last() == self.items@[n - 1]@);
            let e: &Announcer = &self.items[n - 1];
            if e.is_live(now) && e.name == *name {
                return Some((e.side, codec::copy_u32(e.endpoints.as_slice())));
            }
            n = n - 1;
        }
        None
    }

    /// The link over which a board was heard of last.
    pub fn board_side(&self, address: u32, now: u64) -> (r: Option<usize>)
        ensures
            r == way_to_board(self@, address, now),
    {
        let mut n: usize = self.items.len();
        assert(self@.take(n as int) =~= self@);
        while n > 0
            invariant
                n <= self.items@.len() == self@.len(),
                way_to_board(self@, address, now) == way_to_board(
                    self@.take(n as int),
                    address,
                    now,
                ),
            decreases n,
        {
            assert(self@.take(n as int).drop_last() =~= self@.take(n - 1));
            assert(self@.take(n as int).last() == self.items@[n - 1]@);
            if self.items[n - 1].is_live(now) && self.items[n - 1].address == address {
                return Some(self.items[n - 1].side);
            }
            n = n - 1;
        }
        None
    }

    /// The link over which a time source can be reached.
    pub fn source_side(&self, name: &String, now: u64) -> (r: Option<usize>)
        ensures
            r == way_to_source(self@, name@, now),
    {
        let mut n: usize = self.items.len();
        assert(self@.take(n as int) =~= self@);
        while n > 0
            invariant
                n <= self.items@.len() == self@.len(),
                way_to_source(self@, name@, now) == way_to_source(self@.take(n as int), name@, now),
            decreases n,
        {
            assert(self@.take(n as int).drop_last() =~= self@.take(n - 1));
            assert(self@.take(n as int).last() == self.items@[n - 1]@);
            if self.items[n - 1].is_live(now) && has_text(&self.items[n - 1].sources, name) {
                return Some(self.items[n - 1].side);
            }
            n = n - 1;
        }
        None
    }

    /// The names of the boards that were heard of lately, over a link, or over any.
    pub fn announcers(&self, side: Option<usize>, now: u64) -> (v: Vec<String>)
        ensures
            discovery::texts(v@) == names(self@, side, now),
    {
        let mut v: Vec<String> = Vec::new();
        let mut i: usize = 0;
        assert(discovery::texts(v@) =~= Seq::<Seq<char>>::empty());
        assert(self@.take(0) =~= Seq::<AnnouncerSpec>::empty());
        while i < self.items.len()
            invariant
                i <= self.items@.len(),
                discovery::texts(v@) == names(self@.take(i as int), side, now),
            decreases self.items@.len() - i,
        {
            assert(self@.take(i + 1).drop_last() =~= self@.take(i as int));
            assert(self@.take(i + 1).last() == self.items@[i as int]@);
            if self.items[i].matches(side, None) && self.items[i].is_live(now) {
                let ghost before = v@;
                let t: String = self.items[i].name.clone();
                v.push(t);
                assert(discovery::texts(v@) =~= discovery::texts(before).push(t@));
            }
            i = i + 1;
        }
        assert(self@.take(i as int) =~= self@);
        v
    }
}

proof fn lemma_found_in_part(
    s: Seq<AnnouncerSpec>,
    side: Option<usize>,
    address: Option<u32>,
    n: int,
)
    requires
        0 <= n <= s.len(),
        found(s.take(n), side, address) is Some,
    ensures
        found(s, side, address) is Some,
    decreases s.len(),
{
    if n < s.len() {
        assert(s.drop_last().take(n) =~= s.take(n));
        lemma_found_in_part(s.drop_last(), side, address, n);
    } else {
        assert(s.take(n) =~= s);
    }
}

proof fn lemma_found_is(s: Seq<AnnouncerSpec>, side: Option<usize>, address: Option<u32>)
    ensures
        found(s, side, address) matches Some(e) ==> e.is(side, address),
    decreases s.len(),
{
    if s.len() > 0 {
        lemma_found_is(s.drop_last(), side, address);
    }
}

} // verus!
