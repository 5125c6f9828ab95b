//! Frames that leave out what the frames before them said.
use vstd::prelude::*;
use crate::codec;
use crate::crc32;
use crate::varint;

verus! {

/// A frame with a known head goes out whole again after this many short ones.
pub const TEMPLATE_REFRESH: u8 = 8;

/// The bytes of the number at the front of `s`, and what follows them.
pub open spec fn span(s: Seq<u8>) -> Option<(Seq<u8>, Seq<u8>)> {
    match varint::read_uleb(s) {
        Ok((_, rest)) => Some((s.take(s.len() - rest.len()), rest)),
        Err(_) => None,
    }
}

/// The parts of a frame, as values.
pub struct Cut {
    pub flags: u8,
    pub ty: Seq<u8>,
    pub size: Seq<u8>,
    pub timestamp: Seq<u8>,
    pub address: Seq<u8>,
    pub nonce: Seq<u8>,
    pub bitmap: Seq<u8>,
    pub rest: Seq<u8>,
}

/// Bytes of the set of endpoints in a frame.
pub open spec fn bitmap_len(flags: u8) -> int {
    if (flags / 32) % 2 == 1 {
        32
    } else {
        0
    }
}

/// The parts of a frame without its checksum.
pub open spec fn cut(b: Seq<u8>) -> Option<Cut> {
    if b.len() == 0 {
        None
    } else {
        match span(b.skip(1)) {
            None => None,
            Some((ty, r1)) => match span(r1) {
                None => None,
                Some((size, r2)) => match span(r2) {
                    None => None,
                    Some((timestamp, r3)) => match span(r3) {
                        None => None,
                        Some((address, r4)) => match span(r4) {
                            None => None,
                            Some((nonce, r5)) => if r5.len() < bitmap_len(b[0]) {
                                None
                            } else {
                                Some(
                                    Cut {
                                        flags: b[0],
                                        ty,
                                        size,
                                        timestamp,
                                        address,
                                        nonce,
                                        bitmap: r5.take(bitmap_len(b[0])),
                                        rest: r5.skip(bitmap_len(b[0])),
                                    },
                                )
                            },
                        },
                    },
                },
            },
        }
    }
}

impl Cut {
    /// The frame that the parts make.
    pub open spec fn joined(self) -> Seq<u8> {
        seq![self.flags] + (self.ty + (self.size + (self.timestamp + (self.address + (self.nonce
            + (self.bitmap + self.rest))))))
    }

    /// What frames of one kind have in common.
    pub open spec fn template(self) -> Seq<u8> {
        seq![self.flags] + (self.ty + (self.address + self.bitmap))
    }

    /// What a frame says beyond that.
    pub open spec fn variable(self) -> Seq<u8> {
        self.size + (self.timestamp + (self.nonce + self.rest))
    }
}

/// The frame that a common and a variable part make.
#[verifier::opaque]
pub open spec fn rebuilt(t: Seq<u8>, v: Seq<u8>) -> Option<Seq<u8>> {
    if t.len() == 0 {
        None
    } else {
        match (span(t.skip(1)), span(v)) {
            (Some((ty, t1)), Some((size, v1))) => match (span(t1), span(v1)) {
                (Some((address, bitmap)), Some((timestamp, v2))) => match span(v2) {
                    Some((nonce, rest)) => Some(
                        Cut {
                            flags: t[0],
                            ty,
                            size,
                            timestamp,
                            address,
                            nonce,
                            bitmap,
                            rest,
                        }.joined(),
                    ),
                    None => None,
                },
                _ => None,
            },
            _ => None,
        }
    }
}

proof fn lemma_span(s: Seq<u8>, t: Seq<u8>)
    ensures
        span(s) matches Some((a, r)) ==> s == a + r && span(a + t) == Some((a, t)),
{
    varint::lemma_read_uleb_suffix(s);
    varint::lemma_read_uleb_prefix(s, t);
    if let Some((a, r)) = span(s) {
        assert(s =~= a + r);
        assert((a + t).take((a + t).len() - t.len()) =~= a);
    }
}

/// The parts of a frame make the frame.
pub proof fn lemma_cut_joins(b: Seq<u8>)
    ensures
        cut(b) matches Some(c) ==> c.joined() == b,
{
    if let Some(c) = cut(b) {
        let r0 = b.skip(1);
        lemma_span(r0, r0);
        let (_, r1) = span(r0)->0;
        lemma_span(r1, r1);
        let (_, r2) = span(r1)->0;
        lemma_span(r2, r2);
        let (_, r3) = span(r2)->0;
        lemma_span(r3, r3);
        let (_, r4) = span(r3)->0;
        lemma_span(r4, r4);
        let (_, r5) = span(r4)->0;
        assert(r5 =~= c.bitmap + c.rest);
        assert(b =~= seq![b[0]] + r0);
    }
}

/// A frame can be had back from its common and its variable part.
pub proof fn lemma_rebuilt(b: Seq<u8>)
    ensures
        cut(b) matches Some(c) ==> rebuilt(c.template(), c.variable()) == Some(b),
{
    reveal(rebuilt);
    if let Some(c) = cut(b) {
        lemma_cut_joins(b);
        let r0 = b.skip(1);
        lemma_span(r0, c.address + c.bitmap);
        let (_, r1) = span(r0)->0;
        lemma_span(r1, c.timestamp + (c.nonce + c.rest));
        let (_, r2) = span(r1)->0;
        lemma_span(r2, c.nonce + c.rest);
        let (_, r3) = span(r2)->0;
        lemma_span(r3, c.bitmap);
        let (_, r4) = span(r3)->0;
        lemma_span(r4, c.rest);
        assert(c.template().skip(1) =~= c.ty + (c.address + c.bitmap));
        assert(c.template()[0] == c.flags);
    }
}

/// The parts of a frame.
pub struct Parts {
    pub flags: u8,
    pub ty: Vec<u8>,
    pub size: Vec<u8>,
    pub timestamp: Vec<u8>,
    pub address: Vec<u8>,
    pub nonce: Vec<u8>,
    pub bitmap: Vec<u8>,
    pub rest: Vec<u8>,
}

impl View for Parts {
    type V = Cut;

    open spec fn view(&self) -> Cut {
        Cut {
            flags: self.flags,
            ty: self.ty@,
            size: self.size@,
            timestamp: self.timestamp@,
            address: self.address@,
            nonce: self.nonce@,
            bitmap: self.bitmap@,
            rest: self.rest@,
        }
    }
}

fn span_at(b: &[u8], pos: usize) -> (r: Option<(Vec<u8>, usize)>)
    requires
        pos <= b@.len(),
    ensures
        match span(b@.skip(pos as int)) {
            Some((a, rest)) => r matches Some((v, end)) && v@ == a && pos <= end <= b@.len()
                && rest == b@.skip(end as int),
            None => r is None,
        },
{
    match varint::read_uleb_at(b, pos) {
        Ok((_, end)) => {
            let v: Vec<u8> = codec::copy_range(b, pos, end);
            proof {
                let s = b@.skip(pos as int);
                let rest = b@.skip(end as int);
                assert(v@ =~= s.take(s.len() - rest.len()));
            }
            Some((v, end))
        },
        Err(_) => None,
    }
}

/// Takes a frame without its checksum apart.
pub fn cut_of(b: &[u8]) -> (r: Option<Parts>)
    ensures
        match cut(b@) {
            Some(c) => r matches Some(p) && p@ == c,
            None => r is None,
        },
{
    let total: usize = b.len();
    if total == 0 {
        return None;
    }
    let flags: u8 = b[0];
    let (ty, p1): (Vec<u8>, usize) = match span_at(b, 1) {
        Some(x) => x,
        None => return None,
    };
    let (size, p2): (Vec<u8>, usize) = match span_at(b, p1) {
        Some(x) => x,
        None => return None,
    };
    let (timestamp, p3): (Vec<u8>, usize) = match span_at(b, p2) {
        Some(x) => x,
        None => return None,
    };
    let (address, p4): (Vec<u8>, usize) = match span_at(b, p3) {
        Some(x) => x,
        None => return None,
    };
    let (nonce, p5): (Vec<u8>, usize) = match span_at(b, p4) {
        Some(x) => x,
        None => return None,
    };
    let n: usize = if (flags / 32) % 2 == 1 {
        32
    } else {
        0
    };
    if total - p5 < n {
        return None;
    }
    let bitmap: Vec<u8> = codec::copy_range(b, p5, p5 + n);
    let rest: Vec<u8> = codec::copy_range(b, p5 + n, total);
    proof {
        let r5 = b@.skip(p5 as int);
        assert(bitmap@ =~= r5.take(n as int));
        assert(rest@ =~= r5.skip(n as int));
    }
    Some(Parts { flags, ty, size, timestamp, address, nonce, bitmap, rest })
}

impl Parts {
    /// What frames of one kind have in common.
    pub fn template(&self) -> (out: Vec<u8>)
        ensures
            out@ == self@.template(),
    {
        let mut out: Vec<u8> = Vec::new();
        out.push(self.flags);
        codec::write_bytes(&mut out, self.ty.as_slice());
        codec::write_bytes(&mut out, self.address.as_slice());
        codec::write_bytes(&mut out, self.bitmap.as_slice());
        assert(out@ =~= self@.template());
        out
    }

    /// What a frame says beyond that.
    pub fn variable(&self) -> (out: Vec<u8>)
        ensures
            out@ == self@.variable(),
    {
        let mut out: Vec<u8> = Vec::new();
        codec::write_bytes(&mut out, self.size.as_slice());
        codec::write_bytes(&mut out, self.timestamp.as_slice());
        codec::write_bytes(&mut out, self.nonce.as_slice());
        codec::write_bytes(&mut out, self.rest.as_slice());
        assert(out@ =~= self@.variable());
        out
    }

    /// The frame that the parts make.
    pub fn join(&self) -> (out: Vec<u8>)
        ensures
            out@ == self@.joined(),
    {
        let mut out: Vec<u8> = Vec::new();
        out.push(self.flags);
        codec::write_bytes(&mut out, self.ty.as_slice());
        codec::write_bytes(&mut out, self.size.as_slice());
        codec::write_bytes(&mut out, self.timestamp.as_slice());
        codec::write_bytes(&mut out, self.address.as_slice());
        codec::write_bytes(&mut out, self.nonce.as_slice());
        codec::write_bytes(&mut out, self.bitmap.as_slice());
        codec::write_bytes(&mut out, self.rest.as_slice());
        assert(out@ =~= self@.joined());
        out
    }
}

/// Makes a frame of a common and a variable part.
pub fn rebuild(t: &[u8], v: &[u8]) -> (r: Option<Vec<u8>>)
    ensures
        match rebuilt(t@, v@) {
            Some(b) => r matches Some(x) && x@ == b,
            None => r is None,
        },
{
    reveal(rebuilt);
    let tl: usize = t.len();
    let vl: usize = v.len();
    if tl == 0 {
        return None;
    }
    assert(v@.skip(0) =~= v@);
    let (ty, t1): (Vec<u8>, usize) = match span_at(t, 1) {
        Some(x) => x,
        None => return None,
    };
    let (size, v1): (Vec<u8>, usize) = match span_at(v, 0) {
        Some(x) => x,
        None => return None,
    };
    let (address, t2): (Vec<u8>, usize) = match span_at(t, t1) {
        Some(x) => x,
        None => return None,
    };
    let (timestamp, v2): (Vec<u8>, usize) = match span_at(v, v1) {
        Some(x) => x,
        None => return None,
    };
    let (nonce, v3): (Vec<u8>, usize) = match span_at(v, v2) {
        Some(x) => x,
        None => return None,
    };
    let bitmap: Vec<u8> = codec::copy_range(t, t2, tl);
    let rest: Vec<u8> = codec::copy_range(v, v3, vl);
    assert(bitmap@ =~= t@.skip(t2 as int));
    assert(rest@ =~= v@.skip(v3 as int));
    let p = Parts { flags: t[0], ty, size, timestamp, address, nonce, bitmap, rest };
    Some(p.join())
}

/// A common part that both ends of a link know, as a value.
pub struct TemplateSpec {
    pub bytes: Seq<u8>,
    /// How many frames have used it since it last went out to be learnt.
    pub uses: u8,
}

/// A common part that both ends of a link know.
pub struct Template {
    pub bytes: Vec<u8>,
    pub uses: u8,
}

impl View for Template {
    type V = TemplateSpec;

    open spec fn view(&self) -> TemplateSpec {
        TemplateSpec { bytes: self.bytes@, uses: self.uses }
    }
}

/// The number of a common part.
pub open spec fn template_id(t: Seq<u8>) -> u32 {
    crc32::crc32(t)
}

/// The place of a common part.
pub open spec fn place_of(d: Seq<TemplateSpec>, t: Seq<u8>) -> Option<int>
    decreases d.len(),
{
    if d.len() == 0 {
        None
    } else if d.last().bytes == t {
        Some(d.len() - 1)
    } else {
        place_of(d.drop_last(), t)
    }
}

/// The common part with a number.
pub open spec fn with_id(d: Seq<TemplateSpec>, id: u32) -> Option<Seq<u8>>
    decreases d.len(),
{
    if d.len() == 0 {
        None
    } else if template_id(d.last().bytes) == id {
        Some(d.last().bytes)
    } else {
        with_id(d.drop_last(), id)
    }
}

/// The last `n` common parts.
pub open spec fn latest(d: Seq<TemplateSpec>, n: nat) -> Seq<TemplateSpec> {
    if d.len() <= n {
        d
    } else {
        d.skip(d.len() - n)
    }
}

/// What is known after a common part came for the first time: where there is no room, the one
/// that came first is forgotten.
pub open spec fn learnt(d: Seq<TemplateSpec>, capacity: nat, t: Seq<u8>) -> Seq<TemplateSpec> {
    latest(d.push(TemplateSpec { bytes: t, uses: 0 }), capacity)
}

/// What the receiving end knows after a frame came whole.
pub open spec fn heard(d: Seq<TemplateSpec>, capacity: nat, t: Seq<u8>) -> Seq<TemplateSpec> {
    if place_of(d, t) is Some {
        d
    } else {
        learnt(d, capacity, t)
    }
}

/// Whether a frame with this common part goes out short: the other end knows the part, and no
/// later one has its number.
pub open spec fn goes_short(d: Seq<TemplateSpec>, t: Seq<u8>) -> bool {
    &&& place_of(d, t) matches Some(i) && d[i].uses < TEMPLATE_REFRESH
    &&& with_id(d, template_id(t)) == Some(t)
}

/// What the sending end knows after a frame with this common part went out.
pub open spec fn said(d: Seq<TemplateSpec>, capacity: nat, t: Seq<u8>) -> Seq<TemplateSpec> {
    match place_of(d, t) {
        Some(i) => d.update(
            i,
            TemplateSpec {
                bytes: t,
                uses: if d[i].uses < TEMPLATE_REFRESH {
                    (d[i].uses + 1) as u8
                } else {
                    0
                },
            },
        ),
        None => learnt(d, capacity, t),
    }
}

proof fn lemma_place_bounds(d: Seq<TemplateSpec>, t: Seq<u8>)
    ensures
        place_of(d, t) matches Some(i) ==> 0 <= i < d.len() && d[i].bytes == t,
    decreases d.len(),
{
    if d.len() > 0 && d.last().bytes != t {
        lemma_place_bounds(d.drop_last(), t);
    }
}

/// Whatever is sent or comes, no more common parts are kept than there is room for.
pub proof fn lemma_dictionary_is_bounded(d: Seq<TemplateSpec>, capacity: nat, t: Seq<u8>)
    requires
        d.len() <= capacity,
    ensures
        said(d, capacity, t).len() <= capacity,
        heard(d, capacity, t).len() <= capacity,
{
    lemma_place_bounds(d, t);
}

/// The common parts alone.
pub open spec fn parts_of(d: Seq<TemplateSpec>) -> Seq<Seq<u8>> {
    d.map_values(|x: TemplateSpec| x.bytes)
}

proof fn lemma_parts_decide(a: Seq<TemplateSpec>, b: Seq<TemplateSpec>, t: Seq<u8>, id: u32)
    requires
        parts_of(a) == parts_of(b),
    ensures
        place_of(a, t) == place_of(b, t),
        with_id(a, id) == with_id(b, id),
    decreases a.len(),
{
    assert(a.len() == parts_of(a).len() == parts_of(b).len() == b.len());
    if a.len() > 0 {
        assert(parts_of(a).last() == a.last().bytes);
        assert(parts_of(b).last() == b.last().bytes);
        assert(parts_of(a.drop_last()) =~= parts_of(a).drop_last());
        assert(parts_of(b.drop_last()) =~= parts_of(b).drop_last());
        lemma_parts_decide(a.drop_last(), b.drop_last(), t, id);
    }
}

/// Two ends that know the same parts, and have the same room, know the same parts after each
/// frame that comes whole; and a part that makes the sender send short is known to the receiver
/// by its number.
pub proof fn lemma_ends_stay_in_step(
    tx: Seq<TemplateSpec>,
    rx: Seq<TemplateSpec>,
    capacity: nat,
    t: Seq<u8>,
)
    requires
        parts_of(tx) == parts_of(rx),
    ensures
        parts_of(said(tx, capacity, t)) == parts_of(heard(rx, capacity, t)),
        goes_short(tx, t) ==> with_id(rx, template_id(t)) == Some(t) && parts_of(
            said(tx, capacity, t),
        ) == parts_of(rx),
{
    lemma_parts_decide(tx, rx, t, template_id(t));
    lemma_place_bounds(tx, t);
    assert(tx.len() == parts_of(tx).len() == parts_of(rx).len() == rx.len());
    let x = TemplateSpec { bytes: t, uses: 0 };
    assert(parts_of(tx.push(x)) =~= parts_of(tx).push(t));
    assert(parts_of(rx.push(x)) =~= parts_of(rx).push(t));
    let n = tx.push(x).len() - capacity;
    if place_of(tx, t) is None {
        if n > 0 {
            assert(parts_of(tx.push(x).skip(n)) =~= parts_of(tx.push(x)).skip(n));
            assert(parts_of(rx.push(x).skip(n)) =~= parts_of(rx.push(x)).skip(n));
        }
    } else {
        assert forall|i: int| 0 <= i < tx.len() implies parts_of(said(tx, capacity, t))[i]
            == parts_of(rx)[i] by {
            assert(parts_of(tx)[i] == tx[i].bytes);
        }
        assert(parts_of(said(tx, capacity, t)) =~= parts_of(rx));
    }
}

/// Common parts as values.
pub open spec fn templates(v: Seq<Template>) -> Seq<TemplateSpec> {
    v.map_values(|x: Template| x@)
}

/// The common parts that an end of a link knows.
pub struct Dictionary {
    items: Vec<Template>,
}

impl View for Dictionary {
    type V = Seq<TemplateSpec>;

    closed spec fn view(&self) -> Seq<TemplateSpec> {
        templates(self.items@)
    }
}

impl Dictionary {
    pub fn new() -> (r: Dictionary)
        ensures
            r@ == Seq::<TemplateSpec>::empty(),
    {
        let r = Dictionary { items: Vec::new() };
        assert(r@ =~= Seq::<TemplateSpec>::empty());
        r
    }

    pub fn len(&self) -> (n: usize)
        ensures
            n == self@.len(),
    {
        self.items.len()
    }

    /// Forgets everything.
    pub fn clear(&mut self)
        ensures
            final(self)@ == Seq::<TemplateSpec>::empty(),
    {
        self.items = Vec::new();
        assert(self@ =~= Seq::<TemplateSpec>::empty());
    }

    /// Forgets what came first, until no more than `capacity` are left; says how many.
    pub fn shrink(&mut self, capacity: usize) -> (n: usize)
        ensures
            final(self)@ == latest(old(self)@, capacity as nat),
            n == old(self)@.len() - final(self)@.len(),
    {
        let total: usize = self.items.len();
        let mut n: usize = 0;
        let ghost all = self@;
        assert(self@ =~= all.skip(0));
        while self.items.len() > capacity
            invariant
                all == old(self)@,
                n <= all.len() == total,
                self@ == all.skip(n as int),
                n > 0 ==> self@.len() >= capacity,
            decreases self.items@.len(),
        {
            let ghost before = self.items@;
            assert(self@.len() == self.items@.len());
            let _ = self.items.remove(0);
            proof {
                assert(self@ =~= templates(before).skip(1));
                assert(all.skip(n as int).skip(1) =~= all.skip(n + 1));
            }
            n = n + 1;
        }
        assert(self@.len() == self.items@.len());
        n
    }

    fn place(&self, t: &[u8]) -> (r: Option<usize>)
        ensures
            match place_of(self@, t@) {
                Some(i) => r matches Some(k) && k == i && k < self@.len(),
                None => r is None,
            },
    {
        let mut n: usize = self.items.len();
        proof {
            assert(self@.take(n as int) =~= self@);
            lemma_place_bounds(self@, t@);
        }
        while n > 0
            invariant
                n <= self.items@.len() == self@.len(),
                place_of(self@, t@) == place_of(self@.take(n as int), t@),
            decreases n,
        {
            assert(self@.take(n as int).drop_last() =~= self@.take(n - 1));
            assert(self@.take(n as int).last() == self.items@[n - 1]@);
            if codec::same_bytes(self.items[n - 1].bytes.as_slice(), t) {
                return Some(n - 1);
            }
            n = n - 1;
        }
        None
    }

    /// The common part with a number.
    pub fn find(&self, id: u32) -> (r: Option<&Vec<u8>>)
        ensures
            match with_id(self@, id) {
                Some(t) => r matches Some(v) && v@ == t,
                None => r is None,
            },
    {
        let mut n: usize = self.items.len();
        assert(self@.take(n as int) =~= self@);
        while n > 0
            invariant
                n <= self.items@.len() == self@.len(),
                with_id(self@, id) == with_id(self@.take(n as int), id),
            decreases n,
        {
            assert(self@.take(n as int).drop_last() =~= self@.take(n - 1));
            assert(self@.take(n as int).last() == self.items@[n - 1]@);
            let t: &Vec<u8> = &self.items[n - 1].bytes;
            assert(t@.take(t@.len() as int) =~= t@);
            if crc32::crc32_of(t.as_slice(), t.len()) == id {
                return Some(t);
            }
            n = n - 1;
        }
        None
    }

    fn learn(&mut self, capacity: usize, t: Vec<u8>) -> (n: usize)
        ensures
            final(self)@ == learnt(old(self)@, capacity as nat, t@),
            n == old(self)@.len() + 1 - final(self)@.len(),
    {
        let ghost before = self.items@;
        let x = Template { bytes: t, uses: 0 };
        let ghost xv = x@;
        self.items.push(x);
        assert(self@ =~= templates(before).push(xv));
        self.shrink(capacity)
    }

    /// A frame with this common part came whole; says how many are forgotten.
    pub fn hear(&mut self, capacity: usize, t: Vec<u8>) -> (n: usize)
        ensures
            final(self)@ == heard(old(self)@, capacity as nat, t@),
            n == (if place_of(old(self)@, t@) is Some {
                0
            } else {
                old(self)@.len() + 1 - final(self)@.len()
            }),
    {
        if self.place(t.as_slice()).is_some() {
            0
        } else {
            self.learn(capacity, t)
        }
    }

    /// A frame with this common part goes out; says whether it goes short, and how many are
    /// forgotten.
    pub fn say(&mut self, capacity: usize, t: Vec<u8>) -> (r: (bool, usize))
        ensures
            final(self)@ == said(old(self)@, capacity as nat, t@),
            r.0 == goes_short(old(self)@, t@),
            r.1 == (if place_of(old(self)@, t@) is Some {
                0
            } else {
                old(self)@.len() + 1 - final(self)@.len()
            }),
    {
        match self.place(t.as_slice()) {
            Some(i) => {
                proof {
                    lemma_place_bounds(self@, t@);
                }
                let ghost before = self.items@;
                assert(before[i as int]@ == self@[i as int]);
                assert(t@.take(t@.len() as int) =~= t@);
                let found: bool = match self.find(crc32::crc32_of(t.as_slice(), t.len())) {
                    Some(v) => codec::same_bytes(v.as_slice(), t.as_slice()),
                    None => false,
                };
                let young: bool = self.items[i].uses < TEMPLATE_REFRESH;
                let uses: u8 = if young {
                    self.items[i].uses + 1
                } else {
                    0
                };
                let x = Template { bytes: t, uses };
                let ghost xv = x@;
                self.items.set(i, x);
                assert(self@ =~= templates(before).update(i as int, xv));
                (young && found, 0)
            },
            None => {
                let n: usize = self.learn(capacity, t);
                (false, n)
            },
        }
    }
}

proof fn lemma_named_part(d: Seq<TemplateSpec>, t: Seq<u8>)
    requires
        d.len() > 0,
        d.last().bytes == t,
    ensures
        place_of(d, t) == Some(d.len() - 1),
        with_id(d, template_id(t)) == Some(t),
{
}

/// The first frame with a common part goes out whole, and the next with the same part short.
pub proof fn lemma_next_goes_short(d: Seq<TemplateSpec>, capacity: nat, t: Seq<u8>)
    requires
        capacity > 0,
        place_of(d, t) is None,
    ensures
        !goes_short(d, t),
        goes_short(said(d, capacity, t), t),
        place_of(said(d, capacity, t), t) matches Some(i) && said(d, capacity, t)[i].uses == 0,
{
    let e = TemplateSpec { bytes: t, uses: 0 };
    let all = d.push(e);
    let after = said(d, capacity, t);
    assert(all.last() == e);
    if all.len() > capacity {
        assert(all.skip(all.len() - capacity).last() == e);
    }
    lemma_named_part(after, t);
}

/// A common part that both ends know, and under whose number there is no other, is used to shorten
/// as many frames as it may, each of which counts as one use; then it is said again, and counts
/// anew.
pub proof fn lemma_parts_are_said_again(d: Seq<TemplateSpec>, capacity: nat, t: Seq<u8>, i: int)
    requires
        place_of(d, t) == Some(i),
        with_id(d, template_id(t)) == Some(t),
    ensures
        0 <= i < d.len(),
        goes_short(d, t) <==> d[i].uses < TEMPLATE_REFRESH,
        goes_short(d, t) ==> said(d, capacity, t)[i].uses == d[i].uses + 1,
        !goes_short(d, t) ==> said(d, capacity, t)[i].uses == 0,
        said(d, capacity, t).len() == d.len(),
        said(d, capacity, t)[i].bytes == t,
        forall|k: int| 0 <= k < d.len() && k != i ==> #[trigger] said(d, capacity, t)[k] == d[k],
{
    lemma_place_bounds(d, t);
}

/// What is kept of common parts are the latest, in the order in which they came: where there is no
/// room, the first is given up.
pub proof fn lemma_latest_parts_are_kept(d: Seq<TemplateSpec>, capacity: nat, t: Seq<u8>)
    requires
        place_of(d, t) is None,
        d.len() <= capacity,
        capacity > 0,
    ensures
        heard(d, capacity, t).last().bytes == t,
        d.len() < capacity ==> heard(d, capacity, t).drop_last() == d,
        d.len() == capacity ==> heard(d, capacity, t).drop_last() == d.skip(1),
{
    let e = TemplateSpec { bytes: t, uses: 0 };
    let all = d.push(e);
    assert(all.drop_last() =~= d);
    if d.len() == capacity {
        assert(all.skip(1).drop_last() =~= d.skip(1));
        assert(all.skip(1).last() == e);
    }
}

} // verus!
