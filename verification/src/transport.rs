//! What goes over a link in place of a frame.
use vstd::prelude::*;
use crate::chunks;
use crate::chunks::Reassembly;
use crate::codec;
use crate::compact;
use crate::compact::{Cut, Dictionary, Parts, TemplateSpec};
use crate::crc32;
use crate::discovery;
use crate::discovery::{
    LinkCapabilities,
    LINK_CAPABILITY_CHUNKING,
    LINK_CAPABILITY_END_TO_END_RELIABILITY,
    LINK_CAPABILITY_HEADER_TEMPLATES,
    LINK_CAPABILITY_OMIT_UNCHANGED_TIMESTAMPS,
    LINK_CAPABILITY_RELIABILITY,
    LINK_PROFILE_IPV4_LIKE,
    LINK_PROFILE_IPV6_LIKE,
    LINK_PROFILE_PLAIN,
    LINK_PROFILE_TEMPLATE,
};
use crate::error::{TelemetryError, TelemetryResult};
use crate::meta::{TY_DISCOVERY_ADDRESS, TY_RELIABLE_ACK, TY_TIMESYNC_RESPONSE};
use crate::packet::{Packet, PacketSpec};
use crate::varint;
use crate::wire_format;

verus! {

/// The kind of a frame that goes over a link whole.
pub const SIDE_TRANSPORT_KIND_FULL: u8 = 1;

/// The kind of a frame that goes over a link without its common part.
pub const SIDE_TRANSPORT_KIND_COMPACT: u8 = 2;

/// Bytes around the payload of a short frame that are aimed at, where a link is like IPv4.
pub const IPV4_LIKE_COMPACT_HEADER_TARGET_BYTES: usize = 20;

/// Bytes around the payload of a short frame that are aimed at, where a link is like IPv6.
pub const IPV6_LIKE_COMPACT_HEADER_TARGET_BYTES: usize = 40;

/// Common parts that a link keeps, unless it is told otherwise.
pub const DEFAULT_SIDE_TRANSPORT_TEMPLATES: usize = 32;

/// How a link is used.
#[derive(Debug, Clone, Copy, PartialEq, Eq, Structural)]
pub struct LinkOptions {
    /// Frames are numbered and sent again where they are lost.
    pub reliable: bool,
    /// Frames go out without what the frames before them said.
    pub templates: bool,
    /// The other end is told that timestamps that do not change may be left out. This end sends
    /// them always.
    pub omit_timestamps: bool,
    /// The longest frame that the link takes; zero where it takes any.
    pub max_frame: usize,
    /// Bytes around the payload of a short frame that are aimed at; zero where none are.
    pub target: usize,
    /// Common parts that are kept.
    pub max_templates: usize,
}

pub open spec fn flag(b: bool, x: u32) -> int {
    if b {
        x as int
    } else {
        0
    }
}

pub open spec fn clipped(x: usize) -> u32 {
    if x > u32::MAX {
        u32::MAX
    } else {
        x as u32
    }
}

fn clip(x: usize) -> (r: u32)
    ensures
        r == clipped(x),
{
    if x > 0xFFFF_FFFF {
        0xFFFF_FFFF
    } else {
        x as u32
    }
}

impl LinkOptions {
    /// A link that takes any frame, as it is.
    pub open spec fn unchanged() -> LinkOptions {
        LinkOptions {
            reliable: false,
            templates: false,
            omit_timestamps: false,
            max_frame: 0,
            target: 0,
            max_templates: DEFAULT_SIDE_TRANSPORT_TEMPLATES,
        }
    }

    /// A link that takes any frame, as it is.
    pub fn plain() -> (r: LinkOptions)
        ensures
            r == LinkOptions::unchanged(),
    {
        LinkOptions {
            reliable: false,
            templates: false,
            omit_timestamps: false,
            max_frame: 0,
            target: 0,
            max_templates: DEFAULT_SIDE_TRANSPORT_TEMPLATES,
        }
    }

    /// The kind of link that is aimed at.
    pub open spec fn profile(self) -> u8 {
        if !self.templates {
            LINK_PROFILE_PLAIN
        } else if self.target == IPV4_LIKE_COMPACT_HEADER_TARGET_BYTES {
            LINK_PROFILE_IPV4_LIKE
        } else if self.target == IPV6_LIKE_COMPACT_HEADER_TARGET_BYTES {
            LINK_PROFILE_IPV6_LIKE
        } else {
            LINK_PROFILE_TEMPLATE
        }
    }

    /// What a board says of a link.
    pub open spec fn announced(self) -> LinkCapabilities {
        LinkCapabilities {
            version: 1,
            flags: (flag(self.templates, LINK_CAPABILITY_HEADER_TEMPLATES) + flag(
                self.max_frame > 0,
                LINK_CAPABILITY_CHUNKING,
            ) + flag(self.reliable, LINK_CAPABILITY_RELIABILITY) + flag(
                self.reliable,
                LINK_CAPABILITY_END_TO_END_RELIABILITY,
            ) + flag(self.omit_timestamps, LINK_CAPABILITY_OMIT_UNCHANGED_TIMESTAMPS)) as u32,
            profile: self.profile(),
            max_frame_bytes: clipped(self.max_frame),
            compact_header_target_bytes: clipped(self.target),
            max_side_transport_templates: clipped(self.max_templates),
        }
    }

    pub fn profile_number(&self) -> (r: u8)
        ensures
            r == self.profile(),
    {
        if !self.templates {
            LINK_PROFILE_PLAIN
        } else if self.target == IPV4_LIKE_COMPACT_HEADER_TARGET_BYTES {
            LINK_PROFILE_IPV4_LIKE
        } else if self.target == IPV6_LIKE_COMPACT_HEADER_TARGET_BYTES {
            LINK_PROFILE_IPV6_LIKE
        } else {
            LINK_PROFILE_TEMPLATE
        }
    }

    /// The name of the kind of link that is aimed at.
    pub fn profile_name(&self) -> (r: &'static str)
        ensures
            self.profile() == LINK_PROFILE_PLAIN ==> r@ == "plain"@,
            self.profile() == LINK_PROFILE_TEMPLATE ==> r@ == "template"@,
            self.profile() == LINK_PROFILE_IPV4_LIKE ==> r@ == "ipv4_like"@,
            self.profile() == LINK_PROFILE_IPV6_LIKE ==> r@ == "ipv6_like"@,
    {
        let n: u8 = self.profile_number();
        if n == LINK_PROFILE_PLAIN {
            "plain"
        } else if n == LINK_PROFILE_IPV4_LIKE {
            "ipv4_like"
        } else if n == LINK_PROFILE_IPV6_LIKE {
            "ipv6_like"
        } else {
            "template"
        }
    }

    /// What a board says of a link.
    pub fn capabilities(&self) -> (r: LinkCapabilities)
        ensures
            r == self.announced(),
    {
        let mut flags: u32 = 0;
        if self.templates {
            flags = flags + LINK_CAPABILITY_HEADER_TEMPLATES;
        }
        if self.max_frame > 0 {
            flags = flags + LINK_CAPABILITY_CHUNKING;
        }
        if self.reliable {
            flags = flags + LINK_CAPABILITY_RELIABILITY + LINK_CAPABILITY_END_TO_END_RELIABILITY;
        }
        if self.omit_timestamps {
            flags = flags + LINK_CAPABILITY_OMIT_UNCHANGED_TIMESTAMPS;
        }
        LinkCapabilities {
            version: 1,
            flags,
            profile: self.profile_number(),
            max_frame_bytes: clip(self.max_frame),
            compact_header_target_bytes: clip(self.target),
            max_side_transport_templates: clip(self.max_templates),
        }
    }
}

/// A frame of a link.
pub open spec fn wrapped(kind: u8, body: Seq<u8>) -> Seq<u8> {
    wire_format::sealed(chunks::mark(kind) + body)
}

/// The kind and the body of a frame of a link.
#[verifier::opaque]
pub open spec fn opened(w: Seq<u8>) -> Option<(u8, Seq<u8>)> {
    if w.len() >= 8 && (chunks::marked(w, SIDE_TRANSPORT_KIND_FULL) || chunks::marked(
        w,
        SIDE_TRANSPORT_KIND_COMPACT,
    )) {
        match wire_format::checked_body(w) {
            Ok(b) => Some((w[3], b.skip(4))),
            Err(_) => None,
        }
    } else {
        None
    }
}

proof fn lemma_wrapped_opens(kind: u8, body: Seq<u8>)
    requires
        kind == SIDE_TRANSPORT_KIND_FULL || kind == SIDE_TRANSPORT_KIND_COMPACT,
    ensures
        opened(wrapped(kind, body)) == Some((kind, body)),
{
    reveal(opened);
    let b = chunks::mark(kind) + body;
    let w = wrapped(kind, body);
    wire_format::lemma_seal(b);
    assert(w[0] == b[0] && w[1] == b[1] && w[2] == b[2] && w[3] == b[3]);
    assert(b.skip(4) =~= body);
}

/// Whether frames of a kind always go out whole: messages of the network itself, and frames that
/// are numbered.
pub open spec fn stands_alone(c: Cut) -> bool {
    ||| (c.flags / 8) % 2 == 1
    ||| (c.flags / 64) % 2 == 1
    ||| varint::read_uleb(c.ty) matches Ok((x, _)) && TY_RELIABLE_ACK <= x <= TY_TIMESYNC_RESPONSE
}

/// The parts of a frame that may go out short.
pub open spec fn shortens(f: Seq<u8>) -> Option<Cut> {
    match wire_format::checked_body(f) {
        Ok(b) => match compact::cut(b) {
            Some(c) => if stands_alone(c) {
                None
            } else {
                Some(c)
            },
            None => None,
        },
        Err(_) => None,
    }
}

/// A frame without its common part.
pub open spec fn short_form(c: Cut) -> Seq<u8> {
    wrapped(
        SIDE_TRANSPORT_KIND_COMPACT,
        codec::le4(compact::template_id(c.template())) + c.variable(),
    )
}

/// Whether a frame goes out short.
pub open spec fn is_short(d: Seq<TemplateSpec>, f: Seq<u8>) -> bool {
    shortens(f) matches Some(c) && compact::goes_short(d, c.template())
}

/// What goes over a link in place of a frame.
pub open spec fn sent_form(d: Seq<TemplateSpec>, f: Seq<u8>) -> Seq<u8> {
    match shortens(f) {
        Some(c) => if compact::goes_short(d, c.template()) {
            short_form(c)
        } else {
            wrapped(SIDE_TRANSPORT_KIND_FULL, f)
        },
        None => wrapped(SIDE_TRANSPORT_KIND_FULL, f),
    }
}

/// What the sending end knows after a frame went out.
pub open spec fn known_after(d: Seq<TemplateSpec>, capacity: nat, f: Seq<u8>) -> Seq<TemplateSpec> {
    match shortens(f) {
        Some(c) => compact::said(d, capacity, c.template()),
        None => d,
    }
}

/// The frame that came over a link; one that is short and cannot be understood is lost.
pub open spec fn got(d: Seq<TemplateSpec>, w: Seq<u8>) -> Option<Seq<u8>> {
    match opened(w) {
        None => Some(w),
        Some((kind, b)) => if kind == SIDE_TRANSPORT_KIND_FULL {
            Some(b)
        } else {
            match codec::read_le4(b) {
                Some((id, v)) => match compact::with_id(d, id) {
                    Some(t) => match compact::rebuilt(t, v) {
                        Some(x) => Some(wire_format::sealed(x)),
                        None => None,
                    },
                    None => None,
                },
                None => None,
            }
        },
    }
}

/// What the receiving end knows after a frame came.
pub open spec fn heard_after(d: Seq<TemplateSpec>, capacity: nat, w: Seq<u8>) -> Seq<TemplateSpec> {
    match opened(w) {
        Some((kind, b)) => if kind == SIDE_TRANSPORT_KIND_FULL {
            match shortens(b) {
                Some(c) => compact::heard(d, capacity, c.template()),
                None => d,
            }
        } else {
            d
        },
        None => d,
    }
}

/// How many common parts the receiving end gives up when a frame comes.
pub open spec fn forgotten_after(d: Seq<TemplateSpec>, capacity: nat, w: Seq<u8>) -> int {
    match opened(w) {
        Some((kind, b)) => if kind == SIDE_TRANSPORT_KIND_FULL {
            match shortens(b) {
                Some(c) => if compact::place_of(d, c.template()) is Some {
                    0
                } else {
                    d.len() + 1 - heard_after(d, capacity, w).len()
                },
                None => 0,
            }
        } else {
            0
        },
        None => 0,
    }
}

proof fn lemma_short_form(f: Seq<u8>, c: Cut)
    requires
        shortens(f) == Some(c),
    ensures
        ({
            let b = codec::le4(compact::template_id(c.template())) + c.variable();
            &&& short_form(c) == wrapped(SIDE_TRANSPORT_KIND_COMPACT, b)
            &&& opened(short_form(c)) == Some((SIDE_TRANSPORT_KIND_COMPACT, b))
            &&& codec::read_le4(b) == Some((compact::template_id(c.template()), c.variable()))
        }),
        compact::rebuilt(c.template(), c.variable()) matches Some(x) && wire_format::sealed(x) == f,
{
    let id = compact::template_id(c.template());
    let b = codec::le4(id) + c.variable();
    lemma_wrapped_opens(SIDE_TRANSPORT_KIND_COMPACT, b);
    codec::lemma_le_roundtrip(0, id, 0, c.variable());
    if let Ok(body) = wire_format::checked_body(f) {
        compact::lemma_rebuilt(body);
        wire_format::lemma_unseal(f);
    }
}

/// Where both ends of a link know the same common parts and have the same room, every frame
/// comes out as it went in, and both ends know the same common parts after it.
pub proof fn lemma_frame_crosses_link(
    tx: Seq<TemplateSpec>,
    rx: Seq<TemplateSpec>,
    capacity: nat,
    f: Seq<u8>,
)
    requires
        compact::parts_of(tx) == compact::parts_of(rx),
    ensures
        got(rx, sent_form(tx, f)) == Some(f),
        compact::parts_of(known_after(tx, capacity, f)) == compact::parts_of(
            heard_after(rx, capacity, sent_form(tx, f)),
        ),
{
    lemma_wrapped_opens(SIDE_TRANSPORT_KIND_FULL, f);
    if let Some(c) = shortens(f) {
        let t = c.template();
        compact::lemma_ends_stay_in_step(tx, rx, capacity, t);
        if compact::goes_short(tx, t) {
            lemma_short_form(f, c);
        }
    }
}

/// A frame that is lost on a link does not change a later one: it comes out as it went in, or
/// not at all.
pub proof fn lemma_loss_does_not_alter(
    tx: Seq<TemplateSpec>,
    rx: Seq<TemplateSpec>,
    f: Seq<u8>,
)
    requires
        forall|c: Cut| #[trigger]
            shortens(f) == Some(c) ==> (compact::with_id(rx, compact::template_id(c.template()))
                matches Some(t) ==> t == c.template()),
    ensures
        got(rx, sent_form(tx, f)) matches Some(x) ==> x == f,
{
    lemma_wrapped_opens(SIDE_TRANSPORT_KIND_FULL, f);
    if let Some(c) = shortens(f) {
        let t = c.template();
        if compact::goes_short(tx, t) {
            lemma_short_form(f, c);
        }
    }
}

/// A frame that goes out whole is understood by every receiver.
pub proof fn lemma_whole_needs_no_memory(
    tx: Seq<TemplateSpec>,
    rx: Seq<TemplateSpec>,
    f: Seq<u8>,
)
    requires
        !is_short(tx, f),
    ensures
        got(rx, sent_form(tx, f)) == Some(f),
{
    lemma_wrapped_opens(SIDE_TRANSPORT_KIND_FULL, f);
}

/// Wraps a frame for a link.
pub fn wrap_side_transport_frame(kind: u8, body: &[u8]) -> (out: Vec<u8>)
    ensures
        out@ == wrapped(kind, body@),
{
    let mut out: Vec<u8> = Vec::new();
    out.push(83);
    out.push(68);
    out.push(84);
    out.push(kind);
    codec::write_bytes(&mut out, body);
    assert(out@ =~= chunks::mark(kind) + body@);
    seal(out)
}

fn seal(body: Vec<u8>) -> (out: Vec<u8>)
    ensures
        out@ == wire_format::sealed(body@),
{
    let mut out: Vec<u8> = body;
    assert(out@.take(out@.len() as int) =~= out@);
    let c: u32 = crc32::crc32_of(out.as_slice(), out.len());
    codec::write_le4(&mut out, c);
    out
}

/// The checksum of bytes.
pub fn crc32_bytes(bytes: &[u8]) -> (r: u32)
    ensures
        r == crc32::crc32(bytes@),
{
    assert(bytes@.take(bytes@.len() as int) =~= bytes@);
    crc32::crc32_of(bytes, bytes.len())
}

fn body_of(w: &[u8]) -> (r: Option<Vec<u8>>)
    ensures
        match wire_format::checked_body(w@) {
            Ok(b) => r matches Some(x) && x@ == b,
            Err(_) => r is None,
        },
{
    let total: usize = w.len();
    if total < wire_format::CRC32_BYTES {
        return None;
    }
    let n: usize = total - wire_format::CRC32_BYTES;
    let body: Vec<u8> = codec::copy_range(w, 0, n);
    assert(body@ =~= w@.take(n as int));
    let tail: Vec<u8> = codec::copy_range(w, n, total);
    assert(tail@ =~= w@.skip(n as int));
    let mut expected: Vec<u8> = Vec::new();
    codec::write_le4(&mut expected, crc32::crc32_of(w, n));
    assert(expected@ =~= codec::le4(crc32::crc32(w@.take(n as int))));
    if codec::same_bytes(tail.as_slice(), expected.as_slice()) {
        Some(body)
    } else {
        None
    }
}

fn parts_of_frame(f: &[u8]) -> (r: Option<Parts>)
    ensures
        match shortens(f@) {
            Some(c) => r matches Some(p) && p@ == c,
            None => r is None,
        },
{
    let body: Vec<u8> = match body_of(f) {
        Some(b) => b,
        None => return None,
    };
    let p: Parts = match compact::cut_of(body.as_slice()) {
        Some(p) => p,
        None => return None,
    };
    if (p.flags / 8) % 2 == 1 || (p.flags / 64) % 2 == 1 {
        return None;
    }
    assert(p.ty@.skip(0) =~= p.ty@);
    if let Ok((x, _)) = varint::read_uleb_at(p.ty.as_slice(), 0) {
        if TY_RELIABLE_ACK as u64 <= x && x <= TY_TIMESYNC_RESPONSE as u64 {
            return None;
        }
    }
    Some(p)
}

fn open_frame(w: &[u8]) -> (r: Option<(u8, Vec<u8>)>)
    ensures
        match opened(w@) {
            Some((kind, b)) => r matches Some((k, x)) && k == kind && x@ == b,
            None => r is None,
        },
{
    reveal(opened);
    if w.len() < 8 || w[0] != 83 || w[1] != 68 || w[2] != 84 {
        return None;
    }
    let kind: u8 = w[3];
    if kind != SIDE_TRANSPORT_KIND_FULL && kind != SIDE_TRANSPORT_KIND_COMPACT {
        return None;
    }
    match body_of(w) {
        Some(b) => {
            let x: Vec<u8> = codec::copy_range(b.as_slice(), 4, b.len());
            assert(x@ =~= b@.skip(4));
            Some((kind, x))
        },
        None => None,
    }
}

/// How often a link did what.
#[derive(Debug, Clone, Copy, PartialEq, Eq, Structural)]
pub struct LinkCounters {
    /// Frames that went out whole.
    pub full: u64,
    /// Frames that went out short.
    pub compact: u64,
    /// Bytes that short frames saved.
    pub saved: u64,
    /// The fewest bytes around a payload of a short frame.
    pub least: Option<usize>,
    /// Short frames with more bytes around the payload than are aimed at.
    pub misses: u64,
    /// Common parts that were given up for want of room.
    pub evictions: u64,
    /// Short frames that went out without a timestamp.
    pub omitted: u64,
    /// Short frames that went out with less than their own fields.
    pub delta: u64,
}

pub open spec fn more(x: u64, by: int) -> u64 {
    if x + by > u64::MAX {
        u64::MAX
    } else {
        (x + by) as u64
    }
}

/// Whether the variable part of a frame holds less than the fields that are the frame's own.
pub open spec fn is_thinned(c: Cut) -> bool {
    c.variable().len() < c.size.len() + c.timestamp.len() + c.nonce.len() + c.rest.len()
}

/// A short frame carries its fields whole: no timestamp is shortened.
pub proof fn lemma_short_frames_are_not_thinned(c: Cut)
    ensures
        !is_thinned(c),
{
}

impl LinkCounters {
    pub open spec fn none() -> LinkCounters {
        LinkCounters {
            full: 0,
            compact: 0,
            saved: 0,
            least: None,
            misses: 0,
            evictions: 0,
            omitted: 0,
            delta: 0,
        }
    }

    pub open spec fn gave_up(self, n: int) -> LinkCounters {
        LinkCounters { evictions: more(self.evictions, n), ..self }
    }

    pub open spec fn went_whole(self) -> LinkCounters {
        LinkCounters { full: more(self.full, 1), ..self }
    }

    /// A frame of `whole` bytes went out in `sent`, of which `overhead` are not its payload.
    pub open spec fn went_short(self, whole: nat, sent: nat, overhead: nat, target: usize, c: Cut)
        -> LinkCounters {
        LinkCounters {
            omitted: if c.timestamp.len() == 0 {
                more(self.omitted, 1)
            } else {
                self.omitted
            },
            delta: if is_thinned(c) {
                more(self.delta, 1)
            } else {
                self.delta
            },
            compact: more(self.compact, 1),
            saved: if sent < whole {
                more(self.saved, whole - sent)
            } else {
                self.saved
            },
            least: match self.least {
                Some(x) => if overhead < x {
                    Some(overhead as usize)
                } else {
                    Some(x)
                },
                None => Some(overhead as usize),
            },
            misses: if target > 0 && overhead > target {
                more(self.misses, 1)
            } else {
                self.misses
            },
            ..self
        }
    }
}

/// A link.
pub struct Link {
    pub options: LinkOptions,
    /// Common parts that the other end knows from this one.
    pub tx: Dictionary,
    /// Common parts that this end knows from the other.
    pub rx: Dictionary,
    /// Frames of which pieces are missing.
    pub waiting: Reassembly,
    /// How many frames were cut.
    pub cuts: u32,
    /// How many common parts the other end keeps.
    pub limit: usize,
    /// What was known of the network when the last frame went out.
    pub news: u64,
    pub counters: LinkCounters,
}

impl Link {
    pub fn new(options: LinkOptions) -> (r: Link)
        ensures
            r.options == options,
            r.tx@ == Seq::<TemplateSpec>::empty(),
            r.rx@ == Seq::<TemplateSpec>::empty(),
            r.waiting@ == Seq::<chunks::PartialSpec>::empty(),
            r.cuts == 0,
            r.limit == usize::MAX,
            r.news == 0,
            r.counters == LinkCounters::none(),
    {
        Link {
            options,
            tx: Dictionary::new(),
            rx: Dictionary::new(),
            waiting: Reassembly::new(),
            cuts: 0,
            limit: usize::MAX,
            news: 0,
            counters: LinkCounters {
                full: 0,
                compact: 0,
                saved: 0,
                least: None,
                misses: 0,
                evictions: 0,
                omitted: 0,
                delta: 0,
            },
        }
    }

    /// How many common parts both ends keep.
    pub open spec fn room(self) -> usize {
        if self.limit < self.options.max_templates {
            self.limit
        } else {
            self.options.max_templates
        }
    }

    /// The common parts that a frame can use: none where several boards listen, or where the
    /// network has changed since.
    pub open spec fn usable(self, shared: bool, news: u64) -> Seq<TemplateSpec> {
        if shared || news != self.news {
            Seq::empty()
        } else {
            compact::latest(self.tx@, self.room() as nat)
        }
    }

    /// Whether frames go out wrapped.
    pub open spec fn wraps(self, shared: bool) -> bool {
        self.options.templates && !shared && self.room() > 0
    }

    /// What goes over the link in place of a frame.
    pub open spec fn form(self, f: Seq<u8>, shared: bool, news: u64) -> Seq<u8> {
        if self.wraps(shared) {
            sent_form(self.usable(shared, news), f)
        } else {
            f
        }
    }

    /// What sending a frame does.
    pub open spec fn sent(self, after: Link, f: Seq<u8>, shared: bool, news: u64) -> bool {
        let d = self.usable(shared, news);
        let dropped: int = if shared || news != self.news {
            0
        } else {
            self.tx@.len() - d.len()
        };
        let known = if self.wraps(shared) {
            known_after(d, self.room() as nat, f)
        } else {
            d
        };
        let first = self.counters.gave_up(dropped);
        let given_up: int = match shortens(f) {
            Some(c) => if compact::place_of(d, c.template()) is Some {
                0
            } else {
                d.len() + 1 - known.len()
            },
            None => 0,
        };
        &&& after.tx@ == known
        &&& after.news == news
        &&& after.cuts == (if self.cuts == u32::MAX {
            0
        } else {
            (self.cuts + 1) as u32
        })
        &&& after.counters == (if !self.wraps(shared) {
            first
        } else if is_short(d, f) {
            let c = shortens(f)->0;
            first.gave_up(given_up).went_short(
                f.len(),
                short_form(c).len(),
                (short_form(c).len() - c.rest.len()) as nat,
                self.options.target,
                c,
            )
        } else {
            first.gave_up(given_up).went_whole()
        })
        &&& after == Link {
            tx: after.tx,
            news: after.news,
            cuts: after.cuts,
            counters: after.counters,
            ..self
        }
    }

    fn count_short(&mut self, whole: usize, sent: usize, overhead: usize, p: &Parts)
        ensures
            final(self).counters == old(self).counters.went_short(
                whole as nat,
                sent as nat,
                overhead as nat,
                old(self).options.target,
                p@,
            ),
            *final(self) == (Link { counters: final(self).counters, ..*old(self) }),
    {
        self.counters.compact = self.counters.compact.saturating_add(1);
        if p.timestamp.len() == 0 {
            self.counters.omitted = self.counters.omitted.saturating_add(1);
        }
        let own: u128 = p.size.len() as u128 + p.timestamp.len() as u128 + p.nonce.len() as u128
            + p.rest.len() as u128;
        if (p.variable().len() as u128) < own {
            self.counters.delta = self.counters.delta.saturating_add(1);
        }
        if sent < whole {
            self.counters.saved = self.counters.saved.saturating_add((whole - sent) as u64);
        }
        self.counters.least = match self.counters.least {
            Some(x) => if overhead < x {
                Some(overhead)
            } else {
                Some(x)
            },
            None => Some(overhead),
        };
        if self.options.target > 0 && overhead > self.options.target {
            self.counters.misses = self.counters.misses.saturating_add(1);
        }
    }

    /// Makes what goes over the link in place of a frame: pieces that it takes.
    pub fn encode(&mut self, f: Vec<u8>, shared: bool, news: u64, address: u32) -> (r: TelemetryResult<
        Vec<Vec<u8>>,
    >)
        ensures
            old(self).sent(*final(self), f@, shared, news),
            match r {
                Ok(v) => chunks::can_split(
                    old(self).form(f@, shared, news),
                    old(self).options.max_frame,
                ) && chunks::byte_lists(v@) == chunks::split_up(
                    old(self).form(f@, shared, news),
                    chunks::transfer_id(address, old(self).cuts),
                    old(self).options.max_frame,
                ),
                Err(e) => (e matches TelemetryError::PacketTooLarge(m) && m@
                    == "frame does not fit the link"@) && !chunks::can_split(
                    old(self).form(f@, shared, news),
                    old(self).options.max_frame,
                ),
            },
    {
        let id: u32 = address % 1048576 * 4096 + self.cuts % 4096;
        self.cuts = if self.cuts == u32::MAX {
            0
        } else {
            self.cuts + 1
        };
        let room: usize = if self.limit < self.options.max_templates {
            self.limit
        } else {
            self.options.max_templates
        };
        if shared || news != self.news {
            self.tx.clear();
        } else {
            let n: usize = self.tx.shrink(room);
            self.counters.evictions = self.counters.evictions.saturating_add(n as u64);
        }
        self.news = news;
        let ghost d = self.tx@;
        let wire: Vec<u8> = if self.options.templates && !shared && room > 0 {
            match parts_of_frame(f.as_slice()) {
                Some(p) => {
                    let t: Vec<u8> = p.template();
                    assert(t@.take(t@.len() as int) =~= t@);
                    let number: u32 = crc32::crc32_of(t.as_slice(), t.len());
                    let (short, n): (bool, usize) = self.tx.say(room, t);
                    self.counters.evictions = self.counters.evictions.saturating_add(n as u64);
                    if short {
                        let mut b: Vec<u8> = Vec::new();
                        codec::write_le4(&mut b, number);
                        let v: Vec<u8> = p.variable();
                        codec::write_bytes(&mut b, v.as_slice());
                        assert(b@ =~= codec::le4(number) + v@);
                        let w: Vec<u8> = wrap_side_transport_frame(
                            SIDE_TRANSPORT_KIND_COMPACT,
                            b.as_slice(),
                        );
                        self.count_short(f.len(), w.len(), w.len() - p.rest.len(), &p);
                        w
                    } else {
                        self.counters.full = self.counters.full.saturating_add(1);
                        wrap_side_transport_frame(SIDE_TRANSPORT_KIND_FULL, f.as_slice())
                    }
                },
                None => {
                    self.counters.full = self.counters.full.saturating_add(1);
                    wrap_side_transport_frame(SIDE_TRANSPORT_KIND_FULL, f.as_slice())
                },
            }
        } else {
            f
        };
        match chunks::split(wire, id, self.options.max_frame) {
            Some(v) => Ok(v),
            None => Err(TelemetryError::PacketTooLarge("frame does not fit the link")),
        }
    }

    /// What comes over the link as one: a frame of the link, or the one that a piece completes.
    pub open spec fn gathered(self, w: Seq<u8>) -> (Seq<chunks::PartialSpec>, Option<Seq<u8>>) {
        match chunks::read_chunk(w) {
            Some((id, index, count, piece)) => chunks::collected(
                self.waiting@,
                id,
                index,
                count,
                piece,
            ),
            None => (self.waiting@, Some(w)),
        }
    }

    /// The counters once bytes came.
    pub open spec fn counters_after(self, w: Seq<u8>) -> LinkCounters {
        self.counters.gave_up(
            match self.gathered(w).1 {
                Some(x) => forgotten_after(self.rx@, self.options.max_templates as nat, x),
                None => 0,
            },
        )
    }

    /// The frame that came over the link, if one did.
    pub open spec fn arrives(self, w: Seq<u8>) -> Option<Seq<u8>> {
        match self.gathered(w).1 {
            Some(x) => got(self.rx@, x),
            None => None,
        }
    }

    /// What is known of the other end after something came.
    pub open spec fn heard(self, w: Seq<u8>) -> Seq<TemplateSpec> {
        match self.gathered(w).1 {
            Some(x) => heard_after(self.rx@, self.options.max_templates as nat, x),
            None => self.rx@,
        }
    }

    fn open(&mut self, w: Vec<u8>) -> (r: Option<Vec<u8>>)
        ensures
            match got(old(self).rx@, w@) {
                Some(f) => r matches Some(x) && x@ == f,
                None => r is None,
            },
            final(self).rx@ == heard_after(
                old(self).rx@,
                old(self).options.max_templates as nat,
                w@,
            ),
            *final(self) == (Link {
                rx: final(self).rx,
                counters: final(self).counters,
                ..*old(self)
            }),
            final(self).counters == old(self).counters.gave_up(
                forgotten_after(old(self).rx@, old(self).options.max_templates as nat, w@),
            ),
    {
        match open_frame(w.as_slice()) {
            None => Some(w),
            Some((kind, b)) => {
                if kind == SIDE_TRANSPORT_KIND_FULL {
                    if let Some(p) = parts_of_frame(b.as_slice()) {
                        let n: usize = self.rx.hear(self.options.max_templates, p.template());
                        self.counters.evictions = self.counters.evictions.saturating_add(n as u64);
                    }
                    Some(b)
                } else {
                    assert(b@.skip(0) =~= b@);
                    let total: usize = b.len();
                    let (id, at): (u32, usize) = match codec::read_le4_at(b.as_slice(), 0) {
                        Some(x) => x,
                        None => return None,
                    };
                    let v: Vec<u8> = codec::copy_range(b.as_slice(), at, total);
                    assert(v@ =~= b@.skip(at as int));
                    match self.rx.find(id) {
                        Some(t) => match compact::rebuild(t.as_slice(), v.as_slice()) {
                            Some(x) => Some(seal(x)),
                            None => None,
                        },
                        None => None,
                    }
                }
            },
        }
    }

    /// Takes what came over the link; gives the frame, if one came.
    pub fn decode(&mut self, w: &[u8]) -> (r: Option<Vec<u8>>)
        ensures
            match old(self).arrives(w@) {
                Some(f) => r matches Some(x) && x@ == f,
                None => r is None,
            },
            final(self).rx@ == old(self).heard(w@),
            final(self).waiting@ == old(self).gathered(w@).0,
            *final(self) == (Link {
                rx: final(self).rx,
                waiting: final(self).waiting,
                counters: final(self).counters,
                ..*old(self)
            }),
            final(self).counters == old(self).counters_after(w@),
    {
        match chunks::chunk_at(w) {
            Some((id, index, count, piece)) => match self.waiting.collect(id, index, count, piece) {
                Some(x) => self.open(x),
                None => None,
            },
            None => {
                let x: Vec<u8> = codec::copy_range(w, 0, w.len());
                assert(x@ =~= w@);
                self.open(x)
            },
        }
    }

    /// How many common parts the other end keeps, after a packet of it came.
    pub open spec fn limit_after(self, p: PacketSpec) -> usize {
        if p.ty == TY_DISCOVERY_ADDRESS {
            match discovery::whole(discovery::read_address(p.payload)) {
                Some(a) => if a.link_capabilities.max_side_transport_templates > 0 {
                    a.link_capabilities.max_side_transport_templates as usize
                } else {
                    self.limit
                },
                None => self.limit,
            }
        } else {
            self.limit
        }
    }

    /// A packet of the other end came.
    pub fn note(&mut self, p: &Packet)
        ensures
            *final(self) == (Link { limit: old(self).limit_after(p@), ..*old(self) }),
    {
        if p.data_type() == TY_DISCOVERY_ADDRESS {
            if let Ok(a) = discovery::decode_discovery_address(p) {
                if a.link_capabilities.max_side_transport_templates > 0 {
                    self.limit = a.link_capabilities.max_side_transport_templates as usize;
                }
            }
        }
    }
}

/// What is saved by sending short: exactly the common part, of which four bytes of number take the
/// place in the frame's stead that the frame's own checksum leaves.
pub proof fn lemma_short_saves_the_common_part(f: Seq<u8>, c: Cut)
    requires
        shortens(f) == Some(c),
    ensures
        short_form(c).len() + c.template().len() == wrapped(SIDE_TRANSPORT_KIND_FULL, f).len(),
        short_form(c).len() + c.template().len() == f.len() + 8,
        c.template().len() > 0,
{
    let id = compact::template_id(c.template());
    codec::lemma_le_roundtrip(0, id, 0, Seq::empty());
    match wire_format::checked_body(f) {
        Ok(b) => {
            compact::lemma_cut_joins(b);
            wire_format::lemma_unseal(f);
            codec::lemma_le_roundtrip(0, crate::crc32::crc32(b), 0, Seq::empty());
        },
        Err(_) => {},
    }
    let body = chunks::mark(SIDE_TRANSPORT_KIND_FULL) + f;
    codec::lemma_le_roundtrip(0, crate::crc32::crc32(body), 0, Seq::empty());
    let other = chunks::mark(SIDE_TRANSPORT_KIND_COMPACT) + (codec::le4(id) + c.variable());
    codec::lemma_le_roundtrip(0, crate::crc32::crc32(other), 0, Seq::empty());
}

/// Messages of the network itself, and frames that are numbered or carry their own shape, always go
/// out whole, so that who hears them for the first time understands them.
pub proof fn lemma_some_frames_stand_alone(d: Seq<TemplateSpec>, f: Seq<u8>, b: Seq<u8>, c: Cut, x: u64, rest: Seq<u8>)
    requires
        wire_format::checked_body(f) == Ok::<Seq<u8>, wire_format::FrameFault>(b),
        compact::cut(b) == Some(c),
        varint::read_uleb(c.ty) == Ok::<(u64, Seq<u8>), varint::VarintFault>((x, rest)),
        TY_RELIABLE_ACK <= x <= TY_TIMESYNC_RESPONSE || (c.flags / 8) % 2 == 1 || (c.flags / 64) % 2
            == 1,
    ensures
        !is_short(d, f),
        sent_form(d, f) == wrapped(SIDE_TRANSPORT_KIND_FULL, f),
        forall|capacity: nat| #[trigger] known_after(d, capacity, f) == d,
{
}

/// What a board says of a link is what the link is set to do, each ability by its own mark.
pub proof fn lemma_abilities_are_announced(o: LinkOptions)
    ensures
        (o.announced().flags / LINK_CAPABILITY_HEADER_TEMPLATES) % 2 == 1 <==> o.templates,
        (o.announced().flags / LINK_CAPABILITY_CHUNKING) % 2 == 1 <==> o.max_frame > 0,
        (o.announced().flags / LINK_CAPABILITY_RELIABILITY) % 2 == 1 <==> o.reliable,
        (o.announced().flags / LINK_CAPABILITY_END_TO_END_RELIABILITY) % 2 == 1 <==> o.reliable,
        (o.announced().flags / LINK_CAPABILITY_OMIT_UNCHANGED_TIMESTAMPS) % 2 == 1
            <==> o.omit_timestamps,
        o.max_frame <= u32::MAX ==> o.announced().max_frame_bytes == o.max_frame,
        o.target <= u32::MAX ==> o.announced().compact_header_target_bytes == o.target,
        o.max_templates <= u32::MAX ==> o.announced().max_side_transport_templates
            == o.max_templates,
        o.announced().profile == LINK_PROFILE_PLAIN <==> !o.templates,
        o.templates && o.target == IPV4_LIKE_COMPACT_HEADER_TARGET_BYTES ==> o.announced().profile
            == LINK_PROFILE_IPV4_LIKE,
        o.templates && o.target == IPV6_LIKE_COMPACT_HEADER_TARGET_BYTES ==> o.announced().profile
            == LINK_PROFILE_IPV6_LIKE,
        o.templates && o.target != IPV4_LIKE_COMPACT_HEADER_TARGET_BYTES && o.target
            != IPV6_LIKE_COMPACT_HEADER_TARGET_BYTES ==> o.announced().profile
            == LINK_PROFILE_TEMPLATE,
{
}

/// No more common parts are used than both ends keep; where several boards listen, or the network
/// has changed since, none is, and frames over a link that is not to shorten them go as they are.
pub proof fn lemma_parts_both_ends_keep(l: Link, f: Seq<u8>, shared: bool, news: u64)
    ensures
        l.usable(shared, news).len() <= l.limit,
        l.usable(shared, news).len() <= l.options.max_templates,
        l.room() == l.limit || l.room() == l.options.max_templates,
        l.room() <= l.limit && l.room() <= l.options.max_templates,
        shared || news != l.news ==> !is_short(l.usable(shared, news), f),
        !l.options.templates || shared || l.limit == 0 || l.options.max_templates == 0 ==> l.form(
            f,
            shared,
            news,
        ) == f,
        l.options.templates && !shared && l.limit > 0 && l.options.max_templates > 0 ==> l.form(
            f,
            shared,
            news,
        ) == sent_form(l.usable(shared, news), f),
        !shared && news == l.news && l.tx@.len() <= l.limit && l.tx@.len() <= l.options.max_templates
            ==> l.usable(shared, news) == l.tx@,
{
    if shared || news != l.news {
        assert(l.usable(shared, news).len() == 0);
    }
}

/// A frame that goes out short is counted as such, with what was saved by it, and the least that
/// came with a payload is kept; one that goes out whole is counted as that.
pub proof fn lemma_forms_are_counted(k: LinkCounters, whole: nat, sent: nat, overhead: nat, target: usize, c: Cut)
    requires
        k.full < u64::MAX,
        k.compact < u64::MAX,
        k.misses < u64::MAX,
        k.saved + whole <= u64::MAX,
        overhead <= usize::MAX,
    ensures
        k.went_whole().full == k.full + 1,
        k.went_whole().compact == k.compact,
        k.went_whole().saved == k.saved,
        k.went_short(whole, sent, overhead, target, c).compact == k.compact + 1,
        k.went_short(whole, sent, overhead, target, c).full == k.full,
        sent <= whole ==> k.went_short(whole, sent, overhead, target, c).saved == k.saved + (whole
            - sent),
        sent > whole ==> k.went_short(whole, sent, overhead, target, c).saved == k.saved,
        k.went_short(whole, sent, overhead, target, c).least matches Some(x) && x <= overhead && (x
            == overhead || k.least == Some(x)) && (k.least matches Some(y) ==> x <= y),
        k.went_short(whole, sent, overhead, target, c).misses == k.misses + (if target > 0
            && overhead > target {
            1int
        } else {
            0
        }),
{
}

/// A frame that one end of a link sends comes out of the other as it was, where both know the same
/// and frames are wrapped, in one piece or in several; and both know the same afterwards.
pub proof fn lemma_link_hands_over(a: Link, b: Link, f: Seq<u8>, news: u64)
    requires
        a.wraps(false),
        news == a.news,
        a.tx@.len() <= a.room(),
        a.room() == b.options.max_templates,
        compact::parts_of(a.tx@) == compact::parts_of(b.rx@),
        chunks::read_chunk(a.form(f, false, news)) is None,
    ensures
        b.arrives(a.form(f, false, news)) == Some(f),
        compact::parts_of(known_after(a.usable(false, news), a.room() as nat, f))
            == compact::parts_of(b.heard(a.form(f, false, news))),
{
    lemma_frame_crosses_link(a.tx@, b.rx@, a.room() as nat, f);
}

/// A board keeps no more common parts for a link than the other end said that it keeps, from the
/// moment on that it said so; an advertisement that says nothing of it changes nothing.
pub proof fn lemma_said_limit_is_kept(l: Link, p: PacketSpec, a: discovery::AddressSpec)
    requires
        p.ty == TY_DISCOVERY_ADDRESS,
        discovery::short_address(a),
        p.payload == discovery::address_bytes(a),
    ensures
        ({
            let said = a.link_capabilities.max_side_transport_templates;
            let after = Link { limit: l.limit_after(p), ..l };
            &&& said > 0 ==> after.limit == said && after.room() <= said
            &&& said == 0 ==> after == l
            &&& after.room() <= l.options.max_templates
        }),
{
    discovery::lemma_address_roundtrip(a, Seq::empty());
    assert(discovery::address_bytes(a) + Seq::<u8>::empty() =~= discovery::address_bytes(a));
}

/// For bytes that come the receiving end gives up one common part at most, and nothing else is
/// counted of them.
pub proof fn lemma_given_up_parts_are_counted(l: Link, w: Seq<u8>)
    requires
        l.counters.evictions < u64::MAX,
        l.options.max_templates > 0,
        l.rx@.len() <= l.options.max_templates,
    ensures
        l.counters_after(w).evictions - l.counters.evictions <= 1,
        l.counters_after(w).evictions - l.counters.evictions >= 0,
        l.counters_after(w) == (LinkCounters {
            evictions: l.counters_after(w).evictions,
            ..l.counters
        }),
{
}

} // verus!
