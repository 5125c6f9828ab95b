//! What boards tell each other about themselves: which endpoints they reach, who is connected to
//! whom, what their links can do, and which definitions they know.
use vstd::prelude::*;
use vstd::string::*;
use crate::codec;
use crate::definition;
use crate::definition::{DataTypeDefinition, EndpointDefinition};
use crate::error::{TelemetryError, TelemetryResult};
use crate::meta::{
    DataEndpoint, DataType, EP_DISCOVERY, TY_DISCOVERY_ADDRESS, TY_DISCOVERY_ANNOUNCE,
    TY_DISCOVERY_LEAVE, TY_DISCOVERY_LINK_CAPABILITIES, TY_DISCOVERY_SCHEMA,
    TY_DISCOVERY_TIMESYNC_SOURCES, TY_DISCOVERY_TOPOLOGY,
};
use crate::packet;
use crate::packet::{Packet, PacketSpec};
use crate::registry::Registry;
use crate::schema::{SchemaSnapshot, SchemaSpec};
use crate::table;
use crate::varint;

verus! {

/// Milliseconds after which a board that was not heard of is forgotten.
pub const DISCOVERY_ROUTE_TTL_MS: u64 = 30_000;

/// Milliseconds between announcements while the network changes.
pub const DISCOVERY_FAST_INTERVAL_MS: u64 = 500;

/// Milliseconds between announcements at most.
pub const DISCOVERY_SLOW_INTERVAL_MS: u64 = 8_000;

/// Milliseconds between signs of life over a slow link.
pub const DISCOVERY_SLOW_LINK_PING_INTERVAL_MS: u64 = 15_000;

pub const LINK_CAPABILITY_HEADER_TEMPLATES: u32 = 1;

pub const LINK_CAPABILITY_CHUNKING: u32 = 2;

pub const LINK_CAPABILITY_RELIABILITY: u32 = 4;

pub const LINK_CAPABILITY_END_TO_END_RELIABILITY: u32 = 8;

pub const LINK_CAPABILITY_OMIT_UNCHANGED_TIMESTAMPS: u32 = 16;

pub const LINK_PROFILE_PLAIN: u8 = 0;

pub const LINK_PROFILE_TEMPLATE: u8 = 1;

pub const LINK_PROFILE_IPV4_LIKE: u8 = 2;

pub const LINK_PROFILE_IPV6_LIKE: u8 = 3;

/// Whether messages of a type tell about the network.
pub open spec fn is_discovery(ty: DataType) -> bool {
    4 <= ty <= 10 || 16 <= ty <= 17
}

/// Whether messages of a type tell about the network.
pub fn is_discovery_type(ty: DataType) -> (b: bool)
    ensures
        b == is_discovery(ty),
{
    (4 <= ty && ty <= 10) || (16 <= ty && ty <= 17)
}

/// The texts of a list.
pub open spec fn texts(v: Seq<String>) -> Seq<Seq<char>> {
    v.map_values(|s: String| s@)
}

pub open spec fn text_items(v: Seq<Seq<char>>) -> Seq<u8>
    decreases v.len(),
{
    if v.len() == 0 {
        Seq::<u8>::empty()
    } else {
        codec::text_bytes(v[0]) + text_items(v.skip(1))
    }
}

/// A list of texts: how many, then each.
pub open spec fn texts_bytes(v: Seq<Seq<char>>) -> Seq<u8> {
    varint::uleb(v.len()) + text_items(v)
}

pub open spec fn read_text_items(s: Seq<u8>, n: nat) -> Option<(Seq<Seq<char>>, Seq<u8>)>
    decreases n,
{
    if n == 0 {
        Some((Seq::<Seq<char>>::empty(), s))
    } else {
        match codec::read_text(s) {
            Some((t, s1)) => match read_text_items(s1, (n - 1) as nat) {
                Some((v, s2)) => Some((seq![t] + v, s2)),
                None => None,
            },
            None => None,
        }
    }
}

pub open spec fn read_texts(s: Seq<u8>) -> Option<(Seq<Seq<char>>, Seq<u8>)> {
    match codec::read_int(s) {
        Some((n, s1)) => read_text_items(s1, n as nat),
        None => None,
    }
}

/// Whether all texts of a list are short enough to be written, and there are not too many.
pub open spec fn short_texts(v: Seq<Seq<char>>) -> bool {
    &&& v.len() <= u64::MAX
    &&& forall|i: int| 0 <= i < v.len() ==> definition::short_text(#[trigger] v[i])
}

proof fn lemma_texts_count(v: Seq<Seq<char>>)
    requires
        text_items(v).len() <= u64::MAX,
    ensures
        short_texts(v),
    decreases v.len(),
{
    if v.len() > 0 {
        let n = vstd::utf8::encode_utf8(v[0]).len();
        assert(codec::text_bytes(v[0]).len() == varint::uleb(n).len() + n);
        varint::lemma_uleb_len(n as u64);
        lemma_texts_longer(v);
        lemma_texts_count(v.skip(1));
        assert forall|i: int| 0 <= i < v.len() implies definition::short_text(#[trigger] v[i]) by {
            if i > 0 {
                assert(v.skip(1)[i - 1] == v[i]);
            }
        }
    }
}

proof fn lemma_texts_longer(v: Seq<Seq<char>>)
    requires
        text_items(v).len() <= u64::MAX,
    ensures
        v.len() <= text_items(v).len(),
    decreases v.len(),
{
    if v.len() > 0 {
        let n = vstd::utf8::encode_utf8(v[0]).len();
        assert(codec::text_bytes(v[0]).len() == varint::uleb(n).len() + n);
        varint::lemma_uleb_len(n as u64);
        lemma_texts_longer(v.skip(1));
    }
}

proof fn lemma_text_items_roundtrip(v: Seq<Seq<char>>, rest: Seq<u8>)
    requires
        forall|i: int| 0 <= i < v.len() ==> definition::short_text(#[trigger] v[i]),
    ensures
        read_text_items(text_items(v) + rest, v.len()) == Some((v, rest)),
    decreases v.len(),
{
    if v.len() == 0 {
        assert(text_items(v) + rest =~= rest);
        assert(v =~= Seq::<Seq<char>>::empty());
    } else {
        let tail = text_items(v.skip(1));
        assert(definition::short_text(v[0]));
        vstd::seq_lib::lemma_concat_associative(codec::text_bytes(v[0]), tail, rest);
        codec::lemma_text_roundtrip(v[0], tail + rest);
        assert forall|i: int| 0 <= i < v.skip(1).len() implies definition::short_text(
            #[trigger] v.skip(1)[i],
        ) by {
            assert(v.skip(1)[i] == v[i + 1]);
        }
        lemma_text_items_roundtrip(v.skip(1), rest);
        assert(seq![v[0]] + v.skip(1) =~= v);
    }
}

/// Lists of texts are read as they were written.
pub proof fn lemma_texts_roundtrip(v: Seq<Seq<char>>, rest: Seq<u8>)
    requires
        short_texts(v),
    ensures
        read_texts(texts_bytes(v) + rest) == Some((v, rest)),
{
    assert(texts_bytes(v) + rest =~= varint::uleb(v.len()) + (text_items(v) + rest));
    codec::lemma_int_roundtrip(v.len() as u64, text_items(v) + rest);
    lemma_text_items_roundtrip(v, rest);
}

/// Appends a list of texts.
pub fn write_texts(out: &mut Vec<u8>, v: &Vec<String>)
    ensures
        final(out)@ == old(out)@ + texts_bytes(texts(v@)),
{
    varint::write_uleb(out, v.len() as u64);
    let ghost base = out@;
    let ghost all = texts(v@);
    let mut i: usize = 0;
    assert(all.skip(0) =~= all);
    while i < v.len()
        invariant
            i <= v@.len(),
            all == texts(v@),
            out@ + text_items(all.skip(i as int)) == base + text_items(all),
        decreases v@.len() - i,
    {
        let ghost here = all.skip(i as int);
        let ghost before = out@;
        assert(here.skip(1) =~= all.skip(i + 1));
        codec::write_text(out, v[i].as_str());
        assert(before + text_items(here) =~= out@ + text_items(all.skip(i + 1)));
        i = i + 1;
    }
    assert(out@ + text_items(all.skip(i as int)) =~= out@);
}

/// Reads the list of texts that starts at `pos`.
pub fn read_texts_at(buf: &[u8], pos: usize) -> (r: Option<(Vec<String>, usize)>)
    requires
        pos <= buf@.len(),
    ensures
        match read_texts(buf@.skip(pos as int)) {
            Some((x, rest)) => r matches Some((y, end)) && texts(y@) == x && pos <= end
                <= buf@.len() && rest == buf@.skip(end as int),
            None => r is None,
        },
{
    let (n, start) = match codec::read_int_at(buf, pos) {
        Some(x) => x,
        None => return None,
    };
    let mut v: Vec<String> = Vec::new();
    let mut p: usize = start;
    let mut left: u64 = n;
    proof {
        if let Some((t, rest)) = read_text_items(buf@.skip(start as int), n as nat) {
            assert(texts(v@) + t =~= t);
        }
    }
    while left > 0
        invariant
            pos <= start <= p <= buf@.len(),
            left <= n,
            read_texts(buf@.skip(pos as int)) == read_text_items(buf@.skip(start as int), n as nat),
            read_text_items(buf@.skip(start as int), n as nat) == (match read_text_items(
                buf@.skip(p as int),
                left as nat,
            ) {
                Some((t, rest)) => Some((texts(v@) + t, rest)),
                None => None::<(Seq<Seq<char>>, Seq<u8>)>,
            }),
        decreases left,
    {
        match codec::read_text_at(buf, p) {
            Some((t, end)) => {
                let ghost before = texts(v@);
                let ghost tv = t@;
                v.push(t);
                proof {
                    assert(texts(v@) =~= before.push(tv));
                    if let Some((u, rest)) = read_text_items(
                        buf@.skip(end as int),
                        (left - 1) as nat,
                    ) {
                        assert(before + (seq![tv] + u) =~= texts(v@) + u);
                    }
                }
                p = end;
            },
            None => return None,
        }
        left = left - 1;
    }
    assert(texts(v@) + Seq::<Seq<char>>::empty() =~= texts(v@));
    Some((v, p))
}

/// A copy of a list of texts.
pub fn copy_texts(v: &Vec<String>) -> (out: Vec<String>)
    ensures
        texts(out@) == texts(v@),
{
    let mut out: Vec<String> = Vec::new();
    let mut i: usize = 0;
    while i < v.len()
        invariant
            i <= v@.len(),
            texts(out@) =~= texts(v@).take(i as int),
        decreases v@.len() - i,
    {
        let t: String = v[i].clone();
        let ghost before = texts(out@);
        out.push(t);
        assert(texts(out@) =~= before.push(v@[i as int]@));
        i = i + 1;
    }
    assert(texts(v@).take(i as int) =~= texts(v@));
    out
}

/// A board and what it is connected to, as a value.
pub struct BoardSpec {
    pub sender_id: Seq<char>,
    pub reachable_endpoints: Seq<DataEndpoint>,
    pub reachable_timesync_sources: Seq<Seq<char>>,
    pub connections: Seq<Seq<char>>,
}

/// A board and what it is connected to.
#[derive(Debug, PartialEq, Eq)]
pub struct TopologyBoardNode {
    pub sender_id: String,
    pub reachable_endpoints: Vec<DataEndpoint>,
    pub reachable_timesync_sources: Vec<String>,
    pub connections: Vec<String>,
}

impl View for TopologyBoardNode {
    type V = BoardSpec;

    open spec fn view(&self) -> BoardSpec {
        BoardSpec {
            sender_id: self.sender_id@,
            reachable_endpoints: self.reachable_endpoints@,
            reachable_timesync_sources: texts(self.reachable_timesync_sources@),
            connections: texts(self.connections@),
        }
    }
}

pub open spec fn board_bytes(b: BoardSpec) -> Seq<u8> {
    codec::text_bytes(b.sender_id) + definition::ids_bytes(b.reachable_endpoints) + texts_bytes(
        b.reachable_timesync_sources,
    ) + texts_bytes(b.connections)
}

pub open spec fn read_board(s: Seq<u8>) -> Option<(BoardSpec, Seq<u8>)> {
    match codec::read_text(s) {
        Some((sender_id, s1)) => match definition::read_ids(s1) {
            Some((reachable_endpoints, s2)) => match read_texts(s2) {
                Some((reachable_timesync_sources, s3)) => match read_texts(s3) {
                    Some((connections, s4)) => Some(
                        (
                            BoardSpec {
                                sender_id,
                                reachable_endpoints,
                                reachable_timesync_sources,
                                connections,
                            },
                            s4,
                        ),
                    ),
                    None => None,
                },
                None => None,
            },
            None => None,
        },
        None => None,
    }
}

/// Whether a board's parts are small enough to be written.
pub open spec fn short_board(b: BoardSpec) -> bool {
    &&& definition::short_text(b.sender_id)
    &&& b.reachable_endpoints.len() <= u64::MAX
    &&& short_texts(b.reachable_timesync_sources)
    &&& short_texts(b.connections)
}

/// Boards are read as they were written.
pub proof fn lemma_board_roundtrip(b: BoardSpec, rest: Seq<u8>)
    requires
        short_board(b),
    ensures
        read_board(board_bytes(b) + rest) == Some((b, rest)),
{
    let a = codec::text_bytes(b.sender_id);
    let e = definition::ids_bytes(b.reachable_endpoints);
    let t = texts_bytes(b.reachable_timesync_sources);
    let c = texts_bytes(b.connections);
    vstd::seq_lib::lemma_concat_associative(a + e + t, c, rest);
    vstd::seq_lib::lemma_concat_associative(a + e, t, c + rest);
    vstd::seq_lib::lemma_concat_associative(a, e, t + (c + rest));
    codec::lemma_text_roundtrip(b.sender_id, e + (t + (c + rest)));
    definition::lemma_ids_roundtrip(b.reachable_endpoints, t + (c + rest));
    lemma_texts_roundtrip(b.reachable_timesync_sources, c + rest);
    lemma_texts_roundtrip(b.connections, rest);
}

impl TopologyBoardNode {
    /// Appends the board.
    pub fn write(&self, out: &mut Vec<u8>)
        ensures
            final(out)@ == old(out)@ + board_bytes(self@),
    {
        let ghost base = out@;
        codec::write_text(out, self.sender_id.as_str());
        definition::write_ids(out, &self.reachable_endpoints);
        write_texts(out, &self.reachable_timesync_sources);
        write_texts(out, &self.connections);
        proof {
            let a = codec::text_bytes(self@.sender_id);
            let e = definition::ids_bytes(self@.reachable_endpoints);
            let t = texts_bytes(self@.reachable_timesync_sources);
            let c = texts_bytes(self@.connections);
            vstd::seq_lib::lemma_concat_associative(base, a, e);
            vstd::seq_lib::lemma_concat_associative(base, a + e, t);
            vstd::seq_lib::lemma_concat_associative(base, a + e + t, c);
        }
    }

    /// Reads the board that starts at `pos`.
    pub fn read_at(buf: &[u8], pos: usize) -> (r: Option<(Self, usize)>)
        requires
            pos <= buf@.len(),
        ensures
            codec::reads_view(r, read_board(buf@.skip(pos as int)), buf@, pos),
    {
        let (sender_id, p1) = match codec::read_text_at(buf, pos) {
            Some(x) => x,
            None => return None,
        };
        let (reachable_endpoints, p2) = match definition::read_ids_at(buf, p1) {
            Some(x) => x,
            None => return None,
        };
        let (reachable_timesync_sources, p3) = match read_texts_at(buf, p2) {
            Some(x) => x,
            None => return None,
        };
        let (connections, p4) = match read_texts_at(buf, p3) {
            Some(x) => x,
            None => return None,
        };
        Some(
            (
                TopologyBoardNode {
                    sender_id,
                    reachable_endpoints,
                    reachable_timesync_sources,
                    connections,
                },
                p4,
            ),
        )
    }

    /// A copy of the board.
    pub fn copied(&self) -> (r: Self)
        ensures
            r@ == self@,
    {
        TopologyBoardNode {
            sender_id: self.sender_id.clone(),
            reachable_endpoints: codec::copy_u32(&self.reachable_endpoints),
            reachable_timesync_sources: copy_texts(&self.reachable_timesync_sources),
            connections: copy_texts(&self.connections),
        }
    }
}

/// The boards of a list.
pub open spec fn boards(v: Seq<TopologyBoardNode>) -> Seq<BoardSpec> {
    v.map_values(|b: TopologyBoardNode| b@)
}

pub open spec fn board_items(v: Seq<BoardSpec>) -> Seq<u8>
    decreases v.len(),
{
    if v.len() == 0 {
        Seq::<u8>::empty()
    } else {
        board_bytes(v[0]) + board_items(v.skip(1))
    }
}

/// A list of boards: how many, then each.
pub open spec fn boards_bytes(v: Seq<BoardSpec>) -> Seq<u8> {
    varint::uleb(v.len()) + board_items(v)
}

pub open spec fn read_board_items(s: Seq<u8>, n: nat) -> Option<(Seq<BoardSpec>, Seq<u8>)>
    decreases n,
{
    if n == 0 {
        Some((Seq::<BoardSpec>::empty(), s))
    } else {
        match read_board(s) {
            Some((b, s1)) => match read_board_items(s1, (n - 1) as nat) {
                Some((v, s2)) => Some((seq![b] + v, s2)),
                None => None,
            },
            None => None,
        }
    }
}

pub open spec fn read_boards(s: Seq<u8>) -> Option<(Seq<BoardSpec>, Seq<u8>)> {
    match codec::read_int(s) {
        Some((n, s1)) => read_board_items(s1, n as nat),
        None => None,
    }
}

pub open spec fn short_boards(v: Seq<BoardSpec>) -> bool {
    &&& v.len() <= u64::MAX
    &&& forall|i: int| 0 <= i < v.len() ==> short_board(#[trigger] v[i])
}

proof fn lemma_board_items_roundtrip(v: Seq<BoardSpec>, rest: Seq<u8>)
    requires
        forall|i: int| 0 <= i < v.len() ==> short_board(#[trigger] v[i]),
    ensures
        read_board_items(board_items(v) + rest, v.len()) == Some((v, rest)),
    decreases v.len(),
{
    if v.len() == 0 {
        assert(board_items(v) + rest =~= rest);
        assert(v =~= Seq::<BoardSpec>::empty());
    } else {
        let tail = board_items(v.skip(1));
        assert(short_board(v[0]));
        vstd::seq_lib::lemma_concat_associative(board_bytes(v[0]), tail, rest);
        lemma_board_roundtrip(v[0], tail + rest);
        assert forall|i: int| 0 <= i < v.skip(1).len() implies short_board(
            #[trigger] v.skip(1)[i],
        ) by {
            assert(v.skip(1)[i] == v[i + 1]);
        }
        lemma_board_items_roundtrip(v.skip(1), rest);
        assert(seq![v[0]] + v.skip(1) =~= v);
    }
}

/// Lists of boards are read as they were written.
pub proof fn lemma_boards_roundtrip(v: Seq<BoardSpec>, rest: Seq<u8>)
    requires
        short_boards(v),
    ensures
        read_boards(boards_bytes(v) + rest) == Some((v, rest)),
{
    vstd::seq_lib::lemma_concat_associative(varint::uleb(v.len()), board_items(v), rest);
    codec::lemma_int_roundtrip(v.len() as u64, board_items(v) + rest);
    lemma_board_items_roundtrip(v, rest);
}

/// Appends a list of boards.
pub fn write_boards(out: &mut Vec<u8>, v: &Vec<TopologyBoardNode>)
    ensures
        final(out)@ == old(out)@ + boards_bytes(boards(v@)),
{
    let ghost origin = out@;
    varint::write_uleb(out, v.len() as u64);
    let ghost base = out@;
    let ghost all = boards(v@);
    let mut i: usize = 0;
    assert(all.skip(0) =~= all);
    while i < v.len()
        invariant
            i <= v@.len(),
            all == boards(v@),
            out@ + board_items(all.skip(i as int)) == base + board_items(all),
        decreases v@.len() - i,
    {
        let ghost here = all.skip(i as int);
        let ghost before = out@;
        assert(here.skip(1) =~= all.skip(i + 1));
        assert(here[0] == v@[i as int]@);
        v[i].write(out);
        proof {
            vstd::seq_lib::lemma_concat_associative(
                before,
                board_bytes(here[0]),
                board_items(all.skip(i + 1)),
            );
        }
        i = i + 1;
    }
    proof {
        assert(out@ + board_items(all.skip(i as int)) =~= out@);
        vstd::seq_lib::lemma_concat_associative(
            origin,
            varint::uleb(all.len()),
            board_items(all),
        );
    }
}

/// Reads the list of boards that starts at `pos`.
pub fn read_boards_at(buf: &[u8], pos: usize) -> (r: Option<(Vec<TopologyBoardNode>, usize)>)
    requires
        pos <= buf@.len(),
    ensures
        match read_boards(buf@.skip(pos as int)) {
            Some((x, rest)) => r matches Some((y, end)) && boards(y@) == x && pos <= end
                <= buf@.len() && rest == buf@.skip(end as int),
            None => r is None,
        },
{
    let (n, start) = match codec::read_int_at(buf, pos) {
        Some(x) => x,
        None => return None,
    };
    let mut v: Vec<TopologyBoardNode> = Vec::new();
    let mut p: usize = start;
    let mut left: u64 = n;
    proof {
        if let Some((t, rest)) = read_board_items(buf@.skip(start as int), n as nat) {
            assert(boards(v@) + t =~= t);
        }
    }
    while left > 0
        invariant
            pos <= start <= p <= buf@.len(),
            left <= n,
            read_boards(buf@.skip(pos as int)) == read_board_items(
                buf@.skip(start as int),
                n as nat,
            ),
            read_board_items(buf@.skip(start as int), n as nat) == (match read_board_items(
                buf@.skip(p as int),
                left as nat,
            ) {
                Some((t, rest)) => Some((boards(v@) + t, rest)),
                None => None::<(Seq<BoardSpec>, Seq<u8>)>,
            }),
        decreases left,
    {
        match TopologyBoardNode::read_at(buf, p) {
            Some((b, end)) => {
                let ghost before = boards(v@);
                let ghost bv = b@;
                v.push(b);
                proof {
                    assert(boards(v@) =~= before.push(bv));
                    if let Some((u, rest)) = read_board_items(
                        buf@.skip(end as int),
                        (left - 1) as nat,
                    ) {
                        assert(before + (seq![bv] + u) =~= boards(v@) + u);
                    }
                }
                p = end;
            },
            None => return None,
        }
        left = left - 1;
    }
    assert(boards(v@) + Seq::<BoardSpec>::empty() =~= boards(v@));
    Some((v, p))
}

/// What a link can do.
#[derive(Debug, Clone, Copy, PartialEq, Eq, Structural)]
pub struct LinkCapabilities {
    pub version: u8,
    pub flags: u32,
    pub profile: u8,
    pub max_frame_bytes: u32,
    pub compact_header_target_bytes: u32,
    pub max_side_transport_templates: u32,
}

pub open spec fn capability_bytes(c: LinkCapabilities) -> Seq<u8> {
    seq![c.version, c.profile] + codec::le4(c.flags) + codec::le4(c.max_frame_bytes) + codec::le4(
        c.compact_header_target_bytes,
    ) + codec::le4(c.max_side_transport_templates)
}

pub open spec fn read_capabilities(s: Seq<u8>) -> Option<(LinkCapabilities, Seq<u8>)> {
    if s.len() < 2 {
        None
    } else {
        match codec::read_le4(s.skip(2)) {
            Some((flags, s1)) => match codec::read_le4(s1) {
                Some((max_frame_bytes, s2)) => match codec::read_le4(s2) {
                    Some((compact_header_target_bytes, s3)) => match codec::read_le4(s3) {
                        Some((max_side_transport_templates, s4)) => Some(
                            (
                                LinkCapabilities {
                                    version: s[0],
                                    flags,
                                    profile: s[1],
                                    max_frame_bytes,
                                    compact_header_target_bytes,
                                    max_side_transport_templates,
                                },
                                s4,
                            ),
                        ),
                        None => None,
                    },
                    None => None,
                },
                None => None,
            },
            None => None,
        }
    }
}

/// Capabilities are read as they were written.
pub proof fn lemma_capabilities_roundtrip(c: LinkCapabilities, rest: Seq<u8>)
    ensures
        read_capabilities(capability_bytes(c) + rest) == Some((c, rest)),
{
    let h = seq![c.version, c.profile];
    let a = codec::le4(c.flags);
    let b = codec::le4(c.max_frame_bytes);
    let d = codec::le4(c.compact_header_target_bytes);
    let e = codec::le4(c.max_side_transport_templates);
    vstd::seq_lib::lemma_concat_associative(h + a + b + d, e, rest);
    vstd::seq_lib::lemma_concat_associative(h + a + b, d, e + rest);
    vstd::seq_lib::lemma_concat_associative(h + a, b, d + (e + rest));
    vstd::seq_lib::lemma_concat_associative(h, a, b + (d + (e + rest)));
    let tail = a + (b + (d + (e + rest)));
    assert((h + tail).skip(2) =~= tail);
    codec::lemma_le_roundtrip(0, c.flags, 0, b + (d + (e + rest)));
    codec::lemma_le_roundtrip(0, c.max_frame_bytes, 0, d + (e + rest));
    codec::lemma_le_roundtrip(0, c.compact_header_target_bytes, 0, e + rest);
    codec::lemma_le_roundtrip(0, c.max_side_transport_templates, 0, rest);
}

fn write_capabilities(out: &mut Vec<u8>, c: LinkCapabilities)
    ensures
        final(out)@ == old(out)@ + capability_bytes(c),
{
    let ghost base = out@;
    out.push(c.version);
    out.push(c.profile);
    assert(out@ =~= base + seq![c.version, c.profile]);
    codec::write_le4(out, c.flags);
    codec::write_le4(out, c.max_frame_bytes);
    codec::write_le4(out, c.compact_header_target_bytes);
    codec::write_le4(out, c.max_side_transport_templates);
    proof {
        let h = seq![c.version, c.profile];
        let a = codec::le4(c.flags);
        let b = codec::le4(c.max_frame_bytes);
        let d = codec::le4(c.compact_header_target_bytes);
        let e = codec::le4(c.max_side_transport_templates);
        vstd::seq_lib::lemma_concat_associative(base, h, a);
        vstd::seq_lib::lemma_concat_associative(base, h + a, b);
        vstd::seq_lib::lemma_concat_associative(base, h + a + b, d);
        vstd::seq_lib::lemma_concat_associative(base, h + a + b + d, e);
    }
}

fn read_capabilities_at(buf: &[u8], pos: usize) -> (r: Option<(LinkCapabilities, usize)>)
    requires
        pos <= buf@.len(),
    ensures
        codec::reads(r, read_capabilities(buf@.skip(pos as int)), buf@, pos),
{
    if buf.len() - pos < 2 {
        return None;
    }
    assert(buf@.skip(pos as int).skip(2) =~= buf@.skip(pos + 2));
    let (flags, p1) = match codec::read_le4_at(buf, pos + 2) {
        Some(x) => x,
        None => return None,
    };
    let (max_frame_bytes, p2) = match codec::read_le4_at(buf, p1) {
        Some(x) => x,
        None => return None,
    };
    let (compact_header_target_bytes, p3) = match codec::read_le4_at(buf, p2) {
        Some(x) => x,
        None => return None,
    };
    let (max_side_transport_templates, p4) = match codec::read_le4_at(buf, p3) {
        Some(x) => x,
        None => return None,
    };
    Some(
        (
            LinkCapabilities {
                version: buf[pos],
                flags,
                profile: buf[pos + 1],
                max_frame_bytes,
                compact_header_target_bytes,
                max_side_transport_templates,
            },
            p4,
        ),
    )
}

/// How a board came to its address.
pub const ADDRESS_MODE_DYNAMIC: u8 = 0;

pub const ADDRESS_MODE_STATIC: u8 = 1;

pub const ADDRESS_STATE_APPROVED: u8 = 1;

/// Everything that a board tells about itself at once, as a value.
pub struct AddressSpec {
    pub hostname: Seq<char>,
    pub address: u32,
    pub requested_address: u32,
    pub mode: u8,
    pub state: u8,
    pub birth_ms: u64,
    pub owner_hash: u64,
    pub reachable_endpoints: Seq<DataEndpoint>,
    pub reachable_network_variables: Seq<DataType>,
    pub reachable_timesync_sources: Seq<Seq<char>>,
    pub link_capabilities: LinkCapabilities,
}

/// Everything that a board tells about itself at once.
pub struct AddressAdvertisement {
    pub hostname: String,
    pub address: u32,
    pub requested_address: u32,
    pub mode: u8,
    pub state: u8,
    pub birth_ms: u64,
    pub owner_hash: u64,
    pub reachable_endpoints: Vec<DataEndpoint>,
    pub reachable_network_variables: Vec<DataType>,
    pub reachable_timesync_sources: Vec<String>,
    pub link_capabilities: LinkCapabilities,
}

impl View for AddressAdvertisement {
    type V = AddressSpec;

    open spec fn view(&self) -> AddressSpec {
        AddressSpec {
            hostname: self.hostname@,
            address: self.address,
            requested_address: self.requested_address,
            mode: self.mode,
            state: self.state,
            birth_ms: self.birth_ms,
            owner_hash: self.owner_hash,
            reachable_endpoints: self.reachable_endpoints@,
            reachable_network_variables: self.reachable_network_variables@,
            reachable_timesync_sources: texts(self.reachable_timesync_sources@),
            link_capabilities: self.link_capabilities,
        }
    }
}

/// The numbers of an advertisement.
pub open spec fn address_numbers(a: AddressSpec) -> Seq<u8> {
    codec::le4(a.address) + codec::le4(a.requested_address) + codec::le8(a.birth_ms) + codec::le8(
        a.owner_hash,
    )
}

/// The lists of an advertisement.
pub open spec fn address_lists(a: AddressSpec) -> Seq<u8> {
    definition::ids_bytes(a.reachable_endpoints) + definition::ids_bytes(
        a.reachable_network_variables,
    ) + texts_bytes(a.reachable_timesync_sources)
}

pub open spec fn address_bytes(a: AddressSpec) -> Seq<u8> {
    seq![a.mode, a.state] + address_numbers(a) + codec::text_bytes(a.hostname) + address_lists(a)
        + capability_bytes(a.link_capabilities)
}

/// What fits in a payload is short enough to be read back.
pub proof fn lemma_address_is_short(a: AddressSpec)
    requires
        address_bytes(a).len() <= u64::MAX,
    ensures
        short_address(a),
{
    let h = vstd::utf8::encode_utf8(a.hostname);
    assert(codec::text_bytes(a.hostname).len() == varint::uleb(h.len()).len() + h.len());
    assert(address_lists(a).len() <= address_bytes(a).len());
    definition::lemma_ids_count(a.reachable_endpoints);
    definition::lemma_ids_count(a.reachable_network_variables);
    lemma_texts_count(a.reachable_timesync_sources);
}

pub open spec fn read_address_numbers(s: Seq<u8>) -> Option<((u32, u32, u64, u64), Seq<u8>)> {
    match codec::read_le4(s) {
        Some((address, s1)) => match codec::read_le4(s1) {
            Some((requested, s2)) => match codec::read_le8(s2) {
                Some((birth, s3)) => match codec::read_le8(s3) {
                    Some((owner, s4)) => Some(((address, requested, birth, owner), s4)),
                    None => None,
                },
                None => None,
            },
            None => None,
        },
        None => None,
    }
}

pub open spec fn read_address_lists(s: Seq<u8>) -> Option<
    ((Seq<u32>, Seq<u32>, Seq<Seq<char>>), Seq<u8>),
> {
    match definition::read_ids(s) {
        Some((endpoints, s1)) => match definition::read_ids(s1) {
            Some((variables, s2)) => match read_texts(s2) {
                Some((sources, s3)) => Some(((endpoints, variables, sources), s3)),
                None => None,
            },
            None => None,
        },
        None => None,
    }
}

pub open spec fn read_address(s: Seq<u8>) -> Option<(AddressSpec, Seq<u8>)> {
    if s.len() < 2 {
        None
    } else {
        match read_address_numbers(s.skip(2)) {
            Some((n, s1)) => match codec::read_text(s1) {
                Some((hostname, s2)) => match read_address_lists(s2) {
                    Some((l, s3)) => match read_capabilities(s3) {
                        Some((link_capabilities, s4)) => Some(
                            (
                                AddressSpec {
                                    hostname,
                                    address: n.0,
                                    requested_address: n.1,
                                    mode: s[0],
                                    state: s[1],
                                    birth_ms: n.2,
                                    owner_hash: n.3,
                                    reachable_endpoints: l.0,
                                    reachable_network_variables: l.1,
                                    reachable_timesync_sources: l.2,
                                    link_capabilities,
                                },
                                s4,
                            ),
                        ),
                        None => None,
                    },
                    None => None,
                },
                None => None,
            },
            None => None,
        }
    }
}

/// Whether an advertisement's parts are small enough to be written.
pub open spec fn short_address(a: AddressSpec) -> bool {
    &&& definition::short_text(a.hostname)
    &&& a.reachable_endpoints.len() <= u64::MAX
    &&& a.reachable_network_variables.len() <= u64::MAX
    &&& short_texts(a.reachable_timesync_sources)
}

proof fn lemma_address_numbers_roundtrip(a: AddressSpec, rest: Seq<u8>)
    ensures
        read_address_numbers(address_numbers(a) + rest) == Some(
            ((a.address, a.requested_address, a.birth_ms, a.owner_hash), rest),
        ),
{
    let b = codec::le4(a.address);
    let c = codec::le4(a.requested_address);
    let d = codec::le8(a.birth_ms);
    let e = codec::le8(a.owner_hash);
    vstd::seq_lib::lemma_concat_associative(b + c + d, e, rest);
    vstd::seq_lib::lemma_concat_associative(b + c, d, e + rest);
    vstd::seq_lib::lemma_concat_associative(b, c, d + (e + rest));
    codec::lemma_le_roundtrip(0, a.address, 0, c + (d + (e + rest)));
    codec::lemma_le_roundtrip(0, a.requested_address, 0, d + (e + rest));
    codec::lemma_le_roundtrip(0, 0, a.birth_ms, e + rest);
    codec::lemma_le_roundtrip(0, 0, a.owner_hash, rest);
}

proof fn lemma_address_lists_roundtrip(a: AddressSpec, rest: Seq<u8>)
    requires
        short_address(a),
    ensures
        read_address_lists(address_lists(a) + rest) == Some(
            (
                (
                    a.reachable_endpoints,
                    a.reachable_network_variables,
                    a.reachable_timesync_sources,
                ),
                rest,
            ),
        ),
{
    let b = definition::ids_bytes(a.reachable_endpoints);
    let c = definition::ids_bytes(a.reachable_network_variables);
    let d = texts_bytes(a.reachable_timesync_sources);
    vstd::seq_lib::lemma_concat_associative(b + c, d, rest);
    vstd::seq_lib::lemma_concat_associative(b, c, d + rest);
    definition::lemma_ids_roundtrip(a.reachable_endpoints, c + (d + rest));
    definition::lemma_ids_roundtrip(a.reachable_network_variables, d + rest);
    lemma_texts_roundtrip(a.reachable_timesync_sources, rest);
}

/// Advertisements are read as they were written.
pub proof fn lemma_address_roundtrip(a: AddressSpec, rest: Seq<u8>)
    requires
        short_address(a),
    ensures
        read_address(address_bytes(a) + rest) == Some((a, rest)),
{
    let h = seq![a.mode, a.state];
    let n = address_numbers(a);
    let t = codec::text_bytes(a.hostname);
    let l = address_lists(a);
    let c = capability_bytes(a.link_capabilities);
    vstd::seq_lib::lemma_concat_associative(h + n + t + l, c, rest);
    vstd::seq_lib::lemma_concat_associative(h + n + t, l, c + rest);
    vstd::seq_lib::lemma_concat_associative(h + n, t, l + (c + rest));
    vstd::seq_lib::lemma_concat_associative(h, n, t + (l + (c + rest)));
    let tail = n + (t + (l + (c + rest)));
    assert((h + tail).skip(2) =~= tail);
    assert((h + tail)[0] == a.mode && (h + tail)[1] == a.state);
    lemma_address_numbers_roundtrip(a, t + (l + (c + rest)));
    codec::lemma_text_roundtrip(a.hostname, l + (c + rest));
    lemma_address_lists_roundtrip(a, c + rest);
    lemma_capabilities_roundtrip(a.link_capabilities, rest);
}

impl AddressAdvertisement {
    fn write(&self, out: &mut Vec<u8>)
        requires
            old(out)@.len() == 0,
        ensures
            final(out)@ == address_bytes(self@),
    {
        out.push(self.mode);
        out.push(self.state);
        assert(out@ =~= seq![self.mode, self.state]);
        let mut numbers: Vec<u8> = Vec::new();
        codec::write_le4(&mut numbers, self.address);
        assert(numbers@ =~= codec::le4(self.address));
        codec::write_le4(&mut numbers, self.requested_address);
        codec::write_le8(&mut numbers, self.birth_ms);
        codec::write_le8(&mut numbers, self.owner_hash);
        codec::write_bytes(out, &numbers);
        codec::write_text(out, self.hostname.as_str());
        let mut lists: Vec<u8> = Vec::new();
        definition::write_ids(&mut lists, &self.reachable_endpoints);
        assert(lists@ =~= definition::ids_bytes(self@.reachable_endpoints));
        definition::write_ids(&mut lists, &self.reachable_network_variables);
        write_texts(&mut lists, &self.reachable_timesync_sources);
        codec::write_bytes(out, &lists);
        write_capabilities(out, self.link_capabilities);
    }

    fn read_at(buf: &[u8], pos: usize) -> (r: Option<(Self, usize)>)
        requires
            pos <= buf@.len(),
        ensures
            codec::reads_view(r, read_address(buf@.skip(pos as int)), buf@, pos),
    {
        if buf.len() - pos < 2 {
            return None;
        }
        assert(buf@.skip(pos as int).skip(2) =~= buf@.skip(pos + 2));
        let (address, p1) = match codec::read_le4_at(buf, pos + 2) {
            Some(x) => x,
            None => return None,
        };
        let (requested_address, p2) = match codec::read_le4_at(buf, p1) {
            Some(x) => x,
            None => return None,
        };
        let (birth_ms, p3) = match codec::read_le8_at(buf, p2) {
            Some(x) => x,
            None => return None,
        };
        let (owner_hash, p4) = match codec::read_le8_at(buf, p3) {
            Some(x) => x,
            None => return None,
        };
        let (hostname, p5) = match codec::read_text_at(buf, p4) {
            Some(x) => x,
            None => return None,
        };
        let (reachable_endpoints, p6) = match definition::read_ids_at(buf, p5) {
            Some(x) => x,
            None => return None,
        };
        let (reachable_network_variables, p7) = match definition::read_ids_at(buf, p6) {
            Some(x) => x,
            None => return None,
        };
        let (reachable_timesync_sources, p8) = match read_texts_at(buf, p7) {
            Some(x) => x,
            None => return None,
        };
        let (link_capabilities, p9) = match read_capabilities_at(buf, p8) {
            Some(x) => x,
            None => return None,
        };
        Some(
            (
                AddressAdvertisement {
                    hostname,
                    address,
                    requested_address,
                    mode: buf[pos],
                    state: buf[pos + 1],
                    birth_ms,
                    owner_hash,
                    reachable_endpoints,
                    reachable_network_variables,
                    reachable_timesync_sources,
                    link_capabilities,
                },
                p9,
            ),
        )
    }
}

/// A snapshot of a schema: its endpoints, then its types.
pub open spec fn snapshot_bytes(s: SchemaSpec) -> Seq<u8> {
    table::entries_bytes::<EndpointDefinition>(s.endpoints) + table::entries_bytes::<
        DataTypeDefinition,
    >(s.types)
}

pub open spec fn read_snapshot(s: Seq<u8>) -> Option<(SchemaSpec, Seq<u8>)> {
    match table::read_entries::<EndpointDefinition>(s) {
        Some((endpoints, s1)) => match table::read_entries::<DataTypeDefinition>(s1) {
            Some((types, s2)) => Some((SchemaSpec { endpoints, types }, s2)),
            None => None,
        },
        None => None,
    }
}

/// Snapshots are read as they were written.
pub proof fn lemma_snapshot_roundtrip(s: SchemaSpec, rest: Seq<u8>)
    requires
        table::all_writable::<EndpointDefinition>(s.endpoints),
        table::all_writable::<DataTypeDefinition>(s.types),
    ensures
        read_snapshot(snapshot_bytes(s) + rest) == Some((s, rest)),
{
    let e = table::entries_bytes::<EndpointDefinition>(s.endpoints);
    let t = table::entries_bytes::<DataTypeDefinition>(s.types);
    vstd::seq_lib::lemma_concat_associative(e, t, rest);
    table::lemma_entries_roundtrip::<EndpointDefinition>(s.endpoints, t + rest);
    table::lemma_entries_roundtrip::<DataTypeDefinition>(s.types, rest);
}

/// A value that takes up a payload to its last byte.
pub open spec fn whole<T>(m: Option<(T, Seq<u8>)>) -> Option<T> {
    match m {
        Some((x, rest)) => if rest.len() == 0 {
            Some(x)
        } else {
            None
        },
        None => None,
    }
}

/// Makes a packet that tells about the network.
fn control_packet(
    reg: &mut Registry,
    ty: DataType,
    sender: &str,
    timestamp: u64,
    payload: Vec<u8>,
) -> (r: TelemetryResult<Packet>)
    ensures
        packet::packet_made(
            *old(reg),
            *final(reg),
            ty,
            seq![EP_DISCOVERY],
            sender@,
            timestamp,
            payload@,
            r,
        ),
{
    let mut endpoints: Vec<DataEndpoint> = Vec::new();
    endpoints.push(EP_DISCOVERY);
    assert(endpoints@ =~= seq![EP_DISCOVERY]);
    Packet::new(reg, ty, &endpoints, sender, timestamp, payload)
}

/// What reading the payload of a packet of type `ty` gives: another type, or a payload that does
/// not stand for what it should, is refused.
pub open spec fn decodes<T, R>(
    p: PacketSpec,
    ty: DataType,
    m: Option<T>,
    same: spec_fn(R, T) -> bool,
    r: TelemetryResult<R>,
) -> bool {
    if p.ty != ty {
        r == Err::<R, TelemetryError>(TelemetryError::InvalidType)
    } else {
        match m {
            Some(x) => r matches Ok(y) && same(y, x),
            None => r matches Err(TelemetryError::Unpack(_)),
        }
    }
}

/// Announces which endpoints a board reaches.
pub fn build_discovery_announce(
    reg: &mut Registry,
    sender: &str,
    timestamp: u64,
    endpoints: &[DataEndpoint],
) -> (r: TelemetryResult<Packet>)
    ensures
        packet::packet_made(
            *old(reg),
            *final(reg),
            TY_DISCOVERY_ANNOUNCE,
            seq![EP_DISCOVERY],
            sender@,
            timestamp,
            definition::ids_bytes(endpoints@),
            r,
        ),
{
    let mut payload: Vec<u8> = Vec::new();
    definition::write_ids(&mut payload, endpoints);
    assert(payload@ =~= definition::ids_bytes(endpoints@));
    control_packet(reg, TY_DISCOVERY_ANNOUNCE, sender, timestamp, payload)
}

/// The endpoints that an announcement names.
pub fn decode_discovery_announce(p: &Packet) -> (r: TelemetryResult<Vec<DataEndpoint>>)
    ensures
        decodes(
            p@,
            TY_DISCOVERY_ANNOUNCE,
            whole(definition::read_ids(p@.payload)),
            |y: Vec<DataEndpoint>, x: Seq<DataEndpoint>| y@ == x,
            r,
        ),
{
    if p.data_type() != TY_DISCOVERY_ANNOUNCE {
        return Err(TelemetryError::InvalidType);
    }
    assert(p@.payload.skip(0) =~= p@.payload);
    match definition::read_ids_at(p.payload(), 0) {
        Some((ids, end)) => if end == p.payload().len() {
            Ok(ids)
        } else {
            Err(TelemetryError::Unpack("discovery payload"))
        },
        None => Err(TelemetryError::Unpack("discovery payload")),
    }
}

/// Announces which boards give the time.
pub fn build_discovery_timesync_sources(
    reg: &mut Registry,
    sender: &str,
    timestamp: u64,
    sources: &Vec<String>,
) -> (r: TelemetryResult<Packet>)
    ensures
        packet::packet_made(
            *old(reg),
            *final(reg),
            TY_DISCOVERY_TIMESYNC_SOURCES,
            seq![EP_DISCOVERY],
            sender@,
            timestamp,
            texts_bytes(texts(sources@)),
            r,
        ),
{
    let mut payload: Vec<u8> = Vec::new();
    write_texts(&mut payload, sources);
    assert(payload@ =~= texts_bytes(texts(sources@)));
    control_packet(reg, TY_DISCOVERY_TIMESYNC_SOURCES, sender, timestamp, payload)
}

/// The boards that a packet says give the time.
pub fn decode_discovery_timesync_sources(p: &Packet) -> (r: TelemetryResult<Vec<String>>)
    ensures
        decodes(
            p@,
            TY_DISCOVERY_TIMESYNC_SOURCES,
            whole(read_texts(p@.payload)),
            |y: Vec<String>, x: Seq<Seq<char>>| texts(y@) == x,
            r,
        ),
{
    if p.data_type() != TY_DISCOVERY_TIMESYNC_SOURCES {
        return Err(TelemetryError::InvalidType);
    }
    assert(p@.payload.skip(0) =~= p@.payload);
    match read_texts_at(p.payload(), 0) {
        Some((v, end)) => if end == p.payload().len() {
            Ok(v)
        } else {
            Err(TelemetryError::Unpack("discovery payload"))
        },
        None => Err(TelemetryError::Unpack("discovery payload")),
    }
}

/// Announces which boards there are and how they are connected.
pub fn build_discovery_topology(
    reg: &mut Registry,
    sender: &str,
    timestamp: u64,
    list: &Vec<TopologyBoardNode>,
) -> (r: TelemetryResult<Packet>)
    ensures
        packet::packet_made(
            *old(reg),
            *final(reg),
            TY_DISCOVERY_TOPOLOGY,
            seq![EP_DISCOVERY],
            sender@,
            timestamp,
            boards_bytes(boards(list@)),
            r,
        ),
{
    let mut payload: Vec<u8> = Vec::new();
    write_boards(&mut payload, list);
    assert(payload@ =~= boards_bytes(boards(list@)));
    control_packet(reg, TY_DISCOVERY_TOPOLOGY, sender, timestamp, payload)
}

/// The boards that a packet tells of.
pub fn decode_discovery_topology(p: &Packet) -> (r: TelemetryResult<Vec<TopologyBoardNode>>)
    ensures
        decodes(
            p@,
            TY_DISCOVERY_TOPOLOGY,
            whole(read_boards(p@.payload)),
            |y: Vec<TopologyBoardNode>, x: Seq<BoardSpec>| boards(y@) == x,
            r,
        ),
{
    if p.data_type() != TY_DISCOVERY_TOPOLOGY {
        return Err(TelemetryError::InvalidType);
    }
    assert(p@.payload.skip(0) =~= p@.payload);
    match read_boards_at(p.payload(), 0) {
        Some((v, end)) => if end == p.payload().len() {
            Ok(v)
        } else {
            Err(TelemetryError::Unpack("discovery payload"))
        },
        None => Err(TelemetryError::Unpack("discovery payload")),
    }
}

/// Announces what a link can do.
pub fn build_discovery_link_capabilities(
    reg: &mut Registry,
    sender: &str,
    timestamp: u64,
    c: LinkCapabilities,
) -> (r: TelemetryResult<Packet>)
    ensures
        packet::packet_made(
            *old(reg),
            *final(reg),
            TY_DISCOVERY_LINK_CAPABILITIES,
            seq![EP_DISCOVERY],
            sender@,
            timestamp,
            capability_bytes(c),
            r,
        ),
{
    let mut payload: Vec<u8> = Vec::new();
    write_capabilities(&mut payload, c);
    assert(payload@ =~= capability_bytes(c));
    control_packet(reg, TY_DISCOVERY_LINK_CAPABILITIES, sender, timestamp, payload)
}

/// What a packet says that a link can do.
pub fn decode_discovery_link_capabilities(p: &Packet) -> (r: TelemetryResult<LinkCapabilities>)
    ensures
        decodes(
            p@,
            TY_DISCOVERY_LINK_CAPABILITIES,
            whole(read_capabilities(p@.payload)),
            |y: LinkCapabilities, x: LinkCapabilities| y == x,
            r,
        ),
{
    if p.data_type() != TY_DISCOVERY_LINK_CAPABILITIES {
        return Err(TelemetryError::InvalidType);
    }
    assert(p@.payload.skip(0) =~= p@.payload);
    match read_capabilities_at(p.payload(), 0) {
        Some((c, end)) => if end == p.payload().len() {
            Ok(c)
        } else {
            Err(TelemetryError::Unpack("discovery payload"))
        },
        None => Err(TelemetryError::Unpack("discovery payload")),
    }
}

/// Announces everything about a board at once.
pub fn build_discovery_address(
    reg: &mut Registry,
    sender: &str,
    timestamp: u64,
    a: &AddressAdvertisement,
) -> (r: TelemetryResult<Packet>)
    ensures
        packet::packet_made(
            *old(reg),
            *final(reg),
            TY_DISCOVERY_ADDRESS,
            seq![EP_DISCOVERY],
            sender@,
            timestamp,
            address_bytes(a@),
            r,
        ),
{
    let mut payload: Vec<u8> = Vec::new();
    a.write(&mut payload);
    control_packet(reg, TY_DISCOVERY_ADDRESS, sender, timestamp, payload)
}

/// What a board said about itself.
pub fn decode_discovery_address(p: &Packet) -> (r: TelemetryResult<AddressAdvertisement>)
    ensures
        decodes(
            p@,
            TY_DISCOVERY_ADDRESS,
            whole(read_address(p@.payload)),
            |y: AddressAdvertisement, x: AddressSpec| y@ == x,
            r,
        ),
{
    if p.data_type() != TY_DISCOVERY_ADDRESS {
        return Err(TelemetryError::InvalidType);
    }
    assert(p@.payload.skip(0) =~= p@.payload);
    match AddressAdvertisement::read_at(p.payload(), 0) {
        Some((a, end)) => if end == p.payload().len() {
            Ok(a)
        } else {
            Err(TelemetryError::Unpack("discovery payload"))
        },
        None => Err(TelemetryError::Unpack("discovery payload")),
    }
}

/// Announces definitions.
pub fn build_discovery_schema_from_snapshot(
    reg: &mut Registry,
    sender: &str,
    timestamp: u64,
    snapshot: &SchemaSnapshot,
) -> (r: TelemetryResult<Packet>)
    ensures
        packet::packet_made(
            *old(reg),
            *final(reg),
            TY_DISCOVERY_SCHEMA,
            seq![EP_DISCOVERY],
            sender@,
            timestamp,
            snapshot_bytes(snapshot@),
            r,
        ),
{
    control_packet(reg, TY_DISCOVERY_SCHEMA, sender, timestamp, snapshot_payload(snapshot))
}

/// Definitions as they are written into a packet.
pub fn snapshot_payload(snapshot: &SchemaSnapshot) -> (out: Vec<u8>)
    ensures
        out@ == snapshot_bytes(snapshot@),
{
    let mut out: Vec<u8> = Vec::new();
    table::write_entries(&mut out, &snapshot.endpoints);
    assert(out@ =~= table::entries_bytes::<EndpointDefinition>(snapshot@.endpoints));
    table::write_entries(&mut out, &snapshot.types);
    out
}

/// The definitions that a packet tells of.
pub fn decode_discovery_schema(p: &Packet) -> (r: TelemetryResult<SchemaSnapshot>)
    ensures
        decodes(
            p@,
            TY_DISCOVERY_SCHEMA,
            whole(read_snapshot(p@.payload)),
            |y: SchemaSnapshot, x: SchemaSpec| y@ == x,
            r,
        ),
{
    if p.data_type() != TY_DISCOVERY_SCHEMA {
        return Err(TelemetryError::InvalidType);
    }
    assert(p@.payload.skip(0) =~= p@.payload);
    match table::read_entries_at::<EndpointDefinition>(p.payload(), 0) {
        Some((endpoints, middle)) => match table::read_entries_at::<DataTypeDefinition>(
            p.payload(),
            middle,
        ) {
            Some((types, end)) => if end == p.payload().len() {
                Ok(SchemaSnapshot { endpoints, types })
            } else {
                Err(TelemetryError::Unpack("discovery payload"))
            },
            None => Err(TelemetryError::Unpack("discovery payload")),
        },
        None => Err(TelemetryError::Unpack("discovery payload")),
    }
}

/// Announces that a board goes away.
pub fn build_discovery_leave(reg: &mut Registry, sender: &str, timestamp: u64) -> (r:
    TelemetryResult<Packet>)
    ensures
        packet::packet_made(
            *old(reg),
            *final(reg),
            TY_DISCOVERY_LEAVE,
            seq![EP_DISCOVERY],
            sender@,
            timestamp,
            Seq::<u8>::empty(),
            r,
        ),
{
    control_packet(reg, TY_DISCOVERY_LEAVE, sender, timestamp, Vec::new())
}

/// Asks which boards there are, or for definitions; `on` says that another board asked first.
pub fn build_discovery_request(
    reg: &mut Registry,
    ty: DataType,
    sender: &str,
    timestamp: u64,
    on: bool,
) -> (r: TelemetryResult<Packet>)
    ensures
        packet::packet_made(
            *old(reg),
            *final(reg),
            ty,
            seq![EP_DISCOVERY],
            sender@,
            timestamp,
            request_bytes(on),
            r,
        ),
{
    let mut payload: Vec<u8> = Vec::new();
    if on {
        payload.push(1);
    }
    assert(payload@ =~= request_bytes(on));
    control_packet(reg, ty, sender, timestamp, payload)
}

/// The payload of a question.
pub open spec fn request_bytes(on: bool) -> Seq<u8> {
    if on {
        seq![1u8]
    } else {
        Seq::empty()
    }
}

/// What is announced is what is read: of endpoints, time sources, boards, links, addresses and
/// definitions.
pub proof fn lemma_announcements_roundtrip(
    ids: Seq<DataEndpoint>,
    sources: Seq<Seq<char>>,
    list: Seq<BoardSpec>,
    c: LinkCapabilities,
    a: AddressSpec,
    s: SchemaSpec,
)
    requires
        ids.len() <= u64::MAX,
        short_texts(sources),
        short_boards(list),
        short_address(a),
        table::all_writable::<EndpointDefinition>(s.endpoints),
        table::all_writable::<DataTypeDefinition>(s.types),
    ensures
        whole(definition::read_ids(definition::ids_bytes(ids))) == Some(ids),
        whole(read_texts(texts_bytes(sources))) == Some(sources),
        whole(read_boards(boards_bytes(list))) == Some(list),
        whole(read_capabilities(capability_bytes(c))) == Some(c),
        whole(read_address(address_bytes(a))) == Some(a),
        whole(read_snapshot(snapshot_bytes(s))) == Some(s),
{
    let none = Seq::<u8>::empty();
    definition::lemma_ids_roundtrip(ids, none);
    assert(definition::ids_bytes(ids) + none =~= definition::ids_bytes(ids));
    lemma_texts_roundtrip(sources, none);
    assert(texts_bytes(sources) + none =~= texts_bytes(sources));
    lemma_boards_roundtrip(list, none);
    assert(boards_bytes(list) + none =~= boards_bytes(list));
    lemma_capabilities_roundtrip(c, none);
    assert(capability_bytes(c) + none =~= capability_bytes(c));
    lemma_address_roundtrip(a, none);
    assert(address_bytes(a) + none =~= address_bytes(a));
    lemma_snapshot_roundtrip(s, none);
    assert(snapshot_bytes(s) + none =~= snapshot_bytes(s));
}

} // verus!
