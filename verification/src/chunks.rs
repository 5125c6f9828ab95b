//! Frames that are too long for a link.
use vstd::prelude::*;
use crate::codec;

verus! {

/// Bytes in front of the piece of a frame.
pub const CHUNK_HEAD: usize = 12;

/// A link keeps at most this many frames of which pieces are missing.
pub const MAX_PARTIAL_TRANSFERS: usize = 4;

/// The byte that tells a piece from other frames of a link.
pub const SIDE_TRANSPORT_KIND_CHUNK: u8 = 3;

/// The front of a frame of a link: it says what the frame is.
pub open spec fn mark(kind: u8) -> Seq<u8> {
    seq![83u8, 68u8, 84u8, kind]
}

/// Whether a frame says that it is of a kind.
pub open spec fn marked(s: Seq<u8>, kind: u8) -> bool {
    s.len() >= 4 && s[0] == 83 && s[1] == 68 && s[2] == 84 && s[3] == kind
}

/// A frame cut into pieces of `size` bytes, of which the last may be shorter.
pub open spec fn pieces(s: Seq<u8>, size: nat) -> Seq<Seq<u8>>
    decreases s.len(),
{
    if size == 0 || s.len() <= size {
        seq![s]
    } else {
        seq![s.take(size as int)] + pieces(s.skip(size as int), size)
    }
}

/// Pieces one after the other.
pub open spec fn joined(v: Seq<Seq<u8>>) -> Seq<u8>
    decreases v.len(),
{
    if v.len() == 0 {
        Seq::empty()
    } else {
        v[0] + joined(v.skip(1))
    }
}

/// Pieces make the frame that they were cut from.
pub proof fn lemma_pieces_join(s: Seq<u8>, size: nat)
    ensures
        joined(pieces(s, size)) == s,
        pieces(s, size).len() > 0,
    decreases s.len(),
{
    let v = pieces(s, size);
    if size == 0 || s.len() <= size {
        assert(v.skip(1) =~= Seq::empty());
        assert(joined(v.skip(1)) =~= Seq::empty());
        assert(joined(v) =~= s);
    } else {
        lemma_pieces_join(s.skip(size as int), size);
        assert(v.skip(1) =~= pieces(s.skip(size as int), size));
        assert(s =~= s.take(size as int) + s.skip(size as int));
    }
}

/// No piece is longer than it may be.
pub proof fn lemma_pieces_fit(s: Seq<u8>, size: nat, i: int)
    requires
        size > 0,
        0 <= i < pieces(s, size).len(),
    ensures
        pieces(s, size)[i].len() <= size,
    decreases s.len(),
{
    if s.len() > size && i > 0 {
        lemma_pieces_fit(s.skip(size as int), size, i - 1);
    }
}

proof fn lemma_pieces_count(s: Seq<u8>, size: nat)
    ensures
        size > 0 ==> pieces(s, size).len() <= s.len() + 1,
    decreases s.len(),
{
    if size > 0 && s.len() > size {
        lemma_pieces_count(s.skip(size as int), size);
    }
}

/// A piece as it is sent.
pub open spec fn chunk(id: u32, index: u16, count: u16, piece: Seq<u8>) -> Seq<u8> {
    mark(SIDE_TRANSPORT_KIND_CHUNK) + (codec::le4(id) + (codec::le2(index) + (codec::le2(count)
        + piece)))
}

/// All pieces of a frame as they are sent.
pub open spec fn chunks_of(id: u32, v: Seq<Seq<u8>>) -> Seq<Seq<u8>> {
    Seq::new(v.len(), |i: int| chunk(id, i as u16, v.len() as u16, v[i]))
}

/// Whether a frame can be cut for a link that takes `max` bytes.
pub open spec fn can_split(s: Seq<u8>, max: usize) -> bool {
    max == 0 || s.len() <= max || (max > CHUNK_HEAD && pieces(
        s,
        (max - CHUNK_HEAD) as nat,
    ).len() <= u16::MAX)
}

/// What is sent of a frame over a link that takes `max` bytes; a link that takes any number says
/// zero.
pub open spec fn split_up(s: Seq<u8>, id: u32, max: usize) -> Seq<Seq<u8>> {
    if max == 0 || s.len() <= max {
        seq![s]
    } else {
        chunks_of(id, pieces(s, (max - CHUNK_HEAD) as nat))
    }
}

/// Nothing is sent that is longer than the link takes.
pub proof fn lemma_split_fits(s: Seq<u8>, id: u32, max: usize, i: int)
    requires
        max > 0,
        can_split(s, max),
        0 <= i < split_up(s, id, max).len(),
    ensures
        split_up(s, id, max)[i].len() <= max,
{
    if s.len() > max {
        lemma_pieces_fit(s, (max - CHUNK_HEAD) as nat, i);
        codec::lemma_le_roundtrip(0, id, 0, Seq::empty());
    }
}

/// The number of the pieces of a frame: the upper part comes from the board that sends it.
pub open spec fn transfer_id(address: u32, n: u32) -> u32 {
    (address % 1048576 * 4096 + n % 4096) as u32
}

/// Frames that a board sends one after the other, and frames of boards whose addresses differ in
/// the lower part, are told apart.
pub proof fn lemma_transfers_differ(a: u32, m: u32, b: u32, n: u32)
    ensures
        transfer_id(a, m) == transfer_id(b, n) <==> a % 1048576 == b % 1048576 && m % 4096 == n
            % 4096,
{
    assert(transfer_id(a, m) == a % 1048576 * 4096 + m % 4096);
    assert(transfer_id(b, n) == b % 1048576 * 4096 + n % 4096);
}

/// What a piece says: the number of its frame, its place, how many there are, and the bytes.
pub open spec fn read_chunk(s: Seq<u8>) -> Option<(u32, u16, u16, Seq<u8>)> {
    if !marked(s, SIDE_TRANSPORT_KIND_CHUNK) {
        None
    } else {
        match codec::read_le4(s.skip(4)) {
            Some((id, s1)) => match codec::read_le2(s1) {
                Some((index, s2)) => match codec::read_le2(s2) {
                    Some((count, piece)) => Some((id, index, count, piece)),
                    None => None,
                },
                None => None,
            },
            None => None,
        }
    }
}

/// A piece is read as it was sent.
pub proof fn lemma_chunk_roundtrip(id: u32, index: u16, count: u16, piece: Seq<u8>)
    ensures
        read_chunk(chunk(id, index, count, piece)) == Some((id, index, count, piece)),
{
    let c = codec::le2(count) + piece;
    let b = codec::le2(index) + c;
    let a = codec::le4(id) + b;
    codec::lemma_le_roundtrip(index, id, 0, b);
    codec::lemma_le_roundtrip(index, id, 0, c);
    codec::lemma_le_roundtrip(count, id, 0, piece);
    assert((mark(SIDE_TRANSPORT_KIND_CHUNK) + a).skip(4) =~= a);
}

/// A frame of which pieces are missing, as a value.
#[verifier::ext_equal]
pub struct PartialSpec {
    pub id: u32,
    pub slots: Seq<Option<Seq<u8>>>,
}

/// Whether every piece is there.
pub open spec fn complete(v: Seq<Option<Seq<u8>>>) -> bool {
    forall|i: int| 0 <= i < v.len() ==> (#[trigger] v[i]) is Some
}

/// The pieces that are there.
pub open spec fn filled(v: Seq<Option<Seq<u8>>>) -> Seq<Seq<u8>> {
    v.map_values(
        |x: Option<Seq<u8>>|
            match x {
                Some(b) => b,
                None => Seq::<u8>::empty(),
            },
    )
}

pub open spec fn no_pieces(count: nat) -> Seq<Option<Seq<u8>>> {
    Seq::new(count, |i: int| None::<Seq<u8>>)
}

/// The place of the frame with a number.
pub open spec fn place_of(t: Seq<PartialSpec>, id: u32) -> Option<int>
    decreases t.len(),
{
    if t.len() == 0 {
        None
    } else if t.last().id == id {
        Some(t.len() - 1)
    } else {
        place_of(t.drop_last(), id)
    }
}

/// The pieces of a frame that are there.
pub open spec fn slots_of(t: Seq<PartialSpec>, id: u32, count: u16) -> Seq<Option<Seq<u8>>> {
    match place_of(t, id) {
        Some(i) => if t[i].slots.len() == count {
            t[i].slots
        } else {
            no_pieces(count as nat)
        },
        None => no_pieces(count as nat),
    }
}

/// All frames but the one with a number.
pub open spec fn without(t: Seq<PartialSpec>, id: u32) -> Seq<PartialSpec> {
    match place_of(t, id) {
        Some(i) => t.remove(i),
        None => t,
    }
}

/// The frames that came last.
pub open spec fn latest(t: Seq<PartialSpec>) -> Seq<PartialSpec> {
    if t.len() <= MAX_PARTIAL_TRANSFERS {
        t
    } else {
        t.skip(t.len() - MAX_PARTIAL_TRANSFERS)
    }
}

/// The frames of which pieces are missing after a piece came, and the frame that it completed. A
/// piece that cannot be one does nothing. Where there is no room, the frame that waited longest
/// is given up.
pub open spec fn collected(
    t: Seq<PartialSpec>,
    id: u32,
    index: u16,
    count: u16,
    piece: Seq<u8>,
) -> (Seq<PartialSpec>, Option<Seq<u8>>) {
    if index >= count {
        (t, None)
    } else {
        let slots = slots_of(t, id, count).update(index as int, Some(piece));
        if complete(slots) {
            (without(t, id), Some(joined(filled(slots))))
        } else {
            (latest(without(t, id).push(PartialSpec { id, slots })), None)
        }
    }
}

proof fn lemma_place_bounds(t: Seq<PartialSpec>, id: u32)
    ensures
        place_of(t, id) matches Some(i) ==> 0 <= i < t.len() && t[i].id == id,
    decreases t.len(),
{
    if t.len() > 0 && t.last().id != id {
        lemma_place_bounds(t.drop_last(), id);
    }
}

/// Whatever comes, no more frames are kept than there is room for.
pub proof fn lemma_partials_are_bounded(
    t: Seq<PartialSpec>,
    id: u32,
    index: u16,
    count: u16,
    piece: Seq<u8>,
)
    requires
        t.len() <= MAX_PARTIAL_TRANSFERS,
    ensures
        collected(t, id, index, count, piece).0.len() <= MAX_PARTIAL_TRANSFERS,
{
    lemma_place_bounds(t, id);
}

/// The frames of which pieces are missing after pieces came, and what the last of them completed.
pub open spec fn collected_all(t: Seq<PartialSpec>, v: Seq<Seq<u8>>) -> (
    Seq<PartialSpec>,
    Option<Seq<u8>>,
)
    decreases v.len(),
{
    if v.len() == 0 {
        (t, None)
    } else {
        match read_chunk(v.last()) {
            Some((id, index, count, piece)) => collected(
                collected_all(t, v.drop_last()).0,
                id,
                index,
                count,
                piece,
            ),
            None => (collected_all(t, v.drop_last()).0, None),
        }
    }
}

/// The first pieces of a frame, in their places.
pub open spec fn first_slots(v: Seq<Seq<u8>>, k: int) -> Seq<Option<Seq<u8>>> {
    Seq::new(
        v.len(),
        |i: int|
            if i < k {
                Some(v[i])
            } else {
                None
            },
    )
}

proof fn lemma_collect_prefix(t: Seq<PartialSpec>, id: u32, v: Seq<Seq<u8>>, k: int)
    requires
        place_of(t, id) is None,
        0 <= k < v.len() <= u16::MAX,
    ensures
        ({
            let (after, r) = collected_all(t, chunks_of(id, v).take(k));
            &&& r is None
            &&& k == 0 ==> after == t
            &&& k > 0 ==> after.len() > 0 && after.last() == (PartialSpec {
                id,
                slots: first_slots(v, k),
            }) && (after.len() == MAX_PARTIAL_TRANSFERS || after.drop_last() == t)
        }),
    decreases k,
{
    let list = chunks_of(id, v).take(k);
    if k > 0 {
        lemma_collect_prefix(t, id, v, k - 1);
        assert(list.drop_last() =~= chunks_of(id, v).take(k - 1));
        assert(list.last() == chunk(id, (k - 1) as u16, v.len() as u16, v[k - 1]));
        lemma_chunk_roundtrip(id, (k - 1) as u16, v.len() as u16, v[k - 1]);
        let before = collected_all(t, list.drop_last()).0;
        let slots = slots_of(before, id, v.len() as u16);
        assert(first_slots(v, 0) =~= no_pieces(v.len()));
        assert(slots == first_slots(v, k - 1));
        let next = slots.update(k - 1, Some(v[k - 1]));
        assert(next =~= first_slots(v, k));
        assert(next[v.len() - 1] is None);
        let kept = without(before, id);
        if k > 1 {
            assert(kept =~= before.drop_last());
        }
        assert(kept.push(PartialSpec { id, slots: next }).last() == (PartialSpec {
            id,
            slots: next,
        }));
        assert(kept.push(PartialSpec { id, slots: next }).drop_last() =~= kept);
    }
}

/// A frame that was cut comes back whole with its last piece, and with no piece before, where no
/// pieces of a frame with its number are waiting.
pub proof fn lemma_split_comes_back(t: Seq<PartialSpec>, s: Seq<u8>, id: u32, max: usize, k: int)
    requires
        place_of(t, id) is None,
        max > 0,
        s.len() > max,
        can_split(s, max),
        0 <= k <= split_up(s, id, max).len(),
    ensures
        collected_all(t, split_up(s, id, max).take(k)).1 == (if k == split_up(s, id, max).len() {
            Some(s)
        } else {
            None
        }),
{
    let v = pieces(s, (max - CHUNK_HEAD) as nat);
    let list = split_up(s, id, max);
    lemma_pieces_join(s, (max - CHUNK_HEAD) as nat);
    if k < v.len() {
        lemma_collect_prefix(t, id, v, k);
    } else {
        lemma_collect_prefix(t, id, v, k - 1);
        let w = list.take(k);
        assert(w.drop_last() =~= list.take(k - 1));
        assert(w.last() == chunk(id, (k - 1) as u16, v.len() as u16, v[k - 1]));
        lemma_chunk_roundtrip(id, (k - 1) as u16, v.len() as u16, v[k - 1]);
        let before = collected_all(t, w.drop_last()).0;
        assert(first_slots(v, 0) =~= no_pieces(v.len()));
        let slots = slots_of(before, id, v.len() as u16);
        assert(slots == first_slots(v, k - 1));
        let next = slots.update(k - 1, Some(v[k - 1]));
        assert(next =~= first_slots(v, k));
        assert(complete(next));
        assert(filled(next) =~= v);
    }
}

/// Byte strings as values.
pub open spec fn byte_lists(v: Seq<Vec<u8>>) -> Seq<Seq<u8>> {
    v.map_values(|x: Vec<u8>| x@)
}

fn cut_up(s: &[u8], size: usize, most: usize) -> (r: Option<Vec<Vec<u8>>>)
    requires
        size > 0,
        most > 0,
    ensures
        match r {
            Some(v) => byte_lists(v@) == pieces(s@, size as nat) && v@.len() <= most,
            None => pieces(s@, size as nat).len() > most,
        },
{
    let total: usize = s.len();
    let mut v: Vec<Vec<u8>> = Vec::new();
    let mut pos: usize = 0;
    proof {
        assert(s@.skip(0) =~= s@);
        assert(byte_lists(v@) + pieces(s@, size as nat) =~= pieces(s@, size as nat));
    }
    while total - pos > size
        invariant
            size > 0,
            most > 0,
            total == s@.len(),
            pos <= total,
            byte_lists(v@) + pieces(s@.skip(pos as int), size as nat) == pieces(s@, size as nat),
            v@.len() < most,
        decreases total - pos,
    {
        let ghost before = v@;
        let p: Vec<u8> = codec::copy_range(s, pos, pos + size);
        let ghost pv = p@;
        v.push(p);
        proof {
            let rest = s@.skip(pos as int);
            assert(pv =~= rest.take(size as int));
            assert(rest.skip(size as int) =~= s@.skip(pos + size));
            assert(byte_lists(v@) =~= byte_lists(before).push(pv));
            assert(byte_lists(before) + (seq![pv] + pieces(rest.skip(size as int), size as nat))
                =~= byte_lists(v@) + pieces(rest.skip(size as int), size as nat));
        }
        pos = pos + size;
        if v.len() >= most {
            proof {
                lemma_pieces_join(s@.skip(pos as int), size as nat);
            }
            return None;
        }
    }
    let ghost before = v@;
    let p: Vec<u8> = codec::copy_range(s, pos, total);
    let ghost pv = p@;
    v.push(p);
    proof {
        assert(pv =~= s@.skip(pos as int));
        assert(byte_lists(v@) =~= byte_lists(before) + seq![pv]);
    }
    Some(v)
}

fn make_chunk(id: u32, index: u16, count: u16, piece: &[u8]) -> (out: Vec<u8>)
    ensures
        out@ == chunk(id, index, count, piece@),
{
    let mut out: Vec<u8> = Vec::new();
    out.push(83);
    out.push(68);
    out.push(84);
    out.push(SIDE_TRANSPORT_KIND_CHUNK);
    codec::write_le4(&mut out, id);
    codec::write_le2(&mut out, index);
    codec::write_le2(&mut out, count);
    codec::write_bytes(&mut out, piece);
    assert(out@ =~= chunk(id, index, count, piece@));
    out
}

/// Cuts a frame for a link that takes `max` bytes.
pub fn split(s: Vec<u8>, id: u32, max: usize) -> (r: Option<Vec<Vec<u8>>>)
    ensures
        match r {
            Some(v) => can_split(s@, max) && byte_lists(v@) == split_up(s@, id, max),
            None => !can_split(s@, max),
        },
{
    if max == 0 || s.len() <= max {
        let mut v: Vec<Vec<u8>> = Vec::new();
        let ghost sv = s@;
        v.push(s);
        assert(byte_lists(v@) =~= seq![sv]);
        return Some(v);
    }
    if max <= CHUNK_HEAD {
        return None;
    }
    let list: Vec<Vec<u8>> = match cut_up(s.as_slice(), max - CHUNK_HEAD, 65535) {
        Some(x) => x,
        None => return None,
    };
    let ghost all = byte_lists(list@);
    let count: u16 = list.len() as u16;
    let mut v: Vec<Vec<u8>> = Vec::new();
    let mut i: usize = 0;
    assert(byte_lists(v@) =~= chunks_of(id, all).take(0));
    while i < list.len()
        invariant
            i <= list@.len() == all.len() <= 65535,
            count == list@.len(),
            all == byte_lists(list@),
            byte_lists(v@) == chunks_of(id, all).take(i as int),
        decreases list@.len() - i,
    {
        let ghost before = v@;
        let c: Vec<u8> = make_chunk(id, i as u16, count, list[i].as_slice());
        let ghost cv = c@;
        v.push(c);
        proof {
            assert(all[i as int] == list@[i as int]@);
            assert(byte_lists(v@) =~= byte_lists(before).push(cv));
            assert(byte_lists(v@) =~= chunks_of(id, all).take(i + 1));
        }
        i = i + 1;
    }
    assert(chunks_of(id, all).take(i as int) =~= chunks_of(id, all));
    Some(v)
}

/// A frame of which pieces are missing.
pub struct Partial {
    pub id: u32,
    pub slots: Vec<Option<Vec<u8>>>,
}

pub open spec fn slot(x: Option<Vec<u8>>) -> Option<Seq<u8>> {
    match x {
        Some(b) => Some(b@),
        None => None,
    }
}

pub open spec fn slots(v: Seq<Option<Vec<u8>>>) -> Seq<Option<Seq<u8>>> {
    v.map_values(|x: Option<Vec<u8>>| slot(x))
}

impl View for Partial {
    type V = PartialSpec;

    open spec fn view(&self) -> PartialSpec {
        PartialSpec { id: self.id, slots: slots(self.slots@) }
    }
}

pub open spec fn partials(v: Seq<Partial>) -> Seq<PartialSpec> {
    v.map_values(|x: Partial| x@)
}

/// The frames of a link of which pieces are missing.
pub struct Reassembly {
    items: Vec<Partial>,
}

impl View for Reassembly {
    type V = Seq<PartialSpec>;

    closed spec fn view(&self) -> Seq<PartialSpec> {
        partials(self.items@)
    }
}

fn empty_slots(count: u16) -> (v: Vec<Option<Vec<u8>>>)
    ensures
        slots(v@) == no_pieces(count as nat),
{
    let mut v: Vec<Option<Vec<u8>>> = Vec::new();
    let mut i: u16 = 0;
    while i < count
        invariant
            i <= count,
            v@.len() == i,
            forall|k: int| 0 <= k < i ==> (#[trigger] v@[k]) is None,
        decreases count - i,
    {
        v.push(None);
        i = i + 1;
    }
    assert(slots(v@) =~= no_pieces(count as nat));
    v
}

fn all_there(v: &Vec<Option<Vec<u8>>>) -> (b: bool)
    ensures
        b == complete(slots(v@)),
{
    let mut i: usize = 0;
    while i < v.len()
        invariant
            i <= v@.len(),
            forall|k: int| 0 <= k < i ==> (#[trigger] v@[k]) is Some,
        decreases v@.len() - i,
    {
        if v[i].is_none() {
            assert(slots(v@)[i as int] is None);
            return false;
        }
        i = i + 1;
    }
    true
}

proof fn lemma_joined_push(v: Seq<Seq<u8>>, x: Seq<u8>)
    ensures
        joined(v.push(x)) == joined(v) + x,
    decreases v.len(),
{
    if v.len() == 0 {
        assert(v.push(x).skip(1) =~= v);
        assert(joined(v.push(x)) =~= joined(v) + x);
    } else {
        lemma_joined_push(v.skip(1), x);
        assert(v.push(x).skip(1) =~= v.skip(1).push(x));
        vstd::seq_lib::lemma_concat_associative(v[0], joined(v.skip(1)), x);
    }
}

fn join_slots(v: &Vec<Option<Vec<u8>>>) -> (out: Vec<u8>)
    ensures
        out@ == joined(filled(slots(v@))),
{
    let mut out: Vec<u8> = Vec::new();
    let mut i: usize = 0;
    let ghost all = filled(slots(v@));
    assert(joined(all.take(0)) =~= Seq::empty());
    while i < v.len()
        invariant
            i <= v@.len() == all.len(),
            all == filled(slots(v@)),
            out@ == joined(all.take(i as int)),
        decreases v@.len() - i,
    {
        proof {
            assert(all.take(i + 1) =~= all.take(i as int).push(all[i as int]));
            lemma_joined_push(all.take(i as int), all[i as int]);
            assert(slots(v@)[i as int] == slot(v@[i as int]));
        }
        if let Some(b) = &v[i] {
            codec::write_bytes(&mut out, b.as_slice());
        } else {
            assert(out@ + all[i as int] =~= out@);
        }
        i = i + 1;
    }
    assert(all.take(i as int) =~= all);
    out
}

impl Reassembly {
    pub fn new() -> (r: Reassembly)
        ensures
            r@ == Seq::<PartialSpec>::empty(),
    {
        let r = Reassembly { items: Vec::new() };
        assert(r@ =~= Seq::<PartialSpec>::empty());
        r
    }

    pub fn len(&self) -> (n: usize)
        ensures
            n == self@.len(),
    {
        self.items.len()
    }

    fn place(&self, id: u32) -> (r: Option<usize>)
        ensures
            match place_of(self@, id) {
                Some(i) => r matches Some(k) && k == i && k < self@.len(),
                None => r is None,
            },
    {
        let mut n: usize = self.items.len();
        proof {
            assert(self@.take(n as int) =~= self@);
            lemma_place_bounds(self@, id);
        }
        while n > 0
            invariant
                n <= self.items@.len() == self@.len(),
                place_of(self@, id) == place_of(self@.take(n as int), id),
            decreases n,
        {
            assert(self@.take(n as int).drop_last() =~= self@.take(n - 1));
            assert(self@.take(n as int).last() == self.items@[n - 1]@);
            if self.items[n - 1].id == id {
                return Some(n - 1);
            }
            n = n - 1;
        }
        None
    }

    /// A piece came; gives the frame that it completed.
    pub fn collect(&mut self, id: u32, index: u16, count: u16, piece: Vec<u8>) -> (r: Option<
        Vec<u8>,
    >)
        ensures
            final(self)@ == collected(old(self)@, id, index, count, piece@).0,
            match collected(old(self)@, id, index, count, piece@).1 {
                Some(b) => r matches Some(x) && x@ == b,
                None => r is None,
            },
    {
        if index >= count {
            return None;
        }
        let ghost before = self.items@;
        let ghost piece_bytes = piece@;
        let mut there: Vec<Option<Vec<u8>>> = match self.place(id) {
            Some(i) => {
                let p: Partial = self.items.remove(i);
                assert(p@ == partials(before)[i as int]);
                assert(self@ =~= partials(before).remove(i as int));
                if p.slots.len() == count as usize {
                    p.slots
                } else {
                    empty_slots(count)
                }
            },
            None => empty_slots(count),
        };
        assert(self@ == without(old(self)@, id));
        assert(slots(there@) == slots_of(old(self)@, id, count));
        assert(there@.len() == slots(there@).len());
        let ghost some = slots(there@);
        there.set(index as usize, Some(piece));
        assert(slots(there@) =~= some.update(index as int, Some(piece_bytes)));
        if all_there(&there) {
            Some(join_slots(&there))
        } else {
            let ghost kept = self.items@;
            let x = Partial { id, slots: there };
            let ghost xv = x@;
            self.items.push(x);
            assert(self@ =~= partials(kept).push(xv));
            self.shrink();
            None
        }
    }

    fn shrink(&mut self)
        ensures
            final(self)@ == latest(old(self)@),
    {
        let total: usize = self.items.len();
        let mut n: usize = 0;
        let ghost all = self@;
        assert(self@ =~= all.skip(0));
        while self.items.len() > MAX_PARTIAL_TRANSFERS
            invariant
                all == old(self)@,
                n <= all.len() == total,
                self@ == all.skip(n as int),
                n > 0 ==> self@.len() >= MAX_PARTIAL_TRANSFERS,
            decreases self.items@.len(),
        {
            let ghost before = self.items@;
            assert(self@.len() == self.items@.len());
            let _ = self.items.remove(0);
            proof {
                assert(self@ =~= partials(before).skip(1));
                assert(all.skip(n as int).skip(1) =~= all.skip(n + 1));
            }
            n = n + 1;
        }
        assert(self@.len() == self.items@.len());
    }
}

/// What a piece says.
pub fn chunk_at(s: &[u8]) -> (r: Option<(u32, u16, u16, Vec<u8>)>)
    ensures
        match read_chunk(s@) {
            Some((id, index, count, piece)) => r matches Some((a, b, c, p)) && a == id && b == index
                && c == count && p@ == piece,
            None => r is None,
        },
{
    let total: usize = s.len();
    if total < 4 || s[0] != 83 || s[1] != 68 || s[2] != 84 || s[3] != SIDE_TRANSPORT_KIND_CHUNK {
        return None;
    }
    let (id, p1): (u32, usize) = match codec::read_le4_at(s, 4) {
        Some(x) => x,
        None => return None,
    };
    let (index, p2): (u16, usize) = match codec::read_le2_at(s, p1) {
        Some(x) => x,
        None => return None,
    };
    let (count, p3): (u16, usize) = match codec::read_le2_at(s, p2) {
        Some(x) => x,
        None => return None,
    };
    let piece: Vec<u8> = codec::copy_range(s, p3, total);
    assert(piece@ =~= s@.skip(p3 as int));
    Some((id, index, count, piece))
}

/// A frame is cut into as few pieces as can be: all but the last are as long as they may be, and
/// the last is not empty, unless the frame is.
pub proof fn lemma_pieces_are_few(s: Seq<u8>, size: nat, i: int)
    requires
        size > 0,
        0 <= i < pieces(s, size).len(),
    ensures
        i < pieces(s, size).len() - 1 ==> pieces(s, size)[i].len() == size,
        s.len() > 0 ==> pieces(s, size)[i].len() > 0,
        (pieces(s, size).len() - 1) * size <= s.len(),
        s.len() > 0 ==> (pieces(s, size).len() - 1) * size < s.len(),
        s.len() <= pieces(s, size).len() * size,
        pieces(s, size)[i] == s.subrange(
            i * size,
            i * size + pieces(s, size)[i].len(),
        ),
    decreases s.len(),
{
    let v = pieces(s, size);
    if s.len() <= size {
        assert(s.subrange(0, s.len() as int) =~= s);
        assert(v.len() == 1);
        assert(1 * size == size) by (nonlinear_arith);
        assert(0 * size == 0) by (nonlinear_arith);
    } else {
        let rest = s.skip(size as int);
        let w = pieces(rest, size);
        assert(v.len() == w.len() + 1);
        lemma_pieces_join(rest, size);
        let k: int = if i > 0 {
            i - 1
        } else {
            0
        };
        lemma_pieces_are_few(rest, size, k);
        assert(v.len() * size == w.len() * size + size && (v.len() - 1) * size == (w.len() - 1)
            * size + size) by (nonlinear_arith)
            requires
                v.len() == w.len() + 1,
        ;
        if i > 0 {
            assert(v[i] == w[i - 1]);
            assert(i * size == (i - 1) * size + size) by (nonlinear_arith);
            let a = (i - 1) * size;
            assert(0 <= a) by (nonlinear_arith)
                requires
                    a == (i - 1) * size,
                    i > 0,
            ;
            let n = w[i - 1].len();
            if i - 1 < w.len() - 1 {
                assert(a + size <= (w.len() - 1) * size) by (nonlinear_arith)
                    requires
                        a == (i - 1) * size,
                        i - 1 < w.len() - 1,
                ;
            } else {
                lemma_last_piece(rest, size);
                assert(a == (w.len() - 1) * size);
            }
            assert(rest.subrange(a, a + n) =~= s.subrange(a + size, a + size + n));
        } else {
            assert(0 * size == 0) by (nonlinear_arith);
            assert(s.take(size as int) =~= s.subrange(0, size as int));
        }
    }
}

proof fn lemma_last_piece(s: Seq<u8>, size: nat)
    requires
        size > 0,
    ensures
        (pieces(s, size).len() - 1) * size + pieces(s, size).last().len() == s.len(),
    decreases s.len(),
{
    let v = pieces(s, size);
    if s.len() <= size {
        assert(0 * size == 0) by (nonlinear_arith);
    } else {
        let rest = s.skip(size as int);
        let w = pieces(rest, size);
        lemma_pieces_join(rest, size);
        lemma_last_piece(rest, size);
        assert(v.last() == w.last());
        assert((v.len() - 1) * size == (w.len() - 1) * size + size) by (nonlinear_arith)
            requires
                v.len() == w.len() + 1,
        ;
    }
}

/// A frame that a link takes goes over it as it is, and so does any over a link without a limit.
pub proof fn lemma_what_fits_is_not_cut(s: Seq<u8>, id: u32, max: usize)
    requires
        max == 0 || s.len() <= max,
    ensures
        can_split(s, max),
        split_up(s, id, max).len() == 1,
        split_up(s, id, max)[0] == s,
{
}

/// Whether the pieces of a frame that are there are the right ones.
pub open spec fn fits_pieces(slots: Seq<Option<Seq<u8>>>, v: Seq<Seq<u8>>) -> bool {
    &&& slots.len() == v.len()
    &&& forall|k: int|
        0 <= k < v.len() ==> (#[trigger] slots[k] is None || slots[k] == Some(v[k]))
}

/// Pieces may come in any order, and more than once: each is put in its place; the frame comes with
/// the one that was missing last, whole, and not before.
pub proof fn lemma_pieces_come_in_any_order(
    t: Seq<PartialSpec>,
    id: u32,
    v: Seq<Seq<u8>>,
    i: int,
)
    requires
        0 <= i < v.len() <= u16::MAX,
        fits_pieces(slots_of(t, id, v.len() as u16), v),
    ensures
        ({
            let before = slots_of(t, id, v.len() as u16);
            let (after, whole) = collected(t, id, i as u16, v.len() as u16, v[i]);
            let all = forall|k: int| 0 <= k < v.len() && k != i ==> (#[trigger] before[k]) is Some;
            &&& all ==> whole == Some(joined(v)) && after == without(t, id)
            &&& !all ==> {
                &&& whole is None
                &&& fits_pieces(slots_of(after, id, v.len() as u16), v)
                &&& slots_of(after, id, v.len() as u16) == before.update(i, Some(v[i]))
            }
        }),
{
    let count = v.len() as u16;
    let before = slots_of(t, id, count);
    let now = before.update(i, Some(v[i]));
    let all = forall|k: int| 0 <= k < v.len() && k != i ==> (#[trigger] before[k]) is Some;
    if all {
        assert forall|k: int| 0 <= k < now.len() implies (#[trigger] now[k]) is Some by {
            if k != i {
                assert(before[k] is Some);
            }
        }
        assert(complete(now));
        assert forall|k: int| 0 <= k < v.len() implies #[trigger] filled(now)[k] == v[k] by {
            if k != i {
                assert(before[k] is None || before[k] == Some(v[k]));
            }
        }
        assert(filled(now) =~= v);
    } else {
        let k = choose|k: int| 0 <= k < v.len() && k != i && !((#[trigger] before[k]) is Some);
        assert(now[k] is None);
        assert(!complete(now));
        let rest = without(t, id).push(PartialSpec { id, slots: now });
        let after = latest(rest);
        assert(after.last() == rest.last());
        assert(place_of(after, id) == Some(after.len() - 1));
        assert(slots_of(after, id, count) == now);
        assert forall|j: int| 0 <= j < v.len() implies (#[trigger] now[j] is None || now[j] == Some(
            v[j],
        )) by {
            if j != i {
                assert(before[j] is None || before[j] == Some(v[j]));
            }
        }
    }
}

/// A piece whose place is none of the frame's does nothing.
pub proof fn lemma_stray_piece_does_nothing(
    t: Seq<PartialSpec>,
    id: u32,
    index: u16,
    count: u16,
    piece: Seq<u8>,
)
    requires
        index >= count,
    ensures
        collected(t, id, index, count, piece).0 == t,
        collected(t, id, index, count, piece).1 is None,
{
}

/// Pieces that tell of another number of pieces than those that came before belong to another
/// frame: they are not put together with those.
pub proof fn lemma_pieces_of_two_frames_stay_apart(
    t: Seq<PartialSpec>,
    id: u32,
    index: u16,
    count: u16,
    piece: Seq<u8>,
)
    requires
        index < count,
        place_of(t, id) matches Some(i) ==> t[i].slots.len() != count,
    ensures
        count == 1 ==> collected(t, id, index, count, piece).1 == Some(piece),
        count > 1 ==> {
            let after = collected(t, id, index, count, piece);
            &&& after.1 is None
            &&& after.0.len() > 0
            &&& after.0.last().id == id
            &&& after.0.last().slots.len() == count
            &&& forall|k: int|
                0 <= k < count ==> #[trigger] after.0.last().slots[k] == (if k == index {
                    Some(piece)
                } else {
                    None
                })
        },
{
    let fresh = slots_of(t, id, count).update(index as int, Some(piece));
    if count == 1 {
        assert(complete(fresh));
        let v = filled(fresh);
        assert(v.len() == 1 && v[0] == piece);
        assert(v.skip(1).len() == 0);
        assert(joined(v.skip(1)) == Seq::<u8>::empty());
        assert(joined(v) =~= piece);
    } else {
        let other: int = if index == 0 {
            1
        } else {
            0
        };
        assert(fresh[other] is None);
        assert(!complete(fresh));
        let e = PartialSpec { id, slots: fresh };
        let all = without(t, id).push(e);
        assert(latest(all).last() == e);
    }
}

} // verus!
