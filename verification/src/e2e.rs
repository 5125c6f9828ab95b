//! Frames whose payload only those who have a key can read. What a frame is about stays in sight,
//! and who has the key sees whether it was changed.
use vstd::prelude::*;
use crate::codec;
use crate::crc32;
use crate::meta::{DataType, E2eEncryptionPolicy, FIRST_USER_TYPE};
use crate::router::Router;
use crate::schema;
use crate::schema::Schema;
use crate::varint;
use crate::wire_format;
use crate::wire_format::FrameFault;

verus! {

/// The first byte of a locked frame. No other frame begins with it.
pub const LOCKED_MARK: u8 = 16;

/// Which messages of its own a board locks.
#[derive(Debug, Clone, Copy, PartialEq, Eq, Structural)]
pub enum RouterE2eEncryptionMode {
    /// Those whose type requires it.
    RequiredOnly,
    /// Those whose type prefers it, too.
    Preferred,
    /// All of them.
    ForceAll,
}

/// Bytes, behind their number.
pub open spec fn blob(s: Seq<u8>) -> Seq<u8> {
    varint::uleb(s.len()) + s
}

pub open spec fn read_blob(s: Seq<u8>) -> Option<(Seq<u8>, Seq<u8>)> {
    match codec::read_int(s) {
        Some((n, rest)) => if n <= rest.len() {
            Some((rest.take(n as int), rest.skip(n as int)))
        } else {
            None
        },
        None => None,
    }
}

proof fn lemma_blob_roundtrip(s: Seq<u8>, rest: Seq<u8>)
    requires
        s.len() <= u64::MAX,
    ensures
        read_blob(blob(s) + rest) == Some((s, rest)),
{
    codec::lemma_int_roundtrip(s.len() as u64, s + rest);
    assert(blob(s) + rest =~= varint::uleb(s.len()) + (s + rest));
    assert((s + rest).take(s.len() as int) =~= s);
    assert((s + rest).skip(s.len() as int) =~= rest);
}

fn write_blob(out: &mut Vec<u8>, s: &[u8])
    ensures
        final(out)@ == old(out)@ + blob(s@),
{
    varint::write_uleb(out, s.len() as u64);
    codec::write_bytes(out, s);
    assert(out@ =~= old(out)@ + blob(s@));
}

fn read_blob_at(buf: &[u8], pos: usize) -> (r: Option<(Vec<u8>, usize)>)
    requires
        pos <= buf@.len(),
    ensures
        codec::reads_view(r, read_blob(buf@.skip(pos as int)), buf@, pos),
{
    match codec::read_int_at(buf, pos) {
        Some((n, p)) => {
            if n > (buf.len() - p) as u64 {
                return None;
            }
            let end: usize = p + n as usize;
            let ghost rest = buf@.skip(p as int);
            assert(rest.take(n as int) =~= buf@.subrange(p as int, end as int));
            assert(rest.skip(n as int) =~= buf@.skip(end as int));
            Some((codec::copy_range(buf, p, end), end))
        },
        None => None,
    }
}

/// What is in sight of a locked frame, and what the lock guards: the key, the head of the frame,
/// and what is used once.
pub open spec fn shown(key: u32, head: Seq<u8>, nonce: Seq<u8>) -> Seq<u8> {
    seq![LOCKED_MARK] + codec::le4(key) + blob(head) + blob(nonce)
}

/// A locked frame.
pub open spec fn locked(key: u32, head: Seq<u8>, nonce: Seq<u8>, tag: Seq<u8>, cipher: Seq<u8>)
    -> Seq<u8> {
    wire_format::sealed(shown(key, head, nonce) + (blob(tag) + cipher))
}

/// The head of a frame and the rest of it, in bytes.
pub open spec fn halves(sc: schema::SchemaSpec, w: Seq<u8>) -> Result<
    (Seq<u8>, Seq<u8>),
    FrameFault,
> {
    match (wire_format::checked_body(w), wire_format::peek(sc, w)) {
        (Ok(body), Ok((_, s))) => Ok((body.take(body.len() - s.len()), s)),
        (Err(e), _) => Err(e),
        (_, Err(e)) => Err(e),
    }
}

/// What a locked frame is made of, as values.
pub struct LockSpec {
    pub key: u32,
    pub head: Seq<u8>,
    pub nonce: Seq<u8>,
    pub tag: Seq<u8>,
    pub cipher: Seq<u8>,
}

/// Reads a locked frame.
pub open spec fn read_lock(w: Seq<u8>) -> Option<LockSpec> {
    match wire_format::checked_body(w) {
        Err(_) => None,
        Ok(body) => if body.len() == 0 || body[0] != LOCKED_MARK {
            None
        } else {
            match codec::read_le4(body.skip(1)) {
                None => None,
                Some((key, s1)) => match read_blob(s1) {
                    None => None,
                    Some((head, s2)) => match read_blob(s2) {
                        None => None,
                        Some((nonce, s3)) => match read_blob(s3) {
                            None => None,
                            Some((tag, cipher)) => Some(
                                LockSpec { key, head, nonce, tag, cipher },
                            ),
                        },
                    },
                },
            }
        },
    }
}

/// The frame of a head and the rest of it.
pub open spec fn unlocked(head: Seq<u8>, text: Seq<u8>) -> Seq<u8> {
    wire_format::sealed(head + text)
}

/// A locked frame is read as it was made.
pub proof fn lemma_lock_roundtrip(l: LockSpec)
    requires
        l.head.len() <= u64::MAX,
        l.nonce.len() <= u64::MAX,
        l.tag.len() <= u64::MAX,
    ensures
        read_lock(locked(l.key, l.head, l.nonce, l.tag, l.cipher)) == Some(l),
{
    let body = shown(l.key, l.head, l.nonce) + (blob(l.tag) + l.cipher);
    wire_format::lemma_seal(body);
    let s2 = blob(l.nonce) + (blob(l.tag) + l.cipher);
    let s1 = blob(l.head) + s2;
    assert(body.skip(1) =~= codec::le4(l.key) + s1);
    codec::lemma_le_roundtrip(0, l.key, 0, s1);
    lemma_blob_roundtrip(l.head, s2);
    lemma_blob_roundtrip(l.nonce, blob(l.tag) + l.cipher);
    lemma_blob_roundtrip(l.tag, l.cipher);
}

/// A frame that is locked and unlocked again is the frame that it was.
pub proof fn lemma_unlocked_is_whole(sc: schema::SchemaSpec, w: Seq<u8>)
    ensures
        halves(sc, w) matches Ok((head, text)) ==> unlocked(head, text) == w,
{
    wire_format::lemma_unseal(w);
    if let (Ok(body), Ok((h, s))) = (wire_format::checked_body(w), wire_format::peek(sc, w)) {
        wire_format::lemma_payload_is_tail(sc, w);
        assert(body.take(body.len() - s.len()) + s =~= body);
    }
}

/// Who unlocks the payload of a locked frame as it was has the frame that was locked.
pub proof fn lemma_locked_frame_comes_back(
    sc: schema::SchemaSpec,
    w: Seq<u8>,
    key: u32,
    nonce: Seq<u8>,
    tag: Seq<u8>,
    cipher: Seq<u8>,
)
    requires
        w.len() <= u64::MAX,
        nonce.len() <= u64::MAX,
        tag.len() <= u64::MAX,
    ensures
        halves(sc, w) matches Ok((head, text)) ==> {
            &&& read_lock(locked(key, head, nonce, tag, cipher)) matches Some(l)
            &&& l.key == key && l.nonce == nonce && l.tag == tag && l.cipher == cipher
            &&& unlocked(l.head, text) == w
        },
{
    if let Ok((head, text)) = halves(sc, w) {
        wire_format::lemma_payload_is_tail(sc, w);
        lemma_lock_roundtrip(LockSpec { key, head, nonce, tag, cipher });
        lemma_unlocked_is_whole(sc, w);
    }
}

/// A locked frame is no frame that boards work on: it has to be unlocked first.
pub proof fn lemma_locked_shows_nothing(
    sc: schema::SchemaSpec,
    key: u32,
    head: Seq<u8>,
    nonce: Seq<u8>,
    tag: Seq<u8>,
    cipher: Seq<u8>,
)
    ensures
        wire_format::peek(sc, locked(key, head, nonce, tag, cipher)) == Err::<
            (wire_format::HeadSpec, Seq<u8>),
            FrameFault,
        >(FrameFault::BadFlags),
{
    let body = shown(key, head, nonce) + (blob(tag) + cipher);
    wire_format::lemma_seal(body);
    assert(body[0] == LOCKED_MARK);
}

/// What is handed to those who lock.
pub struct Closing {
    pub key: u32,
    pub nonce: Vec<u8>,
    /// What the lock guards without hiding it.
    pub shown: Vec<u8>,
    /// What it hides.
    pub text: Vec<u8>,
}

/// What is handed to those who unlock.
pub struct Opening {
    pub key: u32,
    pub nonce: Vec<u8>,
    pub shown: Vec<u8>,
    pub head: Vec<u8>,
    pub tag: Vec<u8>,
    pub cipher: Vec<u8>,
}

impl View for Opening {
    type V = LockSpec;

    open spec fn view(&self) -> LockSpec {
        LockSpec {
            key: self.key,
            head: self.head@,
            nonce: self.nonce@,
            tag: self.tag@,
            cipher: self.cipher@,
        }
    }
}

fn show(key: u32, head: &[u8], nonce: &[u8]) -> (out: Vec<u8>)
    ensures
        out@ == shown(key, head@, nonce@),
{
    let mut out: Vec<u8> = Vec::new();
    out.push(LOCKED_MARK);
    assert(out@ =~= seq![LOCKED_MARK]);
    codec::write_le4(&mut out, key);
    write_blob(&mut out, head);
    write_blob(&mut out, nonce);
    out
}

fn with_sum(body: Vec<u8>) -> (out: Vec<u8>)
    ensures
        out@ == wire_format::sealed(body@),
{
    let mut out: Vec<u8> = body;
    assert(out@.take(out@.len() as int) =~= out@);
    let sum: u32 = crc32::crc32_of(out.as_slice(), out.len());
    codec::write_le4(&mut out, sum);
    out
}

impl Closing {
    /// What is to be locked of a frame.
    pub fn of_frame(schema: &Schema, w: &[u8], key: u32, nonce: Vec<u8>) -> (r: Result<
        Closing,
        FrameFault,
    >)
        ensures
            match halves(schema@, w@) {
                Ok((head, text)) => r matches Ok(c) && c.key == key && c.nonce@ == nonce@ && c.shown@
                    == shown(key, head, nonce@) && c.text@ == text,
                Err(e) => r == Err::<Closing, FrameFault>(e),
            },
    {
        match wire_format::payload_bounds(schema, w) {
            Ok((from, to)) => {
                let head: Vec<u8> = codec::copy_range(w, 0, from);
                let text: Vec<u8> = codec::copy_range(w, from, to);
                let ghost body = w@.take(to as int);
                assert(body.take(body.len() - text@.len()) =~= head@);
                let shown: Vec<u8> = show(key, head.as_slice(), nonce.as_slice());
                Ok(Closing { key, nonce, shown, text })
            },
            Err(e) => Err(e),
        }
    }

    /// The locked frame, once its payload is locked.
    pub fn close(&self, tag: &[u8], cipher: &[u8]) -> (out: Vec<u8>)
        ensures
            out@ == wire_format::sealed(self.shown@ + (blob(tag@) + cipher@)),
    {
        let mut body: Vec<u8> = Vec::new();
        codec::write_bytes(&mut body, self.shown.as_slice());
        write_blob(&mut body, tag);
        codec::write_bytes(&mut body, cipher);
        assert(body@ =~= self.shown@ + (blob(tag@) + cipher@));
        with_sum(body)
    }
}

impl Opening {
    /// What is to be unlocked of a frame; none where it is not locked.
    pub fn of_frame(w: &[u8]) -> (r: Option<Opening>)
        ensures
            match read_lock(w@) {
                Some(l) => r matches Some(o) && o@ == l && o.shown@ == shown(l.key, l.head, l.nonce),
                None => r is None,
            },
    {
        let n: usize = match wire_format::body_len(w) {
            Ok(n) => n,
            Err(_) => return None,
        };
        let body: &[u8] = vstd::slice::slice_subrange(w, 0, n);
        assert(body@ =~= w@.take(n as int));
        if body.len() == 0 || body[0] != LOCKED_MARK {
            return None;
        }
        let (key, p1) = match codec::read_le4_at(body, 1) {
            Some(x) => x,
            None => return None,
        };
        let (head, p2) = match read_blob_at(body, p1) {
            Some(x) => x,
            None => return None,
        };
        let (nonce, p3) = match read_blob_at(body, p2) {
            Some(x) => x,
            None => return None,
        };
        let (tag, p4) = match read_blob_at(body, p3) {
            Some(x) => x,
            None => return None,
        };
        let cipher: Vec<u8> = codec::copy_range(body, p4, n);
        assert(cipher@ =~= body@.skip(p4 as int));
        let shown: Vec<u8> = show(key, head.as_slice(), nonce.as_slice());
        Some(Opening { key, nonce, shown, head, tag, cipher })
    }

    /// The frame, once its payload is unlocked.
    pub fn open(&self, text: &[u8]) -> (out: Vec<u8>)
        ensures
            out@ == unlocked(self.head@, text@),
    {
        let mut body: Vec<u8> = Vec::new();
        codec::write_bytes(&mut body, self.head.as_slice());
        codec::write_bytes(&mut body, text);
        assert(body@ =~= self.head@ + text@);
        with_sum(body)
    }
}

/// Whether a board of a mode locks messages of a type, where it can.
pub open spec fn is_private(mode: RouterE2eEncryptionMode, sc: schema::SchemaSpec, ty: DataType)
    -> bool {
    ty >= FIRST_USER_TYPE && (mode == RouterE2eEncryptionMode::ForceAll || (sc.message(
        ty,
    ) matches Some(t) && (t.e2e_encryption == E2eEncryptionPolicy::RequireOn || (mode
        == RouterE2eEncryptionMode::Preferred && t.e2e_encryption
        == E2eEncryptionPolicy::PreferOn))))
}

/// Whether messages of a type may only go out locked.
pub open spec fn is_secret(mode: RouterE2eEncryptionMode, sc: schema::SchemaSpec, ty: DataType)
    -> bool {
    ty >= FIRST_USER_TYPE && (mode == RouterE2eEncryptionMode::ForceAll || (sc.message(
        ty,
    ) matches Some(t) && t.e2e_encryption == E2eEncryptionPolicy::RequireOn))
}

/// What may only go out locked is locked.
pub proof fn lemma_secrets_are_private(
    mode: RouterE2eEncryptionMode,
    sc: schema::SchemaSpec,
    ty: DataType,
)
    ensures
        is_secret(mode, sc, ty) ==> is_private(mode, sc, ty),
{
}

fn policy_of(schema: &Schema, ty: DataType) -> (r: Option<E2eEncryptionPolicy>)
    ensures
        r == (match schema@.message(ty) {
            Some(t) => Some(t.e2e_encryption),
            None => None,
        }),
{
    match schema.message_meta(ty) {
        Some(t) => Some(t.e2e_encryption),
        None => None,
    }
}

impl Router {
    /// Whether a frame of a type goes out locked.
    pub open spec fn locks(self, sc: schema::SchemaSpec, ty: DataType) -> bool {
        self.can_lock && is_private(self.e2e_mode, sc, ty)
    }

    /// Whether messages of a type cannot go out: they would have to be locked.
    pub open spec fn must_refuse(self, sc: schema::SchemaSpec, ty: DataType) -> bool {
        !self.can_lock && is_secret(self.e2e_mode, sc, ty)
    }

    /// Whether messages of a type cannot go out.
    pub fn refuses(&self, schema: &Schema, ty: DataType) -> (b: bool)
        ensures
            b == self.must_refuse(schema@, ty),
    {
        if self.can_lock || ty < FIRST_USER_TYPE {
            return false;
        }
        let required: bool = match policy_of(schema, ty) {
            Some(p) => p == E2eEncryptionPolicy::RequireOn,
            None => false,
        };
        self.e2e_mode == RouterE2eEncryptionMode::ForceAll || required
    }

    /// What is to be locked of a frame before it goes over a link; none where it goes as it is.
    pub fn closing(&self, schema: &Schema, w: &[u8], nonce: Vec<u8>) -> (r: Option<Closing>)
        ensures
            match wire_format::peek(schema@, w@) {
                Ok((h, _)) => if self.locks(schema@, h.scalars.ty) {
                    &&& r matches Some(c)
                    &&& halves(schema@, w@) matches Ok((head, text))
                    &&& c.key == self.e2e_key && c.nonce@ == nonce@ && c.text@ == text
                    &&& c.shown@ == shown(self.e2e_key, head, nonce@)
                } else {
                    r is None
                },
                Err(_) => r is None,
            },
    {
        let ty: DataType = match wire_format::frame_type_of(schema, w) {
            Some(ty) => ty,
            None => return None,
        };
        if !self.can_lock || ty < FIRST_USER_TYPE {
            return None;
        }
        let wanted: bool = match policy_of(schema, ty) {
            Some(p) => p == E2eEncryptionPolicy::RequireOn || (self.e2e_mode
                == RouterE2eEncryptionMode::Preferred && p == E2eEncryptionPolicy::PreferOn),
            None => false,
        };
        if self.e2e_mode != RouterE2eEncryptionMode::ForceAll && !wanted {
            return None;
        }
        match Closing::of_frame(schema, w, self.e2e_key, nonce) {
            Ok(c) => Some(c),
            Err(_) => None,
        }
    }
}

} // verus!
