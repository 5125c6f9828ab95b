//! Definitions of endpoints and message types, and how they are written in frames.
use vstd::prelude::*;
use vstd::string::*;
use crate::codec;
use crate::meta::{DataEndpoint, DataType, E2eEncryptionPolicy, MessageElement, ReliableMode};
use crate::table::Entry;
use crate::varint;

verus! {

/// An endpoint, as a value.
pub struct EndpointSpec {
    pub id: DataEndpoint,
    pub name: Seq<char>,
    pub description: Seq<char>,
    pub link_local_only: bool,
}

/// A message type, as a value.
pub struct TypeSpec {
    pub id: DataType,
    pub name: Seq<char>,
    pub description: Seq<char>,
    pub element: MessageElement,
    pub endpoints: Seq<DataEndpoint>,
    pub reliable: ReliableMode,
    pub priority: u8,
    pub e2e_encryption: E2eEncryptionPolicy,
}

#[derive(Debug, PartialEq, Eq)]
pub struct EndpointDefinition {
    pub id: DataEndpoint,
    pub name: String,
    pub description: String,
    pub link_local_only: bool,
}

#[derive(Debug, PartialEq, Eq)]
pub struct DataTypeDefinition {
    pub id: DataType,
    pub name: String,
    pub description: String,
    pub element: MessageElement,
    pub endpoints: Vec<DataEndpoint>,
    pub reliable: ReliableMode,
    pub priority: u8,
    pub e2e_encryption: E2eEncryptionPolicy,
}

impl View for EndpointDefinition {
    type V = EndpointSpec;

    open spec fn view(&self) -> EndpointSpec {
        EndpointSpec {
            id: self.id,
            name: self.name@,
            description: self.description@,
            link_local_only: self.link_local_only,
        }
    }
}

impl View for DataTypeDefinition {
    type V = TypeSpec;

    open spec fn view(&self) -> TypeSpec {
        TypeSpec {
            id: self.id,
            name: self.name@,
            description: self.description@,
            element: self.element,
            endpoints: self.endpoints@,
            reliable: self.reliable,
            priority: self.priority,
            e2e_encryption: self.e2e_encryption,
        }
    }
}

/// Whether a text is short enough for its length to be written.
pub open spec fn short_text(t: Seq<char>) -> bool {
    vstd::utf8::encode_utf8(t).len() <= u64::MAX
}

pub open spec fn flag_byte(b: bool) -> u8 {
    if b {
        1
    } else {
        0
    }
}

/// An endpoint as it is written in frames.
pub open spec fn endpoint_bytes(e: EndpointSpec) -> Seq<u8> {
    varint::uleb(e.id as nat) + codec::text_bytes(e.name) + codec::text_bytes(e.description)
        + seq![flag_byte(e.link_local_only)]
}

pub open spec fn read_endpoint(s: Seq<u8>) -> Option<(EndpointSpec, Seq<u8>)> {
    match codec::read_int32(s) {
        Some((id, s1)) => match codec::read_text(s1) {
            Some((name, s2)) => match codec::read_text(s2) {
                Some((description, s3)) => if s3.len() > 0 && s3[0] <= 1 {
                    Some(
                        (
                            EndpointSpec { id, name, description, link_local_only: s3[0] == 1 },
                            s3.skip(1),
                        ),
                    )
                } else {
                    None
                },
                None => None,
            },
            None => None,
        },
        None => None,
    }
}

/// A list of endpoint numbers: how many, then each.
pub open spec fn ids_bytes(ids: Seq<u32>) -> Seq<u8> {
    varint::uleb(ids.len()) + id_items(ids)
}

pub open spec fn id_items(ids: Seq<u32>) -> Seq<u8>
    decreases ids.len(),
{
    if ids.len() == 0 {
        Seq::<u8>::empty()
    } else {
        varint::uleb(ids[0] as nat) + id_items(ids.skip(1))
    }
}

pub open spec fn read_id_items(s: Seq<u8>, n: nat) -> Option<(Seq<u32>, Seq<u8>)>
    decreases n,
{
    if n == 0 {
        Some((Seq::<u32>::empty(), s))
    } else {
        match codec::read_int32(s) {
            Some((id, s1)) => match read_id_items(s1, (n - 1) as nat) {
                Some((ids, s2)) => Some((seq![id] + ids, s2)),
                None => None,
            },
            None => None,
        }
    }
}

pub open spec fn read_ids(s: Seq<u8>) -> Option<(Seq<u32>, Seq<u8>)> {
    match codec::read_int(s) {
        Some((n, s1)) => read_id_items(s1, n as nat),
        None => None,
    }
}

/// A message type as it is written in frames.
pub open spec fn type_bytes(t: TypeSpec) -> Seq<u8> {
    varint::uleb(t.id as nat) + codec::text_bytes(t.name) + codec::text_bytes(t.description)
        + codec::element_bytes(t.element) + ids_bytes(t.endpoints)
        + seq![t.reliable.number(), t.priority, t.e2e_encryption.number()]
}

pub open spec fn read_type(s: Seq<u8>) -> Option<(TypeSpec, Seq<u8>)> {
    match codec::read_int32(s) {
        Some((id, s1)) => match codec::read_text(s1) {
            Some((name, s2)) => match codec::read_text(s2) {
                Some((description, s3)) => match codec::read_element(s3) {
                    Some((element, s4)) => match read_ids(s4) {
                        Some((endpoints, s5)) => if s5.len() < 3 {
                            None
                        } else {
                            match (
                                ReliableMode::of_number(s5[0]),
                                E2eEncryptionPolicy::of_number(s5[2]),
                            ) {
                                (Some(reliable), Some(e2e_encryption)) => Some(
                                    (
                                        TypeSpec {
                                            id,
                                            name,
                                            description,
                                            element,
                                            endpoints,
                                            reliable,
                                            priority: s5[1],
                                            e2e_encryption,
                                        },
                                        s5.skip(3),
                                    ),
                                ),
                                _ => None,
                            }
                        },
                        None => None,
                    },
                    None => None,
                },
                None => None,
            },
            None => None,
        },
        None => None,
    }
}

/// Endpoints are read as they were written.
pub proof fn lemma_endpoint_roundtrip(e: EndpointSpec, rest: Seq<u8>)
    requires
        short_text(e.name),
        short_text(e.description),
    ensures
        read_endpoint(endpoint_bytes(e) + rest) == Some((e, rest)),
{
    let f = seq![flag_byte(e.link_local_only)];
    let d = codec::text_bytes(e.description);
    let n = codec::text_bytes(e.name);
    let i = varint::uleb(e.id as nat);
    assert(endpoint_bytes(e) + rest =~= i + (n + (d + (f + rest))));
    codec::lemma_int_roundtrip(e.id as u64, n + (d + (f + rest)));
    codec::lemma_text_roundtrip(e.name, d + (f + rest));
    codec::lemma_text_roundtrip(e.description, f + rest);
    assert((f + rest).skip(1) =~= rest);
}

proof fn lemma_id_items_roundtrip(ids: Seq<u32>, rest: Seq<u8>)
    ensures
        read_id_items(id_items(ids) + rest, ids.len()) == Some((ids, rest)),
    decreases ids.len(),
{
    if ids.len() == 0 {
        assert(id_items(ids) + rest =~= rest);
        assert(ids =~= Seq::<u32>::empty());
    } else {
        let tail = id_items(ids.skip(1));
        assert(id_items(ids) + rest =~= varint::uleb(ids[0] as nat) + (tail + rest));
        codec::lemma_int_roundtrip(ids[0] as u64, tail + rest);
        lemma_id_items_roundtrip(ids.skip(1), rest);
        assert(seq![ids[0]] + ids.skip(1) =~= ids);
    }
}

/// How long a list of numbers gets.
pub proof fn lemma_ids_len(ids: Seq<u32>)
    requires
        ids.len() <= u64::MAX,
    ensures
        ids_bytes(ids).len() <= 10 * (ids.len() + 1),
{
    varint::lemma_uleb_len(ids.len() as u64);
    lemma_id_items_len(ids);
}

/// A list of numbers has no more entries than bytes.
pub proof fn lemma_ids_count(ids: Seq<u32>)
    ensures
        ids.len() <= id_items(ids).len(),
    decreases ids.len(),
{
    if ids.len() > 0 {
        varint::lemma_uleb_len(ids[0] as u64);
        lemma_ids_count(ids.skip(1));
    }
}

proof fn lemma_id_items_len(ids: Seq<u32>)
    ensures
        id_items(ids).len() <= 10 * ids.len(),
    decreases ids.len(),
{
    if ids.len() > 0 {
        varint::lemma_uleb_len(ids[0] as u64);
        lemma_id_items_len(ids.skip(1));
    }
}

/// Lists of numbers are read as they were written.
pub proof fn lemma_ids_roundtrip(ids: Seq<u32>, rest: Seq<u8>)
    requires
        ids.len() <= u64::MAX,
    ensures
        read_ids(ids_bytes(ids) + rest) == Some((ids, rest)),
{
    assert(ids_bytes(ids) + rest =~= varint::uleb(ids.len()) + (id_items(ids) + rest));
    codec::lemma_int_roundtrip(ids.len() as u64, id_items(ids) + rest);
    lemma_id_items_roundtrip(ids, rest);
}

proof fn lemma_six_parts(
    a: Seq<u8>,
    b: Seq<u8>,
    c: Seq<u8>,
    d: Seq<u8>,
    e: Seq<u8>,
    f: Seq<u8>,
    rest: Seq<u8>,
)
    ensures
        a + b + c + d + e + f + rest == a + (b + (c + (d + (e + (f + rest))))),
{
    vstd::seq_lib::lemma_concat_associative(a + b + c + d + e, f, rest);
    vstd::seq_lib::lemma_concat_associative(a + b + c + d, e, f + rest);
    vstd::seq_lib::lemma_concat_associative(a + b + c, d, e + (f + rest));
    vstd::seq_lib::lemma_concat_associative(a + b, c, d + (e + (f + rest)));
    vstd::seq_lib::lemma_concat_associative(a, b, c + (d + (e + (f + rest))));
}

/// Message types are read as they were written.
#[verifier::spinoff_prover]
#[verifier::rlimit(60)]
pub proof fn lemma_type_roundtrip(t: TypeSpec, rest: Seq<u8>)
    requires
        short_text(t.name),
        short_text(t.description),
        t.endpoints.len() <= u64::MAX,
    ensures
        read_type(type_bytes(t) + rest) == Some((t, rest)),
{
    let z = seq![t.reliable.number(), t.priority, t.e2e_encryption.number()] + rest;
    let p = ids_bytes(t.endpoints) + z;
    let e = codec::element_bytes(t.element) + p;
    let d = codec::text_bytes(t.description) + e;
    let n = codec::text_bytes(t.name) + d;
    lemma_six_parts(
        varint::uleb(t.id as nat),
        codec::text_bytes(t.name),
        codec::text_bytes(t.description),
        codec::element_bytes(t.element),
        ids_bytes(t.endpoints),
        seq![t.reliable.number(), t.priority, t.e2e_encryption.number()],
        rest,
    );
    codec::lemma_int_roundtrip(t.id as u64, n);
    codec::lemma_text_roundtrip(t.name, d);
    codec::lemma_text_roundtrip(t.description, e);
    codec::lemma_element_roundtrip(t.element, p);
    lemma_ids_roundtrip(t.endpoints, z);
    assert(z.skip(3) =~= rest);
}

impl Entry for EndpointDefinition {
    open spec fn key(v: EndpointSpec) -> u32 {
        v.id
    }

    open spec fn title(v: EndpointSpec) -> Seq<char> {
        v.name
    }

    open spec fn bytes(v: EndpointSpec) -> Seq<u8> {
        endpoint_bytes(v)
    }

    open spec fn writable(v: EndpointSpec) -> bool {
        short_text(v.name) && short_text(v.description)
    }

    open spec fn read(s: Seq<u8>) -> Option<(EndpointSpec, Seq<u8>)> {
        read_endpoint(s)
    }

    proof fn lemma_roundtrip(v: EndpointSpec, rest: Seq<u8>) {
        lemma_endpoint_roundtrip(v, rest);
    }

    fn id(&self) -> (r: u32) {
        self.id
    }

    fn name(&self) -> (r: &String) {
        &self.name
    }

    fn copied(&self) -> (r: Self) {
        EndpointDefinition {
            id: self.id,
            name: self.name.clone(),
            description: self.description.clone(),
            link_local_only: self.link_local_only,
        }
    }

    fn write(&self, out: &mut Vec<u8>) {
        varint::write_uleb(out, self.id as u64);
        codec::write_text(out, self.name.as_str());
        codec::write_text(out, self.description.as_str());
        out.push(if self.link_local_only {
            1
        } else {
            0
        });
    }

    fn read_at(buf: &[u8], pos: usize) -> (r: Option<(Self, usize)>) {
        let (id, p1) = match codec::read_int32_at(buf, pos) {
            Some(x) => x,
            None => return None,
        };
        let (name, p2) = match codec::read_text_at(buf, p1) {
            Some(x) => x,
            None => return None,
        };
        let (description, p3) = match codec::read_text_at(buf, p2) {
            Some(x) => x,
            None => return None,
        };
        if p3 >= buf.len() || buf[p3] > 1 {
            return None;
        }
        assert(buf@.skip(p3 as int).skip(1) =~= buf@.skip(p3 + 1));
        Some(
            (
                EndpointDefinition { id, name, description, link_local_only: buf[p3] == 1 },
                p3 + 1,
            ),
        )
    }
}

impl Entry for DataTypeDefinition {
    open spec fn key(v: TypeSpec) -> u32 {
        v.id
    }

    open spec fn title(v: TypeSpec) -> Seq<char> {
        v.name
    }

    open spec fn bytes(v: TypeSpec) -> Seq<u8> {
        type_bytes(v)
    }

    open spec fn writable(v: TypeSpec) -> bool {
        short_text(v.name) && short_text(v.description) && v.endpoints.len() <= u64::MAX
    }

    open spec fn read(s: Seq<u8>) -> Option<(TypeSpec, Seq<u8>)> {
        read_type(s)
    }

    proof fn lemma_roundtrip(v: TypeSpec, rest: Seq<u8>) {
        lemma_type_roundtrip(v, rest);
    }

    fn id(&self) -> (r: u32) {
        self.id
    }

    fn name(&self) -> (r: &String) {
        &self.name
    }

    fn copied(&self) -> (r: Self) {
        DataTypeDefinition {
            id: self.id,
            name: self.name.clone(),
            description: self.description.clone(),
            element: self.element,
            endpoints: codec::copy_u32(&self.endpoints),
            reliable: self.reliable,
            priority: self.priority,
            e2e_encryption: self.e2e_encryption,
        }
    }

    fn write(&self, out: &mut Vec<u8>) {
        varint::write_uleb(out, self.id as u64);
        codec::write_text(out, self.name.as_str());
        codec::write_text(out, self.description.as_str());
        codec::write_element(out, self.element);
        write_ids(out, &self.endpoints);
        out.push(self.reliable.as_number());
        out.push(self.priority);
        out.push(self.e2e_encryption.as_number());
    }

    fn read_at(buf: &[u8], pos: usize) -> (r: Option<(Self, usize)>) {
        let (id, p1) = match codec::read_int32_at(buf, pos) {
            Some(x) => x,
            None => return None,
        };
        let (name, p2) = match codec::read_text_at(buf, p1) {
            Some(x) => x,
            None => return None,
        };
        let (description, p3) = match codec::read_text_at(buf, p2) {
            Some(x) => x,
            None => return None,
        };
        let (element, p4) = match codec::read_element_at(buf, p3) {
            Some(x) => x,
            None => return None,
        };
        let (endpoints, p5) = match read_ids_at(buf, p4) {
            Some(x) => x,
            None => return None,
        };
        if buf.len() - p5 < 3 {
            return None;
        }
        assert(buf@.skip(p5 as int).skip(3) =~= buf@.skip(p5 + 3));
        match (
            ReliableMode::from_number(buf[p5]),
            E2eEncryptionPolicy::from_number(buf[p5 + 2]),
        ) {
            (Some(reliable), Some(e2e_encryption)) => Some(
                (
                    DataTypeDefinition {
                        id,
                        name,
                        description,
                        element,
                        endpoints,
                        reliable,
                        priority: buf[p5 + 1],
                        e2e_encryption,
                    },
                    p5 + 3,
                ),
            ),
            _ => None,
        }
    }
}

/// Appends a list of endpoint numbers.
pub fn write_ids(out: &mut Vec<u8>, ids: &[u32])
    ensures
        final(out)@ == old(out)@ + ids_bytes(ids@),
{
    varint::write_uleb(out, ids.len() as u64);
    let ghost base = out@;
    let mut i: usize = 0;
    assert(ids@.skip(0) =~= ids@);
    while i < ids.len()
        invariant
            i <= ids@.len(),
            out@ + id_items(ids@.skip(i as int)) == base + id_items(ids@),
        decreases ids@.len() - i,
    {
        let ghost here = ids@.skip(i as int);
        let ghost before = out@;
        assert(here.skip(1) =~= ids@.skip(i + 1));
        varint::write_uleb(out, ids[i] as u64);
        assert(before + id_items(here) =~= out@ + id_items(ids@.skip(i + 1)));
        i = i + 1;
    }
    assert(out@ + id_items(ids@.skip(i as int)) =~= out@);
}

fn read_id_items_at(buf: &[u8], pos: usize, n: u64) -> (r: Option<(Vec<u32>, usize)>)
    requires
        pos <= buf@.len(),
    ensures
        codec::reads_view(r, read_id_items(buf@.skip(pos as int), n as nat), buf@, pos),
{
    let mut ids: Vec<u32> = Vec::new();
    let mut p: usize = pos;
    let mut left: u64 = n;
    proof {
        if let Some((t, rest)) = read_id_items(buf@.skip(pos as int), n as nat) {
            assert(ids@ + t =~= t);
        }
    }
    while left > 0
        invariant
            pos <= p <= buf@.len(),
            left <= n,
            read_id_items(buf@.skip(pos as int), n as nat) == (match read_id_items(
                buf@.skip(p as int),
                left as nat,
            ) {
                Some((t, rest)) => Some((ids@ + t, rest)),
                None => None::<(Seq<u32>, Seq<u8>)>,
            }),
        decreases left,
    {
        match codec::read_int32_at(buf, p) {
            Some((id, end)) => {
                let ghost before = ids@;
                ids.push(id);
                proof {
                    if let Some((t, rest)) = read_id_items(
                        buf@.skip(end as int),
                        (left - 1) as nat,
                    ) {
                        assert(before + (seq![id] + t) =~= ids@ + t);
                    }
                }
                p = end;
            },
            None => return None,
        }
        left = left - 1;
    }
    assert(ids@ + Seq::<u32>::empty() =~= ids@);
    Some((ids, p))
}

/// Reads the list of endpoint numbers that starts at `pos`.
pub fn read_ids_at(buf: &[u8], pos: usize) -> (r: Option<(Vec<u32>, usize)>)
    requires
        pos <= buf@.len(),
    ensures
        codec::reads_view(r, read_ids(buf@.skip(pos as int)), buf@, pos),
{
    match codec::read_int_at(buf, pos) {
        Some((n, p)) => read_id_items_at(buf, p, n),
        None => None,
    }
}

} // verus!
