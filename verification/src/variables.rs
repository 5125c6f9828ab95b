//! Values that boards share: the latest message of a type.
use vstd::prelude::*;
use crate::codec;
use crate::error::{TelemetryError, TelemetryResult};
use crate::meta::DataType;
use crate::packet::{Packet, PacketSpec};

verus! {

/// What the program of a board may do with a value.
#[derive(Debug, Clone, Copy, PartialEq, Eq, Structural)]
pub struct Permissions {
    pub read: bool,
    pub write: bool,
}

/// A value, as a value.
pub struct VariableSpec {
    pub ty: DataType,
    pub permissions: Permissions,
    pub value: Option<PacketSpec>,
}

/// A value.
pub struct Variable {
    pub ty: DataType,
    pub permissions: Permissions,
    pub value: Option<Packet>,
}

pub open spec fn packet_in(v: Option<Packet>) -> Option<PacketSpec> {
    match v {
        Some(p) => Some(p@),
        None => None,
    }
}

impl View for Variable {
    type V = VariableSpec;

    open spec fn view(&self) -> VariableSpec {
        VariableSpec {
            ty: self.ty,
            permissions: self.permissions,
            value: packet_in(self.value),
        }
    }
}

/// What may be done with a value, unless it is said otherwise.
pub open spec fn anything() -> Permissions {
    Permissions { read: true, write: true }
}

/// What is known of the values of a board.
pub open spec fn lookup(m: Map<DataType, VariableSpec>, ty: DataType) -> VariableSpec {
    if m.contains_key(ty) {
        m[ty]
    } else {
        VariableSpec { ty, permissions: anything(), value: None }
    }
}

/// The bytes of a question for a value.
pub open spec fn question_bytes(ty: DataType) -> Seq<u8> {
    codec::le4(ty)
}

/// The type that a question asks for.
pub open spec fn read_question(s: Seq<u8>) -> Option<DataType> {
    match codec::read_le4(s) {
        Some((ty, rest)) => if rest.len() == 0 {
            Some(ty)
        } else {
            None
        },
        None => None,
    }
}

/// A question is read as it was asked.
pub proof fn lemma_question_roundtrip(ty: DataType)
    ensures
        read_question(question_bytes(ty)) == Some(ty),
{
    codec::lemma_le_roundtrip(0, ty, 0, Seq::empty());
    assert(codec::le4(ty) + Seq::<u8>::empty() =~= codec::le4(ty));
}

/// Asks for a value.
pub fn question(ty: DataType) -> (out: Vec<u8>)
    ensures
        out@ == question_bytes(ty),
{
    let mut out: Vec<u8> = Vec::new();
    codec::write_le4(&mut out, ty);
    assert(out@ =~= question_bytes(ty));
    out
}

/// The type that a question asks for.
pub fn asked_type(buf: &[u8]) -> (r: Option<DataType>)
    ensures
        r == read_question(buf@),
{
    assert(buf@.skip(0) =~= buf@);
    match codec::read_le4_at(buf, 0) {
        Some((ty, end)) => if end == buf.len() {
            Some(ty)
        } else {
            None
        },
        None => None,
    }
}

/// The values of a board.
pub struct Variables {
    items: Vec<Variable>,
}

pub open spec fn all(v: Seq<Variable>) -> Seq<VariableSpec> {
    v.map_values(|x: Variable| x@)
}

/// Where a type stands.
pub open spec fn place_of(v: Seq<VariableSpec>, ty: DataType) -> Option<int>
    decreases v.len(),
{
    if v.len() == 0 {
        None
    } else if v.last().ty == ty {
        Some(v.len() - 1)
    } else {
        place_of(v.drop_last(), ty)
    }
}

proof fn lemma_place_bounds(v: Seq<VariableSpec>, ty: DataType)
    ensures
        match place_of(v, ty) {
            Some(i) => 0 <= i < v.len() && v[i].ty == ty,
            None => forall|i: int| 0 <= i < v.len() ==> (#[trigger] v[i]).ty != ty,
        },
    decreases v.len(),
{
    if v.len() > 0 && v.last().ty != ty {
        lemma_place_bounds(v.drop_last(), ty);
        if place_of(v, ty) is None {
            assert forall|i: int| 0 <= i < v.len() implies (#[trigger] v[i]).ty != ty by {
                if i < v.len() - 1 {
                    assert(v.drop_last()[i].ty != ty);
                }
            }
        }
    }
}

spec fn listed(v: Seq<VariableSpec>) -> Map<DataType, VariableSpec> {
    Map::new(|ty: DataType| place_of(v, ty) is Some, |ty: DataType| v[place_of(v, ty)->0])
}

proof fn lemma_place_same(a: Seq<VariableSpec>, b: Seq<VariableSpec>, ty: DataType)
    requires
        a.len() == b.len(),
        forall|i: int| 0 <= i < a.len() ==> (#[trigger] a[i]).ty == b[i].ty,
    ensures
        place_of(a, ty) == place_of(b, ty),
    decreases a.len(),
{
    if a.len() > 0 {
        assert(a.last().ty == b.last().ty);
        assert forall|i: int| 0 <= i < a.drop_last().len() implies (#[trigger] a.drop_last()[i]).ty
            == b.drop_last()[i].ty by {
            assert(a[i].ty == b[i].ty);
        }
        lemma_place_same(a.drop_last(), b.drop_last(), ty);
    }
}

proof fn lemma_listed_update(v: Seq<VariableSpec>, i: int, x: VariableSpec)
    requires
        place_of(v, x.ty) == Some(i),
    ensures
        listed(v.update(i, x)) == listed(v).insert(x.ty, x),
{
    lemma_place_bounds(v, x.ty);
    let w = v.update(i, x);
    assert forall|ty: DataType| #[trigger] place_of(w, ty) == place_of(v, ty) by {
        lemma_place_same(v, w, ty);
    }
    assert forall|ty: DataType| listed(w).contains_key(ty) implies listed(w)[ty] == listed(
        v,
    ).insert(x.ty, x)[ty] by {
        lemma_place_bounds(v, ty);
    }
    assert(listed(w) =~= listed(v).insert(x.ty, x));
}

proof fn lemma_listed_push(v: Seq<VariableSpec>, x: VariableSpec)
    requires
        place_of(v, x.ty) is None,
    ensures
        listed(v.push(x)) == listed(v).insert(x.ty, x),
{
    let w = v.push(x);
    assert(w.drop_last() =~= v);
    assert forall|ty: DataType| listed(v).contains_key(ty) implies listed(w)[ty] == listed(
        v,
    ).insert(x.ty, x)[ty] by {
        lemma_place_bounds(v, ty);
    }
    assert(listed(w) =~= listed(v).insert(x.ty, x));
}

impl View for Variables {
    type V = Map<DataType, VariableSpec>;

    closed spec fn view(&self) -> Map<DataType, VariableSpec> {
        listed(all(self.items@))
    }
}

impl Variables {
    pub fn new() -> (r: Variables)
        ensures
            r@ == Map::<DataType, VariableSpec>::empty(),
    {
        let r = Variables { items: Vec::new() };
        assert(all(r.items@) =~= Seq::<VariableSpec>::empty());
        assert(r@ =~= Map::<DataType, VariableSpec>::empty());
        r
    }

    fn place(&self, ty: DataType) -> (r: Option<usize>)
        ensures
            match place_of(all(self.items@), ty) {
                Some(i) => r matches Some(k) && k == i && k < self.items@.len()
                    && self@.contains_key(ty) && self@[ty] == self.items@[k as int]@,
                None => r is None && !self@.contains_key(ty),
            },
    {
        let ghost v = all(self.items@);
        let mut n: usize = self.items.len();
        proof {
            assert(v.take(n as int) =~= v);
            lemma_place_bounds(v, ty);
        }
        while n > 0
            invariant
                n <= self.items@.len() == v.len(),
                v == all(self.items@),
                place_of(v, ty) == place_of(v.take(n as int), ty),
            decreases n,
        {
            assert(v.take(n as int).drop_last() =~= v.take(n - 1));
            assert(v.take(n as int).last() == self.items@[n - 1]@);
            if self.items[n - 1].ty == ty {
                return Some(n - 1);
            }
            n = n - 1;
        }
        None
    }

    fn put(&mut self, x: Variable)
        ensures
            final(self)@ == old(self)@.insert(x.ty, x@),
    {
        let ghost before = self.items@;
        let ghost xv = x@;
        match self.place(x.ty) {
            Some(i) => {
                self.items.set(i, x);
                proof {
                    assert(all(self.items@) =~= all(before).update(i as int, xv));
                    lemma_listed_update(all(before), i as int, xv);
                }
            },
            None => {
                self.items.push(x);
                proof {
                    assert(all(self.items@) =~= all(before).push(xv));
                    lemma_listed_push(all(before), xv);
                }
            },
        }
    }

    /// Whether messages of a type are kept.
    pub fn keeps(&self, ty: DataType) -> (b: bool)
        ensures
            b == self@.contains_key(ty),
    {
        self.place(ty).is_some()
    }

    fn permissions_of(&self, ty: DataType) -> (r: Permissions)
        ensures
            r == lookup(self@, ty).permissions,
    {
        match self.place(ty) {
            Some(i) => self.items[i].permissions,
            None => Permissions { read: true, write: true },
        }
    }

    fn value_of(&self, ty: DataType) -> (r: Option<Packet>)
        ensures
            packet_in(r) == lookup(self@, ty).value,
    {
        match self.place(ty) {
            Some(i) => match &self.items[i].value {
                Some(p) => Some(p.copied()),
                None => None,
            },
            None => None,
        }
    }

    /// Says what may be done with a value, and that it is kept.
    pub fn enable(&mut self, ty: DataType, permissions: Permissions)
        ensures
            final(self)@ == old(self)@.insert(
                ty,
                VariableSpec { permissions, ..lookup(old(self)@, ty) },
            ),
    {
        let value: Option<Packet> = self.value_of(ty);
        proof {
            if let Some(i) = place_of(all(self.items@), ty) {
                lemma_place_bounds(all(self.items@), ty);
            }
        }
        self.put(Variable { ty, permissions, value });
    }

    /// Keeps a value, whoever set it; says whether it is another than before.
    pub fn store(&mut self, p: &Packet) -> (changed: bool)
        ensures
            final(self)@ == old(self)@.insert(
                p@.ty,
                VariableSpec { value: Some(p@), ..lookup(old(self)@, p@.ty) },
            ),
            changed == !(lookup(old(self)@, p@.ty).value matches Some(q) && q.payload
                == p@.payload),
    {
        let ty: DataType = p.data_type();
        let permissions: Permissions = self.permissions_of(ty);
        let changed: bool = match self.value_of(ty) {
            Some(q) => !codec::same_bytes(q.payload(), p.payload()),
            None => true,
        };
        proof {
            if let Some(i) = place_of(all(self.items@), ty) {
                lemma_place_bounds(all(self.items@), ty);
            }
        }
        self.put(Variable { ty, permissions, value: Some(p.copied()) });
        changed
    }

    /// The program sets a value.
    pub fn set(&mut self, p: &Packet) -> (r: TelemetryResult<()>)
        ensures
            r == (if lookup(old(self)@, p@.ty).permissions.write {
                Ok::<(), TelemetryError>(())
            } else {
                Err::<(), TelemetryError>(TelemetryError::PermissionDenied)
            }),
            r is Ok ==> final(self)@ == old(self)@.insert(
                p@.ty,
                VariableSpec { value: Some(p@), ..lookup(old(self)@, p@.ty) },
            ),
            r is Err ==> final(self)@ == old(self)@,
    {
        if !self.permissions_of(p.data_type()).write {
            return Err(TelemetryError::PermissionDenied);
        }
        let _ = self.store(p);
        Ok(())
    }

    /// The program asks for a value.
    pub fn get(&self, ty: DataType) -> (r: TelemetryResult<Option<Packet>>)
        ensures
            if lookup(self@, ty).permissions.read {
                r matches Ok(v) && packet_in(v) == lookup(self@, ty).value
            } else {
                r == Err::<Option<Packet>, TelemetryError>(TelemetryError::PermissionDenied)
            },
    {
        if !self.permissions_of(ty).read {
            return Err(TelemetryError::PermissionDenied);
        }
        Ok(self.value_of(ty))
    }

    /// The value that another board asks for.
    pub fn answer(&self, buf: &[u8]) -> (r: Option<Packet>)
        ensures
            packet_in(r) == (match read_question(buf@) {
                Some(ty) => lookup(self@, ty).value,
                None => None,
            }),
    {
        match asked_type(buf) {
            Some(ty) => self.value_of(ty),
            None => None,
        }
    }
}

/// A value that was kept is what a question for its type is answered with, until another is kept.
pub proof fn lemma_kept_value_is_given(
    m: Map<DataType, VariableSpec>,
    p: PacketSpec,
    other: PacketSpec,
)
    requires
        other.ty != p.ty,
    ensures
        ({
            let kept = m.insert(p.ty, VariableSpec { value: Some(p), ..lookup(m, p.ty) });
            let later = kept.insert(
                other.ty,
                VariableSpec { value: Some(other), ..lookup(kept, other.ty) },
            );
            lookup(later, p.ty).value == Some(p) && read_question(question_bytes(p.ty)) == Some(p.ty)
        }),
{
    lemma_question_roundtrip(p.ty);
}

} // verus!
