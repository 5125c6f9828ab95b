//! Lists of definitions, each with its own number.
use vstd::prelude::*;
use vstd::string::*;
use crate::codec;
use crate::varint;

verus! {

/// A definition that a table can hold.
pub trait Entry: Sized + View {
    /// The definition's number.
    spec fn key(v: Self::V) -> u32;

    /// The definition's name.
    spec fn title(v: Self::V) -> Seq<char>;

    /// The definition as it is written in frames.
    spec fn bytes(v: Self::V) -> Seq<u8>;

    /// Whether the definition's parts are small enough to be written.
    spec fn writable(v: Self::V) -> bool;

    /// The definition at the front of `s`, and what follows it.
    spec fn read(s: Seq<u8>) -> Option<(Self::V, Seq<u8>)>;

    proof fn lemma_roundtrip(v: Self::V, rest: Seq<u8>)
        requires
            Self::writable(v),
        ensures
            Self::read(Self::bytes(v) + rest) == Some((v, rest)),
    ;

    fn id(&self) -> (r: u32)
        ensures
            r == Self::key(self@),
    ;

    fn name(&self) -> (r: &String)
        ensures
            r@ == Self::title(self@),
    ;

    fn write(&self, out: &mut Vec<u8>)
        ensures
            final(out)@ == old(out)@ + Self::bytes(self@),
    ;

    fn read_at(buf: &[u8], pos: usize) -> (r: Option<(Self, usize)>)
        requires
            pos <= buf@.len(),
        ensures
            codec::reads_view(r, Self::read(buf@.skip(pos as int)), buf@, pos),
    ;

    fn copied(&self) -> (r: Self)
        ensures
            r@ == self@,
    ;
}

/// The definition as it is written in frames.
pub fn encoded<D: Entry>(d: &D) -> (r: Vec<u8>)
    ensures
        r@ == D::bytes(d@),
{
    let mut out: Vec<u8> = Vec::new();
    d.write(&mut out);
    assert(Seq::<u8>::empty() + D::bytes(d@) =~= D::bytes(d@));
    out
}

/// Definitions that are written alike are the same.
pub proof fn lemma_bytes_injective<D: Entry>(a: D::V, b: D::V)
    requires
        D::writable(a),
        D::writable(b),
        D::bytes(a) == D::bytes(b),
    ensures
        a == b,
{
    D::lemma_roundtrip(a, Seq::<u8>::empty());
    D::lemma_roundtrip(b, Seq::<u8>::empty());
}

/// The definitions of a list.
pub open spec fn views<D: Entry>(v: Seq<D>) -> Seq<D::V> {
    v.map_values(|d: D| d@)
}

pub open spec fn entry_items<D: Entry>(v: Seq<D::V>) -> Seq<u8>
    decreases v.len(),
{
    if v.len() == 0 {
        Seq::<u8>::empty()
    } else {
        D::bytes(v[0]) + entry_items::<D>(v.skip(1))
    }
}

/// A list of definitions: how many, then each.
pub open spec fn entries_bytes<D: Entry>(v: Seq<D::V>) -> Seq<u8> {
    varint::uleb(v.len()) + entry_items::<D>(v)
}

pub open spec fn read_entry_items<D: Entry>(s: Seq<u8>, n: nat) -> Option<(Seq<D::V>, Seq<u8>)>
    decreases n,
{
    if n == 0 {
        Some((Seq::<D::V>::empty(), s))
    } else {
        match D::read(s) {
            Some((d, s1)) => match read_entry_items::<D>(s1, (n - 1) as nat) {
                Some((v, s2)) => Some((seq![d] + v, s2)),
                None => None,
            },
            None => None,
        }
    }
}

pub open spec fn read_entries<D: Entry>(s: Seq<u8>) -> Option<(Seq<D::V>, Seq<u8>)> {
    match codec::read_int(s) {
        Some((n, s1)) => read_entry_items::<D>(s1, n as nat),
        None => None,
    }
}

/// Whether the definitions of a list are small enough to be written, and there are not too many.
pub open spec fn all_writable<D: Entry>(v: Seq<D::V>) -> bool {
    &&& v.len() <= u64::MAX
    &&& forall|i: int| 0 <= i < v.len() ==> D::writable(#[trigger] v[i])
}

proof fn lemma_entry_items_roundtrip<D: Entry>(v: Seq<D::V>, rest: Seq<u8>)
    requires
        forall|i: int| 0 <= i < v.len() ==> D::writable(#[trigger] v[i]),
    ensures
        read_entry_items::<D>(entry_items::<D>(v) + rest, v.len()) == Some((v, rest)),
    decreases v.len(),
{
    if v.len() == 0 {
        assert(entry_items::<D>(v) + rest =~= rest);
        assert(v =~= Seq::<D::V>::empty());
    } else {
        let tail = entry_items::<D>(v.skip(1));
        assert(D::writable(v[0]));
        vstd::seq_lib::lemma_concat_associative(D::bytes(v[0]), tail, rest);
        D::lemma_roundtrip(v[0], tail + rest);
        assert forall|i: int| 0 <= i < v.skip(1).len() implies D::writable(
            #[trigger] v.skip(1)[i],
        ) by {
            assert(v.skip(1)[i] == v[i + 1]);
        }
        lemma_entry_items_roundtrip::<D>(v.skip(1), rest);
        assert(seq![v[0]] + v.skip(1) =~= v);
    }
}

/// Lists of definitions are read as they were written.
pub proof fn lemma_entries_roundtrip<D: Entry>(v: Seq<D::V>, rest: Seq<u8>)
    requires
        all_writable::<D>(v),
    ensures
        read_entries::<D>(entries_bytes::<D>(v) + rest) == Some((v, rest)),
{
    vstd::seq_lib::lemma_concat_associative(varint::uleb(v.len()), entry_items::<D>(v), rest);
    codec::lemma_int_roundtrip(v.len() as u64, entry_items::<D>(v) + rest);
    lemma_entry_items_roundtrip::<D>(v, rest);
}

/// Appends a list of definitions.
pub fn write_entries<D: Entry>(out: &mut Vec<u8>, v: &Vec<D>)
    ensures
        final(out)@ == old(out)@ + entries_bytes::<D>(views(v@)),
{
    let ghost origin = out@;
    varint::write_uleb(out, v.len() as u64);
    let ghost base = out@;
    let ghost all = views(v@);
    let mut i: usize = 0;
    assert(all.skip(0) =~= all);
    while i < v.len()
        invariant
            i <= v@.len(),
            all == views(v@),
            out@ + entry_items::<D>(all.skip(i as int)) == base + entry_items::<D>(all),
        decreases v@.len() - i,
    {
        let ghost here = all.skip(i as int);
        let ghost before = out@;
        assert(here.skip(1) =~= all.skip(i + 1));
        assert(here[0] == v@[i as int]@);
        v[i].write(out);
        proof {
            vstd::seq_lib::lemma_concat_associative(
                before,
                D::bytes(here[0]),
                entry_items::<D>(all.skip(i + 1)),
            );
        }
        i = i + 1;
    }
    proof {
        assert(out@ + entry_items::<D>(all.skip(i as int)) =~= out@);
        vstd::seq_lib::lemma_concat_associative(
            origin,
            varint::uleb(all.len()),
            entry_items::<D>(all),
        );
    }
}

/// Reads the list of definitions that starts at `pos`.
pub fn read_entries_at<D: Entry>(buf: &[u8], pos: usize) -> (r: Option<(Vec<D>, usize)>)
    requires
        pos <= buf@.len(),
    ensures
        match read_entries::<D>(buf@.skip(pos as int)) {
            Some((x, rest)) => r matches Some((y, end)) && views(y@) == x && pos <= end
                <= buf@.len() && rest == buf@.skip(end as int),
            None => r is None,
        },
{
    let (n, start) = match codec::read_int_at(buf, pos) {
        Some(x) => x,
        None => return None,
    };
    let mut v: Vec<D> = Vec::new();
    let mut p: usize = start;
    let mut left: u64 = n;
    proof {
        if let Some((t, rest)) = read_entry_items::<D>(buf@.skip(start as int), n as nat) {
            assert(views(v@) + t =~= t);
        }
    }
    while left > 0
        invariant
            pos <= start <= p <= buf@.len(),
            left <= n,
            read_entries::<D>(buf@.skip(pos as int)) == read_entry_items::<D>(
                buf@.skip(start as int),
                n as nat,
            ),
            read_entry_items::<D>(buf@.skip(start as int), n as nat) == (match read_entry_items::<
                D,
            >(buf@.skip(p as int), left as nat) {
                Some((t, rest)) => Some((views(v@) + t, rest)),
                None => None::<(Seq<D::V>, Seq<u8>)>,
            }),
        decreases left,
    {
        match D::read_at(buf, p) {
            Some((d, end)) => {
                let ghost before = views(v@);
                let ghost dv = d@;
                v.push(d);
                proof {
                    assert(views(v@) =~= before.push(dv));
                    if let Some((u, rest)) = read_entry_items::<D>(
                        buf@.skip(end as int),
                        (left - 1) as nat,
                    ) {
                        assert(before + (seq![dv] + u) =~= views(v@) + u);
                    }
                }
                p = end;
            },
            None => return None,
        }
        left = left - 1;
    }
    assert(views(v@) + Seq::<D::V>::empty() =~= views(v@));
    Some((v, p))
}

/// The definition with the number `id`.
pub open spec fn lookup<D: Entry>(s: Seq<D::V>, id: u32) -> Option<D::V>
    decreases s.len(),
{
    if s.len() == 0 {
        None
    } else if D::key(s.last()) == id {
        Some(s.last())
    } else {
        lookup::<D>(s.drop_last(), id)
    }
}

/// The latest definition with the name `name`.
pub open spec fn lookup_name<D: Entry>(s: Seq<D::V>, name: Seq<char>) -> Option<D::V>
    decreases s.len(),
{
    if s.len() == 0 {
        None
    } else if D::title(s.last()) == name {
        Some(s.last())
    } else {
        lookup_name::<D>(s.drop_last(), name)
    }
}

/// No number is taken twice.
pub open spec fn distinct<D: Entry>(s: Seq<D::V>) -> bool
    decreases s.len(),
{
    s.len() > 0 ==> distinct::<D>(s.drop_last()) && lookup::<D>(s.drop_last(), D::key(s.last()))
        is None
}

/// Of two definitions with one number, the one that stays: that with the lesser bytes.
pub open spec fn preferred<D: Entry>(a: D::V, b: D::V) -> D::V {
    if codec::lex_less(D::bytes(b), D::bytes(a)) {
        b
    } else {
        a
    }
}

/// `x`, or what stays of `x` and `t` where both have one number.
pub open spec fn settled<D: Entry>(x: D::V, t: D::V) -> D::V {
    if D::key(x) == D::key(t) {
        preferred::<D>(x, t)
    } else {
        x
    }
}

/// `s` after `t` was merged into it.
pub open spec fn merged<D: Entry>(s: Seq<D::V>, t: D::V) -> Seq<D::V> {
    if lookup::<D>(s, D::key(t)) is None {
        s.push(t)
    } else {
        s.map_values(|x: D::V| settled::<D>(x, t))
    }
}

/// Whether merging `t` into `s` changes anything.
pub open spec fn merge_changes<D: Entry>(s: Seq<D::V>, t: D::V) -> bool {
    match lookup::<D>(s, D::key(t)) {
        Some(v) => codec::lex_less(D::bytes(t), D::bytes(v)),
        None => true,
    }
}

/// A definition that is in the list has its number, and its place in the list decides it.
pub proof fn lemma_lookup_index<D: Entry>(s: Seq<D::V>, i: int)
    requires
        distinct::<D>(s),
        0 <= i < s.len(),
    ensures
        lookup::<D>(s, D::key(s[i])) == Some(s[i]),
    decreases s.len(),
{
    if i < s.len() - 1 {
        lemma_lookup_index::<D>(s.drop_last(), i);
        assert(s.drop_last()[i] == s[i]);
    }
}

/// What is found has the number asked for and is in the list.
pub proof fn lemma_lookup_sound<D: Entry>(s: Seq<D::V>, id: u32)
    ensures
        lookup::<D>(s, id) matches Some(v) ==> D::key(v) == id && s.contains(v),
        lookup::<D>(s, id) is None ==> forall|i: int|
            0 <= i < s.len() ==> D::key(#[trigger] s[i]) != id,
    decreases s.len(),
{
    if s.len() > 0 && D::key(s.last()) != id {
        lemma_lookup_sound::<D>(s.drop_last(), id);
        if let Some(v) = lookup::<D>(s.drop_last(), id) {
            let j = choose|j: int| 0 <= j < s.drop_last().len() && s.drop_last()[j] == v;
            assert(s[j] == v);
        } else {
            assert forall|i: int| 0 <= i < s.len() implies D::key(#[trigger] s[i]) != id by {
                if i < s.len() - 1 {
                    assert(s.drop_last()[i] == s[i]);
                }
            }
        }
    } else if s.len() > 0 {
        assert(s[s.len() - 1] == s.last());
    }
}

/// Leaving out definitions leaves out exactly those.
pub proof fn lemma_lookup_filter<D: Entry>(s: Seq<D::V>, keep: spec_fn(D::V) -> bool, id: u32)
    requires
        distinct::<D>(s),
    ensures
        distinct::<D>(s.filter(keep)),
        lookup::<D>(s.filter(keep), id) == (match lookup::<D>(s, id) {
            Some(v) => if keep(v) {
                Some(v)
            } else {
                None
            },
            None => None,
        }),
    decreases s.len(),
{
    reveal(Seq::filter);
    if s.len() > 0 {
        let rest = s.drop_last();
        lemma_lookup_filter::<D>(rest, keep, id);
        lemma_lookup_filter::<D>(rest, keep, D::key(s.last()));
        assert(s =~= rest.push(s.last()));
        rest.lemma_filter_push(s.last(), keep);
        if keep(s.last()) {
            assert(rest.filter(keep).push(s.last()).drop_last() =~= rest.filter(keep));
        }
    }
}

proof fn lemma_lookup_settle<D: Entry>(s: Seq<D::V>, t: D::V, id: u32)
    ensures
        lookup::<D>(s.map_values(|x: D::V| settled::<D>(x, t)), id) == (match lookup::<D>(s, id) {
            Some(v) => Some(settled::<D>(v, t)),
            None => None,
        }),
        distinct::<D>(s) ==> distinct::<D>(s.map_values(|x: D::V| settled::<D>(x, t))),
    decreases s.len(),
{
    let f = |x: D::V| settled::<D>(x, t);
    if s.len() > 0 {
        lemma_lookup_settle::<D>(s.drop_last(), t, id);
        lemma_lookup_settle::<D>(s.drop_last(), t, D::key(s.last()));
        assert(s.map_values(f).drop_last() =~= s.drop_last().map_values(f));
        assert(s.map_values(f).last() == settled::<D>(s.last(), t));
    }
}

/// Merging a definition touches its own number only, and there keeps the preferred one.
pub proof fn lemma_lookup_merged<D: Entry>(s: Seq<D::V>, t: D::V, id: u32)
    requires
        distinct::<D>(s),
    ensures
        distinct::<D>(merged::<D>(s, t)),
        lookup::<D>(merged::<D>(s, t), id) == (if id == D::key(t) {
            match lookup::<D>(s, id) {
                Some(v) => Some(preferred::<D>(v, t)),
                None => Some(t),
            }
        } else {
            lookup::<D>(s, id)
        }),
{
    lemma_lookup_settle::<D>(s, t, id);
    lemma_lookup_sound::<D>(s, id);
    assert(s.push(t).drop_last() =~= s);
}

/// Two definitions merged in either order leave the same definition under every number.
pub proof fn lemma_merge_commutes<D: Entry>(s: Seq<D::V>, a: D::V, b: D::V, id: u32)
    requires
        distinct::<D>(s),
        D::writable(a),
        D::writable(b),
        forall|i: int| 0 <= i < s.len() ==> D::writable(#[trigger] s[i]),
    ensures
        lookup::<D>(merged::<D>(merged::<D>(s, a), b), id) == lookup::<D>(
            merged::<D>(merged::<D>(s, b), a),
            id,
        ),
{
    lemma_lookup_merged::<D>(s, a, id);
    lemma_lookup_merged::<D>(s, b, id);
    lemma_lookup_merged::<D>(merged::<D>(s, a), b, id);
    lemma_lookup_merged::<D>(merged::<D>(s, b), a, id);
    lemma_lookup_sound::<D>(s, id);
    if D::key(a) == id && D::key(b) == id {
        lemma_preferred_order::<D>(a, b);
        if let Some(v) = lookup::<D>(s, id) {
            let i = choose|i: int| 0 <= i < s.len() && s[i] == v;
            assert(D::writable(s[i]));
            lemma_preferred_order::<D>(v, a);
            lemma_preferred_order::<D>(v, b);
            lemma_preferred_assoc::<D>(v, a, b);
            lemma_preferred_assoc::<D>(v, b, a);
        }
    }
}

/// Merging one definition twice is merging it once.
pub proof fn lemma_merge_idempotent<D: Entry>(s: Seq<D::V>, a: D::V, id: u32)
    requires
        distinct::<D>(s),
    ensures
        lookup::<D>(merged::<D>(merged::<D>(s, a), a), id) == lookup::<D>(merged::<D>(s, a), id),
{
    lemma_lookup_merged::<D>(s, a, id);
    lemma_lookup_merged::<D>(merged::<D>(s, a), a, id);
    if let Some(v) = lookup::<D>(s, id) {
        codec::lemma_lex_trichotomy(D::bytes(a), D::bytes(v));
    }
    codec::lemma_lex_trichotomy(D::bytes(a), D::bytes(a));
}

proof fn lemma_preferred_order<D: Entry>(a: D::V, b: D::V)
    requires
        D::writable(a),
        D::writable(b),
    ensures
        preferred::<D>(a, b) == preferred::<D>(b, a),
{
    codec::lemma_lex_trichotomy(D::bytes(a), D::bytes(b));
    if D::bytes(a) == D::bytes(b) {
        lemma_bytes_injective::<D>(a, b);
    }
}

proof fn lemma_preferred_assoc<D: Entry>(v: D::V, a: D::V, b: D::V)
    requires
        D::writable(a),
        D::writable(b),
        D::writable(v),
    ensures
        preferred::<D>(preferred::<D>(v, a), b) == preferred::<D>(v, preferred::<D>(a, b)),
{
    let x = D::bytes(v);
    let y = D::bytes(a);
    let z = D::bytes(b);
    codec::lemma_lex_trichotomy(x, y);
    codec::lemma_lex_trichotomy(y, z);
    codec::lemma_lex_trichotomy(x, z);
    if codec::lex_less(y, x) && codec::lex_less(z, y) {
        codec::lemma_lex_transitive(z, y, x);
    }
    if codec::lex_less(z, x) && codec::lex_less(x, y) {
        codec::lemma_lex_transitive(z, x, y);
    }
}

/// Bytes that definitions take when written.
pub open spec fn table_cost<D: Entry>(s: Seq<D::V>) -> nat
    decreases s.len(),
{
    if s.len() == 0 {
        0
    } else {
        table_cost::<D>(s.drop_last()) + D::bytes(s.last()).len()
    }
}

/// The largest number of a definition, or 0 where there is none.
pub open spec fn max_key<D: Entry>(s: Seq<D::V>) -> u32
    decreases s.len(),
{
    if s.len() == 0 {
        0
    } else {
        let rest = max_key::<D>(s.drop_last());
        if D::key(s.last()) > rest {
            D::key(s.last())
        } else {
            rest
        }
    }
}

/// The largest number stands for something, and no larger one does.
pub proof fn lemma_max_key<D: Entry>(s: Seq<D::V>, id: u32)
    ensures
        s.len() > 0 ==> lookup::<D>(s, max_key::<D>(s)) is Some,
        id > max_key::<D>(s) ==> lookup::<D>(s, id) is None,
    decreases s.len(),
{
    if s.len() > 0 {
        let rest = s.drop_last();
        lemma_max_key::<D>(rest, id);
        if rest.len() == 0 {
            assert(max_key::<D>(rest) == 0);
        }
    }
}

/// `n`, or the largest `usize` where `n` is larger.
pub open spec fn capped(n: nat) -> nat {
    if n <= usize::MAX {
        n
    } else {
        usize::MAX as nat
    }
}

/// A list of definitions.
pub struct Table<D: Entry> {
    items: Vec<D>,
}

impl<D: Entry> View for Table<D> {
    type V = Seq<D::V>;

    closed spec fn view(&self) -> Seq<D::V> {
        self.items@.map_values(|d: D| d@)
    }
}

impl<D: Entry> Table<D> {
    /// The empty table.
    pub fn new() -> (r: Self)
        ensures
            r@ == Seq::<D::V>::empty(),
    {
        let r = Table { items: Vec::new() };
        assert(r@ =~= Seq::<D::V>::empty());
        r
    }

    pub fn len(&self) -> (n: usize)
        ensures
            n == self@.len(),
    {
        self.items.len()
    }

    /// The definition at place `i`.
    pub fn at(&self, i: usize) -> (d: &D)
        requires
            i < self@.len(),
        ensures
            d@ == self@[i as int],
    {
        &self.items[i]
    }

    /// The definition with the number `id`.
    pub fn find(&self, id: u32) -> (r: Option<&D>)
        ensures
            match lookup::<D>(self@, id) {
                Some(v) => r matches Some(d) && d@ == v,
                None => r is None,
            },
    {
        let mut i: usize = self.items.len();
        assert(self@.take(i as int) =~= self@);
        while i > 0
            invariant
                i <= self@.len() == self.items@.len(),
                lookup::<D>(self@, id) == lookup::<D>(self@.take(i as int), id),
            decreases i,
        {
            assert(self@.take(i as int).drop_last() =~= self@.take(i - 1));
            assert(self@.take(i as int).last() == self.items@[i - 1]@);
            if self.items[i - 1].id() == id {
                return Some(&self.items[i - 1]);
            }
            i = i - 1;
        }
        None
    }

    /// The latest definition with the name `name`.
    pub fn find_name(&self, name: &str) -> (r: Option<&D>)
        ensures
            match lookup_name::<D>(self@, name@) {
                Some(v) => r matches Some(d) && d@ == v,
                None => r is None,
            },
    {
        let wanted: String = name.to_owned();
        let mut i: usize = self.items.len();
        assert(self@.take(i as int) =~= self@);
        while i > 0
            invariant
                i <= self@.len() == self.items@.len(),
                wanted@ == name@,
                lookup_name::<D>(self@, name@) == lookup_name::<D>(self@.take(i as int), name@),
            decreases i,
        {
            assert(self@.take(i as int).drop_last() =~= self@.take(i - 1));
            assert(self@.take(i as int).last() == self.items@[i - 1]@);
            if *self.items[i - 1].name() == wanted {
                return Some(&self.items[i - 1]);
            }
            i = i - 1;
        }
        None
    }

    /// Adds a definition behind the others.
    pub fn push(&mut self, d: D)
        ensures
            final(self)@ == old(self)@.push(d@),
    {
        let ghost before = self.items@;
        self.items.push(d);
        assert(self@ =~= before.map_values(|d: D| d@).push(d@));
    }

    /// Drops the definition with the number `id`.
    pub fn remove(&mut self, id: u32)
        ensures
            final(self)@ == old(self)@.filter(|v: D::V| D::key(v) != id),
    {
        let ghost keep = |v: D::V| D::key(v) != id;
        let mut kept: Table<D> = Table::new();
        let mut i: usize = 0;
        proof {
            reveal(Seq::filter);
            assert(self@.take(0) =~= Seq::<D::V>::empty());
            assert(self@.take(0).filter(keep) =~= Seq::<D::V>::empty());
        }
        while i < self.items.len()
            invariant
                i <= self@.len() == self.items@.len(),
                keep == (|v: D::V| D::key(v) != id),
                kept@ == self@.take(i as int).filter(keep),
                *self == *old(self),
            decreases self.items@.len() - i,
        {
            proof {
                assert(self@.take(i + 1) =~= self@.take(i as int).push(self@[i as int]));
                self@.take(i as int).lemma_filter_push(self@[i as int], keep);
            }
            if self.items[i].id() != id {
                kept.push(self.items[i].copied());
            }
            i = i + 1;
        }
        assert(self@.take(i as int) =~= self@);
        *self = kept;
    }

    /// Merges a definition; where its number is taken, the preferred one of the two stays.
    /// Returns whether that changed anything.
    pub fn merge(&mut self, d: &D) -> (changed: bool)
        ensures
            final(self)@ == merged::<D>(old(self)@, d@),
            changed == merge_changes::<D>(old(self)@, d@),
    {
        let ghost f = |x: D::V| settled::<D>(x, d@);
        let mine: Vec<u8> = encoded(d);
        let changed: bool = match self.find(d.id()) {
            Some(cur) => codec::less_bytes(&mine, &encoded(cur)),
            None => {
                self.push(d.copied());
                return true;
            },
        };
        let mut out: Table<D> = Table::new();
        let mut i: usize = 0;
        assert(self@.take(0).map_values(f) =~= Seq::<D::V>::empty());
        while i < self.items.len()
            invariant
                i <= self@.len() == self.items@.len(),
                f == (|x: D::V| settled::<D>(x, d@)),
                mine@ == D::bytes(d@),
                out@ == self@.take(i as int).map_values(f),
                *self == *old(self),
            decreases self.items@.len() - i,
        {
            let cur: &D = &self.items[i];
            let ghost done = self@.take(i as int);
            assert(self@.take(i + 1).map_values(f) =~= done.map_values(f).push(
                settled::<D>(cur@, d@),
            ));
            if cur.id() == d.id() && codec::less_bytes(&mine, &encoded(cur)) {
                out.push(d.copied());
            } else {
                out.push(cur.copied());
            }
            i = i + 1;
        }
        assert(self@.take(i as int) =~= self@);
        *self = out;
        changed
    }

    /// A copy of the table.
    pub fn copied(&self) -> (r: Self)
        ensures
            r@ == self@,
    {
        let mut out: Table<D> = Table::new();
        let mut i: usize = 0;
        while i < self.items.len()
            invariant
                i <= self@.len() == self.items@.len(),
                out@ == self@.take(i as int),
            decreases self.items@.len() - i,
        {
            assert(self@.take(i + 1) =~= self@.take(i as int).push(self@[i as int]));
            out.push(self.items[i].copied());
            i = i + 1;
        }
        assert(self@.take(i as int) =~= self@);
        out
    }

    /// The largest number of a definition, or 0 where there is none.
    pub fn largest_key(&self) -> (n: u32)
        ensures
            n == max_key::<D>(self@),
    {
        let mut n: u32 = 0;
        let mut i: usize = 0;
        assert(self@.take(0) =~= Seq::<D::V>::empty());
        while i < self.items.len()
            invariant
                i <= self@.len() == self.items@.len(),
                n == max_key::<D>(self@.take(i as int)),
            decreases self.items@.len() - i,
        {
            assert(self@.take(i + 1).drop_last() =~= self@.take(i as int));
            assert(self@.take(i + 1).last() == self.items@[i as int]@);
            let k: u32 = self.items[i].id();
            if k > n {
                n = k;
            }
            i = i + 1;
        }
        assert(self@.take(i as int) =~= self@);
        n
    }

    /// Bytes that the definitions take when written, counted up to the largest `usize`.
    pub fn cost(&self) -> (n: usize)
        ensures
            n == capped(table_cost::<D>(self@)),
    {
        let mut n: usize = 0;
        let mut i: usize = 0;
        while i < self.items.len()
            invariant
                i <= self@.len() == self.items@.len(),
                n == capped(table_cost::<D>(self@.take(i as int))),
            decreases self.items@.len() - i,
        {
            assert(self@.take(i + 1).drop_last() =~= self@.take(i as int));
            n = n.saturating_add(encoded(&self.items[i]).len());
            i = i + 1;
        }
        assert(self@.take(i as int) =~= self@);
        n
    }
}

/// Bytes that definitions take when written, counted up to the largest `usize`.
pub fn list_cost<D: Entry>(list: &Vec<D>) -> (n: usize)
    ensures
        n == capped(table_cost::<D>(list@.map_values(|d: D| d@))),
{
    let ghost all = list@.map_values(|d: D| d@);
    let mut n: usize = 0;
    let mut i: usize = 0;
    while i < list.len()
        invariant
            i <= list@.len(),
            all == list@.map_values(|d: D| d@),
            n == capped(table_cost::<D>(all.take(i as int))),
        decreases list@.len() - i,
    {
        assert(all.take(i + 1).drop_last() =~= all.take(i as int));
        assert(all.take(i + 1).last() == list@[i as int]@);
        n = n.saturating_add(encoded(&list[i]).len());
        i = i + 1;
    }
    assert(all.take(i as int) =~= all);
    n
}

} // verus!
