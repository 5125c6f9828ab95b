//! What a process knows: the schema, the names behind sender addresses, and which nonce comes
//! next.
use vstd::prelude::*;
use vstd::string::*;
use crate::hash;
use crate::schema;
use crate::schema::Schema;
use crate::text;

verus! {

/// The latest name in the list that hashes to `address`.
pub open spec fn name_behind(names: Seq<Seq<char>>, address: u32) -> Option<Seq<char>>
    decreases names.len(),
{
    if names.len() == 0 {
        None
    } else if hash::name_address(names.last()) == address {
        Some(names.last())
    } else {
        name_behind(names.drop_last(), address)
    }
}

/// The text that stands for a sender of whom only the address is known.
pub open spec fn address_text(address: u32) -> Seq<char> {
    "@addr:"@ + text::decimal(address as nat)
}

/// The text that stands for a sender of whom only the address is known.
pub fn address_label(address: u32) -> (r: String)
    ensures
        r@ == address_text(address),
{
    let mut out: String = "@addr:".to_owned();
    text::push_decimal(&mut out, address as u64);
    out
}

/// The text that stands for a sender: its name, or its address where the name is not known.
pub open spec fn sender_label(names: Seq<Seq<char>>, address: u32) -> Seq<char> {
    match name_behind(names, address) {
        Some(name) => name,
        None => address_text(address),
    }
}

/// The names after a sender made itself known: the first name of an address stays.
pub open spec fn with_name(names: Seq<Seq<char>>, name: Seq<char>) -> Seq<Seq<char>> {
    if name_behind(names, hash::name_address(name)) is Some {
        names
    } else {
        names.push(name)
    }
}

/// Once a name is known, the text for its address is that name or one that hashes alike; a name
/// that was known stays known.
pub proof fn lemma_with_name(names: Seq<Seq<char>>, name: Seq<char>, address: u32)
    ensures
        name_behind(with_name(names, name), hash::name_address(name)) is Some,
        name_behind(names, hash::name_address(name)) is None ==> sender_label(
            with_name(names, name),
            hash::name_address(name),
        ) == name,
        name_behind(names, address) is Some ==> name_behind(with_name(names, name), address)
            == name_behind(names, address),
{
    assert(names.push(name).drop_last() =~= names);
}

pub struct Registry {
    pub schema: Schema,
    pub names: Vec<String>,
    /// The nonce that the next packet gets.
    pub nonce: u16,
}

impl Registry {
    /// The names that are known, in the order in which they came.
    pub open spec fn known_names(self) -> Seq<Seq<char>> {
        self.names@.map_values(|s: String| s@)
    }

    /// A registry without names.
    pub fn new(schema: Schema) -> (r: Registry)
        ensures
            r.schema == schema,
            r.known_names() == Seq::<Seq<char>>::empty(),
            r.nonce == 0,
    {
        let r = Registry { schema, names: Vec::new(), nonce: 0 };
        assert(r.known_names() =~= Seq::<Seq<char>>::empty());
        r
    }

    /// The name behind an address.
    pub fn sender_name(&self, address: u32) -> (r: Option<&String>)
        ensures
            match name_behind(self.known_names(), address) {
                Some(name) => r matches Some(s) && s@ == name,
                None => r is None,
            },
    {
        let mut i: usize = self.names.len();
        let ghost all = self.known_names();
        assert(all.take(i as int) =~= all);
        while i > 0
            invariant
                i <= self.names@.len() == all.len(),
                all == self.known_names(),
                name_behind(all, address) == name_behind(all.take(i as int), address),
            decreases i,
        {
            assert(all.take(i as int).drop_last() =~= all.take(i - 1));
            assert(all.take(i as int).last() == self.names@[i - 1]@);
            if hash::sender_address_u32(self.names[i - 1].as_str()) == address {
                return Some(&self.names[i - 1]);
            }
            i = i - 1;
        }
        None
    }

    /// The text that stands for a sender.
    pub fn sender_text(&self, address: u32) -> (r: String)
        ensures
            r@ == sender_label(self.known_names(), address),
    {
        match self.sender_name(address) {
            Some(name) => name.clone(),
            None => address_label(address),
        }
    }

    /// Takes note of a sender's name.
    pub fn note_sender(&mut self, name: &str)
        ensures
            final(self).schema == old(self).schema,
            final(self).nonce == old(self).nonce,
            final(self).known_names() == with_name(old(self).known_names(), name@),
    {
        if self.sender_name(hash::sender_address_u32(name)).is_none() {
            let ghost before = self.names@;
            self.names.push(name.to_owned());
            assert(self.known_names() =~= before.map_values(|s: String| s@).push(name@));
        }
    }

    /// Hands out the next nonce.
    pub fn take_nonce(&mut self) -> (n: u16)
        ensures
            n == old(self).nonce,
            final(self).schema == old(self).schema,
            final(self).known_names() == old(self).known_names(),
            final(self).nonce == old(self).nonce.wrapping_add(1),
    {
        let n: u16 = self.nonce;
        self.nonce = n.wrapping_add(1);
        n
    }
}

} // verus!
