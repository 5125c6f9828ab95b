//! Maps from numbers to values, kept as short lists.
use vstd::prelude::*;

verus! {

/// The map that a list of entries stands for: later entries cover earlier ones.
pub open spec fn map_of<V>(items: Seq<(u128, V)>) -> Map<u128, V>
    decreases items.len(),
{
    if items.len() == 0 {
        Map::empty()
    } else {
        map_of(items.drop_last()).insert(items.last().0, items.last().1)
    }
}

proof fn lemma_filter_is_remove<V>(items: Seq<(u128, V)>, key: u128)
    ensures
        map_of(items.filter(|e: (u128, V)| e.0 != key)) == map_of(items).remove(key),
    decreases items.len(),
{
    reveal(Seq::filter);
    let keep = |e: (u128, V)| e.0 != key;
    if items.len() > 0 {
        let rest = items.drop_last();
        lemma_filter_is_remove(rest, key);
        assert(items =~= rest.push(items.last()));
        rest.lemma_filter_push(items.last(), keep);
        if keep(items.last()) {
            let f = rest.filter(keep);
            assert(f.push(items.last()).drop_last() =~= f);
            assert(map_of(items.filter(keep)) =~= map_of(items).remove(key));
        } else {
            assert(map_of(items).remove(key) =~= map_of(rest).remove(key));
        }
    } else {
        assert(items.filter(keep) =~= items);
        assert(map_of(items).remove(key) =~= map_of(items));
    }
}

/// Whether the number `x` stands in the low, or in the next higher, 32 bits of a key.
pub open spec fn names_part(k: u128, x: u128, high: bool) -> bool {
    if high {
        (k / 0x1_0000_0000) % 0x1_0000_0000 == x
    } else {
        k % 0x1_0000_0000 == x
    }
}

/// The keys in which the number `x` stands there.
pub open spec fn part_keys(x: u128, high: bool) -> Set<u128> {
    Set::new(|k: u128| names_part(k, x, high))
}

proof fn lemma_drop_step<V>(m: Map<u128, V>, k: u128, v: V, x: u128, high: bool)
    ensures
        names_part(k, x, high) ==> m.insert(k, v).remove_keys(part_keys(x, high))
            == m.remove_keys(part_keys(x, high)),
        !names_part(k, x, high) ==> m.insert(k, v).remove_keys(part_keys(x, high))
            == m.remove_keys(part_keys(x, high)).insert(k, v),
{
    let keys = part_keys(x, high);
    if names_part(k, x, high) {
        assert(m.insert(k, v).remove_keys(keys) =~= m.remove_keys(keys));
    } else {
        assert(m.insert(k, v).remove_keys(keys) =~= m.remove_keys(keys).insert(k, v));
    }
}

/// A map from numbers to values.
pub struct Assoc<T> {
    items: Vec<(u128, T)>,
}

impl<T: View> View for Assoc<T> {
    type V = Map<u128, T::V>;

    closed spec fn view(&self) -> Map<u128, T::V> {
        map_of(self.entries())
    }
}

impl<T: View> Assoc<T> {
    closed spec fn entries(&self) -> Seq<(u128, T::V)> {
        self.items@.map_values(|e: (u128, T)| (e.0, e.1@))
    }

    /// The empty map.
    pub fn new() -> (r: Self)
        ensures
            r@ == Map::<u128, T::V>::empty(),
    {
        let r = Assoc { items: Vec::new() };
        assert(r.entries() =~= Seq::<(u128, T::V)>::empty());
        r
    }

    /// Number of entries that are kept.
    pub fn len(&self) -> (n: usize)
        ensures
            n == 0 ==> self@ == Map::<u128, T::V>::empty(),
    {
        proof {
            if self.items@.len() == 0 {
                assert(self.entries() =~= Seq::<(u128, T::V)>::empty());
            }
        }
        self.items.len()
    }

    /// The value of `key`.
    pub fn get(&self, key: u128) -> (r: Option<&T>)
        ensures
            self@.contains_key(key) ==> (r matches Some(v) && v@ == self@[key]),
            !self@.contains_key(key) ==> r is None,
    {
        let ghost all = self.entries();
        let mut i: usize = self.items.len();
        assert(all.take(i as int) =~= all);
        while i > 0
            invariant
                i <= self.items@.len() == all.len(),
                all == self.entries(),
                map_of(all).contains_key(key) == map_of(all.take(i as int)).contains_key(key),
                map_of(all).contains_key(key) ==> map_of(all)[key] == map_of(
                    all.take(i as int),
                )[key],
            decreases i,
        {
            assert(all.take(i as int).drop_last() =~= all.take(i - 1));
            assert(all.take(i as int).last() == (self.items@[i - 1].0, self.items@[i - 1].1@));
            if self.items[i - 1].0 == key {
                return Some(&self.items[i - 1].1);
            }
            i = i - 1;
        }
        None
    }

    /// Takes `key` out of the map.
    pub fn remove(&mut self, key: u128) -> (r: Option<T>)
        ensures
            final(self)@ == old(self)@.remove(key),
            old(self)@.contains_key(key) ==> (r matches Some(v) && v@ == old(self)@[key]),
            !old(self)@.contains_key(key) ==> r is None,
    {
        let ghost keep = |e: (u128, T::V)| e.0 != key;
        let ghost all = self.entries();
        proof {
            lemma_filter_is_remove(all, key);
            reveal(Seq::filter);
        }
        let mut found: Option<T> = None;
        let mut i: usize = self.items.len();
        let ghost mut tail = Seq::<(u128, T::V)>::empty();
        proof {
            assert(all.take(i as int) =~= all);
            assert(tail.filter(keep) =~= tail);
            assert(all =~= all.take(i as int) + tail);
        }
        while i > 0
            invariant
                i <= self.items@.len(),
                keep == (|e: (u128, T::V)| e.0 != key),
                i <= all.len(),
                self.entries() == all.take(i as int) + tail,
                tail == all.skip(i as int).filter(keep),
                found is None ==> map_of(all).contains_key(key) == map_of(
                    all.take(i as int),
                ).contains_key(key),
                found is None && map_of(all).contains_key(key) ==> map_of(all)[key] == map_of(
                    all.take(i as int),
                )[key],
                found matches Some(v) ==> map_of(all).contains_key(key) && map_of(all)[key] == v@,
            decreases i,
        {
            let ghost here = all[i - 1];
            proof {
                assert(self.entries()[i - 1] == here);
                assert(all.take(i as int).drop_last() =~= all.take(i - 1));
                assert(all.skip(i - 1) =~= seq![here] + all.skip(i as int));
                all.skip(i as int).lemma_filter_prepend(here, keep);
            }
            if self.items[i - 1].0 == key {
                let ghost before = self.entries();
                let e = self.items.remove(i - 1);
                proof {
                    assert(self.entries() =~= before.remove(i - 1));
                    assert((all.take(i as int) + tail).remove(i - 1) =~= all.take(i - 1) + tail);
                }
                if found.is_none() {
                    found = Some(e.1);
                }
            } else {
                proof {
                    tail = seq![here] + tail;
                    assert(self.entries() =~= all.take(i - 1) + tail);
                }
            }
            i = i - 1;
        }
        proof {
            assert(all.skip(0) =~= all);
            assert(all.take(0) + tail =~= tail);
        }
        found
    }

    /// Gives `key` the value `value`.
    pub fn put(&mut self, key: u128, value: T)
        ensures
            final(self)@ == old(self)@.insert(key, value@),
    {
        let _ = self.remove(key);
        let ghost before = self.entries();
        self.items.push((key, value));
        proof {
            assert(self.entries() =~= before.push((key, value@)));
            assert(before.push((key, value@)).drop_last() =~= before);
            assert(old(self)@.remove(key).insert(key, value@) =~= old(self)@.insert(key, value@));
        }
    }

    /// Takes all keys out of the map in which the number `x` stands in the low, or in the next
    /// higher, 32 bits.
    pub fn drop_part(&mut self, x: u128, high: bool)
        ensures
            final(self)@ == old(self)@.remove_keys(part_keys(x, high)),
    {
        let ghost all = self.entries();
        let mut rest: Vec<(u128, T)> = Vec::new();
        std::mem::swap(&mut rest, &mut self.items);
        let ghost given = rest@;
        let ghost mut k: int = 0;
        proof {
            assert(self.entries() =~= Seq::<(u128, T::V)>::empty());
            assert(all.take(0) =~= Seq::<(u128, T::V)>::empty());
            assert(Map::<u128, T::V>::empty().remove_keys(part_keys(x, high)) =~= Map::<
                u128,
                T::V,
            >::empty());
            assert(rest@ =~= given.skip(0));
        }
        while rest.len() > 0
            invariant
                0 <= k <= given.len() == all.len(),
                rest@ == given.skip(k),
                all == given.map_values(|e: (u128, T)| (e.0, e.1@)),
                map_of(self.entries()) == map_of(all.take(k)).remove_keys(part_keys(x, high)),
            decreases rest@.len(),
        {
            let e: (u128, T) = rest.remove(0);
            proof {
                assert(given.skip(k)[0] == given[k]);
                assert(rest@ =~= given.skip(k + 1));
                assert(all.take(k + 1).drop_last() =~= all.take(k));
                assert(all.take(k + 1).last() == (e.0, e.1@));
                lemma_drop_step(map_of(all.take(k)), e.0, e.1@, x, high);
            }
            let dead: bool = if high {
                (e.0 / 0x1_0000_0000) % 0x1_0000_0000 == x
            } else {
                e.0 % 0x1_0000_0000 == x
            };
            if !dead {
                let ghost before = self.entries();
                let ghost ev = (e.0, e.1@);
                self.items.push(e);
                assert(self.entries() =~= before.push(ev));
                assert(before.push(ev).drop_last() =~= before);
            }
            proof {
                k = k + 1;
            }
        }
        assert(all.take(k) =~= all);
    }
}

} // verus!
