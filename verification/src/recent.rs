//! The packets that were seen lately.
use vstd::prelude::*;

verus! {

/// What is remembered after seeing `id`: the latest `capacity` numbers, each once, in the order in
/// which they came.
pub open spec fn remembered(ids: Seq<u64>, capacity: nat, id: u64) -> Seq<u64> {
    if ids.contains(id) {
        ids
    } else if ids.len() < capacity {
        ids.push(id)
    } else {
        ids.push(id).skip(1)
    }
}

/// A bounded memory of numbers.
pub struct RecentIds {
    ids: Vec<u64>,
    capacity: usize,
}

impl View for RecentIds {
    type V = Seq<u64>;

    closed spec fn view(&self) -> Seq<u64> {
        self.ids@
    }
}

impl RecentIds {
    /// How many numbers are remembered at most.
    pub closed spec fn bound(self) -> nat {
        self.capacity as nat
    }

    /// The memory holds no number twice and no more than it may.
    pub open spec fn wf(self) -> bool {
        &&& self@.len() <= self.bound()
        &&& self@.no_duplicates()
        &&& self.bound() > 0
    }

    /// A memory of at most `capacity` numbers, at least one.
    pub fn new(capacity: usize) -> (r: RecentIds)
        ensures
            r.wf(),
            r@ == Seq::<u64>::empty(),
            r.bound() == (if capacity == 0 {
                1
            } else {
                capacity as nat
            }),
    {
        RecentIds {
            ids: Vec::new(),
            capacity: if capacity == 0 {
                1
            } else {
                capacity
            },
        }
    }

    pub fn capacity(&self) -> (n: usize)
        ensures
            n == self.bound(),
    {
        self.capacity
    }

    pub fn len(&self) -> (n: usize)
        ensures
            n == self@.len(),
    {
        self.ids.len()
    }

    /// Whether `id` was seen lately.
    pub fn contains(&self, id: u64) -> (b: bool)
        ensures
            b == self@.contains(id),
    {
        let mut i: usize = 0;
        while i < self.ids.len()
            invariant
                i <= self.ids@.len(),
                forall|j: int| 0 <= j < i ==> self.ids@[j] != id,
            decreases self.ids@.len() - i,
        {
            if self.ids[i] == id {
                return true;
            }
            i = i + 1;
        }
        false
    }

    /// Takes note of `id`; says whether it is new.
    pub fn insert(&mut self, id: u64) -> (fresh: bool)
        requires
            old(self).wf(),
        ensures
            final(self).wf(),
            final(self).bound() == old(self).bound(),
            final(self)@ == remembered(old(self)@, old(self).bound(), id),
            fresh == !old(self)@.contains(id),
    {
        if self.contains(id) {
            return false;
        }
        let ghost before = self.ids@;
        if self.ids.len() >= self.capacity {
            let _ = self.ids.remove(0);
            self.ids.push(id);
            assert(self.ids@ =~= before.push(id).skip(1));
        } else {
            self.ids.push(id);
        }
        true
    }

    /// Forgets everything.
    pub fn clear(&mut self)
        requires
            old(self).wf(),
        ensures
            final(self).wf(),
            final(self).bound() == old(self).bound(),
            final(self)@ == Seq::<u64>::empty(),
    {
        self.ids.clear();
    }
}

/// A number that was just seen is known, however often it comes again, and seeing it again
/// changes nothing.
pub proof fn lemma_seen_stays_seen(ids: Seq<u64>, capacity: nat, id: u64)
    requires
        capacity > 0,
        ids.len() <= capacity,
    ensures
        remembered(ids, capacity, id).contains(id),
        remembered(remembered(ids, capacity, id), capacity, id) == remembered(ids, capacity, id),
        remembered(ids, capacity, id).len() <= capacity,
{
    if !ids.contains(id) {
        let all = ids.push(id);
        assert(all[ids.len() as int] == id);
        if ids.len() >= capacity {
            assert(all.skip(1)[ids.len() - 1] == id);
        }
    }
}

/// A number is forgotten only when as many others as the memory holds have come after it.
pub proof fn lemma_memory_is_first_in_first_out(ids: Seq<u64>, capacity: nat, id: u64, i: int)
    requires
        capacity > 0,
        ids.len() <= capacity,
        0 <= i < ids.len(),
        i > 0 || ids.len() < capacity,
    ensures
        remembered(ids, capacity, id).contains(ids[i]),
{
    if ids.contains(id) {
    } else if ids.len() < capacity {
        assert(ids.push(id)[i] == ids[i]);
    } else {
        assert(ids.push(id).skip(1)[i - 1] == ids[i]);
    }
}

/// Nothing is remembered that was not seen, no number twice, and one that is known is not pushed
/// out by itself.
pub proof fn lemma_only_seen_is_remembered(ids: Seq<u64>, capacity: nat, id: u64, x: u64)
    requires
        capacity > 0,
        ids.len() <= capacity,
        ids.no_duplicates(),
    ensures
        remembered(ids, capacity, id).no_duplicates(),
        remembered(ids, capacity, id).contains(x) ==> x == id || ids.contains(x),
        ids.contains(id) ==> remembered(ids, capacity, id) == ids,
        !ids.contains(id) && ids.len() < capacity ==> remembered(ids, capacity, id).len()
            == ids.len() + 1,
        !ids.contains(id) && ids.len() == capacity ==> remembered(ids, capacity, id).len()
            == capacity && !remembered(ids, capacity, id).contains(ids[0]),
{
    let all = ids.push(id);
    let after = remembered(ids, capacity, id);
    if !ids.contains(id) {
        assert(all.no_duplicates());
        if after.contains(x) {
            let i = choose|i: int| 0 <= i < after.len() && after[i] == x;
            let k = if ids.len() < capacity {
                i
            } else {
                i + 1
            };
            assert(all[k] == x);
            if k < ids.len() {
                assert(ids[k] == x);
            }
        }
        if ids.len() == capacity && after.contains(ids[0]) {
            let i = choose|i: int| 0 <= i < after.len() && after[i] == ids[0];
            assert(all[i + 1] == all[0]);
        }
    }
}

} // verus!
