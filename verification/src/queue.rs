//! Work that waits: highest rank first, and first come first served within a rank, all within a
//! budget of bytes.
use vstd::prelude::*;

verus! {

/// Something that waits.
pub struct Waiting<T> {
    pub rank: u8,
    /// Bytes that it takes of the budget.
    pub cost: usize,
    pub item: T,
}

/// Bytes that all of it takes.
pub open spec fn total_cost<T>(s: Seq<Waiting<T>>) -> nat
    decreases s.len(),
{
    if s.len() == 0 {
        0
    } else {
        total_cost(s.drop_last()) + s.last().cost as nat
    }
}

/// Whether `i` is the place of what comes next: of the highest rank, and the first of that rank.
pub open spec fn comes_next<T>(s: Seq<Waiting<T>>, i: int) -> bool {
    &&& 0 <= i < s.len()
    &&& forall|j: int| 0 <= j < i ==> (#[trigger] s[j]).rank < s[i].rank
    &&& forall|j: int| i < j < s.len() ==> (#[trigger] s[j]).rank <= s[i].rank
}

/// Only one place comes next.
pub proof fn lemma_next_is_unique<T>(s: Seq<Waiting<T>>, i: int, j: int)
    requires
        comes_next(s, i),
        comes_next(s, j),
    ensures
        i == j,
{
    if i < j {
        assert(s[i].rank < s[j].rank);
    }
    if j < i {
        assert(s[j].rank < s[i].rank);
    }
}

proof fn lemma_total_remove<T>(s: Seq<Waiting<T>>, i: int)
    requires
        0 <= i < s.len(),
    ensures
        total_cost(s) == total_cost(s.remove(i)) + s[i].cost,
    decreases s.len(),
{
    if i == s.len() - 1 {
        assert(s.remove(i) =~= s.drop_last());
    } else {
        lemma_total_remove(s.drop_last(), i);
        assert(s.remove(i).drop_last() =~= s.drop_last().remove(i));
        assert(s.remove(i).last() == s.last());
    }
}

/// Work that waits.
pub struct WorkQueue<T> {
    items: Vec<Waiting<T>>,
    used: usize,
}

impl<T> View for WorkQueue<T> {
    type V = Seq<Waiting<T>>;

    closed spec fn view(&self) -> Seq<Waiting<T>> {
        self.items@
    }
}

impl<T> WorkQueue<T> {
    /// The count of bytes is right.
    pub closed spec fn wf(self) -> bool {
        self.used == total_cost(self.items@)
    }

    pub fn new() -> (r: Self)
        ensures
            r.wf(),
            r@ == Seq::<Waiting<T>>::empty(),
    {
        WorkQueue { items: Vec::new(), used: 0 }
    }

    pub fn len(&self) -> (n: usize)
        ensures
            n == self@.len(),
    {
        self.items.len()
    }

    /// Bytes that are taken.
    pub fn used_bytes(&self) -> (n: usize)
        requires
            self.wf(),
        ensures
            n == total_cost(self@),
    {
        self.used
    }

    /// Lets `item` wait if that keeps within `budget`; else hands it back.
    pub fn push(&mut self, rank: u8, cost: usize, item: T, budget: usize) -> (r: Result<(), T>)
        requires
            old(self).wf(),
        ensures
            final(self).wf(),
            total_cost(old(self)@) + cost <= budget ==> r is Ok && final(self)@ == old(self)@.push(
                Waiting { rank, cost, item },
            ),
            total_cost(old(self)@) + cost > budget ==> r == Err::<(), T>(item) && final(self)@
                == old(self)@,
    {
        if self.used > budget || cost > budget - self.used {
            return Err(item);
        }
        let ghost before = self.items@;
        self.items.push(Waiting { rank, cost, item });
        self.used = self.used + cost;
        assert(self.items@.drop_last() =~= before);
        Ok(())
    }

    /// The rank of what comes next.
    pub fn top_rank(&self) -> (r: Option<u8>)
        ensures
            self@.len() == 0 ==> r is None,
            self@.len() > 0 ==> exists|i: int| #[trigger]
                comes_next(self@, i) && r == Some(self@[i].rank),
    {
        if self.items.len() == 0 {
            return None;
        }
        let mut best: usize = 0;
        let mut i: usize = 1;
        while i < self.items.len()
            invariant
                0 <= best < i <= self.items@.len(),
                forall|j: int| 0 <= j < i ==> (#[trigger] self.items@[j]).rank <= self.items@[best as int].rank,
                forall|j: int| 0 <= j < best ==> (#[trigger] self.items@[j]).rank < self.items@[best as int].rank,
            decreases self.items@.len() - i,
        {
            if self.items[i].rank > self.items[best].rank {
                best = i;
            }
            i = i + 1;
        }
        assert(comes_next(self@, best as int));
        Some(self.items[best].rank)
    }

    /// Takes out what comes next.
    pub fn pop(&mut self) -> (r: Option<Waiting<T>>)
        requires
            old(self).wf(),
        ensures
            final(self).wf(),
            old(self)@.len() == 0 ==> r is None && *final(self) == *old(self),
            old(self)@.len() > 0 ==> exists|i: int| #[trigger]
                comes_next(old(self)@, i) && r == Some(old(self)@[i]) && final(self)@ == old(self)@.remove(i),
    {
        if self.items.len() == 0 {
            return None;
        }
        let mut best: usize = 0;
        let mut i: usize = 1;
        while i < self.items.len()
            invariant
                1 <= i <= self.items@.len(),
                best < i,
                *self == *old(self),
                comes_next(self.items@.take(i as int), best as int),
            decreases self.items@.len() - i,
        {
            let ghost front = self.items@.take(i as int);
            let ghost more = self.items@.take(i + 1);
            proof {
                assert forall|j: int| 0 <= j < i implies #[trigger] more[j] == front[j] by {}
            }
            if self.items[i].rank > self.items[best].rank {
                proof {
                    assert forall|j: int| 0 <= j < i implies (#[trigger] more[j]).rank
                        < more[i as int].rank by {
                        assert(more[j] == front[j]);
                    }
                }
                best = i;
            } else {
                proof {
                    assert forall|j: int| best < j < i + 1 implies (#[trigger] more[j]).rank
                        <= more[best as int].rank by {
                        if j < i {
                            assert(more[j] == front[j]);
                        }
                    }
                    assert forall|j: int| 0 <= j < best implies (#[trigger] more[j]).rank
                        < more[best as int].rank by {
                        assert(more[j] == front[j]);
                    }
                }
            }
            i = i + 1;
        }
        proof {
            assert(self.items@.take(i as int) =~= self.items@);
            lemma_total_remove(self.items@, best as int);
            assert(comes_next(old(self)@, best as int));
        }
        let w = self.items.remove(best);
        self.used = self.used - w.cost;
        Some(w)
    }

    /// Drops everything.
    pub fn clear(&mut self)
        ensures
            final(self).wf(),
            final(self)@ == Seq::<Waiting<T>>::empty(),
    {
        self.items.clear();
        self.used = 0;
    }
}

/// What is taken out never ranks below what stays, and what stays keeps its order.
pub proof fn lemma_pop_ranks_highest<T>(s: Seq<Waiting<T>>, i: int, j: int)
    requires
        comes_next(s, i),
        0 <= j < s.remove(i).len(),
    ensures
        s.remove(i)[j].rank <= s[i].rank,
{
    if j < i {
        assert(s.remove(i)[j] == s[j]);
    } else {
        assert(s.remove(i)[j] == s[j + 1]);
    }
}

/// Among what waits, what comes next has the highest rank, and among those of that rank came
/// first; and where anything waits, something comes next.
pub proof fn lemma_next_is_highest_and_oldest<T>(s: Seq<Waiting<T>>, i: int, j: int)
    requires
        comes_next(s, i),
        0 <= j < s.len(),
        j != i,
    ensures
        s[j].rank < s[i].rank || (s[j].rank == s[i].rank && i < j),
        s.remove(i).len() == s.len() - 1,
        s.remove(i)[if j < i {
            j
        } else {
            j - 1
        }] == s[j],
{
}

/// Where anything waits, something comes next.
pub proof fn lemma_something_comes_next<T>(s: Seq<Waiting<T>>)
    requires
        s.len() > 0,
    ensures
        exists|i: int| comes_next(s, i),
    decreases s.len(),
{
    let n = s.len() - 1;
    if n == 0 {
        assert(comes_next(s, 0));
    } else {
        let rest = s.drop_last();
        lemma_something_comes_next(rest);
        let i = choose|i: int| comes_next(rest, i);
        assert forall|j: int| 0 <= j < n implies s[j] == #[trigger] rest[j] by {}
        if s[n].rank > rest[i].rank {
            assert forall|j: int| 0 <= j < n implies (#[trigger] s[j]).rank < s[n].rank by {
                assert(rest[j] == s[j]);
                assert(rest[j].rank <= rest[i].rank);
            }
            assert(comes_next(s, n));
        } else {
            assert forall|j: int| 0 <= j < i implies (#[trigger] s[j]).rank < s[i].rank by {
                assert(rest[j] == s[j]);
            }
            assert forall|j: int| i < j < s.len() implies (#[trigger] s[j]).rank <= s[i].rank by {
                if j < n {
                    assert(rest[j] == s[j]);
                }
            }
            assert(comes_next(s, i));
        }
    }
}

/// What waits costs what each of it costs: nothing where nothing waits, more by the cost of what is
/// added, and less by the cost of what is taken out.
pub proof fn lemma_costs_add_up<T>(s: Seq<Waiting<T>>, x: Waiting<T>, i: int)
    ensures
        total_cost(Seq::<Waiting<T>>::empty()) == 0,
        total_cost(s.push(x)) == total_cost(s) + x.cost,
        0 <= i < s.len() ==> total_cost(s.remove(i)) + s[i].cost == total_cost(s),
{
    assert(s.push(x).drop_last() =~= s);
    if 0 <= i < s.len() {
        lemma_total_remove(s, i);
    }
}

} // verus!
