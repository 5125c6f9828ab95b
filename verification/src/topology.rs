//! Which boards are where, and which of them speaks for all.
use vstd::prelude::*;
use vstd::string::*;
use crate::codec;
use crate::discovery;
use crate::discovery::{BoardSpec, TopologyBoardNode};

verus! {

/// Whether two boards of a list are connected: one of them says so.
pub open spec fn adjacent(b: Seq<BoardSpec>, i: int, j: int) -> bool {
    b[i].connections.contains(b[j].sender_id) || b[j].connections.contains(b[i].sender_id)
}

/// The boards in `from`, and those next to them.
pub open spec fn widened(b: Seq<BoardSpec>, from: Set<int>) -> Set<int> {
    Set::new(
        |j: int|
            from.contains(j) || exists|k: int|
                0 <= k < b.len() && #[trigger] from.contains(k) && adjacent(b, k, j),
    )
}

/// The boards that can be reached from board `i` in at most `n` steps.
pub open spec fn around(b: Seq<BoardSpec>, i: int, n: nat) -> Set<int>
    decreases n,
{
    if n == 0 {
        set![i]
    } else {
        widened(b, around(b, i, (n - 1) as nat))
    }
}

/// Whether board `j` can be reached from board `i` in at most `n` steps.
pub open spec fn within(b: Seq<BoardSpec>, i: int, j: int, n: nat) -> bool {
    around(b, i, n).contains(j)
}

/// How many of the first `m` boards cannot be reached from board `i` in at most `n` steps.
pub open spec fn missing(b: Seq<BoardSpec>, i: int, n: nat, m: nat) -> nat
    decreases m,
{
    if m == 0 {
        0
    } else {
        missing(b, i, n, (m - 1) as nat) + (if within(b, i, m - 1, n) {
            0nat
        } else {
            1nat
        })
    }
}

/// Steps from board `i` to all boards together, of which at most `n` count for each board.
pub open spec fn hops(b: Seq<BoardSpec>, i: int, n: nat) -> nat
    decreases n,
{
    if n == 0 {
        0
    } else {
        hops(b, i, (n - 1) as nat) + missing(b, i, (n - 1) as nat, b.len())
    }
}

/// Steps from board `i` to all boards together; a board out of reach counts as many steps as there
/// are boards.
pub open spec fn total_hops(b: Seq<BoardSpec>, i: int) -> nat {
    hops(b, i, b.len())
}

/// Whether board `i` stands before board `j` for election: fewer steps to all, or as many and a
/// lesser name.
pub open spec fn precedes(b: Seq<BoardSpec>, i: int, j: int) -> bool {
    total_hops(b, i) < total_hops(b, j) || (total_hops(b, i) == total_hops(b, j)
        && codec::lex_less(
        vstd::utf8::encode_utf8(b[i].sender_id),
        vstd::utf8::encode_utf8(b[j].sender_id),
    ))
}

/// Whether board `i` is elected: no board stands before it, and it is the first such.
pub open spec fn elected(b: Seq<BoardSpec>, i: int) -> bool {
    &&& 0 <= i < b.len()
    &&& forall|j: int| 0 <= j < b.len() ==> !(#[trigger] precedes(b, j, i))
    &&& forall|j: int| 0 <= j < i ==> #[trigger] precedes(b, i, j)
}

/// At most one board is elected.
pub proof fn lemma_one_is_elected(b: Seq<BoardSpec>, i: int, j: int)
    requires
        elected(b, i),
        elected(b, j),
    ensures
        i == j,
{
    if i < j {
        assert(precedes(b, j, i));
    }
    if j < i {
        assert(precedes(b, i, j));
    }
}

proof fn lemma_within_step(b: Seq<BoardSpec>, i: int, j: int, n: nat)
    ensures
        within(b, i, j, n + 1) == (within(b, i, j, n) || exists|k: int|
            0 <= k < b.len() && #[trigger] within(b, i, k, n) && adjacent(b, k, j)),
{
    let from = around(b, i, n);
    assert(around(b, i, n + 1) == widened(b, from));
    if within(b, i, j, n + 1) && !within(b, i, j, n) {
        let k = choose|k: int|
            0 <= k < b.len() && #[trigger] from.contains(k) && adjacent(b, k, j);
        assert(within(b, i, k, n));
    }
    if exists|k: int| 0 <= k < b.len() && #[trigger] within(b, i, k, n) && adjacent(b, k, j) {
        let k = choose|k: int|
            0 <= k < b.len() && #[trigger] within(b, i, k, n) && adjacent(b, k, j);
        assert(from.contains(k));
    }
}

fn contains_text(v: &Vec<String>, t: &String) -> (r: bool)
    ensures
        r == discovery::texts(v@).contains(t@),
{
    let mut i: usize = 0;
    while i < v.len()
        invariant
            i <= v@.len(),
            forall|j: int| 0 <= j < i ==> discovery::texts(v@)[j] != t@,
        decreases v@.len() - i,
    {
        if v[i] == *t {
            assert(discovery::texts(v@)[i as int] == t@);
            return true;
        }
        i = i + 1;
    }
    false
}

fn adjacent_of(b: &Vec<TopologyBoardNode>, i: usize, j: usize) -> (r: bool)
    requires
        i < b@.len(),
        j < b@.len(),
    ensures
        r == adjacent(discovery::boards(b@), i as int, j as int),
{
    contains_text(&b[i].connections, &b[j].sender_id) || contains_text(
        &b[j].connections,
        &b[i].sender_id,
    )
}

/// One step further from what is reached.
fn spread(b: &Vec<TopologyBoardNode>, from: &Vec<bool>, i: Ghost<int>, n: Ghost<nat>) -> (to: Vec<
    bool,
>)
    requires
        from@.len() == b@.len(),
        forall|j: int|
            0 <= j < b@.len() ==> from@[j] == #[trigger] within(discovery::boards(b@), i@, j, n@),
    ensures
        to@.len() == b@.len(),
        forall|j: int|
            0 <= j < b@.len() ==> to@[j] == #[trigger] within(
                discovery::boards(b@),
                i@,
                j,
                n@ + 1,
            ),
{
    let ghost bs = discovery::boards(b@);
    let mut to: Vec<bool> = Vec::new();
    let mut j: usize = 0;
    while j < b.len()
        invariant
            j <= b@.len(),
            bs == discovery::boards(b@),
            from@.len() == b@.len(),
            to@.len() == j,
            forall|x: int| 0 <= x < b@.len() ==> from@[x] == #[trigger] within(bs, i@, x, n@),
            forall|x: int| 0 <= x < j ==> to@[x] == #[trigger] within(bs, i@, x, n@ + 1),
        decreases b@.len() - j,
    {
        let mut hit: bool = from[j];
        let mut k: usize = 0;
        while k < b.len()
            invariant
                k <= b@.len(),
                j < b@.len(),
                bs == discovery::boards(b@),
                from@.len() == b@.len(),
                forall|x: int| 0 <= x < b@.len() ==> from@[x] == #[trigger] within(bs, i@, x, n@),
                hit == (within(bs, i@, j as int, n@) || exists|x: int|
                    0 <= x < k && #[trigger] within(bs, i@, x, n@) && adjacent(bs, x, j as int)),
            decreases b@.len() - k,
        {
            let step: bool = from[k] && adjacent_of(b, k, j);
            proof {
                assert(from@[k as int] == within(bs, i@, k as int, n@));
            }
            hit = hit || step;
            k = k + 1;
        }
        proof {
            lemma_within_step(bs, i@, j as int, n@);
            assert(bs.len() == b@.len());
        }
        to.push(hit);
        j = j + 1;
    }
    to
}

fn total_hops_of(b: &Vec<TopologyBoardNode>, i: usize) -> (t: u64)
    requires
        i < b@.len(),
        b@.len() <= 0xFFFF_FFFF,
    ensures
        t == total_hops(discovery::boards(b@), i as int),
{
    let ghost bs = discovery::boards(b@);
    let mut reached: Vec<bool> = Vec::new();
    let mut j: usize = 0;
    while j < b.len()
        invariant
            j <= b@.len(),
            bs == discovery::boards(b@),
            reached@.len() == j,
            forall|x: int| 0 <= x < j ==> reached@[x] == #[trigger] within(bs, i as int, x, 0),
        decreases b@.len() - j,
    {
        reached.push(i == j);
        j = j + 1;
    }
    let mut total: u64 = 0;
    let mut n: usize = 0;
    while n < b.len()
        invariant
            n <= b@.len() <= 0xFFFF_FFFF,
            bs == discovery::boards(b@),
            reached@.len() == b@.len(),
            forall|x: int|
                0 <= x < b@.len() ==> reached@[x] == #[trigger] within(
                    bs,
                    i as int,
                    x,
                    n as nat,
                ),
            total == hops(bs, i as int, n as nat),
            total <= n * b@.len(),
        decreases b@.len() - n,
    {
        let mut gone: u64 = 0;
        let mut m: usize = 0;
        while m < b.len()
            invariant
                m <= b@.len() <= 0xFFFF_FFFF,
                bs == discovery::boards(b@),
                reached@.len() == b@.len(),
                forall|x: int|
                    0 <= x < b@.len() ==> reached@[x] == #[trigger] within(
                        bs,
                        i as int,
                        x,
                        n as nat,
                    ),
                gone == missing(bs, i as int, n as nat, m as nat),
                gone <= m,
            decreases b@.len() - m,
        {
            proof {
                assert(reached@[m as int] == within(bs, i as int, m as int, n as nat));
            }
            if !reached[m] {
                gone = gone + 1;
            }
            m = m + 1;
        }
        proof {
            let len = b@.len() as int;
            assert(n * len + len == (n + 1) * len) by (nonlinear_arith);
            assert((n + 1) * len <= 0xFFFF_FFFF * 0xFFFF_FFFF) by (nonlinear_arith)
                requires
                    0 <= n < len,
                    len <= 0xFFFF_FFFF,
            ;
        }
        total = total + gone;
        reached = spread(b, &reached, Ghost(i as int), Ghost(n as nat));
        let ghost next = n as nat + 1;
        assert forall|x: int| 0 <= x < b@.len() implies reached@[x] == #[trigger] within(
            bs,
            i as int,
            x,
            next,
        ) by {}
        n = n + 1;
        assert(n as nat == next);
    }
    total
}

/// The board that speaks for all: of the boards that need the fewest steps to all others, the one
/// with the least name. Without boards it is the board itself.
pub fn elect_discovery_master(local: &str, b: &Vec<TopologyBoardNode>) -> (r: String)
    requires
        b@.len() <= 0xFFFF_FFFF,
    ensures
        b@.len() == 0 ==> r@ == local@,
        b@.len() > 0 ==> exists|i: int| #[trigger]
            elected(discovery::boards(b@), i) && r@ == discovery::boards(b@)[i].sender_id,
{
    if b.len() == 0 {
        return local.to_owned();
    }
    let ghost bs = discovery::boards(b@);
    let mut best: usize = 0;
    let mut least: u64 = total_hops_of(b, 0);
    let mut i: usize = 1;
    proof {
        lemma_precedes_self(bs, 0);
    }
    while i < b.len()
        invariant
            1 <= i <= b@.len() <= 0xFFFF_FFFF,
            best < i,
            bs == discovery::boards(b@),
            least == total_hops(bs, best as int),
            forall|j: int| 0 <= j < i ==> !(#[trigger] precedes(bs, j, best as int)),
            forall|j: int| 0 <= j < best ==> #[trigger] precedes(bs, best as int, j),
        decreases b@.len() - i,
    {
        let t: u64 = total_hops_of(b, i);
        let better: bool = t < least || (t == least && codec::less_bytes(
            b[i].sender_id.as_str().as_bytes(),
            b[best].sender_id.as_str().as_bytes(),
        ));
        assert(better == precedes(bs, i as int, best as int));
        if better {
            proof {
                assert forall|j: int| 0 <= j < i implies #[trigger] precedes(bs, i as int, j) by {
                    lemma_precedes_through(bs, i as int, best as int, j);
                }
                assert forall|j: int| 0 <= j < i + 1 implies !(#[trigger] precedes(
                    bs,
                    j,
                    i as int,
                )) by {
                    lemma_precedes_asymmetric(bs, i as int, j);
                }
            }
            best = i;
            least = t;
        }
        i = i + 1;
    }
    assert(elected(bs, best as int));
    b[best].sender_id.clone()
}

proof fn lemma_precedes_self(b: Seq<BoardSpec>, i: int)
    ensures
        !precedes(b, i, i),
{
    let n = vstd::utf8::encode_utf8(b[i].sender_id);
    codec::lemma_lex_trichotomy(n, n);
}

proof fn lemma_precedes_asymmetric(b: Seq<BoardSpec>, i: int, j: int)
    ensures
        precedes(b, i, j) ==> !precedes(b, j, i),
        i == j ==> !precedes(b, i, j),
{
    codec::lemma_lex_trichotomy(
        vstd::utf8::encode_utf8(b[i].sender_id),
        vstd::utf8::encode_utf8(b[j].sender_id),
    );
}

proof fn lemma_precedes_through(b: Seq<BoardSpec>, i: int, k: int, j: int)
    requires
        precedes(b, i, k),
        !precedes(b, j, k),
    ensures
        precedes(b, i, j),
{
    let ni = vstd::utf8::encode_utf8(b[i].sender_id);
    let nj = vstd::utf8::encode_utf8(b[j].sender_id);
    let nk = vstd::utf8::encode_utf8(b[k].sender_id);
    codec::lemma_lex_trichotomy(nj, nk);
    codec::lemma_lex_trichotomy(ni, nj);
    if codec::lex_less(ni, nk) && codec::lex_less(nk, nj) {
        codec::lemma_lex_transitive(ni, nk, nj);
    }
}

/// The links that boards tell of: from each board to each of its neighbours.
pub open spec fn board_links(b: BoardSpec) -> Seq<(Seq<char>, Seq<char>)> {
    b.connections.map_values(|c: Seq<char>| (b.sender_id, c))
}

/// The links that boards tell of.
pub open spec fn links(b: Seq<BoardSpec>) -> Seq<(Seq<char>, Seq<char>)>
    decreases b.len(),
{
    if b.len() == 0 {
        Seq::empty()
    } else {
        links(b.drop_last()) + board_links(b.last())
    }
}

pub open spec fn pairs(v: Seq<(String, String)>) -> Seq<(Seq<char>, Seq<char>)> {
    v.map_values(|x: (String, String)| (x.0@, x.1@))
}

/// The links that boards tell of.
pub fn links_of(b: &Vec<TopologyBoardNode>) -> (v: Vec<(String, String)>)
    ensures
        pairs(v@) == links(discovery::boards(b@)),
{
    let ghost all = discovery::boards(b@);
    let mut v: Vec<(String, String)> = Vec::new();
    let mut i: usize = 0;
    assert(all.take(0) =~= Seq::<BoardSpec>::empty());
    assert(pairs(v@) =~= Seq::<(Seq<char>, Seq<char>)>::empty());
    while i < b.len()
        invariant
            i <= b@.len() == all.len(),
            all == discovery::boards(b@),
            pairs(v@) == links(all.take(i as int)),
        decreases b@.len() - i,
    {
        let x: &TopologyBoardNode = &b[i];
        let ghost front = pairs(v@);
        let ghost more = board_links(x@);
        let mut k: usize = 0;
        assert(front + more.take(0) =~= front);
        while k < x.connections.len()
            invariant
                k <= x.connections@.len() == more.len(),
                more == board_links(x@),
                pairs(v@) == front + more.take(k as int),
            decreases x.connections@.len() - k,
        {
            let ghost before = v@;
            let from: String = x.sender_id.clone();
            let to: String = x.connections[k].clone();
            let ghost pair = (from@, to@);
            v.push((from, to));
            proof {
                assert(x@.connections[k as int] == x.connections@[k as int]@);
                assert(more[k as int] == pair);
                assert(pairs(v@) =~= pairs(before).push(pair));
                assert(front + more.take(k + 1) =~= (front + more.take(k as int)).push(pair));
            }
            k = k + 1;
        }
        proof {
            assert(more.take(k as int) =~= more);
            assert(all.take(i + 1).drop_last() =~= all.take(i as int));
            assert(all.take(i + 1).last() == x@);
        }
        i = i + 1;
    }
    assert(all.take(i as int) =~= all);
    v
}

} // verus!
