//! Run-length compression of payloads.
//!
//! A block is a control byte and its data: below 128 it is followed by that many literal bytes
//! and one more; from 128 on, by one byte that stands for `control - 125` copies of itself.
use vstd::prelude::*;

verus! {

/// Fewest copies that are worth a run block.
pub const MIN_RUN: usize = 3;

/// Most copies in one run block.
pub const MAX_RUN: usize = 130;

/// Most bytes in one literal block.
pub const MAX_LITERALS: usize = 128;

/// `n` copies of `b`.
pub open spec fn copies(b: u8, n: nat) -> Seq<u8> {
    Seq::new(n, |i: int| b)
}

/// What the blocks of `s` stand for, if `s` is a sequence of whole blocks.
pub open spec fn expand(s: Seq<u8>) -> Option<Seq<u8>>
    decreases s.len(),
{
    if s.len() == 0 {
        Some(Seq::<u8>::empty())
    } else if s[0] < 128 {
        let n = s[0] + 1;
        if s.len() < 1 + n {
            None
        } else {
            match expand(s.skip(1 + n)) {
                Some(tail) => Some(s.subrange(1, 1 + n) + tail),
                None => None,
            }
        }
    } else if s.len() < 2 {
        None
    } else {
        match expand(s.skip(2)) {
            Some(tail) => Some(copies(s[1], (s[0] - 125) as nat) + tail),
            None => None,
        }
    }
}

/// How many bytes at the front of `s` equal `b`, counted up to `max`.
pub open spec fn run_of(s: Seq<u8>, b: u8, max: nat) -> nat
    decreases max,
{
    if max == 0 || s.len() == 0 || s[0] != b {
        0
    } else {
        1 + run_of(s.skip(1), b, (max - 1) as nat)
    }
}

/// The block of the literal bytes `lits`; nothing for no bytes.
pub open spec fn literal_block(lits: Seq<u8>) -> Seq<u8> {
    if lits.len() == 0 {
        lits
    } else {
        seq![(lits.len() - 1) as u8] + lits
    }
}

/// The blocks of `s` behind the literal bytes `lits` that wait for their block: a run block for
/// each run that is worth one, literal blocks for what stands between.
pub open spec fn blocks(lits: Seq<u8>, s: Seq<u8>) -> Seq<u8>
    decreases s.len(),
{
    if s.len() == 0 {
        literal_block(lits)
    } else {
        let n = run_of(s, s[0], MAX_RUN as nat);
        proof {
            lemma_run_of(s, s[0], MAX_RUN as nat);
        }
        if n >= MIN_RUN {
            literal_block(lits) + seq![(n + 125) as u8, s[0]] + blocks(
                Seq::<u8>::empty(),
                s.skip(n as int),
            )
        } else if lits.len() == MAX_LITERALS {
            literal_block(lits) + blocks(seq![s[0]], s.skip(1))
        } else {
            blocks(lits.push(s[0]), s.skip(1))
        }
    }
}

/// `s` compressed.
pub open spec fn compressed(s: Seq<u8>) -> Seq<u8> {
    blocks(Seq::<u8>::empty(), s)
}

/// A run is no longer than it may be and holds one byte only.
pub proof fn lemma_run_of(s: Seq<u8>, b: u8, max: nat)
    ensures
        run_of(s, b, max) <= max,
        run_of(s, b, max) <= s.len(),
        forall|i: int| 0 <= i < run_of(s, b, max) ==> #[trigger] s[i] == b,
    decreases max,
{
    if max > 0 && s.len() > 0 && s[0] == b {
        lemma_run_of(s.skip(1), b, (max - 1) as nat);
        assert forall|i: int| 0 <= i < run_of(s, b, max) implies #[trigger] s[i] == b by {
            if i > 0 {
                assert(s.skip(1)[i - 1] == b);
            }
        }
    }
}

proof fn lemma_expand_concat(a: Seq<u8>, b: Seq<u8>)
    requires
        expand(a) is Some,
    ensures
        expand(a + b) == (match expand(b) {
            Some(t) => Some(expand(a)->Some_0 + t),
            None => None::<Seq<u8>>,
        }),
    decreases a.len(),
{
    if a.len() == 0 {
        assert(a + b =~= b);
        if let Some(t) = expand(b) {
            assert(Seq::<u8>::empty() + t =~= t);
        }
    } else if a[0] < 128 {
        let n = a[0] + 1;
        assert((a + b).skip(1 + n) =~= a.skip(1 + n) + b);
        assert((a + b).subrange(1, 1 + n) =~= a.subrange(1, 1 + n));
        lemma_expand_concat(a.skip(1 + n), b);
        if let Some(t) = expand(b) {
            let u = expand(a.skip(1 + n))->Some_0;
            assert(a.subrange(1, 1 + n) + (u + t) =~= a.subrange(1, 1 + n) + u + t);
        }
    } else {
        assert((a + b).skip(2) =~= a.skip(2) + b);
        lemma_expand_concat(a.skip(2), b);
        if let Some(t) = expand(b) {
            let u = expand(a.skip(2))->Some_0;
            let c = copies(a[1], (a[0] - 125) as nat);
            assert(c + (u + t) =~= c + u + t);
        }
    }
}

proof fn lemma_literal_block(lits: Seq<u8>)
    requires
        lits.len() <= MAX_LITERALS,
    ensures
        expand(literal_block(lits)) == Some(lits),
{
    let none = Seq::<u8>::empty();
    if lits.len() > 0 {
        let block = literal_block(lits);
        assert(block.skip(1 + lits.len() as int) =~= none);
        assert(expand(none) == Some(none));
        assert(block.subrange(1, 1 + lits.len() as int) + none =~= lits);
    }
}

proof fn lemma_blocks_expand(lits: Seq<u8>, s: Seq<u8>)
    requires
        lits.len() <= MAX_LITERALS,
    ensures
        expand(blocks(lits, s)) == Some(lits + s),
    decreases s.len(),
{
    let none = Seq::<u8>::empty();
    lemma_literal_block(lits);
    if s.len() == 0 {
        assert(lits + s =~= lits);
    } else {
        let n = run_of(s, s[0], MAX_RUN as nat);
        lemma_run_of(s, s[0], MAX_RUN as nat);
        if n >= MIN_RUN {
            let run = seq![(n + 125) as u8, s[0]];
            let tail = blocks(none, s.skip(n as int));
            lemma_blocks_expand(none, s.skip(n as int));
            assert((run + tail).skip(2) =~= tail);
            assert(copies(s[0], n) + (none + s.skip(n as int)) =~= s);
            assert(expand(run + tail) == Some(s));
            lemma_expand_concat(literal_block(lits), run + tail);
            assert(literal_block(lits) + run + tail =~= literal_block(lits) + (run + tail));
        } else if lits.len() == MAX_LITERALS {
            let tail = blocks(seq![s[0]], s.skip(1));
            lemma_blocks_expand(seq![s[0]], s.skip(1));
            assert(seq![s[0]] + s.skip(1) =~= s);
            lemma_expand_concat(literal_block(lits), tail);
        } else {
            lemma_blocks_expand(lits.push(s[0]), s.skip(1));
            assert(lits.push(s[0]) + s.skip(1) =~= lits + s);
        }
    }
}

/// Expanding what was compressed gives it back.
pub proof fn lemma_compressed_expands(s: Seq<u8>)
    ensures
        expand(compressed(s)) == Some(s),
{
    lemma_blocks_expand(Seq::<u8>::empty(), s);
    assert(Seq::<u8>::empty() + s =~= s);
}

fn run_length(src: &[u8], pos: usize) -> (n: usize)
    requires
        pos < src@.len(),
    ensures
        n == run_of(src@.skip(pos as int), src@[pos as int], MAX_RUN as nat),
        n <= MAX_RUN,
        pos + n <= src@.len(),
{
    let b: u8 = src[pos];
    let mut n: usize = 0;
    assert(src@.skip(pos + 0) =~= src@.skip(pos as int));
    while n < MAX_RUN && n < src.len() - pos && src[pos + n] == b
        invariant
            n <= MAX_RUN,
            pos + n <= src@.len() <= usize::MAX,
            n + run_of(src@.skip(pos + n), b, (MAX_RUN - n) as nat) == run_of(
                src@.skip(pos as int),
                b,
                MAX_RUN as nat,
            ),
        decreases MAX_RUN - n,
    {
        assert(src@.skip(pos + n).skip(1) =~= src@.skip(pos + n + 1));
        n = n + 1;
    }
    n
}

fn push_literals(out: &mut Vec<u8>, src: &[u8], from: usize, to: usize)
    requires
        from <= to <= src@.len(),
        to - from <= MAX_LITERALS,
    ensures
        final(out)@ == old(out)@ + literal_block(src@.subrange(from as int, to as int)),
{
    if from == to {
        assert(out@ + literal_block(src@.subrange(from as int, to as int)) =~= out@);
        return;
    }
    let ghost before = out@;
    let n: usize = to - from;
    out.push((n - 1) as u8);
    let mut i: usize = from;
    while i < to
        invariant
            from <= i <= to <= src@.len(),
            out@ == before + (seq![(n - 1) as u8] + src@.subrange(from as int, i as int)),
        decreases to - i,
    {
        out.push(src[i]);
        i = i + 1;
    }
}

/// Compresses `src`.
pub fn compress(src: &[u8]) -> (out: Vec<u8>)
    ensures
        out@ == compressed(src@),
        expand(out@) == Some(src@),
{
    let mut out: Vec<u8> = Vec::new();
    let mut lit: usize = 0;
    let mut pos: usize = 0;
    proof {
        lemma_compressed_expands(src@);
        assert(src@.subrange(0, 0) =~= Seq::<u8>::empty());
        assert(src@.skip(0) =~= src@);
        assert(out@ + compressed(src@) =~= compressed(src@));
    }
    while pos < src.len()
        invariant
            lit <= pos <= src@.len(),
            pos - lit <= MAX_LITERALS,
            out@ + blocks(src@.subrange(lit as int, pos as int), src@.skip(pos as int))
                == compressed(src@),
        decreases src@.len() - pos,
    {
        let n: usize = run_length(src, pos);
        let ghost before = out@;
        let ghost lits = src@.subrange(lit as int, pos as int);
        let ghost here = src@.skip(pos as int);
        let b: u8 = src[pos];
        if n >= MIN_RUN {
            push_literals(&mut out, src, lit, pos);
            out.push((n + 125) as u8);
            out.push(b);
            proof {
                assert(here.skip(n as int) =~= src@.skip(pos + n));
                let tail = blocks(Seq::<u8>::empty(), src@.skip(pos + n));
                assert(src@.subrange(pos + n, pos + n) =~= Seq::<u8>::empty());
                assert(out@ + tail =~= before + (literal_block(lits) + seq![(n + 125) as u8, b]
                    + tail));
            }
            pos = pos + n;
            lit = pos;
        } else {
            assert(here.skip(1) =~= src@.skip(pos + 1));
            if pos - lit == MAX_LITERALS {
                push_literals(&mut out, src, lit, pos);
                proof {
                    let tail = blocks(seq![b], src@.skip(pos + 1));
                    assert(src@.subrange(pos as int, pos + 1) =~= seq![b]);
                    assert(out@ + tail =~= before + (literal_block(lits) + tail));
                }
                lit = pos;
            } else {
                assert(src@.subrange(lit as int, pos + 1) =~= lits.push(b));
            }
            pos = pos + 1;
        }
    }
    push_literals(&mut out, src, lit, pos);
    out
}

/// Undoes `compress`; `None` where `src` is no sequence of whole blocks or stands for more than
/// `limit` bytes.
pub fn decompress(src: &[u8], limit: usize) -> (r: Option<Vec<u8>>)
    ensures
        match expand(src@) {
            Some(t) => if t.len() <= limit {
                r matches Some(v) && v@ == t
            } else {
                r is None
            },
            None => r is None,
        },
{
    let mut out: Vec<u8> = Vec::new();
    let mut pos: usize = 0;
    assert(src@.skip(0) =~= src@);
    while pos < src.len()
        invariant
            pos <= src@.len(),
            out@.len() <= limit,
            expand(src@) == (match expand(src@.skip(pos as int)) {
                Some(t) => Some(out@ + t),
                None => None::<Seq<u8>>,
            }),
        decreases src@.len() - pos,
    {
        let ghost here = src@.skip(pos as int);
        let ghost done = out@;
        let c: u8 = src[pos];
        if c < 128 {
            let n: usize = c as usize + 1;
            if src.len() - pos < 1 + n {
                return None;
            }
            assert(here.skip(1 + n) =~= src@.skip(pos + 1 + n));
            if limit - out.len() < n {
                return None;
            }
            let mut i: usize = 0;
            while i < n
                invariant
                    i <= n,
                    pos + 1 + n <= src@.len() <= usize::MAX,
                    out@ == done + src@.subrange(pos + 1, pos + 1 + i),
                decreases n - i,
            {
                out.push(src[pos + 1 + i]);
                i = i + 1;
            }
            proof {
                assert(here.subrange(1, 1 + n) =~= src@.subrange(pos + 1, pos + 1 + n));
                if let Some(t) = expand(here.skip(1 + n)) {
                    assert(done + (here.subrange(1, 1 + n) + t) =~= out@ + t);
                }
            }
            pos = pos + 1 + n;
        } else {
            if src.len() - pos < 2 {
                return None;
            }
            assert(here.skip(2) =~= src@.skip(pos + 2));
            let n: usize = c as usize - 125;
            let b: u8 = src[pos + 1];
            if limit - out.len() < n {
                return None;
            }
            let mut i: usize = 0;
            while i < n
                invariant
                    i <= n,
                    out@ == done + copies(b, i as nat),
                decreases n - i,
            {
                out.push(b);
                i = i + 1;
            }
            proof {
                if let Some(t) = expand(here.skip(2)) {
                    assert(done + (copies(b, n as nat) + t) =~= out@ + t);
                }
            }
            pos = pos + 2;
        }
    }
    proof {
        assert(src@.skip(pos as int) =~= Seq::<u8>::empty());
        assert(out@ + Seq::<u8>::empty() =~= out@);
    }
    Some(out)
}

} // verus!
