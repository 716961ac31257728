//! The line structure of a byte buffer.
use vstd::prelude::*;

verus! {

pub const NEWLINE: u8 = 10;

/// One byte more of input: a terminator opens a new, empty line; any other byte
/// extends the last line.
pub open spec fn step_lines(ls: Seq<Seq<u8>>, x: u8) -> Seq<Seq<u8>> {
    if x == NEWLINE {
        ls.push(Seq::empty())
    } else {
        ls.update(ls.len() - 1, ls.last().push(x))
    }
}

/// The lines of `s`: the pieces between terminators. The text after the last
/// terminator is a line too, empty when `s` ends with a terminator.
pub open spec fn lines(s: Seq<u8>) -> Seq<Seq<u8>>
    decreases s.len(),
{
    if s.len() == 0 {
        seq![Seq::empty()]
    } else {
        step_lines(lines(s.drop_last()), s.last())
    }
}

pub proof fn lemma_lines_nonempty(s: Seq<u8>)
    ensures
        lines(s).len() >= 1,
    decreases s.len(),
{
    if s.len() > 0 {
        lemma_lines_nonempty(s.drop_last());
    }
}

/// Where no terminator stands in `s[lo..hi]`, the last line of `s[..hi]` is the last
/// line of `s[..lo]` followed by those bytes.
pub proof fn lemma_lines_extend(s: Seq<u8>, lo: int, hi: int)
    requires
        0 <= lo <= hi <= s.len(),
        forall|j: int| lo <= j < hi ==> s[j] != NEWLINE,
    ensures
        lines(s.subrange(0, hi)).len() == lines(s.subrange(0, lo)).len(),
        lines(s.subrange(0, hi)).drop_last() == lines(s.subrange(0, lo)).drop_last(),
        lines(s.subrange(0, hi)).last() == lines(s.subrange(0, lo)).last() + s.subrange(lo, hi),
    decreases hi - lo,
{
    lemma_lines_nonempty(s.subrange(0, lo));
    if hi == lo {
        assert(lines(s.subrange(0, lo)).last() + s.subrange(lo, hi) =~= lines(s.subrange(0, lo)).last());
    } else {
        lemma_lines_extend(s, lo, hi - 1);
        assert(s.subrange(0, hi).drop_last() =~= s.subrange(0, hi - 1));
        let prev = lines(s.subrange(0, hi - 1));
        assert(lines(s.subrange(0, hi)) == step_lines(prev, s[hi - 1]));
        assert(lines(s.subrange(0, hi)).drop_last() =~= prev.drop_last());
        assert(lines(s.subrange(0, lo)).last() + s.subrange(lo, hi) =~= (lines(s.subrange(0, lo)).last()
            + s.subrange(lo, hi - 1)).push(s[hi - 1]));
    }
}

proof fn lemma_step_append(p: Seq<Seq<u8>>, q: Seq<Seq<u8>>, x: u8)
    requires
        q.len() >= 1,
    ensures
        step_lines(p + q, x) == p + step_lines(q, x),
{
    assert(step_lines(p + q, x) =~= p + step_lines(q, x));
}

/// Two pieces joined by one terminator have the lines of the first piece followed
/// by those of the second.
pub proof fn lemma_lines_join(a: Seq<u8>, b: Seq<u8>)
    ensures
        lines(a.push(NEWLINE) + b) == lines(a) + lines(b),
    decreases b.len(),
{
    let a1 = a.push(NEWLINE);
    if b.len() == 0 {
        assert(a1 + b =~= a1);
        assert(a1.drop_last() =~= a);
        assert(lines(a1) =~= lines(a) + lines(b));
    } else {
        let w = b.drop_last();
        lemma_lines_join(a, w);
        assert((a1 + b).drop_last() =~= a1 + w);
        assert((a1 + b).last() == b.last());
        lemma_lines_nonempty(w);
        lemma_step_append(lines(a), lines(w), b.last());
    }
}

pub proof fn lemma_lines_len(s: Seq<u8>)
    ensures
        lines(s).len() <= s.len() + 1,
    decreases s.len(),
{
    if s.len() > 0 {
        lemma_lines_len(s.drop_last());
        lemma_lines_nonempty(s.drop_last());
        assert(lines(s) == step_lines(lines(s.drop_last()), s.last()));
    }
}

} // verus!
