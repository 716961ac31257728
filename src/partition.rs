//! Division of a buffer into contiguous, line-aligned byte ranges.
use vstd::prelude::*;
use crate::lines::{lines, lemma_lines_join, NEWLINE};

verus! {

/// The byte range `[start, end)` of the buffer.
#[derive(Clone, Copy, Debug, PartialEq, Eq, Structural)]
pub struct PartitionRange {
    pub start: usize,
    pub end: usize,
}

pub open spec fn chunk(buf: Seq<u8>, r: PartitionRange) -> Seq<u8> {
    buf.subrange(r.start as int, r.end as int)
}

/// The ranges cover the buffer in order, each non-empty, each but the last ending
/// at a terminator that the next one starts just after.
pub open spec fn tiles(buf: Seq<u8>, rs: Seq<PartitionRange>) -> bool {
    &&& buf.len() == 0 <==> rs.len() == 0
    &&& rs.len() > 0 ==> rs[0].start == 0 && rs.last().end == buf.len()
    &&& forall|i: int| 0 <= i < rs.len() ==> #[trigger] rs[i].start < rs[i].end <= buf.len()
    &&& forall|i: int| 0 <= i < rs.len() - 1 ==> buf[#[trigger] rs[i].end as int] == NEWLINE
    &&& forall|i: int| 0 <= i < rs.len() - 1 ==> #[trigger] rs[i + 1].start == rs[i].end + 1
}

/// The ranges' contents, with one terminator put back between neighbours.
pub open spec fn joined(buf: Seq<u8>, rs: Seq<PartitionRange>) -> Seq<u8>
    decreases rs.len(),
{
    if rs.len() == 0 {
        Seq::empty()
    } else if rs.len() == 1 {
        chunk(buf, rs[0])
    } else {
        joined(buf, rs.drop_last()).push(NEWLINE) + chunk(buf, rs.last())
    }
}

/// The lines of each range's contents, one range after the other.
pub open spec fn chunk_lines(buf: Seq<u8>, rs: Seq<PartitionRange>) -> Seq<Seq<u8>>
    decreases rs.len(),
{
    if rs.len() == 0 {
        Seq::empty()
    } else {
        chunk_lines(buf, rs.drop_last()) + lines(chunk(buf, rs.last()))
    }
}

pub proof fn lemma_tiles_prefix(buf: Seq<u8>, rs: Seq<PartitionRange>, j: int)
    requires
        tiles(buf, rs),
        1 <= j <= rs.len(),
    ensures
        joined(buf, rs.subrange(0, j)) == buf.subrange(0, rs[j - 1].end as int),
        chunk_lines(buf, rs.subrange(0, j)) == lines(buf.subrange(0, rs[j - 1].end as int)),
    decreases j,
{
    let p = rs.subrange(0, j);
    assert(p.last() == rs[j - 1]);
    if j == 1 {
        assert(p.drop_last() =~= Seq::<PartitionRange>::empty());
        assert(chunk_lines(buf, p.drop_last()) == Seq::<Seq<u8>>::empty());
        assert(rs[0].start == 0);
        assert(chunk_lines(buf, p) =~= lines(chunk(buf, rs[0])));
    } else {
        lemma_tiles_prefix(buf, rs, j - 1);
        assert(p.drop_last() =~= rs.subrange(0, j - 1));
        let a = buf.subrange(0, rs[j - 2].end as int);
        let b = chunk(buf, rs[j - 1]);
        let i = j - 2;
        assert(rs[i + 1].start == rs[i].end + 1);
        assert(buf[rs[j - 2].end as int] == NEWLINE);
        assert(a.push(NEWLINE) + b =~= buf.subrange(0, rs[j - 1].end as int));
        lemma_lines_join(a, b);
    }
}

/// Putting one terminator back between the contents of neighbouring ranges of a
/// tiling rebuilds the buffer exactly.
pub proof fn tiling_rebuilds_buffer(buf: Seq<u8>, rs: Seq<PartitionRange>)
    requires
        tiles(buf, rs),
    ensures
        joined(buf, rs) == buf,
{
    if rs.len() > 0 {
        lemma_tiles_prefix(buf, rs, rs.len() as int);
        assert(rs.subrange(0, rs.len() as int) =~= rs);
        assert(buf.subrange(0, buf.len() as int) =~= buf);
    }
}

/// The lines of the ranges of any tiling of a non-empty buffer, read range after
/// range, are the lines of the whole buffer: no line is split, lost or doubled.
pub proof fn tiling_keeps_lines(buf: Seq<u8>, rs: Seq<PartitionRange>)
    requires
        tiles(buf, rs),
        buf.len() > 0,
    ensures
        chunk_lines(buf, rs) == lines(buf),
{
    lemma_tiles_prefix(buf, rs, rs.len() as int);
    assert(rs.subrange(0, rs.len() as int) =~= rs);
    assert(buf.subrange(0, buf.len() as int) =~= buf);
}

/// The first terminator in `buf[from..limit]`, or `limit` if there is none.
pub fn next_line_end(buf: &[u8], from: usize, limit: usize) -> (r: usize)
    requires
        from <= limit <= buf.len(),
    ensures
        from <= r <= limit,
        r < limit ==> buf@[r as int] == NEWLINE,
        forall|j: int| from <= j < r ==> buf@[j] != NEWLINE,
{
    let mut i = from;
    while i < limit && buf[i] != NEWLINE
        invariant
            from <= i <= limit <= buf.len(),
            forall|j: int| from <= j < i ==> buf@[j] != NEWLINE,
        decreases limit - i,
    {
        i = i + 1;
    }
    i
}

/// Splits the buffer into at most `parts` line-aligned ranges. Each cut starts at
/// a multiple of `buf.len() / parts` and moves forward to the next terminator; a
/// cut with nothing after it is dropped, so fewer, larger ranges come out where
/// the buffer is short or has few lines.
pub fn plan(buf: &[u8], parts: usize) -> (r: Vec<PartitionRange>)
    requires
        parts >= 1,
    ensures
        tiles(buf@, r@),
        r.len() <= parts,
        parts == 1 && buf.len() > 0 ==> r.len() == 1,
        0 < buf.len() < parts ==> r.len() == 1,
{
    let n = buf.len();
    let mut out: Vec<PartitionRange> = Vec::new();
    if n == 0 {
        return out;
    }
    let base = n / parts;
    assert(n < parts ==> base == 0) by (nonlinear_arith)
        requires base == n / parts, parts >= 1, n >= 0;
    let mut start: usize = 0;
    let mut i: usize = 1;
    let mut done = false;
    while i < parts && base > 0 && !done
        invariant
            n == buf@.len(),
            base == n / parts,
            1 <= i <= parts,
            out.len() < i,
            base == 0 ==> out.len() == 0,
            start < n,
            out.len() == 0 ==> start == 0,
            out.len() > 0 ==> out@[0].start == 0 && start == out@.last().end + 1,
            forall|k: int| 0 <= k < out.len() ==> #[trigger] out@[k].start < out@[k].end < n,
            forall|k: int| 0 <= k < out.len() ==> buf@[#[trigger] out@[k].end as int] == NEWLINE,
            forall|k: int| 0 <= k < out.len() - 1 ==> #[trigger] out@[k + 1].start == out@[k].end + 1,
        decreases parts - i + (if done { 0int } else { 1int }),
    {
        assert(i * base <= n) by (nonlinear_arith)
            requires i < parts, base == n / parts, parts >= 1;
        let candidate = i * base;
        let from = if candidate > start { candidate } else { start + 1 };
        if from >= n {
            done = true;
        } else {
            let cut = next_line_end(buf, from, n);
            if cut >= n - 1 {
                done = true;
            } else {
                out.push(PartitionRange { start, end: cut });
                start = cut + 1;
                i = i + 1;
            }
        }
    }
    out.push(PartitionRange { start, end: n });
    out
}

} // verus!
