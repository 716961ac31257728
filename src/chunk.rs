//! Parsing one line-aligned chunk into a table of per-key aggregates.
use vstd::prelude::*;
use crate::aggregate::{Aggregate, summary_of, summary_is_exact};
use crate::lines::{lines, lemma_lines_extend, lemma_lines_nonempty, NEWLINE};
use crate::partition::next_line_end;
use crate::table::{KeyTable, table_new, table_get, table_insert};
use crate::value::{decimal_value, first_index, lemma_first_index, parse_value};

verus! {

pub const SEPARATOR: u8 = 59;

/// A value field that is not a well-formed decimal number.
#[derive(Clone, Copy, Debug, PartialEq, Eq, Structural)]
pub enum ParseError {
    InvalidValue,
}

/// ASCII whitespace, as `u8::is_ascii_whitespace` has it.
pub open spec fn is_space(b: u8) -> bool {
    b == 32 || b == 9 || b == 10 || b == 12 || b == 13
}

pub open spec fn trim_start(s: Seq<u8>) -> Seq<u8>
    decreases s.len(),
{
    if s.len() > 0 && is_space(s[0]) { trim_start(s.drop_first()) } else { s }
}

pub open spec fn trim_end(s: Seq<u8>) -> Seq<u8>
    decreases s.len(),
{
    if s.len() > 0 && is_space(s.last()) { trim_end(s.drop_last()) } else { s }
}

pub open spec fn has_separator(l: Seq<u8>) -> bool {
    first_index(l, SEPARATOR) < l.len()
}

/// The key of a line: what stands before its first separator, trimmed.
pub open spec fn line_key(l: Seq<u8>) -> Seq<u8> {
    trim_end(trim_start(l.subrange(0, first_index(l, SEPARATOR) as int)))
}

/// The value of a line, read from what follows its first separator.
pub open spec fn line_value(l: Seq<u8>) -> Option<int> {
    decimal_value(l.subrange(first_index(l, SEPARATOR) as int + 1, l.len() as int))
}

/// A line without separator is ignored; one with a separator needs a valid value.
pub open spec fn line_ok(l: Seq<u8>) -> bool {
    has_separator(l) ==> line_value(l).is_some()
}

pub open spec fn all_lines_ok(ls: Seq<Seq<u8>>) -> bool {
    forall|i: int| 0 <= i < ls.len() ==> line_ok(#[trigger] ls[i])
}

/// The values of key `k`, in the order of the lines.
pub open spec fn values_of(ls: Seq<Seq<u8>>, k: Seq<u8>) -> Seq<int>
    decreases ls.len(),
{
    if ls.len() == 0 {
        Seq::empty()
    } else {
        let l = ls.last();
        let rest = values_of(ls.drop_last(), k);
        if has_separator(l) && line_key(l) == k { rest.push(line_value(l).unwrap()) } else { rest }
    }
}

/// The table holds exactly the keys of the lines, each with the summary of its values.
pub open spec fn describes(m: Map<Seq<u8>, Aggregate>, ls: Seq<Seq<u8>>) -> bool {
    &&& forall|k: Seq<u8>| #[trigger] m.contains_key(k) <==> values_of(ls, k).len() > 0
    &&& forall|k: Seq<u8>| #[trigger] m.contains_key(k) ==> m[k]@ == summary_of(values_of(ls, k)) && m[k].wf()
}

/// What parsing `buf[lo..hi]` gives: success exactly when every value is valid,
/// and then a table of the chunk's lines.
pub open spec fn chunk_result(buf: Seq<u8>, lo: int, hi: int, r: Result<KeyTable, ParseError>) -> bool {
    let ls = lines(buf.subrange(lo, hi));
    &&& r.is_ok() == all_lines_ok(ls)
    &&& r matches Ok(t) ==> describes(t@, ls)
}

pub proof fn lemma_values_len(ls: Seq<Seq<u8>>, k: Seq<u8>)
    ensures
        values_of(ls, k).len() <= ls.len(),
    decreases ls.len(),
{
    if ls.len() > 0 {
        lemma_values_len(ls.drop_last(), k);
    }
}

proof fn lemma_trim_start(s: Seq<u8>, a: int)
    requires
        0 <= a <= s.len(),
        forall|j: int| 0 <= j < a ==> is_space(s[j]),
        a == s.len() || !is_space(s[a]),
    ensures
        trim_start(s) == s.subrange(a, s.len() as int),
    decreases a,
{
    if a == 0 {
        assert(s.subrange(0, s.len() as int) =~= s);
    } else {
        let r = s.drop_first();
        assert forall|j: int| 0 <= j < a - 1 implies is_space(r[j]) by {
            assert(r[j] == s[j + 1]);
        }
        if a < s.len() {
            assert(r[a - 1] == s[a]);
        }
        lemma_trim_start(r, a - 1);
        assert(r.subrange(a - 1, r.len() as int) =~= s.subrange(a, s.len() as int));
    }
}

proof fn lemma_trim_end(s: Seq<u8>, b: int)
    requires
        0 <= b <= s.len(),
        forall|j: int| b <= j < s.len() ==> is_space(s[j]),
        b == 0 || !is_space(s[b - 1]),
    ensures
        trim_end(s) == s.subrange(0, b),
    decreases s.len() - b,
{
    if b == s.len() {
        assert(s.subrange(0, b) =~= s);
    } else {
        let r = s.drop_last();
        lemma_trim_end(r, b);
        assert(r.subrange(0, b) =~= s.subrange(0, b));
    }
}

/// The bounds of `buf[lo..hi]` with surrounding whitespace removed.
fn trim_bounds(buf: &[u8], lo: usize, hi: usize) -> (r: (usize, usize))
    requires
        lo <= hi <= buf.len(),
    ensures
        lo <= r.0 <= r.1 <= hi,
        buf@.subrange(r.0 as int, r.1 as int) == trim_end(trim_start(buf@.subrange(lo as int, hi as int))),
{
    let mut a = lo;
    while a < hi && (buf[a] == 32 || buf[a] == 9 || buf[a] == 10 || buf[a] == 12 || buf[a] == 13)
        invariant
            lo <= a <= hi <= buf.len(),
            forall|j: int| lo <= j < a ==> is_space(buf@[j]),
        decreases hi - a,
    {
        a = a + 1;
    }
    let ghost s = buf@.subrange(lo as int, hi as int);
    proof {
        lemma_trim_start(s, a - lo);
    }
    let mut b = hi;
    while b > a && (buf[b - 1] == 32 || buf[b - 1] == 9 || buf[b - 1] == 10 || buf[b - 1] == 12 || buf[b - 1] == 13)
        invariant
            lo <= a <= b <= hi <= buf.len(),
            forall|j: int| b <= j < hi ==> is_space(buf@[j]),
        decreases b - a,
    {
        b = b - 1;
    }
    proof {
        let t = buf@.subrange(a as int, hi as int);
        assert(trim_start(s) =~= t);
        lemma_trim_end(t, b - a);
        assert(t.subrange(0, b - a) =~= buf@.subrange(a as int, b as int));
    }
    (a, b)
}

/// Folds the line `buf[lo..hi]` into the table that describes the lines `ls`.
fn fold_line(buf: &[u8], lo: usize, hi: usize, table: &mut KeyTable, Ghost(ls): Ghost<Seq<Seq<u8>>>) -> (ok: bool)
    requires
        lo <= hi <= buf.len(),
        describes(old(table)@, ls),
        ls.len() < u64::MAX,
    ensures
        ok == line_ok(buf@.subrange(lo as int, hi as int)),
        ok ==> describes(final(table)@, ls.push(buf@.subrange(lo as int, hi as int))),
        !ok ==> final(table)@ == old(table)@,
{
    let ghost l = buf@.subrange(lo as int, hi as int);
    let ghost nls = ls.push(l);
    assert(nls.drop_last() =~= ls);
    let sep = next_sep(buf, lo, hi);
    proof {
        lemma_first_index(l, SEPARATOR, sep - lo);
    }
    if sep == hi {
        assert forall|k: Seq<u8>| values_of(nls, k) == values_of(ls, k) by {}
        return true;
    }
    let (a, b) = trim_bounds(buf, lo, sep);
    assert(l.subrange(0, sep - lo) =~= buf@.subrange(lo as int, sep as int));
    assert(l.subrange(sep - lo + 1, l.len() as int) =~= buf@.subrange(sep + 1, hi as int));
    let v = match parse_value(&buf[sep + 1..hi]) {
        Some(v) => v,
        None => {
            return false;
        },
    };
    let key = &buf[a..b];
    let ghost k = key@;
    assert(line_key(l) == k);
    assert(line_value(l) == Some(v as int));
    proof {
        lemma_values_len(ls, k);
        summary_is_exact(values_of(ls, k));
    }
    let mut agg = match table_get(table, key) {
        Some(g) => g,
        None => Aggregate::new(),
    };
    agg.update(v);
    table_insert(table, key, agg);
    proof {
        assert(values_of(nls, k) == values_of(ls, k).push(v as int));
        assert(values_of(nls, k).drop_last() =~= values_of(ls, k));
        assert(values_of(nls, k).last() == v as int);
        assert(table@[k]@ == summary_of(values_of(nls, k)));
        assert forall|k2: Seq<u8>| k2 != k implies values_of(nls, k2) == values_of(ls, k2) by {}
        assert forall|k2: Seq<u8>| #[trigger] table@.contains_key(k2) <==> values_of(nls, k2).len() > 0 by {
            if k2 != k {
                assert(values_of(nls, k2) == values_of(ls, k2));
            }
        }
        assert forall|k2: Seq<u8>| #[trigger] table@.contains_key(k2) implies table@[k2]@ == summary_of(values_of(nls, k2)) && table@[k2].wf() by {
            if k2 != k {
                assert(values_of(nls, k2) == values_of(ls, k2));
            }
        }
    }
    true
}

/// The first separator in `buf[from..limit]`, or `limit`.
fn next_sep(buf: &[u8], from: usize, limit: usize) -> (r: usize)
    requires
        from <= limit <= buf.len(),
    ensures
        from <= r <= limit,
        r < limit ==> buf@[r as int] == SEPARATOR,
        forall|j: int| from <= j < r ==> buf@[j] != SEPARATOR,
{
    let mut i = from;
    while i < limit && buf[i] != SEPARATOR
        invariant
            from <= i <= limit <= buf.len(),
            forall|j: int| from <= j < i ==> buf@[j] != SEPARATOR,
        decreases limit - i,
    {
        i = i + 1;
    }
    i
}

proof fn lemma_lines_prefix(s: Seq<u8>, p: int)
    requires
        0 <= p <= s.len(),
    ensures
        lines(s).len() >= lines(s.subrange(0, p)).len(),
        forall|i: int| 0 <= i < lines(s.subrange(0, p)).len() - 1 ==> lines(s)[i] == #[trigger] lines(s.subrange(0, p))[i],
    decreases s.len() - p,
{
    lemma_lines_nonempty(s.subrange(0, p));
    if p == s.len() {
        assert(s.subrange(0, p) =~= s);
    } else {
        lemma_lines_prefix(s, p + 1);
        assert(s.subrange(0, p + 1).drop_last() =~= s.subrange(0, p));
        let l0 = lines(s.subrange(0, p));
        let l1 = lines(s.subrange(0, p + 1));
        assert(l1 == crate::lines::step_lines(l0, s[p]));
        assert forall|i: int| 0 <= i < l0.len() - 1 implies lines(s)[i] == #[trigger] l0[i] by {
            assert(l1[i] == l0[i]);
        }
    }
}

/// Parses the lines of `buf[lo..hi]` into a table of per-key aggregates; fails on
/// the first line whose value field is not a valid decimal number.
pub fn parse_chunk(buf: &[u8], lo: usize, hi: usize) -> (r: Result<KeyTable, ParseError>)
    requires
        lo <= hi <= buf.len(),
        buf.len() < usize::MAX,
    ensures
        chunk_result(buf@, lo as int, hi as int, r),
{
    let ghost c = buf@.subrange(lo as int, hi as int);
    let mut table = table_new();
    let ghost mut done: Seq<Seq<u8>> = Seq::empty();
    assert(lines(c.subrange(0, 0)) =~= done.push(Seq::empty()));
    let mut pos = lo;
    let mut finished = false;
    while !finished
        invariant
            lo <= pos <= hi <= buf.len() < usize::MAX,
            c == buf@.subrange(lo as int, hi as int),
            !finished ==> lines(c.subrange(0, pos - lo)) == done.push(Seq::empty()),
            finished ==> lines(c) == done,
            !finished ==> done.len() <= pos - lo,
            describes(table@, done),
            all_lines_ok(done),
        decreases hi - pos + (if finished { 0int } else { 1int }),
    {
        let e = next_line_end(buf, pos, hi);
        let ghost line = buf@.subrange(pos as int, e as int);
        proof {
            assert forall|j: int| pos - lo <= j < e - lo implies c[j] != NEWLINE by {
                assert(c[j] == buf@[lo + j]);
            }
            lemma_lines_extend(c, pos - lo, e - lo);
            assert(done.push(Seq::empty()).drop_last() =~= done);
            assert(Seq::<u8>::empty() + c.subrange(pos - lo, e - lo) =~= line);
            assert(lines(c.subrange(0, e - lo)) =~= done.push(line));
        }
        let ok = fold_line(buf, pos, e, &mut table, Ghost(done));
        if !ok {
            proof {
                if e == hi {
                    assert(c.subrange(0, e - lo) =~= c);
                    assert(lines(c)[done.len() as int] == line);
                } else {
                    assert(c.subrange(0, e + 1 - lo).drop_last() =~= c.subrange(0, e - lo));
                    assert(c[e - lo] == NEWLINE);
                    lemma_lines_prefix(c, e + 1 - lo);
                    assert(lines(c.subrange(0, e + 1 - lo)) == done.push(line).push(Seq::empty()));
                    assert(lines(c.subrange(0, e + 1 - lo))[done.len() as int] == line);
                    assert(lines(c)[done.len() as int] == line);
                }
            }
            return Err(ParseError::InvalidValue);
        }
        proof {
            assert forall|i: int| 0 <= i < done.len() + 1 implies line_ok(#[trigger] done.push(line)[i]) by {
                if i < done.len() {
                    assert(done.push(line)[i] == done[i]);
                }
            }
        }
        if e == hi {
            proof {
                assert(c.subrange(0, e - lo) =~= c);
                done = done.push(line);
            }
            finished = true;
        } else {
            proof {
                assert(c.subrange(0, e + 1 - lo).drop_last() =~= c.subrange(0, e - lo));
                assert(c[e - lo] == NEWLINE);
                done = done.push(line);
            }
            pos = e + 1;
        }
    }
    Ok(table)
}

} // verus!
