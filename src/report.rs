//! The textual report: `{key=min/mean/max, ...}`, keys in ascending byte order,
//! each number in tenths rounded half away from zero.
use vstd::prelude::*;
use rayon::slice::ParallelSliceMut;
use crate::aggregate::{Aggregate, Summary, summary_of};
use crate::chunk::{describes, values_of};
use crate::table::{table_get, table_keys, KeyTable};

verus! {

pub const OPEN_BRACE: u8 = 123;
pub const CLOSE_BRACE: u8 = 125;
pub const EQUALS: u8 = 61;
pub const SLASH: u8 = 47;
pub const COMMA: u8 = 44;
pub const SPACE: u8 = 32;
pub const MINUS_SIGN: u8 = 45;
pub const POINT: u8 = 46;
pub const DIGIT_ZERO: u8 = 48;

/// Byte-wise lexicographic order, as `Ord` for byte vectors has it.
pub open spec fn lex_lt(a: Seq<u8>, b: Seq<u8>) -> bool
    decreases a.len(),
{
    if a.len() == 0 {
        b.len() > 0
    } else if b.len() == 0 {
        false
    } else if a[0] != b[0] {
        a[0] < b[0]
    } else {
        lex_lt(a.drop_first(), b.drop_first())
    }
}

/// `q` lists the set `s` in strictly ascending order.
pub open spec fn sorted_listing(q: Seq<Seq<u8>>, s: Set<Seq<u8>>) -> bool {
    &&& forall|i: int, j: int| 0 <= i < j < q.len() ==> lex_lt(#[trigger] q[i], #[trigger] q[j])
    &&& forall|i: int| 0 <= i < q.len() ==> s.contains(#[trigger] q[i])
    &&& forall|k: Seq<u8>| #[trigger] s.contains(k) ==> exists|i: int| 0 <= i < q.len() && q[i] == k
}

pub open spec fn sorted_keys(s: Set<Seq<u8>>) -> Seq<Seq<u8>> {
    choose|q: Seq<Seq<u8>>| sorted_listing(q, s)
}

/// `n / d` rounded to the nearest whole number, halves away from zero.
pub open spec fn round_half_away(n: int, d: int) -> int {
    if n >= 0 { (2 * n + d) / (2 * d) } else { -((2 * (-n) + d) / (2 * d)) }
}

pub open spec fn decimal_digits(n: nat) -> Seq<u8>
    decreases n,
{
    if n < 10 {
        seq![(DIGIT_ZERO + n) as u8]
    } else {
        decimal_digits(n / 10).push((DIGIT_ZERO + n % 10) as u8)
    }
}

pub open spec fn abs(t: int) -> nat {
    if t < 0 { (-t) as nat } else { t as nat }
}

/// A number of tenths written with one decimal digit: `-3.2` for `-32`.
pub open spec fn tenths_text(t: int) -> Seq<u8> {
    let sign = if t < 0 { seq![MINUS_SIGN] } else { Seq::empty() };
    sign + decimal_digits(abs(t) / 10) + seq![POINT, (DIGIT_ZERO + abs(t) % 10) as u8]
}

/// One millionth-valued number written in tenths.
pub open spec fn value_text(v: int) -> Seq<u8> {
    tenths_text(round_half_away(v, 100_000))
}

pub open spec fn mean_text(s: Summary) -> Seq<u8> {
    tenths_text(round_half_away(s.sum, s.count as int * 100_000))
}

pub open spec fn entry_text(k: Seq<u8>, s: Summary) -> Seq<u8> {
    k + seq![EQUALS] + value_text(s.min) + seq![SLASH] + mean_text(s) + seq![SLASH] + value_text(s.max)
}

/// The entries of the keys `ks` with a non-zero count, joined by `", "`.
pub open spec fn entries_text(ks: Seq<Seq<u8>>, m: Map<Seq<u8>, Summary>) -> Seq<u8>
    decreases ks.len(),
{
    if ks.len() == 0 {
        Seq::empty()
    } else {
        let prev = entries_text(ks.drop_last(), m);
        let k = ks.last();
        if m[k].count == 0 {
            prev
        } else if prev.len() == 0 {
            entry_text(k, m[k])
        } else {
            prev + seq![COMMA, SPACE] + entry_text(k, m[k])
        }
    }
}

/// The report of a table of summaries.
pub open spec fn report_text(m: Map<Seq<u8>, Summary>) -> Seq<u8> {
    seq![OPEN_BRACE] + entries_text(sorted_keys(m.dom()), m) + seq![CLOSE_BRACE]
}

pub open spec fn summaries(m: Map<Seq<u8>, Aggregate>) -> Map<Seq<u8>, Summary> {
    m.map_values(|a: Aggregate| a@)
}

/// The summaries of the keys of some lines.
pub open spec fn line_summaries(ls: Seq<Seq<u8>>) -> Map<Seq<u8>, Summary> {
    Map::new(|k: Seq<u8>| values_of(ls, k).len() > 0, |k: Seq<u8>| summary_of(values_of(ls, k)))
}

pub proof fn lemma_describes_summaries(m: Map<Seq<u8>, Aggregate>, ls: Seq<Seq<u8>>)
    requires
        describes(m, ls),
    ensures
        summaries(m) == line_summaries(ls),
{
    assert(summaries(m) =~= line_summaries(ls));
}

proof fn lemma_lex_irrefl(a: Seq<u8>)
    ensures
        !lex_lt(a, a),
    decreases a.len(),
{
    if a.len() > 0 {
        lemma_lex_irrefl(a.drop_first());
    }
}

proof fn lemma_lex_asym(a: Seq<u8>, b: Seq<u8>)
    ensures
        !(lex_lt(a, b) && lex_lt(b, a)),
    decreases a.len(),
{
    if a.len() > 0 && b.len() > 0 && a[0] == b[0] {
        lemma_lex_asym(a.drop_first(), b.drop_first());
    }
}

proof fn lemma_lex_total(a: Seq<u8>, b: Seq<u8>)
    ensures
        a != b ==> lex_lt(a, b) || lex_lt(b, a),
    decreases a.len(),
{
    if a.len() > 0 && b.len() > 0 && a[0] == b[0] {
        lemma_lex_total(a.drop_first(), b.drop_first());
        if a.drop_first() == b.drop_first() {
            assert forall|i: int| 0 <= i < a.len() implies a[i] == b[i] by {
                if i > 0 {
                    assert(a[i] == a.drop_first()[i - 1]);
                    assert(b[i] == b.drop_first()[i - 1]);
                }
            }
            assert(a =~= b);
        }
    }
    if a.len() == 0 && b.len() == 0 {
        assert(a =~= b);
    }
}

/// A set has one strictly ascending listing only, so the order of a report's
/// entries depends on the keys alone: rendering one table twice gives the same text.
pub proof fn sorted_listing_unique(q1: Seq<Seq<u8>>, q2: Seq<Seq<u8>>, s: Set<Seq<u8>>)
    requires
        sorted_listing(q1, s),
        sorted_listing(q2, s),
    ensures
        q1 == q2,
    decreases q1.len(),
{
    if q1.len() == 0 {
        if q2.len() > 0 {
            assert(s.contains(q2[0]));
        }
        assert(q1 =~= q2);
    } else {
        assert(s.contains(q1[0]));
        let j = choose|j: int| 0 <= j < q2.len() && q2[j] == q1[0];
        assert(s.contains(q2[0]));
        let i = choose|i: int| 0 <= i < q1.len() && q1[i] == q2[0];
        if j > 0 {
            assert(lex_lt(q2[0], q2[j]));
            if i == 0 {
                lemma_lex_irrefl(q1[0]);
            } else {
                assert(lex_lt(q1[0], q1[i]));
                lemma_lex_asym(q1[0], q1[i]);
            }
        }
        let h = q1[0];
        let s2 = s.remove(h);
        let t1 = q1.drop_first();
        let t2 = q2.drop_first();
        assert forall|x: int| 0 <= x < t1.len() implies s2.contains(#[trigger] t1[x]) by {
            assert(lex_lt(q1[0], q1[x + 1]));
            lemma_lex_irrefl(h);
        }
        assert forall|x: int| 0 <= x < t2.len() implies s2.contains(#[trigger] t2[x]) by {
            assert(lex_lt(q2[0], q2[x + 1]));
            lemma_lex_irrefl(h);
        }
        assert forall|k: Seq<u8>| #[trigger] s2.contains(k) implies exists|x: int| 0 <= x < t1.len() && t1[x] == k by {
            let x = choose|x: int| 0 <= x < q1.len() && q1[x] == k;
            assert(t1[x - 1] == k);
        }
        assert forall|k: Seq<u8>| #[trigger] s2.contains(k) implies exists|x: int| 0 <= x < t2.len() && t2[x] == k by {
            let x = choose|x: int| 0 <= x < q2.len() && q2[x] == k;
            assert(t2[x - 1] == k);
        }
        assert forall|x: int, y: int| 0 <= x < y < t1.len() implies lex_lt(#[trigger] t1[x], #[trigger] t1[y]) by {
            assert(lex_lt(q1[x + 1], q1[y + 1]));
        }
        assert forall|x: int, y: int| 0 <= x < y < t2.len() implies lex_lt(#[trigger] t2[x], #[trigger] t2[y]) by {
            assert(lex_lt(q2[x + 1], q2[y + 1]));
        }
        sorted_listing_unique(t1, t2, s2);
        assert(q2[0] == q1[0]);
        assert forall|x: int| 0 <= x < q1.len() implies q1[x] == q2[x] by {
            if x > 0 {
                assert(q1[x] == t1[x - 1]);
                assert(q2[x] == t2[x - 1]);
            }
        }
        assert(q1 =~= q2);
    }
}

/// Relies on rayon's `par_sort_unstable`, which sorts byte vectors by their `Ord`
/// (lexicographic over the bytes): the same elements come back, ascending.
#[verifier::external_body]
fn sort_keys(keys: &mut Vec<Vec<u8>>)
    ensures
        final(keys)@.len() == old(keys)@.len(),
        forall|i: int| 0 <= i < final(keys)@.len() ==> exists|j: int| 0 <= j < old(keys)@.len() && #[trigger] final(keys)@[i]@ == old(keys)@[j]@,
        forall|j: int| 0 <= j < old(keys)@.len() ==> exists|i: int| 0 <= i < final(keys)@.len() && final(keys)@[i]@ == #[trigger] old(keys)@[j]@,
        (forall|i: int, j: int| 0 <= i < j < old(keys)@.len() ==> old(keys)@[i]@ != old(keys)@[j]@) ==> (forall|i: int, j: int| 0 <= i < j < final(keys)@.len() ==> final(keys)@[i]@ != final(keys)@[j]@),
        forall|i: int, j: int| 0 <= i < j < final(keys)@.len() ==> !lex_lt(#[trigger] final(keys)@[j]@, #[trigger] final(keys)@[i]@),
{
    keys.par_sort_unstable();
}

fn write_digits(out: &mut Vec<u8>, n: u128)
    ensures
        final(out)@ == old(out)@ + decimal_digits(n as nat),
    decreases n,
{
    if n >= 10 {
        write_digits(out, n / 10);
    }
    out.push(DIGIT_ZERO + (n % 10) as u8);
    proof {
        if n < 10 {
            assert(decimal_digits(n as nat) =~= seq![(DIGIT_ZERO + n) as u8]);
        }
    }
    assert(final(out)@ =~= old(out)@ + decimal_digits(n as nat)) by {
        if n >= 10 {
            assert(old(out)@ + decimal_digits(n as nat) =~= (old(out)@ + decimal_digits((n / 10) as nat)).push((DIGIT_ZERO + n % 10) as u8));
        }
    }
}

proof fn lemma_round(n: nat, d: nat)
    requires
        d > 0,
    ensures
        (2 * n + d) / (2 * d) == n / d + (if 2 * (n % d) >= d { 1int } else { 0int }),
{
    let q = n / d;
    let r = n % d;
    assert(n == q * d + r && 0 <= r < d) by (nonlinear_arith)
        requires d > 0, q == n / d, r == n % d;
    let x = 2 * r + d;
    assert(2 * n + d == q * (2 * d) + x) by (nonlinear_arith)
        requires n == q * d + r, x == 2 * r + d;
    let b: int = if 2 * r >= d { 1 } else { 0 };
    assert(x == b * (2 * d) + (x - b * (2 * d)) && 0 <= x - b * (2 * d) < 2 * d);
    assert((2 * n + d) / (2 * d) == q + b) by (nonlinear_arith)
        requires 2 * n + d == q * (2 * d) + b * (2 * d) + (x - b * (2 * d)), 0 <= x - b * (2 * d) < 2 * d, d > 0;
}

/// Writes `±mag / d` in tenths, rounded half away from zero.
fn write_rounded(out: &mut Vec<u8>, neg: bool, mag: u128, d: u128)
    requires
        d > 0,
        mag <= i128::MAX as u128 + 1,
    ensures
        final(out)@ == old(out)@ + tenths_text(round_half_away(if neg { -(mag as int) } else { mag as int }, d as int)),
{
    proof {
        lemma_round(mag as nat, d as nat);
    }
    let mut q = mag / d;
    let r = mag % d;
    assert(mag == 0 ==> q == 0 && r == 0) by (nonlinear_arith)
        requires q == mag / d, r == mag % d, d > 0;
    if r >= d - r {
        q = q + 1;
    }
    let ghost t = if neg && q > 0 { -(q as int) } else { q as int };
    assert((2 * (mag as int) + d as int) / (2 * (d as int)) == q as int);
    proof {
        let n: int = if neg { -(mag as int) } else { mag as int };
        if neg && mag > 0 {
            assert(n < 0);
            assert(-n == mag as int);
            assert(round_half_away(n, d as int) == -((2 * (mag as int) + d as int) / (2 * (d as int))));
            assert(round_half_away(n, d as int) == t);
        } else {
            assert(n == mag as int);
            if neg {
                assert(mag == 0);
                assert(q == 0);
            }
            assert(round_half_away(n, d as int) == (2 * n + d as int) / (2 * (d as int)));
            assert(round_half_away(n, d as int) == t);
        }
    }
    if neg && q > 0 {
        out.push(MINUS_SIGN);
    }
    let ghost signed = out@;
    write_digits(out, q / 10);
    out.push(POINT);
    out.push(DIGIT_ZERO + (q % 10) as u8);
    assert(abs(t) == q);
    assert(out@ =~= old(out)@ + tenths_text(t));
}

/// Writes `v` millionths in tenths.
fn write_value(out: &mut Vec<u8>, v: i64)
    ensures
        final(out)@ == old(out)@ + value_text(v as int),
{
    let neg = v < 0;
    let mag: u128 = if neg { ((-(v as i128)) as u128) } else { v as u128 };
    write_rounded(out, neg, mag, 100_000);
}

/// Writes the mean of the summary of `a`.
fn write_mean(out: &mut Vec<u8>, a: &Aggregate)
    requires
        a.count > 0,
    ensures
        final(out)@ == old(out)@ + mean_text(a@),
{
    let neg = a.sum < 0;
    let mag: u128 = if neg { ((-(a.sum + 1)) as u128) + 1 } else { a.sum as u128 };
    let d: u128 = a.count as u128 * 100_000;
    write_rounded(out, neg, mag, d);
}

fn write_bytes(out: &mut Vec<u8>, b: &[u8])
    ensures
        final(out)@ == old(out)@ + b@,
{
    let mut i: usize = 0;
    while i < b.len()
        invariant
            0 <= i <= b.len(),
            out@ == old(out)@ + b@.subrange(0, i as int),
        decreases b.len() - i,
    {
        out.push(b[i]);
        i = i + 1;
        assert(out@ =~= old(out)@ + b@.subrange(0, i as int));
    }
    assert(b@.subrange(0, b.len() as int) =~= b@);
}

proof fn lemma_keys_listing(keys: Seq<Vec<u8>>, t: Map<Seq<u8>, Aggregate>)
    requires
        forall|i: int| 0 <= i < keys.len() ==> t.contains_key(#[trigger] keys[i]@),
        forall|k: Seq<u8>| t.contains_key(k) ==> exists|i: int| 0 <= i < keys.len() && #[trigger] keys[i]@ == k,
        forall|i: int, j: int| 0 <= i < j < keys.len() ==> keys[i]@ != keys[j]@,
        forall|i: int, j: int| 0 <= i < j < keys.len() ==> !lex_lt(#[trigger] keys[j]@, #[trigger] keys[i]@),
    ensures
        keys.map_values(|v: Vec<u8>| v@) == sorted_keys(summaries(t).dom()),
{
    let kv = keys.map_values(|v: Vec<u8>| v@);
    let m = summaries(t);
    assert forall|i: int, j: int| 0 <= i < j < kv.len() implies lex_lt(#[trigger] kv[i], #[trigger] kv[j]) by {
        assert(!lex_lt(keys[j]@, keys[i]@));
        lemma_lex_total(keys[i]@, keys[j]@);
    }
    assert forall|i: int| 0 <= i < kv.len() implies m.dom().contains(#[trigger] kv[i]) by {
        assert(t.contains_key(keys[i]@));
    }
    assert forall|k: Seq<u8>| #[trigger] m.dom().contains(k) implies exists|i: int| 0 <= i < kv.len() && kv[i] == k by {
        let i = choose|i: int| 0 <= i < keys.len() && #[trigger] keys[i]@ == k;
        assert(kv[i] == k);
    }
    assert(sorted_listing(kv, m.dom()));
    sorted_listing_unique(kv, sorted_keys(m.dom()), m.dom());
}

fn write_entry(out: &mut Vec<u8>, key: &[u8], a: &Aggregate)
    requires
        a.count > 0,
    ensures
        final(out)@ == old(out)@ + entry_text(key@, a@),
{
    write_bytes(out, key);
    out.push(EQUALS);
    write_value(out, a.min);
    out.push(SLASH);
    write_mean(out, a);
    out.push(SLASH);
    write_value(out, a.max);
    assert(out@ =~= old(out)@ + entry_text(key@, a@));
}

/// Renders a table as `{key=min/mean/max, ...}`: keys in ascending byte order,
/// keys with a zero count left out, numbers in tenths rounded half away from zero.
#[verifier::rlimit(80)]
pub fn render(table: &KeyTable) -> (out: Vec<u8>)
    ensures
        out@ == report_text(summaries(table@)),
{
    let ghost m = summaries(table@);
    let mut keys = table_keys(table);
    sort_keys(&mut keys);
    let ghost kv = keys@.map_values(|v: Vec<u8>| v@);
    proof {
        lemma_keys_listing(keys@, table@);
    }
    let mut out: Vec<u8> = vec![OPEN_BRACE];
    let mut j: usize = 0;
    assert(kv.subrange(0, 0).len() == 0);
    while j < keys.len()
        invariant
            0 <= j <= keys.len() == kv.len(),
            kv == keys@.map_values(|v: Vec<u8>| v@),
            m == summaries(table@),
            forall|i: int| 0 <= i < kv.len() ==> m.dom().contains(#[trigger] kv[i]),
            out@ == seq![OPEN_BRACE] + entries_text(kv.subrange(0, j as int), m),
        decreases keys.len() - j,
    {
        let key = keys[j].as_slice();
        let ghost prev = entries_text(kv.subrange(0, j as int), m);
        assert(kv.subrange(0, j + 1).drop_last() =~= kv.subrange(0, j as int));
        assert(m.dom().contains(kv[j as int]));
        assert(kv[j as int] == key@);
        match table_get(table, key) {
            Some(a) => {
                assert(m[key@] == a@);
                if a.count > 0 {
                    if out.len() > 1 {
                        out.push(COMMA);
                        out.push(SPACE);
                    }
                    write_entry(&mut out, key, &a);
                    assert(out@ =~= seq![OPEN_BRACE] + entries_text(kv.subrange(0, j + 1), m));
                } else {
                    assert(out@ =~= seq![OPEN_BRACE] + entries_text(kv.subrange(0, j + 1), m));
                }
            },
            None => {},
        }
        j = j + 1;
    }
    out.push(CLOSE_BRACE);
    assert(kv.subrange(0, kv.len() as int) =~= kv);
    assert(out@ =~= report_text(m));
    out
}

} // verus!
