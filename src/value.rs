//! Decimal values: an optional sign, at most twelve integer digits and at most six
//! fraction digits, held exactly as a whole number of millionths.
use vstd::prelude::*;
use crate::aggregate::value_in_range;

verus! {

pub const ZERO: u8 = 48;
pub const NINE: u8 = 57;
pub const DOT: u8 = 46;
pub const MINUS: u8 = 45;
pub const PLUS: u8 = 43;

pub open spec fn is_digit(b: u8) -> bool {
    ZERO <= b <= NINE
}

pub open spec fn all_digits(s: Seq<u8>) -> bool {
    forall|i: int| 0 <= i < s.len() ==> is_digit(#[trigger] s[i])
}

/// The number that a run of decimal digits spells.
pub open spec fn digits_number(s: Seq<u8>) -> nat
    decreases s.len(),
{
    if s.len() == 0 {
        0
    } else {
        digits_number(s.drop_last()) * 10 + (s.last() - ZERO) as nat
    }
}

pub open spec fn pow10(n: nat) -> nat
    decreases n,
{
    if n == 0 { 1 } else { 10 * pow10((n - 1) as nat) }
}

/// The position of the first `b` in `s`, or `s.len()` if there is none.
pub open spec fn first_index(s: Seq<u8>, b: u8) -> nat
    decreases s.len(),
{
    if s.len() == 0 {
        0
    } else if s[0] == b {
        0
    } else {
        1 + first_index(s.drop_first(), b)
    }
}

pub open spec fn is_sign(b: u8) -> bool {
    b == MINUS || b == PLUS
}

pub open spec fn unsigned_part(t: Seq<u8>) -> Seq<u8> {
    if t.len() > 0 && is_sign(t[0]) { t.subrange(1, t.len() as int) } else { t }
}

pub open spec fn integer_digits(t: Seq<u8>) -> Seq<u8> {
    let body = unsigned_part(t);
    body.subrange(0, first_index(body, DOT) as int)
}

pub open spec fn fraction_digits(t: Seq<u8>) -> Seq<u8> {
    let body = unsigned_part(t);
    let d = first_index(body, DOT) as int;
    if d < body.len() { body.subrange(d + 1, body.len() as int) } else { Seq::empty() }
}

/// A value is well formed when both digit runs hold only digits, at least one
/// digit is present, and the runs fit the fixed-point format.
pub open spec fn decimal_ok(t: Seq<u8>) -> bool {
    let ip = integer_digits(t);
    let fp = fraction_digits(t);
    &&& all_digits(ip)
    &&& all_digits(fp)
    &&& ip.len() + fp.len() > 0
    &&& ip.len() <= 12
    &&& fp.len() <= 6
}

/// The magnitude in millionths: the integer digits followed by the fraction
/// digits padded with zeros to six places, read as one number.
pub open spec fn millionths(t: Seq<u8>) -> nat {
    let fp = fraction_digits(t);
    digits_number(integer_digits(t) + fp + Seq::new((6 - fp.len()) as nat, |i: int| ZERO))
}

/// The value that the text `t` denotes, in millionths.
pub open spec fn decimal_value(t: Seq<u8>) -> Option<int> {
    if decimal_ok(t) {
        if t.len() > 0 && t[0] == MINUS { Some(-millionths(t)) } else { Some(millionths(t) as int) }
    } else {
        None
    }
}

proof fn lemma_digits_number_bound(s: Seq<u8>)
    requires
        all_digits(s),
    ensures
        digits_number(s) < pow10(s.len()),
    decreases s.len(),
{
    if s.len() > 0 {
        let w = s.drop_last();
        assert(all_digits(w)) by {
            assert forall|i: int| 0 <= i < w.len() implies is_digit(#[trigger] w[i]) by {
                assert(w[i] == s[i]);
            }
        }
        lemma_digits_number_bound(w);
        assert(is_digit(s[s.len() - 1]));
    }
}

proof fn lemma_pow10_mono(a: nat, b: nat)
    requires
        a <= b,
    ensures
        pow10(a) <= pow10(b),
    decreases b,
{
    if a < b {
        lemma_pow10_mono(a, (b - 1) as nat);
    }
}

pub proof fn lemma_first_index(s: Seq<u8>, b: u8, k: int)
    requires
        0 <= k <= s.len(),
        forall|j: int| 0 <= j < k ==> s[j] != b,
    ensures
        first_index(s, b) >= k,
        first_index(s, b) <= s.len(),
        k == s.len() ==> first_index(s, b) == k,
        k < s.len() && s[k] == b ==> first_index(s, b) == k,
    decreases k,
{
    if k > 0 {
        let r = s.drop_first();
        assert forall|j: int| 0 <= j < k - 1 implies r[j] != b by {
            assert(r[j] == s[j + 1]);
        }
        lemma_first_index(r, b, k - 1);
        if k < s.len() {
            assert(r[k - 1] == s[k]);
        }
    } else {
        lemma_first_index_le(s, b);
    }
}

proof fn lemma_first_index_le(s: Seq<u8>, b: u8)
    ensures
        first_index(s, b) <= s.len(),
    decreases s.len(),
{
    if s.len() > 0 {
        lemma_first_index_le(s.drop_first(), b);
    }
}

proof fn lemma_digits_push(s: Seq<u8>, b: u8)
    ensures
        digits_number(s.push(b)) == digits_number(s) * 10 + (b - ZERO) as nat,
{
    assert(s.push(b).drop_last() =~= s);
}

proof fn lemma_bound18(len: nat)
    requires
        len <= 17,
    ensures
        pow10(len) <= 100_000_000_000_000_000,
        pow10(len + 1) <= 1_000_000_000_000_000_000,
{
    lemma_pow10_mono(len, 17);
    lemma_pow10_mono(len + 1, 18);
    reveal_with_fuel(pow10, 19);
}

/// Appends the digits `t[lo..hi]` to the number `acc` spelled by `prefix`;
/// `None` when one of them is not a digit.
fn read_digits(t: &[u8], lo: usize, hi: usize, acc: u64, Ghost(prefix): Ghost<Seq<u8>>) -> (r: Option<u64>)
    requires
        lo <= hi <= t.len(),
        prefix.len() + (hi - lo) <= 18,
        all_digits(prefix),
        acc as int == digits_number(prefix),
    ensures
        r.is_some() == all_digits(t@.subrange(lo as int, hi as int)),
        r.is_some() ==> r.unwrap() as int == digits_number(prefix + t@.subrange(lo as int, hi as int)),
        r.is_some() ==> (r.unwrap() as int) < pow10(prefix.len() + (hi - lo) as nat),
{
    proof {
        lemma_digits_number_bound(prefix);
    }
    let mut acc = acc;
    let mut i: usize = lo;
    while i < hi
        invariant
            lo <= i <= hi <= t.len(),
            prefix.len() + (hi - lo) <= 18,
            all_digits(prefix + t@.subrange(lo as int, i as int)),
            acc as int == digits_number(prefix + t@.subrange(lo as int, i as int)),
            acc < pow10(prefix.len() + (i - lo) as nat),
        decreases hi - i,
    {
        let b = t[i];
        if b < ZERO || b > NINE {
            assert(t@.subrange(lo as int, hi as int)[i - lo] == b);
            return None;
        }
        let ghost cur = prefix + t@.subrange(lo as int, i as int);
        proof {
            lemma_bound18(prefix.len() + (i - lo) as nat);
            lemma_digits_push(cur, b);
            assert(cur.push(b) =~= prefix + t@.subrange(lo as int, i + 1));
        }
        acc = acc * 10 + (b - ZERO) as u64;
        i = i + 1;
    }
    assert forall|j: int| 0 <= j < hi - lo implies is_digit(#[trigger] t@.subrange(lo as int, hi as int)[j]) by {
        assert((prefix + t@.subrange(lo as int, hi as int))[prefix.len() + j] == t@.subrange(lo as int, hi as int)[j]);
    }
    Some(acc)
}

/// Multiplies `acc`, spelled by `prefix`, by ten once for each missing fraction place.
fn pad_fraction(acc: u64, frac_len: usize, Ghost(prefix): Ghost<Seq<u8>>) -> (r: u64)
    requires
        frac_len <= 6,
        prefix.len() + (6 - frac_len) <= 18,
        all_digits(prefix),
        acc as int == digits_number(prefix),
        acc < pow10(prefix.len()),
    ensures
        r as int == digits_number(prefix + Seq::new((6 - frac_len) as nat, |j: int| ZERO)),
        (r as int) < pow10(prefix.len() + (6 - frac_len) as nat),
{
    let mut acc = acc;
    let mut pad: usize = frac_len;
    while pad < 6
        invariant
            frac_len <= pad <= 6,
            prefix.len() + (6 - frac_len) <= 18,
            all_digits(prefix + Seq::new((pad - frac_len) as nat, |j: int| ZERO)),
            acc as int == digits_number(prefix + Seq::new((pad - frac_len) as nat, |j: int| ZERO)),
            acc < pow10(prefix.len() + (pad - frac_len) as nat),
        decreases 6 - pad,
    {
        let ghost cur = prefix + Seq::new((pad - frac_len) as nat, |j: int| ZERO);
        proof {
            lemma_bound18(prefix.len() + (pad - frac_len) as nat);
            lemma_digits_push(cur, ZERO);
            assert(cur.push(ZERO) =~= prefix + Seq::new((pad + 1 - frac_len) as nat, |j: int| ZERO));
        }
        acc = acc * 10;
        pad = pad + 1;
    }
    acc
}

/// Parses a decimal value into millionths.
#[verifier::rlimit(40)]
pub fn parse_value(t: &[u8]) -> (r: Option<i64>)
    ensures
        r.is_some() == decimal_value(t@).is_some(),
        r.is_some() ==> r.unwrap() as int == decimal_value(t@).unwrap(),
        r.is_some() ==> value_in_range(r.unwrap() as int),
{
    let n = t.len();
    let neg = n > 0 && t[0] == MINUS;
    let start: usize = if n > 0 && (t[0] == MINUS || t[0] == PLUS) { 1 } else { 0 };
    let ghost body = unsigned_part(t@);
    assert(body =~= t@.subrange(start as int, n as int));
    let mut d: usize = start;
    while d < n && t[d] != DOT
        invariant
            start <= d <= n == t@.len(),
            body == t@.subrange(start as int, n as int),
            forall|j: int| 0 <= j < d - start ==> body[j] != DOT,
        decreases n - d,
    {
        d = d + 1;
    }
    proof {
        lemma_first_index(body, DOT, (d - start) as int);
    }
    let ghost ip = integer_digits(t@);
    let ghost fp = fraction_digits(t@);
    assert(ip =~= t@.subrange(start as int, d as int));
    let int_len = d - start;
    let frac_len: usize = if d < n { n - d - 1 } else { 0 };
    if d < n {
        assert(fp =~= t@.subrange(d + 1, n as int));
    }
    if int_len > 12 || frac_len > 6 || int_len + frac_len == 0 {
        return None;
    }
    let a = match read_digits(t, start, d, 0, Ghost(Seq::empty())) {
        Some(a) => a,
        None => {
            assert(Seq::<u8>::empty() + ip =~= ip);
            return None;
        },
    };
    assert(Seq::<u8>::empty() + ip =~= ip);
    proof {
        lemma_digits_number_bound(ip);
    }
    let b = if d < n {
        match read_digits(t, d + 1, n, a, Ghost(ip)) {
            Some(b) => b,
            None => {
                return None;
            },
        }
    } else {
        assert(ip + fp =~= ip);
        a
    };
    assert(all_digits(ip + fp)) by {
        assert forall|j: int| 0 <= j < ip.len() + fp.len() implies is_digit(#[trigger] (ip + fp)[j]) by {
            if j < ip.len() {
                assert((ip + fp)[j] == ip[j]);
            } else {
                assert((ip + fp)[j] == fp[j - ip.len()]);
            }
        }
    }
    let m = pad_fraction(b, frac_len, Ghost(ip + fp));
    proof {
        lemma_pow10_mono((int_len + 6) as nat, 18);
        lemma_bound18(17);
        assert(decimal_ok(t@));
        assert(millionths(t@) == m);
    }
    let mag = m as i64;
    if neg {
        Some(-mag)
    } else {
        Some(mag)
    }
}

} // verus!
