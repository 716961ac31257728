//! The mergeable (min, max, sum, count) summary of the values of one key.
use vstd::prelude::*;

verus! {

/// Every value is a number of millionths strictly between `-VALUE_BOUND` and `VALUE_BOUND`.
pub const VALUE_BOUND: i64 = 1_000_000_000_000_000_000;

pub open spec fn value_in_range(v: int) -> bool {
    -VALUE_BOUND < v < VALUE_BOUND
}

pub open spec fn min_int(a: int, b: int) -> int {
    if a <= b { a } else { b }
}

pub open spec fn max_int(a: int, b: int) -> int {
    if a >= b { a } else { b }
}

/// The mathematical content of an aggregate.
pub ghost struct Summary {
    pub min: int,
    pub max: int,
    pub sum: int,
    pub count: nat,
}

pub open spec fn empty_summary() -> Summary {
    Summary { min: 0, max: 0, sum: 0, count: 0 }
}

/// A summary that has seen no value is the empty one.
pub open spec fn summary_wf(s: Summary) -> bool {
    s.count == 0 ==> s == empty_summary()
}

/// Folds one more value into a summary.
pub open spec fn add_value(s: Summary, v: int) -> Summary {
    if s.count == 0 {
        Summary { min: v, max: v, sum: v, count: 1 }
    } else {
        Summary { min: min_int(s.min, v), max: max_int(s.max, v), sum: s.sum + v, count: s.count + 1 }
    }
}

/// Merges two summaries; an empty side contributes nothing.
pub open spec fn combine(a: Summary, b: Summary) -> Summary {
    if b.count == 0 {
        a
    } else if a.count == 0 {
        b
    } else {
        Summary {
            min: min_int(a.min, b.min),
            max: max_int(a.max, b.max),
            sum: a.sum + b.sum,
            count: a.count + b.count,
        }
    }
}

/// The summary of a sequence of values, folded in order.
pub open spec fn summary_of(vals: Seq<int>) -> Summary
    decreases vals.len(),
{
    if vals.len() == 0 {
        empty_summary()
    } else {
        add_value(summary_of(vals.drop_last()), vals.last())
    }
}

/// The plain arithmetic total of a sequence of values.
pub open spec fn total(vals: Seq<int>) -> int {
    vals.fold_left(0int, |acc: int, x: int| acc + x)
}

#[derive(Clone, Copy, Debug)]
pub struct Aggregate {
    pub min: i64,
    pub max: i64,
    pub sum: i128,
    pub count: u64,
}

impl View for Aggregate {
    type V = Summary;

    open spec fn view(&self) -> Summary {
        Summary { min: self.min as int, max: self.max as int, sum: self.sum as int, count: self.count as nat }
    }
}

impl Aggregate {
    /// Well-formed: an empty aggregate is all zeros, the extremes are in range and
    /// the sum is bounded by the count, so that no merge can overflow it.
    pub open spec fn wf(&self) -> bool {
        &&& summary_wf(self@)
        &&& value_in_range(self.min as int)
        &&& value_in_range(self.max as int)
        &&& -(self.count as int) * (VALUE_BOUND as int) <= self.sum as int <= (self.count as int) * (VALUE_BOUND as int)
    }

    /// The identity of `merge`.
    pub fn new() -> (r: Aggregate)
        ensures
            r@ == empty_summary(),
            r.wf(),
    {
        Aggregate { min: 0, max: 0, sum: 0, count: 0 }
    }

    /// Folds the value `v` into the aggregate.
    pub fn update(&mut self, v: i64)
        requires
            old(self).wf(),
            value_in_range(v as int),
            old(self).count < u64::MAX,
        ensures
            final(self)@ == add_value(old(self)@, v as int),
            final(self).wf(),
    {
        let ghost c = self.count as int;
        proof {
            lemma_sum_room(c + 1);
            assert((c + 1) * (VALUE_BOUND as int) == c * (VALUE_BOUND as int) + VALUE_BOUND) by (nonlinear_arith);
        }
        if self.count == 0 {
            self.min = v;
            self.max = v;
            self.sum = v as i128;
        } else {
            if v < self.min {
                self.min = v;
            }
            if v > self.max {
                self.max = v;
            }
            self.sum = self.sum + v as i128;
        }
        self.count = self.count + 1;
    }

    /// Merges `other` into the aggregate.
    pub fn merge(&mut self, other: &Aggregate)
        requires
            old(self).wf(),
            other.wf(),
            old(self).count + other.count <= u64::MAX,
        ensures
            final(self)@ == combine(old(self)@, other@),
            final(self).wf(),
    {
        let ghost a = self.count as int;
        let ghost b = other.count as int;
        proof {
            lemma_sum_room(a + b);
            assert((a + b) * (VALUE_BOUND as int) == a * (VALUE_BOUND as int) + b * (VALUE_BOUND as int)) by (nonlinear_arith);
        }
        if other.count > 0 {
            if self.count == 0 {
                self.min = other.min;
                self.max = other.max;
            } else {
                if other.min < self.min {
                    self.min = other.min;
                }
                if other.max > self.max {
                    self.max = other.max;
                }
            }
            self.sum = self.sum + other.sum;
            self.count = self.count + other.count;
        }
    }
}

proof fn lemma_sum_room(c: int)
    requires
        0 <= c <= u64::MAX,
    ensures
        c * (VALUE_BOUND as int) < i128::MAX,
        0 <= c * (VALUE_BOUND as int),
{
    assert(c * (VALUE_BOUND as int) <= (u64::MAX as int) * (VALUE_BOUND as int)) by (nonlinear_arith)
        requires 0 <= c <= u64::MAX;
}

/// `merge` is commutative and associative on well-formed aggregates, and the
/// empty aggregate is its identity on both sides.
pub proof fn merge_laws(a: Summary, b: Summary, c: Summary)
    requires
        summary_wf(a),
        summary_wf(b),
        summary_wf(c),
    ensures
        combine(a, b) == combine(b, a),
        combine(combine(a, b), c) == combine(a, combine(b, c)),
        combine(empty_summary(), a) == a,
        combine(a, empty_summary()) == a,
        summary_wf(combine(a, b)),
{
}

/// Folding two runs of values one after the other gives the merge of their summaries.
pub proof fn summary_of_concat(v1: Seq<int>, v2: Seq<int>)
    ensures
        summary_of(v1 + v2) == combine(summary_of(v1), summary_of(v2)),
    decreases v2.len(),
{
    if v2.len() == 0 {
        assert(v1 + v2 =~= v1);
    } else {
        let w = v2.drop_last();
        summary_of_concat(v1, w);
        assert((v1 + v2).drop_last() =~= v1 + w);
        assert((v1 + v2).last() == v2.last());
        lemma_summary_count(v1);
        lemma_summary_count(w);
    }
}

proof fn lemma_summary_count(vals: Seq<int>)
    ensures
        summary_of(vals).count == vals.len(),
        summary_wf(summary_of(vals)),
    decreases vals.len(),
{
    if vals.len() > 0 {
        lemma_summary_count(vals.drop_last());
    }
}

/// The summary of values reports their count, their exact total, a minimum and a
/// maximum that bound every value and are themselves among the values.
pub proof fn summary_is_exact(vals: Seq<int>)
    ensures
        summary_of(vals).count == vals.len(),
        summary_of(vals).sum == total(vals),
        summary_wf(summary_of(vals)),
        vals.len() > 0 ==> {
            let s = summary_of(vals);
            &&& s.min <= s.max
            &&& forall|i: int| 0 <= i < vals.len() ==> s.min <= #[trigger] vals[i] <= s.max
            &&& exists|i: int| 0 <= i < vals.len() && vals[i] == s.min
            &&& exists|j: int| 0 <= j < vals.len() && vals[j] == s.max
        },
    decreases vals.len(),
{
    lemma_summary_count(vals);
    if vals.len() > 0 {
        let w = vals.drop_last();
        summary_is_exact(w);
        let s = summary_of(vals);
        let n = vals.len() - 1;
        assert forall|i: int| 0 <= i < vals.len() implies s.min <= #[trigger] vals[i] <= s.max by {
            if i < n {
                assert(vals[i] == w[i]);
            }
        }
        if w.len() == 0 {
            assert(vals[0] == s.min);
            assert(vals[0] == s.max);
        } else {
            let t = summary_of(w);
            let im = choose|i: int| 0 <= i < w.len() && w[i] == t.min;
            let jm = choose|j: int| 0 <= j < w.len() && w[j] == t.max;
            if s.min == vals[n] {
                assert(vals[n] == s.min);
            } else {
                assert(vals[im] == s.min);
            }
            if s.max == vals[n] {
                assert(vals[n] == s.max);
            } else {
                assert(vals[jm] == s.max);
            }
        }
    }
}

} // verus!
