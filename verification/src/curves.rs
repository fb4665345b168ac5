//! Empirical cumulative delay curves.
//!
//! A curve is a sorted list of sample x-values with, per value, the
//! cumulative weight of all samples up to it; y-values are the exact
//! rationals cumulative/total, so monotonicity and the 0-to-1 bounds are
//! facts, not float accidents. Weights are 1 per sample, or a triangular
//! kernel around a focus value, scaled to integers by the kernel width.

use vstd::prelude::*;

verus! {

/// Largest magnitude of a sample value the curve builder accepts; keeps
/// every intermediate product inside 128-bit arithmetic.
pub const CURVE_MAX_X: i64 = 100_000;

/// Largest number of samples the curve builder accepts.
pub const CURVE_MAX_SAMPLES: usize = 100_000;

/// Largest denominator `x_at_y` accepts for its probability argument.
pub const FRAC_MAX_DEN: i128 = 10_000_000_000_000_000;

/// An exact rational with a positive denominator.
#[derive(Clone, Copy, Debug)]
pub struct Frac {
    pub num: i128,
    pub den: i128,
}

impl Frac {
    /// A positive denominator.
    pub open spec fn wf(self) -> bool {
        0 < self.den
    }
}

/// a/b <= c/d, by cross multiplication; both denominators positive.
pub open spec fn frac_le(a: Frac, b: Frac) -> bool {
    a.num * b.den <= b.num * a.den
}

/// a/b == c/d as rationals.
pub open spec fn frac_eq(a: Frac, b: Frac) -> bool {
    a.num * b.den == b.num * a.den
}

/// Inserts `x` into a sorted sequence, after any equal values.
pub open spec fn spec_insert(s: Seq<i64>, x: i64) -> Seq<i64>
    decreases s.len(),
{
    if s.len() > 0 && s[0] <= x {
        seq![s[0]] + spec_insert(s.drop_first(), x)
    } else {
        seq![x] + s
    }
}

/// The input sequence in ascending order, by repeated insertion.
pub open spec fn sort_spec(s: Seq<i64>) -> Seq<i64>
    decreases s.len(),
{
    if s.len() == 0 {
        Seq::empty()
    } else {
        spec_insert(sort_spec(s.drop_last()), s.last())
    }
}

/// Ascending order.
pub open spec fn is_sorted(s: Seq<i64>) -> bool {
    forall|i: int, j: int| 0 <= i <= j < s.len() ==> s[i] <= s[j]
}

/// Insertion keeps length, content bounds and order.
pub proof fn lemma_spec_insert(s: Seq<i64>, x: i64)
    requires
        is_sorted(s),
    ensures
        spec_insert(s, x).len() == s.len() + 1,
        is_sorted(spec_insert(s, x)),
        forall|v: i64| #![trigger spec_insert(s, x).contains(v)]
            spec_insert(s, x).contains(v) <==> (s.contains(v) || v == x),
    decreases s.len(),
{
    if s.len() > 0 && s[0] <= x {
        assert(is_sorted(s.drop_first()));
        lemma_spec_insert(s.drop_first(), x);
        let t = seq![s[0]] + spec_insert(s.drop_first(), x);
        assert forall|i: int, j: int| 0 <= i <= j < t.len() implies t[i] <= t[j] by {
            if i == 0 && j > 0 {
                let u = spec_insert(s.drop_first(), x);
                assert(t[j] == u[j - 1]);
                if u[j - 1] == x {
                } else {
                    assert(u.contains(u[j - 1]));
                    assert(s.drop_first().contains(u[j - 1]) || u[j - 1] == x);
                    if s.drop_first().contains(u[j - 1]) {
                        let k = choose|k: int| 0 <= k < s.drop_first().len()
                            && s.drop_first()[k] == u[j - 1];
                        assert(s[k + 1] == u[j - 1]);
                    }
                }
            }
        }
        assert forall|v: i64| t.contains(v) implies (s.contains(v) || v == x) by {
            let k = choose|k: int| 0 <= k < t.len() && t[k] == v;
            if k == 0 {
                assert(s[0] == v);
            } else {
                let u = spec_insert(s.drop_first(), x);
                assert(u[k - 1] == v);
                assert(u.contains(v));
                if s.drop_first().contains(v) {
                    let m = choose|m: int| 0 <= m < s.drop_first().len()
                        && s.drop_first()[m] == v;
                    assert(s[m + 1] == v);
                }
            }
        }
        assert forall|v: i64| (s.contains(v) || v == x) implies t.contains(v) by {
            let u = spec_insert(s.drop_first(), x);
            if v == x {
                assert(u.contains(x));
                let m = choose|m: int| 0 <= m < u.len() && u[m] == x;
                assert(t[m + 1] == x);
            } else {
                let k = choose|k: int| 0 <= k < s.len() && s[k] == v;
                if k == 0 {
                    assert(t[0] == v);
                } else {
                    assert(s.drop_first()[k - 1] == v);
                    assert(u.contains(v));
                    let m = choose|m: int| 0 <= m < u.len() && u[m] == v;
                    assert(t[m + 1] == v);
                }
            }
        }
    } else {
        let t = seq![x] + s;
        assert forall|i: int, j: int| 0 <= i <= j < t.len() implies t[i] <= t[j] by {
            if i == 0 && j > 0 {
                if s.len() > 0 {
                    assert(t[j] == s[j - 1]);
                    assert(s[0] <= s[j - 1]);
                }
            }
        }
        assert forall|v: i64| (s.contains(v) || v == x) implies t.contains(v) by {
            if v == x {
                assert(t[0] == x);
            } else {
                let k = choose|k: int| 0 <= k < s.len() && s[k] == v;
                assert(t[k + 1] == v);
            }
        }
        assert forall|v: i64| t.contains(v) implies (s.contains(v) || v == x) by {
            let k = choose|k: int| 0 <= k < t.len() && t[k] == v;
            if k > 0 {
                assert(s[k - 1] == v);
            }
        }
    }
}

/// Sorting keeps length, content and order.
pub proof fn lemma_sort_spec(s: Seq<i64>)
    ensures
        sort_spec(s).len() == s.len(),
        is_sorted(sort_spec(s)),
        forall|v: i64| #![trigger sort_spec(s).contains(v)]
            sort_spec(s).contains(v) <==> s.contains(v),
    decreases s.len(),
{
    if s.len() > 0 {
        lemma_sort_spec(s.drop_last());
        lemma_spec_insert(sort_spec(s.drop_last()), s.last());
        assert forall|v: i64| sort_spec(s).contains(v) implies s.contains(v) by {
            if sort_spec(s.drop_last()).contains(v) {
                assert(s.drop_last().contains(v));
                let k = choose|k: int| 0 <= k < s.drop_last().len() && s.drop_last()[k] == v;
                assert(s[k] == v);
            } else {
                assert(v == s.last());
            }
        }
        assert forall|v: i64| s.contains(v) implies sort_spec(s).contains(v) by {
            let k = choose|k: int| 0 <= k < s.len() && s[k] == v;
            if k < s.len() - 1 {
                assert(s.drop_last()[k] == v);
            }
        }
    }
}

/// Sorts sample values ascending; the result is exactly `sort_spec` of the
/// input.
pub fn sort_samples(v: &Vec<i64>) -> (r: Vec<i64>)
    ensures
        r@ == sort_spec(v@),
{
    let mut r: Vec<i64> = Vec::new();
    let mut i: usize = 0;
    proof {
        assert(v@.subrange(0, 0) =~= Seq::<i64>::empty());
    }
    while i < v.len()
        invariant
            0 <= i <= v@.len(),
            r@ == sort_spec(v@.subrange(0, i as int)),
            r@.len() == i,
        decreases v@.len() - i,
    {
        let x = v[i];
        proof {
            assert(v@.subrange(0, i as int + 1).drop_last() =~= v@.subrange(0, i as int));
            assert(v@.subrange(0, i as int + 1).last() == v@[i as int]);
            lemma_sort_spec(v@.subrange(0, i as int));
        }
        // Find the first position holding a value greater than x.
        let mut j: usize = 0;
        while j < r.len() && r[j] <= x
            invariant
                0 <= j <= r@.len(),
                forall|m: int| 0 <= m < j ==> r@[m] <= x,
            decreases r@.len() - j,
        {
            j = j + 1;
        }
        proof {
            lemma_insert_at_split(r@, x, j as int);
        }
        r.insert(j, x);
        i = i + 1;
    }
    proof {
        assert(v@.subrange(0, v@.len() as int) =~= v@);
    }
    r
}

/// Inserting at the first position after all values <= x is `spec_insert`.
proof fn lemma_insert_at_split(s: Seq<i64>, x: i64, j: int)
    requires
        is_sorted(s),
        0 <= j <= s.len(),
        forall|m: int| 0 <= m < j ==> s[m] <= x,
        j < s.len() ==> s[j] > x,
    ensures
        spec_insert(s, x) == s.insert(j, x),
    decreases s.len(),
{
    if s.len() > 0 && s[0] <= x {
        assert(j > 0);
        assert(is_sorted(s.drop_first()));
        assert forall|m: int| 0 <= m < j - 1 implies s.drop_first()[m] <= x by {
            assert(s.drop_first()[m] == s[m + 1]);
        }
        if j - 1 < s.drop_first().len() {
            assert(s.drop_first()[j - 1] == s[j]);
        }
        lemma_insert_at_split(s.drop_first(), x, j - 1);
        assert(spec_insert(s, x) =~= s.insert(j, x));
    } else {
        assert(j == 0);
        assert(spec_insert(s, x) =~= s.insert(0, x));
    }
}


/// Largest total weight a curve can carry (sample cap times weight cap).
pub const CURVE_MAX_TOTAL: u64 = 4_000_000_000_000_000;

/// Largest scaled weight of one sample.
pub const WEIGHT_MAX: u64 = 40_000_000_000;

/// The scaled weight of sample `x`: 1 per sample when no focus is given;
/// with a focus, a triangular kernel that is full at the focus and falls
/// to nothing at the extremes, scaled by `spec_weight_den`.
pub open spec fn spec_weight(x: i64, focus: Option<i64>, a: i64, b: i64) -> int {
    match focus {
        None => 1,
        Some(f) => {
            let left = if f - a > 0 { f - a } else { 1 as int };
            let right = if b - f > 0 { b - f } else { 1 as int };
            if x < f {
                (x - a) * right
            } else if x > f {
                (b - x) * left
            } else {
                left * right
            }
        },
    }
}

/// What the scaled weights are divided by to give the kernel value.
pub open spec fn spec_weight_den(focus: Option<i64>, a: i64, b: i64) -> int {
    match focus {
        None => 1,
        Some(f) => (if f - a > 0 { f - a } else { 1 as int })
            * (if b - f > 0 { b - f } else { 1 as int }),
    }
}

/// The sample values, the focus and the extremes all lie within the
/// accepted band, with the extremes enclosing everything.
pub open spec fn weights_wf(s: Seq<i64>, focus: Option<i64>, a: i64, b: i64) -> bool {
    &&& -CURVE_MAX_X <= a <= b <= CURVE_MAX_X
    &&& forall|j: int| 0 <= j < s.len() ==> a <= #[trigger] s[j] <= b
    &&& match focus {
        None => true,
        Some(f) => a <= f <= b,
    }
}

/// A well-placed weight is nonnegative and bounded.
pub proof fn lemma_weight_bounds(x: i64, focus: Option<i64>, a: i64, b: i64)
    requires
        -CURVE_MAX_X <= a <= x <= b <= CURVE_MAX_X,
        focus matches Some(f) ==> a <= f <= b,
    ensures
        0 <= spec_weight(x, focus, a, b) <= WEIGHT_MAX,
        0 < spec_weight_den(focus, a, b) <= WEIGHT_MAX,
{
    match focus {
        None => {},
        Some(f) => {
            let left = if f - a > 0 { f - a } else { 1 as int };
            let right = if b - f > 0 { b - f } else { 1 as int };
            assert(0 < left <= 200_000);
            assert(0 < right <= 200_000);
            if x < f {
                assert(0 <= (x - a) * right <= 200_000 * 200_000) by (nonlinear_arith)
                    requires 0 <= x - a <= 200_000 && 0 < right <= 200_000;
            } else if x > f {
                assert(0 <= (b - x) * left <= 200_000 * 200_000) by (nonlinear_arith)
                    requires 0 <= b - x <= 200_000 && 0 < left <= 200_000;
            } else {
                assert(0 < left * right <= 200_000 * 200_000) by (nonlinear_arith)
                    requires 0 < left <= 200_000 && 0 < right <= 200_000;
            }
            assert(0 < left * right <= 200_000 * 200_000) by (nonlinear_arith)
                requires 0 < left <= 200_000 && 0 < right <= 200_000;
        },
    }
}

/// The scaled weight of sample `x`, executably.
fn weight_of(x: i64, focus: &Option<i64>, a: i64, b: i64) -> (w: u64)
    requires
        -CURVE_MAX_X <= a <= x <= b <= CURVE_MAX_X,
        (*focus) matches Some(f) ==> a <= f <= b,
    ensures
        w as int == spec_weight(x, *focus, a, b),
        w <= WEIGHT_MAX,
{
    proof {
        lemma_weight_bounds(x, *focus, a, b);
    }
    match focus {
        None => 1,
        Some(f) => {
            let f = *f;
            let left: i64 = if f - a > 0 { f - a } else { 1 };
            let right: i64 = if b - f > 0 { b - f } else { 1 };
            proof {
                assert((x - a) * right <= 200_000 * 200_000 && (x - a) * right >= 0)
                    by (nonlinear_arith)
                    requires 0 <= x - a <= 200_000 && 0 < right <= 200_000;
                assert((b - x) * left <= 200_000 * 200_000 && (b - x) * left >= 0)
                    by (nonlinear_arith)
                    requires 0 <= b - x <= 200_000 && 0 < left <= 200_000;
                assert(left * right <= 200_000 * 200_000 && left * right >= 0)
                    by (nonlinear_arith)
                    requires 0 < left <= 200_000 && 0 < right <= 200_000;
            }
            if x < f {
                ((x - a) * right) as u64
            } else if x > f {
                ((b - x) * left) as u64
            } else {
                (left * right) as u64
            }
        },
    }
}

/// The summed scaled weight of every sample with value at most `x`.
pub open spec fn cum_weight_le(s: Seq<i64>, x: i64, focus: Option<i64>, a: i64, b: i64) -> int
    decreases s.len(),
{
    if s.len() == 0 {
        0
    } else {
        cum_weight_le(s.drop_last(), x, focus, a, b) + if s.last() <= x {
            spec_weight(s.last(), focus, a, b)
        } else {
            0
        }
    }
}

/// The summed scaled weight of the first `n` samples.
pub open spec fn sum_prefix(s: Seq<i64>, n: int, focus: Option<i64>, a: i64, b: i64) -> int
    decreases n,
{
    if n <= 0 {
        0
    } else {
        sum_prefix(s, n - 1, focus, a, b) + spec_weight(s[n - 1], focus, a, b)
    }
}

/// The prefix sum reads only the first `n` values.
proof fn lemma_sum_prefix_agree(
    s: Seq<i64>,
    s2: Seq<i64>,
    n: int,
    focus: Option<i64>,
    a: i64,
    b: i64,
)
    requires
        forall|j: int| 0 <= j < n ==> s[j] == s2[j],
    ensures
        sum_prefix(s, n, focus, a, b) == sum_prefix(s2, n, focus, a, b),
    decreases n,
{
    if n > 0 {
        lemma_sum_prefix_agree(s, s2, n - 1, focus, a, b);
    }
}

/// Where the first `n` samples are exactly those at most `x`, the
/// cumulative weight up to `x` is the prefix sum.
proof fn lemma_cum_is_prefix(
    s: Seq<i64>,
    x: i64,
    n: int,
    focus: Option<i64>,
    a: i64,
    b: i64,
)
    requires
        0 <= n <= s.len(),
        forall|j: int| 0 <= j < n ==> #[trigger] s[j] <= x,
        forall|j: int| n <= j < s.len() ==> #[trigger] s[j] > x,
    ensures
        cum_weight_le(s, x, focus, a, b) == sum_prefix(s, n, focus, a, b),
    decreases s.len(),
{
    if s.len() > 0 {
        if n == s.len() {
            lemma_cum_is_prefix(s.drop_last(), x, n - 1, focus, a, b);
            lemma_sum_prefix_agree(s, s.drop_last(), n - 1, focus, a, b);
        } else {
            lemma_cum_is_prefix(s.drop_last(), x, n, focus, a, b);
            lemma_sum_prefix_agree(s, s.drop_last(), n, focus, a, b);
        }
    }
}

/// Weight sums grow with the threshold.
pub proof fn lemma_cum_monotone(
    s: Seq<i64>,
    x1: i64,
    x2: i64,
    focus: Option<i64>,
    a: i64,
    b: i64,
)
    requires
        weights_wf(s, focus, a, b),
        x1 <= x2,
    ensures
        cum_weight_le(s, x1, focus, a, b) <= cum_weight_le(s, x2, focus, a, b),
        0 <= cum_weight_le(s, x1, focus, a, b),
    decreases s.len(),
{
    if s.len() > 0 {
        assert(weights_wf(s.drop_last(), focus, a, b)) by {
            assert(forall|j: int| 0 <= j < s.len() - 1 ==> s.drop_last()[j] == s[j]);
        }
        lemma_cum_monotone(s.drop_last(), x1, x2, focus, a, b);
        lemma_weight_bounds(s.last(), focus, a, b);
    }
}

/// An empirical cumulative curve: strictly increasing sample values, with
/// the cumulative weight reached at each of them; the y-value at point `i`
/// is the exact rational `cums[i] / total`.
#[derive(Debug)]
pub struct Curve {
    pub xs: Vec<i64>,
    pub cums: Vec<u64>,
    pub total: u64,
}

impl Curve {
    /// Shape of a well-formed curve: at least two points, x strictly
    /// increasing within the accepted band, cumulative weights
    /// nondecreasing from exactly 0 to exactly `total`.
    pub open spec fn wf(&self) -> bool {
        &&& self.xs@.len() == self.cums@.len()
        &&& self.xs@.len() >= 2
        &&& forall|i: int, j: int| 0 <= i < j < self.xs@.len()
            ==> self.xs@[i] < self.xs@[j]
        &&& forall|i: int| 0 <= i < self.xs@.len()
            ==> -CURVE_MAX_X <= #[trigger] self.xs@[i] <= CURVE_MAX_X
        &&& forall|i: int, j: int| 0 <= i <= j < self.cums@.len()
            ==> self.cums@[i] <= self.cums@[j]
        &&& self.cums@[0] == 0
        &&& self.cums@[self.cums@.len() - 1] == self.total
        &&& 0 < self.total <= CURVE_MAX_TOTAL
    }

    /// Smallest x value of the curve.
    pub fn min_x(&self) -> (r: i64)
        requires
            self.wf(),
        ensures
            r == self.xs@[0],
    {
        self.xs[0]
    }

    /// Largest x value of the curve.
    pub fn max_x(&self) -> (r: i64)
        requires
            self.wf(),
        ensures
            r == self.xs@[self.xs@.len() - 1],
    {
        self.xs[self.xs.len() - 1]
    }
}


/// With even weights, any member of the sequence strictly between two
/// thresholds separates their cumulative weights.
proof fn lemma_cum_strict(s: Seq<i64>, x1: i64, x2: i64, v: i64, a: i64, b: i64)
    requires
        s.contains(v),
        x1 < v <= x2,
    ensures
        cum_weight_le(s, x2, None, a, b) >= cum_weight_le(s, x1, None, a, b) + 1,
    decreases s.len(),
{
    if s.len() > 0 {
        lemma_cum_mono_none(s.drop_last(), x1, x2, a, b);
        if x1 < s.last() <= x2 {
            // The last element alone separates the sums.
        } else {
            let k = choose|k: int| 0 <= k < s.len() && s[k] == v;
            assert(k < s.len() - 1);
            assert(s.drop_last()[k] == v);
            assert(s.drop_last().contains(v));
            lemma_cum_strict(s.drop_last(), x1, x2, v, a, b);
        }
    }
}

/// Evenly weighted sums grow with the threshold, with no band needed.
proof fn lemma_cum_mono_none(s: Seq<i64>, x1: i64, x2: i64, a: i64, b: i64)
    requires
        x1 <= x2,
    ensures
        cum_weight_le(s, x1, None, a, b) <= cum_weight_le(s, x2, None, a, b),
        0 <= cum_weight_le(s, x1, None, a, b),
    decreases s.len(),
{
    if s.len() > 0 {
        lemma_cum_mono_none(s.drop_last(), x1, x2, a, b);
    }
}


/// The distinct values of a sorted sequence, in order.
pub open spec fn distinct_of(s: Seq<i64>) -> Seq<i64>
    decreases s.len(),
{
    if s.len() == 0 {
        Seq::empty()
    } else if s.len() == 1 {
        seq![s[0]]
    } else if s.last() == s[s.len() - 2] {
        distinct_of(s.drop_last())
    } else {
        distinct_of(s.drop_last()).push(s.last())
    }
}

/// Over a sorted sequence, `distinct_of` is strictly increasing, holds the
/// same values, and keeps the first and last.
pub proof fn lemma_distinct_char(s: Seq<i64>)
    requires
        is_sorted(s),
    ensures
        forall|p: int, q: int| 0 <= p < q < distinct_of(s).len()
            ==> distinct_of(s)[p] < distinct_of(s)[q],
        forall|v: i64| #![trigger distinct_of(s).contains(v)]
            distinct_of(s).contains(v) <==> s.contains(v),
        s.len() > 0 ==> distinct_of(s).len() > 0
            && distinct_of(s)[0] == s[0]
            && distinct_of(s).last() == s.last(),
    decreases s.len(),
{
    if s.len() == 1 {
        let d = distinct_of(s);
        assert(d == seq![s[0]]);
        assert forall|v: i64| s.contains(v) implies #[trigger] d.contains(v) by {
            assert(v == s[0]);
            assert(d[0] == v);
        }
        assert forall|v: i64| #[trigger] d.contains(v) implies s.contains(v) by {
            assert(v == d[0]);
            assert(s[0] == v);
        }
    }
    if s.len() > 1 {
        assert(is_sorted(s.drop_last()));
        lemma_distinct_char(s.drop_last());
        let d = distinct_of(s);
        let dp = distinct_of(s.drop_last());
        assert forall|v: i64| s.contains(v) implies #[trigger] d.contains(v) by {
            let k = choose|k: int| 0 <= k < s.len() && s[k] == v;
            if k < s.len() - 1 {
                assert(s.drop_last()[k] == v);
                assert(dp.contains(v));
                if s.last() != s[s.len() - 2] {
                    let m = choose|m: int| 0 <= m < dp.len() && dp[m] == v;
                    assert(d[m] == v);
                }
            } else {
                if s.last() == s[s.len() - 2] {
                    assert(s.drop_last()[s.len() - 2] == v);
                    assert(dp.contains(v));
                } else {
                    assert(d[d.len() - 1] == v);
                }
            }
        }
        assert forall|v: i64| #[trigger] d.contains(v) implies s.contains(v) by {
            let m = choose|m: int| 0 <= m < d.len() && d[m] == v;
            if s.last() == s[s.len() - 2] {
                assert(dp.contains(v));
                assert(s.drop_last().contains(v));
                let k = choose|k: int| 0 <= k < s.drop_last().len()
                    && s.drop_last()[k] == v;
                assert(s[k] == v);
            } else {
                if m < d.len() - 1 {
                    assert(dp.contains(v));
                    assert(s.drop_last().contains(v));
                    let k = choose|k: int| 0 <= k < s.drop_last().len()
                        && s.drop_last()[k] == v;
                    assert(s[k] == v);
                } else {
                    assert(v == s.last());
                }
            }
        }
        if s.last() != s[s.len() - 2] {
            assert forall|p: int, q: int| 0 <= p < q < d.len()
                implies d[p] < d[q] by {
                if q == d.len() - 1 {
                    assert(d[p] == dp[p]);
                    assert(dp.contains(dp[p]));
                    assert(s.drop_last().contains(dp[p]));
                    let k = choose|k: int| 0 <= k < s.drop_last().len()
                        && s.drop_last()[k] == dp[p];
                    assert(s[k] <= s[s.len() - 2]);
                    assert(s[s.len() - 2] < s.last()) by {
                        assert(s[s.len() - 2] <= s.last());
                    }
                }
            }
        }
    }
}

/// Two strictly increasing sequences with the same values are equal.
pub proof fn lemma_strict_sorted_unique(a: Seq<i64>, b: Seq<i64>)
    requires
        forall|p: int, q: int| 0 <= p < q < a.len() ==> a[p] < a[q],
        forall|p: int, q: int| 0 <= p < q < b.len() ==> b[p] < b[q],
        forall|v: i64| a.contains(v) <==> b.contains(v),
    ensures
        a == b,
    decreases a.len(),
{
    if a.len() == 0 {
        if b.len() > 0 {
            assert(b.contains(b[0]));
            assert(a.contains(b[0]));
        }
        assert(a =~= b);
    } else if b.len() == 0 {
        assert(a.contains(a[0]));
        assert(b.contains(a[0]));
    } else {
        // The two maxima are the same value, at the last position each.
        let am = a.last();
        let bm = b.last();
        assert(a.contains(am) && b.contains(bm));
        assert(b.contains(am) && a.contains(bm));
        assert(am <= bm) by {
            let k = choose|k: int| 0 <= k < b.len() && b[k] == am;
            assert(b[k] <= b[b.len() - 1]) by {
                if k < b.len() - 1 {
                    assert(b[k] < b[b.len() - 1]);
                }
            }
        }
        assert(bm <= am) by {
            let k = choose|k: int| 0 <= k < a.len() && a[k] == bm;
            assert(a[k] <= a[a.len() - 1]) by {
                if k < a.len() - 1 {
                    assert(a[k] < a[a.len() - 1]);
                }
            }
        }
        let ap = a.drop_last();
        let bp = b.drop_last();
        assert forall|v: i64| #[trigger] ap.contains(v) implies bp.contains(v) by {
            let k = choose|k: int| 0 <= k < ap.len() && ap[k] == v;
            assert(a[k] == v && a[k] < am);
            assert(b.contains(v));
            let m = choose|m: int| 0 <= m < b.len() && b[m] == v;
            assert(m < b.len() - 1);
            assert(bp[m] == v);
        }
        assert forall|v: i64| #[trigger] bp.contains(v) implies ap.contains(v) by {
            let k = choose|k: int| 0 <= k < bp.len() && bp[k] == v;
            assert(b[k] == v && b[k] < bm);
            assert(a.contains(v));
            let m = choose|m: int| 0 <= m < a.len() && a[m] == v;
            assert(m < a.len() - 1);
            assert(ap[m] == v);
        }
        lemma_strict_sorted_unique(ap, bp);
        assert(a.len() == b.len());
        assert forall|i: int| 0 <= i < a.len() implies a[i] == b[i] by {
            if i < a.len() - 1 {
                assert(a[i] == ap[i]);
                assert(b[i] == bp[i]);
            }
        }
        assert(a =~= b);
    }
}

/// With even weights and every sample at most `x`, the cumulative weight
/// up to `x` is the sample count.
pub proof fn lemma_cum_none_count(s: Seq<i64>, x: i64, a: i64, b: i64)
    requires
        forall|j: int| 0 <= j < s.len() ==> #[trigger] s[j] <= x,
    ensures
        cum_weight_le(s, x, None, a, b) == s.len(),
    decreases s.len(),
{
    if s.len() > 0 {
        assert(forall|j: int| 0 <= j < s.drop_last().len()
            ==> #[trigger] s.drop_last()[j] <= x);
        lemma_cum_none_count(s.drop_last(), x, a, b);
    }
}

/// Builds the empirical cumulative curve over the samples: the samples are
/// sorted, weighted (evenly, or by the triangular kernel around `focus`),
/// and summed at each distinct value; the first point is clamped to 0 and
/// the last carries the full weight. No curve exists when there are fewer
/// than two distinct values or no weight at all. The second result is the
/// total weight, as the exact fraction total/denominator.
pub fn make_curve(samples: &Vec<i64>, focus: Option<i64>) -> (r: Option<(Curve, Frac)>)
    requires
        samples@.len() <= CURVE_MAX_SAMPLES,
        forall|i: int| 0 <= i < samples@.len()
            ==> -CURVE_MAX_X <= #[trigger] samples@[i] <= CURVE_MAX_X,
        focus matches Some(f) ==> samples@.len() > 0
            && sort_spec(samples@).first() <= f <= sort_spec(samples@).last(),
    ensures
        ({
            let ss = sort_spec(samples@);
            match r {
                None => samples@.len() == 0 || ss.first() == ss.last()
                    || cum_weight_le(ss, ss.last(), focus, ss.first(), ss.last()) == 0,
                Some((c, w)) => samples@.len() > 0 && ss.first() != ss.last() && ({
                    let a = ss.first();
                    let b = ss.last();
                    let tot = cum_weight_le(ss, b, focus, a, b);
                    &&& c.wf()
                    &&& tot > 0
                    &&& c.total == tot
                    &&& w.num == tot
                    &&& w.den == spec_weight_den(focus, a, b)
                    &&& c.xs@[0] == a
                    &&& c.xs@[c.xs@.len() - 1] == b
                    &&& forall|i: int| 1 <= i < c.xs@.len()
                        ==> c.cums@[i] == cum_weight_le(ss, #[trigger] c.xs@[i], focus, a, b)
                    &&& forall|v: i64| c.xs@.contains(v) <==> ss.contains(v)
                    &&& c.xs@ == distinct_of(ss)
                    &&& focus is None ==> c.total == ss.len()
                    &&& focus is None ==> forall|p: int, q: int|
                        0 <= p < q < c.cums@.len() ==> c.cums@[p] < c.cums@[q]
                }),
            }
        }),
{
    if samples.len() == 0 {
        return None;
    }
    let sorted = sort_samples(samples);
    proof {
        lemma_sort_spec(samples@);
    }
    let n = sorted.len();
    let a = sorted[0];
    let b = sorted[n - 1];
    proof {
        assert forall|j: int| 0 <= j < sorted@.len()
            implies a <= #[trigger] sorted@[j] <= b by {
            assert(sorted@[0] <= sorted@[j] && sorted@[j] <= sorted@[sorted@.len() - 1]);
        }
        assert(sorted@.contains(a));
        assert(samples@.contains(a));
        assert(sorted@.contains(b));
        assert(samples@.contains(b));
        let ka = choose|k: int| 0 <= k < samples@.len() && samples@[k] == a;
        let kb = choose|k: int| 0 <= k < samples@.len() && samples@[k] == b;
        assert(-CURVE_MAX_X <= a <= CURVE_MAX_X);
        assert(-CURVE_MAX_X <= b <= CURVE_MAX_X);
    }
    if a == b {
        return None;
    }
    let mut xs: Vec<i64> = Vec::new();
    let mut cums: Vec<u64> = Vec::new();
    let mut cum: u64 = 0;
    let mut i: usize = 0;
    while i < n
        invariant
            0 < n == sorted@.len() <= CURVE_MAX_SAMPLES,
            sorted@ == sort_spec(samples@),
            is_sorted(sorted@),
            weights_wf(sorted@, focus, a, b),
            a == sorted@[0],
            b == sorted@[sorted@.len() - 1],
            a < b,
            0 <= i <= n,
            cum as int == sum_prefix(sorted@, i as int, focus, a, b),
            cum <= i * WEIGHT_MAX,
            xs@.len() == cums@.len(),
            forall|p: int, q: int| 0 <= p < q < xs@.len() ==> xs@[p] < xs@[q],
            forall|p: int| 0 <= p < xs@.len()
                ==> -CURVE_MAX_X <= #[trigger] xs@[p] <= CURVE_MAX_X,
            forall|p: int| 0 <= p < cums@.len()
                ==> cums@[p] as int == cum_weight_le(sorted@, xs@[p], focus, a, b),
            forall|p: int| 0 <= p < cums@.len() ==> cums@[p] <= cum,
            forall|v: i64| #[trigger] xs@.contains(v)
                <==> (sorted@.contains(v) && (i == n || v < sorted@[i as int])),
            i < n && xs@.len() > 0 ==> xs@[xs@.len() - 1] < sorted@[i as int],
            i == n && xs@.len() > 0 ==> xs@[xs@.len() - 1] == b,
            i == n ==> xs@.len() > 0,
            focus matches Some(f) ==> a <= f <= b,
        decreases n - i,
    {
        let x = sorted[i];
        let w = weight_of(x, &focus, a, b);
        cum = cum + w;
        let is_boundary = i + 1 == n || sorted[i + 1] != x;
        if is_boundary {
            proof {
                assert forall|j: int| 0 <= j < i + 1 implies #[trigger] sorted@[j] <= x by {
                    assert(sorted@[j] <= sorted@[i as int]);
                }
                assert forall|j: int| i + 1 <= j < sorted@.len()
                    implies #[trigger] sorted@[j] > x by {
                    if i + 1 < n {
                        assert(sorted@[i as int + 1] <= sorted@[j]);
                        assert(sorted@[i as int] <= sorted@[i as int + 1]);
                        assert(sorted@[i as int + 1] != x);
                    }
                }
                lemma_cum_is_prefix(sorted@, x, i as int + 1, focus, a, b);
            }
            let ghost xs_pre = xs@;
            xs.push(x);
            cums.push(cum);
            proof {
                assert forall|v: i64| #[trigger] xs@.contains(v)
                    implies (sorted@.contains(v)
                        && (i + 1 == n || v < sorted@[i as int + 1])) by {
                    if xs_pre.contains(v) {
                        assert(v < sorted@[i as int]);
                    } else {
                        let k = choose|k: int| 0 <= k < xs@.len() && xs@[k] == v;
                        assert(k == xs@.len() - 1);
                        assert(v == x);
                        assert(sorted@.contains(x));
                    }
                }
                assert forall|v: i64| (sorted@.contains(v)
                        && (i + 1 == n || v < sorted@[i as int + 1]))
                    implies #[trigger] xs@.contains(v) by {
                    if v == x {
                        assert(xs@[xs@.len() - 1] == x);
                    } else if v < sorted@[i as int] {
                        assert(xs_pre.contains(v));
                        let k = choose|k: int| 0 <= k < xs_pre.len() && xs_pre[k] == v;
                        assert(xs@[k] == v);
                    } else {
                        // v > x is impossible below the next distinct value
                        let k = choose|k: int| 0 <= k < sorted@.len() && sorted@[k] == v;
                        if i + 1 < n {
                            if k >= i + 1 {
                                assert(sorted@[i as int + 1] <= sorted@[k]);
                            } else {
                                assert(sorted@[k] <= sorted@[i as int]);
                            }
                        } else {
                            assert(sorted@[k] <= sorted@[n - 1]);
                            assert(sorted@[i as int] == sorted@[n - 1]);
                        }
                    }
                }
            }
        } else {
            proof {
                assert(sorted@[i as int + 1] == x);
                assert forall|v: i64| #[trigger] xs@.contains(v)
                    implies (sorted@.contains(v) && v < sorted@[i as int + 1]) by {}
                assert forall|v: i64| (sorted@.contains(v) && v < sorted@[i as int + 1])
                    implies #[trigger] xs@.contains(v) by {}
            }
        }
        i = i + 1;
    }
    let total = cum;
    if total == 0 {
        proof {
            assert forall|j: int| 0 <= j < sorted@.len()
                implies #[trigger] sorted@[j] <= b by {
                assert(sorted@[j] <= sorted@[sorted@.len() - 1]);
            }
            lemma_cum_is_prefix(sorted@, b, n as int, focus, a, b);
        }
        return None;
    }
    proof {
        assert forall|j: int| 0 <= j < sorted@.len() implies #[trigger] sorted@[j] <= b by {
            assert(sorted@[j] <= sorted@[sorted@.len() - 1]);
        }
        lemma_cum_is_prefix(sorted@, b, n as int, focus, a, b);
        // The first and last distinct values are in the point list.
        assert(xs@.contains(a));
        assert(xs@.contains(b));
        assert(xs@[xs@.len() - 1] == b);
        let k0 = choose|k: int| 0 <= k < xs@.len() && xs@[k] == a;
        assert forall|k: int| 0 < k < xs@.len() implies xs@[k] > a by {
            assert(xs@[0] < xs@[k] || k == 0);
            assert(xs@.contains(xs@[0]));
            assert(sorted@.contains(xs@[0]));
            let m = choose|m: int| 0 <= m < sorted@.len() && sorted@[m] == xs@[0];
            assert(sorted@[0] <= sorted@[m]);
        }
        assert(xs@[0] == a);
        assert(xs@.len() >= 2);
    }
    let ghost cums_pre = cums@;
    cums.set(0, 0);
    let den = match focus {
        None => 1i64,
        Some(f) => {
            let left: i64 = if f - a > 0 { f - a } else { 1 };
            let right: i64 = if b - f > 0 { b - f } else { 1 };
            proof {
                assert(left * right <= 200_000 * 200_000 && left * right >= 1)
                    by (nonlinear_arith)
                    requires 0 < left <= 200_000 && 0 < right <= 200_000;
            }
            left * right
        },
    };
    let curve = Curve { xs, cums, total };
    proof {
        assert(curve.cums@[0] == 0);
        assert forall|p: int, q: int| 0 <= p <= q < curve.cums@.len()
            implies curve.cums@[p] <= curve.cums@[q] by {
            if p > 0 {
                assert(cums_pre[p] as int == cum_weight_le(sorted@, curve.xs@[p], focus, a, b));
                assert(cums_pre[q] as int == cum_weight_le(sorted@, curve.xs@[q], focus, a, b));
                if p < q {
                    assert(curve.xs@[p] < curve.xs@[q]);
                }
                lemma_cum_monotone(sorted@, curve.xs@[p], curve.xs@[q], focus, a, b);
            }
        }
        assert(curve.cums@[curve.cums@.len() - 1] == total);
        assert(total <= CURVE_MAX_TOTAL) by {
            assert(cum <= n * WEIGHT_MAX);
        }
        assert(curve.wf());
        assert(curve.xs@ == distinct_of(sorted@)) by {
            lemma_distinct_char(sorted@);
            assert forall|v: i64| curve.xs@.contains(v)
                implies #[trigger] distinct_of(sorted@).contains(v) by {
                assert(sorted@.contains(v));
            }
            assert forall|v: i64| #[trigger] distinct_of(sorted@).contains(v)
                implies curve.xs@.contains(v) by {
                assert(sorted@.contains(v));
            }
            lemma_strict_sorted_unique(curve.xs@, distinct_of(sorted@));
        }
        if focus is None {
            lemma_cum_none_count(sorted@, b, a, b);
            assert(total == sorted@.len());
        }
        if focus is None {
            // Even weights: every point carries at least one fresh sample.
            assert forall|p: int, q: int| 0 <= p < q < curve.cums@.len()
                implies curve.cums@[p] < curve.cums@[q] by {
                assert(curve.xs@.contains(curve.xs@[q]));
                assert(sorted@.contains(curve.xs@[q]));
                if p == 0 {
                    lemma_cum_strict(sorted@, (curve.xs@[0] - 1) as i64, curve.xs@[q],
                        curve.xs@[q], a, b);
                    lemma_cum_mono_none(sorted@, (curve.xs@[0] - 1) as i64,
                        (curve.xs@[0] - 1) as i64, a, b);
                } else {
                    assert(curve.xs@[p] < curve.xs@[q]);
                    lemma_cum_strict(sorted@, curve.xs@[p], curve.xs@[q], curve.xs@[q],
                        a, b);
                }
            }
        }
    }
    Some((curve, Frac { num: total as i128, den: den as i128 }))
}


/// The segment index for `x`: the first `j` (capped at the second-to-last
/// point) with `x` below the next point.
pub open spec fn spec_seg(xs: Seq<i64>, x: i64, j: int) -> int
    decreases xs.len() - j,
{
    if j >= xs.len() - 2 {
        xs.len() - 2
    } else if x < xs[j + 1] {
        j
    } else {
        spec_seg(xs, x, j + 1)
    }
}

/// What the segment index promises for an interior `x`.
proof fn lemma_spec_seg(xs: Seq<i64>, x: i64, j: int)
    requires
        xs.len() >= 2,
        0 <= j <= xs.len() - 2,
        forall|m: int| 0 <= m < j ==> #[trigger] xs[m + 1] <= x,
    ensures
        ({
            let s = spec_seg(xs, x, j);
            &&& j <= s <= xs.len() - 2
            &&& forall|m: int| 0 <= m < s ==> #[trigger] xs[m + 1] <= x
            &&& s < xs.len() - 2 ==> x < xs[s + 1]
        }),
    decreases xs.len() - j,
{
    if j < xs.len() - 2 && x >= xs[j + 1] {
        lemma_spec_seg(xs, x, j + 1);
    }
}

/// The y value of the curve at `x`: 0 left of the curve, 1 right of it,
/// the stored value at a sample point, and the linear interpolation in
/// between, all as exact rationals.
pub open spec fn spec_y_at_x(c: Curve, x: i64) -> Frac {
    if x <= c.xs@[0] {
        Frac { num: 0, den: 1 }
    } else if x >= c.xs@[c.xs@.len() - 1] {
        Frac { num: 1, den: 1 }
    } else {
        let j = spec_seg(c.xs@, x, 0);
        if x == c.xs@[j] {
            Frac { num: c.cums@[j] as i128, den: c.total as i128 }
        } else {
            let dx = c.xs@[j + 1] - c.xs@[j];
            Frac {
                num: (c.cums@[j] * dx + (c.cums@[j + 1] - c.cums@[j]) * (x - c.xs@[j])) as i128,
                den: (c.total * dx) as i128,
            }
        }
    }
}

impl Curve {
    /// The share of weight at or before `x`, by linear interpolation.
    pub fn y_at_x(&self, x: i64) -> (r: Frac)
        requires
            self.wf(),
        ensures
            r == spec_y_at_x(*self, x),
            r.wf(),
            0 <= r.num <= r.den,
    {
        let len = self.xs.len();
        if x <= self.xs[0] {
            return Frac { num: 0, den: 1 };
        }
        if x >= self.xs[len - 1] {
            return Frac { num: 1, den: 1 };
        }
        let mut j: usize = 0;
        while j < len - 2 && x >= self.xs[j + 1]
            invariant
                self.wf(),
                len == self.xs@.len(),
                0 <= j <= len - 2,
                forall|m: int| 0 <= m < j ==> #[trigger] self.xs@[m + 1] <= x,
                spec_seg(self.xs@, x, 0) == spec_seg(self.xs@, x, j as int),
            decreases len - j,
        {
            j = j + 1;
        }
        proof {
            assert(spec_seg(self.xs@, x, j as int) == j as int);
            assert(self.xs@[j as int] <= x) by {
                if j > 0 {
                    assert(self.xs@[(j - 1) as int + 1] <= x);
                } else {
                    assert(self.xs@[0] < x);
                }
            }
            assert(x < self.xs@[j as int + 1]) by {
                if j == len - 2 {
                    assert(x < self.xs@[len - 1]);
                }
            }
        }
        if x == self.xs[j] {
            return Frac { num: self.cums[j] as i128, den: self.total as i128 };
        }
        let dx: i64 = self.xs[j + 1] - self.xs[j];
        let cj: u64 = self.cums[j];
        let cj1: u64 = self.cums[j + 1];
        proof {
            assert(cj as i128 * dx as i128 <= 4_000_000_000_000_000i128 * 200_000
                && cj as i128 * dx as i128 >= 0) by (nonlinear_arith)
                requires 0 <= cj <= 4_000_000_000_000_000u64 && 0 < dx <= 200_000;
            assert((cj1 - cj) as i128 * (x - self.xs@[j as int]) as i128
                <= 4_000_000_000_000_000i128 * 200_000
                && (cj1 - cj) as i128 * (x - self.xs@[j as int]) as i128 >= 0)
                by (nonlinear_arith)
                requires 0 <= (cj1 - cj) as i128 <= 4_000_000_000_000_000i128
                    && 0 < (x - self.xs@[j as int]) as i128 <= 200_000;
            assert(self.total as i128 * dx as i128 <= 4_000_000_000_000_000i128 * 200_000
                && self.total as i128 * dx as i128 > 0) by (nonlinear_arith)
                requires 0 < self.total <= 4_000_000_000_000_000u64 && 0 < dx <= 200_000;
        }
        let num: i128 = (cj as i128) * (dx as i128)
            + ((cj1 - cj) as i128) * ((x - self.xs[j]) as i128);
        let den: i128 = (self.total as i128) * (dx as i128);
        proof {
            assert(num <= den) by (nonlinear_arith)
                requires
                    num == cj as i128 * dx as i128
                        + (cj1 - cj) as i128 * (x - self.xs@[j as int]) as i128,
                    den == self.total as i128 * dx as i128,
                    0 <= cj <= cj1 <= self.total,
                    0 < (x - self.xs@[j as int]) as i128 <= dx as i128,
                    0 < dx;
        }
        Frac { num, den }
    }
}

/// The quantile segment for `q`: the first `j` (capped) whose next point
/// reaches the probability `q`.
pub open spec fn spec_yseg(c: Curve, q: Frac, j: int) -> int
    decreases c.cums@.len() - j,
{
    if j >= c.cums@.len() - 2 {
        c.cums@.len() - 2
    } else if q.num * (c.total as i128) <= (c.cums@[j + 1] as i128) * q.den {
        j
    } else {
        spec_yseg(c, q, j + 1)
    }
}

/// What the quantile segment promises.
proof fn lemma_spec_yseg(c: Curve, q: Frac, j: int)
    requires
        c.wf(),
        0 <= j <= c.cums@.len() - 2,
        forall|m: int| 0 <= m < j
            ==> q.num * (c.total as i128) > ((#[trigger] c.cums@[m + 1]) as i128) * q.den,
    ensures
        ({
            let s = spec_yseg(c, q, j);
            &&& j <= s <= c.cums@.len() - 2
            &&& forall|m: int| 0 <= m < s
                ==> q.num * (c.total as i128) > ((#[trigger] c.cums@[m + 1]) as i128) * q.den
            &&& s < c.cums@.len() - 2
                ==> q.num * (c.total as i128) <= (c.cums@[s + 1] as i128) * q.den
        }),
    decreases c.cums@.len() - j,
{
    if j < c.cums@.len() - 2 && q.num * (c.total as i128) > (c.cums@[j + 1] as i128) * q.den {
        lemma_spec_yseg(c, q, j + 1);
    }
}

/// The x value at which the curve reaches probability `q`: the first
/// sample for nothing, the interpolated crossing otherwise, as an exact
/// rational.
pub open spec fn spec_x_at_y(c: Curve, q: Frac) -> Frac {
    if q.num <= 0 {
        Frac { num: c.xs@[0] as i128, den: 1 }
    } else {
        let j = spec_yseg(c, q, 0);
        let dx = (c.xs@[j + 1] - c.xs@[j]) as i128;
        let dc = (c.cums@[j + 1] - c.cums@[j]) as i128;
        let den = (q.den * dc) as i128;
        Frac {
            num: ((c.xs@[j] as i128) * den
                + dx * (q.num * (c.total as i128) - (c.cums@[j] as i128) * q.den)) as i128,
            den: den,
        }
    }
}

impl Curve {
    /// The x value at which the curve reaches probability `q`.
    pub fn x_at_y(&self, q: Frac) -> (r: Frac)
        requires
            self.wf(),
            q.wf(),
            0 <= q.num <= q.den,
            q.den <= FRAC_MAX_DEN,
        ensures
            r == spec_x_at_y(*self, q),
            r.wf(),
    {
        let len = self.cums.len();
        if q.num <= 0 {
            return Frac { num: self.xs[0] as i128, den: 1 };
        }
        let mut j: usize = 0;
        proof {
            assert(q.num * (self.total as i128) <= q.den * (self.total as i128))
                by (nonlinear_arith)
                requires 0 <= q.num <= q.den && 0 < self.total as i128;
            assert(q.den * (self.total as i128)
                == (self.cums@[len - 1] as i128) * q.den) by (nonlinear_arith)
                requires self.cums@[len - 1] == self.total;
        }
        while j < len - 2 && quantile_beyond(&q, self.total, self.cums[j + 1])
            invariant
                self.wf(),
                q.wf(),
                0 < q.num <= q.den,
                q.den <= FRAC_MAX_DEN,
                len == self.cums@.len(),
                0 <= j <= len - 2,
                forall|m: int| 0 <= m < j
                    ==> q.num * (self.total as i128)
                        > ((#[trigger] c_cums(self)[m + 1]) as i128) * q.den,
                spec_yseg(*self, q, 0) == spec_yseg(*self, q, j as int),
            decreases len - j,
        {
            j = j + 1;
        }
        proof {
            assert(spec_yseg(*self, q, j as int) == j as int) by {
                if j < len - 2 {
                } else {
                }
            }
            // The crossing segment rises strictly: below it the curve is
            // still short of q, at its top it reaches q.
            assert(q.num * (self.total as i128) <= (self.cums@[j as int + 1] as i128) * q.den)
                by {
                if j == len - 2 {
                    assert(q.num * (self.total as i128) <= q.den * (self.total as i128))
                        by (nonlinear_arith)
                        requires 0 <= q.num <= q.den && 0 < self.total as i128;
                }
            }
            assert((self.cums@[j as int] as i128) * q.den < q.num * (self.total as i128)) by {
                if j > 0 {
                    assert(q.num * (self.total as i128)
                        > ((c_cums(self)[(j - 1) as int + 1]) as i128) * q.den);
                    assert(c_cums(self)[(j - 1) as int + 1] == self.cums@[j as int]);
                } else {
                    assert(self.cums@[0] == 0);
                    assert(q.num * (self.total as i128) > 0) by (nonlinear_arith)
                        requires 0 < q.num && 0 < self.total as i128;
                    assert((self.cums@[0] as i128) * q.den == 0) by (nonlinear_arith)
                        requires self.cums@[0] == 0;
                }
            }
            assert(self.cums@[j as int] < self.cums@[j as int + 1]) by {
                assert((self.cums@[j as int] as i128) * q.den
                    < (self.cums@[j as int + 1] as i128) * q.den);
                assert((self.cums@[j as int] as i128) < (self.cums@[j as int + 1] as i128))
                    by (nonlinear_arith)
                    requires (self.cums@[j as int] as i128) * q.den
                        < (self.cums@[j as int + 1] as i128) * q.den && 0 < q.den;
            }
        }
        let dx: i128 = (self.xs[j + 1] - self.xs[j]) as i128;
        let dc: i128 = (self.cums[j + 1] - self.cums[j]) as i128;
        proof {
            assert(q.den * dc <= 10_000_000_000_000_000i128 * 4_000_000_000_000_000i128
                && q.den * dc > 0) by (nonlinear_arith)
                requires 0 < q.den <= 10_000_000_000_000_000i128
                    && 0 < dc <= 4_000_000_000_000_000i128;
        }
        let den: i128 = q.den * dc;
        proof {
            let t = self.total as i128;
            let xj = self.xs@[j as int] as i128;
            let cj = self.cums@[j as int] as i128;
            assert(xj * den <= 100_000i128 * (10_000_000_000_000_000i128
                * 4_000_000_000_000_000i128) && xj * den
                >= -100_000i128 * (10_000_000_000_000_000i128 * 4_000_000_000_000_000i128))
                by (nonlinear_arith)
                requires -100_000 <= xj <= 100_000
                    && 0 < den <= 10_000_000_000_000_000i128 * 4_000_000_000_000_000i128;
            assert(0 <= q.num * t <= 10_000_000_000_000_000i128 * 4_000_000_000_000_000i128)
                by (nonlinear_arith)
                requires 0 <= q.num <= 10_000_000_000_000_000i128
                    && 0 < t <= 4_000_000_000_000_000i128;
            assert(0 <= cj * q.den <= 4_000_000_000_000_000i128 * 10_000_000_000_000_000i128)
                by (nonlinear_arith)
                requires 0 <= cj <= 4_000_000_000_000_000i128
                    && 0 < q.den <= 10_000_000_000_000_000i128;
            assert(dx * (q.num * t - cj * q.den) <= 200_000i128
                * (10_000_000_000_000_000i128 * 4_000_000_000_000_000i128)
                && dx * (q.num * t - cj * q.den) >= -200_000i128
                * (10_000_000_000_000_000i128 * 4_000_000_000_000_000i128))
                by (nonlinear_arith)
                requires 0 < dx <= 200_000i128
                    && -40_000_000_000_000_000_000_000_000_000_000i128
                        <= q.num * t - cj * q.den
                        <= 40_000_000_000_000_000_000_000_000_000_000i128;
        }
        let num: i128 = (self.xs[j] as i128) * den
            + dx * (q.num * (self.total as i128) - (self.cums[j] as i128) * q.den);
        Frac { num, den }
    }
}


/// Whether probability `q` lies strictly beyond the share `cum`/`total`.
fn quantile_beyond(q: &Frac, total: u64, cum: u64) -> (r: bool)
    requires
        0 <= q.num <= q.den,
        0 < q.den <= FRAC_MAX_DEN,
        0 < total <= CURVE_MAX_TOTAL,
        cum <= CURVE_MAX_TOTAL,
    ensures
        r == (q.num * (total as i128) > (cum as i128) * q.den),
{
    proof {
        assert(q.num * (total as i128)
            <= 10_000_000_000_000_000i128 * 4_000_000_000_000_000i128
            && q.num * (total as i128) >= 0) by (nonlinear_arith)
            requires 0 <= q.num <= 10_000_000_000_000_000i128
                && 0 < total <= 4_000_000_000_000_000u64;
        assert((cum as i128) * q.den
            <= 4_000_000_000_000_000i128 * 10_000_000_000_000_000i128
            && (cum as i128) * q.den >= 0) by (nonlinear_arith)
            requires 0 <= cum <= 4_000_000_000_000_000u64
                && 0 < q.den <= 10_000_000_000_000_000i128;
    }
    q.num * (total as i128) > (cum as i128) * q.den
}

/// View helper naming the cumulative weights of a curve.
pub open spec fn c_cums(c: &Curve) -> Seq<u64> {
    c.cums@
}


/// The y value stored at point `i` of the curve.
pub open spec fn point_y(c: Curve, i: int) -> Frac {
    Frac { num: c.cums@[i] as i128, den: c.total as i128 }
}

/// A well-formed curve is a cumulative distribution: its y values never
/// fall, the first is exactly 0 and the last exactly 1.
pub proof fn lemma_curve_cdf_bounds(c: Curve)
    requires
        c.wf(),
    ensures
        forall|i: int, j: int| 0 <= i <= j < c.cums@.len()
            ==> frac_le(#[trigger] point_y(c, i), #[trigger] point_y(c, j)),
        frac_eq(point_y(c, 0), Frac { num: 0, den: 1 }),
        frac_eq(point_y(c, c.cums@.len() - 1), Frac { num: 1, den: 1 }),
{
    assert forall|i: int, j: int| 0 <= i <= j < c.cums@.len()
        implies frac_le(#[trigger] point_y(c, i), #[trigger] point_y(c, j)) by {
        assert((c.cums@[i] as i128) * (c.total as i128)
            <= (c.cums@[j] as i128) * (c.total as i128)) by (nonlinear_arith)
            requires (c.cums@[i] as i128) <= (c.cums@[j] as i128) && 0 <= c.total as i128;
    }
    assert(point_y(c, 0).num * 1 == 0 * point_y(c, 0).den) by (nonlinear_arith)
        requires point_y(c, 0).num == 0;
    assert(point_y(c, c.cums@.len() - 1).num * 1 == 1 * point_y(c, c.cums@.len() - 1).den)
        by (nonlinear_arith)
        requires point_y(c, c.cums@.len() - 1).num == point_y(c, c.cums@.len() - 1).den;
}

/// Strictly rising cumulative weights: every point carries fresh weight.
pub open spec fn strictly_rising(c: Curve) -> bool {
    forall|i: int, j: int| 0 <= i < j < c.cums@.len()
        ==> c.cums@[i] < c.cums@[j]
}

/// Reading the probability at a sample and asking the curve where it
/// reaches that probability leads back to the sample, wherever every
/// point carries fresh weight.
pub proof fn lemma_quantile_round_trip(c: Curve, i: int)
    requires
        c.wf(),
        strictly_rising(c),
        0 <= i < c.xs@.len(),
    ensures
        frac_eq(
            spec_x_at_y(c, spec_y_at_x(c, c.xs@[i])),
            Frac { num: c.xs@[i] as i128, den: 1 },
        ),
{
    let x = c.xs@[i];
    let len = c.xs@.len();
    let t = c.total as i128;
    if i == 0 {
        assert(spec_y_at_x(c, x) == Frac { num: 0 as i128, den: 1 as i128 });
    } else if i == len - 1 {
        assert(c.xs@[0] < x);
        let q = Frac { num: 1 as i128, den: 1 as i128 };
        assert(spec_y_at_x(c, x) == q);
        lemma_spec_yseg(c, q, 0);
        let s = spec_yseg(c, q, 0);
        assert(s == len - 2) by {
            if s < len - 2 {
                assert(q.num * t <= ((#[trigger] c.cums@[s + 1]) as i128) * q.den);
                assert(((c.cums@[s + 1]) as i128) * q.den == (c.cums@[s + 1]) as i128)
                    by (nonlinear_arith)
                    requires q.den == 1;
                assert(q.num * t == t) by (nonlinear_arith)
                    requires q.num == 1;
                assert(t <= (c.cums@[s + 1]) as i128);
                assert(c.cums@[s + 1] < c.cums@[len - 1]);
                assert((c.cums@[s + 1] as i128) < t);
                assert(false);
            }
        }
        let dx = (c.xs@[s + 1] - c.xs@[s]) as i128;
        let dc = (c.cums@[s + 1] - c.cums@[s]) as i128;
        let den = q.den * dc;
        let num = (c.xs@[s] as i128) * den + dx * (q.num * t - (c.cums@[s] as i128) * q.den);
        assert(0 < den <= 4_000_000_000_000_000
            && -10_000_000_000_000_000_000_000_000_000_000_000_000
                <= num <= 10_000_000_000_000_000_000_000_000_000_000_000_000)
            by (nonlinear_arith)
            requires
                den == 1 as i128 * dc,
                num == (c.xs@[s] as i128) * den + dx * (1 as i128 * t
                    - (c.cums@[s] as i128) * 1),
                0 < dc <= 4_000_000_000_000_000,
                0 < dx <= 200_000,
                -100_000 <= c.xs@[s] as i128 <= 100_000,
                0 <= c.cums@[s] as i128 <= t,
                0 < t <= 4_000_000_000_000_000;
        assert(num == den * (x as i128) && den > 0) by (nonlinear_arith)
            requires
                den == 1 as i128 * dc,
                num == (c.xs@[s] as i128) * den + dx * (1 as i128 * t
                    - (c.cums@[s] as i128) * 1),
                t - (c.cums@[s] as i128) == dc,
                (c.xs@[s] as i128) + dx == x as i128,
                dc > 0,
                c.cums@[s + 1] as i128 == t;
        assert(spec_x_at_y(c, q) == Frac { num: num as i128, den: den as i128 });
        assert(num * 1 == (x as i128) * den) by (nonlinear_arith)
            requires num == den * (x as i128);
    } else {
        // Interior sample: the y lookup lands on the stored point.
        assert(c.xs@[0] < x && x < c.xs@[len - 1]);
        lemma_spec_seg(c.xs@, x, 0);
        let s = spec_seg(c.xs@, x, 0);
        assert(s == i) by {
            if s < i {
                assert(s < len - 2);
                assert(x < c.xs@[s + 1]);
                if s + 1 < i {
                    assert(c.xs@[s + 1] < c.xs@[i]);
                }
                assert(false);
            } else if s > i {
                assert(#[trigger] c.xs@[i + 1] <= x);
                assert(c.xs@[i] < c.xs@[i + 1]);
                assert(false);
            }
        }
        let q = Frac { num: c.cums@[i] as i128, den: t };
        assert(spec_y_at_x(c, x) == q);
        assert(q.num > 0) by {
            assert(c.cums@[0] < c.cums@[i]);
        }
        lemma_spec_yseg(c, q, 0);
        let s2 = spec_yseg(c, q, 0);
        assert(s2 == i - 1) by {
            if s2 < i - 1 {
                assert(s2 < len - 2);
                assert(q.num * t <= ((#[trigger] c.cums@[s2 + 1]) as i128) * q.den);
                assert(c.cums@[s2 + 1] < c.cums@[i]);
                assert((c.cums@[s2 + 1] as i128) * t < (c.cums@[i] as i128) * t)
                    by (nonlinear_arith)
                    requires (c.cums@[s2 + 1] as i128) < (c.cums@[i] as i128) && t > 0;
            } else if s2 > i - 1 {
                assert(q.num * t > ((#[trigger] c.cums@[(i - 1) + 1]) as i128) * q.den);
            }
        }
        let dx = (c.xs@[s2 + 1] - c.xs@[s2]) as i128;
        let dc = (c.cums@[s2 + 1] - c.cums@[s2]) as i128;
        let den = q.den * dc;
        let num = (c.xs@[s2] as i128) * den + dx * (q.num * t - (c.cums@[s2] as i128) * q.den);
        assert(0 < den <= 16_000_000_000_000_000_000_000_000_000_000
            && -10_000_000_000_000_000_000_000_000_000_000_000_000
                <= num <= 10_000_000_000_000_000_000_000_000_000_000_000_000)
            by (nonlinear_arith)
            requires
                den == t * dc,
                num == (c.xs@[s2] as i128) * den + dx * ((c.cums@[i] as i128) * t
                    - (c.cums@[s2] as i128) * t),
                0 < dc <= 4_000_000_000_000_000,
                0 < dx <= 200_000,
                -100_000 <= c.xs@[s2] as i128 <= 100_000,
                0 <= c.cums@[s2] as i128 <= t,
                0 <= c.cums@[i] as i128 <= t,
                q.den == t,
                q.num == c.cums@[i] as i128,
                0 < t <= 4_000_000_000_000_000;
        assert(num == den * (x as i128) && den > 0) by (nonlinear_arith)
            requires
                den == t * dc,
                num == (c.xs@[s2] as i128) * den + dx * ((c.cums@[i] as i128) * t
                    - (c.cums@[s2] as i128) * t),
                (c.cums@[i] as i128) - (c.cums@[s2] as i128) == dc,
                (c.xs@[s2] as i128) + dx == x as i128,
                dc > 0,
                t > 0,
                q.num == c.cums@[i] as i128,
                q.den == t;
        assert(spec_x_at_y(c, q) == Frac { num: num as i128, den: den as i128 });
        assert(num * 1 == (x as i128) * den) by (nonlinear_arith)
            requires num == den * (x as i128);
    }
}



/// First index at or after `i` whose value reaches `x`; the length when
/// none does.
pub open spec fn spec_lower_bound(s: Seq<i64>, x: i64, i: int) -> int
    decreases s.len() - i,
{
    if i < 0 || i >= s.len() {
        s.len() as int
    } else if s[i] >= x {
        i
    } else {
        spec_lower_bound(s, x, i + 1)
    }
}

/// First index at or after `i` whose value exceeds `x`; the length when
/// none does.
pub open spec fn spec_upper_bound(s: Seq<i64>, x: i64, i: int) -> int
    decreases s.len() - i,
{
    if i < 0 || i >= s.len() {
        s.len() as int
    } else if s[i] > x {
        i
    } else {
        spec_upper_bound(s, x, i + 1)
    }
}

/// A first index that splits below-`x` from at-least-`x` pins
/// `spec_lower_bound` down.
proof fn lemma_lower_bound_converse(s: Seq<i64>, x: i64, r: int)
    requires
        0 <= r <= s.len(),
        forall|i: int| 0 <= i < r ==> #[trigger] s[i] < x,
        forall|i: int| r <= i < s.len() ==> #[trigger] s[i] >= x,
    ensures
        spec_lower_bound(s, x, 0) == r,
{
    lemma_lower_bound_char(s, x, 0);
    let v = spec_lower_bound(s, x, 0);
    if v < r {
        assert(s[v] < x);
    } else if r < v {
        assert(s[r] >= x);
    }
}

/// What `spec_lower_bound` promises.
proof fn lemma_lower_bound_char(s: Seq<i64>, x: i64, i: int)
    requires
        0 <= i <= s.len(),
    ensures
        ({
            let v = spec_lower_bound(s, x, i);
            &&& i <= v <= s.len()
            &&& forall|m: int| i <= m < v ==> #[trigger] s[m] < x
            &&& v < s.len() ==> s[v] >= x
        }),
    decreases s.len() - i,
{
    if i < s.len() && s[i] < x {
        lemma_lower_bound_char(s, x, i + 1);
    }
}

/// A first index that splits at-most-`x` from beyond pins
/// `spec_upper_bound` down.
proof fn lemma_upper_bound_converse(s: Seq<i64>, x: i64, r: int)
    requires
        0 <= r <= s.len(),
        forall|i: int| 0 <= i < r ==> #[trigger] s[i] <= x,
        forall|i: int| r <= i < s.len() ==> #[trigger] s[i] > x,
    ensures
        spec_upper_bound(s, x, 0) == r,
{
    lemma_upper_bound_char(s, x, 0);
    let v = spec_upper_bound(s, x, 0);
    if v < r {
        assert(s[v] <= x);
    } else if r < v {
        assert(s[r] > x);
    }
}

/// What `spec_upper_bound` promises.
proof fn lemma_upper_bound_char(s: Seq<i64>, x: i64, i: int)
    requires
        0 <= i <= s.len(),
    ensures
        ({
            let v = spec_upper_bound(s, x, i);
            &&& i <= v <= s.len()
            &&& forall|m: int| i <= m < v ==> #[trigger] s[m] <= x
            &&& v < s.len() ==> s[v] > x
        }),
    decreases s.len() - i,
{
    if i < s.len() && s[i] <= x {
        lemma_upper_bound_char(s, x, i + 1);
    }
}

/// The interior markers the recursion places between `lower` and `upper`:
/// nothing when fewer than 40 samples or no feasible midpoint window
/// remain, otherwise the midpoint of the feasible window with the
/// recursion's left and right yields around it.
pub open spec fn spec_recurse_markers(s: Seq<i64>, lower: int, upper: int) -> Seq<i64>
    decreases upper - lower when lower <= upper
    via spec_recurse_markers_dec
{
    let lo = spec_lower_bound(s, lower as i64, 0);
    let hi = spec_upper_bound(s, upper as i64, 0);
    if hi < 40 || hi - 40 < lo {
        Seq::empty()
    } else {
        let xmin_c = s[lo + 19] as int;
        let xmax_c = s[hi - 20] as int;
        let min_x = if lower + 20 >= xmin_c {
            lower + 20
        } else {
            xmin_c
        };
        let max_x = if upper - 20 <= xmax_c {
            upper - 20
        } else {
            xmax_c
        };
        if min_x > max_x {
            Seq::empty()
        } else {
            let mid = min_x + (max_x - min_x) / 2;
            spec_recurse_markers(s, lower, mid) + seq![mid as i64]
                + spec_recurse_markers(s, mid, upper)
        }
    }
}

#[via_fn]
proof fn spec_recurse_markers_dec(s: Seq<i64>, lower: int, upper: int) {
    let lo = spec_lower_bound(s, lower as i64, 0);
    let hi = spec_upper_bound(s, upper as i64, 0);
    if !(hi < 40 || hi - 40 < lo) {
        let xmin_c = s[lo + 19] as int;
        let xmax_c = s[hi - 20] as int;
        let min_x = if lower + 20 >= xmin_c {
            lower + 20
        } else {
            xmin_c
        };
        let max_x = if upper - 20 <= xmax_c {
            upper - 20
        } else {
            xmax_c
        };
        if min_x <= max_x {
            assert(0 <= (max_x - min_x) / 2 <= max_x - min_x) by {
                vstd::arithmetic::div_mod::lemma_div_pos_is_pos(max_x - min_x, 2);
                vstd::arithmetic::div_mod::lemma_div_nonincreasing(max_x - min_x, 2);
            }
        }
    }
}

/// How many samples lie in the closed band `[a, b]`.
pub open spec fn count_in_range(s: Seq<i64>, a: i64, b: i64) -> int
    decreases s.len(),
{
    if s.len() == 0 {
        0
    } else {
        count_in_range(s.drop_last(), a, b) + if a <= s.last() <= b {
            1 as int
        } else {
            0
        }
    }
}

/// A window of indices whose values sit in the band witnesses that many
/// samples in the band.
proof fn lemma_count_window(s: Seq<i64>, a: i64, b: i64, p: int, q: int)
    requires
        0 <= p <= q <= s.len(),
        forall|i: int| p <= i < q ==> a <= #[trigger] s[i] <= b,
    ensures
        count_in_range(s, a, b) >= q - p,
        count_in_range(s, a, b) >= 0,
    decreases s.len(),
{
    if s.len() == 0 {
    } else if q == s.len() {
        if p == q {
            lemma_count_window(s.drop_last(), a, b, 0, 0);
        } else {
            lemma_count_window(s.drop_last(), a, b, p, q - 1);
        }
    } else {
        lemma_count_window(s.drop_last(), a, b, p, q);
    }
}

/// Adjacent markers `a < b` keep 20 seconds and 20 samples between them.
pub open spec fn marker_pair_ok(s: Seq<i64>, a: i64, b: i64) -> bool {
    b - a >= 20 && count_in_range(s, a, b) >= 20
}

/// Every adjacent pair of `lo`, the interior markers and `hi` is sound.
pub open spec fn marker_chain_ok(s: Seq<i64>, lo: i64, ms: Seq<i64>, hi: i64) -> bool {
    ({
        let m2 = seq![lo] + ms + seq![hi];
        forall|k: int| 0 <= k < m2.len() - 1
            ==> marker_pair_ok(s, #[trigger] m2[k], m2[k + 1])
    })
}

/// First index whose value is at least `x`; the length when none is.
fn lower_bound(s: &Vec<i64>, x: i64) -> (r: usize)
    requires
        is_sorted(s@),
    ensures
        r <= s@.len(),
        forall|i: int| 0 <= i < r ==> #[trigger] s@[i] < x,
        forall|i: int| r <= i < s@.len() ==> #[trigger] s@[i] >= x,
{
    let mut i: usize = 0;
    while i < s.len() && s[i] < x
        invariant
            is_sorted(s@),
            0 <= i <= s@.len(),
            forall|j: int| 0 <= j < i ==> #[trigger] s@[j] < x,
        decreases s@.len() - i,
    {
        i = i + 1;
    }
    proof {
        assert forall|j: int| i <= j < s@.len() implies #[trigger] s@[j] >= x by {
            if i < s@.len() {
                assert(s@[i as int] <= s@[j]);
            }
        }
    }
    i
}

/// First index whose value exceeds `x`; the length when none does.
fn upper_bound(s: &Vec<i64>, x: i64) -> (r: usize)
    requires
        is_sorted(s@),
    ensures
        r <= s@.len(),
        forall|i: int| 0 <= i < r ==> #[trigger] s@[i] <= x,
        forall|i: int| r <= i < s@.len() ==> #[trigger] s@[i] > x,
{
    let mut i: usize = 0;
    while i < s.len() && s[i] <= x
        invariant
            is_sorted(s@),
            0 <= i <= s@.len(),
            forall|j: int| 0 <= j < i ==> #[trigger] s@[j] <= x,
        decreases s@.len() - i,
    {
        i = i + 1;
    }
    proof {
        assert forall|j: int| i <= j < s@.len() implies #[trigger] s@[j] > x by {
            if i < s@.len() {
                assert(s@[i as int] <= s@[j]);
            }
        }
    }
    i
}

/// Recursively places markers between `lower` and `upper`: a new marker is
/// set at the midpoint of the feasible window whenever 20 seconds and 20
/// samples of headroom remain on both sides, first to the left, then the
/// marker, then to the right.
#[verifier::rlimit(100)]
#[verifier::spinoff_prover]
fn recurse_markers(s: &Vec<i64>, lower: i64, upper: i64, markers: &mut Vec<i64>)
    requires
        is_sorted(s@),
        -CURVE_MAX_X <= lower <= upper <= CURVE_MAX_X,
    ensures
        final(markers)@.len() >= old(markers)@.len(),
        final(markers)@.subrange(0, old(markers)@.len() as int) == old(markers)@,
        ({
            let added = final(markers)@.skip(old(markers)@.len() as int);
            &&& added == spec_recurse_markers(s@, lower as int, upper as int)
            &&& forall|i: int| 0 <= i < added.len()
                ==> lower + 20 <= #[trigger] added[i] <= upper - 20
            &&& forall|p: int, q: int| 0 <= p < q < added.len() ==> added[p] < added[q]
            &&& added.len() > 0 ==> marker_chain_ok(s@, lower, added, upper)
        }),
    decreases upper - lower,
{
    let ghost pre = markers@;
    let idx_lo = lower_bound(s, lower);
    let idx_hi = upper_bound(s, upper);
    proof {
        lemma_lower_bound_converse(s@, lower, idx_lo as int);
        lemma_upper_bound_converse(s@, upper, idx_hi as int);
    }
    // Fewer than 40 samples between the bounds: no room for a marker.
    if idx_hi < 40 || idx_hi - 40 < idx_lo {
        proof {
            assert(markers@.subrange(0, pre.len() as int) =~= pre);
            assert(markers@.skip(pre.len() as int) =~= Seq::<i64>::empty());
            assert(markers@.skip(pre.len() as int)
                == spec_recurse_markers(s@, lower as int, upper as int));
        }
        return;
    }
    let x_min_count = s[idx_lo + 19];
    let x_max_count = s[idx_hi - 20];
    let min_x = if lower + 20 >= x_min_count {
        lower + 20
    } else {
        x_min_count
    };
    let max_x = if upper - 20 <= x_max_count {
        upper - 20
    } else {
        x_max_count
    };
    if min_x > max_x {
        proof {
            assert(markers@.subrange(0, pre.len() as int) =~= pre);
            assert(markers@.skip(pre.len() as int) =~= Seq::<i64>::empty());
            assert(markers@.skip(pre.len() as int)
                == spec_recurse_markers(s@, lower as int, upper as int));
        }
        return;
    }
    let mid = min_x + (max_x - min_x) / 2;
    proof {
        assert(min_x <= mid <= max_x);
        // Twenty samples fit between lower and mid, and between mid and
        // upper.
        assert forall|i: int| idx_lo <= i < idx_lo + 20
            implies lower <= #[trigger] s@[i] <= mid by {
            assert(s@[i] >= lower);
            assert(s@[i] <= s@[idx_lo + 19]);
        }
        lemma_count_window(s@, lower, mid, idx_lo as int, idx_lo as int + 20);
        assert forall|i: int| idx_hi - 20 <= i < idx_hi
            implies mid <= #[trigger] s@[i] <= upper by {
            assert(s@[i] <= upper);
            assert(s@[idx_hi - 20] <= s@[i]);
        }
        lemma_count_window(s@, mid, upper, idx_hi as int - 20, idx_hi as int);
    }
    recurse_markers(s, lower, mid, markers);
    let ghost left = markers@.skip(pre.len() as int);
    markers.push(mid);
    let ghost upto_mid = markers@;
    recurse_markers(s, mid, upper, markers);
    let ghost right = markers@.skip(upto_mid.len() as int);
    proof {
        let added = markers@.skip(pre.len() as int);
        assert(markers@.subrange(0, upto_mid.len() as int) == upto_mid);
        assert forall|j: int| 0 <= j < upto_mid.len()
            implies markers@[j] == upto_mid[j] by {
            assert(markers@.subrange(0, upto_mid.len() as int)[j] == markers@[j]);
        }
        assert(markers@.subrange(0, pre.len() as int) =~= pre);
        assert(left.len() + 1 + right.len() == added.len());
        assert forall|i: int| 0 <= i < added.len()
            implies added[i] == (left + seq![mid] + right)[i] by {
            assert(added[i] == markers@[pre.len() + i]);
            if i < left.len() {
                assert(markers@[pre.len() + i] == upto_mid[pre.len() + i]);
                assert(upto_mid[pre.len() + i] == left[i]);
            } else if i == left.len() {
                assert(markers@[pre.len() + i] == upto_mid[pre.len() + i]);
                assert(upto_mid[pre.len() + i] == mid);
            } else {
                assert(markers@[pre.len() + i] == right[i - left.len() - 1]);
                assert((left + seq![mid] + right)[i] == right[i - left.len() - 1]);
            }
        }
        assert(added =~= left + seq![mid] + right);
        assert forall|i: int| 0 <= i < added.len()
            implies lower + 20 <= #[trigger] added[i] <= upper - 20 by {
            if i < left.len() {
                assert(added[i] == left[i]);
            } else if i == left.len() {
                assert(added[i] == mid);
            } else {
                assert(added[i] == right[i - left.len() - 1]);
            }
        }
        assert forall|p: int, q: int| 0 <= p < q < added.len()
            implies added[p] < added[q] by {
            if q < left.len() {
            } else if p < left.len() && q == left.len() {
                assert(added[p] <= mid - 20);
            } else if p < left.len() && q > left.len() {
                assert(added[p] <= mid - 20);
                assert(added[q] >= mid + 20);
            } else if p == left.len() && q > left.len() {
                assert(added[q] >= mid + 20);
            }
        }
        assert(added =~= spec_recurse_markers(s@, lower as int, upper as int)) by {
            assert(left == spec_recurse_markers(s@, lower as int, mid as int));
            assert(right == spec_recurse_markers(s@, mid as int, upper as int));
            assert(0 <= (max_x as int - min_x as int) / 2 <= max_x as int - min_x as int)
                by {
                vstd::arithmetic::div_mod::lemma_div_pos_is_pos(
                    max_x as int - min_x as int, 2);
                vstd::arithmetic::div_mod::lemma_div_nonincreasing(
                    max_x as int - min_x as int, 2);
            }
        }
        let m2 = seq![lower] + added + seq![upper];
        assert forall|k: int| 0 <= k < m2.len() - 1
            implies marker_pair_ok(s@, #[trigger] m2[k], m2[k + 1]) by {
            let lm = seq![lower] + left + seq![mid];
            let rm = seq![mid] + right + seq![upper];
            if left.len() == 0 && k == 0 {
                // the pair (lower, mid) itself
                assert(m2[0] == lower && m2[1] == mid);
                assert(count_in_range(s@, lower, mid) >= 20);
            } else if k <= left.len() {
                assert(marker_chain_ok(s@, lower, left, mid));
                assert(m2[k] == lm[k] && m2[k + 1] == lm[k + 1]);
            } else if right.len() == 0 {
                assert(k == left.len() + 1);
                assert(m2[k] == mid && m2[k + 1] == upper);
                assert(count_in_range(s@, mid, upper) >= 20);
            } else {
                assert(marker_chain_ok(s@, mid, right, upper));
                let k2 = k - left.len() - 1;
                assert(m2[k] == rm[k2] && m2[k + 1] == rm[k2 + 1]);
            }
        }
    }
}

/// Places the full marker list over sorted inbound samples: the extremes
/// doubled around the recursively chosen interior markers, so that sliding
/// windows of three consecutive markers cover the whole range. Whenever an
/// interior marker exists, every adjacent pair of distinct markers is at
/// least 20 seconds apart with at least 20 samples between them.
pub fn place_markers(s: &Vec<i64>) -> (markers: Vec<i64>)
    requires
        is_sorted(s@),
        s@.len() > 0,
        forall|i: int| 0 <= i < s@.len() ==> -CURVE_MAX_X <= #[trigger] s@[i] <= CURVE_MAX_X,
    ensures
        ({
            let lo = s@[0];
            let hi = s@[s@.len() - 1];
            let inner = markers@.skip(2).take(markers@.len() - 4);
            &&& markers@ == seq![lo, lo]
                + spec_recurse_markers(s@, lo as int, hi as int) + seq![hi, hi]
            &&& markers@.len() >= 4
            &&& markers@[0] == lo && markers@[1] == lo
            &&& markers@[markers@.len() - 2] == hi && markers@[markers@.len() - 1] == hi
            &&& forall|i: int| 0 <= i < inner.len()
                ==> lo + 20 <= #[trigger] inner[i] <= hi - 20
            &&& forall|p: int, q: int| 0 <= p < q < inner.len() ==> inner[p] < inner[q]
            &&& inner.len() > 0 ==> marker_chain_ok(s@, lo, inner, hi)
        }),
{
    let lo = s[0];
    let hi = s[s.len() - 1];
    proof {
        assert(s@[0] <= s@[s@.len() - 1]);
    }
    let mut markers: Vec<i64> = Vec::new();
    markers.push(lo);
    markers.push(lo);
    proof {
        assert(markers@.len() == 2 && markers@[0] == lo && markers@[1] == lo);
    }
    let ghost base = markers@;
    recurse_markers(s, lo, hi, &mut markers);
    let ghost inner_g = markers@.skip(2);
    proof {
        assert(markers@.subrange(0, base.len() as int) == base);
        assert forall|j: int| 0 <= j < 2 implies markers@[j] == base[j] by {
            assert(markers@.subrange(0, base.len() as int)[j] == markers@[j]);
        }
    }
    let ghost before_caps = markers@;
    markers.push(hi);
    markers.push(hi);
    proof {
        assert(markers@ == before_caps.push(hi).push(hi));
        assert(markers@[0] == before_caps[0]);
        assert(markers@[1] == before_caps[1]);
        assert(before_caps[0] == lo && before_caps[1] == lo);
        assert(markers@.skip(2).take(markers@.len() - 4) =~= inner_g);
        assert(markers@[markers@.len() - 2] == hi && markers@[markers@.len() - 1] == hi);
        assert(markers@ =~= seq![lo, lo]
            + spec_recurse_markers(s@, lo as int, hi as int) + seq![hi, hi]);
    }
    markers
}



/// Whether simplification keeps point `i`, judged against the chord from
/// the last kept point `k` to point `i + 1`: the cross-multiplied gap
/// between the curve's y at `xs[i]` and the chord's reaches `tol`.
pub open spec fn spec_keep_point(
    xs: Seq<i64>,
    cums: Seq<u64>,
    total: u64,
    k: int,
    i: int,
    tol: Frac,
) -> bool {
    let dxw = xs[i + 1] - xs[k];
    let lin = cums[k] * dxw + (cums[i + 1] - cums[k]) * (xs[i] - xs[k]);
    let point = cums[i] * dxw;
    let diff = if point >= lin {
        point - lin
    } else {
        lin - point
    };
    diff * tol.den >= tol.num * (total * dxw)
}

/// The full index list simplification keeps: the first point, then
/// whatever the pass retains.
pub open spec fn spec_simplified_index_list(
    xs: Seq<i64>,
    cums: Seq<u64>,
    total: u64,
    tol: Frac,
) -> Seq<int> {
    seq![0 as int] + spec_simplify_indices(xs, cums, total, 0, 1, tol)
}

/// That the simplified point lists are exactly the original points at the
/// kept indices.
pub open spec fn simplified_matches(
    xs: Seq<i64>,
    cums: Seq<u64>,
    total: u64,
    tol: Frac,
    rxs: Seq<i64>,
    rcums: Seq<u64>,
) -> bool {
    let idx = spec_simplified_index_list(xs, cums, total, tol);
    &&& rxs.len() == idx.len()
    &&& rcums.len() == idx.len()
    &&& forall|j: int| 0 <= j < idx.len() ==> 0 <= #[trigger] idx[j] < xs.len()
    &&& forall|j: int| 0 <= j < idx.len()
        ==> #[trigger] rxs[j] == xs[idx[j]] && rcums[j] == cums[idx[j]]
}


/// One point of a matching simplified list, spelled out.
pub proof fn lemma_simplified_point(
    xs: Seq<i64>,
    cums: Seq<u64>,
    total: u64,
    tol: Frac,
    rxs: Seq<i64>,
    rcums: Seq<u64>,
    m: int,
)
    requires
        simplified_matches(xs, cums, total, tol, rxs, rcums),
        0 <= m < spec_simplified_index_list(xs, cums, total, tol).len(),
    ensures
        ({
            let idx = spec_simplified_index_list(xs, cums, total, tol);
            &&& rxs.len() == idx.len()
            &&& rcums.len() == idx.len()
            &&& 0 <= idx[m] < xs.len()
            &&& rxs[m] == xs[idx[m]]
            &&& rcums[m] == cums[idx[m]]
        }),
{
    let idx = spec_simplified_index_list(xs, cums, total, tol);
    assert(0 <= idx[m] < xs.len());
    assert(rxs[m] == xs[idx[m]] && rcums[m] == cums[idx[m]]);
}

/// The point indices simplification keeps from `i` on, `k` being the last
/// kept index; the final point always stays.
pub open spec fn spec_simplify_indices(
    xs: Seq<i64>,
    cums: Seq<u64>,
    total: u64,
    k: int,
    i: int,
    tol: Frac,
) -> Seq<int>
    decreases xs.len() - i,
{
    if i >= xs.len() - 1 {
        seq![xs.len() - 1]
    } else if spec_keep_point(xs, cums, total, k, i, tol) {
        seq![i] + spec_simplify_indices(xs, cums, total, i, i + 1, tol)
    } else {
        spec_simplify_indices(xs, cums, total, k, i + 1, tol)
    }
}

impl Curve {
    /// Drops interior points whose removal moves the curve's y at their x
    /// by less than `tol`, judged against the chord from the last kept
    /// point to the next one; the end points always stay, with their
    /// cumulative weights. The kept points are exactly those that
    /// `spec_simplify_indices` names.
    #[verifier::rlimit(100)]
    #[verifier::spinoff_prover]
    pub fn simplify(&self, tol: Frac) -> (r: Curve)
        requires
            self.wf(),
            0 <= tol.num,
            0 < tol.den <= 1_000_000,
            tol.num <= 1_000_000,
        ensures
            r.wf(),
            r.total == self.total,
            r.xs@.len() <= self.xs@.len(),
            r.xs@[0] == self.xs@[0],
            r.xs@[r.xs@.len() - 1] == self.xs@[self.xs@.len() - 1],
            simplified_matches(self.xs@, self.cums@, self.total, tol, r.xs@, r.cums@),
    {
        let len = self.xs.len();
        let mut new_xs: Vec<i64> = Vec::new();
        let mut new_cums: Vec<u64> = Vec::new();
        new_xs.push(self.xs[0]);
        new_cums.push(self.cums[0]);
        let ghost mut idx_acc: Seq<int> = seq![0 as int];
        let mut kept: usize = 0;
        let mut i: usize = 1;
        proof {
            assert(seq![0 as int] + spec_simplify_indices(
                self.xs@, self.cums@, self.total, 0, 1, tol)
                =~= idx_acc + spec_simplify_indices(
                    self.xs@, self.cums@, self.total, 0, 1, tol));
        }
        while i < len - 1
            invariant
                self.wf(),
                len == self.xs@.len(),
                0 <= kept < i <= len - 1,
                0 <= tol.num <= 1_000_000,
                0 < tol.den <= 1_000_000,
                new_xs@.len() == new_cums@.len(),
                new_xs@.len() >= 1,
                new_xs@.len() <= i,
                new_xs@[0] == self.xs@[0],
                new_cums@[0] == self.cums@[0],
                new_xs@[new_xs@.len() - 1] == self.xs@[kept as int],
                new_cums@[new_cums@.len() - 1] == self.cums@[kept as int],
                forall|p: int, q: int| 0 <= p < q < new_xs@.len()
                    ==> new_xs@[p] < new_xs@[q],
                forall|p: int, q: int| 0 <= p <= q < new_cums@.len()
                    ==> new_cums@[p] <= new_cums@[q],
                forall|k: int| 0 <= k < new_xs@.len()
                    ==> exists|j: int| 0 <= j <= kept
                        && #[trigger] new_xs@[k] == self.xs@[j]
                        && new_cums@[k] == self.cums@[j],
                idx_acc.len() == new_xs@.len(),
                forall|j: int| 0 <= j < idx_acc.len()
                    ==> 0 <= #[trigger] idx_acc[j] < self.xs@.len(),
                forall|j: int| 0 <= j < idx_acc.len()
                    ==> #[trigger] new_xs@[j] == self.xs@[idx_acc[j]]
                        && new_cums@[j] == self.cums@[idx_acc[j]],
                seq![0 as int] + spec_simplify_indices(
                    self.xs@, self.cums@, self.total, 0, 1, tol)
                    == idx_acc + spec_simplify_indices(
                        self.xs@, self.cums@, self.total, kept as int, i as int, tol),
            decreases len - i,
        {
            let xk = self.xs[kept];
            let ck = self.cums[kept];
            let xi = self.xs[i];
            let ci = self.cums[i];
            let xn = self.xs[i + 1];
            let cn = self.cums[i + 1];
            // Error of dropping point i: the gap between its y and the
            // chord from the kept point to the next, cross-multiplied.
            let dxw: i128 = (xn - xk) as i128;
            proof {
                assert((ck as i128) * dxw <= 4_000_000_000_000_000i128 * 200_000
                    && (ck as i128) * dxw >= 0) by (nonlinear_arith)
                    requires 0 <= ck <= 4_000_000_000_000_000u64 && 0 < dxw <= 200_000;
                assert(((cn - ck) as i128) * ((xi - xk) as i128)
                    <= 4_000_000_000_000_000i128 * 200_000
                    && ((cn - ck) as i128) * ((xi - xk) as i128) >= 0) by (nonlinear_arith)
                    requires 0 <= (cn - ck) as i128 <= 4_000_000_000_000_000i128
                        && 0 < (xi - xk) as i128 <= 200_000;
                assert((ci as i128) * dxw <= 4_000_000_000_000_000i128 * 200_000
                    && (ci as i128) * dxw >= 0) by (nonlinear_arith)
                    requires 0 <= ci <= 4_000_000_000_000_000u64 && 0 < dxw <= 200_000;
            }
            let lin: i128 = (ck as i128) * dxw + ((cn - ck) as i128) * ((xi - xk) as i128);
            let point: i128 = (ci as i128) * dxw;
            let diff: i128 = if point >= lin {
                point - lin
            } else {
                lin - point
            };
            let ghost big: i128 = 1_600_000_000_000_000_000_000i128;
            proof {
                assert(diff <= big);
                assert(diff * tol.den <= big * 1_000_000 && diff * tol.den >= 0)
                    by (nonlinear_arith)
                    requires 0 <= diff <= big && 0 < tol.den <= 1_000_000;
                assert(0 < (self.total as i128) * dxw
                    <= 4_000_000_000_000_000i128 * 200_000) by (nonlinear_arith)
                    requires 0 < self.total <= 4_000_000_000_000_000u64 && 0 < dxw <= 200_000;
                assert(tol.num * ((self.total as i128) * dxw)
                    <= 1_000_000i128 * (4_000_000_000_000_000i128 * 200_000)
                    && tol.num * ((self.total as i128) * dxw) >= 0) by (nonlinear_arith)
                    requires 0 <= tol.num <= 1_000_000
                        && 0 < (self.total as i128) * dxw
                            <= 4_000_000_000_000_000i128 * 200_000;
            }
            let keep = diff * tol.den >= tol.num * ((self.total as i128) * dxw);
            proof {
                assert(keep == spec_keep_point(
                    self.xs@, self.cums@, self.total, kept as int, i as int, tol));
            }
            if keep {
                let ghost xs_pre = new_xs@;
                let ghost cums_pre = new_cums@;
                let ghost idx_pre = idx_acc;
                proof {
                    assert(idx_acc + spec_simplify_indices(
                        self.xs@, self.cums@, self.total, kept as int, i as int, tol)
                        =~= idx_acc.push(i as int) + spec_simplify_indices(
                            self.xs@, self.cums@, self.total, i as int, i as int + 1, tol));
                    idx_acc = idx_acc.push(i as int);
                }
                new_xs.push(xi);
                new_cums.push(ci);
                kept = i;
                proof {
                    assert forall|k: int| 0 <= k < new_xs@.len()
                        implies exists|j: int| 0 <= j <= kept
                            && #[trigger] new_xs@[k] == self.xs@[j]
                            && new_cums@[k] == self.cums@[j] by {
                        if k == new_xs@.len() - 1 {
                            assert(new_xs@[k] == self.xs@[i as int]
                                && new_cums@[k] == self.cums@[i as int]);
                        }
                    }
                    assert forall|j: int| 0 <= j < idx_acc.len()
                        implies 0 <= #[trigger] idx_acc[j] < self.xs@.len() by {
                        if j == idx_acc.len() - 1 {
                            assert(idx_acc[j] == i as int);
                        } else {
                            assert(idx_acc[j] == idx_pre[j]);
                            assert(0 <= idx_pre[j] < self.xs@.len());
                        }
                    }
                    assert forall|j: int| 0 <= j < idx_acc.len()
                        implies #[trigger] new_xs@[j] == self.xs@[idx_acc[j]]
                            && new_cums@[j] == self.cums@[idx_acc[j]] by {
                        if j == idx_acc.len() - 1 {
                            assert(idx_acc[j] == i as int);
                            assert(new_xs@[j] == self.xs@[i as int]);
                            assert(new_cums@[j] == self.cums@[i as int]);
                        } else {
                            assert(idx_acc[j] == idx_pre[j]);
                            assert(new_xs@[j] == xs_pre[j]);
                            assert(new_cums@[j] == cums_pre[j]);
                            assert(xs_pre[j] == self.xs@[idx_pre[j]]);
                        }
                    }
                }
            }
            i = i + 1;
        }
        let ghost xs_pre = new_xs@;
        let ghost cums_pre = new_cums@;
        let ghost idx_pre = idx_acc;
        proof {
            assert(spec_simplify_indices(
                self.xs@, self.cums@, self.total, kept as int, i as int, tol)
                =~= seq![len - 1 as int]);
            idx_acc = idx_acc.push(len - 1 as int);
            assert(seq![0 as int] + spec_simplify_indices(
                self.xs@, self.cums@, self.total, 0, 1, tol) =~= idx_acc);
            assert(spec_simplified_index_list(self.xs@, self.cums@, self.total, tol)
                == idx_acc);
        }
        new_xs.push(self.xs[len - 1]);
        new_cums.push(self.cums[len - 1]);
        let r = Curve { xs: new_xs, cums: new_cums, total: self.total };
        proof {
            assert(idx_acc.len() == r.xs@.len());
            assert forall|j: int| 0 <= j < idx_acc.len()
                implies 0 <= #[trigger] idx_acc[j] < self.xs@.len() by {
                if j == idx_acc.len() - 1 {
                    assert(idx_acc[j] == len - 1);
                } else {
                    assert(idx_acc[j] == idx_pre[j]);
                    assert(0 <= idx_pre[j] < self.xs@.len());
                }
            }
            assert forall|j: int| 0 <= j < idx_acc.len()
                implies #[trigger] r.xs@[j] == self.xs@[idx_acc[j]]
                    && r.cums@[j] == self.cums@[idx_acc[j]] by {
                if j == idx_acc.len() - 1 {
                    assert(idx_acc[j] == len - 1);
                    assert(r.xs@[j] == self.xs@[len - 1]);
                    assert(r.cums@[j] == self.cums@[len - 1]);
                } else {
                    assert(idx_acc[j] == idx_pre[j]);
                    assert(r.xs@[j] == xs_pre[j]);
                    assert(r.cums@[j] == cums_pre[j]);
                    assert(xs_pre[j] == self.xs@[idx_pre[j]]);
                }
            }
            assert(simplified_matches(self.xs@, self.cums@, self.total, tol, r.xs@,
                r.cums@)) by {
                assert(spec_simplified_index_list(self.xs@, self.cums@, self.total, tol)
                    == idx_acc);
            }
            assert forall|k: int| 0 <= k < r.xs@.len()
                implies exists|j: int| 0 <= j < self.xs@.len()
                    && #[trigger] r.xs@[k] == self.xs@[j]
                    && r.cums@[k] == self.cums@[j] by {
                if k == r.xs@.len() - 1 {
                    assert(r.xs@[k] == self.xs@[len - 1]
                        && r.cums@[k] == self.cums@[len - 1]);
                }
            }
            assert(r.wf());
        }
        r
    }
}

} // verus!
