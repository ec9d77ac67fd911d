//! Fixed-point arithmetic shared by the whole engine.
//!
//! Distances and path costs are unsigned 64-bit quantities in one common
//! scale. The largest value stands for "unreachable": sums and products
//! saturate there, so an unreachable cost stays unreachable whatever is
//! added to it. Feature values are signed 32-bit quantities.

use vstd::prelude::*;
use vstd::relations::{sorted_by, total_ordering};
use vstd::seq_lib::lemma_sorted_unique;

verus! {

/// The cost of something that cannot be reached.
pub const INFINITY: u64 = 0xffff_ffff_ffff_ffff;

/// Percentiles are given in parts per thousand.
pub const PER_MILLE: u64 = 1000;

/// Clamps an exact sum or product into the cost range.
pub open spec fn cap(v: int) -> u64 {
    if v >= INFINITY {
        INFINITY
    } else if v < 0 {
        0
    } else {
        v as u64
    }
}

/// Saturating sum of two costs.
pub open spec fn add_cost_spec(a: u64, b: u64) -> u64 {
    cap(a + b)
}

/// Saturating product of a weight and a cost.
pub open spec fn mul_cost_spec(a: u64, b: u64) -> u64 {
    cap(a * b)
}

/// Adds two costs; the sum saturates at `INFINITY`.
pub fn add_cost(a: u64, b: u64) -> (r: u64)
    ensures
        r == add_cost_spec(a, b),
{
    a.saturating_add(b)
}

/// Multiplies a cost by a weight; the product saturates at `INFINITY`.
pub fn mul_cost(a: u64, b: u64) -> (r: u64)
    ensures
        r == mul_cost_spec(a, b),
{
    match a.checked_mul(b) {
        Some(v) => v,
        None => INFINITY,
    }
}

/// Absolute difference of two unsigned numbers.
pub fn abs(n: usize, m: usize) -> (r: usize)
    ensures
        r == if n > m { n - m } else { m - n },
{
    if n > m {
        n - m
    } else {
        m - n
    }
}

/// Difference of two unsigned numbers, bounded below by zero.
pub fn diff(n: usize, m: usize) -> (r: usize)
    ensures
        r == if n > m { n - m } else { 0 },
{
    if n > m {
        n - m
    } else {
        0
    }
}

/// `r` is the integer part of the square root of `x`.
pub open spec fn is_floor_sqrt(x: nat, r: nat) -> bool {
    r * r <= x < (r + 1) * (r + 1)
}

/// The integer part of the square root of `x`.
pub open spec fn floor_sqrt(x: nat) -> nat {
    choose|r: nat| is_floor_sqrt(x, r)
}

/// Squares grow with their argument.
pub proof fn lemma_square_monotonic(a: nat, b: nat)
    requires
        a <= b,
    ensures
        a * a <= b * b,
{
    assert(a * a <= b * b) by (nonlinear_arith)
        requires
            a <= b,
    ;
}

/// There is only one integer square root.
pub proof fn lemma_floor_sqrt_unique(x: nat, r: nat)
    requires
        is_floor_sqrt(x, r),
    ensures
        floor_sqrt(x) == r,
{
    let s = floor_sqrt(x);
    assert(is_floor_sqrt(x, s));
    if s < r {
        lemma_square_monotonic(s + 1, r);
    } else if r < s {
        lemma_square_monotonic(r + 1, s);
    }
}

/// Integer square root by bisection.
pub fn isqrt(x: u128) -> (r: u64)
    ensures
        r == floor_sqrt(x as nat),
        is_floor_sqrt(x as nat, r as nat),
{
    let mut lo: u128 = 0;
    let mut hi: u128 = 0x1_0000_0000_0000_0000;
    assert(hi * hi > x) by (nonlinear_arith)
        requires
            hi == 0x1_0000_0000_0000_0000u128,
            x <= u128::MAX,
    ;
    while hi - lo > 1
        invariant
            lo < hi <= 0x1_0000_0000_0000_0000u128,
            lo * lo <= x,
            x < hi * hi,
        decreases hi - lo,
    {
        let mid: u128 = lo + (hi - lo) / 2;
        assert(mid * mid <= 0xffff_ffff_ffff_ffffu128 * 0xffff_ffff_ffff_ffffu128)
            by (nonlinear_arith)
            requires
                mid <= 0xffff_ffff_ffff_ffffu128,
        ;
        if mid * mid <= x {
            lo = mid;
        } else {
            hi = mid;
        }
    }
    proof {
        assert(hi == lo + 1);
        lemma_floor_sqrt_unique(x as nat, lo as nat);
    }
    lo as u64
}

/// Sum of the squared differences over the first `upto` coordinates.
pub open spec fn squared_distance(x: Seq<i32>, y: Seq<i32>, upto: int) -> nat
    decreases upto,
{
    if upto <= 0 {
        0
    } else {
        let d = x[upto - 1] - y[upto - 1];
        squared_distance(x, y, upto - 1) + (d * d) as nat
    }
}

/// Euclidean distance between two feature vectors, rounded down.
pub open spec fn euclidean_spec(x: Seq<i32>, y: Seq<i32>) -> nat {
    floor_sqrt(squared_distance(x, y, x.len() as int))
}

/// The squared distance does not depend on the order of its arguments.
pub proof fn lemma_squared_distance_symmetric(x: Seq<i32>, y: Seq<i32>, upto: int)
    ensures
        squared_distance(x, y, upto) == squared_distance(y, x, upto),
    decreases upto,
{
    if upto > 0 {
        lemma_squared_distance_symmetric(x, y, upto - 1);
        let d = x[upto - 1] - y[upto - 1];
        let e = y[upto - 1] - x[upto - 1];
        assert(d * d == e * e) by (nonlinear_arith)
            requires
                d == -e,
        ;
    }
}

/// The squared distance of `upto` coordinates stays below `upto` times the
/// largest square of a difference.
proof fn lemma_squared_distance_bound(x: Seq<i32>, y: Seq<i32>, upto: int)
    requires
        0 <= upto <= x.len(),
        upto <= y.len(),
    ensures
        squared_distance(x, y, upto) <= upto * 0xffff_ffff_ffff_ffff,
    decreases upto,
{
    if upto > 0 {
        lemma_squared_distance_bound(x, y, upto - 1);
        let d = x[upto - 1] - y[upto - 1];
        assert(d * d <= 0xffff_ffff_ffff_ffff) by (nonlinear_arith)
            requires
                -0xffff_ffff <= d <= 0xffff_ffff,
        ;
        assert(d * d >= 0) by (nonlinear_arith);
    }
}

/// Euclidean distance between two feature vectors of one dimension.
pub fn euclidean(x: &[i32], y: &[i32]) -> (r: u64)
    requires
        x@.len() <= y@.len(),
    ensures
        r == euclidean_spec(x@, y@),
{
    let mut total: u128 = 0;
    let mut i: usize = 0;
    while i < x.len()
        invariant
            i <= x@.len() <= y@.len(),
            total == squared_distance(x@, y@, i as int),
        decreases x@.len() - i,
    {
        let d: i64 = x[i] as i64 - y[i] as i64;
        let a: u64 = if d >= 0 {
            d as u64
        } else {
            (-d) as u64
        };
        proof {
            lemma_squared_distance_bound(x@, y@, i as int + 1);
            assert(a * a <= 0xffff_ffff_ffff_ffff) by (nonlinear_arith)
                requires
                    0 <= a <= 0xffff_ffff,
            ;
            assert(a * a == d * d) by (nonlinear_arith)
                requires
                    a == d || a == -d,
            ;
            assert((i as int + 1) * 0xffff_ffff_ffff_ffff <= u128::MAX) by (nonlinear_arith)
                requires
                    i as int + 1 <= 0xffff_ffff_ffff_ffff,
            ;
        }
        let sq: u64 = a * a;
        total = total + sq as u128;
        i = i + 1;
    }
    isqrt(total)
}

/// Exact sum of the first `upto` values.
pub open spec fn sum_upto(x: Seq<u64>, upto: int) -> nat
    decreases upto,
{
    if upto <= 0 {
        0
    } else {
        sum_upto(x, upto - 1) + x[upto - 1] as nat
    }
}

/// Mean of a sequence of costs, rounded down; unreachable as soon as the
/// sum is.
pub open spec fn mean_spec(x: Seq<u64>) -> u64 {
    if cap(sum_upto(x, x.len() as int) as int) == INFINITY {
        INFINITY
    } else {
        (sum_upto(x, x.len() as int) / x.len()) as u64
    }
}

/// Saturating sum of a slice of costs.
pub fn sum(x: &[u64]) -> (r: u64)
    ensures
        r == cap(sum_upto(x@, x@.len() as int) as int),
{
    let mut total: u64 = 0;
    let mut i: usize = 0;
    while i < x.len()
        invariant
            i <= x@.len(),
            total == cap(sum_upto(x@, i as int) as int),
        decreases x@.len() - i,
    {
        total = add_cost(total, x[i]);
        i = i + 1;
    }
    total
}

/// Sample mean of a non-empty slice of costs.
pub fn mean(x: &[u64]) -> (r: u64)
    requires
        x@.len() > 0,
    ensures
        r == mean_spec(x@),
{
    let total = sum(x);
    if total == INFINITY {
        INFINITY
    } else {
        total / (x.len() as u64)
    }
}

/// `r` is the smallest reachable value of `x`, or `INFINITY` when `x` has none.
pub open spec fn is_min_finite(x: Seq<u64>, r: u64) -> bool {
    &&& forall|i: int| 0 <= i < x.len() && x[i] != INFINITY ==> r <= #[trigger] x[i]
    &&& r == INFINITY || exists|i: int| 0 <= i < x.len() && #[trigger] x[i] == r
}

/// `r` is the largest reachable value of `x`, or `None` when `x` has none.
pub open spec fn is_max_finite(x: Seq<u64>, r: Option<u64>) -> bool {
    match r {
        Some(v) => {
            &&& v != INFINITY
            &&& exists|i: int| 0 <= i < x.len() && #[trigger] x[i] == v
            &&& forall|i: int| 0 <= i < x.len() && x[i] != INFINITY ==> #[trigger] x[i] <= v
        },
        None => forall|i: int| 0 <= i < x.len() ==> #[trigger] x[i] == INFINITY,
    }
}

/// Minimum of a slice, ignoring unreachable values.
pub fn min(x: &[u64]) -> (r: u64)
    ensures
        is_min_finite(x@, r),
{
    let mut best: u64 = INFINITY;
    let mut i: usize = 0;
    while i < x.len()
        invariant
            i <= x@.len(),
            is_min_finite(x@.take(i as int), best),
        decreases x@.len() - i,
    {
        let ghost before = x@.take(i as int);
        let ghost old_best = best;
        if x[i] < best {
            best = x[i];
        }
        i = i + 1;
        proof {
            let after = x@.take(i as int);
            assert(forall|k: int| 0 <= k < before.len() ==> after[k] == before[k]);
            assert(after[i - 1] == x@[i - 1]);
            if best != INFINITY {
                if best == old_best {
                    let w = choose|k: int| 0 <= k < before.len() && #[trigger] before[k] == best;
                    assert(after[w] == best);
                } else {
                    assert(after[i - 1] == best);
                }
            }
        }
    }
    assert(x@.take(x@.len() as int) =~= x@);
    best
}

/// Maximum of a slice, ignoring unreachable values.
pub fn max(x: &[u64]) -> (r: Option<u64>)
    ensures
        is_max_finite(x@, r),
{
    let mut best: Option<u64> = None;
    let mut i: usize = 0;
    while i < x.len()
        invariant
            i <= x@.len(),
            is_max_finite(x@.take(i as int), best),
        decreases x@.len() - i,
    {
        let ghost before = x@.take(i as int);
        let ghost old_best = best;
        let v = x[i];
        if v != INFINITY {
            match best {
                Some(b) => {
                    if v > b {
                        best = Some(v);
                    }
                },
                None => {
                    best = Some(v);
                },
            }
        }
        i = i + 1;
        proof {
            let after = x@.take(i as int);
            assert(forall|k: int| 0 <= k < before.len() ==> after[k] == before[k]);
            assert(after[i - 1] == x@[i - 1]);
            match best {
                Some(b) => {
                    if old_best == Some(b) {
                        let w = choose|k: int| 0 <= k < before.len() && #[trigger] before[k] == b;
                        assert(after[w] == b);
                    } else {
                        assert(after[i - 1] == b);
                    }
                },
                None => {},
            }
        }
    }
    assert(x@.take(x@.len() as int) =~= x@);
    best
}

/// The order in which percentiles rank costs.
pub open spec fn cost_leq() -> spec_fn(u64, u64) -> bool {
    |a: u64, b: u64| a <= b
}

/// Position of the percentile in the ranked values.
pub open spec fn percentile_index(len: nat, per_mille: u64) -> int {
    (len * per_mille) / (PER_MILLE as int)
}

/// The value found at the given percentile once `x` is ranked.
pub open spec fn percentile_spec(x: Seq<u64>, per_mille: u64) -> u64 {
    x.sort_by(cost_leq())[percentile_index(x.len(), per_mille)]
}

/// The usual order on costs is total.
pub proof fn lemma_cost_leq_total()
    ensures
        total_ordering(cost_leq()),
{
    let leq = cost_leq();
    assert(vstd::relations::reflexive(leq));
    assert(vstd::relations::antisymmetric(leq));
    assert(vstd::relations::transitive(leq));
    assert(vstd::relations::strongly_connected(leq));
}

/// Sorts in place with `<[u64]>::sort` of the standard library, which
/// leaves the same values, each as often as before, in ascending order.
#[verifier::external_body]
fn sort_costs(values: &mut Vec<u64>)
    ensures
        sorted_by(final(values)@, cost_leq()),
        final(values)@.to_multiset() == old(values)@.to_multiset(),
{
    values.sort();
}

/// Extracts a percentile: the median of `x` is `percentile(x, 500)`.
///
/// The values are ranked in ascending order, unreachable ones last, and the
/// one at position `len * per_mille / 1000` is returned.
pub fn percentile(x: &Vec<u64>, per_mille: u64) -> (r: u64)
    requires
        x@.len() > 0,
        per_mille < PER_MILLE,
    ensures
        r == percentile_spec(x@, per_mille),
{
    let mut numbers: Vec<u64> = x.clone();
    sort_costs(&mut numbers);
    assert(x@.len() * per_mille <= u128::MAX) by (nonlinear_arith)
        requires
            x@.len() <= 0xffff_ffff_ffff_ffff,
            per_mille < 1000,
    ;
    let at: u128 = (x.len() as u128) * (per_mille as u128) / (PER_MILLE as u128);
    proof {
        lemma_cost_leq_total();
        x@.lemma_sort_by_ensures(cost_leq());
        lemma_sorted_unique(numbers@, x@.sort_by(cost_leq()), cost_leq());
        numbers@.to_multiset_ensures();
        x@.to_multiset_ensures();
        assert(numbers@.len() == x@.len());
        assert((x@.len() * per_mille) / (PER_MILLE as int) < x@.len()) by (nonlinear_arith)
            requires
                per_mille < 1000,
                PER_MILLE == 1000,
                x@.len() > 0,
        ;
    }
    numbers[at as usize]
}

} // verus!
