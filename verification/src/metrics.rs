//! Distance metrics over vectors of integer components.
//!
//! Components are bounded so every supported metric is computed exactly in
//! 64-bit integers: Manhattan distance, squared Euclidean distance (ordered
//! identically to the Euclidean distance and zero exactly on equal vectors),
//! and negated dot product (so that smaller always means closer). The cosine
//! and angular metrics rest on floating-point arithmetic and are reported as
//! unsupported, as is the unset variant.

use vstd::prelude::*;
use crate::AnnError;

verus! {

/// Largest admitted absolute value of a vector component.
pub const COMP_MAX: i64 = 1_000_000;

/// Largest admitted vector length.
pub const DIM_MAX: usize = 100_000;

/// Every supported metric over admitted vectors stays within this bound
/// in absolute value: the squared Euclidean distance reaches at most
/// `DIM_MAX * (2 * COMP_MAX)^2`.
pub const DIST_MAX: i64 = 400_000_000_000_000_000;

/// The metric kinds an index can be configured with.
#[derive(Debug, Clone, Copy, PartialEq, Eq, Structural)]
pub enum Metric {
    Unknown,
    Manhattan,
    DotProduct,
    Euclidean,
    CosineSimilarity,
    Angular,
}

impl Default for Metric {
    /// The unset metric kind.
    fn default() -> (r: Self)
        ensures
            r == Metric::Unknown,
    {
        Metric::Unknown
    }
}

/// Whether a component is within the admitted range.
pub open spec fn comp_ok(c: i64) -> bool {
    -(COMP_MAX as int) <= c as int <= COMP_MAX as int
}

/// Whether every component of a vector is within the admitted range.
pub open spec fn comps_ok(v: Seq<i64>) -> bool {
    forall|i: int| 0 <= i < v.len() ==> comp_ok(#[trigger] v[i])
}

/// Whether a vector is admitted: bounded length, bounded components.
pub open spec fn vec_ok(v: Seq<i64>) -> bool {
    &&& v.len() <= DIM_MAX
    &&& comps_ok(v)
}

/// The absolute difference of two integers.
pub open spec fn abs_diff(a: int, b: int) -> int {
    if a >= b {
        a - b
    } else {
        b - a
    }
}

/// Sum of absolute component differences over the first `n` components.
pub open spec fn manhattan_sum(a: Seq<i64>, b: Seq<i64>, n: int) -> int
    decreases n,
{
    if n <= 0 {
        0
    } else {
        manhattan_sum(a, b, n - 1) + abs_diff(a[n - 1] as int, b[n - 1] as int)
    }
}

/// Sum of squared component differences over the first `n` components.
pub open spec fn sq_euclid_sum(a: Seq<i64>, b: Seq<i64>, n: int) -> int
    decreases n,
{
    if n <= 0 {
        0
    } else {
        sq_euclid_sum(a, b, n - 1) + (a[n - 1] - b[n - 1]) * (a[n - 1] - b[n - 1])
    }
}

/// Dot product over the first `n` components.
pub open spec fn dot_sum(a: Seq<i64>, b: Seq<i64>, n: int) -> int
    decreases n,
{
    if n <= 0 {
        0
    } else {
        dot_sum(a, b, n - 1) + a[n - 1] * b[n - 1]
    }
}

/// The metric kinds the integer model computes.
pub open spec fn metric_supported(mt: Metric) -> bool {
    mt == Metric::Manhattan || mt == Metric::Euclidean || mt == Metric::DotProduct
}

/// The distance a supported metric assigns to a pair of equal-length vectors.
pub open spec fn metric_value(a: Seq<i64>, b: Seq<i64>, mt: Metric) -> int {
    if mt == Metric::Manhattan {
        manhattan_sum(a, b, a.len() as int)
    } else if mt == Metric::Euclidean {
        sq_euclid_sum(a, b, a.len() as int)
    } else {
        -dot_sum(a, b, a.len() as int)
    }
}

/// What [`metric`] returns, for every pair of vectors and every metric kind.
pub open spec fn metric_spec(a: Seq<i64>, b: Seq<i64>, mt: Metric) -> Result<i64, AnnError> {
    if a.len() != b.len() {
        Err(AnnError::DimensionMismatch)
    } else if !metric_supported(mt) {
        Err(AnnError::UnknownMetric)
    } else {
        Ok(metric_value(a, b, mt) as i64)
    }
}

/// Partial Manhattan sums stay within `n * 2 * COMP_MAX`.
pub proof fn lemma_manhattan_bounds(a: Seq<i64>, b: Seq<i64>, n: int)
    requires
        0 <= n <= a.len(),
        a.len() == b.len(),
        vec_ok(a),
        vec_ok(b),
    ensures
        0 <= manhattan_sum(a, b, n) <= n * 2_000_000,
    decreases n,
{
    if n > 0 {
        lemma_manhattan_bounds(a, b, n - 1);
    }
}

/// Partial squared-Euclidean sums stay within `n * (2 * COMP_MAX)^2`.
pub proof fn lemma_sq_euclid_bounds(a: Seq<i64>, b: Seq<i64>, n: int)
    requires
        0 <= n <= a.len(),
        a.len() == b.len(),
        vec_ok(a),
        vec_ok(b),
    ensures
        0 <= sq_euclid_sum(a, b, n) <= n * 4_000_000_000_000,
    decreases n,
{
    if n > 0 {
        lemma_sq_euclid_bounds(a, b, n - 1);
        let d = a[n - 1] - b[n - 1];
        assert(-2_000_000 <= d <= 2_000_000);
        assert(0 <= d * d <= 4_000_000_000_000) by (nonlinear_arith)
            requires
                -2_000_000 <= d <= 2_000_000,
        ;
    }
}

/// Partial dot-product sums stay within `n * COMP_MAX^2` in absolute value.
pub proof fn lemma_dot_bounds(a: Seq<i64>, b: Seq<i64>, n: int)
    requires
        0 <= n <= a.len(),
        a.len() == b.len(),
        vec_ok(a),
        vec_ok(b),
    ensures
        -(n * 1_000_000_000_000) <= dot_sum(a, b, n) <= n * 1_000_000_000_000,
    decreases n,
{
    if n > 0 {
        lemma_dot_bounds(a, b, n - 1);
        let x = a[n - 1] as int;
        let y = b[n - 1] as int;
        assert(-1_000_000_000_000 <= x * y <= 1_000_000_000_000) by (nonlinear_arith)
            requires
                -1_000_000 <= x <= 1_000_000,
                -1_000_000 <= y <= 1_000_000,
        ;
    }
}

/// A supported metric's value over admitted vectors is within `DIST_MAX`.
pub proof fn lemma_metric_value_bounds(a: Seq<i64>, b: Seq<i64>, mt: Metric)
    requires
        a.len() == b.len(),
        vec_ok(a),
        vec_ok(b),
        metric_supported(mt),
    ensures
        -(DIST_MAX as int) <= metric_value(a, b, mt) <= DIST_MAX as int,
{
    let n = a.len() as int;
    if mt == Metric::Manhattan {
        lemma_manhattan_bounds(a, b, n);
        assert(n * 2_000_000 <= 200_000_000_000) by (nonlinear_arith)
            requires
                0 <= n <= 100_000,
        ;
    } else if mt == Metric::Euclidean {
        lemma_sq_euclid_bounds(a, b, n);
        assert(n * 4_000_000_000_000 <= 400_000_000_000_000_000) by (nonlinear_arith)
            requires
                0 <= n <= 100_000,
        ;
    } else {
        lemma_dot_bounds(a, b, n);
        assert(-100_000_000_000_000_000 <= n * 1_000_000_000_000 <= 100_000_000_000_000_000)
            by (nonlinear_arith)
            requires
                0 <= n <= 100_000,
        ;
    }
}

/// Manhattan distance: the sum of absolute component differences.
fn manhattan(a: &Vec<i64>, b: &Vec<i64>) -> (r: i64)
    requires
        a@.len() == b@.len(),
        vec_ok(a@),
        vec_ok(b@),
    ensures
        r as int == manhattan_sum(a@, b@, a@.len() as int),
{
    let mut acc: i64 = 0;
    let mut i: usize = 0;
    while i < a.len()
        invariant
            i <= a@.len(),
            a@.len() == b@.len(),
            vec_ok(a@),
            vec_ok(b@),
            acc as int == manhattan_sum(a@, b@, i as int),
        decreases a@.len() - i,
    {
        proof {
            lemma_manhattan_bounds(a@, b@, i as int);
            lemma_manhattan_bounds(a@, b@, i as int + 1);
            assert(i as int * 2_000_000 <= 200_000_000_000) by (nonlinear_arith)
                requires
                    0 <= i as int <= 100_000,
            ;
        }
        let d = if a[i] >= b[i] {
            a[i] - b[i]
        } else {
            b[i] - a[i]
        };
        acc = acc + d;
        i = i + 1;
    }
    acc
}

/// Squared Euclidean distance: the sum of squared component differences.
fn sq_euclidean(a: &Vec<i64>, b: &Vec<i64>) -> (r: i64)
    requires
        a@.len() == b@.len(),
        vec_ok(a@),
        vec_ok(b@),
    ensures
        r as int == sq_euclid_sum(a@, b@, a@.len() as int),
{
    let mut acc: i64 = 0;
    let mut i: usize = 0;
    while i < a.len()
        invariant
            i <= a@.len(),
            a@.len() == b@.len(),
            vec_ok(a@),
            vec_ok(b@),
            acc as int == sq_euclid_sum(a@, b@, i as int),
        decreases a@.len() - i,
    {
        proof {
            lemma_sq_euclid_bounds(a@, b@, i as int);
            lemma_sq_euclid_bounds(a@, b@, i as int + 1);
            assert(i as int * 4_000_000_000_000 <= 400_000_000_000_000_000) by (nonlinear_arith)
                requires
                    0 <= i as int <= 100_000,
            ;
        }
        let d = a[i] - b[i];
        proof {
            assert(0 <= d as int * d as int <= 4_000_000_000_000) by (nonlinear_arith)
                requires
                    -2_000_000 <= d as int <= 2_000_000,
            ;
        }
        acc = acc + d * d;
        i = i + 1;
    }
    acc
}

/// Negated dot product, so that a larger dot product means a smaller
/// distance.
fn neg_dot(a: &Vec<i64>, b: &Vec<i64>) -> (r: i64)
    requires
        a@.len() == b@.len(),
        vec_ok(a@),
        vec_ok(b@),
    ensures
        r as int == -dot_sum(a@, b@, a@.len() as int),
{
    let mut acc: i64 = 0;
    let mut i: usize = 0;
    while i < a.len()
        invariant
            i <= a@.len(),
            a@.len() == b@.len(),
            vec_ok(a@),
            vec_ok(b@),
            acc as int == dot_sum(a@, b@, i as int),
        decreases a@.len() - i,
    {
        proof {
            lemma_dot_bounds(a@, b@, i as int);
            lemma_dot_bounds(a@, b@, i as int + 1);
            assert(i as int * 1_000_000_000_000 <= 100_000_000_000_000_000) by (nonlinear_arith)
                requires
                    0 <= i as int <= 100_000,
            ;
        }
        let x = a[i];
        let y = b[i];
        proof {
            assert(-1_000_000_000_000 <= x as int * y as int <= 1_000_000_000_000)
                by (nonlinear_arith)
                requires
                    -1_000_000 <= x as int <= 1_000_000,
                    -1_000_000 <= y as int <= 1_000_000,
            ;
        }
        acc = acc + x * y;
        i = i + 1;
    }
    proof {
        lemma_dot_bounds(a@, b@, a@.len() as int);
        assert(a@.len() as int * 1_000_000_000_000 <= 100_000_000_000_000_000)
            by (nonlinear_arith)
            requires
                0 <= a@.len() as int <= 100_000,
        ;
    }
    -acc
}

/// Computes the configured metric between two vectors. Fails exactly when
/// the lengths differ or the metric kind is unset or unsupported; otherwise
/// returns the metric's distance, which always fits in an `i64`.
pub fn metric(a: &Vec<i64>, b: &Vec<i64>, mt: Metric) -> (r: Result<i64, AnnError>)
    requires
        vec_ok(a@),
        vec_ok(b@),
    ensures
        r == metric_spec(a@, b@, mt),
{
    if a.len() != b.len() {
        return Err(AnnError::DimensionMismatch);
    }
    match mt {
        Metric::Manhattan => Ok(manhattan(a, b)),
        Metric::Euclidean => Ok(sq_euclidean(a, b)),
        Metric::DotProduct => Ok(neg_dot(a, b)),
        _ => Err(AnnError::UnknownMetric),
    }
}

} // verus!
