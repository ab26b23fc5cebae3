//! Projection of a step onto a direction, in whole numbers.

use vstd::prelude::*;

verus! {

/// Largest size of a dot product, and of a squared length, that `project` takes.
pub const MAX_DOT: i64 = 0x200_0000_0000;

/// `q` is the whole part of `|d| / sqrt(n)`.
pub open spec fn is_scaled_root(q: int, d: int, n: int) -> bool {
    &&& 0 <= q
    &&& q * q * n <= d * d
    &&& d * d < (q + 1) * (q + 1) * n
}

/// The whole part of `|d| / sqrt(n)`, for `n > 0`.
pub open spec fn scaled_root(d: int, n: int) -> int {
    choose|q: int| is_scaled_root(q, d, n)
}

/// The length `d / sqrt(n)` rounded towards zero: how far a step with dot
/// product `d` goes along a direction of squared length `n`. Zero when the
/// direction has no length.
pub open spec fn projection(d: int, n: int) -> int {
    if n <= 0 {
        0
    } else if d >= 0 {
        scaled_root(d, n)
    } else {
        -scaled_root(d, n)
    }
}

/// A larger root has a larger scaled square.
proof fn lemma_square_scale_monotone(a: int, b: int, n: int)
    by (nonlinear_arith)
    requires
        0 <= a <= b,
        0 <= n,
    ensures
        a * a * n <= b * b * n,
{
}

/// For a direction of positive length there is exactly one scaled root.
pub proof fn lemma_scaled_root_unique(q1: int, q2: int, d: int, n: int)
    requires
        n > 0,
        is_scaled_root(q1, d, n),
        is_scaled_root(q2, d, n),
    ensures
        q1 == q2,
{
    if q1 < q2 {
        lemma_square_scale_monotone(q1 + 1, q2, n);
    } else if q2 < q1 {
        lemma_square_scale_monotone(q2 + 1, q1, n);
    }
}

/// Any value that meets `is_scaled_root` is the scaled root.
pub proof fn lemma_scaled_root_is(q: int, d: int, n: int)
    requires
        n > 0,
        is_scaled_root(q, d, n),
    ensures
        scaled_root(d, n) == q,
{
    lemma_scaled_root_unique(q, scaled_root(d, n), d, n);
}

/// Products of bounded factors are bounded.
proof fn lemma_product_bound(a: int, b: int, c: int, la: int, lc: int)
    by (nonlinear_arith)
    requires
        0 <= a <= la,
        0 <= b <= la,
        0 <= c <= lc,
    ensures
        0 <= a * b <= la * la,
        0 <= a * b * c <= la * la * lc,
{
}

/// The next root's scaled square lies above the square.
proof fn lemma_square_above(a: int, n: int)
    by (nonlinear_arith)
    requires
        0 <= a,
        1 <= n,
    ensures
        a * a < (a + 1) * (a + 1) * n,
{
}

/// Computes `d / sqrt(n)` rounded towards zero, in whole numbers.
pub fn project(d: i64, n: i64) -> (q: i64)
    requires
        -MAX_DOT <= d <= MAX_DOT,
        0 <= n <= MAX_DOT,
    ensures
        q == projection(d as int, n as int),
        d >= 0 ==> 0 <= q <= d,
        d < 0 ==> d <= q <= 0,
{
    if n <= 0 {
        return 0;
    }
    let a: u128 = if d >= 0 {
        d as u128
    } else {
        (-d) as u128
    };
    let scale: u128 = n as u128;
    proof {
        lemma_product_bound(a as int, a as int, 1, MAX_DOT as int, 1);
    }
    let target: u128 = a * a;
    let mut lo: u128 = 0;
    let mut hi: u128 = a + 1;
    proof {
        lemma_square_above(a as int, n as int);
        assert(lo * lo * scale == 0) by (nonlinear_arith)
            requires
                lo == 0,
        ;
    }
    while hi - lo > 1
        invariant
            0 < scale <= MAX_DOT,
            a <= MAX_DOT,
            target == a * a,
            lo < hi <= a + 1,
            lo * lo * scale <= target,
            target < hi * hi * scale,
        decreases hi - lo,
    {
        let mid: u128 = lo + (hi - lo) / 2;
        proof {
            lemma_product_bound(mid as int, mid as int, scale as int, MAX_DOT + 1, MAX_DOT as int);
            assert((MAX_DOT + 1) * (MAX_DOT + 1) * MAX_DOT < u128::MAX) by (nonlinear_arith);
        }
        if mid * mid * scale <= target {
            lo = mid;
        } else {
            hi = mid;
        }
    }
    proof {
        assert(hi == lo + 1);
        assert(is_scaled_root(lo as int, a as int, n as int));
        assert(a * a == d * d) by (nonlinear_arith)
            requires
                a == d || a == -d,
        ;
        assert(is_scaled_root(lo as int, d as int, n as int));
        lemma_scaled_root_is(lo as int, d as int, n as int);
    }
    if d >= 0 {
        lo as i64
    } else {
        -(lo as i64)
    }
}

} // verus!
