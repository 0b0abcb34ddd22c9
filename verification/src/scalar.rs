use vstd::prelude::*;

verus! {

/// Truncating integer division (rounding toward zero), the division the
/// machine scalar performs.  Verus's own `/` on `int` is Euclidean, so the
/// contracts of every coordinate-dividing operation are stated through this
/// function instead.
pub open spec fn div_trunc(a: int, b: int) -> int
    recommends b != 0,
{
    if a >= 0 {
        a / b
    } else {
        -((-a) / b)
    }
}

/// A product is bounded by the product of bounds on its factors.
pub proof fn lemma_mul_abs_bound(a: int, b: int, m: int, n: int)
    requires
        -m <= a <= m,
        -n <= b <= n,
    ensures
        -(m * n) <= a * b <= m * n,
{
    assert(-(m * n) <= a * b <= m * n) by (nonlinear_arith)
        requires -m <= a <= m, -n <= b <= n;
}

/// Dividing a multiple back by its factor is exact, also under truncation.
pub proof fn lemma_div_trunc_exact(a: int, b: int)
    requires
        b != 0,
    ensures
        div_trunc(a * b, b) == a,
{
    let p = a * b;
    if p >= 0 {
        assert(p / b == a) by (nonlinear_arith)
            requires b != 0, p == a * b, p >= 0;
    } else {
        assert((-p) / b == -a) by (nonlinear_arith)
            requires b != 0, p == a * b, p < 0;
    }
}

/// A numerator pinned between two multiples of a positive divisor divides,
/// truncating, to a quotient pinned between the two factors.
pub proof fn lemma_div_trunc_between(a: int, b: int, lo: int, hi: int)
    requires
        b > 0,
        lo * b <= a <= hi * b,
    ensures
        lo <= div_trunc(a, b) <= hi,
{
    if a >= 0 {
        assert(lo <= a / b <= hi) by (nonlinear_arith)
            requires b > 0, lo * b <= a <= hi * b, a >= 0;
    } else {
        assert(lo <= -((-a) / b) <= hi) by (nonlinear_arith)
            requires b > 0, lo * b <= a <= hi * b, a < 0;
    }
}

/// How far a truncated quotient can sit from zero: dividing by one of the
/// two unit scalars reproduces the numerator or its negation, and any other
/// divisor at most halves the numerator's magnitude.
pub proof fn lemma_div_trunc_range(a: int, b: int)
    requires
        b != 0,
    ensures
        b == 1 ==> div_trunc(a, b) == a,
        b == -1 ==> div_trunc(a, b) == -a,
        b >= 2 || b <= -2 ==> {
            let m = if a >= 0 { a } else { -a };
            -m <= 2 * div_trunc(a, b) <= m
        },
{
    if b == 1 || b == -1 {
        if a >= 0 {
            assert(a / b == a * b) by (nonlinear_arith)
                requires b == 1 || b == -1, a >= 0;
        } else {
            assert((-a) / b == (-a) * b) by (nonlinear_arith)
                requires b == 1 || b == -1, a < 0;
        }
    } else {
        let m = if a >= 0 { a } else { -a };
        if a >= 0 {
            assert(-m <= 2 * (a / b) <= m) by (nonlinear_arith)
                requires b >= 2 || b <= -2, a >= 0, m == a;
        } else {
            assert(-m <= 2 * (-((-a) / b)) <= m) by (nonlinear_arith)
                requires b >= 2 || b <= -2, a < 0, m == -a;
        }
    }
}

} // verus!
