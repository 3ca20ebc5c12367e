use vstd::arithmetic::div_mod::{
    lemma_div_is_ordered, lemma_fundamental_div_mod, lemma_fundamental_div_mod_converse,
};
use vstd::prelude::*;

verus! {

/// The integer nearest to `n / d`, a tie going to the one farther from zero.
pub open spec fn round_div(n: int, d: int) -> int
    recommends
        d > 0,
{
    if n >= 0 {
        (2 * n + d) / (2 * d)
    } else {
        -((2 * (-n) + d) / (2 * d))
    }
}

/// Whether `q` is within half a unit of `n / d`, with a tie resolved away
/// from zero. Exactly one `q` is (see [`lemma_round_div_unique`]).
pub open spec fn is_nearest(n: int, d: int, q: int) -> bool {
    if n >= 0 {
        -d <= 2 * (n - q * d) < d
    } else {
        -d < 2 * (n - q * d) <= d
    }
}

/// The smallest integer that is at least `n / d`, for `n` not negative.
pub open spec fn ceil_div(n: int, d: int) -> int
    recommends
        n >= 0,
        d > 0,
{
    (n + d - 1) / d
}

/// `round_div` lands within half a unit of the exact quotient.
pub proof fn lemma_round_div_nearest(n: int, d: int)
    requires
        d > 0,
    ensures
        is_nearest(n, d, round_div(n, d)),
        n >= 0 ==> round_div(n, d) >= 0,
        n <= 0 ==> round_div(n, d) <= 0,
{
    if n >= 0 {
        let q = (2 * n + d) / (2 * d);
        lemma_fundamental_div_mod(2 * n + d, 2 * d);
        assert(2 * n + d == (2 * d) * q + (2 * n + d) % (2 * d));
        assert((2 * d) * q == 2 * (q * d)) by (nonlinear_arith);
        assert(q >= 0) by (nonlinear_arith)
            requires
                2 * (q * d) + 2 * d > 0,
                d > 0,
        ;
        if n == 0 {
            assert(q <= 0) by (nonlinear_arith)
                requires
                    2 * (q * d) <= d,
                    d > 0,
            ;
        }
    } else {
        let m = -n;
        let q = (2 * m + d) / (2 * d);
        lemma_fundamental_div_mod(2 * m + d, 2 * d);
        assert(2 * m + d == (2 * d) * q + (2 * m + d) % (2 * d));
        assert((2 * d) * q == 2 * (q * d)) by (nonlinear_arith);
        assert((-q) * d == -(q * d)) by (nonlinear_arith);
        assert(q >= 0) by (nonlinear_arith)
            requires
                2 * (q * d) + 2 * d > 0,
                d > 0,
        ;
    }
}

/// Only one integer is nearest: whatever passes `is_nearest` is `round_div`.
pub proof fn lemma_round_div_unique(n: int, d: int, q: int)
    requires
        d > 0,
        is_nearest(n, d, q),
    ensures
        round_div(n, d) == q,
{
    if n >= 0 {
        let r = 2 * n + d - (2 * d) * q;
        assert((2 * d) * q == 2 * (q * d)) by (nonlinear_arith);
        assert(0 <= r < 2 * d);
        lemma_fundamental_div_mod_converse(2 * n + d, 2 * d, q, r);
    } else {
        let m = -n;
        let p = -q;
        assert(p * d == -(q * d)) by (nonlinear_arith)
            requires
                p == -q,
        ;
        let r = 2 * m + d - (2 * d) * p;
        assert((2 * d) * p == 2 * (p * d)) by (nonlinear_arith);
        assert(0 <= r < 2 * d);
        lemma_fundamental_div_mod_converse(2 * m + d, 2 * d, p, r);
    }
}

/// An exact multiple rounds to its quotient.
pub proof fn lemma_round_div_multiple(k: int, d: int)
    requires
        d > 0,
    ensures
        round_div(k * d, d) == k,
{
    assert(k >= 0 ==> k * d >= 0) by (nonlinear_arith)
        requires
            d > 0,
    ;
    assert(k < 0 ==> k * d < 0) by (nonlinear_arith)
        requires
            d > 0,
    ;
    lemma_round_div_unique(k * d, d, k);
}

/// Rounding never reverses an order.
pub proof fn lemma_round_div_monotonic(a: int, b: int, d: int)
    requires
        d > 0,
        a <= b,
    ensures
        round_div(a, d) <= round_div(b, d),
{
    let p = round_div(a, d);
    let q = round_div(b, d);
    lemma_round_div_nearest(a, d);
    lemma_round_div_nearest(b, d);
    if p > q {
        assert(p * d - q * d >= d) by (nonlinear_arith)
            requires
                p >= q + 1,
                d > 0,
        ;
        if a >= 0 {
            assert(false);
        } else if b < 0 {
            assert(false);
        } else {
            assert(p <= 0 && q >= 0);
        }
    }
}

/// A dividend within `limit` divisors of zero rounds to a quotient within
/// `limit` of zero.
pub proof fn lemma_round_div_bound(n: int, d: int, limit: int)
    requires
        d > 0,
        limit >= 0,
        -(limit * d) <= n <= limit * d,
    ensures
        -limit <= round_div(n, d) <= limit,
{
    let q = round_div(n, d);
    lemma_round_div_nearest(n, d);
    if q > limit {
        assert(q * d >= limit * d + d) by (nonlinear_arith)
            requires
                q >= limit + 1,
                d > 0,
        ;
    }
    if q < -limit {
        assert(q * d <= -(limit * d) - d) by (nonlinear_arith)
            requires
                q <= -limit - 1,
                d > 0,
        ;
    }
}

/// Rounding up lands on the least multiple of the divisor that is not below
/// the dividend.
pub proof fn lemma_ceil_div_nearest(n: int, d: int)
    requires
        d > 0,
        n >= 0,
    ensures
        ceil_div(n, d) * d >= n,
        (ceil_div(n, d) - 1) * d < n || n == 0,
        n == 0 ==> ceil_div(n, d) == 0,
{
    let q = ceil_div(n, d);
    lemma_fundamental_div_mod(n + d - 1, d);
    assert(d * q == q * d) by (nonlinear_arith);
    assert((q - 1) * d == q * d - d) by (nonlinear_arith);
    if n == 0 {
        lemma_fundamental_div_mod_converse(d - 1, d, 0, d - 1);
    }
}

/// A dividend of at most `limit` divisors rounds up to at most `limit`.
pub proof fn lemma_ceil_div_bound(n: int, d: int, limit: int)
    requires
        d > 0,
        0 <= n <= limit * d,
    ensures
        0 <= ceil_div(n, d) <= limit,
{
    lemma_div_is_ordered(n + d - 1, limit * d + d - 1, d);
    assert(limit * d == d * limit) by (nonlinear_arith);
    lemma_fundamental_div_mod_converse(limit * d + d - 1, d, limit, d - 1);
    lemma_div_is_ordered(0, n + d - 1, d);
}

/// Largest magnitude that [`div_round`] takes: twice the dividend plus the
/// divisor must fit in 128 bits.
pub const ROUND_LIMIT: i128 = 0x1fff_ffff_ffff_ffff_ffff_ffff_ffff_ffff;

/// `n / d` rounded to the nearest integer, a tie going away from zero.
pub fn div_round(n: i128, d: i128) -> (q: i128)
    requires
        0 < d <= ROUND_LIMIT,
        -ROUND_LIMIT <= n <= ROUND_LIMIT,
    ensures
        q == round_div(n as int, d as int),
{
    proof {
        assert(ROUND_LIMIT * d >= ROUND_LIMIT) by (nonlinear_arith)
            requires
                d >= 1,
        ;
        lemma_round_div_bound(n as int, d as int, ROUND_LIMIT as int);
    }
    if n >= 0 {
        (2 * n + d) / (2 * d)
    } else {
        let m: i128 = -n;
        let p: i128 = (2 * m + d) / (2 * d);
        -p
    }
}

/// `n / d` rounded up, for `n` not negative.
pub fn div_ceil(n: u128, d: u128) -> (q: u128)
    requires
        d > 0,
        n + d <= u128::MAX,
    ensures
        q == ceil_div(n as int, d as int),
{
    (n + d - 1) / d
}

} // verus!
