//! Integer division with a stated rounding direction.

use vstd::prelude::*;
use vstd::arithmetic::div_mod::{
    lemma_div_is_ordered,
    lemma_div_multiples_vanish,
    lemma_fundamental_div_mod,
    lemma_fundamental_div_mod_converse,
};

verus! {

/// The quotient of `n` by a positive `d`, rounded towards zero.
pub open spec fn spec_div_trunc(n: int, d: int) -> int {
    if n >= 0 {
        n / d
    } else {
        -((-n) / d)
    }
}

/// The quotient of `n` by a positive `d`, rounded towards positive infinity.
pub open spec fn spec_div_ceil(n: int, d: int) -> int {
    -((-n) / d)
}

/// Rounding down a quotient with a negative numerator is rounding up its mirror image.
pub proof fn lemma_floor_of_negative(m: int, d: int)
    requires
        0 <= m,
        0 < d,
    ensures
        (-m) / d == -((m + d - 1) / d),
{
    let q = (m + d - 1) / d;
    let r = (m + d - 1) % d;
    lemma_fundamental_div_mod(m + d - 1, d);
    assert(d * (-q) == -(d * q)) by (nonlinear_arith);
    assert(-m == (-q) * d + (d - 1 - r)) by (nonlinear_arith)
        requires
            m + d - 1 == d * q + r,
    ;
    lemma_fundamental_div_mod_converse(-m, d, -q, d - 1 - r);
}

/// Scaling by a fraction between zero and one, and rounding to the nearest whole number,
/// lands between zero and the scaled value.
pub proof fn lemma_scaled_between(diff: int, num: int, den: int)
    requires
        0 <= num <= den,
        0 < den,
    ensures
        diff >= 0 ==> 0 <= (2 * diff * num + den) / (2 * den) <= diff,
        diff <= 0 ==> diff <= (2 * diff * num + den) / (2 * den) <= 0,
{
    let n = 2 * diff * num + den;
    let d = 2 * den;
    lemma_fundamental_div_mod(n, d);
    let q = n / d;
    let r = n % d;
    if diff >= 0 {
        assert(0 <= n < d * (diff + 1)) by (nonlinear_arith)
            requires
                n == 2 * diff * num + den,
                d == 2 * den,
                0 <= num <= den,
                0 < den,
                diff >= 0,
        ;
        assert(0 <= q <= diff) by (nonlinear_arith)
            requires
                n == d * q + r,
                0 <= r < d,
                0 <= n < d * (diff + 1),
        ;
    } else {
        assert(d * diff <= n < d) by (nonlinear_arith)
            requires
                n == 2 * diff * num + den,
                d == 2 * den,
                0 <= num <= den,
                0 < den,
                diff < 0,
        ;
        assert(diff <= q <= 0) by (nonlinear_arith)
            requires
                n == d * q + r,
                0 <= r < d,
                d * diff <= n < d,
        ;
    }
}

/// Rounding towards zero keeps the order of the numerators.
pub proof fn lemma_div_trunc_ordered(m: int, n: int, d: int)
    requires
        m <= n,
        0 < d,
    ensures
        spec_div_trunc(m, d) <= spec_div_trunc(n, d),
{
    lemma_div_multiples_vanish(0, d);
    assert(d * 0 == 0);
    if m >= 0 {
        lemma_div_is_ordered(m, n, d);
    } else if n >= 0 {
        lemma_div_is_ordered(0, -m, d);
        lemma_div_is_ordered(0, n, d);
    } else {
        lemma_div_is_ordered(-n, -m, d);
    }
}

/// Divides by a positive number, rounding towards zero.
pub fn div_trunc(n: i64, d: i64) -> (q: i64)
    requires
        0 < d,
    ensures
        q == spec_div_trunc(n as int, d as int),
{
    if n >= 0 {
        n / d
    } else {
        let m: i128 = -(n as i128);
        let p: i128 = m / (d as i128);
        proof {
            lemma_div_is_ordered(0, m as int, d as int);
            assert(m <= d * m) by (nonlinear_arith)
                requires
                    0 <= m,
                    1 <= d,
            ;
            lemma_div_is_ordered(m as int, d * m, d as int);
            lemma_div_multiples_vanish(m as int, d as int);
        }
        (-p) as i64
    }
}

/// Divides a non-negative number by a positive one, rounding up.
pub fn div_ceil(n: i64, d: i64) -> (q: i64)
    requires
        0 <= n,
        0 < d,
    ensures
        q == spec_div_ceil(n as int, d as int),
        0 <= q <= n,
{
    let m: i128 = n as i128 + d as i128 - 1;
    let p: i128 = m / (d as i128);
    proof {
        lemma_floor_of_negative(n as int, d as int);
        lemma_div_is_ordered(0, m as int, d as int);
        if n == 0 {
            lemma_fundamental_div_mod_converse(m as int, d as int, 0, d - 1);
        } else {
            assert(m <= d * n) by (nonlinear_arith)
                requires
                    m == n + d - 1,
                    1 <= n,
                    1 <= d,
            ;
            lemma_div_is_ordered(m as int, d * n, d as int);
            lemma_div_multiples_vanish(n as int, d as int);
        }
    }
    p as i64
}

} // verus!
