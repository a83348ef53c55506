//! Products and quotients that are proved to fit.

use vstd::prelude::*;

verus! {

/// `a * b`.
pub fn times(a: usize, b: usize) -> (r: usize)
    requires
        a * b <= usize::MAX,
    ensures
        r == a * b,
{
    assert(a * b >= 0) by (nonlinear_arith);
    a * b
}

/// `a * b * c`.
pub fn times3(a: usize, b: usize, c: usize) -> (r: usize)
    requires
        a * b * c <= usize::MAX,
    ensures
        r == a * b * c,
{
    if c == 0 {
        assert(a * b * c == 0) by (nonlinear_arith)
            requires
                c == 0,
        ;
        return 0;
    }
    assert(0 <= a * b <= a * b * c) by (nonlinear_arith)
        requires
            c >= 1,
            a >= 0,
            b >= 0,
    ;
    a * b * c
}

/// `a * b * c * d`.
pub fn times4(a: usize, b: usize, c: usize, d: usize) -> (r: usize)
    requires
        a * b * c * d <= usize::MAX,
    ensures
        r == a * b * c * d,
{
    if d == 0 {
        assert(a * b * c * d == 0) by (nonlinear_arith)
            requires
                d == 0,
        ;
        return 0;
    }
    assert(0 <= a * b * c <= a * b * c * d) by (nonlinear_arith)
        requires
            d >= 1,
            a >= 0,
            b >= 0,
            c >= 0,
    ;
    let abc = times3(a, b, c);
    abc * d
}

/// `a * b`, in the wide integers.
pub fn wide_times(a: u128, b: u128) -> (r: u128)
    requires
        a * b <= u128::MAX,
    ensures
        r == a * b,
{
    assert(a * b >= 0) by (nonlinear_arith);
    a * b
}

/// The quotient, rounded up.
pub open spec fn quotient_up(a: int, d: int) -> int {
    (a + d - 1) / d
}

/// The quotient, rounded up.
pub fn div_up(a: usize, d: usize) -> (r: usize)
    requires
        d > 0,
    ensures
        r == quotient_up(a as int, d as int),
        r <= a,
{
    proof {
        quotient_up_is(a as int, d as int);
    }
    if a == 0 {
        0
    } else {
        (a - 1) / d + 1
    }
}

proof fn quotient_up_is(a: int, d: int)
    requires
        d > 0,
        a >= 0,
    ensures
        a == 0 ==> quotient_up(a, d) == 0,
        a > 0 ==> quotient_up(a, d) == (a - 1) / d + 1,
        a > 0 ==> 0 <= (a - 1) / d <= a - 1,
{
    if a == 0 {
        vstd::arithmetic::div_mod::lemma_basic_div(d - 1, d);
    } else {
        vstd::arithmetic::div_mod::lemma_div_plus_one(a - 1, d);
        vstd::arithmetic::div_mod::lemma_div_pos_is_pos(a - 1, d);
        vstd::arithmetic::div_mod::lemma_div_nonincreasing(a - 1, d);
    }
}

/// The quotient rounded up is the least whose product with `d` reaches `a`.
pub proof fn quotient_up_covers(a: int, d: int)
    requires
        d > 0,
        a >= 0,
    ensures
        quotient_up(a, d) * d >= a,
        a > 0 ==> (quotient_up(a, d) - 1) * d < a,
        quotient_up(a, d) >= 0,
{
    quotient_up_is(a, d);
    let q = quotient_up(a, d);
    if a > 0 {
        vstd::arithmetic::div_mod::lemma_fundamental_div_mod(a - 1, d);
        vstd::arithmetic::div_mod::lemma_mod_bound(a - 1, d);
        assert((q - 1) * d == d * ((a - 1) / d)) by (nonlinear_arith)
            requires
                q - 1 == (a - 1) / d,
        ;
        assert(q * d == (q - 1) * d + d) by (nonlinear_arith);
    } else {
        assert(q * d == 0) by (nonlinear_arith)
            requires
                q == 0,
        ;
    }
}

/// A product of bounded numbers is bounded.
pub proof fn product_bound(a: int, b: int, x: int, y: int)
    requires
        0 <= a <= x,
        0 <= b <= y,
    ensures
        0 <= a * b <= x * y,
{
    assert(0 <= a * b <= x * y) by (nonlinear_arith)
        requires
            0 <= a <= x,
            0 <= b <= y,
    ;
}

/// `d` goes into `n` so many times.
pub open spec fn goes_into(d: int, n: int, times: int) -> bool {
    n == times * d
}

/// Nothing is left over where, and only where, the divisor goes in a whole number
/// of times.
pub proof fn nothing_is_left_over(d: int, n: int)
    requires
        d > 0,
    ensures
        n % d == 0 <==> exists|k: int| #[trigger] goes_into(d, n, k),
{
    vstd::arithmetic::div_mod::lemma_fundamental_div_mod(n, d);
    if n % d == 0 {
        assert(d * (n / d) == (n / d) * d) by (nonlinear_arith);
        assert(goes_into(d, n, n / d));
    }
    if exists|k: int| #[trigger] goes_into(d, n, k) {
        let k = choose|k: int| #[trigger] goes_into(d, n, k);
        vstd::arithmetic::div_mod::lemma_fundamental_div_mod_converse(n, d, k, 0);
    }
}

} // verus!
