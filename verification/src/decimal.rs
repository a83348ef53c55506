//! Decimal numbers, as configuration files spell them.

use vstd::prelude::*;

verus! {

/// The number `digits * 10^exp`.
#[derive(Debug, Clone, Copy, PartialEq, Eq, Structural)]
pub struct Decimal {
    pub digits: u64,
    pub exp: i32,
}

/// A power of ten.
pub open spec fn pow10(n: nat) -> nat
    decreases n,
{
    if n == 0 {
        1
    } else {
        10 * pow10((n - 1) as nat)
    }
}

/// `n / d`, rounded to the nearest integer and up where two are as near.
pub open spec fn rounded(n: int, d: int) -> int {
    (2 * n + d) / (2 * d)
}

/// `n` times the number, rounded to the nearest integer.
pub open spec fn scaled(n: nat, by: Decimal) -> nat {
    if by.exp >= 0 {
        n * by.digits as nat * pow10(by.exp as nat)
    } else {
        rounded(n * by.digits, pow10((-by.exp) as nat) as int) as nat
    }
}

proof fn pow10_positive(n: nat)
    ensures
        pow10(n) >= 1,
    decreases n,
{
    if n > 0 {
        pow10_positive((n - 1) as nat);
    }
}

proof fn pow10_grows(a: nat, b: nat)
    requires
        a <= b,
    ensures
        pow10(a) <= pow10(b),
    decreases b,
{
    if a < b {
        pow10_grows(a, (b - 1) as nat);
        pow10_positive((b - 1) as nat);
    }
}

proof fn large_powers()
    ensures
        pow10(38) == 100_000_000_000_000_000_000_000_000_000_000_000_000int,
        pow10(39) == 1_000_000_000_000_000_000_000_000_000_000_000_000_000int,
{
    assert(pow10(10) == 10_000_000_000) by {
        reveal_with_fuel(pow10, 11);
    }
    assert(pow10(20) == 100_000_000_000_000_000_000) by {
        reveal_with_fuel(pow10, 11);
    }
    assert(pow10(30) == 1_000_000_000_000_000_000_000_000_000_000int) by {
        reveal_with_fuel(pow10, 11);
    }
    assert(pow10(38) == 100_000_000_000_000_000_000_000_000_000_000_000_000int) by {
        reveal_with_fuel(pow10, 9);
    }
}

proof fn rounds_to(n: int, d: int, q: int, r: int)
    requires
        d > 0,
        0 <= r < d,
        n == q * d + r,
    ensures
        rounded(n, d) == if 2 * r >= d {
            q + 1
        } else {
            q
        },
{
    if 2 * r >= d {
        assert(2 * n + d == (q + 1) * (2 * d) + (2 * r - d)) by (nonlinear_arith)
            requires
                n == q * d + r,
        ;
        vstd::arithmetic::div_mod::lemma_fundamental_div_mod_converse(
            2 * n + d,
            2 * d,
            q + 1,
            2 * r - d,
        );
    } else {
        assert(2 * n + d == q * (2 * d) + (2 * r + d)) by (nonlinear_arith)
            requires
                n == q * d + r,
        ;
        vstd::arithmetic::div_mod::lemma_fundamental_div_mod_converse(
            2 * n + d,
            2 * d,
            q,
            2 * r + d,
        );
    }
}

/// `n` times a number, rounded to the nearest integer.
pub fn scale(n: u64, by: Decimal) -> (r: u128)
    requires
        scaled(n as nat, by) <= u128::MAX,
    ensures
        r == scaled(n as nat, by),
{
    match scale_within(n, by) {
        Some(r) => r,
        None => 0,
    }
}

/// `n` times a number, rounded to the nearest integer, if the wide integers hold
/// it.
pub fn scale_within(n: u64, by: Decimal) -> (r: Option<u128>)
    ensures
        match r {
            Some(r) => r == scaled(n as nat, by),
            None => scaled(n as nat, by) > u128::MAX,
        },
{
    assert(n * by.digits <= u64::MAX * u64::MAX) by (nonlinear_arith)
        requires
            0 <= n <= u64::MAX,
            0 <= by.digits <= u64::MAX,
    ;
    assert(n * by.digits >= 0) by (nonlinear_arith);
    let product: u128 = n as u128 * by.digits as u128;
    if by.exp >= 0 {
        if product == 0 {
            assert(0 * pow10(by.exp as nat) == 0);
            return Some(0);
        }
        let mut r: u128 = product;
        let mut i: i32 = 0;
        assert(product * 1 == product);
        while i < by.exp
            invariant
                0 <= i <= by.exp,
                product >= 1,
                product == n * by.digits,
                r == product * pow10(i as nat),
            decreases by.exp - i,
        {
            proof {
                let p = pow10(i as nat) as int;
                assert(product * (10 * p) == 10 * (product * p)) by (nonlinear_arith);
                pow10_grows((i + 1) as nat, by.exp as nat);
                assert(product * pow10((i + 1) as nat) <= product * pow10(by.exp as nat))
                    by (nonlinear_arith)
                    requires
                        pow10((i + 1) as nat) <= pow10(by.exp as nat),
                        product >= 1,
                ;
            }
            r = match r.checked_mul(10) {
                Some(r) => r,
                None => {
                    return None;
                },
            };
            i = i + 1;
        }
        return Some(r);
    }
    let ghost places = (-by.exp) as nat;
    proof {
        pow10_positive(places);
    }
    if by.exp <= -39 {
        proof {
            pow10_grows(39, places);
            large_powers();
            assert(product as int == 0 * pow10(places) + product) by (nonlinear_arith);
            rounds_to(product as int, pow10(places) as int, 0, product as int);
        }
        return Some(0);
    }
    let mut p: u128 = 1;
    let mut i: i32 = 0;
    while i > by.exp
        invariant
            -38 <= by.exp <= i <= 0,
            p == pow10((-i) as nat),
        decreases i - by.exp,
    {
        proof {
            pow10_grows((-i + 1) as nat, 38);
            large_powers();
        }
        p = p * 10;
        i = i - 1;
    }
    let q = product / p;
    let rest = product % p;
    proof {
        vstd::arithmetic::div_mod::lemma_fundamental_div_mod(product as int, p as int);
        assert(q * p == p * q) by (nonlinear_arith);
        rounds_to(product as int, p as int, q as int, rest as int);
    }
    if rest >= p - rest {
        Some(q + 1)
    } else {
        Some(q)
    }
}

/// Scaling by a decimal gives the nearest integer: the product is off by half of
/// one at most, and where two are as near it is the larger.
pub proof fn scaling_gives_the_nearest_integer(n: u64, by: Decimal, r: u128)
    requires
        call_ensures(scale, (n, by), r),
    ensures
        by.exp >= 0 ==> r == n * by.digits * vstd::arithmetic::power::pow(10, by.exp as nat),
        by.exp < 0 ==> {
            let p = vstd::arithmetic::power::pow(10, (-by.exp) as nat);
            &&& 2 * (n * by.digits - r * p) < p
            &&& 2 * (r * p - n * by.digits) <= p
        },
{
    if by.exp >= 0 {
        powers_are(by.exp as nat);
    } else {
        let places = (-by.exp) as nat;
        powers_are(places);
        pow10_positive(places);
        let p = pow10(places) as int;
        let exact = n * by.digits;
        assert(exact >= 0) by (nonlinear_arith)
            requires
                exact == n * by.digits,
        ;
        let (q, rest) = (exact / p, exact % p);
        vstd::arithmetic::div_mod::lemma_fundamental_div_mod(exact, p);
        vstd::arithmetic::div_mod::lemma_mod_bound(exact, p);
        vstd::arithmetic::div_mod::lemma_div_pos_is_pos(exact, p);
        assert(p * q == q * p) by (nonlinear_arith);
        rounds_to(exact, p, q, rest);
        assert((q + 1) * p == q * p + p) by (nonlinear_arith);
    }
}

proof fn powers_are(n: nat)
    ensures
        pow10(n) == vstd::arithmetic::power::pow(10, n),
    decreases n,
{
    if n == 0 {
        vstd::arithmetic::power::lemma_pow0(10);
    } else {
        powers_are((n - 1) as nat);
        reveal(vstd::arithmetic::power::pow);
    }
}

} // verus!
