//! Saturating fixed-point arithmetic for monetary quantities.
//!
//! Every price, amount, percent and leverage in this crate is an `i64`
//! holding the real value multiplied by [`SCALE`] (so `SCALE` itself stands
//! for 1.0 and [`HUNDRED_PERCENT`] for 100%). Operations saturate at the
//! `i64` range instead of overflowing; division truncates toward zero. The
//! spec functions below state those semantics exactly, and every executable
//! helper is proved to match them.

use vstd::prelude::*;

verus! {

use vstd::arithmetic::div_mod::lemma_div_nonincreasing;
use vstd::arithmetic::div_mod::lemma_fundamental_div_mod;
use vstd::arithmetic::mul::lemma_mul_is_commutative;
use vstd::arithmetic::mul::lemma_mul_nonnegative;
use vstd::arithmetic::mul::lemma_mul_unary_negation;
use vstd::arithmetic::div_mod::lemma_div_pos_is_pos;

/// Fixed-point scale: an `i64` value `v` stands for the real number `v / SCALE`.
pub const SCALE: i64 = 1_000_000_000_000;

/// 100% in fixed-point percent units (`100 * SCALE`).
pub const HUNDRED_PERCENT: i64 = 100_000_000_000_000;

/// Number of decimal digits covered by [`SCALE`].
pub const SCALE_DECIMALS: u32 = 12;

/// Clamp a mathematical integer into the `i64` range.
pub open spec fn clamp64(x: int) -> int {
    if x > i64::MAX {
        i64::MAX as int
    } else if x < i64::MIN {
        i64::MIN as int
    } else {
        x
    }
}

/// Division truncating toward zero (the behaviour of `/` on machine
/// integers), for a positive divisor.
pub open spec fn tdiv(a: int, b: int) -> int
    recommends
        b > 0,
{
    if a >= 0 {
        a / b
    } else {
        -((-a) / b)
    }
}

/// The quotient of truncating division is no farther from zero than the
/// dividend.
pub proof fn lemma_tdiv_bounds(a: int, b: int)
    requires
        b > 0,
    ensures
        a >= 0 ==> 0 <= tdiv(a, b) <= a,
        a < 0 ==> a <= tdiv(a, b) <= 0,
{
    if a >= 0 {
        lemma_div_nonincreasing(a, b);
        lemma_div_pos_is_pos(a, b);
    } else {
        lemma_div_nonincreasing(-a, b);
        lemma_div_pos_is_pos(-a, b);
    }
}

/// Bounds and remainder form of `tdiv(a, b) * b`.
pub proof fn lemma_tdiv_times(a: int, b: int)
    requires
        b > 0,
    ensures
        a >= 0 ==> 0 <= tdiv(a, b) * b <= a,
        a < 0 ==> a <= tdiv(a, b) * b <= 0,
        a >= 0 ==> a - tdiv(a, b) * b == a % b,
        a < 0 ==> a - tdiv(a, b) * b == -((-a) % b),
        a < 0 ==> tdiv(a, b) * b == -(((-a) / b) * b),
{
    if a >= 0 {
        lemma_fundamental_div_mod(a, b);
        lemma_div_pos_is_pos(a, b);
        lemma_mul_is_commutative(b, a / b);
        lemma_mul_nonnegative(a / b, b);
    } else {
        let na = -a;
        lemma_fundamental_div_mod(na, b);
        lemma_div_pos_is_pos(na, b);
        lemma_mul_is_commutative(b, na / b);
        lemma_mul_nonnegative(na / b, b);
        lemma_mul_unary_negation(na / b, b);
        assert(tdiv(a, b) == -(na / b));
        assert(tdiv(a, b) * b == (-(na / b)) * b);
        assert((-(na / b)) * b == -((na / b) * b));
        assert((na / b) * b == na - na % b);
    }
}

/// Saturating addition.
pub open spec fn sat_add_spec(a: int, b: int) -> int {
    clamp64(a + b)
}

/// Saturating subtraction.
pub open spec fn sat_sub_spec(a: int, b: int) -> int {
    clamp64(a - b)
}

/// Saturating negation.
pub open spec fn sat_neg_spec(a: int) -> int {
    clamp64(-a)
}

/// `a * b / d` with exact intermediate product and truncating division,
/// saturated into the `i64` range.
pub open spec fn mul_div_spec(a: int, b: int, d: int) -> int
    recommends
        d > 0,
{
    clamp64(tdiv(a * b, d))
}

/// `part / whole * 100` in fixed-point percent units.
pub open spec fn percent_spec(whole: int, part: int) -> int
    recommends
        whole > 0,
{
    mul_div_spec(part, HUNDRED_PERCENT as int, whole)
}

pub fn sat_add(a: i64, b: i64) -> (r: i64)
    ensures
        r == sat_add_spec(a as int, b as int),
{
    match a.checked_add(b) {
        Some(v) => v,
        None => {
            if b > 0 {
                i64::MAX
            } else {
                i64::MIN
            }
        },
    }
}

pub fn sat_sub(a: i64, b: i64) -> (r: i64)
    ensures
        r == sat_sub_spec(a as int, b as int),
{
    match a.checked_sub(b) {
        Some(v) => v,
        None => {
            if b < 0 {
                i64::MAX
            } else {
                i64::MIN
            }
        },
    }
}

pub fn sat_neg(a: i64) -> (r: i64)
    ensures
        r == sat_neg_spec(a as int),
{
    if a == i64::MIN {
        i64::MAX
    } else {
        -a
    }
}

/// Truncating division on `i128`, for a positive divisor and a dividend
/// strictly above `i128::MIN`.
pub(crate) fn tdiv_i128(a: i128, b: i128) -> (r: i128)
    requires
        b > 0,
        i128::MIN < a,
    ensures
        r == tdiv(a as int, b as int),
{
    proof {
        lemma_tdiv_bounds(a as int, b as int);
    }
    let q = a.checked_div(b);
    match q {
        Some(v) => v,
        None => 0,  // unreachable: the quotient of a positive divisor is in range
    }
}

pub(crate) fn clamp_to_i64(q: i128) -> (r: i64)
    ensures
        r == clamp64(q as int),
{
    if q > i64::MAX as i128 {
        i64::MAX
    } else if q < i64::MIN as i128 {
        i64::MIN
    } else {
        q as i64
    }
}

/// `a * b / d` computed with a 128-bit intermediate product, saturated.
pub fn mul_div(a: i64, b: i64, d: i64) -> (r: i64)
    requires
        d > 0,
    ensures
        r == mul_div_spec(a as int, b as int, d as int),
{
    proof {
        assert(i128::MIN < (a as int) * (b as int) <= i128::MAX) by (nonlinear_arith)
            requires
                i64::MIN <= a <= i64::MAX,
                i64::MIN <= b <= i64::MAX,
        ;
    }
    let p: i128 = (a as i128) * (b as i128);
    let q = tdiv_i128(p, d as i128);
    proof {
        lemma_tdiv_bounds(p as int, d as int);
    }
    clamp_to_i64(q)
}

/// `10^n` for small `n`.
pub open spec fn pow10(n: nat) -> int
    decreases n,
{
    if n == 0 {
        1
    } else {
        10 * pow10((n - 1) as nat)
    }
}

proof fn lemma_pow10_le(n: nat, m: nat)
    requires
        n <= m,
    ensures
        1 <= pow10(n) <= pow10(m),
    decreases m,
{
    if m == 0 {
    } else if n == m {
        lemma_pow10_le((n - 1) as nat, (m - 1) as nat);
    } else {
        lemma_pow10_le(n, (m - 1) as nat);
    }
}

pub(crate) fn pow10_exec(n: u32) -> (r: i64)
    requires
        n <= 12,
    ensures
        r == pow10(n as nat),
        1 <= r <= SCALE,
{
    proof {
        reveal_with_fuel(pow10, 13);
        assert(pow10(12) == 1_000_000_000_000);
    }
    let mut m: i64 = 1;
    let mut i: u32 = 0;
    while i < n
        invariant
            i <= n <= 12,
            m == pow10(i as nat),
            pow10(12) == 1_000_000_000_000,
        decreases n - i,
    {
        proof {
            lemma_pow10_le((i + 1) as nat, 12nat);
        }
        m = m * 10;
        i = i + 1;
    }
    proof {
        lemma_pow10_le(n as nat, 12nat);
    }
    m
}

} // verus!
