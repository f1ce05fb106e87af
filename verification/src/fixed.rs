//! Fixed-point scalars.
//!
//! Every length, ratio and angle in this crate is an `i64` that counts
//! billionths: the scalar `v` stands for the real number `v / ONE`.
//! Intermediate products are formed in 128 bits, so that no operation here
//! can overflow, and every division rounds towards negative infinity.

use vstd::arithmetic::div_mod::lemma_fundamental_div_mod_converse;
use vstd::prelude::*;

verus! {

/// The scalar that stands for the real number one.
pub const ONE: i64 = 1_000_000_000;

/// Whether `r` is the largest number whose square does not exceed `n`.
pub open spec fn is_int_sqrt(n: nat, r: nat) -> bool {
    r * r <= n && n < (r + 1) * (r + 1)
}

/// The largest `r` whose square does not exceed `n`.
pub open spec fn int_sqrt(n: nat) -> nat {
    choose|r: nat| is_int_sqrt(n, r)
}

/// `a` modulo a divisor of either sign: the remainder has the divisor's sign.
pub open spec fn floor_mod(a: int, b: int) -> int {
    if b > 0 {
        a % b
    } else {
        -((-a) % (-b))
    }
}

/// The product of two scalars, as a scalar.
pub open spec fn scaled_product(a: int, b: int) -> int {
    (a * b) / (ONE as int)
}

/// The point between `min` and `max` that a sine in `[-ONE, ONE]` selects:
/// `min` at `-ONE`, the middle at zero, `max` at `ONE`.
pub open spec fn wave_value(sine: int, min: int, max: int) -> int {
    min + ((sine + ONE) * (max - min)) / (2 * ONE)
}

/// Squaring keeps the order of numbers that are not negative.
pub proof fn lemma_square_le(a: nat, b: nat)
    by (nonlinear_arith)
    requires
        a <= b,
    ensures
        a * a <= b * b,
{
}

/// A number between two consecutive squares has the smaller root as its
/// integer square root.
pub proof fn lemma_int_sqrt_unique(n: nat, r: nat)
    requires
        r * r <= n,
        n < (r + 1) * (r + 1),
    ensures
        int_sqrt(n) == r,
{
    let c = int_sqrt(n);
    assert(is_int_sqrt(n, r));
    assert(is_int_sqrt(n, c));
    if c < r {
        lemma_square_le(c + 1, r);
    } else if c > r {
        lemma_square_le(r + 1, c);
    }
}

/// Every number has an integer square root, which brackets it between
/// two consecutive squares.
pub proof fn lemma_int_sqrt_bounds(n: nat)
    ensures
        int_sqrt(n) * int_sqrt(n) <= n,
        n < (int_sqrt(n) + 1) * (int_sqrt(n) + 1),
    decreases n,
{
    if n == 0 {
        assert(0nat * 0nat == 0 && (0nat + 1) * (0nat + 1) == 1) by (nonlinear_arith);
        assert(is_int_sqrt(n, 0));
    } else {
        let p = (n - 1) as nat;
        lemma_int_sqrt_bounds(p);
        let r = int_sqrt(p);
        if n < (r + 1) * (r + 1) {
            assert(is_int_sqrt(n, r));
        } else {
            assert(n == (r + 1) * (r + 1));
            assert((r + 1) * (r + 1) < (r + 1 + 1) * (r + 1 + 1)) by (nonlinear_arith);
            assert(is_int_sqrt(n, r + 1));
        }
    }
}

/// The integer square root never decreases as its argument grows.
pub proof fn lemma_int_sqrt_monotonic(a: nat, b: nat)
    requires
        a <= b,
    ensures
        int_sqrt(a) <= int_sqrt(b),
{
    lemma_int_sqrt_bounds(a);
    lemma_int_sqrt_bounds(b);
    if int_sqrt(a) > int_sqrt(b) {
        lemma_square_le(int_sqrt(b) + 1, int_sqrt(a));
    }
}

/// A quotient by `ONE` is no larger in magnitude than what was divided.
pub proof fn lemma_quotient_no_larger(n: int)
    ensures
        n >= 0 ==> 0 <= n / (ONE as int) <= n,
        n <= 0 ==> n <= n / (ONE as int) <= 0,
{
    let one = ONE as int;
    let q = n / one;
    let r = n % one;
    vstd::arithmetic::div_mod::lemma_fundamental_div_mod(n, one);
    assert((n >= 0 ==> 0 <= q <= n) && (n <= 0 ==> n <= q <= 0)) by (nonlinear_arith)
        requires
            n == one * q + r,
            0 <= r < one,
            one == 1_000_000_000,
    ;
}

proof fn lemma_floor_div_negative(m: int, b: int)
    requires
        m >= 0,
        b > 0,
    ensures
        (-m - 1) / b == -1 - m / b,
        (-m - 1) % b == b - 1 - m % b,
{
    let q = m / b;
    let r = m % b;
    vstd::arithmetic::div_mod::lemma_fundamental_div_mod(m, b);
    assert(0 <= r < b);
    assert(-m - 1 == (-1 - q) * b + (b - 1 - r)) by (nonlinear_arith)
        requires
            m == b * q + r,
    ;
    lemma_fundamental_div_mod_converse(-m - 1, b, -1 - q, b - 1 - r);
}

/// Division that rounds towards negative infinity.
pub fn floor_div(a: i128, b: i128) -> (q: i128)
    requires
        b > 0,
    ensures
        q == a / b,
{
    if a >= 0 {
        a / b
    } else {
        let m: i128 = -(a + 1);
        proof {
            lemma_floor_div_negative(m as int, b as int);
            assert(0 <= m as int / b as int <= m) by (nonlinear_arith)
                requires
                    m >= 0,
                    b > 0,
            ;
        }
        -1 - m / b
    }
}

/// The remainder that goes with [`floor_div`]: never negative.
pub fn floor_rem(a: i128, b: i128) -> (r: i128)
    requires
        b > 0,
    ensures
        r == a % b,
        0 <= r < b,
{
    if a >= 0 {
        a % b
    } else {
        let m: i128 = -(a + 1);
        proof {
            lemma_floor_div_negative(m as int, b as int);
        }
        b - 1 - m % b
    }
}

/// The mathematical modulo: `a - b * floor(a / b)`. For a positive divisor
/// the result lies in `[0, b)`, whatever the sign of `a`.
pub fn modulo(a: i64, b: i64) -> (r: i64)
    requires
        b != 0,
    ensures
        r == floor_mod(a as int, b as int),
        b > 0 ==> 0 <= r < b,
        b < 0 ==> b < r <= 0,
{
    if b > 0 {
        let r: i128 = floor_rem(a as i128, b as i128);
        r as i64
    } else {
        let r: i128 = floor_rem(-(a as i128), -(b as i128));
        (-r) as i64
    }
}

/// The product of two scalars, rounded down to a whole number of billionths.
pub fn times(a: i64, b: i64) -> (p: i128)
    ensures
        p == scaled_product(a as int, b as int),
{
    proof {
        assert(-0x4000_0000_0000_0000_0000_0000_0000_0000 <= a * b
            <= 0x4000_0000_0000_0000_0000_0000_0000_0000) by (nonlinear_arith)
            requires
                -0x8000_0000_0000_0000 <= a <= 0x7fff_ffff_ffff_ffff,
                -0x8000_0000_0000_0000 <= b <= 0x7fff_ffff_ffff_ffff,
        ;
    }
    let wide: i128 = (a as i128) * (b as i128);
    floor_div(wide, ONE as i128)
}

/// The integer square root, found by bisection between zero and a power of
/// two that is known to be too large.
pub fn isqrt(n: u128) -> (r: u64)
    ensures
        r as nat == int_sqrt(n as nat),
        r * r <= n,
        n < (r + 1) * (r + 1),
{
    let mut lo: u128 = 0;
    let mut hi: u128 = if n < 0x1_0000_0000_0000_0000 {
        0x1_0000_0000
    } else {
        0x1_0000_0000_0000_0000
    };
    assert(n < hi * hi) by (nonlinear_arith)
        requires
            hi == 0x1_0000_0000_0000_0000 || (hi == 0x1_0000_0000 && n < 0x1_0000_0000_0000_0000),
            n <= u128::MAX,
    ;
    while hi - lo > 1
        invariant
            lo < hi <= 0x1_0000_0000_0000_0000,
            lo * lo <= n,
            n < hi * hi,
        decreases hi - lo,
    {
        let mid: u128 = lo + (hi - lo) / 2;
        assert(mid * mid <= 0xffff_ffff_ffff_ffff * 0xffff_ffff_ffff_ffff) by (nonlinear_arith)
            requires
                0 <= mid <= 0xffff_ffff_ffff_ffff,
        ;
        if mid * mid <= n {
            lo = mid;
        } else {
            hi = mid;
        }
    }
    proof {
        lemma_int_sqrt_unique(n as nat, lo as nat);
    }
    lo as u64
}

/// Interpolates between `min` and `max` by a sine: the sine's range
/// `[-ONE, ONE]` is mapped linearly onto `[min, max]`.
pub fn sine_wave(sine: i64, min: i64, max: i64) -> (r: i64)
    requires
        -ONE <= sine <= ONE,
    ensures
        r == wave_value(sine as int, min as int, max as int),
        min <= max ==> min <= r <= max,
        max <= min ==> max <= r <= min,
{
    let t: i128 = sine as i128 + ONE as i128;
    let span: i128 = max as i128 - min as i128;
    proof {
        lemma_wave_within(t as int, span as int);
    }
    let part: i128 = floor_div(t * span, 2 * (ONE as i128));
    (min as i128 + part) as i64
}

proof fn lemma_wave_within(t: int, span: int)
    requires
        0 <= t <= 2 * ONE,
        -0x1_0000_0000_0000_0000 < span < 0x1_0000_0000_0000_0000,
    ensures
        -0x4000_0000_0000_0000_0000_0000_0000_0000 < t * span
            < 0x4000_0000_0000_0000_0000_0000_0000_0000,
        span >= 0 ==> 0 <= (t * span) / (2 * ONE) <= span,
        span <= 0 ==> span <= (t * span) / (2 * ONE) <= 0,
{
    let d = 2 * ONE as int;
    assert(-0x4000_0000_0000_0000_0000_0000_0000_0000 < t * span
        < 0x4000_0000_0000_0000_0000_0000_0000_0000) by (nonlinear_arith)
        requires
            0 <= t <= 2_000_000_000,
            -0x1_0000_0000_0000_0000 < span < 0x1_0000_0000_0000_0000,
    ;
    let q = (t * span) / d;
    let r = (t * span) % d;
    vstd::arithmetic::div_mod::lemma_fundamental_div_mod(t * span, d);
    assert(0 <= r < d);
    if span >= 0 {
        assert(0 <= t * span <= d * span) by (nonlinear_arith)
            requires
                0 <= t <= d,
                span >= 0,
        ;
        assert(0 <= q <= span) by (nonlinear_arith)
            requires
                t * span == d * q + r,
                0 <= r < d,
                0 <= t * span <= d * span,
                d > 0,
        ;
    } else {
        assert(d * span <= t * span <= 0) by (nonlinear_arith)
            requires
                0 <= t <= d,
                span <= 0,
        ;
        assert(span <= q <= 0) by (nonlinear_arith)
            requires
                t * span == d * q + r,
                0 <= r < d,
                d * span <= t * span <= 0,
                d > 0,
        ;
    }
}

} // verus!
