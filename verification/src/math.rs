//! Fixed-point scalar arithmetic: truncating division, rescaled products,
//! and an exact integer square root.

use vstd::prelude::*;
use vstd::arithmetic::div_mod::{lemma_div_is_ordered, lemma_fundamental_div_mod, lemma_div_pos_is_pos};

verus! {

/// Number of fixed-point ticks in one world unit.
pub const SCALE: i64 = 65536;

/// Division that rounds toward zero (the semantics of hardware integer
/// division), for a positive divisor.
pub open spec fn div_tz(a: int, b: int) -> int
    recommends
        b > 0,
{
    if a >= 0 {
        a / b
    } else {
        -((-a) / b)
    }
}

/// Fixed-point product: the integer product rescaled, truncated toward zero.
pub open spec fn fp_mul(a: int, b: int) -> int {
    div_tz(a * b, SCALE as int)
}

/// Integer square root: the greatest `r` with `r * r <= n`.
pub open spec fn sqrt_nat(n: nat) -> nat
    decreases n,
{
    if n == 0 {
        0
    } else {
        let r = sqrt_nat((n - 1) as nat);
        if (r + 1) * (r + 1) <= n {
            r + 1
        } else {
            r
        }
    }
}

/// Square root of a non-negative fixed-point value, again in fixed point.
pub open spec fn sqrt_fp(x: int) -> int
    recommends
        x >= 0,
{
    sqrt_nat((x * SCALE) as nat) as int
}

pub proof fn lemma_sqrt_nat_bounds(n: nat)
    ensures
        sqrt_nat(n) * sqrt_nat(n) <= n,
        n < (sqrt_nat(n) + 1) * (sqrt_nat(n) + 1),
    decreases n,
{
    if n == 0 {
        assert(sqrt_nat(n) == 0);
        assert((sqrt_nat(n) + 1) * (sqrt_nat(n) + 1) == 1) by (nonlinear_arith)
            requires
                sqrt_nat(n) == 0;
    } else {
        let p = sqrt_nat((n - 1) as nat);
        let r = sqrt_nat(n);
        assert(r == if (p + 1) * (p + 1) <= n { p + 1 } else { p });
        lemma_sqrt_nat_bounds((n - 1) as nat);
        assert(p * p <= n - 1);
        assert(n - 1 < (p + 1) * (p + 1));
        if (p + 1) * (p + 1) <= n {
            assert(r == p + 1);
            assert((p + 1) * (p + 1) < (p + 2) * (p + 2)) by (nonlinear_arith);
            assert(n <= (p + 1) * (p + 1));
            assert(n < (r + 1) * (r + 1));
        } else {
            assert(r == p);
            assert(n < (r + 1) * (r + 1));
        }
        assert(r * r <= n);
        assert(n < (r + 1) * (r + 1));
    }
}

pub proof fn lemma_sqrt_nat_unique(n: nat, r: nat)
    requires
        r * r <= n,
        n < (r + 1) * (r + 1),
    ensures
        r == sqrt_nat(n),
{
    let s = sqrt_nat(n);
    lemma_sqrt_nat_bounds(n);
    if r < s {
        assert((r + 1) * (r + 1) <= s * s) by (nonlinear_arith)
            requires
                r + 1 <= s;
    }
    if s < r {
        assert((s + 1) * (s + 1) <= r * r) by (nonlinear_arith)
            requires
                s + 1 <= r;
    }
}

pub proof fn lemma_sqrt_nat_monotone(a: nat, b: nat)
    requires
        a <= b,
    ensures
        sqrt_nat(a) <= sqrt_nat(b),
{
    lemma_sqrt_nat_bounds(a);
    lemma_sqrt_nat_bounds(b);
    if sqrt_nat(b) < sqrt_nat(a) {
        assert((sqrt_nat(b) + 1) * (sqrt_nat(b) + 1) <= sqrt_nat(a) * sqrt_nat(a)) by (nonlinear_arith)
            requires
                sqrt_nat(b) + 1 <= sqrt_nat(a);
    }
}

pub proof fn lemma_sqrt_nat_square(k: nat)
    ensures
        sqrt_nat(k * k) == k,
{
    assert(k * k < (k + 1) * (k + 1)) by (nonlinear_arith);
    lemma_sqrt_nat_unique(k * k, k);
}

/// Truncating division shrinks magnitudes: `|x| <= m * b` gives `|x / b| <= m`.
pub proof fn lemma_div_tz_bound(x: int, b: int, m: int)
    requires
        b >= 1,
        m >= 0,
        -(m * b) <= x <= m * b,
    ensures
        -m <= div_tz(x, b) <= m,
{
    if x >= 0 {
        lemma_div_pos_is_pos(x, b);
        lemma_div_is_ordered(x, m * b, b);
        lemma_div_of_multiple(m, b);
    } else {
        lemma_div_pos_is_pos(-x, b);
        lemma_div_is_ordered(-x, m * b, b);
        lemma_div_of_multiple(m, b);
    }
}

/// Dividing an exact multiple: `(m * b) / b == m`.
pub proof fn lemma_div_of_multiple(m: int, b: int)
    requires
        b >= 1,
    ensures
        (m * b) / b == m,
{
    lemma_fundamental_div_mod(m * b, b);
    let q = (m * b) / b;
    let r = (m * b) % b;
    assert(m * b == b * q + r);
    assert(b * m == b * q + r) by (nonlinear_arith)
        requires
            m * b == b * q + r;
    assert(b * (m - q) == r) by (nonlinear_arith)
        requires
            b * m == b * q + r;
    if m > q {
        assert(b * (m - q) >= b) by (nonlinear_arith)
            requires
                b >= 1,
                m - q >= 1;
    }
    if m < q {
        assert(b * (m - q) <= -b) by (nonlinear_arith)
            requires
                b >= 1,
                m - q <= -1;
    }
}

/// The fundamental bracketing of a truncating quotient of a non-negative value.
pub proof fn lemma_div_tz_brackets(x: int, b: int)
    requires
        x >= 0,
        b >= 1,
    ensures
        b * div_tz(x, b) <= x,
        x < b * (div_tz(x, b) + 1),
        div_tz(x, b) >= 0,
{
    lemma_fundamental_div_mod(x, b);
    lemma_div_pos_is_pos(x, b);
    let q = x / b;
    assert(b * (q + 1) == b * q + b) by (nonlinear_arith);
}

/// Truncating division of a signed value by a positive divisor.
pub fn div_trunc(a: i64, b: i64) -> (r: i64)
    requires
        b >= 1,
        a > i64::MIN,
    ensures
        r as int == div_tz(a as int, b as int),
{
    if a >= 0 {
        let q: u64 = (a as u64) / (b as u64);
        proof {
            assert(a as int <= (a as int) * (b as int) && 0 <= (a as int) * (b as int))
                by (nonlinear_arith)
                requires
                    a >= 0,
                    b >= 1;
            lemma_div_tz_bound(a as int, b as int, a as int);
        }
        q as i64
    } else {
        let n: i64 = -a;
        let q: u64 = (n as u64) / (b as u64);
        proof {
            assert(n as int <= (n as int) * (b as int) && 0 <= (n as int) * (b as int))
                by (nonlinear_arith)
                requires
                    n >= 0,
                    b >= 1;
            lemma_div_tz_bound(n as int, b as int, n as int);
        }
        -(q as i64)
    }
}

/// Fixed-point multiplication; operands must stay within `2^31` in magnitude
/// so the raw product fits a signed 64-bit word.
pub fn fixed_mul(a: i64, b: i64) -> (r: i64)
    requires
        -0x80000000 <= a <= 0x80000000,
        -0x80000000 <= b <= 0x80000000,
    ensures
        r as int == fp_mul(a as int, b as int),
        -0x400000000000 <= r <= 0x400000000000,
{
    proof {
        assert(-0x4000000000000000 <= (a as int) * (b as int) <= 0x4000000000000000) by (nonlinear_arith)
            requires
                -0x80000000 <= a as int <= 0x80000000,
                -0x80000000 <= b as int <= 0x80000000;
        lemma_div_tz_bound((a as int) * (b as int), SCALE as int, 0x400000000000);
    }
    let p: i64 = a * b;
    div_trunc(p, SCALE)
}

/// Integer square root of a 64-bit value, by bisection.
pub fn isqrt(n: u64) -> (r: u64)
    ensures
        r as nat == sqrt_nat(n as nat),
{
    let mut lo: u64 = 0;
    let mut hi: u64 = 4294967296;
    proof {
        assert((hi as nat) * (hi as nat) > n as nat) by (nonlinear_arith)
            requires
                hi as nat == 4294967296,
                n as nat <= 18446744073709551615;
    }
    while hi - lo > 1
        invariant
            lo < hi <= 4294967296,
            (lo as nat) * (lo as nat) <= n as nat,
            (hi as nat) * (hi as nat) > n as nat,
        decreases hi - lo,
    {
        let mid: u64 = lo + (hi - lo) / 2;
        proof {
            assert((mid as nat) * (mid as nat) <= 18446744073709551615) by (nonlinear_arith)
                requires
                    mid as nat <= 4294967295;
        }
        if mid * mid <= n {
            lo = mid;
        } else {
            hi = mid;
        }
    }
    proof {
        lemma_sqrt_nat_unique(n as nat, lo as nat);
    }
    lo
}

/// Fixed-point square root: `fixed_sqrt(x)` is the fixed-point value nearest
/// from below to the real square root of the value `x` stands for.
pub fn fixed_sqrt(x: i64) -> (r: i64)
    requires
        0 <= x <= 0x7fffffffffff,
    ensures
        r as int == sqrt_fp(x as int),
        0 <= r <= 0x100000000,
{
    let scale_w: u64 = 65536;
    let prod: u64 = (x as u64) * scale_w;
    let r = isqrt(prod);
    proof {
        lemma_sqrt_nat_bounds(prod as nat);
        assert(x as u64 <= 0x7fffffffffff);
        assert(prod as nat == (x as nat) * 65536);
        assert(r as nat == sqrt_nat(prod as nat));
        assert((r as nat) * (r as nat) <= prod as nat);
        assert(prod as nat <= 0x8000000000000000);
        assert(r as nat <= 4294967296) by (nonlinear_arith)
            requires
                (r as nat) * (r as nat) <= 0x8000000000000000;
    }
    r as i64
}

} // verus!
