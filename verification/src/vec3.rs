//! Three-component fixed-point vectors and their mathematical model.

use vstd::prelude::*;
use crate::math::{SCALE, div_tz, fp_mul, sqrt_nat, lemma_sqrt_nat_monotone, lemma_sqrt_nat_square, lemma_div_tz_bound};

verus! {

/// Mathematical model of a vector: three unbounded integers, each a
/// fixed-point encoding of one real component.
pub ghost struct V3 {
    pub x: int,
    pub y: int,
    pub z: int,
}

/// A fixed-point vector as carried at run time.
#[derive(Clone, Copy, PartialEq, Eq, Structural, Debug)]
pub struct Vec3 {
    pub x: i64,
    pub y: i64,
    pub z: i64,
}

impl View for Vec3 {
    type V = V3;

    open spec fn view(&self) -> V3 {
        V3 { x: self.x as int, y: self.y as int, z: self.z as int }
    }
}

/// Every component at most `m` in magnitude.
pub open spec fn bounded(v: V3, m: int) -> bool {
    -m <= v.x <= m && -m <= v.y <= m && -m <= v.z <= m
}

pub open spec fn vadd(a: V3, b: V3) -> V3 {
    V3 { x: a.x + b.x, y: a.y + b.y, z: a.z + b.z }
}

pub open spec fn vsub(a: V3, b: V3) -> V3 {
    V3 { x: a.x - b.x, y: a.y - b.y, z: a.z - b.z }
}

/// Scale a vector by a fixed-point factor.
pub open spec fn vscale(a: V3, t: int) -> V3 {
    V3 { x: fp_mul(a.x, t), y: fp_mul(a.y, t), z: fp_mul(a.z, t) }
}

/// Fixed-point dot product.
pub open spec fn vdot(a: V3, b: V3) -> int {
    div_tz(a.x * b.x + a.y * b.y + a.z * b.z, SCALE as int)
}

/// Fixed-point length: the integer square root of the raw sum of squares is
/// directly the fixed-point encoding of the Euclidean length.
pub open spec fn vlen(a: V3) -> int {
    sqrt_nat((a.x * a.x + a.y * a.y + a.z * a.z) as nat) as int
}

/// Normalization to (fixed-point) unit length; the zero vector, which has no
/// direction, is left unchanged.
pub open spec fn vnormalize(a: V3) -> V3 {
    if vlen(a) == 0 {
        a
    } else {
        V3 {
            x: div_tz(a.x * SCALE, vlen(a)),
            y: div_tz(a.y * SCALE, vlen(a)),
            z: div_tz(a.z * SCALE, vlen(a)),
        }
    }
}

/// The length of a vector dominates each component, so a normalized vector
/// has every component within one fixed-point unit.
pub proof fn lemma_vnormalize_bounded(a: V3)
    ensures
        vlen(a) == 0 ==> vnormalize(a) == a,
        vlen(a) != 0 ==> bounded(vnormalize(a), SCALE as int),
{
    if vlen(a) != 0 {
        let s = (a.x * a.x + a.y * a.y + a.z * a.z) as nat;
        let l = vlen(a);
        assert(a.x * a.x >= 0 && a.y * a.y >= 0 && a.z * a.z >= 0) by (nonlinear_arith);
        lemma_component_le_len(a.x, s);
        lemma_component_le_len(a.y, s);
        lemma_component_le_len(a.z, s);
        lemma_scaled_component_bound(a.x, l);
        lemma_scaled_component_bound(a.y, l);
        lemma_scaled_component_bound(a.z, l);
    }
}

/// A component no larger than the length divides out to at most one unit.
proof fn lemma_scaled_component_bound(c: int, l: int)
    requires
        l >= 1,
        -l <= c <= l,
    ensures
        -(SCALE as int) <= div_tz(c * SCALE, l) <= SCALE as int,
{
    assert(-((SCALE as int) * l) <= c * SCALE <= (SCALE as int) * l) by (nonlinear_arith)
        requires
            -l <= c <= l;
    lemma_div_tz_bound(c * SCALE, l, SCALE as int);
}

/// `|c| <= sqrt_nat(s)` whenever `c * c <= s`.
proof fn lemma_component_le_len(c: int, s: nat)
    requires
        c * c <= s,
    ensures
        -(sqrt_nat(s) as int) <= c <= sqrt_nat(s) as int,
{
    let m = if c >= 0 { c } else { -c };
    assert(m * m == c * c) by (nonlinear_arith)
        requires
            m == if c >= 0 { c } else { -c };
    lemma_sqrt_nat_square(m as nat);
    lemma_sqrt_nat_monotone((m * m) as nat, s);
}

impl Default for Vec3 {
    /// The zero vector.
    fn default() -> (r: Vec3)
        ensures
            r@ == (V3 { x: 0, y: 0, z: 0 }),
    {
        Vec3 { x: 0, y: 0, z: 0 }
    }
}

impl Vec3 {
    pub fn new(x: i64, y: i64, z: i64) -> (r: Vec3)
        ensures
            r@ == (V3 { x: x as int, y: y as int, z: z as int }),
    {
        Vec3 { x, y, z }
    }

    pub fn add(&self, o: &Vec3) -> (r: Vec3)
        requires
            bounded(self@, 0x80000000),
            bounded(o@, 0x80000000),
        ensures
            r@ == vadd(self@, o@),
    {
        Vec3 { x: self.x + o.x, y: self.y + o.y, z: self.z + o.z }
    }

    pub fn sub(&self, o: &Vec3) -> (r: Vec3)
        requires
            bounded(self@, 0x80000000),
            bounded(o@, 0x80000000),
        ensures
            r@ == vsub(self@, o@),
    {
        Vec3 { x: self.x - o.x, y: self.y - o.y, z: self.z - o.z }
    }

    pub fn scale(&self, t: i64) -> (r: Vec3)
        requires
            bounded(self@, 0x80000000),
            -0x80000000 <= t <= 0x80000000,
        ensures
            r@ == vscale(self@, t as int),
    {
        Vec3 {
            x: crate::math::fixed_mul(self.x, t),
            y: crate::math::fixed_mul(self.y, t),
            z: crate::math::fixed_mul(self.z, t),
        }
    }

    pub fn dot(&self, o: &Vec3) -> (r: i64)
        requires
            bounded(self@, 0x40000000),
            bounded(o@, 0x40000000),
        ensures
            r as int == vdot(self@, o@),
            -0x300000000000 <= r <= 0x300000000000,
    {
        proof {
            lemma_sq_term_bound(self@.x, o@.x);
            lemma_sq_term_bound(self@.y, o@.y);
            lemma_sq_term_bound(self@.z, o@.z);
            lemma_div_tz_bound(
                self@.x * o@.x + self@.y * o@.y + self@.z * o@.z,
                SCALE as int,
                0x300000000000,
            );
        }
        let s: i64 = self.x * o.x + self.y * o.y + self.z * o.z;
        crate::math::div_trunc(s, SCALE)
    }

    /// Fixed-point Euclidean length.
    pub fn length(&self) -> (r: i64)
        requires
            bounded(self@, 0x40000000),
        ensures
            r as int == vlen(self@),
            0 <= r <= 0x80000000,
    {
        proof {
            lemma_sq_term_bound(self@.x, self@.x);
            lemma_sq_term_bound(self@.y, self@.y);
            lemma_sq_term_bound(self@.z, self@.z);
            assert(self@.x * self@.x >= 0 && self@.y * self@.y >= 0 && self@.z * self@.z >= 0)
                by (nonlinear_arith);
        }
        let s: i64 = self.x * self.x + self.y * self.y + self.z * self.z;
        let r: u64 = crate::math::isqrt(s as u64);
        proof {
            crate::math::lemma_sqrt_nat_bounds(s as nat);
            assert(r as nat <= 0x80000000) by (nonlinear_arith)
                requires
                    (r as nat) * (r as nat) <= 0x3000000000000000;
        }
        r as i64
    }

    /// Rescale to unit length (in fixed point); the zero vector stays put.
    pub fn normalize(&self) -> (r: Vec3)
        requires
            bounded(self@, 0x40000000),
        ensures
            r@ == vnormalize(self@),
    {
        let l = self.length();
        if l == 0 {
            *self
        } else {
            Vec3 {
                x: crate::math::div_trunc(self.x * SCALE, l),
                y: crate::math::div_trunc(self.y * SCALE, l),
                z: crate::math::div_trunc(self.z * SCALE, l),
            }
        }
    }
}

/// A dot product of componentwise-bounded vectors is itself bounded.
pub proof fn lemma_vdot_bound(a: V3, b: V3, ma: int, mb: int, m: int)
    requires
        ma >= 0,
        mb >= 0,
        m >= 0,
        bounded(a, ma),
        bounded(b, mb),
        3 * ma * mb <= m * SCALE,
    ensures
        -m <= vdot(a, b) <= m,
{
    assert(-(ma * mb) <= a.x * b.x <= ma * mb) by (nonlinear_arith)
        requires
            ma >= 0,
            mb >= 0,
            -ma <= a.x <= ma,
            -mb <= b.x <= mb;
    assert(-(ma * mb) <= a.y * b.y <= ma * mb) by (nonlinear_arith)
        requires
            ma >= 0,
            mb >= 0,
            -ma <= a.y <= ma,
            -mb <= b.y <= mb;
    assert(-(ma * mb) <= a.z * b.z <= ma * mb) by (nonlinear_arith)
        requires
            ma >= 0,
            mb >= 0,
            -ma <= a.z <= ma,
            -mb <= b.z <= mb;
    assert(3 * (ma * mb) == 3 * ma * mb) by (nonlinear_arith);
    lemma_div_tz_bound(a.x * b.x + a.y * b.y + a.z * b.z, SCALE as int, m);
}

/// A scaled bounded vector is bounded.
pub proof fn lemma_vscale_bound(a: V3, t: int, ma: int, mt: int, m: int)
    requires
        ma >= 0,
        mt >= 0,
        m >= 0,
        bounded(a, ma),
        -mt <= t <= mt,
        ma * mt <= m * SCALE,
    ensures
        bounded(vscale(a, t), m),
{
    assert(-(ma * mt) <= a.x * t <= ma * mt) by (nonlinear_arith)
        requires
            ma >= 0,
            mt >= 0,
            -ma <= a.x <= ma,
            -mt <= t <= mt;
    assert(-(ma * mt) <= a.y * t <= ma * mt) by (nonlinear_arith)
        requires
            ma >= 0,
            mt >= 0,
            -ma <= a.y <= ma,
            -mt <= t <= mt;
    assert(-(ma * mt) <= a.z * t <= ma * mt) by (nonlinear_arith)
        requires
            ma >= 0,
            mt >= 0,
            -ma <= a.z <= ma,
            -mt <= t <= mt;
    lemma_div_tz_bound(a.x * t, SCALE as int, m);
    lemma_div_tz_bound(a.y * t, SCALE as int, m);
    lemma_div_tz_bound(a.z * t, SCALE as int, m);
}

/// Bound on one product term of a dot product.
proof fn lemma_sq_term_bound(a: int, b: int)
    requires
        -0x40000000 <= a <= 0x40000000,
        -0x40000000 <= b <= 0x40000000,
    ensures
        -0x1000000000000000 <= a * b <= 0x1000000000000000,
{
    assert(-0x1000000000000000 <= a * b <= 0x1000000000000000) by (nonlinear_arith)
        requires
            -0x40000000 <= a <= 0x40000000,
            -0x40000000 <= b <= 0x40000000;
}

} // verus!
