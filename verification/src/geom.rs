//! Spheres, materials, and the analytic ray–sphere intersection test.

use vstd::prelude::*;
use vstd::arithmetic::div_mod::lemma_div_pos_is_pos;
use crate::math::{
    SCALE, fp_mul, sqrt_fp, div_tz, lemma_div_tz_bound, lemma_div_tz_brackets,
    lemma_div_of_multiple, lemma_sqrt_nat_bounds, lemma_sqrt_nat_square,
};
use crate::vec3::{V3, Vec3, bounded, vadd, vsub, vscale, vdot, vlen, vnormalize, lemma_vdot_bound};

verus! {

/// Largest magnitude a scene coordinate or radius may take, in fixed point
/// (2^28 ticks, or 4096 world units): keeps every intermediate product of the
/// intersection math inside a signed 64-bit word.
pub const COORD_BOUND: i64 = 0x10000000;

/// Flat surface attributes: a diffuse color, components conventionally in
/// [0, SCALE] but not clamped at construction.
#[derive(Clone, Copy, PartialEq, Eq, Structural, Debug)]
pub struct Material {
    pub diffuse_color: Vec3,
}

impl Material {
    pub fn new(diffuse_color: Vec3) -> (r: Material)
        ensures
            r.diffuse_color == diffuse_color,
    {
        Material { diffuse_color }
    }
}

/// A sphere: center, positive radius, and surface material.
#[derive(Clone, Copy, PartialEq, Eq, Structural, Debug)]
pub struct Sphere {
    pub center: Vec3,
    pub radius: i64,
    pub material: Material,
}

/// Distance along the ray to the sphere's surface, if the ray (a half-line
/// from `orig` with unit direction `dir`) meets it: the classic analytic
/// test carried out in fixed point. `tca` projects the center offset onto
/// the ray, `d2` is the squared perpendicular distance of the center from
/// the ray's line, and the near root is used unless it lies behind the
/// origin, in which case the far root is.
pub open spec fn spec_ray_intersect(center: V3, radius: int, orig: V3, dir: V3) -> Option<int> {
    let l = vsub(center, orig);
    let tca = vdot(l, dir);
    let d2 = vdot(l, l) - fp_mul(tca, tca);
    let r2 = fp_mul(radius, radius);
    if d2 > r2 {
        None
    } else {
        let thc = sqrt_fp(r2 - d2);
        let t0 = tca - thc;
        let t1 = tca + thc;
        let t = if t0 < 0 { t1 } else { t0 };
        if t < 0 {
            None
        } else {
            Some(t)
        }
    }
}

impl Sphere {
    /// A sphere is well formed when its geometry stays inside the coordinate
    /// range the fixed-point arithmetic is safe for.
    pub open spec fn wf(self) -> bool {
        &&& bounded(self.center@, COORD_BOUND as int)
        &&& 0 < self.radius <= COORD_BOUND
    }

    pub fn new(center: Vec3, radius: i64, material: Material) -> (r: Sphere)
        requires
            bounded(center@, COORD_BOUND as int),
            0 < radius <= COORD_BOUND,
        ensures
            r.center == center,
            r.radius == radius,
            r.material == material,
            r.wf(),
    {
        Sphere { center, radius, material }
    }

    /// The analytic intersection test; `dir` must be a (fixed-point) unit
    /// vector, whose components a normalization bounds by one unit.
    pub fn ray_intersect(&self, orig: &Vec3, dir: &Vec3) -> (r: Option<i64>)
        requires
            self.wf(),
            bounded(orig@, COORD_BOUND as int),
            bounded(dir@, SCALE as int),
        ensures
            (r is Some) == (spec_ray_intersect(self.center@, self.radius as int, orig@, dir@)
                is Some),
            r matches Some(t) ==> spec_ray_intersect(
                self.center@,
                self.radius as int,
                orig@,
                dir@,
            ) == Some(t as int) && 0 <= t < 0x200000000,
    {
        let l = self.center.sub(orig);
        let tca = l.dot(dir);
        proof {
            lemma_vdot_bound(l@, dir@, 0x20000000, 0x10000, 0x60000000);
        }
        let ll = l.dot(&l);
        proof {
            lemma_square_sum_nonneg(l@);
            assert(tca as int * tca as int <= 0x2400000000000000) by (nonlinear_arith)
                requires
                    -0x60000000 <= tca as int <= 0x60000000;
            assert(tca as int * tca as int >= 0) by (nonlinear_arith);
            lemma_div_tz_bound(tca as int * tca as int, SCALE as int, 0x240000000000);
        }
        let q = crate::math::fixed_mul(tca, tca);
        let d2 = ll - q;
        let r2 = crate::math::fixed_mul(self.radius, self.radius);
        if d2 > r2 {
            return None;
        }
        let thc = crate::math::fixed_sqrt(r2 - d2);
        let t0 = tca - thc;
        let t1 = tca + thc;
        let t = if t0 < 0 { t1 } else { t0 };
        if t < 0 {
            None
        } else {
            Some(t)
        }
    }
}

/// A fixed-point dot product of a vector with itself is non-negative.
pub proof fn lemma_square_sum_nonneg(a: V3)
    ensures
        vdot(a, a) >= 0,
{
    assert(a.x * a.x >= 0 && a.y * a.y >= 0 && a.z * a.z >= 0) by (nonlinear_arith);
    lemma_div_pos_is_pos(a.x * a.x + a.y * a.y + a.z * a.z, SCALE as int);
}

/// A ray whose line passes, in the fixed-point metric, at squared
/// perpendicular distance greater than the squared radius from the center
/// never intersects the sphere, whatever the origin and direction.
pub proof fn lemma_miss_when_far(center: V3, radius: int, orig: V3, dir: V3)
    requires
        ({
            let l = vsub(center, orig);
            let tca = vdot(l, dir);
            vdot(l, l) - fp_mul(tca, tca) > fp_mul(radius, radius)
        }),
    ensures
        spec_ray_intersect(center, radius, orig, dir) is None,
{
}

/// A ray originating strictly inside the sphere always intersects, at a
/// non-negative distance (the far root, unless the near root degenerates
/// to zero).
pub proof fn lemma_inside_always_hits(center: V3, radius: int, orig: V3, dir: V3)
    requires
        vdot(vsub(center, orig), vsub(center, orig)) < fp_mul(radius, radius),
    ensures
        spec_ray_intersect(center, radius, orig, dir) matches Some(t) && t >= 0,
        ({
            let l = vsub(center, orig);
            let tca = vdot(l, dir);
            let d2 = vdot(l, l) - fp_mul(tca, tca);
            let thc = sqrt_fp(fp_mul(radius, radius) - d2);
            tca - thc < 0 ==> spec_ray_intersect(center, radius, orig, dir) == Some(tca + thc)
        }),
{
    let l = vsub(center, orig);
    let tca = vdot(l, dir);
    let l2 = vdot(l, l);
    let q = fp_mul(tca, tca);
    let d2 = l2 - q;
    let r2 = fp_mul(radius, radius);
    assert(tca * tca >= 0) by (nonlinear_arith);
    lemma_div_tz_brackets(tca * tca, SCALE as int);
    assert(q >= 0);
    assert(d2 <= r2);
    let diff = r2 - d2;
    assert(diff >= 1 + q);
    let thc = sqrt_fp(diff);
    lemma_sqrt_nat_bounds((diff * SCALE) as nat);
    assert((diff * SCALE) as nat >= (1 + q) * SCALE) by (nonlinear_arith)
        requires
            diff >= 1 + q,
            SCALE as int > 0;
    assert((1 + q) * SCALE == SCALE as int + q * SCALE) by (nonlinear_arith);
    assert(SCALE as int * q == q * SCALE) by (nonlinear_arith);
    assert(q * SCALE > tca * tca - SCALE);
    assert((thc + 1) * (thc + 1) > tca * tca);
    assert(-thc <= tca <= thc) by (nonlinear_arith)
        requires
            thc >= 0,
            (thc + 1) * (thc + 1) > tca * tca;
    assert(tca - thc <= 0);
}

/// A ray aimed straight along an axis at a sphere centered ahead of it hits
/// at exactly the center distance minus the radius, and the surface normal
/// there is an exact fixed-point unit vector pointing away from the center.
/// Exactness asks that the radius be a whole multiple of 256 ticks, so that
/// its square is a whole number of fixed-point units.
pub proof fn lemma_axis_hit(orig: V3, d: int, k: int)
    requires
        k >= 1,
        256 * k < d,
    ensures
        ({
            let radius = 256 * k;
            let center = V3 { x: orig.x, y: orig.y, z: orig.z - d };
            let dir = V3 { x: 0, y: 0, z: -(SCALE as int) };
            &&& spec_ray_intersect(center, radius, orig, dir) == Some(d - radius)
            &&& ({
                let hit = vadd(orig, vscale(dir, d - radius));
                let n = vnormalize(vsub(hit, center));
                &&& n == (V3 { x: 0, y: 0, z: SCALE as int })
                &&& vlen(n) == SCALE as int
                &&& vdot(n, vsub(hit, center)) > 0
            })
        }),
{
    let radius = 256 * k;
    let center = V3 { x: orig.x, y: orig.y, z: orig.z - d };
    let dir = V3 { x: 0, y: 0, z: -(SCALE as int) };
    let l = vsub(center, orig);
    assert(l == (V3 { x: 0, y: 0, z: -d }));

    // tca = (d * SCALE) / SCALE = d
    assert((-d) * (-(SCALE as int)) == d * SCALE) by (nonlinear_arith);
    lemma_div_tz_nonneg_multiple(d);
    assert(vdot(l, dir) == d);

    // l2 and fp_mul(tca, tca) are the same truncated quotient, so d2 == 0.
    assert((-d) * (-d) == d * d) by (nonlinear_arith);
    assert(vdot(l, l) == div_tz(d * d, SCALE as int));
    assert(fp_mul(d, d) == div_tz(d * d, SCALE as int));

    // r2 = (radius^2) / SCALE = k * k * SCALE / SCALE = k * k
    assert(radius * radius == (k * k) * SCALE) by (nonlinear_arith)
        requires
            radius == 256 * k,
            SCALE as int == 65536;
    lemma_div_tz_nonneg_multiple(k * k);
    assert(k * k >= 1) by (nonlinear_arith)
        requires
            k >= 1;
    assert(fp_mul(radius, radius) == k * k);

    // thc = sqrt((k * k) * SCALE) = sqrt(radius * radius) = radius
    lemma_sqrt_nat_square(radius as nat);
    assert(sqrt_fp(k * k) == radius);

    assert(spec_ray_intersect(center, radius, orig, dir) == Some(d - radius));

    // The hit point sits exactly one radius short of the center on the axis.
    let t = d - radius;
    assert(fp_mul(0, t) == 0) by {
        assert(0 * t == 0) by (nonlinear_arith);
    }
    assert((-(SCALE as int)) * t == -(t * SCALE)) by (nonlinear_arith);
    lemma_div_tz_nonneg_multiple(t);
    assert(div_tz(-(t * SCALE), SCALE as int) == -t);
    let hit = vadd(orig, vscale(dir, t));
    assert(hit == (V3 { x: orig.x, y: orig.y, z: orig.z - t }));
    let n = vsub(hit, center);
    assert(n == (V3 { x: 0, y: 0, z: radius }));

    // Its normal is the exact unit vector along the axis, pointing outward.
    assert(radius * radius >= 0) by (nonlinear_arith);
    assert(vlen(n) == radius);
    assert(radius >= 1);
    lemma_div_tz_nonneg_multiple_of(radius);
    assert(vnormalize(n) == (V3 { x: 0, y: 0, z: SCALE as int }));
    assert((SCALE as int) * (SCALE as int) == (SCALE as int) * SCALE) by (nonlinear_arith);
    lemma_sqrt_nat_square(SCALE as nat);
    assert(vlen(vnormalize(n)) == SCALE as int);
    assert((SCALE as int) * radius == radius * SCALE) by (nonlinear_arith);
    assert(vdot(vnormalize(n), n) == radius);
}

/// `div_tz` of `m * SCALE` by `SCALE` recovers `m`, for non-negative `m`.
proof fn lemma_div_tz_nonneg_multiple(m: int)
    requires
        m >= 0,
    ensures
        div_tz(m * SCALE, SCALE as int) == m,
{
    assert(m * SCALE >= 0) by (nonlinear_arith)
        requires
            m >= 0;
    lemma_div_of_multiple(m, SCALE as int);
}

/// `div_tz` of `SCALE * b` by a positive `b` recovers `SCALE`.
proof fn lemma_div_tz_nonneg_multiple_of(b: int)
    requires
        b >= 1,
    ensures
        div_tz((SCALE as int) * b, b) == SCALE as int,
{
    assert((SCALE as int) * b >= 0) by (nonlinear_arith)
        requires
            b >= 1;
    lemma_div_of_multiple(SCALE as int, b);
}

} // verus!
