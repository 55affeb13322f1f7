//! Pinhole-camera ray generation and the per-pixel render loop.

use vstd::prelude::*;
use vstd::arithmetic::mul::lemma_mul_inequality;
use crate::math::{SCALE, fp_mul, div_tz, lemma_div_tz_bound, lemma_div_tz_brackets};
use crate::vec3::{V3, Vec3, bounded, vnormalize};
use crate::geom::{Sphere, COORD_BOUND};
use crate::scene::{spec_scene_hit, scene_intersect};

verus! {

/// Background color (sky blue), fixed point: about (0.2, 0.7, 0.8).
pub open spec fn spec_background() -> V3 {
    V3 { x: 13107, y: 45875, z: 52428 }
}

/// Color a ray resolves to: the diffuse color of the nearest in-range hit,
/// or the background.
pub open spec fn spec_cast_ray(spheres: Seq<Sphere>, orig: V3, dir: V3) -> V3 {
    match spec_scene_hit(spheres, orig, dir) {
        Some(h) => h.diffuse,
        None => spec_background(),
    }
}

/// View-space direction of the ray through pixel `(i, j)`: the pixel center
/// is mapped to normalized device coordinates in [-1, 1], the horizontal
/// axis is stretched by the aspect ratio `w / h`, both axes by the tangent
/// of half the field of view, depth is fixed at -1, and the result is
/// normalized.
pub open spec fn spec_ray_dir(i: int, j: int, w: int, h: int, t: int) -> V3 {
    let px = div_tz((2 * i + 1) * SCALE, w) - SCALE;
    let py = div_tz((2 * j + 1) * SCALE, h) - SCALE;
    let x = div_tz(fp_mul(px, t) * w, h);
    let y = fp_mul(py, t);
    vnormalize(V3 { x: x, y: y, z: -(SCALE as int) })
}

/// Color of one pixel: its camera ray, cast from the origin.
pub open spec fn spec_pixel(spheres: Seq<Sphere>, i: int, j: int, w: int, h: int, t: int) -> V3 {
    spec_cast_ray(spheres, V3 { x: 0, y: 0, z: 0 }, spec_ray_dir(i, j, w, h, t))
}

/// Over an empty scene every ray resolves to the exact background color.
pub proof fn lemma_empty_scene_background(orig: V3, dir: V3)
    ensures
        spec_cast_ray(Seq::<Sphere>::empty(), orig, dir) == spec_background(),
{
    crate::scene::lemma_empty_scene(orig, dir);
}

/// Normalized device coordinate of a pixel center, in `[-SCALE, SCALE)`.
fn ndc(i: usize, extent: usize) -> (r: i64)
    requires
        i < extent,
        1 <= extent <= 8192,
    ensures
        r as int == div_tz((2 * i + 1) * SCALE, extent as int) - SCALE,
        -65536 <= r < 65536,
{
    let numer: i64 = (2 * (i as i64) + 1) * SCALE;
    let raw = crate::math::div_trunc(numer, extent as i64);
    proof {
        lemma_div_tz_brackets(numer as int, extent as int);
        let q = div_tz(numer as int, extent as int);
        assert(q <= 131071) by (nonlinear_arith)
            requires
                (extent as int) * q <= numer as int,
                numer as int == (2 * (i as int) + 1) * 65536,
                (i as int) < (extent as int),
                extent as int >= 1,
                q >= 0;
    }
    raw - SCALE
}

/// The unit direction of the ray through pixel `(i, j)` of a `width` by
/// `height` image, for a camera at the origin looking down the negative z
/// axis; `tan_half_fov` is the tangent of half the vertical field of view,
/// in fixed point.
pub fn ray_direction(i: usize, j: usize, width: usize, height: usize, tan_half_fov: i64) -> (r:
    Vec3)
    requires
        i < width,
        j < height,
        1 <= width <= 8192,
        1 <= height <= 8192,
        1 <= tan_half_fov <= 131072,
    ensures
        r@ == spec_ray_dir(i as int, j as int, width as int, height as int, tan_half_fov as int),
        bounded(r@, SCALE as int),
{
    let px = ndc(i, width);
    let py = ndc(j, height);
    proof {
        assert(-(131072 * 65536) <= (px as int) * (tan_half_fov as int) <= 131072 * 65536)
            by (nonlinear_arith)
            requires
                -65536 <= px as int <= 65536,
                0 <= tan_half_fov as int <= 131072;
        lemma_div_tz_bound((px as int) * (tan_half_fov as int), SCALE as int, 131072);
        assert(-(131072 * 65536) <= (py as int) * (tan_half_fov as int) <= 131072 * 65536)
            by (nonlinear_arith)
            requires
                -65536 <= py as int <= 65536,
                0 <= tan_half_fov as int <= 131072;
        lemma_div_tz_bound((py as int) * (tan_half_fov as int), SCALE as int, 131072);
    }
    let a = crate::math::fixed_mul(px, tan_half_fov);
    proof {
        assert(-0x40000000 <= (a as int) * (width as int) <= 0x40000000) by (nonlinear_arith)
            requires
                -131072 <= a as int <= 131072,
                1 <= width as int <= 8192;
    }
    let b: i64 = a * (width as i64);
    proof {
        assert(0x40000000 <= 0x40000000 * (height as int)) by (nonlinear_arith)
            requires
                height as int >= 1;
        lemma_div_tz_bound(b as int, height as int, 0x40000000);
    }
    let x = crate::math::div_trunc(b, height as i64);
    let y = crate::math::fixed_mul(py, tan_half_fov);
    let v = Vec3 { x, y, z: -SCALE };
    let r = v.normalize();
    proof {
        lemma_ray_vector_nonzero(v@);
        crate::vec3::lemma_vnormalize_bounded(v@);
    }
    r
}

/// A vector whose depth component is a full negative unit is never zero, so
/// its normalization is bounded by one fixed-point unit.
proof fn lemma_ray_vector_nonzero(v: V3)
    requires
        v.z == -(SCALE as int),
    ensures
        crate::vec3::vlen(v) >= SCALE as int,
{
    assert(v.x * v.x >= 0 && v.y * v.y >= 0) by (nonlinear_arith);
    assert(v.z * v.z == (SCALE as int) * (SCALE as int)) by (nonlinear_arith)
        requires
            v.z == -(SCALE as int);
    crate::math::lemma_sqrt_nat_square(SCALE as nat);
    crate::math::lemma_sqrt_nat_monotone(
        ((SCALE as int) * (SCALE as int)) as nat,
        (v.x * v.x + v.y * v.y + v.z * v.z) as nat,
    );
}

/// Color a single ray: the nearest hit's diffuse color, or the background.
pub fn cast_ray(orig: &Vec3, dir: &Vec3, spheres: &Vec<Sphere>) -> (r: Vec3)
    requires
        bounded(orig@, COORD_BOUND as int),
        bounded(dir@, SCALE as int),
        forall|k: int| 0 <= k < spheres@.len() ==> spheres@[k].wf(),
    ensures
        r@ == spec_cast_ray(spheres@, orig@, dir@),
{
    match scene_intersect(orig, dir, spheres) {
        Some(h) => h.material.diffuse_color,
        None => Vec3 { x: 13107, y: 45875, z: 52428 },
    }
}

/// Render the whole image: one ray per pixel, rows top to bottom, pixels
/// left to right, each resolved against the scene.
pub fn render(spheres: &Vec<Sphere>, width: usize, height: usize, tan_half_fov: i64) -> (fb: Vec<
    Vec3,
>)
    requires
        1 <= width <= 8192,
        1 <= height <= 8192,
        1 <= tan_half_fov <= 131072,
        forall|k: int| 0 <= k < spheres@.len() ==> spheres@[k].wf(),
    ensures
        fb@.len() == width * height,
        forall|jj: int, ii: int|
            0 <= jj < height && 0 <= ii < width ==> fb@[jj * width + ii]@ == #[trigger] spec_pixel(
                spheres@,
                ii,
                jj,
                width as int,
                height as int,
                tan_half_fov as int,
            ),
{
    let origin = Vec3 { x: 0, y: 0, z: 0 };
    let mut fb: Vec<Vec3> = Vec::new();
    let mut j: usize = 0;
    while j < height
        invariant
            j <= height,
            1 <= width <= 8192,
            1 <= height <= 8192,
            1 <= tan_half_fov <= 131072,
            forall|k: int| 0 <= k < spheres@.len() ==> spheres@[k].wf(),
            origin@ == (V3 { x: 0, y: 0, z: 0 }),
            fb@.len() == j * width,
            forall|jj: int, ii: int|
                0 <= jj < j && 0 <= ii < width ==> fb@[jj * width + ii]@ == #[trigger] spec_pixel(
                    spheres@,
                    ii,
                    jj,
                    width as int,
                    height as int,
                    tan_half_fov as int,
                ),
        decreases height - j,
    {
        let mut i: usize = 0;
        while i < width
            invariant
                i <= width,
                j < height,
                1 <= width <= 8192,
                1 <= height <= 8192,
                1 <= tan_half_fov <= 131072,
                forall|k: int| 0 <= k < spheres@.len() ==> spheres@[k].wf(),
                origin@ == (V3 { x: 0, y: 0, z: 0 }),
                fb@.len() == j * width + i,
                forall|jj: int, ii: int|
                    0 <= jj < height && 0 <= ii < width && (jj < j || (jj == j && ii < i))
                        ==> fb@[jj * width + ii]@ == #[trigger] spec_pixel(
                        spheres@,
                        ii,
                        jj,
                        width as int,
                        height as int,
                        tan_half_fov as int,
                    ),
            decreases width - i,
        {
            let dir = ray_direction(i, j, width, height, tan_half_fov);
            let c = cast_ray(&origin, &dir, spheres);
            let ghost fb_old = fb@;
            fb.push(c);
            proof {
                lemma_filled_prefix_extends(
                    fb_old,
                    fb@,
                    c,
                    spheres@,
                    j as int,
                    i as int,
                    width as int,
                    height as int,
                    tan_half_fov as int,
                );
            }
            i = i + 1;
        }
        proof {
            assert((j + 1) * width == j * width + width) by (nonlinear_arith);
        }
        j = j + 1;
    }
    proof {
        assert(height * width == width * height) by (nonlinear_arith);
    }
    fb
}

/// After appending the pixel at `(row, col)` to a framebuffer that held
/// exactly the raster-order prefix before it, the framebuffer holds exactly
/// the prefix through `(row, col)`.
proof fn lemma_filled_prefix_extends(
    fb_old: Seq<Vec3>,
    fb: Seq<Vec3>,
    c: Vec3,
    spheres: Seq<Sphere>,
    row: int,
    col: int,
    w: int,
    h: int,
    t: int,
)
    requires
        1 <= w,
        0 <= row < h,
        0 <= col < w,
        fb_old.len() == row * w + col,
        fb == fb_old.push(c),
        c@ == spec_pixel(spheres, col, row, w, h, t),
        forall|jj: int, ii: int|
            0 <= jj < h && 0 <= ii < w && (jj < row || (jj == row && ii < col)) ==> fb_old[jj * w
                + ii]@ == #[trigger] spec_pixel(spheres, ii, jj, w, h, t),
    ensures
        forall|jj: int, ii: int|
            0 <= jj < h && 0 <= ii < w && (jj < row || (jj == row && ii < col + 1)) ==> fb[jj * w
                + ii]@ == #[trigger] spec_pixel(spheres, ii, jj, w, h, t),
{
    assert forall|jj: int, ii: int|
        0 <= jj < h && 0 <= ii < w && (jj < row || (jj == row && ii < col + 1)) implies fb[jj * w
        + ii]@ == #[trigger] spec_pixel(spheres, ii, jj, w, h, t) by {
        lemma_mul_inequality(0, jj, w);
        assert(0 * w == 0);
        if jj < row {
            lemma_mul_inequality(jj + 1, row, w);
            assert((jj + 1) * w == jj * w + w) by (nonlinear_arith);
            assert(jj * w + ii < fb_old.len());
            assert(fb[jj * w + ii] == fb_old[jj * w + ii]);
        } else if ii < col {
            assert(jj * w + ii < fb_old.len());
            assert(fb[jj * w + ii] == fb_old[jj * w + ii]);
        } else {
            assert(jj * w + ii == fb_old.len() as int);
            assert(fb[jj * w + ii] == c);
        }
    }
}

} // verus!

