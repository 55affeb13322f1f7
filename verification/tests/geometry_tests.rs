use tinyraytracer::math::{isqrt, fixed_mul, fixed_sqrt, div_trunc, SCALE};
use tinyraytracer::vec3::Vec3;
use tinyraytracer::geom::{Material, Sphere};
use tinyraytracer::scene::scene_intersect;

fn v(x: i64, y: i64, z: i64) -> Vec3 {
    Vec3::new(x, y, z)
}

#[test]
fn isqrt_exact_and_truncated() {
    assert_eq!(isqrt(0), 0);
    assert_eq!(isqrt(1), 1);
    assert_eq!(isqrt(15), 3);
    assert_eq!(isqrt(16), 4);
    assert_eq!(isqrt(17), 4);
    assert_eq!(isqrt(4294967296), 65536);
    assert_eq!(isqrt(u64::MAX), 4294967295);
}

#[test]
fn fixed_point_scalars() {
    // 1.5 * 2.0 == 3.0 in fixed point
    assert_eq!(fixed_mul(98304, 131072), 196608);
    // products truncate toward zero on both signs
    assert_eq!(fixed_mul(3, 3), 0);
    assert_eq!(fixed_mul(-3, 3), 0);
    assert_eq!(div_trunc(-7, 2), -3);
    assert_eq!(div_trunc(7, 2), 3);
    // sqrt(4.0) == 2.0; sqrt(2.0) is the truncated fixed-point root
    assert_eq!(fixed_sqrt(4 * SCALE), 2 * SCALE);
    assert_eq!(fixed_sqrt(2 * SCALE), 92681);
}

#[test]
fn vector_operations() {
    let a = v(SCALE, 2 * SCALE, -3 * SCALE);
    let b = v(4 * SCALE, -5 * SCALE, 6 * SCALE);
    let s = a.add(&b);
    assert_eq!((s.x, s.y, s.z), (5 * SCALE, -3 * SCALE, 3 * SCALE));
    let d = a.sub(&b);
    assert_eq!((d.x, d.y, d.z), (-3 * SCALE, 7 * SCALE, -9 * SCALE));
    let t = a.scale(2 * SCALE);
    assert_eq!((t.x, t.y, t.z), (2 * SCALE, 4 * SCALE, -6 * SCALE));
    // 1*4 + 2*(-5) + (-3)*6 == -24
    assert_eq!(a.dot(&b), -24 * SCALE);
    // a 3-4-0 triangle has length 5
    assert_eq!(v(3 * SCALE, 4 * SCALE, 0).length(), 5 * SCALE);
    let n = v(3 * SCALE, 4 * SCALE, 0).normalize();
    assert_eq!((n.x, n.y, n.z), (3 * SCALE / 5, 4 * SCALE / 5, 0));
    // unit length up to truncation: both components round down
    assert_eq!(n.length(), SCALE - 1);
    // the zero vector stays put
    let z = v(0, 0, 0).normalize();
    assert_eq!((z.x, z.y, z.z), (0, 0, 0));
}

#[test]
fn ray_hits_sphere_dead_ahead() {
    // Sphere of radius 2 centered 10 units down the axis: hit at 10 - 2 = 8.
    let m = Material::new(v(6554, 6554, 6554));
    let s = Sphere::new(v(0, 0, -10 * SCALE), 2 * SCALE, m);
    let t = s.ray_intersect(&v(0, 0, 0), &v(0, 0, -SCALE));
    assert_eq!(t, Some(8 * SCALE));
}

#[test]
fn ray_misses_sphere_off_axis() {
    // The ray's line stays 5 units from the center; radius is 1.
    let m = Material::new(v(6554, 6554, 6554));
    let s = Sphere::new(v(5 * SCALE, 0, 0), SCALE, m);
    let t = s.ray_intersect(&v(0, 0, 0), &v(0, 0, -SCALE));
    assert_eq!(t, None);
}

#[test]
fn ray_from_inside_uses_far_root() {
    // Origin at the center: the near root is negative, the far root is the
    // radius itself.
    let m = Material::new(v(6554, 6554, 6554));
    let s = Sphere::new(v(0, 0, 0), SCALE, m);
    let t = s.ray_intersect(&v(0, 0, 0), &v(0, 0, -SCALE));
    assert_eq!(t, Some(SCALE));
}

#[test]
fn origin_on_surface_hits_at_zero() {
    // The ray starts exactly on the sphere, aimed inward: the near root is
    // exactly zero.
    let m = Material::new(v(6554, 6554, 6554));
    let s = Sphere::new(v(0, 0, -SCALE), SCALE, m);
    let t = s.ray_intersect(&v(0, 0, 0), &v(0, 0, -SCALE));
    assert_eq!(t, Some(0));
}

#[test]
fn sphere_behind_origin_misses() {
    let m = Material::new(v(6554, 6554, 6554));
    let s = Sphere::new(v(0, 0, 10 * SCALE), 2 * SCALE, m);
    let t = s.ray_intersect(&v(0, 0, 0), &v(0, 0, -SCALE));
    assert_eq!(t, None);
}

#[test]
fn tangent_ray_hits_once() {
    // The ray's line passes at exactly the radius: a single grazing hit.
    let m = Material::new(v(6554, 6554, 6554));
    let s = Sphere::new(v(SCALE, 0, -10 * SCALE), SCALE, m);
    let t = s.ray_intersect(&v(0, 0, 0), &v(0, 0, -SCALE));
    assert_eq!(t, Some(10 * SCALE));
}

#[test]
fn empty_scene_reports_no_hit() {
    let spheres: Vec<Sphere> = vec![];
    let r = scene_intersect(&v(0, 0, 0), &v(0, 0, -SCALE), &spheres);
    assert!(r.is_none());
}

#[test]
fn nearest_sphere_wins_regardless_of_order() {
    let far = Sphere::new(v(0, 0, -10 * SCALE), 2 * SCALE, Material::new(v(100, 100, 100)));
    let near = Sphere::new(v(0, 0, -5 * SCALE), SCALE, Material::new(v(200, 200, 200)));
    let one = vec![far, near];
    let two = vec![near, far];
    let h1 = scene_intersect(&v(0, 0, 0), &v(0, 0, -SCALE), &one).unwrap();
    let h2 = scene_intersect(&v(0, 0, 0), &v(0, 0, -SCALE), &two).unwrap();
    assert_eq!(h1.dist, 4 * SCALE);
    assert_eq!(h2.dist, 4 * SCALE);
    assert_eq!(h1.material, h2.material);
    assert_eq!(h1.material.diffuse_color, v(200, 200, 200));
    assert_eq!(h1.point, h2.point);
    assert_eq!(h1.normal, h2.normal);
}

#[test]
fn hit_reports_point_and_outward_unit_normal() {
    let m = Material::new(v(6554, 6554, 6554));
    let spheres = vec![Sphere::new(v(0, 0, -10 * SCALE), 2 * SCALE, m)];
    let h = scene_intersect(&v(0, 0, 0), &v(0, 0, -SCALE), &spheres).unwrap();
    assert_eq!(h.dist, 8 * SCALE);
    assert_eq!((h.point.x, h.point.y, h.point.z), (0, 0, -8 * SCALE));
    assert_eq!((h.normal.x, h.normal.y, h.normal.z), (0, 0, SCALE));
    assert_eq!(h.normal.length(), SCALE);
}

#[test]
fn hit_beyond_visibility_range_is_discarded() {
    // A sphere 1500 units out intersects the ray, but past the far cutoff.
    let m = Material::new(v(6554, 6554, 6554));
    let spheres = vec![Sphere::new(v(0, 0, -1500 * SCALE), 2 * SCALE, m)];
    let r = scene_intersect(&v(0, 0, 0), &v(0, 0, -SCALE), &spheres);
    assert!(r.is_none());
}
