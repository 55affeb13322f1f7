use tinyraytracer::math::SCALE;
use tinyraytracer::vec3::Vec3;
use tinyraytracer::geom::{Material, Sphere};
use tinyraytracer::render::{ray_direction, cast_ray, render};

fn v(x: i64, y: i64, z: i64) -> Vec3 {
    Vec3::new(x, y, z)
}

const BACKGROUND: (i64, i64, i64) = (13107, 45875, 52428);

#[test]
fn ray_directions_are_unit_and_forward() {
    // tan(fov/2) == 1.0 for a 90-degree field of view
    for (i, j) in [(0usize, 0usize), (1, 0), (0, 1), (1, 1)] {
        let d = ray_direction(i, j, 2, 2, SCALE);
        assert!(d.z < 0);
        let len = d.length();
        assert!((SCALE - 2..=SCALE).contains(&len));
    }
    // the two columns mirror each other horizontally
    let l = ray_direction(0, 0, 2, 2, SCALE);
    let r = ray_direction(1, 0, 2, 2, SCALE);
    assert_eq!(l.x, -r.x);
    assert_eq!(l.y, r.y);
    assert_eq!(l.z, r.z);
}

#[test]
fn cast_ray_over_empty_scene_is_background() {
    let spheres: Vec<Sphere> = vec![];
    let c = cast_ray(&v(0, 0, 0), &v(0, 0, -SCALE), &spheres);
    assert_eq!((c.x, c.y, c.z), BACKGROUND);
}

#[test]
fn render_empty_scene_is_all_background() {
    let spheres: Vec<Sphere> = vec![];
    let fb = render(&spheres, 4, 3, SCALE);
    assert_eq!(fb.len(), 12);
    for p in fb {
        assert_eq!((p.x, p.y, p.z), BACKGROUND);
    }
}

#[test]
fn sphere_filling_the_frame_colors_every_pixel() {
    // A sphere of radius 6, ten units dead ahead, covers all four rays of a
    // tiny 2x2, 90-degree-fov frame (the corner rays pass about 5.8 units
    // from its center).
    let color = v(26214, 13107, 6554);
    let spheres = vec![Sphere::new(v(0, 0, -10 * SCALE), 6 * SCALE, Material::new(color))];
    let fb = render(&spheres, 2, 2, SCALE);
    assert_eq!(fb.len(), 4);
    for p in &fb {
        assert_eq!((p.x, p.y, p.z), (color.x, color.y, color.z));
    }
    // Moved far out of frame, every pixel falls back to the background.
    let gone = vec![Sphere::new(
        v(100 * SCALE, 100 * SCALE, -10 * SCALE),
        6 * SCALE,
        Material::new(color),
    )];
    let fb2 = render(&gone, 2, 2, SCALE);
    assert_eq!(fb2.len(), 4);
    for p in &fb2 {
        assert_eq!((p.x, p.y, p.z), BACKGROUND);
    }
}

#[test]
fn permuting_overlapping_spheres_keeps_the_image() {
    // Three spheres stacked along the view axis, each with its own color,
    // all crossed by the central rays: whichever order they are listed in,
    // every pixel takes the color of the nearest surface.
    let a = Sphere::new(v(0, 0, -6 * SCALE), SCALE, Material::new(v(100, 0, 0)));
    let b = Sphere::new(v(0, 0, -10 * SCALE), 2 * SCALE, Material::new(v(0, 100, 0)));
    let c = Sphere::new(v(0, 0, -17 * SCALE), 4 * SCALE, Material::new(v(0, 0, 100)));
    let orders: Vec<Vec<Sphere>> = vec![
        vec![a, b, c],
        vec![a, c, b],
        vec![b, a, c],
        vec![b, c, a],
        vec![c, a, b],
        vec![c, b, a],
    ];
    let reference = render(&orders[0], 8, 6, SCALE);
    for scene in &orders[1..] {
        let fb = render(scene, 8, 6, SCALE);
        assert_eq!(fb.len(), reference.len());
        for (p, q) in fb.iter().zip(reference.iter()) {
            assert_eq!((p.x, p.y, p.z), (q.x, q.y, q.z));
        }
    }
}
