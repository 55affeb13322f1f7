//! Nearest-hit search over an ordered list of spheres.

use vstd::prelude::*;
use crate::math::SCALE;
use crate::geom::{Sphere, Material, COORD_BOUND};
use crate::vec3::{V3, Vec3, bounded, vadd, vsub, vscale, vnormalize, lemma_vscale_bound};

verus! {

/// Far clipping distance (1000 world units in fixed point): a nearest hit at
/// or beyond it is treated as no hit.
pub const MAX_DIST: i64 = 65536000;

/// Mathematical content of a reported hit.
pub ghost struct HitV {
    pub dist: int,
    pub point: V3,
    pub normal: V3,
    pub diffuse: V3,
}

/// What the scene reports for a ray that meets something: the distance, the
/// world-space hit point, the outward surface normal, and the material.
pub struct Hit {
    pub dist: i64,
    pub point: Vec3,
    pub normal: Vec3,
    pub material: Material,
}

impl View for Hit {
    type V = HitV;

    open spec fn view(&self) -> HitV {
        HitV {
            dist: self.dist as int,
            point: self.point@,
            normal: self.normal@,
            diffuse: self.material.diffuse_color@,
        }
    }
}

/// Intersection distance of a single sphere, if any.
pub open spec fn hit_dist(s: Sphere, orig: V3, dir: V3) -> Option<int> {
    crate::geom::spec_ray_intersect(s.center@, s.radius as int, orig, dir)
}

/// Index and distance of the nearest hit over the list; among equal
/// distances the earliest sphere wins.
pub open spec fn best_hit(spheres: Seq<Sphere>, orig: V3, dir: V3) -> Option<(int, int)>
    decreases spheres.len(),
{
    if spheres.len() == 0 {
        None
    } else {
        let prev = best_hit(spheres.drop_last(), orig, dir);
        match hit_dist(spheres.last(), orig, dir) {
            Some(d) => match prev {
                Some(p) => if d < p.1 {
                    Some((spheres.len() - 1, d))
                } else {
                    prev
                },
                None => Some((spheres.len() - 1, d)),
            },
            None => prev,
        }
    }
}

/// Full report for the nearest in-range hit, assembled from the winning
/// sphere: hit point `orig + dir * dist` and outward normal
/// `normalize(point - center)`.
pub open spec fn spec_scene_hit(spheres: Seq<Sphere>, orig: V3, dir: V3) -> Option<HitV> {
    match best_hit(spheres, orig, dir) {
        None => None,
        Some(p) => if p.1 < MAX_DIST {
            let point = vadd(orig, vscale(dir, p.1));
            Some(
                HitV {
                    dist: p.1,
                    point,
                    normal: vnormalize(vsub(point, spheres[p.0].center@)),
                    diffuse: spheres[p.0].material.diffuse_color@,
                },
            )
        } else {
            None
        },
    }
}

/// Walk every sphere and report the nearest valid hit, or nothing when no
/// sphere intersects within the visibility range.
pub fn scene_intersect(orig: &Vec3, dir: &Vec3, spheres: &Vec<Sphere>) -> (r: Option<Hit>)
    requires
        bounded(orig@, COORD_BOUND as int),
        bounded(dir@, SCALE as int),
        forall|i: int| 0 <= i < spheres@.len() ==> spheres@[i].wf(),
    ensures
        (r is Some) == (spec_scene_hit(spheres@, orig@, dir@) is Some),
        r matches Some(h) ==> spec_scene_hit(spheres@, orig@, dir@) == Some(h@),
{
    let mut found = false;
    let mut best_i: usize = 0;
    let mut best_d: i64 = 0;
    let n = spheres.len();
    let mut k: usize = 0;
    while k < n
        invariant
            n == spheres@.len(),
            k <= n,
            forall|i: int| 0 <= i < spheres@.len() ==> spheres@[i].wf(),
            bounded(orig@, COORD_BOUND as int),
            bounded(dir@, SCALE as int),
            !found ==> best_hit(spheres@.take(k as int), orig@, dir@) is None,
            found ==> best_hit(spheres@.take(k as int), orig@, dir@) == Some(
                (best_i as int, best_d as int),
            ),
            found ==> best_i < k,
            found ==> 0 <= best_d < 0x200000000,
        decreases n - k,
    {
        let c = spheres[k].ray_intersect(orig, dir);
        proof {
            assert(spheres@.take(k as int + 1).drop_last() =~= spheres@.take(k as int));
            assert(spheres@.take(k as int + 1).last() == spheres@[k as int]);
        }
        match c {
            Some(d) => {
                if !found || d < best_d {
                    found = true;
                    best_i = k;
                    best_d = d;
                }
            },
            None => {},
        }
        k = k + 1;
    }
    proof {
        assert(spheres@.take(n as int) =~= spheres@);
    }
    if found && best_d < MAX_DIST {
        let sp = &spheres[best_i];
        proof {
            lemma_vscale_bound(dir@, best_d as int, SCALE as int, MAX_DIST as int, MAX_DIST as int);
        }
        let point = orig.add(&dir.scale(best_d));
        let normal = point.sub(&sp.center).normalize();
        Some(Hit { dist: best_d, point, normal, material: sp.material })
    } else {
        None
    }
}

/// Over an empty scene nothing is ever hit.
pub proof fn lemma_empty_scene(orig: V3, dir: V3)
    ensures
        best_hit(Seq::<Sphere>::empty(), orig, dir) is None,
        spec_scene_hit(Seq::<Sphere>::empty(), orig, dir) is None,
{
}

/// The nearest hit is attained by a sphere of the list, undercuts every
/// other sphere's hit, and strictly undercuts every earlier sphere's (the
/// first sphere at the minimum wins); and when there is no nearest hit, no
/// sphere hits at all.
pub proof fn lemma_best_hit_properties(spheres: Seq<Sphere>, orig: V3, dir: V3)
    ensures
        best_hit(spheres, orig, dir) matches Some(p) ==> {
            &&& 0 <= p.0 < spheres.len()
            &&& hit_dist(spheres[p.0], orig, dir) == Some(p.1)
            &&& forall|j: int|
                0 <= j < spheres.len() ==> (#[trigger] hit_dist(spheres[j], orig, dir)
                    matches Some(e) ==> p.1 <= e)
            &&& forall|j: int|
                0 <= j < p.0 ==> (#[trigger] hit_dist(spheres[j], orig, dir) matches Some(e)
                    ==> p.1 < e)
        },
        best_hit(spheres, orig, dir) is None ==> forall|j: int|
            0 <= j < spheres.len() ==> #[trigger] hit_dist(spheres[j], orig, dir) is None,
    decreases spheres.len(),
{
    if spheres.len() == 0 {
    } else {
        let head = spheres.drop_last();
        lemma_best_hit_properties(head, orig, dir);
        assert(forall|j: int| 0 <= j < head.len() ==> head[j] == spheres[j]);
        assert(spheres.last() == spheres[spheres.len() - 1]);
    }
}

/// The nearest-hit distance, and whether the scene reports a hit at all,
/// depend only on which spheres make up the scene, not on their order.
pub proof fn lemma_best_dist_order_independent(s1: Seq<Sphere>, s2: Seq<Sphere>, orig: V3, dir: V3)
    requires
        s1.to_multiset() == s2.to_multiset(),
    ensures
        (best_hit(s1, orig, dir) is Some) == (best_hit(s2, orig, dir) is Some),
        best_hit(s1, orig, dir) matches Some(p1) ==> (best_hit(s2, orig, dir) matches Some(p2)
            && p1.1 == p2.1),
        (spec_scene_hit(s1, orig, dir) is Some) == (spec_scene_hit(s2, orig, dir) is Some),
        spec_scene_hit(s1, orig, dir) matches Some(h1) ==> (spec_scene_hit(s2, orig, dir)
            matches Some(h2) && h1.dist == h2.dist),
{
    lemma_best_hit_properties(s1, orig, dir);
    lemma_best_hit_properties(s2, orig, dir);
    lemma_one_side_le(s1, s2, orig, dir);
    lemma_one_side_le(s2, s1, orig, dir);
}

/// When no two spheres of the scene hit the ray at the same distance (ties
/// are a measure-zero event for real distances), reordering the scene leaves
/// the whole report — distance, hit point, normal and material — unchanged.
pub proof fn lemma_scene_hit_order_independent(s1: Seq<Sphere>, s2: Seq<Sphere>, orig: V3, dir: V3)
    requires
        s1.to_multiset() == s2.to_multiset(),
        forall|i: int, j: int|
            0 <= i < j < s1.len() && #[trigger] hit_dist(s1[i], orig, dir) is Some
                && #[trigger] hit_dist(s1[j], orig, dir) is Some ==> hit_dist(s1[i], orig, dir)
                != hit_dist(s1[j], orig, dir),
    ensures
        spec_scene_hit(s1, orig, dir) == spec_scene_hit(s2, orig, dir),
{
    lemma_best_dist_order_independent(s1, s2, orig, dir);
    lemma_best_hit_properties(s1, orig, dir);
    lemma_best_hit_properties(s2, orig, dir);
    let b1 = best_hit(s1, orig, dir);
    let b2 = best_hit(s2, orig, dir);
    if b1 is Some {
        let p1 = b1->Some_0;
        let p2 = b2->Some_0;
        let x2 = s2[p2.0];
        s1.to_multiset_ensures();
        s2.to_multiset_ensures();
        assert(s2.contains(x2));
        assert(s1.to_multiset().count(x2) > 0);
        assert(s1.contains(x2));
        let m = choose|m: int| 0 <= m < s1.len() && s1[m] == x2;
        assert(hit_dist(s1[m], orig, dir) == Some(p1.1));
        assert(hit_dist(s1[p1.0], orig, dir) == Some(p1.1));
        if m != p1.0 {
            if m < p1.0 {
                assert(hit_dist(s1[m], orig, dir) != hit_dist(s1[p1.0], orig, dir));
            } else {
                assert(hit_dist(s1[p1.0], orig, dir) != hit_dist(s1[m], orig, dir));
            }
            assert(false);
        }
        assert(s1[p1.0] == x2);
    }
}

/// One direction of the order-independence argument: whatever `s1` hits,
/// `s2` (holding the same spheres) hits no farther away.
proof fn lemma_one_side_le(s1: Seq<Sphere>, s2: Seq<Sphere>, orig: V3, dir: V3)
    requires
        s1.to_multiset() == s2.to_multiset(),
    ensures
        best_hit(s1, orig, dir) matches Some(p1) ==> (best_hit(s2, orig, dir) matches Some(p2)
            && p2.1 <= p1.1),
{
    lemma_best_hit_properties(s1, orig, dir);
    lemma_best_hit_properties(s2, orig, dir);
    let b1 = best_hit(s1, orig, dir);
    if b1 is Some {
        let p1 = b1->Some_0;
        let x = s1[p1.0];
        s1.to_multiset_ensures();
        s2.to_multiset_ensures();
        assert(s1.contains(x));
        assert(s2.to_multiset().count(x) > 0);
        assert(s2.contains(x));
        let j = choose|j: int| 0 <= j < s2.len() && s2[j] == x;
        assert(hit_dist(s2[j], orig, dir) == Some(p1.1));
        assert(best_hit(s2, orig, dir) is Some);
    }
}

} // verus!
