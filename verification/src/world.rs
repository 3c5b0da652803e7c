//! Rays, bounding boxes and geometric primitives, with exact fixed-point
//! intersection semantics: each primitive variant reports the nearest
//! nonnegative root of its closed-form solution, and a reported hit always
//! lies inside the primitive's padded bounding box.

use vstd::prelude::*;
use crate::math::{
    Vec3, dot, tdiv, tdiv128, tdiv_spec, sqrt_floor, lemma_sqrt_floor_unique, lemma_mul_bound,
    lemma_square_nonneg, isqrt, FP, POS_MAX, RAD_MAX, DIR_MAX, T_MAX, PAD, BOX_MAX,
};
use crate::data::Material;

verus! {

/// A ray: origin and direction, both fixed-point. Directions need not be
/// normalized; the hit parameter is measured in units of the direction.
#[derive(Clone, Copy, PartialEq, Eq, Structural, Debug)]
pub struct Ray {
    pub orig: Vec3,
    pub dir: Vec3,
}

/// Validity bounds under which every intersection formula stays in range.
pub open spec fn ray_wf(r: Ray) -> bool {
    &&& crate::math::vec3_in_range(r.orig, POS_MAX)
    &&& crate::math::vec3_in_range(r.dir, DIR_MAX)
}

/// Scaled x coordinate (times `FP`) of the point at parameter `t` on `r`.
pub open spec fn point_at_x(r: Ray, t: int) -> int {
    r.orig.x * FP + t * r.dir.x
}

/// Scaled y coordinate of the point at parameter `t` on `r`.
pub open spec fn point_at_y(r: Ray, t: int) -> int {
    r.orig.y * FP + t * r.dir.y
}

/// Scaled z coordinate of the point at parameter `t` on `r`.
pub open spec fn point_at_z(r: Ray, t: int) -> int {
    r.orig.z * FP + t * r.dir.z
}

/// An axis-aligned bounding box, inclusive on both ends.
#[derive(Clone, Copy, PartialEq, Eq, Structural, Debug)]
pub struct Aabb {
    pub min: Vec3,
    pub max: Vec3,
}

/// Validity: ordered, bounded extents.
pub open spec fn aabb_wf(b: Aabb) -> bool {
    &&& crate::math::vec3_in_range(b.min, BOX_MAX)
    &&& crate::math::vec3_in_range(b.max, BOX_MAX)
    &&& b.min.x <= b.max.x
    &&& b.min.y <= b.max.y
    &&& b.min.z <= b.max.z
}

/// The scaled point at parameter `t` on `r` lies inside the scaled box.
pub open spec fn point_in_box(r: Ray, t: int, b: Aabb) -> bool {
    &&& b.min.x * FP <= point_at_x(r, t) <= b.max.x * FP
    &&& b.min.y * FP <= point_at_y(r, t) <= b.max.y * FP
    &&& b.min.z * FP <= point_at_z(r, t) <= b.max.z * FP
}

/// `outer` contains `inner` componentwise.
pub open spec fn box_contains_box(outer: Aabb, inner: Aabb) -> bool {
    &&& outer.min.x <= inner.min.x && inner.max.x <= outer.max.x
    &&& outer.min.y <= inner.min.y && inner.max.y <= outer.max.y
    &&& outer.min.z <= inner.min.z && inner.max.z <= outer.max.z
}

/// A point inside a contained box is inside the containing box.
pub proof fn lemma_point_in_contained_box(r: Ray, t: int, inner: Aabb, outer: Aabb)
    requires
        point_in_box(r, t, inner),
        box_contains_box(outer, inner),
    ensures
        point_in_box(r, t, outer),
{
}

/// The smallest box containing both arguments.
pub fn box_union(a: &Aabb, b: &Aabb) -> (u: Aabb)
    requires
        aabb_wf(*a),
        aabb_wf(*b),
    ensures
        aabb_wf(u),
        box_contains_box(u, *a),
        box_contains_box(u, *b),
{
    Aabb {
        min: Vec3 {
            x: if a.min.x <= b.min.x { a.min.x } else { b.min.x },
            y: if a.min.y <= b.min.y { a.min.y } else { b.min.y },
            z: if a.min.z <= b.min.z { a.min.z } else { b.min.z },
        },
        max: Vec3 {
            x: if a.max.x >= b.max.x { a.max.x } else { b.max.x },
            y: if a.max.y >= b.max.y { a.max.y } else { b.max.y },
            z: if a.max.z >= b.max.z { a.max.z } else { b.max.z },
        },
    }
}

/// A renderable geometric shape with its material.
#[derive(Clone, Copy, PartialEq, Eq, Structural, Debug)]
pub enum Primitive {
    /// A sphere given by center and radius.
    Sphere { center: Vec3, radius: i64, material: Material },
    /// One cell of a height field: the horizontal rectangle
    /// `[x0, x1] x [z0, z1]` at elevation `elev`.
    HeightCell { x0: i64, x1: i64, z0: i64, z1: i64, elev: i64, material: Material },
}

/// Validity bounds for a primitive's shape parameters.
pub open spec fn prim_wf(p: Primitive) -> bool {
    match p {
        Primitive::Sphere { center, radius, .. } => {
            &&& crate::math::vec3_in_range(center, POS_MAX)
            &&& 0 < radius <= RAD_MAX
        },
        Primitive::HeightCell { x0, x1, z0, z1, elev, .. } => {
            &&& -POS_MAX <= x0 <= x1 <= POS_MAX
            &&& -POS_MAX <= z0 <= z1 <= POS_MAX
            &&& -POS_MAX <= elev <= POS_MAX
        },
    }
}

/// The material of a primitive.
pub open spec fn prim_material(p: Primitive) -> Material {
    match p {
        Primitive::Sphere { material, .. } => material,
        Primitive::HeightCell { material, .. } => material,
    }
}

/// The primitive's padded axis-aligned bounding box. The padding absorbs
/// the fixed-point rounding of the intersection formulas, so that every
/// reported hit point lies inside this box.
pub open spec fn prim_aabb_spec(p: Primitive) -> Aabb {
    match p {
        Primitive::Sphere { center, radius, .. } => Aabb {
            min: Vec3 {
                x: (center.x - radius - PAD) as i64,
                y: (center.y - radius - PAD) as i64,
                z: (center.z - radius - PAD) as i64,
            },
            max: Vec3 {
                x: (center.x + radius + PAD) as i64,
                y: (center.y + radius + PAD) as i64,
                z: (center.z + radius + PAD) as i64,
            },
        },
        Primitive::HeightCell { x0, x1, z0, z1, elev, .. } => Aabb {
            min: Vec3 { x: x0, y: (elev - PAD) as i64, z: z0 },
            max: Vec3 { x: x1, y: (elev + PAD) as i64, z: z1 },
        },
    }
}

/// Computes the padded bounding box of a primitive.
pub fn prim_aabb(p: &Primitive) -> (b: Aabb)
    requires
        prim_wf(*p),
    ensures
        b == prim_aabb_spec(*p),
        aabb_wf(b),
{
    match p {
        Primitive::Sphere { center, radius, .. } => Aabb {
            min: Vec3 {
                x: center.x - radius - PAD,
                y: center.y - radius - PAD,
                z: center.z - radius - PAD,
            },
            max: Vec3 {
                x: center.x + radius + PAD,
                y: center.y + radius + PAD,
                z: center.z + radius + PAD,
            },
        },
        Primitive::HeightCell { x0, x1, z0, z1, elev, .. } => Aabb {
            min: Vec3 { x: *x0, y: *elev - PAD, z: *z0 },
            max: Vec3 { x: *x1, y: *elev + PAD, z: *z1 },
        },
    }
}

/// Reads the material of a primitive.
pub fn get_material(p: &Primitive) -> (m: Material)
    ensures
        m == prim_material(*p),
{
    match p {
        Primitive::Sphere { material, .. } => *material,
        Primitive::HeightCell { material, .. } => *material,
    }
}

/// Final filter of a candidate hit parameter: it must be within the
/// representable range and its point must lie inside the padded box; a
/// candidate that fixed-point rounding pushed outside is discarded.
pub open spec fn accept_hit(ray: Ray, t: int, bb: Aabb) -> Option<i64> {
    if 0 <= t <= T_MAX && point_in_box(ray, t, bb) {
        Some(t as i64)
    } else {
        None
    }
}

/// Hit parameter of `ray` against a sphere, mirroring the fixed-point
/// computation: solve the scaled quadratic `a t^2 + b t + c = 0`, take the
/// nearest nonnegative root (the far root only from inside the sphere),
/// and filter through `accept_hit`.
pub open spec fn sphere_hit(center: Vec3, radius: i64, ray: Ray, bb: Aabb) -> Option<i64> {
    let a = dot(ray.dir, ray.dir);
    if a == 0 {
        None
    } else {
        let ocx = ray.orig.x - center.x;
        let ocy = ray.orig.y - center.y;
        let ocz = ray.orig.z - center.z;
        let b = 2 * (ocx * ray.dir.x + ocy * ray.dir.y + ocz * ray.dir.z);
        let c = ocx * ocx + ocy * ocy + ocz * ocz - radius * radius;
        let disc = b * b - 4 * a * c;
        if disc < 0 {
            None
        } else {
            let s = sqrt_floor(disc);
            let near = -b - s;
            let far = -b + s;
            let chosen = if near >= 0 { near } else { far };
            if chosen < 0 {
                None
            } else {
                accept_hit(ray, tdiv_spec(chosen * FP, 2 * a), bb)
            }
        }
    }
}

/// Hit parameter of `ray` against a horizontal height-field cell at
/// elevation `elev`, mirroring the fixed-point computation: solve
/// `orig.y + t * dir.y = elev` for the plane, then filter through
/// `accept_hit`, whose box check is exactly the cell's rectangle test.
pub open spec fn cell_hit(elev: i64, ray: Ray, bb: Aabb) -> Option<i64> {
    if ray.dir.y == 0 {
        None
    } else {
        let num = elev - ray.orig.y;
        if num == 0 {
            accept_hit(ray, 0, bb)
        } else if (num > 0) != (ray.dir.y > 0) {
            None
        } else {
            let t = if num > 0 {
                tdiv_spec(num * FP, ray.dir.y as int)
            } else {
                tdiv_spec(-num * FP, -ray.dir.y as int)
            };
            accept_hit(ray, t, bb)
        }
    }
}

/// Hit parameter of `ray` against any primitive: the nearest valid
/// intersection in the fixed-point model, or none.
pub open spec fn prim_hit(p: Primitive, ray: Ray) -> Option<i64> {
    match p {
        Primitive::Sphere { center, radius, .. } => sphere_hit(
            center,
            radius,
            ray,
            prim_aabb_spec(p),
        ),
        Primitive::HeightCell { elev, .. } => cell_hit(elev, ray, prim_aabb_spec(p)),
    }
}

/// A reported hit parameter is in range and its point lies inside the
/// primitive's padded bounding box.
pub proof fn lemma_hit_in_box(p: Primitive, ray: Ray)
    requires
        prim_hit(p, ray) is Some,
    ensures
        0 <= prim_hit(p, ray)->Some_0 <= T_MAX,
        point_in_box(ray, prim_hit(p, ray)->Some_0 as int, prim_aabb_spec(p)),
{
}

/// Tests whether the scaled point at parameter `t` lies inside the scaled
/// box; exactly `point_in_box`.
fn in_box_test(ray: &Ray, t: i64, bb: &Aabb) -> (r: bool)
    requires
        ray_wf(*ray),
        aabb_wf(*bb),
        0 <= t <= T_MAX,
    ensures
        r == point_in_box(*ray, t as int, *bb),
{
    proof {
        lemma_mul_bound(t as int, ray.dir.x as int, T_MAX as int, DIR_MAX as int);
        lemma_mul_bound(t as int, ray.dir.y as int, T_MAX as int, DIR_MAX as int);
        lemma_mul_bound(t as int, ray.dir.z as int, T_MAX as int, DIR_MAX as int);
    }
    let px = ray.orig.x * FP + t * ray.dir.x;
    let py = ray.orig.y * FP + t * ray.dir.y;
    let pz = ray.orig.z * FP + t * ray.dir.z;
    bb.min.x * FP <= px && px <= bb.max.x * FP && bb.min.y * FP <= py && py <= bb.max.y * FP
        && bb.min.z * FP <= pz && pz <= bb.max.z * FP
}

/// Range and box filter for a candidate parameter; exactly `accept_hit`.
fn accept_test(ray: &Ray, t: i64, bb: &Aabb) -> (r: Option<i64>)
    requires
        ray_wf(*ray),
        aabb_wf(*bb),
        0 <= t,
    ensures
        r == accept_hit(*ray, t as int, *bb),
{
    if t > T_MAX {
        None
    } else if in_box_test(ray, t, bb) {
        Some(t)
    } else {
        None
    }
}

/// Computes the nearest valid intersection of `ray` with a primitive;
/// returns exactly `prim_hit`.
pub fn intersect_prim(p: &Primitive, ray: &Ray) -> (res: Option<i64>)
    requires
        prim_wf(*p),
        ray_wf(*ray),
    ensures
        res == prim_hit(*p, *ray),
{
    let bb = prim_aabb(p);
    match p {
        Primitive::Sphere { center, radius, .. } => {
            proof {
                lemma_mul_bound(ray.dir.x as int, ray.dir.x as int, DIR_MAX as int, DIR_MAX as int);
                lemma_mul_bound(ray.dir.y as int, ray.dir.y as int, DIR_MAX as int, DIR_MAX as int);
                lemma_mul_bound(ray.dir.z as int, ray.dir.z as int, DIR_MAX as int, DIR_MAX as int);
            }
            proof {
                lemma_square_nonneg(ray.dir.x as int);
                lemma_square_nonneg(ray.dir.y as int);
                lemma_square_nonneg(ray.dir.z as int);
            }
            let a: i64 = ray.dir.x * ray.dir.x + ray.dir.y * ray.dir.y + ray.dir.z * ray.dir.z;
            if a == 0 {
                return None;
            }
            let ocx = ray.orig.x - center.x;
            let ocy = ray.orig.y - center.y;
            let ocz = ray.orig.z - center.z;
            proof {
                lemma_mul_bound(ocx as int, ray.dir.x as int, 2 * POS_MAX, DIR_MAX as int);
                lemma_mul_bound(ocy as int, ray.dir.y as int, 2 * POS_MAX, DIR_MAX as int);
                lemma_mul_bound(ocz as int, ray.dir.z as int, 2 * POS_MAX, DIR_MAX as int);
                lemma_mul_bound(ocx as int, ocx as int, 2 * POS_MAX, 2 * POS_MAX);
                lemma_mul_bound(ocy as int, ocy as int, 2 * POS_MAX, 2 * POS_MAX);
                lemma_mul_bound(ocz as int, ocz as int, 2 * POS_MAX, 2 * POS_MAX);
                lemma_mul_bound(*radius as int, *radius as int, RAD_MAX as int, RAD_MAX as int);
            }
            let b: i64 = 2 * (ocx * ray.dir.x + ocy * ray.dir.y + ocz * ray.dir.z);
            let c: i64 = ocx * ocx + ocy * ocy + ocz * ocz - *radius * *radius;
            proof {
                lemma_mul_bound(b as int, b as int, 0x80000000000, 0x80000000000);
                lemma_mul_bound(4 * a as int, c as int, 0xc00000000, 0x10000000000000);
            }
            let disc: i128 = (b as i128) * (b as i128) - 4 * (a as i128) * (c as i128);
            if disc < 0 {
                return None;
            }
            let s128: u128 = isqrt(disc as u128);
            proof {
                assert(s128 * s128 <= disc);
                assert(s128 as int <= 0x1000000000000) by (nonlinear_arith)
                    requires
                        s128 * s128 <= disc,
                        disc < 0x1000000000000000000000000,
                        s128 >= 0,
                ;
            }
            let s: i128 = s128 as i128;
            let near: i128 = -(b as i128) - s;
            let far: i128 = -(b as i128) + s;
            let chosen: i128 = if near >= 0 {
                near
            } else {
                far
            };
            if chosen < 0 {
                return None;
            }
            proof {
                lemma_mul_bound(chosen as int, FP as int, 0x4000000000000, 1024);
            }
            let t128: i128 = tdiv128(chosen * (FP as i128), 2 * (a as i128));
            if t128 > (T_MAX as i128) {
                proof {
                    assert(accept_hit(*ray, tdiv_spec(chosen as int * FP, 2 * a as int), bb)
                        is None);
                }
                return None;
            }
            accept_test(ray, t128 as i64, &bb)
        },
        Primitive::HeightCell { elev, .. } => {
            if ray.dir.y == 0 {
                return None;
            }
            let num = *elev - ray.orig.y;
            if num == 0 {
                return accept_test(ray, 0, &bb);
            }
            if (num > 0) != (ray.dir.y > 0) {
                return None;
            }
            let t: i64 = if num > 0 {
                tdiv(num * FP, ray.dir.y)
            } else {
                tdiv(-num * FP, -ray.dir.y)
            };
            accept_test(ray, t, &bb)
        },
    }
}


/// An intersection result: primitive index and hit parameter, if any.
pub type HitOpt = Option<(usize, i64)>;

/// View of an executable hit result at the mathematical level.
pub open spec fn hview(r: HitOpt) -> Option<(int, i64)> {
    match r {
        None => None,
        Some((i, t)) => Some((i as int, t)),
    }
}

/// Every primitive of the scene is valid.
pub open spec fn prims_wf(prims: Seq<Primitive>) -> bool {
    forall|k: int| 0 <= k < prims.len() ==> prim_wf(#[trigger] prims[k])
}

/// Primitive `i` has a hit within the query interval.
pub open spec fn valid_hit(prims: Seq<Primitive>, ray: Ray, tmin: i64, tmax: i64, i: int) -> bool {
    &&& 0 <= i < prims.len()
    &&& prim_hit(prims[i], ray) is Some
    &&& tmin <= prim_hit(prims[i], ray)->Some_0 <= tmax
}

/// Hit parameter of primitive `i` (meaningful only when it hits).
pub open spec fn hit_t(prims: Seq<Primitive>, ray: Ray, i: int) -> i64 {
    prim_hit(prims[i], ray)->Some_0
}

/// Hit `(j, u)` beats hit `(i, t)`: strictly closer, or as close with a
/// smaller primitive index.
pub open spec fn beats(j: int, u: i64, i: int, t: i64) -> bool {
    u < t || (u == t && j < i)
}

/// Result of scanning primitives `0 .. n` in order, keeping the closest hit
/// within the interval and resolving distance ties toward the smaller index.
pub open spec fn closest_upto(
    prims: Seq<Primitive>,
    ray: Ray,
    tmin: i64,
    tmax: i64,
    n: int,
) -> Option<(int, i64)>
    decreases n,
{
    if n <= 0 {
        None
    } else {
        let rest = closest_upto(prims, ray, tmin, tmax, n - 1);
        if valid_hit(prims, ray, tmin, tmax, n - 1) {
            let t = hit_t(prims, ray, n - 1);
            match rest {
                None => Some((n - 1, t)),
                Some((i, u)) => if beats(n - 1, t, i, u) {
                    Some((n - 1, t))
                } else {
                    Some((i, u))
                },
            }
        } else {
            rest
        }
    }
}

/// The closest hit over the whole scene: what an exhaustive linear scan over
/// all primitives returns.
pub open spec fn closest_hit(prims: Seq<Primitive>, ray: Ray, tmin: i64, tmax: i64) -> Option<
    (int, i64),
> {
    closest_upto(prims, ray, tmin, tmax, prims.len() as int)
}

/// `h` is sound: if it names a hit, that hit is real and in the interval.
pub open spec fn hit_sound(
    prims: Seq<Primitive>,
    ray: Ray,
    tmin: i64,
    tmax: i64,
    h: Option<(int, i64)>,
) -> bool {
    match h {
        None => true,
        Some((i, t)) => valid_hit(prims, ray, tmin, tmax, i) && t == hit_t(prims, ray, i),
    }
}

/// Primitive `j` does not beat the result `h`; when `h` is empty, `j` has no
/// hit in the interval at all.
pub open spec fn no_better(
    prims: Seq<Primitive>,
    ray: Ray,
    tmin: i64,
    tmax: i64,
    j: int,
    h: Option<(int, i64)>,
) -> bool {
    valid_hit(prims, ray, tmin, tmax, j) ==> match h {
        None => false,
        Some((i, t)) => !beats(j, hit_t(prims, ray, j), i, t),
    }
}

/// `a` is at least as good a hit as `b`.
pub open spec fn as_good(a: Option<(int, i64)>, b: Option<(int, i64)>) -> bool {
    match b {
        None => true,
        Some((j, u)) => match a {
            None => false,
            Some((i, t)) => t < u || (t == u && i <= j),
        },
    }
}

/// Whatever does not beat `b` does not beat an `a` at least as good.
proof fn lemma_no_better_mono(
    prims: Seq<Primitive>,
    ray: Ray,
    tmin: i64,
    tmax: i64,
    j: int,
    b: Option<(int, i64)>,
    a: Option<(int, i64)>,
)
    requires
        no_better(prims, ray, tmin, tmax, j, b),
        as_good(a, b),
    ensures
        no_better(prims, ray, tmin, tmax, j, a),
{
}

/// The linear-scan result is sound, nothing scanned beats it, and its index
/// lies below `n`.
pub proof fn lemma_closest_upto_props(
    prims: Seq<Primitive>,
    ray: Ray,
    tmin: i64,
    tmax: i64,
    n: int,
)
    requires
        0 <= n <= prims.len(),
    ensures
        hit_sound(prims, ray, tmin, tmax, closest_upto(prims, ray, tmin, tmax, n)),
        forall|j: int|
            0 <= j < n ==> no_better(
                prims,
                ray,
                tmin,
                tmax,
                j,
                closest_upto(prims, ray, tmin, tmax, n),
            ),
        closest_upto(prims, ray, tmin, tmax, n) is Some ==> 0 <= closest_upto(
            prims,
            ray,
            tmin,
            tmax,
            n,
        )->Some_0.0 < n,
    decreases n,
{
    if n > 0 {
        lemma_closest_upto_props(prims, ray, tmin, tmax, n - 1);
        let rest = closest_upto(prims, ray, tmin, tmax, n - 1);
        let cur = closest_upto(prims, ray, tmin, tmax, n);
        assert(as_good(cur, rest));
        assert forall|j: int| 0 <= j < n implies no_better(prims, ray, tmin, tmax, j, cur) by {
            if j < n - 1 {
                lemma_no_better_mono(prims, ray, tmin, tmax, j, rest, cur);
            }
        }
    }
}

/// Any sound result that no primitive beats is exactly the linear-scan
/// result: the closest hit, with its distance and index, is unique.
pub proof fn lemma_closest_characterization(
    prims: Seq<Primitive>,
    ray: Ray,
    tmin: i64,
    tmax: i64,
    h: Option<(int, i64)>,
)
    requires
        hit_sound(prims, ray, tmin, tmax, h),
        forall|j: int| 0 <= j < prims.len() ==> no_better(prims, ray, tmin, tmax, j, h),
    ensures
        h == closest_hit(prims, ray, tmin, tmax),
{
    lemma_closest_upto_props(prims, ray, tmin, tmax, prims.len() as int);
    let c = closest_hit(prims, ray, tmin, tmax);
    match h {
        None => {
            if c is Some {
                let (i, t) = c->Some_0;
                assert(no_better(prims, ray, tmin, tmax, i, h));
                assert(false);
            }
        },
        Some((i, t)) => {
            assert(no_better(prims, ray, tmin, tmax, i, c));
            match c {
                None => {
                    assert(false);
                },
                Some((ci, ct)) => {
                    assert(no_better(prims, ray, tmin, tmax, ci, h));
                    assert(!beats(i, t, ci, ct) && !beats(ci, ct, i, t));
                },
            }
        },
    }
}

/// Exhaustive reference intersection: scans every primitive and returns the
/// closest hit within `[tmin, tmax]`, distance ties resolved toward the
/// smaller index.
pub fn intersect_linear(
    prims: &Vec<Primitive>,
    ray: &Ray,
    tmin: i64,
    tmax: i64,
) -> (res: HitOpt)
    requires
        prims_wf(prims@),
        ray_wf(*ray),
    ensures
        hview(res) == closest_hit(prims@, *ray, tmin, tmax),
{
    let mut best: HitOpt = None;
    let n = prims.len();
    let mut k: usize = 0;
    while k < n
        invariant
            n == prims@.len(),
            k <= n,
            prims_wf(prims@),
            ray_wf(*ray),
            hview(best) == closest_upto(prims@, *ray, tmin, tmax, k as int),
        decreases n - k,
    {
        proof {
            lemma_closest_upto_props(prims@, *ray, tmin, tmax, k as int);
        }
        let ph = intersect_prim(&prims[k], ray);
        if let Some(t) = ph {
            if tmin <= t && t <= tmax {
                let replace = match best {
                    None => true,
                    Some((bi, bt)) => t < bt,
                };
                if replace {
                    best = Some((k, t));
                }
            }
        }
        k = k + 1;
    }
    best
}


/// Upper bound on how many primitives a leaf holds.
pub const LEAF_MAX: usize = 4;

/// Index `j` occurs in the index list.
pub open spec fn in_idxs(idxs: Seq<usize>, j: int) -> bool {
    exists|k: int| 0 <= k < idxs.len() && (#[trigger] idxs[k]) as int == j
}

/// Membership in a pushed index list.
proof fn lemma_in_idxs_push(s: Seq<usize>, x: usize, j: int)
    ensures
        in_idxs(s.push(x), j) <==> (in_idxs(s, j) || j == x as int),
{
    if in_idxs(s.push(x), j) {
        let k = choose|k: int| 0 <= k < s.push(x).len() && (#[trigger] s.push(x)[k]) as int == j;
        if k < s.len() {
            assert(s[k] == s.push(x)[k]);
            assert(in_idxs(s, j));
        } else {
            assert(s.push(x)[s.len() as int] == x);
        }
    }
    if in_idxs(s, j) {
        let k = choose|k: int| 0 <= k < s.len() && (#[trigger] s[k]) as int == j;
        assert(s.push(x)[k] == s[k]);
        assert(in_idxs(s.push(x), j));
    }
    if j == x as int {
        assert((s.push(x)[s.len() as int]) as int == j);
        assert(in_idxs(s.push(x), j));
    }
}

/// One node of the bounding-volume hierarchy.
pub enum BvhNode {
    /// Holds direct indices into the primitive sequence.
    Leaf { bb: Aabb, idxs: Vec<usize> },
    /// An inner node whose box contains both children's boxes.
    Branch { bb: Aabb, left: Box<BvhNode>, right: Box<BvhNode> },
}

impl BvhNode {
    /// The node's bounding box.
    pub open spec fn bb(self) -> Aabb {
        match self {
            BvhNode::Leaf { bb, .. } => bb,
            BvhNode::Branch { bb, .. } => bb,
        }
    }

    /// Reads the node's bounding box.
    pub fn get_bb(&self) -> (b: Aabb)
        ensures
            b == self.bb(),
    {
        match self {
            BvhNode::Leaf { bb, .. } => *bb,
            BvhNode::Branch { bb, .. } => *bb,
        }
    }

    /// Every leaf of this subtree holds at most `LEAF_MAX` indices.
    pub open spec fn leaves_small(self) -> bool
        decreases self,
    {
        match self {
            BvhNode::Leaf { idxs, .. } => idxs@.len() <= LEAF_MAX,
            BvhNode::Branch { left, right, .. } => left.leaves_small() && right.leaves_small(),
        }
    }

    /// Primitive index `j` occurs somewhere in this subtree.
    pub open spec fn has_idx(self, j: int) -> bool
        decreases self,
    {
        match self {
            BvhNode::Leaf { idxs, .. } => in_idxs(idxs@, j),
            BvhNode::Branch { left, right, .. } => left.has_idx(j) || right.has_idx(j),
        }
    }

    /// Structural invariant: every index in a leaf points at a primitive of
    /// the scene whose padded box the leaf's box contains, and every branch
    /// box contains its children's boxes.
    pub open spec fn wf(self, prims: Seq<Primitive>) -> bool
        decreases self,
    {
        match self {
            BvhNode::Leaf { bb, idxs } => {
                &&& aabb_wf(bb)
                &&& forall|k: int|
                    0 <= k < idxs@.len() ==> (#[trigger] idxs@[k]) < prims.len()
                        && box_contains_box(bb, prim_aabb_spec(prims[idxs@[k] as int]))
            },
            BvhNode::Branch { bb, left, right } => {
                &&& aabb_wf(bb)
                &&& box_contains_box(bb, left.bb())
                &&& box_contains_box(bb, right.bb())
                &&& left.wf(prims)
                &&& right.wf(prims)
            },
        }
    }
}

/// Box containment is transitive.
pub proof fn lemma_box_trans(a: Aabb, b: Aabb, c: Aabb)
    requires
        box_contains_box(a, b),
        box_contains_box(b, c),
    ensures
        box_contains_box(a, c),
{
}

/// `as_good` is transitive.
proof fn lemma_as_good_trans(a: Option<(int, i64)>, b: Option<(int, i64)>, c: Option<(int, i64)>)
    requires
        as_good(a, b),
        as_good(b, c),
    ensures
        as_good(a, c),
{
}

/// In a well-formed subtree holding index `j`, the subtree's box contains
/// that primitive's padded box.
pub proof fn lemma_node_box_covers(node: BvhNode, prims: Seq<Primitive>, j: int)
    requires
        node.wf(prims),
        node.has_idx(j),
    ensures
        0 <= j < prims.len(),
        box_contains_box(node.bb(), prim_aabb_spec(prims[j])),
    decreases node,
{
    match node {
        BvhNode::Leaf { bb, idxs } => {
            let k = choose|k: int| 0 <= k < idxs@.len() && (#[trigger] idxs@[k]) as int == j;
        },
        BvhNode::Branch { bb, left, right } => {
            if left.has_idx(j) {
                lemma_node_box_covers(*left, prims, j);
                lemma_box_trans(node.bb(), left.bb(), prim_aabb_spec(prims[j]));
            } else {
                lemma_node_box_covers(*right, prims, j);
                lemma_box_trans(node.bb(), right.bb(), prim_aabb_spec(prims[j]));
            }
        },
    }
}

/// Conservative per-axis overlap between the segment of a ray for parameters
/// in `[t0, t1]` and one box extent (everything scaled by `FP`).
pub open spec fn axis_overlap(o: i64, d: i64, t0: int, t1: int, lo: i64, hi: i64) -> bool {
    let ea = o * FP + (if d >= 0 { t0 } else { t1 }) * d;
    let eb = o * FP + (if d >= 0 { t1 } else { t0 }) * d;
    ea <= hi * FP && lo * FP <= eb
}

/// The segment of `ray` between parameters `t0` and `t1` meets the box's
/// extents on all three axes.
pub open spec fn seg_box_overlap(ray: Ray, t0: int, t1: int, bb: Aabb) -> bool {
    &&& axis_overlap(ray.orig.x, ray.dir.x, t0, t1, bb.min.x, bb.max.x)
    &&& axis_overlap(ray.orig.y, ray.dir.y, t0, t1, bb.min.y, bb.max.y)
    &&& axis_overlap(ray.orig.z, ray.dir.z, t0, t1, bb.min.z, bb.max.z)
}

/// A segment point inside one box extent forces that axis overlap.
pub proof fn lemma_axis_overlap(o: i64, d: i64, t0: int, t1: int, t: int, lo: i64, hi: i64)
    requires
        t0 <= t <= t1,
        lo * FP <= o * FP + t * d <= hi * FP,
    ensures
        axis_overlap(o, d, t0, t1, lo, hi),
{
    if d >= 0 {
        assert(t0 * d <= t * d && t * d <= t1 * d) by (nonlinear_arith)
            requires
                t0 <= t <= t1,
                d >= 0,
        ;
    } else {
        assert(t1 * d <= t * d && t * d <= t0 * d) by (nonlinear_arith)
            requires
                t0 <= t <= t1,
                d < 0,
        ;
    }
}

/// A segment point inside the box forces the segment/box overlap test true:
/// skipping a subtree on a failed test never skips a reachable hit.
pub proof fn lemma_seg_overlap_of_point(ray: Ray, t0: int, t1: int, t: int, bb: Aabb)
    requires
        t0 <= t <= t1,
        point_in_box(ray, t, bb),
    ensures
        seg_box_overlap(ray, t0, t1, bb),
{
    lemma_axis_overlap(ray.orig.x, ray.dir.x, t0, t1, t, bb.min.x, bb.max.x);
    lemma_axis_overlap(ray.orig.y, ray.dir.y, t0, t1, t, bb.min.y, bb.max.y);
    lemma_axis_overlap(ray.orig.z, ray.dir.z, t0, t1, t, bb.min.z, bb.max.z);
}

/// Tests the segment/box overlap; exactly `seg_box_overlap`.
fn seg_box_test(ray: &Ray, t0: i64, t1: i64, bb: &Aabb) -> (r: bool)
    requires
        ray_wf(*ray),
        aabb_wf(*bb),
        0 <= t0 <= t1 <= T_MAX,
    ensures
        r == seg_box_overlap(*ray, t0 as int, t1 as int, *bb),
{
    proof {
        lemma_mul_bound(t0 as int, ray.dir.x as int, T_MAX as int, DIR_MAX as int);
        lemma_mul_bound(t1 as int, ray.dir.x as int, T_MAX as int, DIR_MAX as int);
        lemma_mul_bound(t0 as int, ray.dir.y as int, T_MAX as int, DIR_MAX as int);
        lemma_mul_bound(t1 as int, ray.dir.y as int, T_MAX as int, DIR_MAX as int);
        lemma_mul_bound(t0 as int, ray.dir.z as int, T_MAX as int, DIR_MAX as int);
        lemma_mul_bound(t1 as int, ray.dir.z as int, T_MAX as int, DIR_MAX as int);
    }
    let (tax, tbx) = if ray.dir.x >= 0 {
        (t0, t1)
    } else {
        (t1, t0)
    };
    let eax = ray.orig.x * FP + tax * ray.dir.x;
    let ebx = ray.orig.x * FP + tbx * ray.dir.x;
    let (tay, tby) = if ray.dir.y >= 0 {
        (t0, t1)
    } else {
        (t1, t0)
    };
    let eay = ray.orig.y * FP + tay * ray.dir.y;
    let eby = ray.orig.y * FP + tby * ray.dir.y;
    let (taz, tbz) = if ray.dir.z >= 0 {
        (t0, t1)
    } else {
        (t1, t0)
    };
    let eaz = ray.orig.z * FP + taz * ray.dir.z;
    let ebz = ray.orig.z * FP + tbz * ray.dir.z;
    eax <= bb.max.x * FP && bb.min.x * FP <= ebx && eay <= bb.max.y * FP && bb.min.y * FP <= eby
        && eaz <= bb.max.z * FP && bb.min.z * FP <= ebz
}


/// The smallest box containing the padded boxes of the selected primitives
/// (a degenerate point box for an empty selection).
fn bound_of(prims: &Vec<Primitive>, idxs: &Vec<usize>) -> (bb: Aabb)
    requires
        prims_wf(prims@),
        forall|k: int| 0 <= k < idxs@.len() ==> (#[trigger] idxs@[k]) < prims@.len(),
    ensures
        aabb_wf(bb),
        forall|k: int|
            0 <= k < idxs@.len() ==> box_contains_box(
                bb,
                prim_aabb_spec(prims@[(#[trigger] idxs@[k]) as int]),
            ),
{
    if idxs.len() == 0 {
        return Aabb { min: Vec3 { x: 0, y: 0, z: 0 }, max: Vec3 { x: 0, y: 0, z: 0 } };
    }
    let mut bb = prim_aabb(&prims[idxs[0]]);
    let mut k: usize = 1;
    while k < idxs.len()
        invariant
            1 <= k <= idxs@.len(),
            prims_wf(prims@),
            forall|kk: int| 0 <= kk < idxs@.len() ==> (#[trigger] idxs@[kk]) < prims@.len(),
            aabb_wf(bb),
            forall|kk: int|
                0 <= kk < k ==> box_contains_box(
                    bb,
                    prim_aabb_spec(prims@[(#[trigger] idxs@[kk]) as int]),
                ),
        decreases idxs@.len() - k,
    {
        let pb = prim_aabb(&prims[idxs[k]]);
        let nb = box_union(&bb, &pb);
        proof {
            assert forall|kk: int|
                0 <= kk < k + 1 implies box_contains_box(
                nb,
                prim_aabb_spec(prims@[(#[trigger] idxs@[kk]) as int]),
            ) by {
                if kk < k {
                    lemma_box_trans(nb, bb, prim_aabb_spec(prims@[idxs@[kk] as int]));
                }
            }
        }
        bb = nb;
        k = k + 1;
    }
    bb
}

/// Splitting key of primitive `i` along `axis`: the low corner of its box.
/// Only the split heuristic depends on it, never correctness.
fn axis_key(prims: &Vec<Primitive>, i: usize, axis: u8) -> (key: i64)
    requires
        prims_wf(prims@),
        i < prims@.len(),
{
    let bb = prim_aabb(&prims[i]);
    if axis == 0 {
        bb.min.x
    } else if axis == 1 {
        bb.min.y
    } else {
        bb.min.z
    }
}

/// Splits an index list in two: indices keyed at or below `split` along
/// `axis`, and the rest. Every index lands on exactly one side.
fn partition_idxs(prims: &Vec<Primitive>, idxs: &Vec<usize>, axis: u8, split: i64) -> (parts: (
    Vec<usize>,
    Vec<usize>,
))
    requires
        prims_wf(prims@),
        forall|k: int| 0 <= k < idxs@.len() ==> (#[trigger] idxs@[k]) < prims@.len(),
    ensures
        parts.0@.len() + parts.1@.len() == idxs@.len(),
        forall|k: int| 0 <= k < parts.0@.len() ==> (#[trigger] parts.0@[k]) < prims@.len(),
        forall|k: int| 0 <= k < parts.1@.len() ==> (#[trigger] parts.1@[k]) < prims@.len(),
        forall|j: int|
            #![trigger in_idxs(parts.0@, j)]
            #![trigger in_idxs(parts.1@, j)]
            #![trigger in_idxs(idxs@, j)]
            (in_idxs(parts.0@, j) || in_idxs(parts.1@, j)) <==> in_idxs(idxs@, j),
{
    let mut l: Vec<usize> = Vec::new();
    let mut r: Vec<usize> = Vec::new();
    let mut k: usize = 0;
    while k < idxs.len()
        invariant
            k <= idxs@.len(),
            prims_wf(prims@),
            forall|kk: int| 0 <= kk < idxs@.len() ==> (#[trigger] idxs@[kk]) < prims@.len(),
            l@.len() + r@.len() == k,
            forall|kk: int| 0 <= kk < l@.len() ==> (#[trigger] l@[kk]) < prims@.len(),
            forall|kk: int| 0 <= kk < r@.len() ==> (#[trigger] r@[kk]) < prims@.len(),
            forall|j: int|
                #![trigger in_idxs(l@, j)]
                #![trigger in_idxs(r@, j)]
                #![trigger in_idxs(idxs@.subrange(0, k as int), j)]
                (in_idxs(l@, j) || in_idxs(r@, j)) <==> in_idxs(idxs@.subrange(0, k as int), j),
        decreases idxs@.len() - k,
    {
        let i = idxs[k];
        let ghost old_l = l@;
        let ghost old_r = r@;
        if axis_key(prims, i, axis) <= split {
            l.push(i);
        } else {
            r.push(i);
        }
        proof {
            assert(idxs@.subrange(0, k + 1 as int) =~= idxs@.subrange(0, k as int).push(
                idxs@[k as int],
            ));
            assert forall|j: int|
                (in_idxs(l@, j) || in_idxs(r@, j)) <==> in_idxs(
                idxs@.subrange(0, k + 1 as int),
                j,
            ) by {
                lemma_in_idxs_push(old_l, i, j);
                lemma_in_idxs_push(old_r, i, j);
                lemma_in_idxs_push(idxs@.subrange(0, k as int), idxs@[k as int], j);
            }
        }
        k = k + 1;
    }
    proof {
        assert(idxs@.subrange(0, idxs@.len() as int) =~= idxs@);
    }
    (l, r)
}

/// Splits an index list evenly by position, for when the axis split leaves
/// one side empty. Every index lands on exactly one side.
fn split_at_half(idxs: &Vec<usize>) -> (parts: (Vec<usize>, Vec<usize>))
    requires
        idxs@.len() >= 2,
    ensures
        parts.0@.len() == idxs@.len() / 2,
        parts.0@.len() + parts.1@.len() == idxs@.len(),
        forall|k: int| 0 <= k < parts.0@.len() ==> (#[trigger] parts.0@[k]) == idxs@[k],
        forall|k: int|
            0 <= k < parts.1@.len() ==> (#[trigger] parts.1@[k]) == idxs@[k + idxs@.len() / 2],
        forall|j: int|
            #![trigger in_idxs(parts.0@, j)]
            #![trigger in_idxs(parts.1@, j)]
            #![trigger in_idxs(idxs@, j)]
            (in_idxs(parts.0@, j) || in_idxs(parts.1@, j)) <==> in_idxs(idxs@, j),
{
    let mid = idxs.len() / 2;
    let mut l: Vec<usize> = Vec::new();
    let mut r: Vec<usize> = Vec::new();
    let mut k: usize = 0;
    while k < mid
        invariant
            mid == idxs@.len() / 2,
            mid <= idxs@.len(),
            k <= mid,
            l@.len() == k,
            forall|kk: int| 0 <= kk < k ==> (#[trigger] l@[kk]) == idxs@[kk],
        decreases mid - k,
    {
        l.push(idxs[k]);
        k = k + 1;
    }
    let mut m: usize = mid;
    while m < idxs.len()
        invariant
            mid == idxs@.len() / 2,
            mid <= m <= idxs@.len(),
            l@.len() == mid,
            forall|kk: int| 0 <= kk < mid ==> (#[trigger] l@[kk]) == idxs@[kk],
            r@.len() == m - mid,
            forall|kk: int| 0 <= kk < r@.len() ==> (#[trigger] r@[kk]) == idxs@[kk + mid],
        decreases idxs@.len() - m,
    {
        r.push(idxs[m]);
        m = m + 1;
    }
    proof {
        assert forall|j: int| (in_idxs(l@, j) || in_idxs(r@, j)) <==> in_idxs(idxs@, j) by {
            if in_idxs(l@, j) {
                let k0 = choose|k0: int| 0 <= k0 < l@.len() && (#[trigger] l@[k0]) as int == j;
                assert((idxs@[k0]) as int == j);
                assert(in_idxs(idxs@, j));
            }
            if in_idxs(r@, j) {
                let k0 = choose|k0: int| 0 <= k0 < r@.len() && (#[trigger] r@[k0]) as int == j;
                assert((idxs@[k0 + mid]) as int == j);
                assert(in_idxs(idxs@, j));
            }
            if in_idxs(idxs@, j) {
                let k0 = choose|k0: int| 0 <= k0 < idxs@.len() && (#[trigger] idxs@[k0]) as int
                    == j;
                if k0 < mid {
                    assert((l@[k0]) as int == j);
                    assert(in_idxs(l@, j));
                } else {
                    assert((r@[k0 - mid]) as int == j);
                    assert(in_idxs(r@, j));
                }
            }
        }
    }
    (l, r)
}

/// Builds a subtree over the given indices: splits along the axis of
/// greatest box extent at the extent's midpoint, falling back to an even
/// positional split when one side would come out empty; leaves hold at most
/// `LEAF_MAX` indices. No index is dropped or invented.
fn build_node(prims: &Vec<Primitive>, idxs: Vec<usize>) -> (node: BvhNode)
    requires
        prims_wf(prims@),
        forall|k: int| 0 <= k < idxs@.len() ==> (#[trigger] idxs@[k]) < prims@.len(),
    ensures
        node.wf(prims@),
        node.leaves_small(),
        forall|j: int| #[trigger] node.has_idx(j) <==> in_idxs(idxs@, j),
    decreases idxs@.len(),
{
    let bb = bound_of(prims, &idxs);
    if idxs.len() <= LEAF_MAX {
        return BvhNode::Leaf { bb, idxs };
    }
    let ex = bb.max.x - bb.min.x;
    let ey = bb.max.y - bb.min.y;
    let ez = bb.max.z - bb.min.z;
    let axis: u8 = if ex >= ey && ex >= ez {
        0
    } else if ey >= ez {
        1
    } else {
        2
    };
    let split: i64 = if axis == 0 {
        bb.min.x + tdiv(ex, 2)
    } else if axis == 1 {
        bb.min.y + tdiv(ey, 2)
    } else {
        bb.min.z + tdiv(ez, 2)
    };
    let (mut l, mut r) = partition_idxs(prims, &idxs, axis, split);
    if l.len() == 0 || r.len() == 0 {
        let halves = split_at_half(&idxs);
        l = halves.0;
        r = halves.1;
        proof {
            vstd::arithmetic::div_mod::lemma_div_is_ordered(2, idxs@.len() as int, 2);
            vstd::arithmetic::div_mod::lemma_div_decreases(idxs@.len() as int, 2);
            assert forall|k: int| 0 <= k < l@.len() implies (#[trigger] l@[k]) < prims@.len() by {
                assert(l@[k] == idxs@[k]);
            }
            assert forall|k: int| 0 <= k < r@.len() implies (#[trigger] r@[k]) < prims@.len() by {
                assert(r@[k] == idxs@[k + idxs@.len() / 2]);
            }
        }
    }
    let ghost lv = l@;
    let ghost rv = r@;
    let left = build_node(prims, l);
    let right = build_node(prims, r);
    let ghost lnode = left;
    let ghost rnode = right;
    let lb = left.get_bb();
    let rb = right.get_bb();
    let bb2 = box_union(&lb, &rb);
    let node = BvhNode::Branch { bb: bb2, left: Box::new(left), right: Box::new(right) };
    proof {
        assert forall|j: int| #[trigger] node.has_idx(j) <==> in_idxs(idxs@, j) by {
            assert(node.has_idx(j) <==> (lnode.has_idx(j) || rnode.has_idx(j)));
            assert(lnode.has_idx(j) <==> in_idxs(lv, j));
            assert(rnode.has_idx(j) <==> in_idxs(rv, j));
            assert((in_idxs(lv, j) || in_idxs(rv, j)) <==> in_idxs(idxs@, j));
        }
    }
    node
}

/// A scene fixed for rendering: the primitive sequence and the hierarchy
/// built over it; read-only once constructed.
pub struct World {
    pub prims: Vec<Primitive>,
    pub root: BvhNode,
}

impl World {
    /// Validity: sound primitives, a well-formed tree, and no primitive
    /// missing from the tree.
    pub open spec fn wf(self) -> bool {
        &&& prims_wf(self.prims@)
        &&& self.root.wf(self.prims@)
        &&& self.root.leaves_small()
        &&& forall|i: int| 0 <= i < self.prims@.len() ==> self.root.has_idx(i)
    }

    /// Builds the index over the primitives. Degenerate scenes (zero or one
    /// primitive) become a single valid leaf.
    pub fn new(prims: Vec<Primitive>) -> (w: World)
        requires
            prims_wf(prims@),
        ensures
            w.wf(),
            w.prims@ == prims@,
    {
        let n = prims.len();
        let mut idxs: Vec<usize> = Vec::new();
        let mut i: usize = 0;
        while i < n
            invariant
                i <= n,
                idxs@.len() == i,
                forall|k: int| 0 <= k < i ==> (#[trigger] idxs@[k]) == k,
            decreases n - i,
        {
            idxs.push(i);
            i = i + 1;
        }
        let ghost idxs_view = idxs@;
        let root = build_node(&prims, idxs);
        proof {
            assert forall|j: int| 0 <= j < prims@.len() implies root.has_idx(j) by {
                assert((idxs_view[j]) as int == j);
                assert(in_idxs(idxs_view, j));
            }
        }
        World { prims, root }
    }

    /// Closest intersection of `ray` with the scene within `[tmin, tmax]`:
    /// exactly what the exhaustive linear scan over all primitives returns
    /// (`closest_hit`), computed through the hierarchy.
    pub fn intersect(&self, ray: &Ray, tmin: i64, tmax: i64) -> (res: HitOpt)
        requires
            self.wf(),
            ray_wf(*ray),
            0 <= tmin <= tmax <= T_MAX,
        ensures
            hview(res) == closest_hit(self.prims@, *ray, tmin, tmax),
    {
        let res = intersect_node(&self.root, &self.prims, ray, tmin, tmax, None);
        proof {
            assert forall|j: int|
                0 <= j < self.prims@.len() implies no_better(
                self.prims@,
                *ray,
                tmin,
                tmax,
                j,
                hview(res),
            ) by {
                assert(self.root.has_idx(j));
            }
            lemma_closest_characterization(self.prims@, *ray, tmin, tmax, hview(res));
        }
        res
    }
}

/// Intersects `ray` with the primitives of a subtree, improving `best`. A
/// subtree is skipped only when the ray segment that could still improve the
/// result provably misses the subtree's box.
fn intersect_node(
    node: &BvhNode,
    prims: &Vec<Primitive>,
    ray: &Ray,
    tmin: i64,
    tmax: i64,
    best: HitOpt,
) -> (res: HitOpt)
    requires
        node.wf(prims@),
        prims_wf(prims@),
        ray_wf(*ray),
        0 <= tmin <= tmax <= T_MAX,
        hit_sound(prims@, *ray, tmin, tmax, hview(best)),
    ensures
        hit_sound(prims@, *ray, tmin, tmax, hview(res)),
        as_good(hview(res), hview(best)),
        forall|j: int|
            #[trigger] node.has_idx(j) ==> no_better(prims@, *ray, tmin, tmax, j, hview(res)),
    decreases *node,
{
    let hi = match best {
        None => tmax,
        Some((_, bt)) => bt,
    };
    let nbb = node.get_bb();
    if !seg_box_test(ray, tmin, hi, &nbb) {
        proof {
            assert forall|j: int|
                #[trigger] node.has_idx(j) implies no_better(
                prims@,
                *ray,
                tmin,
                tmax,
                j,
                hview(best),
            ) by {
                if valid_hit(prims@, *ray, tmin, tmax, j) {
                    let t = hit_t(prims@, *ray, j);
                    lemma_hit_in_box(prims@[j], *ray);
                    lemma_node_box_covers(*node, prims@, j);
                    lemma_point_in_contained_box(
                        *ray,
                        t as int,
                        prim_aabb_spec(prims@[j]),
                        node.bb(),
                    );
                    let beaten = match hview(best) {
                        None => true,
                        Some((bi, bt2)) => beats(j, t, bi, bt2),
                    };
                    if beaten {
                        assert(t <= hi);
                        lemma_seg_overlap_of_point(
                            *ray,
                            tmin as int,
                            hi as int,
                            t as int,
                            node.bb(),
                        );
                        assert(false);
                    }
                }
            }
        }
        return best;
    }
    match node {
        BvhNode::Leaf { idxs, .. } => {
            let mut cur = best;
            let mut k: usize = 0;
            while k < idxs.len()
                invariant
                    k <= idxs@.len(),
                    prims_wf(prims@),
                    ray_wf(*ray),
                    tmin <= tmax,
                    forall|kk: int| 0 <= kk < idxs@.len() ==> (#[trigger] idxs@[kk]) < prims@.len(),
                    hit_sound(prims@, *ray, tmin, tmax, hview(cur)),
                    as_good(hview(cur), hview(best)),
                    forall|kk: int|
                        0 <= kk < k ==> no_better(
                            prims@,
                            *ray,
                            tmin,
                            tmax,
                            (#[trigger] idxs@[kk]) as int,
                            hview(cur),
                        ),
                decreases idxs@.len() - k,
            {
                let i = idxs[k];
                let ph = intersect_prim(&prims[i], ray);
                let ghost prev = cur;
                if let Some(t) = ph {
                    if tmin <= t && t <= tmax {
                        let replace = match cur {
                            None => true,
                            Some((ci, ct)) => t < ct || (t == ct && i < ci),
                        };
                        if replace {
                            cur = Some((i, t));
                        }
                    }
                }
                proof {
                    assert(as_good(hview(cur), hview(prev)));
                    lemma_as_good_trans(hview(cur), hview(prev), hview(best));
                    assert forall|kk: int|
                        0 <= kk < k + 1 implies no_better(
                        prims@,
                        *ray,
                        tmin,
                        tmax,
                        (#[trigger] idxs@[kk]) as int,
                        hview(cur),
                    ) by {
                        if kk < k {
                            lemma_no_better_mono(
                                prims@,
                                *ray,
                                tmin,
                                tmax,
                                idxs@[kk] as int,
                                hview(prev),
                                hview(cur),
                            );
                        }
                    }
                }
                k = k + 1;
            }
            proof {
                assert forall|j: int|
                    #[trigger] node.has_idx(j) implies no_better(
                    prims@,
                    *ray,
                    tmin,
                    tmax,
                    j,
                    hview(cur),
                ) by {
                    let kk = choose|kk: int|
                        0 <= kk < idxs@.len() && (#[trigger] idxs@[kk]) as int == j;
                }
            }
            cur
        },
        BvhNode::Branch { left, right, .. } => {
            let lchild: &BvhNode = left;
            let rchild: &BvhNode = right;
            let r1 = intersect_node(lchild, prims, ray, tmin, tmax, best);
            let r2 = intersect_node(rchild, prims, ray, tmin, tmax, r1);
            proof {
                lemma_as_good_trans(hview(r2), hview(r1), hview(best));
                assert forall|j: int|
                    #[trigger] node.has_idx(j) implies no_better(
                    prims@,
                    *ray,
                    tmin,
                    tmax,
                    j,
                    hview(r2),
                ) by {
                    assert(node.has_idx(j) <==> (lchild.has_idx(j) || rchild.has_idx(j)));
                    if lchild.has_idx(j) {
                        lemma_no_better_mono(prims@, *ray, tmin, tmax, j, hview(r1), hview(r2));
                    } else {
                        assert(rchild.has_idx(j));
                    }
                }
            }
            r2
        },
    }
}


/// A successful intersection, resolved for shading: the hit parameter, the
/// surface point and an (unnormalized) surface normal in fixed-point units,
/// and the material hit.
#[derive(Clone, Copy, PartialEq, Eq, Structural, Debug)]
pub struct Hit {
    pub t: i64,
    pub point: Vec3,
    pub normal: Vec3,
    pub material: Material,
}

/// The hit record for primitive `p` at parameter `t`: the point is the ray
/// point at `t` rounded to fixed-point units; a sphere's normal points from
/// its center to the hit point, a cell's straight up or down against the ray.
pub open spec fn hit_info_spec(p: Primitive, ray: Ray, t: i64) -> Hit {
    let px = tdiv_spec(point_at_x(ray, t as int), FP as int);
    let py = tdiv_spec(point_at_y(ray, t as int), FP as int);
    let pz = tdiv_spec(point_at_z(ray, t as int), FP as int);
    Hit {
        t,
        point: Vec3 { x: px as i64, y: py as i64, z: pz as i64 },
        normal: match p {
            Primitive::Sphere { center, .. } => Vec3 {
                x: (px - center.x) as i64,
                y: (py - center.y) as i64,
                z: (pz - center.z) as i64,
            },
            Primitive::HeightCell { .. } => Vec3 {
                x: 0,
                y: if ray.dir.y <= 0 { FP } else { (-FP) as i64 },
                z: 0,
            },
        },
        material: prim_material(p),
    }
}

/// Resolves a reported hit parameter into its hit record; exactly
/// `hit_info_spec`.
pub fn hit_info(p: &Primitive, ray: &Ray, t: i64) -> (h: Hit)
    requires
        prim_wf(*p),
        ray_wf(*ray),
        0 <= t <= T_MAX,
    ensures
        h == hit_info_spec(*p, *ray, t),
{
    proof {
        lemma_mul_bound(t as int, ray.dir.x as int, T_MAX as int, DIR_MAX as int);
        lemma_mul_bound(t as int, ray.dir.y as int, T_MAX as int, DIR_MAX as int);
        lemma_mul_bound(t as int, ray.dir.z as int, T_MAX as int, DIR_MAX as int);
    }
    let px = tdiv(ray.orig.x * FP + t * ray.dir.x, FP);
    let py = tdiv(ray.orig.y * FP + t * ray.dir.y, FP);
    let pz = tdiv(ray.orig.z * FP + t * ray.dir.z, FP);
    Hit {
        t,
        point: Vec3 { x: px, y: py, z: pz },
        normal: match p {
            Primitive::Sphere { center, .. } => Vec3 {
                x: px - center.x,
                y: py - center.y,
                z: pz - center.z,
            },
            Primitive::HeightCell { .. } => Vec3 {
                x: 0,
                y: if ray.dir.y <= 0 {
                    FP
                } else {
                    -FP
                },
                z: 0,
            },
        },
        material: get_material(p),
    }
}

} // verus!
