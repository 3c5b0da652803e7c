//! The spatial index against the exhaustive scan, and exact intersection
//! values.

use raytracer::data::{Color, Material};
use raytracer::math::{Vec3, FP, T_MAX};
use raytracer::world::{intersect_linear, Primitive, Ray, World};

fn gray(v: u8) -> Material {
    Material { color: Color { r: v, g: v, b: v } }
}

struct Lcg(u64);

impl Lcg {
    fn next(&mut self) -> u64 {
        self.0 = self
            .0
            .wrapping_mul(6364136223846793005)
            .wrapping_add(1442695040888963407);
        self.0 >> 16
    }

    fn range(&mut self, lo: i64, hi: i64) -> i64 {
        lo + (self.next() % ((hi - lo + 1) as u64)) as i64
    }
}

fn random_prims(rng: &mut Lcg, n: usize) -> Vec<Primitive> {
    let mut prims = Vec::new();
    for k in 0..n {
        if k % 2 == 0 {
            prims.push(Primitive::Sphere {
                center: Vec3 {
                    x: rng.range(-100 * FP, 100 * FP),
                    y: rng.range(-100 * FP, 100 * FP),
                    z: rng.range(-100 * FP, 100 * FP),
                },
                radius: rng.range(1, 20 * FP),
                material: gray((k % 256) as u8),
            });
        } else {
            let x0 = rng.range(-100 * FP, 100 * FP);
            let z0 = rng.range(-100 * FP, 100 * FP);
            prims.push(Primitive::HeightCell {
                x0,
                x1: x0 + rng.range(0, 20 * FP),
                z0,
                z1: z0 + rng.range(0, 20 * FP),
                elev: rng.range(-50 * FP, 50 * FP),
                material: gray((k % 256) as u8),
            });
        }
    }
    prims
}

#[test]
fn bvh_matches_linear_scan_on_random_scenes() {
    let mut rng = Lcg(42);
    for round in 0..6 {
        let prims = random_prims(&mut rng, 5 + round * 13);
        let world = World::new(prims.clone());
        for _ in 0..120 {
            let ray = Ray {
                orig: Vec3 {
                    x: rng.range(-120 * FP, 120 * FP),
                    y: rng.range(-120 * FP, 120 * FP),
                    z: rng.range(-120 * FP, 120 * FP),
                },
                dir: Vec3 {
                    x: rng.range(-2 * FP, 2 * FP),
                    y: rng.range(-2 * FP, 2 * FP),
                    z: rng.range(-2 * FP, 2 * FP),
                },
            };
            let fast = world.intersect(&ray, 0, T_MAX);
            let slow = intersect_linear(&prims, &ray, 0, T_MAX);
            assert_eq!(fast, slow);
        }
    }
}

#[test]
fn bvh_matches_linear_scan_without_hits() {
    let mut rng = Lcg(7);
    let prims = random_prims(&mut rng, 20);
    let world = World::new(prims.clone());
    // Rays far away on the x axis, pointing further away: no hit either way.
    for k in 0..50 {
        let ray = Ray {
            orig: Vec3 { x: 4000 * FP, y: k * FP, z: 0 },
            dir: Vec3 { x: 2 * FP, y: 0, z: 0 },
        };
        let fast = world.intersect(&ray, 0, T_MAX);
        let slow = intersect_linear(&prims, &ray, 0, T_MAX);
        assert_eq!(fast, None);
        assert_eq!(slow, None);
    }
}

#[test]
fn sphere_hit_exact_distance() {
    // Unit-radius sphere two units ahead: the near surface is one unit away,
    // and the discriminant is a perfect square, so the distance is exact.
    let prims = vec![Primitive::Sphere {
        center: Vec3 { x: 0, y: 0, z: 2 * FP },
        radius: FP,
        material: gray(10),
    }];
    let world = World::new(prims.clone());
    let ray = Ray { orig: Vec3 { x: 0, y: 0, z: 0 }, dir: Vec3 { x: 0, y: 0, z: FP } };
    assert_eq!(world.intersect(&ray, 0, T_MAX), Some((0, FP)));
    assert_eq!(intersect_linear(&prims, &ray, 0, T_MAX), Some((0, FP)));
}

#[test]
fn cell_hit_exact_distance() {
    // A cell one unit below a straight-down ray.
    let prims = vec![Primitive::HeightCell {
        x0: -FP,
        x1: FP,
        z0: -FP,
        z1: FP,
        elev: 0,
        material: gray(20),
    }];
    let world = World::new(prims.clone());
    let ray = Ray { orig: Vec3 { x: 0, y: FP, z: 0 }, dir: Vec3 { x: 0, y: -FP, z: 0 } };
    assert_eq!(world.intersect(&ray, 0, T_MAX), Some((0, FP)));
}

#[test]
fn closest_of_two_spheres_wins() {
    let near = Primitive::Sphere {
        center: Vec3 { x: 0, y: 0, z: 2 * FP },
        radius: FP,
        material: gray(1),
    };
    let far = Primitive::Sphere {
        center: Vec3 { x: 0, y: 0, z: 6 * FP },
        radius: FP,
        material: gray(2),
    };
    // Order in the list must not matter for which one is reported.
    let ray = Ray { orig: Vec3 { x: 0, y: 0, z: 0 }, dir: Vec3 { x: 0, y: 0, z: FP } };
    let w1 = World::new(vec![near, far]);
    let w2 = World::new(vec![far, near]);
    assert_eq!(w1.intersect(&ray, 0, T_MAX), Some((0, FP)));
    assert_eq!(w2.intersect(&ray, 0, T_MAX), Some((1, FP)));
}

#[test]
fn empty_scene_builds_and_misses() {
    let world = World::new(Vec::new());
    let ray = Ray { orig: Vec3 { x: 0, y: 0, z: 0 }, dir: Vec3 { x: 0, y: 0, z: FP } };
    assert_eq!(world.intersect(&ray, 0, T_MAX), None);
}

#[test]
fn hit_info_reports_point_normal_and_material() {
    let sphere = Primitive::Sphere {
        center: Vec3 { x: 0, y: 0, z: 2 * FP },
        radius: FP,
        material: gray(10),
    };
    let ray = Ray { orig: Vec3 { x: 0, y: 0, z: 0 }, dir: Vec3 { x: 0, y: 0, z: FP } };
    let h = raytracer::world::hit_info(&sphere, &ray, FP);
    assert_eq!(h.point, Vec3 { x: 0, y: 0, z: FP });
    // The normal points from the center back toward the ray origin.
    assert_eq!(h.normal, Vec3 { x: 0, y: 0, z: -FP });
    assert_eq!(h.material, gray(10));

    let cell = Primitive::HeightCell {
        x0: -FP,
        x1: FP,
        z0: -FP,
        z1: FP,
        elev: 0,
        material: gray(20),
    };
    let down = Ray { orig: Vec3 { x: 0, y: FP, z: 0 }, dir: Vec3 { x: 0, y: -FP, z: 0 } };
    let h2 = raytracer::world::hit_info(&cell, &down, FP);
    assert_eq!(h2.point, Vec3 { x: 0, y: 0, z: 0 });
    assert_eq!(h2.normal, Vec3 { x: 0, y: FP, z: 0 });
}

#[test]
fn isqrt_exact_values() {
    assert_eq!(raytracer::math::isqrt(0), 0);
    assert_eq!(raytracer::math::isqrt(1), 1);
    assert_eq!(raytracer::math::isqrt(3), 1);
    assert_eq!(raytracer::math::isqrt(4), 2);
    assert_eq!(raytracer::math::isqrt(152399025), 12345);
    assert_eq!(raytracer::math::isqrt(u64::MAX as u128), 4294967295);
}

#[test]
fn tdiv_rounds_toward_zero() {
    assert_eq!(raytracer::math::tdiv(7, 2), 3);
    assert_eq!(raytracer::math::tdiv(-7, 2), -3);
    assert_eq!(raytracer::math::tdiv(0, 5), 0);
}
