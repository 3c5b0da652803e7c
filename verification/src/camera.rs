//! The pinhole camera: maps a pixel, sample index and image size to a
//! primary ray, with a deterministic per-sample jitter so that rendering is
//! reproducible and independent of scheduling order.

use vstd::prelude::*;
use crate::math::{Vec3, tdiv, tdiv_spec, lemma_mul_bound, FP, POS_MAX, DIR_MAX};
use crate::world::{Ray, ray_wf};

verus! {

/// Largest magnitude a camera basis-vector component may have.
pub const BASIS_MAX: i64 = 2048;

/// Largest half extent of the image plane.
pub const PLANE_MAX: i64 = 4096;

/// Camera parameters: origin, a basis (components about one unit, `FP`),
/// and the half extents of the image plane at unit forward distance.
/// Immutable per render.
#[derive(Clone, Copy, PartialEq, Eq, Structural, Debug)]
pub struct Camera {
    pub origin: Vec3,
    pub forward: Vec3,
    pub right: Vec3,
    pub up: Vec3,
    pub half_w: i64,
    pub half_h: i64,
}

impl Camera {
    /// Tests the validity bounds; exactly `wf`.
    pub fn check_wf(&self) -> (b: bool)
        ensures
            b == self.wf(),
    {
        -POS_MAX <= self.origin.x && self.origin.x <= POS_MAX && -POS_MAX <= self.origin.y
            && self.origin.y <= POS_MAX && -POS_MAX <= self.origin.z && self.origin.z <= POS_MAX
            && -BASIS_MAX <= self.forward.x && self.forward.x <= BASIS_MAX && -BASIS_MAX
            <= self.forward.y && self.forward.y <= BASIS_MAX && -BASIS_MAX <= self.forward.z
            && self.forward.z <= BASIS_MAX && -BASIS_MAX <= self.right.x && self.right.x
            <= BASIS_MAX && -BASIS_MAX <= self.right.y && self.right.y <= BASIS_MAX && -BASIS_MAX
            <= self.right.z && self.right.z <= BASIS_MAX && -BASIS_MAX <= self.up.x && self.up.x
            <= BASIS_MAX && -BASIS_MAX <= self.up.y && self.up.y <= BASIS_MAX && -BASIS_MAX
            <= self.up.z && self.up.z <= BASIS_MAX && 0 < self.half_w && self.half_w <= PLANE_MAX
            && 0 < self.half_h && self.half_h <= PLANE_MAX
    }

    /// Validity bounds under which ray generation stays in range.
    pub open spec fn wf(self) -> bool {
        &&& crate::math::vec3_in_range(self.origin, POS_MAX)
        &&& crate::math::vec3_in_range(self.forward, BASIS_MAX)
        &&& crate::math::vec3_in_range(self.right, BASIS_MAX)
        &&& crate::math::vec3_in_range(self.up, BASIS_MAX)
        &&& 0 < self.half_w <= PLANE_MAX
        &&& 0 < self.half_h <= PLANE_MAX
    }
}

/// Deterministic sub-pixel jitter of a sample: a fixed hash of the pixel
/// and sample indices reduced to two offsets in `[0, FP)`. Identical inputs
/// always give identical offsets.
pub open spec fn jitter_spec(px: u32, py: u32, s: u32) -> (int, int) {
    let h = px * 0x9E3779B1 + py * 0x85EBCA77 + s * 0xC2B2AE35;
    (h % 1024, (h / 1024) % 1024)
}

/// Computes the jitter offsets; exactly `jitter_spec`.
fn jitter(px: u32, py: u32, s: u32) -> (j: (i64, i64))
    requires
        px <= 8192,
        py <= 8192,
        s <= 1048576,
    ensures
        (j.0 as int, j.1 as int) == jitter_spec(px, py, s),
        0 <= j.0 < FP,
        0 <= j.1 < FP,
{
    proof {
        lemma_mul_bound(px as int, 0x9E3779B1, 8192, 0x9E3779B1);
        lemma_mul_bound(py as int, 0x85EBCA77, 8192, 0x85EBCA77);
        lemma_mul_bound(s as int, 0xC2B2AE35, 1048576, 0xC2B2AE35);
    }
    let h: u64 = (px as u64) * 0x9E3779B1 + (py as u64) * 0x85EBCA77 + (s as u64) * 0xC2B2AE35;
    let jx = (h % 1024) as i64;
    let jy = ((h / 1024) % 1024) as i64;
    (jx, jy)
}

/// The ray through pixel `(px, py)` for sample `s` of a `w x h` image: the
/// jittered pixel position is mapped to `[-half_w, half_w]` and
/// `[-half_h, half_h]` on the image plane and combined with the basis.
pub open spec fn gen_ray_spec(cam: Camera, w: u32, h: u32, px: u32, py: u32, s: u32) -> Ray {
    let j = jitter_spec(px, py, s);
    let su = tdiv_spec(cam.half_w * (2 * (px * FP + j.0)), w * FP) - cam.half_w;
    let sv = tdiv_spec(cam.half_h * (2 * (py * FP + j.1)), h * FP) - cam.half_h;
    Ray {
        orig: cam.origin,
        dir: Vec3 {
            x: tdiv_spec(cam.forward.x * FP + cam.right.x * su + cam.up.x * sv, FP as int) as i64,
            y: tdiv_spec(cam.forward.y * FP + cam.right.y * su + cam.up.y * sv, FP as int) as i64,
            z: tdiv_spec(cam.forward.z * FP + cam.right.z * su + cam.up.z * sv, FP as int) as i64,
        },
    }
}

/// Generates the primary ray of a sample; exactly `gen_ray_spec`, and the
/// result satisfies the ray bounds the intersection code needs.
pub fn generate_ray(cam: &Camera, w: u32, h: u32, px: u32, py: u32, s: u32) -> (r: Ray)
    requires
        cam.wf(),
        0 < w <= 8192,
        0 < h <= 8192,
        px < w,
        py < h,
        s <= 1048576,
    ensures
        r == gen_ray_spec(*cam, w, h, px, py, s),
        ray_wf(r),
{
    let (jx, jy) = jitter(px, py, s);
    proof {
        lemma_mul_bound(px as int, FP as int, 8192, 1024);
        lemma_mul_bound(py as int, FP as int, 8192, 1024);
        lemma_mul_bound(w as int, FP as int, 8192, 1024);
        lemma_mul_bound(h as int, FP as int, 8192, 1024);
    }
    let pxf: i64 = (px as i64) * FP + jx;
    let pyf: i64 = (py as i64) * FP + jy;
    let wf_: i64 = (w as i64) * FP;
    let hf_: i64 = (h as i64) * FP;
    proof {
        lemma_mul_bound(cam.half_w as int, 2 * pxf as int, PLANE_MAX as int, 16779264);
        lemma_mul_bound(cam.half_h as int, 2 * pyf as int, PLANE_MAX as int, 16779264);
    }
    let nu: i64 = cam.half_w * (2 * pxf);
    let nv: i64 = cam.half_h * (2 * pyf);
    proof {
        assert(nu <= 2 * cam.half_w * wf_ && nv <= 2 * cam.half_h * hf_) by (nonlinear_arith)
            requires
                nu == cam.half_w * (2 * pxf),
                nv == cam.half_h * (2 * pyf),
                pxf < wf_,
                pyf < hf_,
                cam.half_w > 0,
                cam.half_h > 0,
        ;
        vstd::arithmetic::div_mod::lemma_div_is_ordered(
            nu as int,
            2 * cam.half_w * wf_,
            wf_ as int,
        );
        vstd::arithmetic::div_mod::lemma_div_multiples_vanish(2 * cam.half_w as int, wf_ as int);
        vstd::arithmetic::div_mod::lemma_div_is_ordered(
            nv as int,
            2 * cam.half_h * hf_,
            hf_ as int,
        );
        vstd::arithmetic::div_mod::lemma_div_multiples_vanish(2 * cam.half_h as int, hf_ as int);
    }
    let su = tdiv(nu, wf_) - cam.half_w;
    let sv = tdiv(nv, hf_) - cam.half_h;
    proof {
        assert(-PLANE_MAX <= su <= PLANE_MAX && -PLANE_MAX <= sv <= PLANE_MAX);
        lemma_mul_bound(cam.forward.x as int, FP as int, BASIS_MAX as int, 1024);
        lemma_mul_bound(cam.forward.y as int, FP as int, BASIS_MAX as int, 1024);
        lemma_mul_bound(cam.forward.z as int, FP as int, BASIS_MAX as int, 1024);
        lemma_mul_bound(cam.right.x as int, su as int, BASIS_MAX as int, PLANE_MAX as int);
        lemma_mul_bound(cam.right.y as int, su as int, BASIS_MAX as int, PLANE_MAX as int);
        lemma_mul_bound(cam.right.z as int, su as int, BASIS_MAX as int, PLANE_MAX as int);
        lemma_mul_bound(cam.up.x as int, sv as int, BASIS_MAX as int, PLANE_MAX as int);
        lemma_mul_bound(cam.up.y as int, sv as int, BASIS_MAX as int, PLANE_MAX as int);
        lemma_mul_bound(cam.up.z as int, sv as int, BASIS_MAX as int, PLANE_MAX as int);
    }
    let dx = tdiv(cam.forward.x * FP + cam.right.x * su + cam.up.x * sv, FP);
    let dy = tdiv(cam.forward.y * FP + cam.right.y * su + cam.up.y * sv, FP);
    let dz = tdiv(cam.forward.z * FP + cam.right.z * su + cam.up.z * sv, FP);
    proof {
        lemma_dir_in_range(cam.forward.x as int, cam.right.x as int, cam.up.x as int, su as int, sv as int, dx as int);
        lemma_dir_in_range(cam.forward.y as int, cam.right.y as int, cam.up.y as int, su as int, sv as int, dy as int);
        lemma_dir_in_range(cam.forward.z as int, cam.right.z as int, cam.up.z as int, su as int, sv as int, dz as int);
    }
    Ray { orig: cam.origin, dir: Vec3 { x: dx, y: dy, z: dz } }
}

/// A generated direction component stays within `DIR_MAX`.
proof fn lemma_dir_in_range(f: int, r: int, u: int, su: int, sv: int, d: int)
    requires
        -BASIS_MAX <= f <= BASIS_MAX,
        -(BASIS_MAX * PLANE_MAX) <= r * su <= BASIS_MAX * PLANE_MAX,
        -(BASIS_MAX * PLANE_MAX) <= u * sv <= BASIS_MAX * PLANE_MAX,
        d == tdiv_spec(f * FP + r * su + u * sv, FP as int),
    ensures
        -DIR_MAX <= d <= DIR_MAX,
{
    let n = f * FP + r * su + u * sv;
    assert(-18874368 <= n <= 18874368);
    if n >= 0 {
        vstd::arithmetic::div_mod::lemma_div_is_ordered(n, 18874368, 1024);
        assert(d == n / 1024);
    } else {
        vstd::arithmetic::div_mod::lemma_div_is_ordered(-n, 18874368, 1024);
        assert(d == -((-n) / 1024));
    }
}

} // verus!
