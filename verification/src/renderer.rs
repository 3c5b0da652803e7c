//! The renderer: multi-sample integration per pixel, shading a hit to its
//! material color and misses to the background, with a worker-stride
//! schedule whose result is provably independent of the worker count.

use vstd::prelude::*;
use crate::camera::{gen_ray_spec, generate_ray, jitter_spec, Camera};
use crate::data::{
    background, background_color, lemma_pix_index_in_range, pix_index, Color, Image, DIM_MAX,
};
use crate::math::{lemma_mul_bound, T_MAX};
use crate::world::{closest_hit, get_material, lemma_closest_upto_props, point_at_x, point_at_y, point_at_z, prim_hit, prim_material, valid_hit, Primitive, World};
use crate::config::{cell_prim, node_wf_v, prims_of_node, NodeV};
use crate::math::{tdiv_spec, FP};
use crate::Error;

verus! {

/// Smallest hit parameter a primary ray accepts (no hits at the origin).
pub const T_MIN_RAY: i64 = 1;

/// Largest supported samples-per-pixel count.
pub const SAMPLES_MAX: u32 = 65536;

/// The color of one sample: the material color of the closest primitive the
/// sample's ray hits, or the background color on a miss.
pub open spec fn sample_color(
    prims: Seq<Primitive>,
    cam: Camera,
    w: u32,
    h: u32,
    px: u32,
    py: u32,
    s: u32,
) -> Color {
    match closest_hit(prims, gen_ray_spec(cam, w, h, px, py, s), T_MIN_RAY, T_MAX) {
        None => background(),
        Some((i, _t)) => prim_material(prims[i]).color,
    }
}

/// Per-channel sums of the colors of samples `0 .. n` of one pixel.
pub open spec fn sample_sum(
    prims: Seq<Primitive>,
    cam: Camera,
    w: u32,
    h: u32,
    px: u32,
    py: u32,
    n: int,
) -> (int, int, int)
    decreases n,
{
    if n <= 0 {
        (0, 0, 0)
    } else {
        let rest = sample_sum(prims, cam, w, h, px, py, n - 1);
        let c = sample_color(prims, cam, w, h, px, py, (n - 1) as u32);
        (rest.0 + c.r, rest.1 + c.g, rest.2 + c.b)
    }
}

/// The final color of a pixel: the per-channel average of its samples.
#[verifier::opaque]
pub open spec fn pixel_color(
    prims: Seq<Primitive>,
    cam: Camera,
    w: u32,
    h: u32,
    samples: u32,
    px: u32,
    py: u32,
) -> Color
    recommends
        samples >= 1,
{
    let sums = sample_sum(prims, cam, w, h, px, py, samples as int);
    Color {
        r: (sums.0 / samples as int) as u8,
        g: (sums.1 / samples as int) as u8,
        b: (sums.2 / samples as int) as u8,
    }
}

/// Sample sums stay within `255 * n` per channel.
pub proof fn lemma_sample_sum_bounds(
    prims: Seq<Primitive>,
    cam: Camera,
    w: u32,
    h: u32,
    px: u32,
    py: u32,
    n: int,
)
    requires
        n >= 0,
    ensures
        0 <= sample_sum(prims, cam, w, h, px, py, n).0 <= 255 * n,
        0 <= sample_sum(prims, cam, w, h, px, py, n).1 <= 255 * n,
        0 <= sample_sum(prims, cam, w, h, px, py, n).2 <= 255 * n,
    decreases n,
{
    if n > 0 {
        lemma_sample_sum_bounds(prims, cam, w, h, px, py, n - 1);
    }
}

/// Renders one pixel: casts `samples` jittered rays through the camera,
/// intersects each against the scene, shades, and averages.
pub fn render_pixel(world: &World, cam: &Camera, w: u32, h: u32, samples: u32, px: u32, py: u32) -> (c: Color)
    requires
        world.wf(),
        cam.wf(),
        0 < w <= DIM_MAX,
        0 < h <= DIM_MAX,
        px < w,
        py < h,
        1 <= samples <= SAMPLES_MAX,
    ensures
        c == pixel_color(world.prims@, *cam, w, h, samples, px, py),
{
    let mut sr: u32 = 0;
    let mut sg: u32 = 0;
    let mut sb: u32 = 0;
    let mut s: u32 = 0;
    while s < samples
        invariant
            world.wf(),
            cam.wf(),
            0 < w <= DIM_MAX,
            0 < h <= DIM_MAX,
            px < w,
            py < h,
            1 <= samples <= SAMPLES_MAX,
            s <= samples,
            (sr as int, sg as int, sb as int) == sample_sum(
                world.prims@,
                *cam,
                w,
                h,
                px,
                py,
                s as int,
            ),
        decreases samples - s,
    {
        proof {
            lemma_sample_sum_bounds(world.prims@, *cam, w, h, px, py, s as int);
        }
        let ray = generate_ray(cam, w, h, px, py, s);
        let hit = world.intersect(&ray, T_MIN_RAY, T_MAX);
        let c: Color = match hit {
            None => background_color(),
            Some((i, _t)) => {
                proof {
                    lemma_closest_upto_props(
                        world.prims@,
                        ray,
                        T_MIN_RAY,
                        T_MAX,
                        world.prims@.len() as int,
                    );
                }
                get_material(&world.prims[i]).color
            },
        };
        sr = sr + (c.r as u32);
        sg = sg + (c.g as u32);
        sb = sb + (c.b as u32);
        s = s + 1;
    }
    proof {
        reveal(crate::renderer::pixel_color);
        lemma_sample_sum_bounds(world.prims@, *cam, w, h, px, py, samples as int);
        vstd::arithmetic::div_mod::lemma_div_is_ordered(
            sr as int,
            255 * samples as int,
            samples as int,
        );
        vstd::arithmetic::div_mod::lemma_div_is_ordered(
            sg as int,
            255 * samples as int,
            samples as int,
        );
        vstd::arithmetic::div_mod::lemma_div_is_ordered(
            sb as int,
            255 * samples as int,
            samples as int,
        );
        vstd::arithmetic::div_mod::lemma_div_multiples_vanish(255, samples as int);
        vstd::arithmetic::div_mod::lemma_div_basics_4(sr as int, samples as int);
        vstd::arithmetic::div_mod::lemma_div_basics_4(sg as int, samples as int);
        vstd::arithmetic::div_mod::lemma_div_basics_4(sb as int, samples as int);
    }
    let r = (sr / samples) as u8;
    let g = (sg / samples) as u8;
    let b = (sb / samples) as u8;
    Color { r, g, b }
}

/// Every pixel of `img` holds exactly its rendered color.
pub open spec fn image_rendered(img: Image, prims: Seq<Primitive>, cam: Camera, samples: u32) -> bool {
    forall|x: int, y: int|
        0 <= x < img.width && 0 <= y < img.height ==> #[trigger] img.pixel(x, y) == pixel_color(
            prims,
            cam,
            img.width,
            img.height,
            samples,
            x as u32,
            y as u32,
        )
}

/// The stored color of flat pixel index `p` is its rendered color.
pub open spec fn pixel_done(img: Image, prims: Seq<Primitive>, cam: Camera, samples: u32, p: int) -> bool {
    img.pixels@[p] == pixel_color(
        prims,
        cam,
        img.width,
        img.height,
        samples,
        (p % img.width as int) as u32,
        (p / img.width as int) as u32,
    )
}

/// Renders the whole image. Every pixel is computed independently; the
/// pixels are dealt to `workers` interleaved strides, one stride per worker
/// of the pool, each writing only its own slots. The postcondition pins
/// every pixel to `pixel_color`, so any two worker counts yield bit-identical
/// images. A zero worker count or an unsupported sample count is rejected
/// before any scheduling; a scene with no primitives renders to an
/// all-background image rather than failing.
#[verifier::rlimit(100)]
pub fn render(world: &World, cam: &Camera, width: u32, height: u32, samples: u32, workers: usize) -> (res: Result<Image, Error>)
    requires
        world.wf(),
        cam.wf(),
        width <= DIM_MAX,
        height <= DIM_MAX,
    ensures
        (workers == 0) <==> res matches Err(Error::InvalidWorkerCount),
        (workers >= 1 && (samples == 0 || samples > SAMPLES_MAX)) <==> res matches Err(
            Error::InvalidSampleCount,
        ),
        (workers >= 1 && 1 <= samples <= SAMPLES_MAX) <==> res is Ok,
        res matches Ok(img) ==> {
            &&& img.wf()
            &&& img.width == width
            &&& img.height == height
            &&& image_rendered(img, world.prims@, *cam, samples)
        },
{
    if workers == 0 {
        return Err(Error::InvalidWorkerCount);
    }
    if samples == 0 || samples > SAMPLES_MAX {
        return Err(Error::InvalidSampleCount);
    }
    let img_opt = Image::new(width, height);
    let mut img = match img_opt {
        Some(im) => im,
        None => {
            proof {
                assert(false);
            }
            return Err(Error::ImageTooLarge { width, height });
        },
    };
    proof {
        lemma_mul_bound(width as int, height as int, 8192, 8192);
    }
    let n: usize = (width as usize) * (height as usize);
    let mut wk: usize = 0;
    while wk < workers
        invariant
            world.wf(),
            cam.wf(),
            width <= DIM_MAX,
            height <= DIM_MAX,
            1 <= samples <= SAMPLES_MAX,
            1 <= workers,
            wk <= workers,
            n == width * height,
            img.wf(),
            img.width == width,
            img.height == height,
            forall|q: int|
                0 <= q < n && q % (workers as int) < wk ==> #[trigger] pixel_done(
                    img,
                    world.prims@,
                    *cam,
                    samples,
                    q,
                ),
        decreases workers - wk,
    {
        let mut p: usize = 0;
        while p < n
            invariant
                world.wf(),
                cam.wf(),
                width <= DIM_MAX,
                height <= DIM_MAX,
                1 <= samples <= SAMPLES_MAX,
                1 <= workers,
                wk < workers,
                p <= n,
                n == width * height,
                img.wf(),
                img.width == width,
                img.height == height,
                forall|q: int|
                    0 <= q < n && q % (workers as int) < wk ==> #[trigger] pixel_done(
                        img,
                        world.prims@,
                        *cam,
                        samples,
                        q,
                    ),
                forall|q: int|
                    0 <= q < p && q % (workers as int) == wk ==> #[trigger] pixel_done(
                        img,
                        world.prims@,
                        *cam,
                        samples,
                        q,
                    ),
            decreases n - p,
        {
            if p % workers == wk {
                proof {
                    vstd::arithmetic::div_mod::lemma_multiply_divide_lt(
                        p as int,
                        width as int,
                        height as int,
                    );
                    vstd::arithmetic::div_mod::lemma_fundamental_div_mod(p as int, width as int);
                }
                let px = (p % (width as usize)) as u32;
                let py = (p / (width as usize)) as u32;
                let c = render_pixel(world, cam, width, height, samples, px, py);
                let ghost prev_img = img;
                img.set(px, py, c);
                proof {
                    vstd::arithmetic::mul::lemma_mul_is_commutative(py as int, width as int);
                    assert(pix_index(width as int, px as int, py as int) == p);
                    assert(img.pixels@[p as int] == c);
                    assert forall|q: int|
                        0 <= q < n && q % (workers as int) < wk implies pixel_done(
                        img,
                        world.prims@,
                        *cam,
                        samples,
                        q,
                    ) by {
                        assert(pixel_done(prev_img, world.prims@, *cam, samples, q));
                        assert(q != p);
                        assert(img.pixels@[q] == prev_img.pixels@[q]);
                    }
                    assert forall|q: int|
                        0 <= q < p + 1 && q % (workers as int) == wk implies pixel_done(
                        img,
                        world.prims@,
                        *cam,
                        samples,
                        q,
                    ) by {
                        if q < p {
                            assert(pixel_done(prev_img, world.prims@, *cam, samples, q));
                            assert(img.pixels@[q] == prev_img.pixels@[q]);
                        } else {
                            assert(q == p);
                            assert(pixel_done(img, world.prims@, *cam, samples, p as int));
                        }
                    }
                }
            }
            p = p + 1;
        }
        wk = wk + 1;
    }
    proof {
        assert forall|x: int, y: int|
            0 <= x < img.width && 0 <= y < img.height implies #[trigger] img.pixel(x, y)
            == pixel_color(
            world.prims@,
            *cam,
            img.width,
            img.height,
            samples,
            x as u32,
            y as u32,
        ) by {
            let p = pix_index(width as int, x, y);
            lemma_pix_index_in_range(width as int, height as int, x, y);
            vstd::arithmetic::div_mod::lemma_fundamental_div_mod_converse(
                p,
                width as int,
                y,
                x,
            );
            assert(0 <= p % (workers as int) < workers as int);
            assert(pixel_done(img, world.prims@, *cam, samples, p));
        }
    }
    Ok(img)
}

/// Scheduling independence: two images that both satisfy the renderer's
/// postcondition for the same scene, camera, size and sample count are
/// identical pixel for pixel, whatever worker counts produced them.
#[verifier::rlimit(100)]
pub proof fn lemma_render_schedule_independent(
    img1: Image,
    img2: Image,
    prims: Seq<Primitive>,
    cam: Camera,
    samples: u32,
)
    requires
        1 <= samples,
        img1.wf(),
        img2.wf(),
        img1.width == img2.width,
        img1.height == img2.height,
        image_rendered(img1, prims, cam, samples),
        image_rendered(img2, prims, cam, samples),
    ensures
        img1.pixels@ == img2.pixels@,
{
    assert forall|p: int| 0 <= p < img1.pixels@.len() implies img1.pixels@[p] == img2.pixels@[p] by {
        let w = img1.width as int;
        let h = img1.height as int;
        vstd::arithmetic::div_mod::lemma_multiply_divide_lt(p, w, h);
        vstd::arithmetic::div_mod::lemma_fundamental_div_mod(p, w);
        let x = p % w;
        let y = p / w;
        assert(img1.pixel(x, y) == pixel_color(prims, cam, img1.width, img1.height, samples, x as u32, y as u32));
        assert(img2.pixel(x, y) == pixel_color(prims, cam, img2.width, img2.height, samples, x as u32, y as u32));
        vstd::arithmetic::mul::lemma_mul_is_commutative(y, w);
        assert(pix_index(w, x, y) == p);
    }
    assert(img1.pixels@ =~= img2.pixels@);
}

/// A pixel whose every sample shades to one color `c` averages to exactly
/// `c`: the jitter introduces no variance on a uniform scene.
pub proof fn lemma_uniform_samples_average_exact(
    prims: Seq<Primitive>,
    cam: Camera,
    w: u32,
    h: u32,
    samples: u32,
    px: u32,
    py: u32,
    c: Color,
)
    requires
        1 <= samples,
        forall|s: u32| s < samples ==> sample_color(prims, cam, w, h, px, py, s) == c,
    ensures
        pixel_color(prims, cam, w, h, samples, px, py) == c,
{
    reveal(crate::renderer::pixel_color);
    lemma_sample_sum_const(prims, cam, w, h, px, py, samples as int, c);
    vstd::arithmetic::div_mod::lemma_div_multiples_vanish(c.r as int, samples as int);
    vstd::arithmetic::div_mod::lemma_div_multiples_vanish(c.g as int, samples as int);
    vstd::arithmetic::div_mod::lemma_div_multiples_vanish(c.b as int, samples as int);
    vstd::arithmetic::mul::lemma_mul_is_commutative(samples as int, c.r as int);
    vstd::arithmetic::mul::lemma_mul_is_commutative(samples as int, c.g as int);
    vstd::arithmetic::mul::lemma_mul_is_commutative(samples as int, c.b as int);
}

/// Sample sums of a pixel whose samples all shade to `c`.
pub proof fn lemma_sample_sum_const(
    prims: Seq<Primitive>,
    cam: Camera,
    w: u32,
    h: u32,
    px: u32,
    py: u32,
    n: int,
    c: Color,
)
    requires
        0 <= n <= 0xffff_ffff,
        forall|s: u32| s < n ==> sample_color(prims, cam, w, h, px, py, s) == c,
    ensures
        sample_sum(prims, cam, w, h, px, py, n) == (n * c.r as int, n * c.g as int, n * c.b as int),
    decreases n,
{
    if n > 0 {
        lemma_sample_sum_const(prims, cam, w, h, px, py, n - 1, c);
        assert(sample_color(prims, cam, w, h, px, py, (n - 1) as u32) == c);
        let prev = sample_sum(prims, cam, w, h, px, py, n - 1);
        assert(prev == ((n - 1) * c.r as int, (n - 1) * c.g as int, (n - 1) * c.b as int));
        assert(sample_sum(prims, cam, w, h, px, py, n) == (
            prev.0 + c.r as int,
            prev.1 + c.g as int,
            prev.2 + c.b as int,
        ));
        assert((n - 1) * c.r as int + c.r as int == n * c.r as int) by (nonlinear_arith);
        assert((n - 1) * c.g as int + c.g as int == n * c.g as int) by (nonlinear_arith);
        assert((n - 1) * c.b as int + c.b as int == n * c.b as int) by (nonlinear_arith);
    } else {
        assert(sample_sum(prims, cam, w, h, px, py, n) == (0int, 0int, 0int));
    }
}

/// A flat, uniform scene renders to a uniform image: when every primitive
/// carries material color `c` and every sample ray of the pixel hits some
/// primitive, the rendered pixel equals `c` for any sample count at least 1.
pub proof fn lemma_flat_scene_pixel_uniform(
    prims: Seq<Primitive>,
    cam: Camera,
    w: u32,
    h: u32,
    samples: u32,
    px: u32,
    py: u32,
    c: Color,
)
    requires
        1 <= samples,
        forall|k: int| 0 <= k < prims.len() ==> prim_material(#[trigger] prims[k]).color == c,
        forall|s: u32|
            s < samples ==> closest_hit(
                prims,
                #[trigger] gen_ray_spec(cam, w, h, px, py, s),
                T_MIN_RAY,
                T_MAX,
            ) is Some,
    ensures
        pixel_color(prims, cam, w, h, samples, px, py) == c,
{
    assert forall|s: u32| s < samples implies sample_color(prims, cam, w, h, px, py, s) == c by {
        let ray = gen_ray_spec(cam, w, h, px, py, s);
        lemma_closest_upto_props(prims, ray, T_MIN_RAY, T_MAX, prims.len() as int);
        let hit = closest_hit(prims, ray, T_MIN_RAY, T_MAX);
        assert(hit is Some);
        let (i, _t) = hit->Some_0;
        assert(0 <= i < prims.len());
        assert(prim_material(prims[i]).color == c);
    }
    lemma_uniform_samples_average_exact(prims, cam, w, h, samples, px, py, c);
}


/// An overhead camera's rays: origin the camera's, direction straight down
/// with lateral components within one unit.
pub proof fn lemma_overhead_ray_shape(cam: Camera, w: u32, h: u32, px: u32, py: u32, s: u32)
    requires
        cam.forward.x == 0 && cam.forward.y == -FP && cam.forward.z == 0,
        cam.right.x == FP && cam.right.y == 0 && cam.right.z == 0,
        cam.up.x == 0 && cam.up.y == 0 && cam.up.z == FP,
        cam.half_w == FP,
        cam.half_h == FP,
        0 < w,
        0 < h,
        px < w,
        py < h,
    ensures
        gen_ray_spec(cam, w, h, px, py, s).orig == cam.origin,
        gen_ray_spec(cam, w, h, px, py, s).dir.y == -FP,
        -FP <= gen_ray_spec(cam, w, h, px, py, s).dir.x < FP,
        -FP <= gen_ray_spec(cam, w, h, px, py, s).dir.z < FP,
{
    let j = jitter_spec(px, py, s);
    let hash = px * 0x9E3779B1 + py * 0x85EBCA77 + s * 0xC2B2AE35;
    vstd::arithmetic::div_mod::lemma_mod_bound(hash, 1024);
    vstd::arithmetic::div_mod::lemma_mod_bound(hash / 1024, 1024);
    vstd::arithmetic::div_mod::lemma_div_basics_4(hash, 1024);
    let nsu = cam.half_w * (2 * (px * FP + j.0));
    let nsv = cam.half_h * (2 * (py * FP + j.1));
    vstd::arithmetic::div_mod::lemma_div_basics_4(nsu, w * FP);
    vstd::arithmetic::div_mod::lemma_div_basics_4(nsv, h * FP);
    vstd::arithmetic::div_mod::lemma_multiply_divide_lt(nsu, w * FP, 2 * FP);
    vstd::arithmetic::div_mod::lemma_multiply_divide_lt(nsv, h * FP, 2 * FP);
    let su = tdiv_spec(nsu, w * FP) - cam.half_w;
    let sv = tdiv_spec(nsv, h * FP) - cam.half_h;
    assert(-FP <= su < FP && -FP <= sv < FP);
    if su >= 0 {
        vstd::arithmetic::div_mod::lemma_div_multiples_vanish(su, FP as int);
    } else {
        vstd::arithmetic::div_mod::lemma_div_multiples_vanish(-su, FP as int);
        assert(-(FP * su) == FP * (-su));
    }
    if sv >= 0 {
        vstd::arithmetic::div_mod::lemma_div_multiples_vanish(sv, FP as int);
    } else {
        vstd::arithmetic::div_mod::lemma_div_multiples_vanish(-sv, FP as int);
        assert(-(FP * sv) == FP * (-sv));
    }
    assert(gen_ray_spec(cam, w, h, px, py, s).dir.x == su);
    assert(gen_ray_spec(cam, w, h, px, py, s).dir.z == sv);
}

/// A flat, uniform-color height field seen from an overhead camera whose
/// view it covers renders to the field's color at every pixel, for any
/// sample count at least 1: every sample ray lands on some cell of the
/// field, and averaging equal samples is exact.
pub proof fn lemma_overhead_flat_field_uniform(
    n: NodeV,
    prims: Seq<Primitive>,
    cam: Camera,
    w: u32,
    h: u32,
    samples: u32,
    px: u32,
    py: u32,
    elev: i64,
    c: Color,
)
    requires
        1 <= samples,
        0 < w,
        0 < h,
        px < w,
        py < h,
        cam.forward.x == 0 && cam.forward.y == -FP && cam.forward.z == 0,
        cam.right.x == FP && cam.right.y == 0 && cam.right.z == 0,
        cam.up.x == 0 && cam.up.y == 0 && cam.up.z == FP,
        cam.half_w == FP,
        cam.half_h == FP,
        node_wf_v(n),
        n matches NodeV::HeightField { elevs, colors, .. } && (forall|k: int|
            0 <= k < elevs.len() ==> elevs[k] == elev) && (forall|k: int|
            0 <= k < colors.len() ==> colors[k] == c),
        prims == prims_of_node(n),
        T_MIN_RAY <= cam.origin.y - elev <= T_MAX,
        n matches NodeV::HeightField { x0, z0, cells_x, cells_z, .. } && x0 <= cam.origin.x - (
        cam.origin.y - elev) && cam.origin.x + (cam.origin.y - elev) <= x0 + cells_x * FP && z0
            <= cam.origin.z - (cam.origin.y - elev) && cam.origin.z + (cam.origin.y - elev) <= z0
            + cells_z * FP,
    ensures
        pixel_color(prims, cam, w, h, samples, px, py) == c,
{
    let x0 = n->HeightField_x0;
    let z0 = n->HeightField_z0;
    let cells_x = n->HeightField_cells_x;
    let cells_z = n->HeightField_cells_z;
    let elevs = n->HeightField_elevs;
    let colors = n->HeightField_colors;
    let t0 = cam.origin.y - elev;
    assert forall|s: u32|
        s < samples implies closest_hit(
        prims,
        #[trigger] gen_ray_spec(cam, w, h, px, py, s),
        T_MIN_RAY,
        T_MAX,
    ) is Some by {
        lemma_overhead_ray_shape(cam, w, h, px, py, s);
        let ray = gen_ray_spec(cam, w, h, px, py, s);
        assert(t0 * ray.dir.x >= t0 * (-FP) && t0 * ray.dir.x < t0 * FP && t0 * ray.dir.z >= t0
            * (-FP) && t0 * ray.dir.z < t0 * FP) by (nonlinear_arith)
            requires
                t0 >= 1,
                -FP <= ray.dir.x < FP,
                -FP <= ray.dir.z < FP,
        ;
        let qx = point_at_x(ray, t0 as int);
        let qz = point_at_z(ray, t0 as int);
        let dx = qx - x0 * FP;
        let dz = qz - z0 * FP;
        assert(0 <= dx < cells_x * 1048576 && 0 <= dz < cells_z * 1048576) by (nonlinear_arith)
            requires
                dx == cam.origin.x * FP + t0 * ray.dir.x - x0 * FP,
                dz == cam.origin.z * FP + t0 * ray.dir.z - z0 * FP,
                t0 * ray.dir.x >= t0 * (-FP),
                t0 * ray.dir.x < t0 * FP,
                t0 * ray.dir.z >= t0 * (-FP),
                t0 * ray.dir.z < t0 * FP,
                x0 <= cam.origin.x - t0,
                cam.origin.x + t0 <= x0 + cells_x * FP,
                z0 <= cam.origin.z - t0,
                cam.origin.z + t0 <= z0 + cells_z * FP,
                FP == 1024,
        ;
        let ci = dx / 1048576;
        let cj = dz / 1048576;
        vstd::arithmetic::div_mod::lemma_fundamental_div_mod(dx, 1048576);
        vstd::arithmetic::div_mod::lemma_fundamental_div_mod(dz, 1048576);
        vstd::arithmetic::div_mod::lemma_mod_bound(dx, 1048576);
        vstd::arithmetic::div_mod::lemma_mod_bound(dz, 1048576);
        vstd::arithmetic::div_mod::lemma_div_basics_4(dx, 1048576);
        vstd::arithmetic::div_mod::lemma_div_basics_4(dz, 1048576);
        vstd::arithmetic::div_mod::lemma_multiply_divide_lt(dx, 1048576, cells_x as int);
        vstd::arithmetic::div_mod::lemma_multiply_divide_lt(dz, 1048576, cells_z as int);
        let k = cj * (cells_x as int) + ci;
        crate::data::lemma_pix_index_in_range(cells_x as int, cells_z as int, ci, cj);
        vstd::arithmetic::mul::lemma_mul_is_commutative(cj, cells_x as int);
        vstd::arithmetic::div_mod::lemma_fundamental_div_mod_converse(
            k,
            cells_x as int,
            cj,
            ci,
        );
        assert(0 <= k < prims.len());
        assert(prims[k] == cell_prim(x0, z0, cells_x, elevs[k], colors[k], k));
        assert((ci + 1) * FP <= cells_x * FP && (cj + 1) * FP <= cells_z * FP && 0 <= ci * FP
            && 0 <= cj * FP && ci * 1048576 == (ci * FP) * FP && cj * 1048576 == (cj * FP) * FP
            && (ci + 1) * 1048576 == ((ci + 1) * FP) * FP && (cj + 1) * 1048576 == ((cj + 1) * FP)
            * FP) by (nonlinear_arith)
            requires
                0 <= ci,
                ci < cells_x,
                0 <= cj,
                cj < cells_z,
                FP == 1024,
        ;
        let p = prims[k];
        assert(p matches Primitive::HeightCell { x0: cx0, x1: cx1, z0: cz0, z1: cz1, elev: ce, .. }
            && cx0 == x0 + ci * FP && cx1 == x0 + (ci + 1) * FP && cz0 == z0 + cj * FP && cz1 == z0
            + (cj + 1) * FP && ce == elev);
        assert((x0 + ci * FP) * FP <= qx <= (x0 + (ci + 1) * FP) * FP && (z0 + cj * FP) * FP <= qz
            <= (z0 + (cj + 1) * FP) * FP) by (nonlinear_arith)
            requires
                qx == x0 * FP + dx,
                qz == z0 * FP + dz,
                1048576 * ci <= dx,
                dx < 1048576 * ci + 1048576,
                1048576 * cj <= dz,
                dz < 1048576 * cj + 1048576,
                FP == 1024,
        ;
        assert(point_at_y(ray, t0 as int) == elev * FP) by (nonlinear_arith)
            requires
                point_at_y(ray, t0 as int) == cam.origin.y * FP + t0 * ray.dir.y,
                ray.dir.y == -FP,
                t0 == cam.origin.y - elev,
                FP == 1024,
        ;
        vstd::arithmetic::div_mod::lemma_div_multiples_vanish(t0, FP as int);
        assert(prim_hit(p, ray) == Some(t0 as i64));
        assert(valid_hit(prims, ray, T_MIN_RAY, T_MAX, k));
        lemma_closest_upto_props(prims, ray, T_MIN_RAY, T_MAX, prims.len() as int);
        let chit = closest_hit(prims, ray, T_MIN_RAY, T_MAX);
        if chit is None {
            assert(crate::world::no_better(prims, ray, T_MIN_RAY, T_MAX, k, chit));
            assert(false);
        }
    }
    assert forall|k: int| 0 <= k < prims.len() implies prim_material(
        #[trigger] prims[k],
    ).color == c by {
        assert(prims[k] == cell_prim(x0, z0, cells_x, elevs[k], colors[k], k));
    }
    lemma_flat_scene_pixel_uniform(prims, cam, w, h, samples, px, py, c);
}

} // verus!
