//! The scene generator: turns a named raster asset into a declarative
//! height-field scene — one unit cell per pixel, elevation from intensity,
//! material from color — independent of any later render width or sample
//! count.

use vstd::prelude::*;
use crate::camera::Camera;
use crate::config::{config_view, node_view, Config, ConfigV, NodeCfg, NodeV};
use crate::data::{Color, Image};
use crate::math::{lemma_mul_bound, tdiv, Vec3, FP};
use crate::Error;

verus! {

/// The scene kinds the generator can synthesize.
pub enum SceneKind {
    /// Terrain from one height-map asset.
    Terrain,
}

/// The asset name the terrain kind requires.
pub open spec fn terrain_asset() -> Seq<char> {
    "heightmap"@
}

/// Elevation of a pixel: its intensity, scaled to fixed point.
pub open spec fn elev_of(c: Color) -> i64 {
    ((c.r + c.g + c.b) * 4) as i64
}

/// The camera the generator places: above the field's center, looking
/// straight down, unit basis, square image plane.
pub open spec fn terrain_camera(w: u32, h: u32) -> Camera {
    Camera {
        origin: Vec3 { x: ((w * FP) / 2) as i64, y: 10240, z: ((h * FP) / 2) as i64 },
        forward: Vec3 { x: 0, y: -1024i64, z: 0 },
        right: Vec3 { x: 1024, y: 0, z: 0 },
        up: Vec3 { x: 0, y: 0, z: 1024 },
        half_w: 1024,
        half_h: 1024,
    }
}

/// The scene generated from a raster asset: a single height-field node with
/// one cell per pixel, spanning the asset's dimensions in world units.
pub open spec fn terrain_config(img: Image) -> ConfigV {
    ConfigV {
        camera: terrain_camera(img.width, img.height),
        nodes: seq![
            NodeV::HeightField {
                x0: 0,
                z0: 0,
                cells_x: img.width as usize,
                cells_z: img.height as usize,
                elevs: Seq::new(
                    (img.width * img.height) as nat,
                    |k: int| elev_of(img.pixels@[k]),
                ),
                colors: img.pixels@,
            },
        ],
    }
}

/// The generated scene's size is proportional to the asset's dimensions
/// alone: one node, one cell per pixel, rooted at the origin and spanning
/// `w x h` world units — the generator never sees the render width or
/// sample count, so neither can influence it.
pub proof fn lemma_generated_extent(img: Image)
    requires
        img.wf(),
    ensures
        terrain_config(img).nodes.len() == 1,
        terrain_config(img).nodes[0] matches NodeV::HeightField {
            x0,
            z0,
            cells_x,
            cells_z,
            elevs,
            colors,
        } && x0 == 0 && z0 == 0 && cells_x == img.width && cells_z == img.height && elevs.len()
            == img.width * img.height && colors.len() == img.width * img.height,
{
}

/// Generates a declarative scene from named raster assets: for the terrain
/// kind, the first asset named `heightmap` becomes the scene. A missing
/// required asset is a fatal error naming it. Assets of any dimensions,
/// square or not, are accepted, an empty one giving an empty field.
pub fn generate(kind: &SceneKind, assets: &Vec<(String, Image)>) -> (res: Result<Config, Error>)
    requires
        forall|k: int| 0 <= k < assets@.len() ==> (#[trigger] assets@[k]).1.wf(),
    ensures
        (exists|k: int| 0 <= k < assets@.len() && (#[trigger] assets@[k]).0@ == terrain_asset())
            <==> res is Ok,
        res matches Err(e) ==> (e matches Error::MissingAsset { name } && name@
            == terrain_asset()),
        res matches Ok(cfg) ==> {
            &&& cfg.wf()
            &&& exists|k: int|
                0 <= k < assets@.len() && (#[trigger] assets@[k]).0@ == terrain_asset() && (forall|
                    j: int,
                | 0 <= j < k ==> (#[trigger] assets@[j]).0@ != terrain_asset()) && config_view(cfg)
                    == terrain_config(assets@[k].1)
        },
{
    match kind {
        SceneKind::Terrain => {},
    }
    let name: String = "heightmap".to_owned();
    let mut found: usize = 0;
    let mut have: bool = false;
    let mut k: usize = 0;
    while k < assets.len() && !have
        invariant
            k <= assets@.len(),
            name@ == terrain_asset(),
            !have ==> forall|j: int| 0 <= j < k ==> (#[trigger] assets@[j]).0@ != terrain_asset(),
            have ==> (found < k <= assets@.len() && assets@[found as int].0@ == terrain_asset()
                && (forall|j: int|
                0 <= j < found ==> (#[trigger] assets@[j]).0@ != terrain_asset())),
        decreases assets@.len() - k,
    {
        if assets[k].0 == name {
            found = k;
            have = true;
        }
        k = k + 1;
    }
    if !have {
        return Err(Error::MissingAsset { name });
    }
    let img = &assets[found].1;
    let w = img.get_width();
    let h = img.get_height();
    let camera = Camera {
        origin: Vec3 { x: tdiv((w as i64) * FP, 2), y: 10240, z: tdiv((h as i64) * FP, 2) },
        forward: Vec3 { x: 0, y: -1024, z: 0 },
        right: Vec3 { x: 1024, y: 0, z: 0 },
        up: Vec3 { x: 0, y: 0, z: 1024 },
        half_w: 1024,
        half_h: 1024,
    };
    proof {
        lemma_mul_bound(w as int, h as int, 8192, 8192);
        vstd::arithmetic::div_mod::lemma_div_is_ordered(
            (w as int) * FP,
            8388608,
            2,
        );
        vstd::arithmetic::div_mod::lemma_div_is_ordered(
            (h as int) * FP,
            8388608,
            2,
        );
        vstd::arithmetic::div_mod::lemma_div_basics_4((w as int) * FP, 2);
        vstd::arithmetic::div_mod::lemma_div_basics_4((h as int) * FP, 2);
    }
    let n: usize = (w as usize) * (h as usize);
    let mut elevs: Vec<i64> = Vec::new();
    let mut colors: Vec<Color> = Vec::new();
    let mut m: usize = 0;
    while m < n
        invariant
            img.wf(),
            w == img.width,
            h == img.height,
            n == w * h,
            n == img.pixels@.len(),
            m <= n,
            elevs@.len() == m,
            colors@.len() == m,
            forall|j: int| 0 <= j < m ==> #[trigger] elevs@[j] == elev_of(img.pixels@[j]),
            forall|j: int| 0 <= j < m ==> #[trigger] colors@[j] == img.pixels@[j],
        decreases n - m,
    {
        let c = img.pixels[m];
        elevs.push(((c.r as i64) + (c.g as i64) + (c.b as i64)) * 4);
        colors.push(c);
        m = m + 1;
    }
    let node = NodeCfg::HeightField {
        x0: 0,
        z0: 0,
        cells_x: w as usize,
        cells_z: h as usize,
        elevs,
        colors,
    };
    let cfg = Config { camera, nodes: vec![node] };
    proof {
        lemma_mul_bound(w as int, 1024, 8192, 1024);
        lemma_mul_bound(h as int, 1024, 8192, 1024);
        let tc = terrain_config(assets@[found as int].1);
        let cvn = config_view(cfg).nodes;
        assert(cvn =~= cfg.nodes@.map_values(|nd: NodeCfg| node_view(nd)));
        assert(cvn.len() == 1);
        match cvn[0] {
            NodeV::HeightField { x0, z0, cells_x, cells_z, elevs: ev, colors: cv2 } => {
                assert(ev =~= tc.nodes[0]->HeightField_elevs);
                assert(cv2 =~= tc.nodes[0]->HeightField_colors);
            },
            _ => {
                assert(false);
            },
        }
        assert(cvn =~= tc.nodes);
        assert(config_view(cfg) == tc);
    }
    Ok(cfg)
}

} // verus!
