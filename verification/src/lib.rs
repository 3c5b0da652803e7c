//! A small ray-tracing core on fixed-point integer coordinates: a BVH spatial
//! index over geometric primitives, a jittered multi-sample camera, a
//! deterministic per-pixel renderer, a declarative scene-config model with a
//! verified save/load round trip, and a height-field scene generator.

pub mod math;
pub mod data;
pub mod world;
pub mod camera;
pub mod renderer;
pub mod config;
pub mod generator;

use vstd::prelude::*;

verus! {

/// The fatal errors the library reports; each carries enough context to
/// diagnose without inspecting source.
#[derive(Debug)]
pub enum Error {
    /// A scene record whose discriminant names no known node type: the
    /// record's position and the offending tag.
    UnknownNodeTag { index: usize, tag: String },
    /// A scene record whose fields do not fit its discriminant's shape or
    /// bounds: the record's position.
    MalformedNode { index: usize },
    /// Camera parameters outside the supported bounds.
    MalformedCamera,
    /// A required named asset was absent during scene generation.
    MissingAsset { name: String },
    /// A worker-pool size of zero, rejected before any scheduling.
    InvalidWorkerCount,
    /// A sample count of zero or beyond the supported bound.
    InvalidSampleCount,
    /// Render dimensions beyond the supported bounds.
    ImageTooLarge { width: u32, height: u32 },
}


/// One invocation of the tool: render a scene document, or generate one.
pub enum Command {
    /// Load a scene document and render it at the given width, sample count
    /// and worker-pool size; the height derives from the camera's aspect
    /// ratio.
    Render { doc: config::Doc, width: u32, samples: u32, workers: usize },
    /// Generate a scene document from named, already-decoded raster assets.
    Generate { kind: generator::SceneKind, assets: Vec<(String, data::Image)> },
}

/// What a command produces.
#[derive(Debug, PartialEq)]
pub enum RunOutput {
    Rendered(data::Image),
    Generated(config::Doc),
}

/// The derived image height: the width scaled by the camera's aspect ratio.
pub open spec fn derived_height(cam: camera::Camera, width: u32) -> int {
    (width * cam.half_h) / (cam.half_w as int)
}

/// Executes one command. A render loads the document (rejecting unknown or
/// malformed records and bad cameras), converts it into the runtime world —
/// building the spatial index — and renders; invalid dimensions, worker
/// counts and sample counts are rejected before any work. A generation
/// builds the scene from the assets and returns it saved as a document.
pub fn run(cmd: Command) -> (res: Result<RunOutput, Error>)
    requires
        cmd matches Command::Generate { assets, .. } ==> forall|k: int|
            0 <= k < assets@.len() ==> (#[trigger] assets@[k]).1.wf(),
    ensures
        match cmd {
            Command::Render { doc, width, samples, workers } => match config::load_spec(
                config::doc_view(doc),
            ) {
                config::LoadRes::Loaded(cv) => {
                    if width > data::DIM_MAX || derived_height(cv.camera, width) > data::DIM_MAX {
                        res matches Err(Error::ImageTooLarge { .. })
                    } else if workers == 0 {
                        res matches Err(Error::InvalidWorkerCount)
                    } else if samples == 0 || samples > renderer::SAMPLES_MAX {
                        res matches Err(Error::InvalidSampleCount)
                    } else {
                        (res matches Ok(RunOutput::Rendered(img)) && img.wf() && img.width
                            == width && img.height == derived_height(cv.camera, width)
                            && renderer::image_rendered(
                            img,
                            config::prims_of(cv),
                            cv.camera,
                            samples,
                        ))
                    }
                },
                config::LoadRes::UnknownTag(i) => (res matches Err(
                    Error::UnknownNodeTag { index, .. },
                ) && index == i),
                config::LoadRes::Malformed(i) => (res matches Err(Error::MalformedNode { index })
                    && index == i),
                config::LoadRes::BadCamera => res matches Err(Error::MalformedCamera),
            },
            Command::Generate { kind, assets } => {
                &&& ((exists|k: int|
                    0 <= k < assets@.len() && (#[trigger] assets@[k]).0@
                        == generator::terrain_asset()) <==> res is Ok)
                &&& (res matches Err(e) ==> e matches Error::MissingAsset { .. })
                &&& (res matches Ok(out) ==> out matches RunOutput::Generated(d) && exists|k: int|
                    0 <= k < assets@.len() && (#[trigger] assets@[k]).0@
                        == generator::terrain_asset() && (forall|j: int|
                        0 <= j < k ==> (#[trigger] assets@[j]).0@ != generator::terrain_asset())
                        && config::doc_view(d) == config::save_spec(
                        generator::terrain_config(assets@[k].1),
                    ))
            },
        },
{
    match cmd {
        Command::Render { doc, width, samples, workers } => {
            let cfg = match config::load(&doc) {
                Ok(c) => c,
                Err(e) => {
                    return Err(e);
                },
            };
            let (world, cam) = config::into_world(&cfg);
            proof {
                math::lemma_mul_bound(width as int, cam.half_h as int, 4294967296, 4096);
                vstd::arithmetic::div_mod::lemma_div_basics_4(
                    (width as int) * (cam.half_h as int),
                    cam.half_w as int,
                );
            }
            let hh: i64 = math::tdiv((width as i64) * cam.half_h, cam.half_w);
            if width > data::DIM_MAX || hh > data::DIM_MAX as i64 {
                let hrep: u32 = if hh > 4294967295i64 {
                    4294967295
                } else {
                    hh as u32
                };
                return Err(Error::ImageTooLarge { width, height: hrep });
            }
            let height: u32 = hh as u32;
            match renderer::render(&world, &cam, width, height, samples, workers) {
                Ok(img) => Ok(RunOutput::Rendered(img)),
                Err(e) => Err(e),
            }
        },
        Command::Generate { kind, assets } => {
            match generator::generate(&kind, &assets) {
                Ok(cfg) => Ok(RunOutput::Generated(config::save(&cfg))),
                Err(e) => Err(e),
            }
        },
    }
}

} // verus!
