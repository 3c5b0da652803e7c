//! Scene persistence round trips, generation, rendering and the error cases.

use raytracer::camera::Camera;
use raytracer::config::{load, save, Config, Doc, NodeCfg, Record};
use raytracer::data::{Color, Image};
use raytracer::generator::{generate, SceneKind};
use raytracer::math::{Vec3, FP, POS_MAX, RAD_MAX};
use raytracer::renderer::render;
use raytracer::{run, Command, Error, RunOutput};

fn down_camera(cx: i64, cz: i64, y: i64) -> Camera {
    Camera {
        origin: Vec3 { x: cx, y, z: cz },
        forward: Vec3 { x: 0, y: -FP, z: 0 },
        right: Vec3 { x: FP, y: 0, z: 0 },
        up: Vec3 { x: 0, y: 0, z: FP },
        half_w: FP,
        half_h: FP,
    }
}

fn flat_field(cells: usize, color: Color) -> NodeCfg {
    NodeCfg::HeightField {
        x0: 0,
        z0: 0,
        cells_x: cells,
        cells_z: cells,
        elevs: vec![0; cells * cells],
        colors: vec![color; cells * cells],
    }
}

fn gray_config() -> Config {
    // One flat 4 x 4 height field of uniform elevation 0 and uniform color,
    // seen from one unit above its center looking straight down: every
    // primary ray lands on the field.
    Config {
        camera: down_camera(2 * FP, 2 * FP, FP),
        nodes: vec![flat_field(4, Color { r: 128, g: 128, b: 128 })],
    }
}

#[test]
fn round_trip_all_node_types() {
    let cfg = Config {
        camera: down_camera(0, 0, 5 * FP),
        nodes: vec![
            NodeCfg::Sphere {
                center: Vec3 { x: 1, y: -2, z: 3 },
                radius: 7,
                color: Color { r: 1, g: 2, b: 3 },
            },
            flat_field(3, Color { r: 9, g: 8, b: 7 }),
            NodeCfg::Sphere {
                center: Vec3 { x: POS_MAX, y: -POS_MAX, z: 0 },
                radius: RAD_MAX,
                color: Color { r: 255, g: 0, b: 255 },
            },
        ],
    };
    let doc = save(&cfg);
    assert_eq!(load(&doc).unwrap(), cfg);
}

#[test]
fn round_trip_empty_node_list() {
    let cfg = Config { camera: down_camera(0, 0, FP), nodes: vec![] };
    assert_eq!(load(&save(&cfg)).unwrap(), cfg);
}

#[test]
fn round_trip_boundary_values() {
    // Zero-extent field and an extreme aspect ratio.
    let mut cam = down_camera(-POS_MAX, POS_MAX, 0);
    cam.half_w = 1;
    cam.half_h = 4096;
    let cfg = Config {
        camera: cam,
        nodes: vec![NodeCfg::HeightField {
            x0: -POS_MAX,
            z0: -POS_MAX,
            cells_x: 0,
            cells_z: 0,
            elevs: vec![],
            colors: vec![],
        }],
    };
    assert_eq!(load(&save(&cfg)).unwrap(), cfg);
}

#[test]
fn load_rejects_unknown_tag() {
    let doc = Doc {
        camera: down_camera(0, 0, FP),
        records: vec![Record { tag: "blob".to_string(), vals: vec![] }],
    };
    match load(&doc) {
        Err(Error::UnknownNodeTag { index, tag }) => {
            assert_eq!(index, 0);
            assert_eq!(tag, "blob");
        },
        other => panic!("expected an unknown-tag error, got {:?}", other),
    }
}

#[test]
fn load_rejects_malformed_record() {
    let doc = Doc {
        camera: down_camera(0, 0, FP),
        records: vec![
            Record { tag: "sphere".to_string(), vals: vec![0, 0, 0, 1, 0] },
            Record { tag: "sphere".to_string(), vals: vec![1, 2] },
        ],
    };
    match load(&doc) {
        Err(Error::MalformedNode { index }) => assert_eq!(index, 1),
        other => panic!("expected a malformed-node error, got {:?}", other),
    }
}

#[test]
fn load_rejects_bad_camera() {
    let mut cam = down_camera(0, 0, FP);
    cam.half_w = 0;
    let doc = Doc { camera: cam, records: vec![] };
    assert!(matches!(load(&doc), Err(Error::MalformedCamera)));
}

#[test]
fn flat_field_renders_uniform_color() {
    // Any samples-per-pixel >= 1 yields exactly the material color.
    let cfg = gray_config();
    for samples in [1u32, 2, 4, 7] {
        let (world, cam) = raytracer::config::into_world(&cfg);
        let img = render(&world, &cam, 8, 8, samples, 1).unwrap();
        for y in 0..8u32 {
            for x in 0..8u32 {
                assert_eq!(img.get(x, y), Color { r: 128, g: 128, b: 128 });
            }
        }
    }
}

#[test]
fn worker_counts_give_identical_images() {
    let cfg = Config {
        camera: down_camera(2 * FP, 2 * FP, 3 * FP),
        nodes: vec![
            flat_field(4, Color { r: 40, g: 90, b: 200 }),
            NodeCfg::Sphere {
                center: Vec3 { x: 2 * FP, y: FP, z: 2 * FP },
                radius: FP / 2,
                color: Color { r: 250, g: 10, b: 10 },
            },
        ],
    };
    let (world, cam) = raytracer::config::into_world(&cfg);
    let one = render(&world, &cam, 16, 12, 3, 1).unwrap();
    let many = render(&world, &cam, 16, 12, 3, 5).unwrap();
    assert_eq!(one, many);
}

#[test]
fn render_rejects_zero_workers_and_samples() {
    let (world, cam) = raytracer::config::into_world(&gray_config());
    assert!(matches!(render(&world, &cam, 4, 4, 1, 0), Err(Error::InvalidWorkerCount)));
    assert!(matches!(render(&world, &cam, 4, 4, 0, 2), Err(Error::InvalidSampleCount)));
}

#[test]
fn empty_scene_renders_background() {
    let cfg = Config { camera: down_camera(0, 0, FP), nodes: vec![] };
    let (world, cam) = raytracer::config::into_world(&cfg);
    let img = render(&world, &cam, 6, 4, 2, 2).unwrap();
    for y in 0..4u32 {
        for x in 0..6u32 {
            assert_eq!(img.get(x, y), Color { r: 0, g: 0, b: 0 });
        }
    }
}

fn solid_asset(w: u32, h: u32, color: Color) -> Image {
    let mut img = Image::new(w, h).unwrap();
    for y in 0..h {
        for x in 0..w {
            img.set(x, y, color);
        }
    }
    img
}

#[test]
fn generate_counts_cells_per_pixel() {
    // A W x H asset gives one height-field node of exactly W x H cells,
    // whatever the render width or sample count used later.
    let asset = solid_asset(5, 3, Color { r: 10, g: 20, b: 30 });
    let assets = vec![("heightmap".to_string(), asset)];
    let cfg = generate(&SceneKind::Terrain, &assets).unwrap();
    assert_eq!(cfg.nodes.len(), 1);
    match &cfg.nodes[0] {
        NodeCfg::HeightField { x0, z0, cells_x, cells_z, elevs, colors } => {
            assert_eq!((*x0, *z0), (0, 0));
            assert_eq!((*cells_x, *cells_z), (5, 3));
            assert_eq!(elevs.len(), 15);
            assert_eq!(colors.len(), 15);
            // Elevation is intensity scaled: (10 + 20 + 30) * 4.
            assert_eq!(elevs[0], 240);
            assert_eq!(colors[0], Color { r: 10, g: 20, b: 30 });
        },
        other => panic!("expected a height field, got {:?}", other),
    }
}

#[test]
fn generate_rejects_missing_asset() {
    let assets = vec![("colors".to_string(), solid_asset(2, 2, Color { r: 0, g: 0, b: 0 }))];
    match generate(&SceneKind::Terrain, &assets) {
        Err(Error::MissingAsset { name }) => assert_eq!(name, "heightmap"),
        other => panic!("expected a missing-asset error, got {:?}", other),
    }
}

#[test]
fn run_renders_gray_scene_end_to_end() {
    // The example scenario: one 4 x 4 flat gray height field, rendered at
    // width 8 with 4 samples per pixel; the derived height is 8 (square
    // image plane) and every pixel is exactly the material color.
    let doc = save(&gray_config());
    let out = run(Command::Render { doc, width: 8, samples: 4, workers: 2 }).unwrap();
    match out {
        RunOutput::Rendered(img) => {
            assert_eq!((img.get_width(), img.get_height()), (8, 8));
            for y in 0..8u32 {
                for x in 0..8u32 {
                    assert_eq!(img.get(x, y), Color { r: 128, g: 128, b: 128 });
                }
            }
        },
        other => panic!("expected an image, got {:?}", other),
    }
}

#[test]
fn run_generate_then_render() {
    let asset = solid_asset(4, 4, Color { r: 200, g: 200, b: 200 });
    let assets = vec![("heightmap".to_string(), asset)];
    let out = run(Command::Generate { kind: SceneKind::Terrain, assets }).unwrap();
    let doc = match out {
        RunOutput::Generated(d) => d,
        other => panic!("expected a document, got {:?}", other),
    };
    // The generated document loads back and renders without error.
    let rendered = run(Command::Render { doc, width: 8, samples: 2, workers: 3 }).unwrap();
    match rendered {
        RunOutput::Rendered(img) => {
            assert_eq!((img.get_width(), img.get_height()), (8, 8));
        },
        other => panic!("expected an image, got {:?}", other),
    }
}

#[test]
fn run_rejects_oversized_render() {
    let doc = save(&gray_config());
    assert!(matches!(
        run(Command::Render { doc, width: 100000, samples: 1, workers: 1 }),
        Err(Error::ImageTooLarge { .. })
    ));
}

#[test]
fn jitter_is_deterministic() {
    let cam = down_camera(2 * FP, 2 * FP, FP);
    let a = raytracer::camera::generate_ray(&cam, 8, 8, 3, 5, 2);
    let b = raytracer::camera::generate_ray(&cam, 8, 8, 3, 5, 2);
    assert_eq!(a, b);
    let c = raytracer::camera::generate_ray(&cam, 8, 8, 3, 5, 1);
    // A different sample index jitters to a different ray here.
    assert_ne!(a, c);
}
