//! The declarative scene model: a camera plus tagged scene-node records.
//! Nodes are persisted as a discriminant string with flattened integer
//! parameters; loading dispatches on the discriminant and rejects unknown
//! tags and malformed records. Saving and loading round-trip exactly.

use vstd::prelude::*;
use crate::camera::Camera;
use crate::data::{Color, Material};
use crate::math::{lemma_mul_bound, Vec3, FP, POS_MAX, RAD_MAX};
use crate::world::{prims_wf, prim_wf, Primitive, World};
use crate::Error;

verus! {

/// Largest cell count a height field may have along one side.
pub const CELLS_MAX: usize = 8192;

/// A declarative scene node.
#[derive(Debug, PartialEq)]
pub enum NodeCfg {
    /// A sphere with its material color.
    Sphere { center: Vec3, radius: i64, color: Color },
    /// A height field: a `cells_x x cells_z` grid of unit cells starting at
    /// `(x0, z0)`, one elevation and one color per cell, row-major.
    HeightField {
        x0: i64,
        z0: i64,
        cells_x: usize,
        cells_z: usize,
        elevs: Vec<i64>,
        colors: Vec<Color>,
    },
}

/// Ghost view of a scene node, grids as sequences.
pub enum NodeV {
    Sphere { center: Vec3, radius: i64, color: Color },
    HeightField {
        x0: i64,
        z0: i64,
        cells_x: usize,
        cells_z: usize,
        elevs: Seq<i64>,
        colors: Seq<Color>,
    },
}

/// The view of a node.
pub open spec fn node_view(n: NodeCfg) -> NodeV {
    match n {
        NodeCfg::Sphere { center, radius, color } => NodeV::Sphere { center, radius, color },
        NodeCfg::HeightField { x0, z0, cells_x, cells_z, elevs, colors } => NodeV::HeightField {
            x0,
            z0,
            cells_x,
            cells_z,
            elevs: elevs@,
            colors: colors@,
        },
    }
}

/// Validity bounds of a node, over its view: exactly what loading checks.
pub open spec fn node_wf_v(n: NodeV) -> bool {
    match n {
        NodeV::Sphere { center, radius, .. } => {
            &&& crate::math::vec3_in_range(center, POS_MAX)
            &&& 0 < radius <= RAD_MAX
        },
        NodeV::HeightField { x0, z0, cells_x, cells_z, elevs, colors } => {
            &&& cells_x <= CELLS_MAX
            &&& cells_z <= CELLS_MAX
            &&& elevs.len() == cells_x * cells_z
            &&& colors.len() == cells_x * cells_z
            &&& -POS_MAX <= x0
            &&& x0 + cells_x * FP <= POS_MAX
            &&& -POS_MAX <= z0
            &&& z0 + cells_z * FP <= POS_MAX
            &&& forall|k: int| 0 <= k < elevs.len() ==> -POS_MAX <= #[trigger] elevs[k] <= POS_MAX
        },
    }
}

impl NodeCfg {
    /// Validity of a node.
    pub open spec fn wf(self) -> bool {
        node_wf_v(node_view(self))
    }
}

/// A declarative scene: camera parameters plus an ordered node list. This is
/// the persisted, resolution-independent form; width and sample count are
/// supplied only at render time.
#[derive(Debug, PartialEq)]
pub struct Config {
    pub camera: Camera,
    pub nodes: Vec<NodeCfg>,
}

/// Ghost view of a scene.
pub struct ConfigV {
    pub camera: Camera,
    pub nodes: Seq<NodeV>,
}

/// The view of a scene.
pub open spec fn config_view(c: Config) -> ConfigV {
    ConfigV { camera: c.camera, nodes: c.nodes@.map_values(|n: NodeCfg| node_view(n)) }
}

/// Validity of a scene view.
pub open spec fn config_wf_v(cv: ConfigV) -> bool {
    &&& cv.camera.wf()
    &&& forall|k: int| 0 <= k < cv.nodes.len() ==> node_wf_v(#[trigger] cv.nodes[k])
}

impl Config {
    /// Validity of a scene.
    pub open spec fn wf(self) -> bool {
        config_wf_v(config_view(self))
    }
}

/// One persisted record: a type-discriminant string and that type's
/// parameters flattened to integers.
#[derive(Debug, PartialEq)]
pub struct Record {
    pub tag: String,
    pub vals: Vec<i64>,
}

/// Ghost view of a record.
pub struct RecV {
    pub tag: Seq<char>,
    pub vals: Seq<i64>,
}

/// The view of a record.
pub open spec fn rec_view(r: Record) -> RecV {
    RecV { tag: r.tag@, vals: r.vals@ }
}

/// A persisted scene document: camera parameters and the ordered records.
#[derive(Debug, PartialEq)]
pub struct Doc {
    pub camera: Camera,
    pub records: Vec<Record>,
}

/// Ghost view of a document.
pub struct DocV {
    pub camera: Camera,
    pub recs: Seq<RecV>,
}

/// The view of a document.
pub open spec fn doc_view(d: Doc) -> DocV {
    DocV { camera: d.camera, recs: d.records@.map_values(|r: Record| rec_view(r)) }
}

/// Packs a color into one integer: `r + 256 g + 65536 b`.
pub open spec fn pack_color(c: Color) -> i64 {
    (c.r + 256 * c.g + 65536 * c.b) as i64
}

/// Unpacks `pack_color`.
pub open spec fn unpack_color(v: i64) -> Color {
    Color { r: (v % 256) as u8, g: ((v / 256) % 256) as u8, b: ((v / 65536) % 256) as u8 }
}

/// Packing then unpacking a color is the identity, and packed values lie in
/// `[0, 16777216)`.
pub proof fn lemma_pack_unpack(c: Color)
    ensures
        0 <= pack_color(c) < 16777216,
        unpack_color(pack_color(c)) == c,
{
    let v = pack_color(c) as int;
    vstd::arithmetic::div_mod::lemma_fundamental_div_mod_converse(
        v,
        256,
        c.g as int + 256 * c.b as int,
        c.r as int,
    );
    vstd::arithmetic::div_mod::lemma_fundamental_div_mod_converse(
        c.g as int + 256 * c.b as int,
        256,
        c.b as int,
        c.g as int,
    );
    vstd::arithmetic::div_mod::lemma_fundamental_div_mod_converse(
        v,
        65536,
        c.b as int,
        c.r as int + 256 * c.g as int,
    );
    vstd::arithmetic::div_mod::lemma_small_mod((c.b as int) as nat, 256);
}

/// The tagged record of a node.
pub open spec fn encode_node(n: NodeV) -> RecV {
    match n {
        NodeV::Sphere { center, radius, color } => RecV {
            tag: "sphere"@,
            vals: seq![center.x, center.y, center.z, radius, pack_color(color)],
        },
        NodeV::HeightField { x0, z0, cells_x, cells_z, elevs, colors } => RecV {
            tag: "height_field"@,
            vals: seq![x0, z0, cells_x as i64, cells_z as i64] + elevs + colors.map_values(
                |c: Color| pack_color(c),
            ),
        },
    }
}

/// Result of decoding one record.
pub enum DecodeRes {
    Node(NodeV),
    UnknownTag,
    Malformed,
}

/// Decodes a height-field record; any shape or bound violation is malformed.
pub open spec fn decode_height_field(r: RecV) -> DecodeRes {
    if r.vals.len() >= 4 {
        let x0 = r.vals[0];
        let z0 = r.vals[1];
        let cx = r.vals[2];
        let cz = r.vals[3];
        if 0 <= cx <= CELLS_MAX && 0 <= cz <= CELLS_MAX && r.vals.len() == 4 + 2 * (cx * cz)
            && -POS_MAX <= x0 && x0 + cx * FP <= POS_MAX && -POS_MAX <= z0 && z0 + cz * FP
            <= POS_MAX && (forall|k: int|
            4 <= k < 4 + cx * cz ==> -POS_MAX <= #[trigger] r.vals[k] <= POS_MAX) && (forall|
            k: int,
        |
            4 + cx * cz <= k < r.vals.len() ==> 0 <= #[trigger] r.vals[k] < 16777216) {
            DecodeRes::Node(
                NodeV::HeightField {
                    x0,
                    z0,
                    cells_x: cx as usize,
                    cells_z: cz as usize,
                    elevs: r.vals.subrange(4, 4 + cx * cz),
                    colors: r.vals.subrange(4 + cx * cz, r.vals.len() as int).map_values(
                        |v: i64| unpack_color(v),
                    ),
                },
            )
        } else {
            DecodeRes::Malformed
        }
    } else {
        DecodeRes::Malformed
    }
}

/// Decodes one record by its discriminant: an unknown discriminant is an
/// error of its own kind, never silently skipped.
pub open spec fn decode_node(r: RecV) -> DecodeRes {
    if r.tag == "sphere"@ {
        if r.vals.len() == 5 && crate::math::vec3_in_range(
            Vec3 { x: r.vals[0], y: r.vals[1], z: r.vals[2] },
            POS_MAX,
        ) && 0 < r.vals[3] <= RAD_MAX && 0 <= r.vals[4] < 16777216 {
            DecodeRes::Node(
                NodeV::Sphere {
                    center: Vec3 { x: r.vals[0], y: r.vals[1], z: r.vals[2] },
                    radius: r.vals[3],
                    color: unpack_color(r.vals[4]),
                },
            )
        } else {
            DecodeRes::Malformed
        }
    } else if r.tag == "height_field"@ {
        decode_height_field(r)
    } else {
        DecodeRes::UnknownTag
    }
}

/// Result of decoding a record list.
pub enum LoadNodes {
    Nodes(Seq<NodeV>),
    UnknownTag(int),
    Malformed(int),
}

/// Decodes records from position `i` on; the first failing record decides,
/// and its absolute position is reported.
pub open spec fn load_nodes_from(recs: Seq<RecV>, i: int) -> LoadNodes
    decreases recs.len() - i,
{
    if i < 0 || i >= recs.len() {
        LoadNodes::Nodes(Seq::empty())
    } else {
        match decode_node(recs[i]) {
            DecodeRes::Node(n) => match load_nodes_from(recs, i + 1) {
                LoadNodes::Nodes(rest) => LoadNodes::Nodes(seq![n] + rest),
                LoadNodes::UnknownTag(j) => LoadNodes::UnknownTag(j),
                LoadNodes::Malformed(j) => LoadNodes::Malformed(j),
            },
            DecodeRes::UnknownTag => LoadNodes::UnknownTag(i),
            DecodeRes::Malformed => LoadNodes::Malformed(i),
        }
    }
}

/// Result of loading a document.
pub enum LoadRes {
    Loaded(ConfigV),
    UnknownTag(int),
    Malformed(int),
    BadCamera,
}

/// Loading a document: validate the camera, then decode every record in
/// order.
pub open spec fn load_spec(d: DocV) -> LoadRes {
    if !d.camera.wf() {
        LoadRes::BadCamera
    } else {
        match load_nodes_from(d.recs, 0) {
            LoadNodes::Nodes(nodes) => LoadRes::Loaded(ConfigV { camera: d.camera, nodes }),
            LoadNodes::UnknownTag(i) => LoadRes::UnknownTag(i),
            LoadNodes::Malformed(i) => LoadRes::Malformed(i),
        }
    }
}

/// Saving a scene: its camera and one tagged record per node, in order.
pub open spec fn save_spec(cv: ConfigV) -> DocV {
    DocV { camera: cv.camera, recs: cv.nodes.map_values(|n: NodeV| encode_node(n)) }
}

/// Decoding the record of a valid node yields the node back.
pub proof fn lemma_decode_encode(n: NodeV)
    requires
        node_wf_v(n),
    ensures
        decode_node(encode_node(n)) == DecodeRes::Node(n),
{
    reveal_strlit("sphere");
    reveal_strlit("height_field");
    match n {
        NodeV::Sphere { center, radius, color } => {
            lemma_pack_unpack(color);
        },
        NodeV::HeightField { x0, z0, cells_x, cells_z, elevs, colors } => {
            let r = encode_node(n);
            assert("sphere"@.len() == 6);
            assert("height_field"@.len() == 12);
            assert(r.tag != "sphere"@);
            let packed = colors.map_values(|c: Color| pack_color(c));
            let nn = cells_x * cells_z;
            assert(r.vals.len() == 4 + 2 * nn);
            assert(r.vals[2] == cells_x as i64 && r.vals[3] == cells_z as i64);
            assert forall|k: int| 4 <= k < 4 + nn implies -POS_MAX <= #[trigger] r.vals[k]
                <= POS_MAX by {
                assert(r.vals[k] == elevs[k - 4]);
            }
            assert forall|k: int| 4 + nn <= k < r.vals.len() implies 0 <= #[trigger] r.vals[k]
                < 16777216 by {
                assert(r.vals[k] == packed[k - 4 - nn]);
                lemma_pack_unpack(colors[k - 4 - nn]);
            }
            match decode_height_field(r) {
                DecodeRes::Node(m) => {
                    match m {
                        NodeV::HeightField {
                            x0: x0b,
                            z0: z0b,
                            cells_x: cxb,
                            cells_z: czb,
                            elevs: eb,
                            colors: cb,
                        } => {
                            assert forall|k: int| 0 <= k < nn implies eb[k] == elevs[k] by {
                                assert(r.vals[k + 4] == elevs[k]);
                            }
                            assert(eb =~= elevs);
                            assert forall|k: int| 0 <= k < nn implies cb[k] == colors[k] by {
                                assert(r.vals[k + 4 + nn] == packed[k]);
                                assert(packed[k] == pack_color(colors[k]));
                                lemma_pack_unpack(colors[k]);
                            }
                            assert(cb =~= colors);
                        },
                        _ => {
                            assert(false);
                        },
                    }
                },
                _ => {
                    assert(false);
                },
            }
        },
    }
}

/// Loading the records of a valid node list from position `i` yields the
/// list's tail from `i`.
pub proof fn lemma_load_encoded(nodes: Seq<NodeV>, i: int)
    requires
        0 <= i <= nodes.len(),
        forall|k: int| 0 <= k < nodes.len() ==> node_wf_v(#[trigger] nodes[k]),
    ensures
        load_nodes_from(nodes.map_values(|n: NodeV| encode_node(n)), i) == LoadNodes::Nodes(
            nodes.subrange(i, nodes.len() as int),
        ),
    decreases nodes.len() - i,
{
    let recs = nodes.map_values(|n: NodeV| encode_node(n));
    if i == nodes.len() {
        assert(nodes.subrange(i, nodes.len() as int) =~= Seq::<NodeV>::empty());
    } else {
        lemma_decode_encode(nodes[i]);
        lemma_load_encoded(nodes, i + 1);
        assert(seq![nodes[i]] + nodes.subrange(i + 1, nodes.len() as int) =~= nodes.subrange(
            i,
            nodes.len() as int,
        ));
    }
}

/// The round-trip law: saving any valid scene and loading the document back
/// yields exactly the scene, for every node type, any node order, empty node
/// lists and all boundary parameter values within the bounds.
pub proof fn lemma_config_round_trip(cv: ConfigV)
    requires
        config_wf_v(cv),
    ensures
        load_spec(save_spec(cv)) == LoadRes::Loaded(cv),
{
    lemma_load_encoded(cv.nodes, 0);
    assert(cv.nodes.subrange(0, cv.nodes.len() as int) =~= cv.nodes);
}


/// Packs a color; exactly `pack_color`.
fn pack_color_x(c: Color) -> (v: i64)
    ensures
        v == pack_color(c),
{
    (c.r as i64) + 256 * (c.g as i64) + 65536 * (c.b as i64)
}

/// Unpacks a packed color; exactly `unpack_color`.
fn unpack_color_x(v: i64) -> (c: Color)
    requires
        0 <= v < 16777216,
    ensures
        c == unpack_color(v),
{
    let u = v as u64;
    Color { r: (u % 256) as u8, g: ((u / 256) % 256) as u8, b: ((u / 65536) % 256) as u8 }
}

/// Encodes one node as its tagged record; exactly `encode_node`.
fn encode_rec(n: &NodeCfg) -> (r: Record)
    requires
        n.wf(),
    ensures
        rec_view(r) == encode_node(node_view(*n)),
{
    match n {
        NodeCfg::Sphere { center, radius, color } => {
            let vals = vec![center.x, center.y, center.z, *radius, pack_color_x(*color)];
            proof {
                assert(vals@ =~= seq![
                    center.x,
                    center.y,
                    center.z,
                    *radius,
                    pack_color(*color),
                ]);
            }
            Record { tag: "sphere".to_owned(), vals }
        },
        NodeCfg::HeightField { x0, z0, cells_x, cells_z, elevs, colors } => {
            let ghost hdr: Seq<i64> = seq![*x0, *z0, *cells_x as i64, *cells_z as i64];
            let mut vals: Vec<i64> = Vec::new();
            vals.push(*x0);
            vals.push(*z0);
            vals.push(*cells_x as i64);
            vals.push(*cells_z as i64);
            proof {
                assert(vals@ =~= hdr);
            }
            let mut k: usize = 0;
            while k < elevs.len()
                invariant
                    k <= elevs@.len(),
                    vals@ =~= hdr + elevs@.subrange(0, k as int),
                decreases elevs@.len() - k,
            {
                vals.push(elevs[k]);
                proof {
                    assert(vals@ =~= hdr + elevs@.subrange(0, k + 1 as int));
                }
                k = k + 1;
            }
            proof {
                assert(elevs@.subrange(0, elevs@.len() as int) =~= elevs@);
            }
            let ghost packed = colors@.map_values(|c: Color| pack_color(c));
            let mut k2: usize = 0;
            while k2 < colors.len()
                invariant
                    k2 <= colors@.len(),
                    packed == colors@.map_values(|c: Color| pack_color(c)),
                    vals@ =~= hdr + elevs@ + packed.subrange(0, k2 as int),
                decreases colors@.len() - k2,
            {
                vals.push(pack_color_x(colors[k2]));
                proof {
                    assert(packed[k2 as int] == pack_color(colors@[k2 as int]));
                    assert(vals@ =~= hdr + elevs@ + packed.subrange(0, k2 + 1 as int));
                }
                k2 = k2 + 1;
            }
            proof {
                assert(packed.subrange(0, colors@.len() as int) =~= packed);
                assert(vals@ =~= hdr + elevs@ + packed);
            }
            Record { tag: "height_field".to_owned(), vals }
        },
    }
}


/// Saves a scene as a document: the camera and one tagged record per node,
/// in node order; exactly `save_spec` of the scene's view.
pub fn save(c: &Config) -> (d: Doc)
    requires
        c.wf(),
    ensures
        doc_view(d) == save_spec(config_view(*c)),
{
    let mut records: Vec<Record> = Vec::new();
    let mut k: usize = 0;
    while k < c.nodes.len()
        invariant
            c.wf(),
            k <= c.nodes@.len(),
            records@.len() == k,
            forall|i: int|
                0 <= i < k ==> rec_view(#[trigger] records@[i]) == encode_node(
                    node_view(c.nodes@[i]),
                ),
        decreases c.nodes@.len() - k,
    {
        proof {
            assert(config_view(*c).nodes[k as int] == node_view(c.nodes@[k as int]));
        }
        let r = encode_rec(&c.nodes[k]);
        records.push(r);
        k = k + 1;
    }
    let d = Doc { camera: c.camera, records };
    proof {
        assert(doc_view(d).recs =~= save_spec(config_view(*c)).recs);
    }
    d
}

/// Decodes one record into a node, reporting failures with the record's
/// position; exactly `decode_node` of the record's view, and a decoded node
/// is valid.
fn decode_rec(r: &Record, index: usize) -> (res: Result<NodeCfg, Error>)
    ensures
        match decode_node(rec_view(*r)) {
            DecodeRes::Node(n) => res is Ok && node_view(res->Ok_0) == n && res->Ok_0.wf(),
            DecodeRes::UnknownTag => (res matches Err(Error::UnknownNodeTag { index: i, tag })
                && i == index && tag@ == r.tag@),
            DecodeRes::Malformed => (res matches Err(Error::MalformedNode { index: i }) && i
                == index),
        },
{
    let sphere_tag: String = "sphere".to_owned();
    let hf_tag: String = "height_field".to_owned();
    if r.tag == sphere_tag {
        if r.vals.len() == 5 {
            let cx = r.vals[0];
            let cy = r.vals[1];
            let cz = r.vals[2];
            let rad = r.vals[3];
            let pc = r.vals[4];
            if -POS_MAX <= cx && cx <= POS_MAX && -POS_MAX <= cy && cy <= POS_MAX && -POS_MAX <= cz
                && cz <= POS_MAX && 0 < rad && rad <= RAD_MAX && 0 <= pc && pc < 16777216 {
                return Ok(
                    NodeCfg::Sphere {
                        center: Vec3 { x: cx, y: cy, z: cz },
                        radius: rad,
                        color: unpack_color_x(pc),
                    },
                );
            }
        }
        Err(Error::MalformedNode { index })
    } else if r.tag == hf_tag {
        if r.vals.len() < 4 {
            return Err(Error::MalformedNode { index });
        }
        let x0 = r.vals[0];
        let z0 = r.vals[1];
        let cxl = r.vals[2];
        let czl = r.vals[3];
        if !(0 <= cxl && cxl <= 8192 && 0 <= czl && czl <= 8192) {
            return Err(Error::MalformedNode { index });
        }
        let cxu = cxl as usize;
        let czu = czl as usize;
        proof {
            lemma_mul_bound(cxu as int, czu as int, 8192, 8192);
        }
        let n: usize = cxu * czu;
        if r.vals.len() != 4 + 2 * n {
            return Err(Error::MalformedNode { index });
        }
        if !(-POS_MAX <= x0 && x0 <= POS_MAX && x0 + cxl * 1024 <= POS_MAX && -POS_MAX <= z0
            && z0 <= POS_MAX && z0 + czl * 1024 <= POS_MAX) {
            return Err(Error::MalformedNode { index });
        }
        let mut elevs: Vec<i64> = Vec::new();
        let mut k: usize = 0;
        while k < n
            invariant
                r.tag@ == "height_field"@,
                n == cxu * czu,
                n <= 67108864,
                cxu <= 8192,
                czu <= 8192,
                cxu as i64 == r.vals@[2],
                czu as i64 == r.vals@[3],
                r.vals@.len() == 4 + 2 * n,
                k <= n,
                elevs@ =~= r.vals@.subrange(4, 4 + k as int),
                forall|j: int| 4 <= j < 4 + k ==> -POS_MAX <= #[trigger] r.vals@[j] <= POS_MAX,
            decreases n - k,
        {
            let e = r.vals[4 + k];
            if e < -POS_MAX || e > POS_MAX {
                proof {
                    assert((rec_view(*r).vals[2] as int) * (rec_view(*r).vals[3] as int)
                        == n as int);
                    assert(!(-POS_MAX <= r.vals@[4 + k as int] <= POS_MAX));
                }
                return Err(Error::MalformedNode { index });
            }
            elevs.push(e);
            proof {
                assert(elevs@ =~= r.vals@.subrange(4, 4 + (k + 1) as int));
            }
            k = k + 1;
        }
        let ghost unpacked = r.vals@.subrange(4 + n as int, r.vals@.len() as int).map_values(
            |v: i64| unpack_color(v),
        );
        let mut colors: Vec<Color> = Vec::new();
        let mut k2: usize = 0;
        while k2 < n
            invariant
                r.tag@ == "height_field"@,
                n == cxu * czu,
                n <= 67108864,
                cxu <= 8192,
                czu <= 8192,
                cxu as i64 == r.vals@[2],
                czu as i64 == r.vals@[3],
                x0 == r.vals@[0],
                z0 == r.vals@[1],
                -POS_MAX <= x0,
                x0 + cxu * 1024 <= POS_MAX,
                -POS_MAX <= z0,
                z0 + czu * 1024 <= POS_MAX,
                r.vals@.len() == 4 + 2 * n,
                elevs@ =~= r.vals@.subrange(4, 4 + n as int),
                forall|j: int| 4 <= j < 4 + n ==> -POS_MAX <= #[trigger] r.vals@[j] <= POS_MAX,
                unpacked == r.vals@.subrange(4 + n as int, r.vals@.len() as int).map_values(
                    |v: i64| unpack_color(v),
                ),
                k2 <= n,
                colors@.len() == k2,
                forall|j: int|
                    0 <= j < k2 ==> #[trigger] colors@[j] == unpack_color(r.vals@[4 + n + j]),
                forall|j: int| 4 + n <= j < 4 + n + k2 ==> 0 <= #[trigger] r.vals@[j] < 16777216,
            decreases n - k2,
        {
            let v = r.vals[4 + n + k2];
            if v < 0 || v >= 16777216 {
                proof {
                    assert((rec_view(*r).vals[2] as int) * (rec_view(*r).vals[3] as int)
                        == n as int);
                    assert(!(0 <= r.vals@[4 + n + k2 as int] < 16777216));
                }
                return Err(Error::MalformedNode { index });
            }
            colors.push(unpack_color_x(v));
            k2 = k2 + 1;
        }
        let node = NodeCfg::HeightField { x0, z0, cells_x: cxu, cells_z: czu, elevs, colors };
        proof {
            let rv = rec_view(*r);
            let nn = (rv.vals[2] as int) * (rv.vals[3] as int);
            assert(nn == n as int);
            assert(node_view(node) matches NodeV::HeightField { elevs: ev, colors: cv2, .. }
                ==> true);
            assert(elevs@ =~= rv.vals.subrange(4, 4 + nn));
            assert forall|j: int| 0 <= j < n implies colors@[j] == unpacked[j] by {
                assert(unpacked[j] == unpack_color(rv.vals[4 + n + j]));
            }
            assert(colors@ =~= unpacked);
        }
        Ok(node)
    } else {
        Err(Error::UnknownNodeTag { index, tag: r.tag.clone() })
    }
}

/// Relates the whole decode to a decoded prefix: once records before `k`
/// decode to `nodes`, the rest decides the result.
proof fn lemma_load_split(recs: Seq<RecV>, nodes: Seq<NodeV>, j: int, k: int)
    requires
        0 <= j <= k <= recs.len(),
        nodes.len() == k,
        forall|i: int| 0 <= i < k ==> decode_node(#[trigger] recs[i]) == DecodeRes::Node(nodes[i]),
    ensures
        load_nodes_from(recs, j) == (match load_nodes_from(recs, k) {
            LoadNodes::Nodes(rest) => LoadNodes::Nodes(nodes.subrange(j, k) + rest),
            LoadNodes::UnknownTag(i) => LoadNodes::UnknownTag(i),
            LoadNodes::Malformed(i) => LoadNodes::Malformed(i),
        }),
    decreases k - j,
{
    if j == k {
        match load_nodes_from(recs, k) {
            LoadNodes::Nodes(rest) => {
                assert(nodes.subrange(j, k) + rest =~= rest);
            },
            _ => {},
        }
    } else {
        lemma_load_split(recs, nodes, j + 1, k);
        match load_nodes_from(recs, k) {
            LoadNodes::Nodes(rest) => {
                assert(seq![nodes[j]] + (nodes.subrange(j + 1, k) + rest) =~= nodes.subrange(j, k)
                    + rest);
            },
            _ => {},
        }
    }
}

/// Loads a document into a scene: validates the camera, then decodes every
/// record in order; the first failure aborts the load with the failing
/// record's position. Exactly `load_spec`, and a loaded scene is valid.
pub fn load(d: &Doc) -> (res: Result<Config, Error>)
    ensures
        match load_spec(doc_view(*d)) {
            LoadRes::Loaded(cv) => res is Ok && config_view(res->Ok_0) == cv && res->Ok_0.wf(),
            LoadRes::UnknownTag(i) => (res matches Err(Error::UnknownNodeTag { index, tag })
                && index == i && tag@ == d.records@[i].tag@),
            LoadRes::Malformed(i) => (res matches Err(Error::MalformedNode { index }) && index
                == i),
            LoadRes::BadCamera => res matches Err(Error::MalformedCamera),
        },
        res is Ok ==> res->Ok_0.wf(),
{
    if !d.camera.check_wf() {
        return Err(Error::MalformedCamera);
    }
    let ghost recs = doc_view(*d).recs;
    let mut nodes: Vec<NodeCfg> = Vec::new();
    let mut k: usize = 0;
    while k < d.records.len()
        invariant
            d.camera.wf(),
            recs == doc_view(*d).recs,
            recs.len() == d.records@.len(),
            k <= d.records@.len(),
            nodes@.len() == k,
            forall|i: int|
                0 <= i < k ==> decode_node(#[trigger] recs[i]) == DecodeRes::Node(
                    node_view(nodes@[i]),
                ),
            forall|i: int| 0 <= i < k ==> (#[trigger] nodes@[i]).wf(),
        decreases d.records@.len() - k,
    {
        proof {
            assert(recs[k as int] == rec_view(d.records@[k as int]));
        }
        let dr = decode_rec(&d.records[k], k);
        match dr {
            Ok(node) => {
                nodes.push(node);
            },
            Err(e) => {
                proof {
                    lemma_load_split(recs, nodes@.map_values(|n: NodeCfg| node_view(n)), 0, k as int);
                }
                return Err(e);
            },
        }
        k = k + 1;
    }
    proof {
        lemma_load_split(recs, nodes@.map_values(|n: NodeCfg| node_view(n)), 0, recs.len() as int);
        assert(nodes@.map_values(|n: NodeCfg| node_view(n)).subrange(0, recs.len() as int)
            + Seq::<NodeV>::empty() =~= nodes@.map_values(|n: NodeCfg| node_view(n)));
    }
    let c = Config { camera: d.camera, nodes };
    proof {
        assert(config_view(c).nodes =~= c.nodes@.map_values(|n: NodeCfg| node_view(n)));
        assert forall|i: int| 0 <= i < config_view(c).nodes.len() implies node_wf_v(
            #[trigger] config_view(c).nodes[i],
        ) by {
            assert(config_view(c).nodes[i] == node_view(c.nodes@[i]));
        }
    }
    Ok(c)
}


/// The height-field cell at grid position `k` (row-major) of a field rooted
/// at `(x0, z0)`: a unit cell.
pub open spec fn cell_prim(x0: i64, z0: i64, cells_x: usize, elev: i64, color: Color, k: int) -> Primitive {
    Primitive::HeightCell {
        x0: (x0 + (k % cells_x as int) * FP) as i64,
        x1: (x0 + (k % cells_x as int + 1) * FP) as i64,
        z0: (z0 + (k / cells_x as int) * FP) as i64,
        z1: (z0 + (k / cells_x as int + 1) * FP) as i64,
        elev,
        material: Material { color },
    }
}

/// The primitives a node denotes: the sphere itself, or one unit cell per
/// grid entry of a height field.
pub open spec fn prims_of_node(n: NodeV) -> Seq<Primitive> {
    match n {
        NodeV::Sphere { center, radius, color } => seq![
            Primitive::Sphere { center, radius, material: Material { color } },
        ],
        NodeV::HeightField { x0, z0, cells_x, cells_z, elevs, colors } => Seq::new(
            (cells_x * cells_z) as nat,
            |k: int| cell_prim(x0, z0, cells_x, elevs[k], colors[k], k),
        ),
    }
}

/// The primitives of a node list, in node order.
pub open spec fn prims_of_nodes(nodes: Seq<NodeV>) -> Seq<Primitive>
    decreases nodes.len(),
{
    if nodes.len() == 0 {
        Seq::empty()
    } else {
        prims_of_nodes(nodes.drop_last()) + prims_of_node(nodes.last())
    }
}

/// The primitives of a scene.
pub open spec fn prims_of(cv: ConfigV) -> Seq<Primitive> {
    prims_of_nodes(cv.nodes)
}

/// Appends the primitives of one node; its cells are laid out row-major.
fn append_node_prims(prims: &mut Vec<Primitive>, node: &NodeCfg)
    requires
        node.wf(),
        prims_wf(old(prims)@),
    ensures
        final(prims)@ == old(prims)@ + prims_of_node(node_view(*node)),
        prims_wf(final(prims)@),
{
    let ghost base = old(prims)@;
    match node {
        NodeCfg::Sphere { center, radius, color } => {
            prims.push(
                Primitive::Sphere {
                    center: *center,
                    radius: *radius,
                    material: Material { color: *color },
                },
            );
            proof {
                assert(prims@ =~= base + prims_of_node(node_view(*node)));
                assert forall|i: int| 0 <= i < prims@.len() implies prim_wf(#[trigger] prims@[i]) by {}
            }
        },
        NodeCfg::HeightField { x0, z0, cells_x, cells_z, elevs, colors } => {
            proof {
                lemma_mul_bound(*cells_x as int, *cells_z as int, 8192, 8192);
            }
            let n: usize = *cells_x * *cells_z;
            let ghost cells = prims_of_node(node_view(*node));
            let mut k: usize = 0;
            while k < n
                invariant
                    node.wf(),
                    (node matches NodeCfg::HeightField {
                        x0: x0b,
                        z0: z0b,
                        cells_x: cxb,
                        cells_z: czb,
                        elevs: eb,
                        colors: cb,
                    } && x0b == x0 && z0b == z0 && cxb == cells_x && czb == cells_z && eb@
                        == elevs@ && cb@ == colors@),
                    n == *cells_x * *cells_z,
                    n <= 67108864,
                    cells == prims_of_node(node_view(*node)),
                    cells.len() == n,
                    elevs@.len() == n,
                    colors@.len() == n,
                    k <= n,
                    prims@.len() == base.len() + k,
                    forall|i: int| 0 <= i < base.len() ==> #[trigger] prims@[i] == base[i],
                    forall|i: int|
                        base.len() <= i < prims@.len() ==> #[trigger] prims@[i] == cells[i
                            - base.len()],
                    prims_wf(prims@),
                decreases n - k,
            {
                proof {
                    assert(*cells_x > 0) by {
                        if *cells_x == 0 {
                            assert(*cells_x * *cells_z == 0) by (nonlinear_arith)
                                requires
                                    *cells_x == 0,
                            ;
                        }
                    }
                }
                let i = k % *cells_x;
                let j = k / *cells_x;
                proof {
                    vstd::arithmetic::div_mod::lemma_multiply_divide_lt(
                        k as int,
                        *cells_x as int,
                        *cells_z as int,
                    );
                    assert((i as int + 1) * FP <= *cells_x as int * FP && (j as int + 1) * FP
                        <= *cells_z as int * FP) by (nonlinear_arith)
                        requires
                            i as int + 1 <= *cells_x as int,
                            j as int + 1 <= *cells_z as int,
                            FP == 1024,
                    ;
                }
                let cx0: i64 = *x0 + (i as i64) * FP;
                let cx1: i64 = *x0 + ((i as i64) + 1) * FP;
                let cz0: i64 = *z0 + (j as i64) * FP;
                let cz1: i64 = *z0 + ((j as i64) + 1) * FP;
                proof {
                    assert((i as int) * FP >= 0 && (j as int) * FP >= 0 && (i as int) * FP < (
                    i as int + 1) * FP && (j as int) * FP < (j as int + 1) * FP)
                        by (nonlinear_arith)
                        requires
                            i >= 0,
                            j >= 0,
                            FP == 1024,
                    ;
                }
                let p = Primitive::HeightCell {
                    x0: cx0,
                    x1: cx1,
                    z0: cz0,
                    z1: cz1,
                    elev: elevs[k],
                    material: Material { color: colors[k] },
                };
                prims.push(p);
                proof {
                    assert(cells[k as int] == cell_prim(
                        *x0,
                        *z0,
                        *cells_x,
                        elevs@[k as int],
                        colors@[k as int],
                        k as int,
                    ));
                    assert(p == cells[k as int]);
                    assert forall|ii: int| 0 <= ii < prims@.len() implies prim_wf(
                        #[trigger] prims@[ii],
                    ) by {}
                }
                k = k + 1;
            }
            proof {
                assert(prims@ =~= base + cells);
            }
        },
    }
}

/// Converts a scene into its runtime form: expands the nodes into primitives
/// in order, builds the index over them, and hands back the camera. This is
/// the single point where the declarative description becomes the runtime
/// model; it is side-effect free and a function of the scene alone.
pub fn into_world(c: &Config) -> (out: (World, Camera))
    requires
        c.wf(),
    ensures
        out.0.wf(),
        out.0.prims@ == prims_of(config_view(*c)),
        out.1 == c.camera,
{
    let ghost nv = config_view(*c).nodes;
    let mut prims: Vec<Primitive> = Vec::new();
    let mut k: usize = 0;
    while k < c.nodes.len()
        invariant
            c.wf(),
            nv == config_view(*c).nodes,
            nv.len() == c.nodes@.len(),
            k <= c.nodes@.len(),
            prims@ == prims_of_nodes(nv.subrange(0, k as int)),
            prims_wf(prims@),
        decreases c.nodes@.len() - k,
    {
        proof {
            assert(nv[k as int] == node_view(c.nodes@[k as int]));
        }
        append_node_prims(&mut prims, &c.nodes[k]);
        proof {
            assert(nv.subrange(0, k + 1 as int).drop_last() =~= nv.subrange(0, k as int));
            assert(nv.subrange(0, k + 1 as int).last() == nv[k as int]);
        }
        k = k + 1;
    }
    proof {
        assert(nv.subrange(0, nv.len() as int) =~= nv);
    }
    let w = World::new(prims);
    (w, c.camera)
}

} // verus!
