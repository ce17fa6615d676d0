//! Synthetic `.vox` files, written from code.
//!
//! Tests and the `--write-fixtures` flag both use these so that nothing
//! depends on having MagicaVoxel installed. Serialisation goes through
//! `dot_vox`'s own writer, which keeps the fixtures honest: they are real files
//! with real chunk headers, not hand-rolled approximations.

use vstd::prelude::*;

use crate::geom::{IVec3, UVec3};
use crate::model::{Model, ModelView, Voxel};
use crate::palette;
use crate::palette::Color;
use crate::scene;
use crate::scene::{frame_dict, Frame, FrameView, NodeView, SceneNode};
use crate::voxfile;
use crate::voxfile::VoxFile;

verus! {

/// Whether a palette is MagicaVoxel's own, colour by colour.
pub open spec fn is_stock(colors: Seq<Color>) -> bool {
    &&& colors.len() == 256
    &&& forall|i: int|
        0 <= i < 256 ==> palette::color_bytes(#[trigger] colors[i]) == palette::default_colors()[i]
}

/// `dot_vox::DEFAULT_PALETTE`, the 256 colours it gives a file without any:
/// MagicaVoxel's default palette.
#[verifier::external_body]
fn stock_palette() -> (r: Vec<Color>)
    ensures
        is_stock(r@),
{
    dot_vox::DEFAULT_PALETTE.iter().map(|c| Color { r: c.r, g: c.g, b: c.b, a: c.a }).collect()
}

/// A file of some models and nothing else but a palette.
fn base(models: Vec<Model>) -> (f: VoxFile)
    ensures
        f.version == 150,
        f.models == models,
        is_stock(f.palette@),
        f.materials@.len() == 0,
        f.nodes@.len() == 0,
        f.hidden_layers@.len() == 0,
{
    VoxFile {
        version: 150,
        models,
        palette: stock_palette(),
        materials: Vec::new(),
        nodes: Vec::new(),
        hidden_layers: Vec::new(),
    }
}

/// Whether a file has the stock palette, these models, and no scene graph.
pub open spec fn plain_file(f: VoxFile, models: Seq<ModelView>) -> bool {
    &&& f@.version == 150
    &&& f@.models == models
    &&& is_stock(f@.palette)
    &&& f@.materials.len() == 0
    &&& f@.nodes.len() == 0
    &&& f@.hidden_layers.len() == 0
}

// ---- a solid cube ---------------------------------------------------------
/// The voxels of a cube of one colour, layer by layer.
pub open spec fn cube_voxels(n: nat) -> Seq<Voxel> {
    Seq::new(
        n,
        |k: int|
            Voxel { x: (k % 4) as u8, y: (k / 4 % 4) as u8, z: (k / 16) as u8, i: 78 },
    )
}

/// A solid 4x4x4 cube of one colour, with no scene graph.
pub fn single_cube() -> (f: VoxFile)
    ensures
        plain_file(
            f,
            seq![ModelView { size: UVec3 { x: 4, y: 4, z: 4 }, voxels: cube_voxels(64) }],
        ),
        voxfile::writable(f@),
{
    let mut voxels: Vec<Voxel> = Vec::new();
    let mut k: u8 = 0;
    while k < 64
        invariant
            k <= 64,
            voxels@ == cube_voxels(k as nat),
        decreases 64 - k,
    {
        voxels.push(Voxel { x: k % 4, y: k / 4 % 4, z: k / 16, i: 78 });
        assert(voxels@ =~= cube_voxels(k as nat + 1));
        k += 1;
    }
    let mut models: Vec<Model> = Vec::new();
    models.push(Model { size: UVec3::splat(4), voxels });
    let f = base(models);
    proof {
        assert(f@.models =~= seq![
            ModelView { size: UVec3 { x: 4, y: 4, z: 4 }, voxels: cube_voxels(64) },
        ]);
        lemma_small_file(f@);
    }
    f
}

proof fn lemma_small_file(f: voxfile::VoxFileView)
    requires
        f.models.len() == 1,
        f.models[0].voxels.len() <= 1000,
        f.palette.len() == 256,
        f.materials.len() == 0,
        f.nodes.len() == 0,
        f.hidden_layers.len() == 0,
    ensures
        voxfile::file_room(f) <= u32::MAX,
{
    reveal_with_fuel(voxfile::models_room, 2);
}

// ---- a checkerboard -------------------------------------------------------
/// The `k`-th cell of the board, layer by layer.
pub open spec fn checker_cell(k: int) -> (int, int, int) {
    (k % 8, k / 8 % 8, k / 64)
}

/// Whether the cell is filled.
pub open spec fn checker_filled(k: int) -> bool {
    let (x, y, z) = checker_cell(k);
    (x + y + z) % 2 == 0
}

/// The voxel of a filled cell, in one of two palette entries.
pub open spec fn checker_voxel(k: int) -> Voxel {
    let (x, y, z) = checker_cell(k);
    Voxel {
        x: x as u8,
        y: y as u8,
        z: z as u8,
        i: if (x / 2 + y / 2) % 2 == 0 {
            215
        } else {
            79
        },
    }
}

/// The voxels among the first `n` cells.
pub open spec fn checker_voxels(n: int) -> Seq<Voxel>
    decreases n,
{
    if n <= 0 {
        Seq::empty()
    } else if checker_filled(n - 1) {
        checker_voxels(n - 1).push(checker_voxel(n - 1))
    } else {
        checker_voxels(n - 1)
    }
}

/// An 8x8x8 checkerboard: the worst case for greedy merging, and an easy way
/// to eyeball whether palette indices are being read correctly.
pub fn checkerboard_8() -> (f: VoxFile)
    ensures
        plain_file(
            f,
            seq![ModelView { size: UVec3 { x: 8, y: 8, z: 8 }, voxels: checker_voxels(512) }],
        ),
        voxfile::writable(f@),
{
    let mut voxels: Vec<Voxel> = Vec::new();
    let mut k: u32 = 0;
    while k < 512
        invariant
            k <= 512,
            voxels@ == checker_voxels(k as int),
            voxels@.len() <= k,
            forall|v: int| 0 <= v < voxels@.len() ==> (#[trigger] voxels@[v]).i <= 254,
        decreases 512 - k,
    {
        let (x, y, z): (u32, u32, u32) = (k % 8, k / 8 % 8, k / 64);
        if (x + y + z) % 2 == 0 {
            // Two alternating palette entries so the pattern is visible.
            let i: u8 = if (x / 2 + y / 2) % 2 == 0 { 215 } else { 79 };
            voxels.push(Voxel { x: x as u8, y: y as u8, z: z as u8, i });
        }
        k += 1;
    }
    let mut models: Vec<Model> = Vec::new();
    models.push(Model { size: UVec3::splat(8), voxels });
    let f = base(models);
    proof {
        assert(f@.models =~= seq![
            ModelView { size: UVec3 { x: 8, y: 8, z: 8 }, voxels: checker_voxels(512) },
        ]);
        lemma_small_file(f@);
    }
    f
}

// ---- two models -----------------------------------------------------------
/// Translation used by [`two_models_translated`] for the first model.
pub fn two_models_t0() -> (v: IVec3)
    ensures
        v == (IVec3 { x: 10, y: 0, z: 0 }),
{
    IVec3::new(10, 0, 0)
}

/// Translation used by [`two_models_translated`] for the second model.
pub fn two_models_t1() -> (v: IVec3)
    ensures
        v == (IVec3 { x: (-6) as i32, y: 2, z: 1 }),
{
    IVec3::new(-6, 2, 1)
}

/// The voxels of a 2x2x2 block of one colour.
pub open spec fn block_voxels(n: nat, i: u8) -> Seq<Voxel> {
    Seq::new(
        n,
        |k: int| Voxel { x: (k % 2) as u8, y: (k / 2 % 2) as u8, z: (k / 4 % 2) as u8, i },
    )
}

fn block(i: u8) -> (m: Model)
    ensures
        m@ == (ModelView { size: UVec3 { x: 2, y: 2, z: 2 }, voxels: block_voxels(8, i) }),
{
    let mut voxels: Vec<Voxel> = Vec::new();
    let mut k: u8 = 0;
    while k < 8
        invariant
            k <= 8,
            voxels@ == block_voxels(k as nat, i),
        decreases 8 - k,
    {
        voxels.push(Voxel { x: k % 2, y: k / 2 % 2, z: k / 4 % 2, i });
        assert(voxels@ =~= block_voxels(k as nat + 1, i));
        k += 1;
    }
    Model { size: UVec3::splat(2), voxels }
}

/// The keyframe that moves a node and does not turn it.
pub open spec fn moved(v: IVec3) -> FrameView {
    FrameView { rotation: None, translation: Some(scene::vector_text(v)) }
}

/// A transform node with one keyframe, on the first layer.
pub open spec fn mover(name: Option<Seq<char>>, v: IVec3, child: u32) -> NodeView {
    NodeView::Transform { hidden: None, name, frames: seq![moved(v)], child, layer_id: 0 }
}

fn transform(name: Option<String>, v: IVec3, child: u32) -> (n: SceneNode)
    ensures
        n@ == mover(scene::opt_text(name), v, child),
{
    let mut frames: Vec<Frame> = Vec::new();
    frames.push(frame_dict(v, None));
    assert(frames@.map_values(|f: Frame| f@) =~= seq![moved(v)]);
    SceneNode::Transform { hidden: None, name, frames, child, layer_id: 0 }
}

fn shape(model: u32) -> (n: SceneNode)
    ensures
        n@ == (NodeView::Shape { models: seq![model] }),
{
    let mut models: Vec<u32> = Vec::new();
    models.push(model);
    assert(models@ =~= seq![model]);
    SceneNode::Shape { models }
}

/// The scene graph of [`two_models_translated`]: root `nTRN`, `nGRP`, and two
/// `nTRN` with an `nSHP` each.
pub open spec fn two_model_nodes() -> Seq<NodeView> {
    seq![
        mover(None, IVec3 { x: 0, y: 0, z: 0 }, 1),
        NodeView::Group { children: seq![2u32, 4u32] },
        mover(Some("left"@), IVec3 { x: 10, y: 0, z: 0 }, 3),
        NodeView::Shape { models: seq![0u32] },
        mover(Some("right"@), IVec3 { x: (-6) as i32, y: 2, z: 1 }, 5),
        NodeView::Shape { models: seq![1u32] },
    ]
}

/// Whether a file is the one of [`two_models_translated`]: two blocks, the stock
/// palette, a scene graph that places them, and one visible layer.
pub open spec fn is_two_models(f: VoxFile) -> bool {
    &&& f@.version == 150
    &&& f@.models == seq![
        ModelView { size: UVec3 { x: 2, y: 2, z: 2 }, voxels: block_voxels(8, 78) },
        ModelView { size: UVec3 { x: 2, y: 2, z: 2 }, voxels: block_voxels(8, 215) },
    ]
    &&& is_stock(f@.palette)
    &&& f@.materials.len() == 0
    &&& f@.nodes == two_model_nodes()
    &&& f@.hidden_layers == seq![false]
}

/// Two 2x2x2 models placed apart by a scene graph.
pub fn two_models_translated() -> (f: VoxFile)
    ensures
        is_two_models(f),
        voxfile::writable(f@),
{
    let mut models: Vec<Model> = Vec::new();
    models.push(block(78));
    models.push(block(215));
    let mut f = base(models);
    let mut children: Vec<u32> = Vec::new();
    children.push(2);
    children.push(4);
    assert(children@ =~= seq![2u32, 4u32]);
    f.nodes.push(transform(None, IVec3::new(0, 0, 0), 1));
    f.nodes.push(SceneNode::Group { children });
    f.nodes.push(transform(Some("left".to_owned()), two_models_t0(), 3));
    f.nodes.push(shape(0));
    f.nodes.push(transform(Some("right".to_owned()), two_models_t1(), 5));
    f.nodes.push(shape(1));
    f.hidden_layers.push(false);
    proof {
        assert(f@.models =~= seq![
            ModelView { size: UVec3 { x: 2, y: 2, z: 2 }, voxels: block_voxels(8, 78) },
            ModelView { size: UVec3 { x: 2, y: 2, z: 2 }, voxels: block_voxels(8, 215) },
        ]);
        assert(f@.nodes =~= two_model_nodes());
        assert(f@.hidden_layers =~= seq![false]);
        lemma_two_models_fit(f@);
    }
    f
}

proof fn lemma_coordinate_room(n: int)
    requires
        -100 <= n <= 100,
    ensures
        crate::text::signed(n).len() <= 4,
{
    reveal_with_fuel(crate::text::decimal, 4);
}

proof fn lemma_mover_room(name: Option<Seq<char>>, v: IVec3, child: u32)
    requires
        -100 <= v.x <= 100,
        -100 <= v.y <= 100,
        -100 <= v.z <= 100,
        name matches Some(s) ==> s.len() <= 10,
    ensures
        voxfile::node_room(mover(name, v, child)) <= 300,
{
    lemma_coordinate_room(v.x as int);
    lemma_coordinate_room(v.y as int);
    lemma_coordinate_room(v.z as int);
    let frames = seq![moved(v)];
    assert(frames.drop_last() =~= Seq::empty());
    reveal_with_fuel(voxfile::frames_room, 2);
}

proof fn lemma_two_models_fit(f: voxfile::VoxFileView)
    requires
        f.models.len() == 2,
        f.models[0].voxels.len() == 8,
        f.models[1].voxels.len() == 8,
        f.palette.len() == 256,
        f.materials.len() == 0,
        f.nodes == two_model_nodes(),
        f.hidden_layers.len() == 1,
    ensures
        voxfile::file_room(f) <= u32::MAX,
{
    reveal_with_fuel(voxfile::models_room, 3);
    reveal_with_fuel(voxfile::nodes_room, 7);
    reveal_strlit("left");
    reveal_strlit("right");
    lemma_mover_room(None, IVec3 { x: 0, y: 0, z: 0 }, 1);
    lemma_mover_room(Some("left"@), IVec3 { x: 10, y: 0, z: 0 }, 3);
    lemma_mover_room(Some("right"@), IVec3 { x: (-6) as i32, y: 2, z: 1 }, 5);
}

// ---- all of them ----------------------------------------------------------
/// Serialise one fixture to bytes, which parse as the same file.
pub fn to_bytes(data: &VoxFile) -> (bytes: Vec<u8>)
    requires
        voxfile::writable(data@),
    ensures
        voxfile::vox_parse(bytes@) == Some(data@),
{
    voxfile::write(data)
}

/// Names and contents of every fixture, in the order they are written.
pub fn fixtures() -> (r: Vec<(String, VoxFile)>)
    ensures
        r@.len() == 3,
        r@[0].0@ == "cube.vox"@,
        r@[1].0@ == "checker.vox"@,
        r@[2].0@ == "two_models.vox"@,
        plain_file(
            r@[0].1,
            seq![ModelView { size: UVec3 { x: 4, y: 4, z: 4 }, voxels: cube_voxels(64) }],
        ),
        plain_file(
            r@[1].1,
            seq![ModelView { size: UVec3 { x: 8, y: 8, z: 8 }, voxels: checker_voxels(512) }],
        ),
        is_two_models(r@[2].1),
        forall|i: int| 0 <= i < 3 ==> voxfile::writable((#[trigger] r@[i]).1@),
{
    let mut out: Vec<(String, VoxFile)> = Vec::new();
    out.push(("cube.vox".to_owned(), single_cube()));
    out.push(("checker.vox".to_owned(), checkerboard_8()));
    out.push(("two_models.vox".to_owned(), two_models_translated()));
    out
}

/// The cube has a voxel in each cell of its box, and all of one colour.
pub proof fn lemma_the_cube_is_solid(x: int, y: int, z: int)
    requires
        0 <= x < 4,
        0 <= y < 4,
        0 <= z < 4,
    ensures
        ({
            let v = cube_voxels(64)[x + 4 * y + 16 * z];
            v.x == x && v.y == y && v.z == z && v.i == 78
        }),
{
}

/// The checkerboard has a voxel in every other cell of its box.
pub proof fn lemma_the_checkerboard_alternates(x: int, y: int, z: int, v: Voxel)
    requires
        0 <= x < 8,
        0 <= y < 8,
        0 <= z < 8,
        v.x == x,
        v.y == y,
        v.z == z,
        v.i == (if (x / 2 + y / 2) % 2 == 0 {
            215u8
        } else {
            79u8
        }),
    ensures
        checker_voxels(512).contains(v) <==> (x + y + z) % 2 == 0,
{
    let k = x + 8 * y + 64 * z;
    assert(k % 8 == x && k / 8 % 8 == y && k / 64 == z);
    assert(checker_voxel(k) == v);
    lemma_checker_holds(512, v);
    if (x + y + z) % 2 == 0 {
        assert(checker_filled(k));
    } else if exists|j: int| 0 <= j < 512 && checker_filled(j) && #[trigger] checker_voxel(j) == v {
        let j = choose|j: int|
            0 <= j < 512 && checker_filled(j) && #[trigger] checker_voxel(j) == v;
        assert(j % 8 == x && j / 8 % 8 == y && j / 64 == z);
    }
}

proof fn lemma_checker_holds(n: int, v: Voxel)
    requires
        0 <= n <= 512,
    ensures
        checker_voxels(n).contains(v) <==> exists|j: int|
            0 <= j < n && checker_filled(j) && #[trigger] checker_voxel(j) == v,
    decreases n,
{
    let now = checker_voxels(n);
    if n > 0 {
        lemma_checker_holds(n - 1, v);
        let before = checker_voxels(n - 1);
        if checker_filled(n - 1) {
            assert(now[before.len() as int] == checker_voxel(n - 1));
            if before.contains(v) {
                let k = choose|k: int| 0 <= k < before.len() && before[k] == v;
                assert(now[k] == v);
            }
            if now.contains(v) {
                let k = choose|k: int| 0 <= k < now.len() && now[k] == v;
                if k < before.len() {
                    assert(before[k] == v);
                } else {
                    assert(checker_voxel(n - 1) == v);
                }
            }
        }
    }
}

} // verus!
