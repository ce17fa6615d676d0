//! Turning the bytes of a file into something the renderer can chew on.

use vstd::prelude::*;

use crate::geom::{IVec3, UVec3};
use crate::model;
use crate::model::{GridView, ModelView, VoxelGrid};
use crate::palette;
use crate::palette::Palette;
use crate::scene;
use crate::scene::{flatten, InstanceView, ModelInstance, VoxTransform};
use crate::text;
use crate::voxfile;
use crate::voxfile::{MaterialSource, VoxFile, VoxFileView};

verus! {

// ---- bounds ---------------------------------------------------------------
/// A corner of a box in the world, in voxel units.
#[derive(Clone, Copy, Debug, PartialEq, Eq, Structural)]
pub struct Corner {
    pub x: i64,
    pub y: i64,
    pub z: i64,
}

/// An axis-aligned box of cells in the world: from `min` up to, and without, `max`.
#[derive(Clone, Copy, Debug, PartialEq, Eq, Structural)]
pub struct Bounds {
    pub min: Corner,
    pub max: Corner,
}

pub open spec fn least(a: int, b: int) -> int {
    if a <= b {
        a
    } else {
        b
    }
}

pub open spec fn most(a: int, b: int) -> int {
    if a >= b {
        a
    } else {
        b
    }
}

fn least_of(a: i64, b: i64) -> (r: i64)
    ensures
        r == least(a as int, b as int),
{
    if a <= b {
        a
    } else {
        b
    }
}

fn most_of(a: i64, b: i64) -> (r: i64)
    ensures
        r == most(a as int, b as int),
{
    if a >= b {
        a
    } else {
        b
    }
}

impl Bounds {
    /// The smallest box that holds both.
    pub open spec fn joined(self, other: Bounds) -> Bounds {
        Bounds {
            min: Corner {
                x: least(self.min.x as int, other.min.x as int) as i64,
                y: least(self.min.y as int, other.min.y as int) as i64,
                z: least(self.min.z as int, other.min.z as int) as i64,
            },
            max: Corner {
                x: most(self.max.x as int, other.max.x as int) as i64,
                y: most(self.max.y as int, other.max.y as int) as i64,
                z: most(self.max.z as int, other.max.z as int) as i64,
            },
        }
    }

    pub open spec fn holds(self, x: int, y: int, z: int) -> bool {
        &&& self.min.x <= x < self.max.x
        &&& self.min.y <= y < self.max.y
        &&& self.min.z <= z < self.max.z
    }

    pub fn union(self, other: Bounds) -> (r: Bounds)
        ensures
            r == self.joined(other),
    {
        Bounds {
            min: Corner {
                x: least_of(self.min.x, other.min.x),
                y: least_of(self.min.y, other.min.y),
                z: least_of(self.min.z, other.min.z),
            },
            max: Corner {
                x: most_of(self.max.x, other.max.x),
                y: most_of(self.max.y, other.max.y),
                z: most_of(self.max.z, other.max.z),
            },
        }
    }
}

/// The union of two boxes holds every cell that either holds.
pub proof fn lemma_union_holds_both(a: Bounds, b: Bounds, x: int, y: int, z: int)
    requires
        a.holds(x, y, z) || b.holds(x, y, z),
    ensures
        a.joined(b).holds(x, y, z),
{
}

/// Where a model that reaches over `side` cells begins on a world axis, when
/// its pivot is put at `at` and the axis is negated or not.
pub open spec fn span_min(at: int, side: int, neg: bool) -> int {
    if neg {
        at + 1 + side / 2 - side
    } else {
        at - side / 2
    }
}

/// The box that a placed model of some size takes up.
pub open spec fn box_of(t: VoxTransform, size: IVec3) -> Bounds {
    let r = t.rotation;
    let (sx, sy, sz) = (
        scene::pick(size, r.src_x) as int,
        scene::pick(size, r.src_y) as int,
        scene::pick(size, r.src_z) as int,
    );
    let (x, y, z) = (
        span_min(t.translation.x as int, sx, r.neg_x),
        span_min(t.translation.y as int, sy, r.neg_y),
        span_min(t.translation.z as int, sz, r.neg_z),
    );
    Bounds {
        min: Corner { x: x as i64, y: y as i64, z: z as i64 },
        max: Corner { x: (x + sx) as i64, y: (y + sy) as i64, z: (z + sz) as i64 },
    }
}

fn span_from(at: i32, side: i64, neg: bool) -> (r: i64)
    requires
        0 <= side <= 2048,
    ensures
        r == span_min(at as int, side as int, neg),
{
    if neg {
        at as i64 + 1 + side / 2 - side
    } else {
        at as i64 - side / 2
    }
}

fn side_of(size: UVec3, axis: u8) -> (r: i64)
    requires
        size.x <= 2048,
        size.y <= 2048,
        size.z <= 2048,
    ensures
        r == scene::pick(signed_size(size), axis),
        0 <= r <= 2048,
{
    if axis == 0 {
        size.x as i64
    } else if axis == 1 {
        size.y as i64
    } else {
        size.z as i64
    }
}

/// A size as a signed vector.
pub open spec fn signed_size(size: UVec3) -> IVec3 {
    IVec3 { x: size.x as i32, y: size.y as i32, z: size.z as i32 }
}

/// World-space bounds of one instance's full model box.
pub fn instance_bounds(inst: &ModelInstance, size: UVec3) -> (r: Bounds)
    requires
        size.x <= 2048,
        size.y <= 2048,
        size.z <= 2048,
    ensures
        r == box_of(inst.transform, signed_size(size)),
{
    // A signed permutation only ever maps the box's sides onto each other, so
    // placing the side that feeds each axis is exact.
    let r = inst.transform.rotation;
    let t = inst.transform.translation;
    let (sx, sy, sz): (i64, i64, i64) = (
        side_of(size, r.src_x),
        side_of(size, r.src_y),
        side_of(size, r.src_z),
    );
    let (x, y, z): (i64, i64, i64) = (
        span_from(t.x, sx, r.neg_x),
        span_from(t.y, sy, r.neg_y),
        span_from(t.z, sz, r.neg_z),
    );
    Bounds {
        min: Corner { x, y, z },
        max: Corner { x: x + sx, y: y + sy, z: z + sz },
    }
}

/// Whether a translation is far enough from the ends of the 32-bit range for
/// no coordinate of the model it places to wrap around.
pub open spec fn far_from_the_edge(v: IVec3) -> bool {
    &&& -0x4000_0000 <= v.x <= 0x4000_0000
    &&& -0x4000_0000 <= v.y <= 0x4000_0000
    &&& -0x4000_0000 <= v.z <= 0x4000_0000
}

/// Whether a local coordinate is one of a model's own.
pub open spec fn in_model(v: IVec3, size: IVec3) -> bool {
    &&& 0 <= v.x < size.x
    &&& 0 <= v.y < size.y
    &&& 0 <= v.z < size.z
}

/// Every voxel of a placed model lies in the model's box.
pub proof fn lemma_box_holds_every_voxel(t: VoxTransform, size: IVec3, v: IVec3)
    requires
        t.wf(),
        far_from_the_edge(t.translation),
        size.x <= 2048,
        size.y <= 2048,
        size.z <= 2048,
        in_model(v, size),
    ensures
        ({
            let w = t.world(v, size);
            box_of(t, size).holds(w.x as int, w.y as int, w.z as int)
        }),
{
}

/// Every cell of a placed model's box is where one of its voxels goes.
pub proof fn lemma_box_is_all_voxels(t: VoxTransform, size: IVec3, x: i32, y: i32, z: i32) -> (v:
    IVec3)
    requires
        t.wf(),
        far_from_the_edge(t.translation),
        0 <= size.x <= 2048,
        0 <= size.y <= 2048,
        0 <= size.z <= 2048,
        box_of(t, size).holds(x as int, y as int, z as int),
    ensures
        in_model(v, size),
        t.world(v, size) == (IVec3 { x, y, z }),
{
    let r = t.rotation;
    let back = |c: i32, at: i32, neg: bool, side: i32| -> i32
        {
            if neg {
                (at - c + side / 2) as i32
            } else {
                (c - at + side / 2) as i32
            }
        };
    let a = back(x, t.translation.x, r.neg_x, scene::pick(size, r.src_x));
    let b = back(y, t.translation.y, r.neg_y, scene::pick(size, r.src_y));
    let c = back(z, t.translation.z, r.neg_z, scene::pick(size, r.src_z));
    let on = |axis: u8| -> i32
        {
            if r.src_x == axis {
                a
            } else if r.src_y == axis {
                b
            } else {
                c
            }
        };
    let v = IVec3 { x: on(0), y: on(1), z: on(2) };
    assert(scene::pick(v, r.src_x) == a);
    assert(scene::pick(v, r.src_y) == b);
    assert(scene::pick(v, r.src_z) == c);
    v
}

// ---- scenes ---------------------------------------------------------------
/// A parsed `.vox` file, flattened and ready to mesh.
#[derive(Clone, Debug)]
pub struct VoxScene {
    /// File format version from the header (150 for current MagicaVoxel).
    pub version: u32,
    /// Every model in the file, in file order.
    pub models: Vec<VoxelGrid>,
    /// One entry per visible placement of a model.
    pub instances: Vec<ModelInstance>,
    pub palette: Palette,
    /// The `MATL` chunks, in file order.
    pub materials: Vec<MaterialSource>,
    /// Number of `MATL` chunks.
    pub material_count: usize,
    /// Total occupied cells across every *instanced* model.
    pub voxel_count: usize,
    /// World-space bounds of all instances, in voxel units; `None` where
    /// nothing is shown.
    pub bounds: Option<Bounds>,
}

/// Why a file could not be turned into a scene.
#[derive(Clone, Debug, PartialEq, Eq)]
pub enum LoadError {
    /// The bytes are not a `.vox` file; the parser's own words.
    NotVox(String),
    /// A model declares a size that cannot be right.
    Implausible { model: usize, size: UVec3 },
}

/// What the user is told of an error.
pub open spec fn error_text(e: LoadError) -> Seq<char> {
    match e {
        LoadError::NotVox(s) => s@,
        LoadError::Implausible { model, size } => "model "@ + text::decimal(model as nat)
            + " declares an implausible size of "@ + text::decimal(size.x as nat) + "x"@
            + text::decimal(size.y as nat) + "x"@ + text::decimal(size.z as nat),
    }
}

impl LoadError {
    /// What the user is told.
    pub fn message(&self) -> (r: String)
        ensures
            r@ == error_text(*self),
    {
        match self {
            LoadError::NotVox(s) => s.clone(),
            LoadError::Implausible { model, size } => {
                let mut out = String::new();
                text::push_str(&mut out, "model ");
                text::push_decimal(&mut out, *model as u64);
                text::push_str(&mut out, " declares an implausible size of ");
                text::push_decimal(&mut out, size.x as u64);
                text::push_str(&mut out, "x");
                text::push_decimal(&mut out, size.y as u64);
                text::push_str(&mut out, "x");
                text::push_decimal(&mut out, size.z as u64);
                assert(out@ =~= error_text(*self));
                out
            },
        }
    }
}

/// The first model, from `from` on, whose size cannot be right.
pub open spec fn first_implausible(models: Seq<ModelView>, from: int) -> Option<int>
    decreases models.len() - from,
{
    if from >= models.len() {
        None
    } else if !model::plausible(models[from].size) {
        Some(from)
    } else {
        first_implausible(models, from + 1)
    }
}

/// The grid of a model of a file.
pub open spec fn grid_of(m: ModelView) -> GridView {
    GridView::empty(m.size).with_voxels(m.voxels)
}

pub open spec fn grids_of(models: Seq<ModelView>) -> Seq<GridView> {
    models.map_values(|m: ModelView| grid_of(m))
}

pub open spec fn grid_views(models: Seq<VoxelGrid>) -> Seq<GridView> {
    models.map_values(|g: VoxelGrid| g@)
}

/// The occupied cells of every instance, added up.
pub open spec fn occupied(instances: Seq<InstanceView>, grids: Seq<GridView>) -> int
    decreases instances.len(),
{
    if instances.len() == 0 {
        0
    } else {
        occupied(instances.drop_last(), grids) + model::count_some(
            grids[instances.last().model_index as int].cells,
        )
    }
}

/// The smallest box that holds the box of every instance.
pub open spec fn scene_box(instances: Seq<InstanceView>, grids: Seq<GridView>) -> Option<Bounds>
    decreases instances.len(),
{
    if instances.len() == 0 {
        None
    } else {
        let last = instances.last();
        let b = box_of(last.transform, signed_size(grids[last.model_index as int].size));
        match scene_box(instances.drop_last(), grids) {
            Some(before) => Some(before.joined(b)),
            None => Some(b),
        }
    }
}

/// The scene of a file whose sizes are all plausible.
pub open spec fn scene_of(s: VoxScene, f: VoxFileView) -> bool {
    let instances = scene::flattened(f.nodes, f.hidden_layers, f.models.len());
    let grids = grids_of(f.models);
    &&& s.version == f.version
    &&& grid_views(s.models@) == grids
    &&& forall|i: int| 0 <= i < s.models@.len() ==> (#[trigger] s.models@[i]).wf()
    &&& scene::instance_views(s.instances@) == instances
    &&& s.palette.colors() == (if f.palette.len() == 0 {
        palette::default_colors()
    } else {
        palette::padded_colors(f.palette)
    })
    &&& s.palette.from_file == (f.palette.len() > 0)
    &&& voxfile::material_views(s.materials@) == f.materials
    &&& s.material_count == f.materials.len()
    &&& s.voxel_count == least(occupied(instances, grids), usize::MAX as int)
    &&& s.bounds == scene_box(instances, grids)
}

/// Flatten a parsed file into a scene, or say which model cannot be right.
pub fn assemble(file: VoxFile) -> (r: Result<VoxScene, LoadError>)
    ensures
        match r {
            Ok(s) => first_implausible(file@.models, 0) is None && scene_of(s, file@),
            Err(e) => match e {
                LoadError::NotVox(_) => false,
                LoadError::Implausible { model, size } => first_implausible(file@.models, 0)
                    == Some(model as int) && file@.models[model as int].size == size,
            },
        },
{
    let ghost f = file@;
    let mut models: Vec<VoxelGrid> = Vec::new();
    let mut i: usize = 0;
    while i < file.models.len()
        invariant
            f == file@,
            i <= file.models@.len(),
            models@.len() == i,
            first_implausible(f.models, 0) == first_implausible(f.models, i as int),
            forall|k: int|
                0 <= k < i ==> (#[trigger] models@[k]).wf() && models@[k]@ == grid_of(f.models[k]),
        decreases file.models@.len() - i,
    {
        let m = &file.models[i];
        assert(f.models[i as int] == m@);
        match VoxelGrid::from_dot_vox(m) {
            Some(grid) => {
                models.push(grid);
            },
            None => {
                return Err(LoadError::Implausible { model: i, size: m.size });
            },
        }
        i += 1;
    }
    assert(grid_views(models@) =~= grids_of(f.models));
    let palette = if file.palette.len() == 0 {
        Palette::magicavoxel_default()
    } else {
        Palette::from_file_colors(&file.palette)
    };
    let instances = flatten(&file.nodes, &file.hidden_layers, models.len());
    let ghost views = scene::instance_views(instances@);
    let ghost grids = grids_of(f.models);
    proof {
        scene::lemma_instances_name_models(f.nodes, f.hidden_layers, f.models.len());
    }
    let mut voxel_count: usize = 0;
    let mut bounds: Option<Bounds> = None;
    let mut k: usize = 0;
    assert(views.subrange(0, 0) =~= Seq::empty());
    while k < instances.len()
        invariant
            k <= instances@.len(),
            views == scene::instance_views(instances@),
            scene::instances_ok(views, models@.len()),
            grids == grid_views(models@),
            forall|m: int| 0 <= m < models@.len() ==> (#[trigger] models@[m]).wf(),
            voxel_count == least(
                occupied(views.subrange(0, k as int), grids),
                usize::MAX as int,
            ),
            occupied(views.subrange(0, k as int), grids) >= 0,
            bounds == scene_box(views.subrange(0, k as int), grids),
        decreases instances@.len() - k,
    {
        let inst = &instances[k];
        assert(views[k as int] == inst@);
        let ghost upto = views.subrange(0, k as int + 1);
        assert(upto.drop_last() =~= views.subrange(0, k as int));
        let grid = &models[inst.model_index];
        proof {
            grid.lemma_wf();
            assert(grids[inst.model_index as int] == grid@);
        }
        voxel_count = voxel_count.saturating_add(grid.voxel_count());
        let b = instance_bounds(inst, grid.size());
        bounds = match bounds {
            Some(before) => Some(before.union(b)),
            None => Some(b),
        };
        k += 1;
    }
    assert(views.subrange(0, k as int) =~= views);
    let material_count: usize = file.materials.len();
    Ok(
        VoxScene {
            version: file.version,
            models,
            instances,
            palette,
            materials: file.materials,
            material_count,
            voxel_count,
            bounds,
        },
    )
}

/// Parse `.vox` bytes.
pub fn load_bytes(bytes: &[u8]) -> (r: Result<VoxScene, LoadError>)
    ensures
        match voxfile::vox_parse(bytes@) {
            None => r matches Err(LoadError::NotVox(s)) && s@
                == "Not a valid MagicaVoxel .vox file"@,
            Some(f) => match r {
                Ok(s) => first_implausible(f.models, 0) is None && scene_of(s, f),
                Err(LoadError::NotVox(_)) => false,
                Err(LoadError::Implausible { model, size }) => first_implausible(f.models, 0)
                    == Some(model as int) && f.models[model as int].size == size,
            },
        },
{
    match voxfile::parse(bytes) {
        Ok(file) => assemble(file),
        Err(e) => Err(LoadError::NotVox(e)),
    }
}

/// A coordinate difference as a size in cells.
pub open spec fn side(lo: i64, hi: i64) -> int {
    least(most(hi - lo, i32::MIN as int), i32::MAX as int)
}

impl VoxScene {
    /// Dimensions of the whole scene in voxels. A scene that shows nothing
    /// counts as one cell.
    pub fn dimensions(&self) -> (r: IVec3)
        ensures
            match self.bounds {
                Some(b) => r.x == side(b.min.x, b.max.x) && r.y == side(b.min.y, b.max.y) && r.z
                    == side(b.min.z, b.max.z),
                None => r == (IVec3 { x: 1, y: 1, z: 1 }),
            },
    {
        match self.bounds {
            Some(b) => IVec3::new(
                side_between(b.min.x, b.max.x),
                side_between(b.min.y, b.max.y),
                side_between(b.min.z, b.max.z),
            ),
            None => IVec3::new(1, 1, 1),
        }
    }
}

fn side_between(lo: i64, hi: i64) -> (r: i32)
    ensures
        r == side(lo, hi),
{
    let d: i128 = hi as i128 - lo as i128;
    if d > i32::MAX as i128 {
        i32::MAX
    } else if d < i32::MIN as i128 {
        i32::MIN
    } else {
        d as i32
    }
}

/// Every voxel that a scene shows lies in the scene's box.
pub proof fn lemma_scene_box_holds_every_voxel(
    instances: Seq<InstanceView>,
    grids: Seq<GridView>,
    k: int,
    v: IVec3,
)
    requires
        0 <= k < instances.len(),
        instances[k].transform.wf(),
        far_from_the_edge(instances[k].transform.translation),
        model::plausible(grids[instances[k].model_index as int].size),
        in_model(v, signed_size(grids[instances[k].model_index as int].size)),
    ensures
        scene_box(instances, grids) is Some,
        ({
            let size = signed_size(grids[instances[k].model_index as int].size);
            let w = instances[k].transform.world(v, size);
            scene_box(instances, grids)->0.holds(w.x as int, w.y as int, w.z as int)
        }),
    decreases instances.len(),
{
    let size = signed_size(grids[instances[k].model_index as int].size);
    let t = instances[k].transform;
    let w = t.world(v, size);
    if k == instances.len() - 1 {
        lemma_box_holds_every_voxel(t, size, v);
    } else {
        assert(instances.drop_last()[k] == instances[k]);
        lemma_scene_box_holds_every_voxel(instances.drop_last(), grids, k, v);
    }
}

/// The count of a scene's voxels takes every placement of a model for itself.
pub proof fn lemma_every_placement_counts(
    some: Seq<InstanceView>,
    more: Seq<InstanceView>,
    one: InstanceView,
    grids: Seq<GridView>,
)
    requires
        0 <= one.model_index < grids.len(),
        grids[one.model_index as int].wf(),
    ensures
        occupied(Seq::empty(), grids) == 0,
        occupied(seq![one], grids) == model::solid_cells(grids[one.model_index as int]).len(),
        occupied(some + more, grids) == occupied(some, grids) + occupied(more, grids),
    decreases more.len(),
{
    model::lemma_the_count_is_of_solid_cells(grids[one.model_index as int]);
    assert(seq![one].drop_last() =~= Seq::empty());
    assert(occupied(seq![one].drop_last(), grids) == 0);
    if more.len() == 0 {
        assert(some + more =~= some);
    } else {
        assert((some + more).drop_last() =~= some + more.drop_last());
        lemma_every_placement_counts(some, more.drop_last(), one, grids);
    }
}

/// The box of a scene is as small as it can be: any box that holds every cell of
/// every placed model holds all of it.
pub proof fn lemma_the_scene_box_is_tight(
    instances: Seq<InstanceView>,
    grids: Seq<GridView>,
    other: Bounds,
)
    requires
        instances.len() > 0,
        forall|k: int|
            0 <= k < instances.len() ==> (#[trigger] instances[k]).transform.wf()
                && far_from_the_edge(instances[k].transform.translation) && model::plausible(
                grids[instances[k].model_index as int].size,
            ) && grids[instances[k].model_index as int].size.x > 0
                && grids[instances[k].model_index as int].size.y > 0
                && grids[instances[k].model_index as int].size.z > 0,
        forall|k: int, v: IVec3|
            0 <= k < instances.len() && #[trigger] in_model(
                v,
                signed_size(grids[(#[trigger] instances[k]).model_index as int].size),
            ) ==> ({
                let w = instances[k].transform.world(
                    v,
                    signed_size(grids[instances[k].model_index as int].size),
                );
                other.holds(w.x as int, w.y as int, w.z as int)
            }),
    ensures
        scene_box(instances, grids) matches Some(b) && other.min.x <= b.min.x && other.min.y
            <= b.min.y && other.min.z <= b.min.z && b.max.x <= other.max.x && b.max.y <= other.max.y
            && b.max.z <= other.max.z && b.min.x < b.max.x && b.min.y < b.max.y && b.min.z < b.max.z,
    decreases instances.len(),
{
    let n = instances.len() - 1;
    let last = instances.last();
    assert(last == instances[n]);
    let size = signed_size(grids[last.model_index as int].size);
    let b = box_of(last.transform, size);
    let low = lemma_box_is_all_voxels(
        last.transform,
        size,
        b.min.x as i32,
        b.min.y as i32,
        b.min.z as i32,
    );
    let high = lemma_box_is_all_voxels(
        last.transform,
        size,
        (b.max.x - 1) as i32,
        (b.max.y - 1) as i32,
        (b.max.z - 1) as i32,
    );
    assert(in_model(low, signed_size(grids[instances[n].model_index as int].size)));
    assert(in_model(high, signed_size(grids[instances[n].model_index as int].size)));
    if n > 0 {
        let rest = instances.drop_last();
        assert forall|k: int| 0 <= k < rest.len() implies (#[trigger] rest[k]).transform.wf()
            && far_from_the_edge(rest[k].transform.translation) && model::plausible(
            grids[rest[k].model_index as int].size,
        ) && grids[rest[k].model_index as int].size.x > 0
            && grids[rest[k].model_index as int].size.y > 0
            && grids[rest[k].model_index as int].size.z > 0 by {
            assert(rest[k] == instances[k]);
        }
        assert forall|k: int, v: IVec3|
            0 <= k < rest.len() && #[trigger] in_model(
                v,
                signed_size(grids[(#[trigger] rest[k]).model_index as int].size),
            ) implies ({
            let w = rest[k].transform.world(
                v,
                signed_size(grids[rest[k].model_index as int].size),
            );
            other.holds(w.x as int, w.y as int, w.z as int)
        }) by {
            assert(rest[k] == instances[k]);
            assert(in_model(v, signed_size(grids[instances[k].model_index as int].size)));
        }
        lemma_the_scene_box_is_tight(rest, grids, other);
    } else {
        assert(scene_box(instances.drop_last(), grids) is None);
    }
}

/// What a loaded scene has from its file: as many models, each with the cells
/// the file lists, the file's colours, its materials and its version.
pub proof fn lemma_a_scene_is_its_file(s: VoxScene, f: VoxFileView, m: int, k: int, entry: int)
    requires
        scene_of(s, f),
        first_implausible(f.models, 0) is None,
        0 <= m < f.models.len(),
        0 <= k < f.models[m].voxels.len(),
        0 <= entry < 256,
    ensures
        s.version == f.version,
        s.material_count == f.materials.len(),
        s.materials@.len() == f.materials.len(),
        s.models@.len() == f.models.len(),
        s.models@[m]@.size == f.models[m].size,
        ({
            let v = f.models[m].voxels[k];
            let size = f.models[m].size;
            model::is_last_at(
                f.models[m].voxels,
                k,
                v.x as int,
                v.y as int,
                v.z as int,
            ) && v.x < size.x && v.y < size.y && v.z < size.z ==> s.models@[m]@.at(
                v.x as int,
                v.y as int,
                v.z as int,
            ) == Some(v.i)
        }),
        entry < f.palette.len() ==> s.palette.colors()[entry] == seq![
            f.palette[entry].r,
            f.palette[entry].g,
            f.palette[entry].b,
            f.palette[entry].a,
        ],
        entry >= f.palette.len() ==> s.palette.colors()[entry] == palette::word_bytes(
            palette::DEFAULT_PALETTE_ABGR@[entry],
        ),
        s.palette.from_file <==> f.palette.len() > 0,
{
    lemma_all_plausible(f.models, 0);
    let v = f.models[m].voxels[k];
    assert(grid_views(s.models@).len() == s.models@.len());
    assert(grids_of(f.models).len() == f.models.len());
    assert(grid_views(s.models@)[m] == s.models@[m]@);
    assert(grids_of(f.models)[m] == grid_of(f.models[m]));
    model::lemma_a_cell_holds_its_last_voxel(
        f.models[m].size,
        f.models[m].voxels,
        v.x as int,
        v.y as int,
        v.z as int,
    );
    model::lemma_a_loaded_grid_has_its_size(f.models[m].size, f.models[m].voxels);
    palette::lemma_an_entry_is_the_files_own(f.palette, entry);
    assert(voxfile::material_views(s.materials@).len() == s.materials@.len());
}

proof fn lemma_all_plausible(models: Seq<ModelView>, from: int)
    requires
        0 <= from,
        first_implausible(models, from) is None,
    ensures
        forall|k: int| from <= k < models.len() ==> model::plausible((#[trigger] models[k]).size),
    decreases models.len() - from,
{
    if from < models.len() {
        lemma_all_plausible(models, from + 1);
    }
}

/// A file is refused over the first model that is too large, and only where
/// there is one.
pub proof fn lemma_the_first_implausible_model_is_named(models: Seq<ModelView>, from: int)
    requires
        0 <= from,
    ensures
        match first_implausible(models, from) {
            Some(m) => from <= m < models.len() && !model::plausible(models[m].size) && forall|
                k: int,
            |
                from <= k < m ==> model::plausible((#[trigger] models[k]).size),
            None => forall|k: int|
                from <= k < models.len() ==> model::plausible((#[trigger] models[k]).size),
        },
    decreases models.len() - from,
{
    if from < models.len() {
        lemma_the_first_implausible_model_is_named(models, from + 1);
    }
}

/// The size of a scene is how many cells its box reaches over on each axis.
pub proof fn lemma_a_side_counts_cells(lo: i64, hi: i64)
    requires
        0 <= hi - lo <= i32::MAX,
    ensures
        side(lo, hi) == hi - lo,
{
}

} // verus!
