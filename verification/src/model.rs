//! A dense voxel grid: the form the mesher and the occlusion sampler want.

use vstd::prelude::*;

use crate::geom;
use crate::geom::{IVec3, UVec3};

verus! {

/// Largest number of voxel cells that a single model may have.
///
/// MagicaVoxel itself tops out at 256 per axis, but extended writers go higher.
/// The cap exists so a corrupt `SIZE` chunk turns into an error instead of a
/// multi-gigabyte allocation.
pub const MAX_CELLS: u64 = 268_435_456;

/// Largest extent accepted along any single axis.
pub const MAX_EXTENT: u32 = 2048;

/// One voxel as a model file lists it: a cell and a palette index.
#[derive(Clone, Copy, Debug, PartialEq, Eq, Structural)]
pub struct Voxel {
    pub x: u8,
    pub y: u8,
    pub z: u8,
    pub i: u8,
}

/// A model as it stands in a file: its declared size and its voxel list.
#[derive(Clone, Debug, PartialEq, Eq)]
pub struct Model {
    pub size: UVec3,
    pub voxels: Vec<Voxel>,
}

/// A model's declared size and voxel list, as mathematical values.
#[verifier::ext_equal]
pub struct ModelView {
    pub size: UVec3,
    pub voxels: Seq<Voxel>,
}

impl View for Model {
    type V = ModelView;

    open spec fn view(&self) -> ModelView {
        ModelView { size: self.size, voxels: self.voxels@ }
    }
}

/// A model's occupancy, stored as `palette_index + 1` with `0` meaning empty.
#[derive(Clone, Debug)]
pub struct VoxelGrid {
    size: UVec3,
    /// `x + y * size.x + z * size.x * size.y`, holding `palette_index + 1`.
    /// `u16` rather than `u8` so that palette index 255 stays distinct from
    /// the `0` that means "empty".
    cells: Vec<u16>,
    voxel_count: usize,
}

/// What a grid holds: its size, and the palette index of each cell in storage order.
#[verifier::ext_equal]
pub struct GridView {
    pub size: UVec3,
    pub cells: Seq<Option<u8>>,
}

/// The number of entries that are `Some`.
pub open spec fn count_some<T>(s: Seq<Option<T>>) -> nat
    decreases s.len(),
{
    if s.len() == 0 {
        0
    } else {
        count_some(s.drop_last()) + (if s.last() is Some {
            1nat
        } else {
            0nat
        })
    }
}

pub proof fn lemma_count_some_bound<T>(s: Seq<Option<T>>)
    ensures
        count_some(s) <= s.len(),
    decreases s.len(),
{
    if s.len() > 0 {
        lemma_count_some_bound(s.drop_last());
    }
}

pub proof fn lemma_count_some_zero<T>(s: Seq<Option<T>>)
    ensures
        count_some(s) == 0 <==> forall|i: int| 0 <= i < s.len() ==> s[i] is None,
    decreases s.len(),
{
    if s.len() > 0 {
        lemma_count_some_zero(s.drop_last());
        if forall|i: int| 0 <= i < s.len() ==> s[i] is None {
            assert(s.last() is None);
            assert forall|i: int| 0 <= i < s.drop_last().len() implies s.drop_last()[i] is None by {
                assert(s[i] is None);
            }
        }
        if count_some(s) == 0 {
            assert forall|i: int| 0 <= i < s.len() implies s[i] is None by {
                if i < s.len() - 1 {
                    assert(s.drop_last()[i] is None);
                }
            }
        }
    }
}

pub proof fn lemma_count_some_update<T>(s: Seq<Option<T>>, i: int, v: Option<T>)
    requires
        0 <= i < s.len(),
    ensures
        count_some(s.update(i, v)) + (if s[i] is Some {
            1int
        } else {
            0
        }) == count_some(s) + (if v is Some {
            1int
        } else {
            0
        }),
    decreases s.len(),
{
    let t = s.update(i, v);
    if i == s.len() - 1 {
        assert(t.drop_last() =~= s.drop_last());
    } else {
        assert(t.drop_last() =~= s.drop_last().update(i, v));
        lemma_count_some_update(s.drop_last(), i, v);
    }
}

/// Whether a grid of this size may be made at all.
pub open spec fn plausible(size: UVec3) -> bool {
    &&& size.x <= MAX_EXTENT
    &&& size.y <= MAX_EXTENT
    &&& size.z <= MAX_EXTENT
    &&& cell_total(size) <= MAX_CELLS
}

/// How many cells a grid of this size has.
pub open spec fn cell_total(size: UVec3) -> int {
    size.x * (size.y * size.z)
}

/// Whether a cell lies inside a grid of this size.
pub open spec fn inside(size: UVec3, x: int, y: int, z: int) -> bool {
    0 <= x < size.x && 0 <= y < size.y && 0 <= z < size.z
}

/// Where a cell stands in storage order.
pub open spec fn cell_index(size: UVec3, x: int, y: int, z: int) -> int {
    x + size.x * (y + size.y * z)
}

pub proof fn lemma_cell_index(size: UVec3, x: int, y: int, z: int)
    requires
        inside(size, x, y, z),
    ensures
        0 <= cell_index(size, x, y, z) < cell_total(size),
        0 <= size.y * z,
        0 <= size.x * (y + size.y * z),
{
    geom::lemma_pack_bound(y, z, size.y as int, size.z as int);
    geom::lemma_pack_bound(x, y + size.y * z, size.x as int, size.y * size.z);
}

/// Two cells of a grid never share a place in storage.
pub proof fn lemma_cell_index_injective(
    size: UVec3,
    x: int,
    y: int,
    z: int,
    x2: int,
    y2: int,
    z2: int,
)
    requires
        inside(size, x, y, z),
        inside(size, x2, y2, z2),
        cell_index(size, x, y, z) == cell_index(size, x2, y2, z2),
    ensures
        x == x2,
        y == y2,
        z == z2,
{
    geom::lemma_pack_unpack(x, y + size.y * z, size.x as int);
    geom::lemma_pack_unpack(x2, y2 + size.y * z2, size.x as int);
    geom::lemma_pack_unpack(y, z, size.y as int);
    geom::lemma_pack_unpack(y2, z2, size.y as int);
}

impl GridView {
    /// The palette index at a cell; a cell outside the grid reads as empty.
    pub open spec fn at(self, x: int, y: int, z: int) -> Option<u8> {
        if inside(self.size, x, y, z) {
            self.cells[cell_index(self.size, x, y, z)]
        } else {
            None
        }
    }

    pub open spec fn solid(self, x: int, y: int, z: int) -> bool {
        self.at(x, y, z) is Some
    }

    /// The grid with one cell replaced; a cell outside it is left alone.
    pub open spec fn with(self, x: int, y: int, z: int, value: Option<u8>) -> GridView {
        if inside(self.size, x, y, z) {
            GridView {
                size: self.size,
                cells: self.cells.update(cell_index(self.size, x, y, z), value),
            }
        } else {
            self
        }
    }

    /// The grid after a list of voxels, in order, has been set in it.
    pub open spec fn with_voxels(self, voxels: Seq<Voxel>) -> GridView
        decreases voxels.len(),
    {
        if voxels.len() == 0 {
            self
        } else {
            let v = voxels.last();
            self.with_voxels(voxels.drop_last()).with(
                v.x as int,
                v.y as int,
                v.z as int,
                Some(v.i),
            )
        }
    }

    /// An all-empty grid.
    pub open spec fn empty(size: UVec3) -> GridView {
        GridView { size, cells: Seq::new(cell_total(size) as nat, |i: int| None) }
    }

    /// A size that may be made, and a value for each cell.
    pub open spec fn wf(self) -> bool {
        &&& plausible(self.size)
        &&& self.cells.len() == cell_total(self.size)
    }
}

/// Setting one cell changes that cell and no other.
pub proof fn lemma_with_reads_back(
    g: GridView,
    x: int,
    y: int,
    z: int,
    value: Option<u8>,
    x2: int,
    y2: int,
    z2: int,
)
    requires
        g.wf(),
    ensures
        g.with(x, y, z, value).wf(),
        g.with(x, y, z, value).at(x2, y2, z2) == (if inside(g.size, x, y, z) && x2 == x && y2 == y
            && z2 == z {
            value
        } else {
            g.at(x2, y2, z2)
        }),
{
    if inside(g.size, x, y, z) {
        lemma_cell_index(g.size, x, y, z);
        if inside(g.size, x2, y2, z2) {
            lemma_cell_index(g.size, x2, y2, z2);
            if cell_index(g.size, x, y, z) == cell_index(g.size, x2, y2, z2) {
                lemma_cell_index_injective(g.size, x, y, z, x2, y2, z2);
            }
        }
    }
}

proof fn lemma_with_voxels_wf(g: GridView, voxels: Seq<Voxel>)
    requires
        g.wf(),
    ensures
        g.with_voxels(voxels).wf(),
        g.with_voxels(voxels).size == g.size,
    decreases voxels.len(),
{
    if voxels.len() > 0 {
        lemma_with_voxels_wf(g, voxels.drop_last());
        let v = voxels.last();
        lemma_with_reads_back(
            g.with_voxels(voxels.drop_last()),
            v.x as int,
            v.y as int,
            v.z as int,
            Some(v.i),
            0,
            0,
            0,
        );
    }
}

/// What a stored cell means.
spec fn decode(cell: u16) -> Option<u8> {
    if cell == 0 {
        None
    } else {
        Some((cell - 1) as u8)
    }
}

impl View for VoxelGrid {
    type V = GridView;

    closed spec fn view(&self) -> GridView {
        GridView {
            size: self.size,
            cells: Seq::new(self.cells@.len(), |i: int| decode(self.cells@[i])),
        }
    }
}

impl VoxelGrid {
    /// The stored cells match the size, hold palette indices, and are counted.
    pub closed spec fn wf(&self) -> bool {
        &&& self@.wf()
        &&& forall|i: int| 0 <= i < self.cells@.len() ==> #[trigger] self.cells@[i] <= 256
        &&& self.voxel_count == count_some(self@.cells)
    }

    /// A well-formed grid has a well-formed view.
    pub proof fn lemma_wf(&self)
        requires
            self.wf(),
        ensures
            self@.wf(),
    {
    }

    /// An all-empty grid of the given dimensions.
    ///
    /// Returns `None` when the dimensions are implausible (see [`MAX_CELLS`]).
    pub fn new(size: UVec3) -> (r: Option<VoxelGrid>)
        ensures
            r is Some <==> plausible(size),
            r matches Some(g) ==> g.wf() && g@ == GridView::empty(size),
    {
        if size.x > MAX_EXTENT || size.y > MAX_EXTENT || size.z > MAX_EXTENT {
            return None;
        }
        let (x, y, z): (u64, u64, u64) = (size.x as u64, size.y as u64, size.z as u64);
        assert(0 <= y * z <= 2048 * 2048) by (nonlinear_arith)
            requires
                0 <= y <= 2048,
                0 <= z <= 2048,
        ;
        assert(0 <= x * (y * z) <= 2048 * (2048 * 2048)) by (nonlinear_arith)
            requires
                0 <= x <= 2048,
                0 <= y * z <= 2048 * 2048,
        ;
        let cells: u64 = x * (y * z);
        if cells > MAX_CELLS {
            return None;
        }
        let stored: Vec<u16> = vec![0u16; cells as usize];
        let grid = VoxelGrid { size, cells: stored, voxel_count: 0 };
        proof {
            assert(grid@.cells =~= GridView::empty(size).cells);
            lemma_count_some_zero(grid@.cells);
        }
        Some(grid)
    }

    /// Build a grid from the form a model has in a file.
    ///
    /// Out-of-range voxels, which malformed files do contain, are dropped
    /// rather than treated as an error. Where two voxels name one cell, the
    /// later one stands.
    pub fn from_dot_vox(model: &Model) -> (r: Option<VoxelGrid>)
        ensures
            r is Some <==> plausible(model.size),
            r matches Some(g) ==> g.wf() && g@ == GridView::empty(model.size).with_voxels(
                model.voxels@,
            ),
    {
        let mut grid = match VoxelGrid::new(model.size) {
            Some(g) => g,
            None => {
                return None;
            },
        };
        let mut k: usize = 0;
        while k < model.voxels.len()
            invariant
                k <= model.voxels.len(),
                grid.wf(),
                grid@ == GridView::empty(model.size).with_voxels(
                    model.voxels@.subrange(0, k as int),
                ),
            decreases model.voxels.len() - k,
        {
            let v = model.voxels[k];
            grid.set(UVec3::new(v.x as u32, v.y as u32, v.z as u32), Some(v.i));
            proof {
                let upto = model.voxels@.subrange(0, k as int + 1);
                assert(upto.drop_last() =~= model.voxels@.subrange(0, k as int));
            }
            k += 1;
        }
        assert(model.voxels@.subrange(0, k as int) =~= model.voxels@);
        Some(grid)
    }

    pub fn size(&self) -> (size: UVec3)
        ensures
            size == self@.size,
    {
        self.size
    }

    /// Number of occupied cells.
    pub fn voxel_count(&self) -> (n: usize)
        requires
            self.wf(),
        ensures
            n == count_some(self@.cells),
    {
        self.voxel_count
    }

    pub fn is_empty(&self) -> (r: bool)
        requires
            self.wf(),
        ensures
            r <==> forall|x: int, y: int, z: int| !#[trigger] self@.solid(x, y, z),
            r <==> count_some(self@.cells) == 0,
    {
        proof {
            lemma_count_some_zero(self@.cells);
            let g = self@;
            if g.cells.len() > 0 && !(forall|i: int| 0 <= i < g.cells.len() ==> g.cells[i] is None) {
                let i = choose|i: int| 0 <= i < g.cells.len() && !(g.cells[i] is None);
                lemma_every_index_is_a_cell(g.size, i);
                let x = i % g.size.x as int;
                let rest = i / g.size.x as int;
                assert(g.solid(x, rest % g.size.y as int, rest / g.size.y as int));
            }
            assert forall|x: int, y: int, z: int|
                (forall|i: int| 0 <= i < g.cells.len() ==> g.cells[i] is None) implies !#[trigger] g.solid(
                x,
                y,
                z,
            ) by {
                if inside(g.size, x, y, z) {
                    lemma_cell_index(g.size, x, y, z);
                }
            }
        }
        self.voxel_count == 0
    }

    fn index(&self, p: UVec3) -> (r: Option<usize>)
        requires
            self@.wf(),
        ensures
            r is Some <==> inside(self@.size, p.x as int, p.y as int, p.z as int),
            r matches Some(i) ==> i == cell_index(self@.size, p.x as int, p.y as int, p.z as int)
                && i < self@.cells.len(),
    {
        if p.x >= self.size.x || p.y >= self.size.y || p.z >= self.size.z {
            return None;
        }
        proof {
            lemma_cell_index(self.size, p.x as int, p.y as int, p.z as int);
            let row = p.y + self.size.y * p.z;
            assert(row <= self.size.x * row) by (nonlinear_arith)
                requires
                    0 <= row,
                    1 <= self.size.x,
            ;
        }
        Some((p.x + self.size.x * (p.y + self.size.y * p.z)) as usize)
    }

    /// Set or clear a cell. Coordinates outside the grid are ignored.
    pub fn set(&mut self, p: UVec3, palette_index: Option<u8>)
        requires
            old(self).wf(),
        ensures
            final(self).wf(),
            final(self)@ == old(self)@.with(p.x as int, p.y as int, p.z as int, palette_index),
    {
        let i: usize = match self.index(p) {
            Some(i) => i,
            None => {
                return ;
            },
        };
        let ghost before = self@;
        let was_solid = self.cells[i] != 0;
        let now: u16 = match palette_index {
            Some(c) => c as u16 + 1,
            None => 0,
        };
        proof {
            lemma_count_some_update(before.cells, i as int, palette_index);
            lemma_count_some_bound(before.cells.update(i as int, palette_index));
        }
        self.cells.set(i, now);
        if !was_solid && now != 0 {
            self.voxel_count = self.voxel_count + 1;
        } else if was_solid && now == 0 {
            self.voxel_count = self.voxel_count - 1;
        }
        assert(self@.cells =~= before.cells.update(i as int, palette_index));
    }

    /// Palette index at `p`, or `None` if the cell is empty or out of bounds.
    pub fn get(&self, p: UVec3) -> (r: Option<u8>)
        requires
            self.wf(),
        ensures
            r == self@.at(p.x as int, p.y as int, p.z as int),
    {
        match self.index(p) {
            Some(i) => {
                let v: u16 = self.cells[i];
                if v == 0 {
                    None
                } else {
                    Some((v - 1) as u8)
                }
            },
            None => None,
        }
    }

    /// Like [`VoxelGrid::get`] but takes signed coordinates; anything outside
    /// the grid reads as empty. This is what the mesher and the occlusion
    /// sampler use.
    pub fn get_i(&self, p: IVec3) -> (r: Option<u8>)
        requires
            self.wf(),
        ensures
            r == self@.at(p.x as int, p.y as int, p.z as int),
    {
        if p.x < 0 || p.y < 0 || p.z < 0 {
            return None;
        }
        self.get(UVec3::new(p.x as u32, p.y as u32, p.z as u32))
    }

    pub fn is_solid(&self, p: IVec3) -> (r: bool)
        requires
            self.wf(),
        ensures
            r == self@.solid(p.x as int, p.y as int, p.z as int),
    {
        self.get_i(p).is_some()
    }
}

/// Every place in storage belongs to a cell.
pub proof fn lemma_every_index_is_a_cell(size: UVec3, i: int)
    requires
        0 <= i < cell_total(size),
    ensures
        inside(
            size,
            i % size.x as int,
            (i / size.x as int) % size.y as int,
            (i / size.x as int) / size.y as int,
        ),
        cell_index(
            size,
            i % size.x as int,
            (i / size.x as int) % size.y as int,
            (i / size.x as int) / size.y as int,
        ) == i,
{
    let (sx, sy, sz) = (size.x as int, size.y as int, size.z as int);
    assert(sx > 0) by (nonlinear_arith)
        requires
            0 <= sx,
            0 < sx * (sy * sz),
    ;
    geom::lemma_unpack_bound(i, sx, sy * sz);
    let rest = i / sx;
    assert(sy > 0) by (nonlinear_arith)
        requires
            0 <= sy,
            0 < sy * sz,
    ;
    geom::lemma_unpack_bound(rest, sy, sz);
}

// ---- what a loaded model holds ----------------------------------------------
/// Whether a voxel of a list is the last that names a cell.
pub open spec fn is_last_at(voxels: Seq<Voxel>, k: int, x: int, y: int, z: int) -> bool {
    &&& 0 <= k < voxels.len()
    &&& voxels[k].x == x && voxels[k].y == y && voxels[k].z == z
    &&& forall|j: int|
        k < j < voxels.len() ==> !((#[trigger] voxels[j]).x == x && voxels[j].y == y && voxels[j].z
            == z)
}

/// A cell of a loaded model holds the colour of the last voxel listed with its
/// own coordinates. It is empty where no voxel is, and so is everything outside
/// the size the model declares.
pub proof fn lemma_a_cell_holds_its_last_voxel(
    size: UVec3,
    voxels: Seq<Voxel>,
    x: int,
    y: int,
    z: int,
)
    requires
        plausible(size),
    ensures
        forall|k: int|
            0 <= x < size.x && 0 <= y < size.y && 0 <= z < size.z && #[trigger] is_last_at(
                voxels,
                k,
                x,
                y,
                z,
            ) ==> GridView::empty(size).with_voxels(voxels).at(x, y, z) == Some(voxels[k].i),
        (forall|k: int|
            0 <= k < voxels.len() ==> !((#[trigger] voxels[k]).x == x && voxels[k].y == y
                && voxels[k].z == z)) ==> GridView::empty(size).with_voxels(voxels).at(x, y, z)
            is None,
        !(0 <= x < size.x && 0 <= y < size.y && 0 <= z < size.z) ==> GridView::empty(
            size,
        ).with_voxels(voxels).at(x, y, z) is None,
    decreases voxels.len(),
{
    let g = GridView::empty(size);
    lemma_total_nonnegative(size);
    lemma_with_voxels_wf(g, voxels);
    if voxels.len() == 0 {
        if inside(size, x, y, z) {
            lemma_cell_index(size, x, y, z);
        }
    } else {
        let rest = voxels.drop_last();
        let v = voxels.last();
        lemma_a_cell_holds_its_last_voxel(size, rest, x, y, z);
        lemma_with_voxels_wf(g, rest);
        lemma_with_reads_back(
            g.with_voxels(rest),
            v.x as int,
            v.y as int,
            v.z as int,
            Some(v.i),
            x,
            y,
            z,
        );
        assert(voxels[voxels.len() - 1] == v);
        assert forall|k: int|
            0 <= x < size.x && 0 <= y < size.y && 0 <= z < size.z && #[trigger] is_last_at(
                voxels,
                k,
                x,
                y,
                z,
            ) implies g.with_voxels(voxels).at(x, y, z) == Some(voxels[k].i) by {
            if k < rest.len() {
                assert(rest[k] == voxels[k]);
                assert forall|j: int| k < j < rest.len() implies !((#[trigger] rest[j]).x == x
                    && rest[j].y == y && rest[j].z == z) by {
                    assert(rest[j] == voxels[j]);
                }
                assert(is_last_at(rest, k, x, y, z));
                assert(!(v.x == x && v.y == y && v.z == z));
            }
        }
        if forall|k: int|
            0 <= k < voxels.len() ==> !((#[trigger] voxels[k]).x == x && voxels[k].y == y
                && voxels[k].z == z) {
            assert forall|k: int| 0 <= k < rest.len() implies !((#[trigger] rest[k]).x == x
                && rest[k].y == y && rest[k].z == z) by {
                assert(rest[k] == voxels[k]);
            }
        }
    }
}

proof fn lemma_total_nonnegative(size: UVec3)
    ensures
        0 <= cell_total(size),
{
    let (x, y, z) = (size.x as int, size.y as int, size.z as int);
    assert(0 <= x * (y * z)) by (nonlinear_arith)
        requires
            0 <= x,
            0 <= y,
            0 <= z,
    ;
}

/// The cells of a grid that hold something.
pub open spec fn solid_cells(g: GridView) -> Set<(int, int, int)> {
    Set::new(|p: (int, int, int)| g.at(p.0, p.1, p.2) is Some)
}

spec fn solid_before(g: GridView, n: int) -> Set<(int, int, int)> {
    Set::new(
        |p: (int, int, int)|
            g.at(p.0, p.1, p.2) is Some && cell_index(g.size, p.0, p.1, p.2) < n,
    )
}

proof fn lemma_solid_before(g: GridView, n: int)
    requires
        g.wf(),
        0 <= n <= g.cells.len(),
    ensures
        solid_before(g, n).finite(),
        solid_before(g, n).len() == count_some(g.cells.subrange(0, n)),
    decreases n,
{
    let upto = g.cells.subrange(0, n);
    if n == 0 {
        assert forall|p: (int, int, int)| !solid_before(g, 0).contains(p) by {
            if inside(g.size, p.0, p.1, p.2) {
                lemma_cell_index(g.size, p.0, p.1, p.2);
            }
        }
        assert(solid_before(g, 0) =~= Set::empty());
    } else {
        lemma_solid_before(g, n - 1);
        assert(upto.drop_last() =~= g.cells.subrange(0, n - 1));
        let i = n - 1;
        lemma_every_index_is_a_cell(g.size, i);
        let rest = i / g.size.x as int;
        let p = (i % g.size.x as int, rest % g.size.y as int, rest / g.size.y as int);
        assert forall|q: (int, int, int)|
            g.at(q.0, q.1, q.2) is Some && cell_index(g.size, q.0, q.1, q.2) == i implies q
            == p by {
            lemma_cell_index_injective(g.size, q.0, q.1, q.2, p.0, p.1, p.2);
        }
        if g.cells[i] is Some {
            assert(solid_before(g, n) =~= solid_before(g, i).insert(p));
            assert(!solid_before(g, i).contains(p));
        } else {
            assert(solid_before(g, n) =~= solid_before(g, i));
        }
    }
}

/// The number of voxels of a grid is the number of its cells that hold one.
pub proof fn lemma_the_count_is_of_solid_cells(g: GridView)
    requires
        g.wf(),
    ensures
        solid_cells(g).finite(),
        count_some(g.cells) == solid_cells(g).len(),
{
    let n = g.cells.len() as int;
    lemma_solid_before(g, n);
    assert(g.cells.subrange(0, n) =~= g.cells);
    assert forall|p: (int, int, int)| #[trigger] solid_cells(g).contains(p) implies solid_before(
        g,
        n,
    ).contains(p) by {
        lemma_cell_index(g.size, p.0, p.1, p.2);
    }
    assert(solid_before(g, n) =~= solid_cells(g));
}

/// A model is refused when a side is longer than 2048 cells or when it has more
/// than 268,435,456 of them, and for no other reason.
pub proof fn lemma_what_is_implausible(size: UVec3)
    ensures
        plausible(size) <==> {
            &&& size.x <= 2048 && size.y <= 2048 && size.z <= 2048
            &&& size.x * size.y * size.z <= 268_435_456
        },
{
    let (x, y, z) = (size.x as int, size.y as int, size.z as int);
    assert(x * (y * z) == x * y * z) by (nonlinear_arith);
}

/// Loading a model's voxels keeps the size it declares.
pub proof fn lemma_a_loaded_grid_has_its_size(size: UVec3, voxels: Seq<Voxel>)
    requires
        plausible(size),
    ensures
        GridView::empty(size).with_voxels(voxels).size == size,
        GridView::empty(size).with_voxels(voxels).wf(),
{
    lemma_total_nonnegative(size);
    lemma_with_voxels_wf(GridView::empty(size), voxels);
}

} // verus!
