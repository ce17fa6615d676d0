//! Line geometry for the ground grid, bounding box and axis gizmo.
//!
//! All three live in one vertex buffer; each toggle just draws its own range.
//! Positions are in tenths of a voxel, in which every one of them is whole.

use vstd::prelude::*;

use crate::loader;
use crate::loader::{Bounds, Corner};
use crate::model::GridView;
use crate::scene::InstanceView;
use std::ops::Range;

verus! {

/// What a line is drawn for, which decides its colour.
#[derive(Clone, Copy, Debug, PartialEq, Eq, Structural)]
pub enum Stroke {
    GridMinor,
    GridMajor,
    Bbox,
    AxisX,
    AxisY,
    AxisZ,
}

impl Stroke {
    pub open spec fn bytes(self) -> Seq<u8> {
        match self {
            Stroke::GridMinor => seq![72u8, 74u8, 82u8],
            Stroke::GridMajor => seq![112u8, 115u8, 126u8],
            Stroke::Bbox => seq![240u8, 190u8, 70u8],
            Stroke::AxisX => seq![230u8, 70u8, 70u8],
            Stroke::AxisY => seq![90u8, 210u8, 90u8],
            Stroke::AxisZ => seq![90u8, 140u8, 240u8],
        }
    }

    /// The colour, in sRGB bytes.
    pub fn srgb(self) -> (r: [u8; 3])
        ensures
            r@ == self.bytes(),
    {
        let r = match self {
            Stroke::GridMinor => [72u8, 74, 82],
            Stroke::GridMajor => [112u8, 115, 126],
            Stroke::Bbox => [240u8, 190, 70],
            Stroke::AxisX => [230u8, 70, 70],
            Stroke::AxisY => [90u8, 210, 90],
            Stroke::AxisZ => [90u8, 140, 240],
        };
        assert(r@ =~= self.bytes());
        r
    }
}

/// One end of a line.
#[derive(Clone, Copy, Debug, PartialEq, Eq, Structural)]
pub struct LineVertex {
    pub position: Corner,
    pub stroke: Stroke,
}

/// One buffer's worth of overlay lines, plus the ranges to draw for each.
#[derive(Debug)]
pub struct Overlays {
    pub vertices: Vec<LineVertex>,
    pub grid: Range<u32>,
    pub bbox: Range<u32>,
    pub axes: Range<u32>,
}

/// A line between two points.
pub struct Segment {
    pub from: (int, int, int),
    pub to: (int, int, int),
    pub stroke: Stroke,
}

/// Farther out than any scene reaches, in voxels.
pub const FAR: i64 = 0x100_0000_0000;

/// Whether a box has an inside and lies where scenes do.
pub open spec fn drawable(b: Bounds) -> bool {
    &&& -FAR <= b.min.x <= b.max.x <= FAR
    &&& -FAR <= b.min.y <= b.max.y <= FAR
    &&& -FAR <= b.min.z <= b.max.z <= FAR
}

/// A box in tenths of a voxel.
pub struct Tenths {
    pub min: (int, int, int),
    pub max: (int, int, int),
}

/// The box to draw round a scene; one cell about the origin where nothing is
/// shown.
pub open spec fn tenths_of(b: Option<Bounds>) -> Tenths {
    match b {
        Some(b) => Tenths {
            min: (10 * b.min.x, 10 * b.min.y, 10 * b.min.z),
            max: (10 * b.max.x, 10 * b.max.y, 10 * b.max.z),
        },
        None => Tenths { min: (-5, -5, -5), max: (5, 5, 5) },
    }
}

pub open spec fn larger(a: int, b: int) -> int {
    if a >= b {
        a
    } else {
        b
    }
}

// ---- the grid ---------------------------------------------------------------
/// The side of the ground that the grid is sized by, in tenths: never less
/// than eight voxels.
pub open spec fn ground(t: Tenths) -> int {
    larger(larger(t.max.0 - t.min.0, t.max.1 - t.min.1), 80)
}

/// The first of one spacing and its doubles that puts no more than 32 cells
/// between the centre and the edge, which lies three quarters of the ground's
/// side away. Both are in tenths.
pub open spec fn spacing_from(ground: int, step: int) -> int
    decreases 3 * ground - step,
{
    if step <= 0 || 128 * step >= 3 * ground {
        step
    } else {
        spacing_from(ground, 2 * step)
    }
}

/// The grid's spacing, in tenths: a power of two in voxels.
pub open spec fn spacing(ground: int) -> int {
    spacing_from(ground, 10)
}

/// Cells from the centre to the edge: enough to reach it, and four at least.
pub open spec fn cells(ground: int, step: int) -> int {
    larger((3 * ground + 4 * step - 1) / (4 * step), 4)
}

/// The multiple of the spacing nearest to the middle of two numbers; halfway,
/// the one farther from nothing.
pub open spec fn snapped(lo: int, hi: int, step: int) -> int {
    let sum = lo + hi;
    if sum >= 0 {
        (sum + step) / (2 * step) * step
    } else {
        -((step - sum) / (2 * step) * step)
    }
}

/// Every eighth line, and the two through the centre, are brighter.
pub open spec fn grid_stroke(i: int) -> Stroke {
    if i % 8 == 0 {
        Stroke::GridMajor
    } else {
        Stroke::GridMinor
    }
}

/// The grid about a point: at each distance a line along either side.
pub open spec fn grid_lines(cx: int, cy: int, step: int, count: int) -> Seq<Segment> {
    let half = count * step;
    Seq::new(
        (2 * (2 * count + 1)) as nat,
        |k: int|
            {
                let i = k / 2 - count;
                if k % 2 == 0 {
                    Segment {
                        from: (cx + i * step, cy - half, 0),
                        to: (cx + i * step, cy + half, 0),
                        stroke: grid_stroke(i),
                    }
                } else {
                    Segment {
                        from: (cx - half, cy + i * step, 0),
                        to: (cx + half, cy + i * step, 0),
                        stroke: grid_stroke(i),
                    }
                }
            },
    )
}

/// A grid on the ground plane, anchored on the model's footprint and snapped to
/// its own spacing, so the lines stay put while the camera moves.
pub open spec fn grid_of(t: Tenths) -> Seq<Segment> {
    let step = spacing(ground(t));
    grid_lines(
        snapped(t.min.0, t.max.0, step),
        snapped(t.min.1, t.max.1, step),
        step,
        cells(ground(t), step),
    )
}

// ---- the box and the axes ---------------------------------------------------
/// A corner of a box, by which of its three coordinates are the upper ones.
pub open spec fn corner_of(t: Tenths, x: bool, y: bool, z: bool) -> (int, int, int) {
    (
        if x {
            t.max.0
        } else {
            t.min.0
        },
        if y {
            t.max.1
        } else {
            t.min.1
        },
        if z {
            t.max.2
        } else {
            t.min.2
        },
    )
}

pub open spec fn edge(from: (int, int, int), to: (int, int, int)) -> Segment {
    Segment { from, to, stroke: Stroke::Bbox }
}

/// The twelve edges of a box: each joins two corners that differ in one
/// coordinate.
pub open spec fn box_edges(t: Tenths) -> Seq<Segment> {
    let c = |x: bool, y: bool, z: bool| corner_of(t, x, y, z);
    seq![
        edge(c(false, false, false), c(true, false, false)),
        edge(c(false, false, false), c(false, true, false)),
        edge(c(false, false, false), c(false, false, true)),
        edge(c(true, false, false), c(true, true, false)),
        edge(c(true, false, false), c(true, false, true)),
        edge(c(false, true, false), c(true, true, false)),
        edge(c(false, true, false), c(false, true, true)),
        edge(c(true, true, false), c(true, true, true)),
        edge(c(false, false, true), c(true, false, true)),
        edge(c(false, false, true), c(false, true, true)),
        edge(c(true, false, true), c(true, true, true)),
        edge(c(false, true, true), c(true, true, true)),
    ]
}

/// How long the axes are: six tenths of the longest side, and four voxels at
/// least.
pub open spec fn axis_length(t: Tenths) -> int {
    let longest = larger(
        larger(t.max.0 - t.min.0, t.max.1 - t.min.1),
        t.max.2 - t.min.2,
    );
    larger(6 * longest / 10, 40)
}

/// Axes at the world origin, scaled to the model.
pub open spec fn axes_of(t: Tenths) -> Seq<Segment> {
    let n = axis_length(t);
    seq![
        Segment { from: (0, 0, 0), to: (n, 0, 0), stroke: Stroke::AxisX },
        Segment { from: (0, 0, 0), to: (0, n, 0), stroke: Stroke::AxisY },
        Segment { from: (0, 0, 0), to: (0, 0, n), stroke: Stroke::AxisZ },
    ]
}

// ---- building ---------------------------------------------------------------
pub open spec fn is_at(v: LineVertex, p: (int, int, int), stroke: Stroke) -> bool {
    &&& v.position.x == p.0
    &&& v.position.y == p.1
    &&& v.position.z == p.2
    &&& v.stroke == stroke
}

/// Whether vertices are the ends of some lines, two by two.
pub open spec fn strokes(vertices: Seq<LineVertex>, lines: Seq<Segment>) -> bool {
    &&& vertices.len() == 2 * lines.len()
    &&& forall|k: int|
        0 <= k < lines.len() ==> is_at(
            vertices[2 * k],
            (#[trigger] lines[k]).from,
            lines[k].stroke,
        ) && is_at(vertices[2 * k + 1], lines[k].to, lines[k].stroke)
}

fn segment(
    out: &mut Vec<LineVertex>,
    a: Corner,
    b: Corner,
    stroke: Stroke,
    Ghost(lines): Ghost<Seq<Segment>>,
)
    requires
        strokes(old(out)@, lines),
    ensures
        strokes(
            final(out)@,
            lines.push(
                Segment {
                    from: (a.x as int, a.y as int, a.z as int),
                    to: (b.x as int, b.y as int, b.z as int),
                    stroke,
                },
            ),
        ),
{
    let ghost had = out@;
    out.push(LineVertex { position: a, stroke });
    out.push(LineVertex { position: b, stroke });
    proof {
        let more = lines.push(
            Segment {
                from: (a.x as int, a.y as int, a.z as int),
                to: (b.x as int, b.y as int, b.z as int),
                stroke,
            },
        );
        assert forall|k: int| 0 <= k < more.len() implies is_at(
            out@[2 * k],
            (#[trigger] more[k]).from,
            more[k].stroke,
        ) && is_at(out@[2 * k + 1], more[k].to, more[k].stroke) by {
            if k < lines.len() {
                assert(more[k] == lines[k]);
                assert(out@[2 * k] == had[2 * k] && out@[2 * k + 1] == had[2 * k + 1]);
            }
        }
    }
}

proof fn lemma_spacing(ground: int, step: int)
    requires
        step > 0,
        128 * step < 6 * ground || step == 10,
        ground >= 80,
    ensures
        ({
            let s = spacing_from(ground, step);
            &&& s >= step
            &&& 128 * s >= 3 * ground
            &&& 128 * s < 6 * ground || s == 10
        }),
    decreases 3 * ground - step,
{
    if 128 * step < 3 * ground {
        lemma_spacing(ground, 2 * step);
    }
}

proof fn lemma_cells(ground: int, step: int)
    requires
        step > 0,
        ground >= 80,
        128 * step >= 3 * ground,
    ensures
        4 <= cells(ground, step) <= 32,
{
    let n = (3 * ground + 4 * step - 1) / (4 * step);
    assert(n <= 32) by (nonlinear_arith)
        requires
            n == (3 * ground + 4 * step - 1) / (4 * step),
            step > 0,
            3 * ground <= 128 * step,
    ;
}

fn max2(a: i64, b: i64) -> (r: i64)
    ensures
        r == larger(a as int, b as int),
{
    if a >= b {
        a
    } else {
        b
    }
}

/// A limit on what a box in tenths can span.
pub open spec fn within_reach(lo: int, hi: int) -> bool {
    -0xA00_0000_0000 <= lo <= hi <= 0xA00_0000_0000
}

fn spacing_for(ground: i64) -> (r: i64)
    requires
        80 <= ground <= 0x1400_0000_0000,
    ensures
        r == spacing(ground as int),
        10 <= r <= ground,
        128 * r >= 3 * ground,
{
    let mut step: i64 = 10;
    proof {
        lemma_spacing(ground as int, 10);
    }
    while 128 * step < 3 * ground
        invariant
            80 <= ground <= 0x1400_0000_0000,
            10 <= step,
            128 * step < 6 * ground || step == 10,
            spacing(ground as int) == spacing_from(ground as int, step as int),
        decreases 3 * ground - step,
    {
        step = 2 * step;
    }
    step
}

fn snap(lo: i64, hi: i64, step: i64) -> (r: i64)
    requires
        within_reach(lo as int, hi as int),
        0 < step <= 0x1400_0000_0000,
    ensures
        r == snapped(lo as int, hi as int, step as int),
        -0x4000_0000_0000 <= r <= 0x4000_0000_0000,
{
    let sum: i64 = lo + hi;
    let size: i64 = if sum >= 0 {
        sum
    } else {
        -sum
    };
    let n: i64 = (size + step) / (2 * step);
    proof {
        let (a, b, q) = (size as int, step as int, n as int);
        assert(0 <= q * b <= a + b) by (nonlinear_arith)
            requires
                q == (a + b) / (2 * b),
                a >= 0,
                b > 0,
        ;
    }
    let r: i64 = n * step;
    if sum >= 0 {
        r
    } else {
        -r
    }
}

fn grid(out: &mut Vec<LineVertex>, cx: i64, cy: i64, step: i64, count: i64)
    requires
        old(out)@.len() == 0,
        -0x4000_0000_0000 <= cx <= 0x4000_0000_0000,
        -0x4000_0000_0000 <= cy <= 0x4000_0000_0000,
        0 < step <= 0x1400_0000_0000,
        4 <= count <= 32,
    ensures
        strokes(final(out)@, grid_lines(cx as int, cy as int, step as int, count as int)),
{
    let ghost all = grid_lines(cx as int, cy as int, step as int, count as int);
    assert(0 <= count * step <= 32 * 0x1400_0000_0000) by (nonlinear_arith)
        requires
            0 <= count <= 32,
            0 < step <= 0x1400_0000_0000,
    ;
    let half: i64 = count * step;
    let mut i: i64 = -count;
    assert(all.subrange(0, 0) =~= Seq::<Segment>::empty());
    while i <= count
        invariant
            -count <= i <= count + 1,
            4 <= count <= 32,
            0 < step <= 0x1400_0000_0000,
            half == count * step,
            0 <= half <= 32 * 0x1400_0000_0000,
            -0x4000_0000_0000 <= cx <= 0x4000_0000_0000,
            -0x4000_0000_0000 <= cy <= 0x4000_0000_0000,
            all == grid_lines(cx as int, cy as int, step as int, count as int),
            strokes(out@, all.subrange(0, 2 * (i + count))),
        decreases count + 1 - i,
    {
        assert(-32 * 0x1400_0000_0000 <= i * step <= 32 * 0x1400_0000_0000) by (nonlinear_arith)
            requires
                -32 <= i <= 32,
                0 < step <= 0x1400_0000_0000,
        ;
        let offset: i64 = i * step;
        let size: i64 = if i < 0 {
            -i
        } else {
            i
        };
        let stroke = if size % 8 == 0 {
            Stroke::GridMajor
        } else {
            Stroke::GridMinor
        };
        assert(stroke == grid_stroke(i as int));
        let ghost k = 2 * (i + count);
        assert(k / 2 - count == i && k % 2 == 0 && (k + 1) / 2 - count == i && (k + 1) % 2 == 1);
        segment(
            out,
            Corner { x: cx + offset, y: cy - half, z: 0 },
            Corner { x: cx + offset, y: cy + half, z: 0 },
            stroke,
            Ghost(all.subrange(0, k)),
        );
        assert(all.subrange(0, k).push(all[k]) =~= all.subrange(0, k + 1));
        segment(
            out,
            Corner { x: cx - half, y: cy + offset, z: 0 },
            Corner { x: cx + half, y: cy + offset, z: 0 },
            stroke,
            Ghost(all.subrange(0, k + 1)),
        );
        assert(all.subrange(0, k + 1).push(all[k + 1]) =~= all.subrange(0, k + 2));
        i += 1;
    }
    assert(all.subrange(0, 2 * (i + count)) =~= all);
}

/// The corner of a box by a number: each bit picks one coordinate.
fn corner(lo: Corner, hi: Corner, x: bool, y: bool, z: bool) -> (r: Corner)
    ensures
        r.x == (if x {
            hi.x
        } else {
            lo.x
        }),
        r.y == (if y {
            hi.y
        } else {
            lo.y
        }),
        r.z == (if z {
            hi.z
        } else {
            lo.z
        }),
{
    Corner {
        x: if x {
            hi.x
        } else {
            lo.x
        },
        y: if y {
            hi.y
        } else {
            lo.y
        },
        z: if z {
            hi.z
        } else {
            lo.z
        },
    }
}

/// Add lines to a buffer that holds others.
proof fn lemma_strokes_on(
    a: Seq<LineVertex>,
    b: Seq<LineVertex>,
    first: Seq<Segment>,
    second: Seq<Segment>,
)
    requires
        strokes(a, first),
        strokes(b, second),
    ensures
        strokes(a + b, first + second),
{
    let (all, lines) = (a + b, first + second);
    assert forall|k: int| 0 <= k < lines.len() implies is_at(
        all[2 * k],
        (#[trigger] lines[k]).from,
        lines[k].stroke,
    ) && is_at(all[2 * k + 1], lines[k].to, lines[k].stroke) by {
        if k < first.len() {
            assert(lines[k] == first[k]);
        } else {
            assert(lines[k] == second[k - first.len()]);
            assert(all[2 * k] == b[2 * (k - first.len())]);
            assert(all[2 * k + 1] == b[2 * (k - first.len()) + 1]);
        }
    }
}

/// The twelve edges of the scene's bounding box.
fn bbox(lo: Corner, hi: Corner) -> (r: Vec<LineVertex>)
    ensures
        strokes(
            r@,
            box_edges(
                Tenths {
                    min: (lo.x as int, lo.y as int, lo.z as int),
                    max: (hi.x as int, hi.y as int, hi.z as int),
                },
            ),
        ),
{
    let ghost all = box_edges(
        Tenths {
            min: (lo.x as int, lo.y as int, lo.z as int),
            max: (hi.x as int, hi.y as int, hi.z as int),
        },
    );
    let mut out: Vec<LineVertex> = Vec::new();
    let mut n: usize = 0;
    assert(all.subrange(0, 0) =~= Seq::<Segment>::empty());
    // Each edge joins two corners that differ in exactly one coordinate.
    let ends: [(bool, bool, bool, u8); 12] = [
        (false, false, false, 0),
        (false, false, false, 1),
        (false, false, false, 2),
        (true, false, false, 1),
        (true, false, false, 2),
        (false, true, false, 0),
        (false, true, false, 2),
        (true, true, false, 2),
        (false, false, true, 0),
        (false, false, true, 1),
        (true, false, true, 1),
        (false, true, true, 0),
    ];
    while n < 12
        invariant
            n <= 12,
            all.len() == 12,
            ends@ == seq![
                (false, false, false, 0u8),
                (false, false, false, 1u8),
                (false, false, false, 2u8),
                (true, false, false, 1u8),
                (true, false, false, 2u8),
                (false, true, false, 0u8),
                (false, true, false, 2u8),
                (true, true, false, 2u8),
                (false, false, true, 0u8),
                (false, false, true, 1u8),
                (true, false, true, 1u8),
                (false, true, true, 0u8),
            ],
            all == box_edges(
                Tenths {
                    min: (lo.x as int, lo.y as int, lo.z as int),
                    max: (hi.x as int, hi.y as int, hi.z as int),
                },
            ),
            strokes(out@, all.subrange(0, n as int)),
        decreases 12 - n,
    {
        let (x, y, z, side): (bool, bool, bool, u8) = ends[n];
        let from = corner(lo, hi, x, y, z);
        let to = corner(lo, hi, x || side == 0, y || side == 1, z || side == 2);
        segment(&mut out, from, to, Stroke::Bbox, Ghost(all.subrange(0, n as int)));
        assert(all.subrange(0, n as int).push(all[n as int]) =~= all.subrange(0, n + 1));
        n += 1;
    }
    assert(all.subrange(0, 12) =~= all);
    out
}

/// Unit axes at the world origin, scaled to the model.
fn axes(length: i64) -> (r: Vec<LineVertex>)
    ensures
        strokes(
            r@,
            seq![
                Segment { from: (0, 0, 0), to: (length as int, 0, 0), stroke: Stroke::AxisX },
                Segment { from: (0, 0, 0), to: (0, length as int, 0), stroke: Stroke::AxisY },
                Segment { from: (0, 0, 0), to: (0, 0, length as int), stroke: Stroke::AxisZ },
            ],
        ),
{
    let origin = Corner { x: 0, y: 0, z: 0 };
    let mut out: Vec<LineVertex> = Vec::new();
    let ghost none = Seq::<Segment>::empty();
    let ghost x = Segment { from: (0, 0, 0), to: (length as int, 0, 0), stroke: Stroke::AxisX };
    let ghost y = Segment { from: (0, 0, 0), to: (0, length as int, 0), stroke: Stroke::AxisY };
    let ghost z = Segment { from: (0, 0, 0), to: (0, 0, length as int), stroke: Stroke::AxisZ };
    segment(&mut out, origin, Corner { x: length, y: 0, z: 0 }, Stroke::AxisX, Ghost(none));
    segment(&mut out, origin, Corner { x: 0, y: length, z: 0 }, Stroke::AxisY, Ghost(none.push(x)));
    segment(
        &mut out,
        origin,
        Corner { x: 0, y: 0, z: length },
        Stroke::AxisZ,
        Ghost(none.push(x).push(y)),
    );
    assert(none.push(x).push(y).push(z) =~= seq![x, y, z]);
    out
}

/// Build every overlay for a scene of the given world bounds.
pub fn build(bounds: Option<Bounds>) -> (r: Overlays)
    requires
        bounds matches Some(b) ==> drawable(b),
    ensures
        ({
            let t = tenths_of(bounds);
            let grid = 2 * grid_of(t).len();
            &&& strokes(r.vertices@, grid_of(t) + box_edges(t) + axes_of(t))
            &&& r.grid.start == 0 && r.grid.end == grid
            &&& r.bbox.start == grid && r.bbox.end == grid + 24
            &&& r.axes.start == grid + 24 && r.axes.end == grid + 30
        }),
{
    let (lo, hi): (Corner, Corner) = match bounds {
        Some(b) => (
            Corner { x: 10 * b.min.x, y: 10 * b.min.y, z: 10 * b.min.z },
            Corner { x: 10 * b.max.x, y: 10 * b.max.y, z: 10 * b.max.z },
        ),
        None => (Corner { x: -5, y: -5, z: -5 }, Corner { x: 5, y: 5, z: 5 }),
    };
    let ghost t = tenths_of(bounds);
    let (dx, dy, dz): (i64, i64, i64) = (hi.x - lo.x, hi.y - lo.y, hi.z - lo.z);
    let flat: i64 = max2(dx, dy);
    let ground: i64 = max2(flat, 80);
    let step: i64 = spacing_for(ground);
    proof {
        lemma_cells(ground as int, step as int);
    }
    let reach: i64 = (3 * ground + 4 * step - 1) / (4 * step);
    let count: i64 = max2(reach, 4);
    let mut vertices: Vec<LineVertex> = Vec::new();
    grid(&mut vertices, snap(lo.x, hi.x, step), snap(lo.y, hi.y, step), step, count);
    let ghost drawn = vertices@;
    assert(strokes(drawn, grid_of(t)));
    let grid_end: u32 = vertices.len() as u32;

    let mut edges = bbox(lo, hi);
    let ghost edged = edges@;
    assert(strokes(edged, box_edges(t)));
    vertices.append(&mut edges);
    let bbox_end: u32 = vertices.len() as u32;

    let longest: i64 = max2(flat, dz);
    let mut lines = axes(max2(6 * longest / 10, 40));
    let ghost lined = lines@;
    assert(strokes(lined, axes_of(t)));
    vertices.append(&mut lines);
    let axes_end: u32 = vertices.len() as u32;
    proof {
        lemma_strokes_on(drawn, edged, grid_of(t), box_edges(t));
        lemma_strokes_on(drawn + edged, lined, grid_of(t) + box_edges(t), axes_of(t));
        assert(vertices@ =~= drawn + edged + lined);
    }
    Overlays { vertices, grid: 0..grid_end, bbox: grid_end..bbox_end, axes: bbox_end..axes_end }
}

// ---- laws -------------------------------------------------------------------
/// The number of grid lines stays bounded however large a model is, and no
/// model is so small that it has none.
pub proof fn lemma_the_grid_stays_readable(bounds: Option<Bounds>)
    requires
        bounds matches Some(b) ==> drawable(b),
    ensures
        18 <= grid_of(tenths_of(bounds)).len() <= 130,
{
    let t = tenths_of(bounds);
    lemma_spacing(ground(t), 10);
    lemma_cells(ground(t), spacing(ground(t)));
}

/// The grid lies on the ground plane.
pub proof fn lemma_the_grid_lies_on_the_ground(bounds: Option<Bounds>, k: int)
    requires
        bounds matches Some(b) ==> drawable(b),
        0 <= k < grid_of(tenths_of(bounds)).len(),
    ensures
        grid_of(tenths_of(bounds))[k].from.2 == 0,
        grid_of(tenths_of(bounds))[k].to.2 == 0,
{
}

/// The grid reaches past the model's footprint on the ground.
pub proof fn lemma_the_grid_reaches_past_the_model(bounds: Option<Bounds>)
    requires
        bounds matches Some(b) ==> drawable(b),
    ensures
        ({
            let t = tenths_of(bounds);
            let step = spacing(ground(t));
            let half = cells(ground(t), step) * step;
            &&& 4 * half >= 3 * ground(t)
            &&& snapped(t.min.0, t.max.0, step) - half <= t.min.0
            &&& snapped(t.min.0, t.max.0, step) + half >= t.max.0
            &&& snapped(t.min.1, t.max.1, step) - half <= t.min.1
            &&& snapped(t.min.1, t.max.1, step) + half >= t.max.1
        }),
{
    let t = tenths_of(bounds);
    let g = ground(t);
    lemma_spacing(g, 10);
    let step = spacing(g);
    lemma_cells(g, step);
    let n = (3 * g + 4 * step - 1) / (4 * step);
    let count = cells(g, step);
    assert(4 * (count * step) >= 3 * g) by (nonlinear_arith)
        requires
            n == (3 * g + 4 * step - 1) / (4 * step),
            count >= n,
            step > 0,
    ;
    assert(count * step >= 4 * step) by (nonlinear_arith)
        requires
            count >= 4,
            step > 0,
    ;
    lemma_snapped(t.min.0, t.max.0, step);
    lemma_snapped(t.min.1, t.max.1, step);
}

/// A snapped middle is no farther than half a spacing from the middle.
proof fn lemma_snapped(lo: int, hi: int, step: int)
    requires
        step > 0,
    ensures
        -step <= 2 * snapped(lo, hi, step) - (lo + hi) <= step,
{
    let sum = lo + hi;
    let a = if sum >= 0 {
        sum
    } else {
        -sum
    };
    let q = (a + step) / (2 * step);
    assert(-step <= 2 * (q * step) - a <= step) by (nonlinear_arith)
        requires
            q == (a + step) / (2 * step),
            step > 0,
            a >= 0,
    ;
}

/// The box of every scene of models with plausible sizes can be drawn.
pub proof fn lemma_every_scene_can_be_drawn(instances: Seq<InstanceView>, grids: Seq<GridView>)
    requires
        forall|k: int|
            0 <= k < instances.len() ==> ({
                let size = grids[(#[trigger] instances[k]).model_index as int].size;
                size.x <= 2048 && size.y <= 2048 && size.z <= 2048
            }),
    ensures
        loader::scene_box(instances, grids) matches Some(b) ==> drawable(b),
    decreases instances.len(),
{
    if instances.len() > 0 {
        let rest = instances.drop_last();
        assert forall|k: int| 0 <= k < rest.len() implies ({
            let size = grids[(#[trigger] rest[k]).model_index as int].size;
            size.x <= 2048 && size.y <= 2048 && size.z <= 2048
        }) by {
            assert(rest[k] == instances[k]);
        }
        lemma_every_scene_can_be_drawn(rest, grids);
        let last = instances.last();
        assert(last == instances[instances.len() - 1]);
    }
}

// ---- what is drawn over a scene ---------------------------------------------
/// Whether a number is ten, doubled any number of times.
pub open spec fn is_doubled_ten(n: int) -> bool
    decreases n,
{
    n == 10 || (n > 10 && n % 2 == 0 && is_doubled_ten(n / 2))
}

proof fn lemma_doubling_ten(ground: int, step: int)
    requires
        step > 0,
        is_doubled_ten(step),
        step > 10 ==> 64 * step < 3 * ground,
    ensures
        is_doubled_ten(spacing_from(ground, step)),
        128 * spacing_from(ground, step) >= 3 * ground,
        spacing_from(ground, step) > 10 ==> 64 * spacing_from(ground, step) < 3 * ground,
    decreases 3 * ground - step,
{
    if 128 * step < 3 * ground {
        assert(is_doubled_ten(2 * step));
        lemma_doubling_ten(ground, 2 * step);
    }
}

/// The grid's lines stand one voxel apart, or two, four, eight and so on: the
/// least of these that a third of the ground and more needs no more than
/// thirty-two of on either side. The ground is the longer side of the model seen
/// from above, and never less than eight voxels.
pub proof fn lemma_the_grid_is_as_fine_as_can_be(b: Bounds)
    requires
        drawable(b),
    ensures
        ({
            let g = ground(tenths_of(Some(b)));
            let (x, y) = (10 * (b.max.x - b.min.x), 10 * (b.max.y - b.min.y));
            let s = spacing(g);
            &&& g >= 80 && g >= x && g >= y && (g == 80 || g == x || g == y)
            &&& is_doubled_ten(s)
            &&& 128 * s >= 3 * g
            &&& s > 10 ==> 64 * s < 3 * g
        }),
{
    lemma_doubling_ten(ground(tenths_of(Some(b))), 10);
}

/// The middle of the grid is on one of its lines, as near to the middle of the
/// model as one is.
pub proof fn lemma_the_grid_is_centred_on_the_model(lo: int, hi: int, step: int)
    requires
        step > 0,
    ensures
        snapped(lo, hi, step) % step == 0,
        -step <= 2 * snapped(lo, hi, step) - (lo + hi) <= step,
{
    lemma_snapped(lo, hi, step);
    let sum = lo + hi;
    let a = (sum + step) / (2 * step);
    let b = (step - sum) / (2 * step);
    assert((a * step) % step == 0) by (nonlinear_arith)
        requires
            step > 0,
    ;
    assert((-(b * step)) % step == 0) by (nonlinear_arith)
        requires
            step > 0,
    ;
}

/// The lines of a grid run both ways, evenly spaced from one side to the other,
/// all of one length, and every eighth from the middle is drawn bolder.
pub proof fn lemma_grid_lines_are_even(cx: int, cy: int, step: int, count: int, i: int)
    requires
        step > 0,
        count >= 0,
        -count <= i <= count,
    ensures
        ({
            let lines = grid_lines(cx, cy, step, count);
            let (along, across) = (lines[2 * (i + count)], lines[2 * (i + count) + 1]);
            &&& lines.len() == 4 * count + 2
            &&& along.from == (cx + i * step, cy - count * step, 0int)
            &&& along.to == (cx + i * step, cy + count * step, 0int)
            &&& across.from == (cx - count * step, cy + i * step, 0int)
            &&& across.to == (cx + count * step, cy + i * step, 0int)
            &&& along.stroke == across.stroke
            &&& along.stroke is GridMajor <==> i % 8 == 0
            &&& along.stroke is GridMinor <==> i % 8 != 0
        }),
{
    let k = 2 * (i + count);
    assert(k / 2 == i + count && k % 2 == 0);
    assert((k + 1) / 2 == i + count && (k + 1) % 2 == 1);
}

/// The box has an edge between each two of its corners that differ on one axis
/// alone, and no other.
pub proof fn lemma_the_box_has_its_twelve_edges(b: Bounds, k: int)
    requires
        0 <= k < 12,
    ensures
        ({
            let edges = box_edges(tenths_of(Some(b)));
            let (from, to) = (edges[k].from, edges[k].to);
            &&& edges.len() == 12
            &&& edges[k].stroke is Bbox
            &&& (from.0 == to.0 || (from.0 == 10 * b.min.x && to.0 == 10 * b.max.x))
            &&& (from.1 == to.1 || (from.1 == 10 * b.min.y && to.1 == 10 * b.max.y))
            &&& (from.2 == to.2 || (from.2 == 10 * b.min.z && to.2 == 10 * b.max.z))
            &&& (from.0 == 10 * b.min.x || from.0 == 10 * b.max.x)
            &&& (from.1 == 10 * b.min.y || from.1 == 10 * b.max.y)
            &&& (from.2 == 10 * b.min.z || from.2 == 10 * b.max.z)
        }),
        b.min.x < b.max.x && b.min.y < b.max.y && b.min.z < b.max.z ==> ({
            let edges = box_edges(tenths_of(Some(b)));
            let (from, to) = (edges[k].from, edges[k].to);
            let differ = |p: int, q: int|
                if p != q {
                    1int
                } else {
                    0int
                };
            &&& differ(from.0, to.0) + differ(from.1, to.1) + differ(from.2, to.2) == 1
            &&& forall|j: int|
                0 <= j < 12 && j != k ==> (#[trigger] edges[j]).from != from || edges[j].to != to
        }),
{
}

/// The axes start where the three meet, each in its own colour and all of one
/// length: three fifths of the model's longest side, and at least four voxels.
pub proof fn lemma_axes_are_of_one_length(b: Bounds)
    requires
        drawable(b),
    ensures
        ({
            let axes = axes_of(tenths_of(Some(b)));
            let n = axes[0].to.0;
            &&& axes.len() == 3
            &&& axes[0] == (Segment { from: (0, 0, 0), to: (n, 0, 0), stroke: Stroke::AxisX })
            &&& axes[1] == (Segment { from: (0, 0, 0), to: (0, n, 0), stroke: Stroke::AxisY })
            &&& axes[2] == (Segment { from: (0, 0, 0), to: (0, 0, n), stroke: Stroke::AxisZ })
            &&& n >= 40
            &&& n >= 6 * (b.max.x - b.min.x) && n >= 6 * (b.max.y - b.min.y) && n >= 6 * (b.max.z
                - b.min.z)
            &&& n == 40 || n == 6 * (b.max.x - b.min.x) || n == 6 * (b.max.y - b.min.y) || n == 6 * (
            b.max.z - b.min.z)
        }),
{
}

} // verus!
