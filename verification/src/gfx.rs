//! The decisions the renderer makes that need no GPU.

use vstd::prelude::*;

use crate::mesh::Mesh;
use crate::overlay::Overlays;
use crate::scene::ModelInstance;

verus! {

/// What the model is drawn against.
#[derive(Clone, Copy, Debug, PartialEq, Eq, Structural)]
pub enum Background {
    Dark,
    Light,
}

impl Background {
    /// The other one.
    pub fn toggled(self) -> (r: Background)
        ensures
            r != self,
            r is Dark <==> self is Light,
    {
        match self {
            Background::Dark => Background::Light,
            Background::Light => Background::Dark,
        }
    }
}

// ---- buffers ----------------------------------------------------------------
/// A length brought up to a multiple.
pub open spec fn multiple_above(n: int, of: int) -> int {
    (n + of - 1) / of * of
}

/// The first of a number and its doubles that is no less than another.
pub open spec fn doubled_to(n: int, from: int) -> int
    decreases 2 * n - from,
{
    if from <= 0 || from >= n {
        from
    } else {
        doubled_to(n, 2 * from)
    }
}

/// Whether a number is a power of two.
pub open spec fn is_power_of_two(n: int) -> bool
    decreases n,
{
    n == 1 || n > 1 && n % 2 == 0 && is_power_of_two(n / 2)
}

/// What a buffer holds before anything is written to it.
pub const FIRST_CAPACITY: u64 = 4096;

/// The capacity a buffer needs to take some bytes: what it has where that is
/// enough, and else the next power of two. Sizes and writes both have to be
/// multiples of four.
pub open spec fn capacity_for(capacity: u64, len: int) -> int {
    let needed = multiple_above(len, 4);
    if len == 0 || needed <= capacity {
        capacity as int
    } else {
        doubled_to(needed, 1)
    }
}

/// The capacity a buffer needs to take some bytes.
pub fn grown(capacity: u64, len: u64) -> (r: u64)
    requires
        len <= 0x4000_0000_0000_0000,
    ensures
        r == capacity_for(capacity, len as int),
{
    if len == 0 {
        return capacity;
    }
    let needed: u64 = (len + 3) / 4 * 4;
    if needed <= capacity {
        return capacity;
    }
    let mut size: u64 = 1;
    while size < needed
        invariant
            1 <= size <= 0x8000_0000_0000_0000,
            needed <= 0x4000_0000_0000_0000,
            size < 2 * needed,
            doubled_to(needed as int, 1) == doubled_to(needed as int, size as int),
        decreases 2 * needed - size,
    {
        size = 2 * size;
    }
    size
}

proof fn lemma_doubled(n: int, from: int)
    requires
        from > 0,
        is_power_of_two(from),
    ensures
        doubled_to(n, from) >= n,
        doubled_to(n, from) >= from,
        from < 2 * n ==> doubled_to(n, from) < 2 * n,
        is_power_of_two(doubled_to(n, from)),
    decreases 2 * n - from,
{
    if from < n {
        assert(is_power_of_two(2 * from));
        lemma_doubled(n, 2 * from);
    }
}

/// A grown buffer takes what it was grown for, is no more than twice that, and
/// has a power of two as its size.
pub proof fn lemma_a_grown_buffer_fits(capacity: u64, len: int)
    requires
        0 <= len,
    ensures
        capacity_for(capacity, len) >= len,
        capacity_for(capacity, len) >= capacity,
        capacity_for(capacity, len) > capacity ==> is_power_of_two(capacity_for(capacity, len))
            && capacity_for(capacity, len) < 2 * (len + 4),
{
    let needed = multiple_above(len, 4);
    assert(is_power_of_two(1));
    if len > 0 {
        lemma_doubled(needed, 1);
    }
}

/// The per-model uniforms: how far apart they lie.
pub fn model_stride(alignment: u32) -> (r: u32)
    ensures
        r == (if alignment >= 64 {
            alignment
        } else {
            64
        }),
{
    if alignment >= 64 {
        alignment
    } else {
        64
    }
}

// ---- the scene --------------------------------------------------------------
/// One instance to draw: which model, and where its matrix sits in the
/// per-model uniform buffer.
#[derive(Clone, Copy, Debug, PartialEq, Eq, Structural)]
pub struct Draw {
    pub mesh: usize,
    pub uniform_offset: u32,
}

/// The draws of a scene, one for each instance and in order.
pub fn draws(instances: &Vec<ModelInstance>, stride: u32) -> (r: Vec<Draw>)
    requires
        instances@.len() * stride <= u32::MAX,
    ensures
        r@ == Seq::new(
            instances@.len(),
            |i: int|
                Draw {
                    mesh: instances@[i].model_index,
                    uniform_offset: (i * stride) as u32,
                },
        ),
{
    let mut out: Vec<Draw> = Vec::new();
    let mut i: usize = 0;
    let ghost all = Seq::new(
        instances@.len(),
        |i: int| Draw { mesh: instances@[i].model_index, uniform_offset: (i * stride) as u32 },
    );
    assert(out@ =~= all.subrange(0, 0));
    while i < instances.len()
        invariant
            i <= instances@.len(),
            instances@.len() * stride <= u32::MAX,
            all == Seq::new(
                instances@.len(),
                |i: int|
                    Draw {
                        mesh: instances@[i].model_index,
                        uniform_offset: (i * stride) as u32,
                    },
            ),
            out@ == all.subrange(0, i as int),
        decreases instances@.len() - i,
    {
        assert(0 <= i * stride <= instances@.len() * stride) by (nonlinear_arith)
            requires
                0 <= i <= instances@.len(),
                stride >= 0,
        ;
        let offset: u64 = i as u64 * stride as u64;
        out.push(Draw { mesh: instances[i].model_index, uniform_offset: offset as u32 });
        i += 1;
        assert(out@ =~= all.subrange(0, i as int));
    }
    assert(all.subrange(0, i as int) =~= all);
    out
}

/// The triangles that the first `n` instances draw.
pub open spec fn triangles(instances: Seq<ModelInstance>, meshes: Seq<Mesh>, n: int) -> nat
    decreases n,
{
    if n <= 0 {
        0
    } else {
        let at = instances[n - 1].model_index as int;
        triangles(instances, meshes, n - 1) + (if at < meshes.len() {
            meshes[at].indices@.len() / 3
        } else {
            0
        })
    }
}

proof fn lemma_triangles_grow(instances: Seq<ModelInstance>, meshes: Seq<Mesh>, n: int, m: int)
    requires
        0 <= n <= m,
    ensures
        triangles(instances, meshes, n) <= triangles(instances, meshes, m),
    decreases m - n,
{
    if n < m {
        lemma_triangles_grow(instances, meshes, n, m - 1);
    }
}

/// Triangles a scene draws, for the HUD: a model counts once for each place it
/// stands in.
pub fn triangle_count(instances: &Vec<ModelInstance>, meshes: &Vec<Mesh>) -> (r: usize)
    requires
        triangles(instances@, meshes@, instances@.len() as int) <= usize::MAX,
    ensures
        r == triangles(instances@, meshes@, instances@.len() as int),
{
    let mut n: usize = 0;
    let mut i: usize = 0;
    while i < instances.len()
        invariant
            i <= instances@.len(),
            triangles(instances@, meshes@, instances@.len() as int) <= usize::MAX,
            n == triangles(instances@, meshes@, i as int),
        decreases instances@.len() - i,
    {
        proof {
            lemma_triangles_grow(instances@, meshes@, i + 1, instances@.len() as int);
        }
        let at: usize = instances[i].model_index;
        if at < meshes.len() {
            n += meshes[at].triangle_count();
        }
        i += 1;
    }
    n
}

/// Which of the overlays to draw: those that are on and hold something, in the
/// order they lie in the buffer.
pub open spec fn wanted(o: Overlays, grid: bool, bbox: bool, axes: bool) -> Seq<(u32, u32)> {
    let a = if grid && o.grid.start < o.grid.end {
        seq![(o.grid.start, o.grid.end)]
    } else {
        Seq::empty()
    };
    let b = if bbox && o.bbox.start < o.bbox.end {
        a.push((o.bbox.start, o.bbox.end))
    } else {
        a
    };
    if axes && o.axes.start < o.axes.end {
        b.push((o.axes.start, o.axes.end))
    } else {
        b
    }
}

/// Where the overlays to draw begin and end.
pub fn wanted_ranges(o: &Overlays, grid: bool, bbox: bool, axes: bool) -> (r: Vec<(u32, u32)>)
    ensures
        r@ == wanted(*o, grid, bbox, axes),
{
    let mut out: Vec<(u32, u32)> = Vec::new();
    if grid && o.grid.start < o.grid.end {
        out.push((o.grid.start, o.grid.end));
    }
    if bbox && o.bbox.start < o.bbox.end {
        out.push((o.bbox.start, o.bbox.end));
    }
    if axes && o.axes.start < o.axes.end {
        out.push((o.axes.start, o.axes.end));
    }
    assert(out@ =~= wanted(*o, grid, bbox, axes));
    out
}

// ---- the surface ------------------------------------------------------------
/// What came of asking the surface for a frame.
#[derive(Clone, Copy, Debug, PartialEq, Eq, Structural)]
pub enum Acquired {
    Success,
    Suboptimal,
    Outdated,
    Lost,
    Timeout,
    Occluded,
    Validation,
}

/// What to do about it.
#[derive(Clone, Copy, Debug, PartialEq, Eq, Structural)]
pub struct FrameStep {
    pub reconfigure: bool,
    pub draw: bool,
    /// Say that the surface rejected a frame.
    pub complain: bool,
}

/// Surfaces go stale on their own -- a resize, a monitor change, a compositor
/// restart -- so a frame that cannot be drawn is skipped, and a stale surface
/// set up anew so that the next one is clean.
pub fn frame_step(acquired: Acquired) -> (r: FrameStep)
    ensures
        r.draw == (acquired is Success || acquired is Suboptimal),
        r.reconfigure == (acquired is Suboptimal || acquired is Outdated || acquired is Lost),
        r.complain == (acquired is Validation),
{
    match acquired {
        Acquired::Success => FrameStep { reconfigure: false, draw: true, complain: false },
        Acquired::Suboptimal => FrameStep { reconfigure: true, draw: true, complain: false },
        Acquired::Outdated | Acquired::Lost => FrameStep {
            reconfigure: true,
            draw: false,
            complain: false,
        },
        Acquired::Timeout | Acquired::Occluded => FrameStep {
            reconfigure: false,
            draw: false,
            complain: false,
        },
        Acquired::Validation => FrameStep { reconfigure: false, draw: false, complain: true },
    }
}

/// The size of a surface after its window changed size. A window with no inside
/// leaves it as it is.
pub fn resized(width: u32, height: u32) -> (r: Option<(u32, u32)>)
    ensures
        r == (if width == 0 || height == 0 {
            None
        } else {
            Some((width, height))
        }),
{
    if width == 0 || height == 0 {
        None
    } else {
        Some((width, height))
    }
}

/// Which of the formats a surface offers to take: the first that is encoded in
/// sRGB, or else the first.
pub fn pick_format(srgb: &Vec<bool>) -> (r: usize)
    ensures
        r == (match srgb@.index_of_first(true) {
            Some(i) => i,
            None => 0,
        }),
{
    proof {
        srgb@.index_of_first_ensures(true);
    }
    let mut i: usize = 0;
    while i < srgb.len()
        invariant
            i <= srgb@.len(),
            forall|k: int| 0 <= k < i ==> !#[trigger] srgb@[k],
        decreases srgb@.len() - i,
    {
        if srgb[i] {
            proof {
                srgb@.index_of_first_ensures(true);
                assert(srgb@[i as int]);
                let j = srgb@.index_of_first(true)->0;
                assert(srgb@[j]);
            }
            return i;
        }
        i += 1;
    }
    proof {
        srgb@.index_of_first_ensures(true);
    }
    0
}

/// Which of the multisample counts on offer to take: the largest that is not
/// above the one asked for, or a single sample where there is none.
pub fn pick_samples(supported: &Vec<u32>, wanted: u32) -> (r: u32)
    ensures
        if exists|k: int| 0 <= k < supported@.len() && #[trigger] supported@[k] <= wanted {
            &&& supported@.contains(r)
            &&& r <= wanted
            &&& forall|k: int|
                0 <= k < supported@.len() && #[trigger] supported@[k] <= wanted ==> supported@[k]
                    <= r
        } else {
            r == 1
        },
{
    let mut best: Option<u32> = None;
    let mut i: usize = 0;
    while i < supported.len()
        invariant
            i <= supported@.len(),
            match best {
                Some(b) => supported@.contains(b) && b <= wanted && forall|k: int|
                    0 <= k < i && #[trigger] supported@[k] <= wanted ==> supported@[k] <= b,
                None => forall|k: int| 0 <= k < i ==> #[trigger] supported@[k] > wanted,
            },
        decreases supported@.len() - i,
    {
        let n: u32 = supported[i];
        if n <= wanted {
            best = match best {
                Some(b) if n < b => Some(b),
                _ => Some(n),
            };
        }
        i += 1;
    }
    match best {
        Some(b) => b,
        None => 1,
    }
}

// ---- screenshots ------------------------------------------------------------
/// Copy destinations need rows of a multiple of so many bytes.
pub const ROW_ALIGNMENT: u64 = 256;

/// The bytes of one row of a picture in a copy destination.
pub fn padded_row(width: u32) -> (r: u64)
    ensures
        r == multiple_above(4 * width, 256),
        r >= 4 * width,
{
    let bytes: u64 = width as u64 * 4;
    (bytes + (ROW_ALIGNMENT - 1)) / ROW_ALIGNMENT * ROW_ALIGNMENT
}

/// A byte of a pixel read back: red and blue change places where the surface
/// has them the other way round.
pub open spec fn channel(k: int, swap: bool) -> int {
    if swap && k == 0 {
        2
    } else if swap && k == 2 {
        0
    } else {
        k
    }
}

/// How many rows of a picture were read back.
pub open spec fn rows_read(len: int, padded: int, height: int) -> int {
    if len / padded < height {
        len / padded
    } else {
        height
    }
}

/// The pixels of a picture that was read back: its rows without their padding,
/// in red, green, blue, alpha order.
pub open spec fn unpadded(
    data: Seq<u8>,
    width: int,
    height: int,
    padded: int,
    swap: bool,
) -> Seq<u8> {
    Seq::new(
        (rows_read(data.len() as int, padded, height) * (4 * width)) as nat,
        |i: int|
            {
                let (row, at) = (i / (4 * width), i % (4 * width));
                data[row * padded + at / 4 * 4 + channel(at % 4, swap)]
            },
    )
}

/// Take the padding out of a picture that was read back.
pub fn unpad(data: &[u8], width: u32, height: u32, padded: usize, swap: bool) -> (r: Vec<u8>)
    requires
        padded > 0,
        4 * width <= padded,
    ensures
        r@ == unpadded(data@, width as int, height as int, padded as int, swap),
{
    let bytes: usize = width as usize * 4;
    let total: usize = data.len();
    let whole: usize = total / padded;
    let rows: usize = if (whole as u64) < height as u64 {
        whole
    } else {
        height as usize
    };
    let ghost all = unpadded(data@, width as int, height as int, padded as int, swap);
    assert(rows * padded <= data@.len()) by (nonlinear_arith)
        requires
            rows <= data@.len() / (padded as nat),
            padded > 0,
    ;
    let mut out: Vec<u8> = Vec::new();
    let mut row: usize = 0;
    assert(all.subrange(0, 0) =~= Seq::empty());
    assert(0 * bytes == 0) by (nonlinear_arith);
    while row < rows
        invariant
            row <= rows,
            rows == rows_read(data@.len() as int, padded as int, height as int),
            rows * padded <= data@.len(),
            total == data@.len(),
            bytes == 4 * width,
            bytes <= padded,
            all == unpadded(data@, width as int, height as int, padded as int, swap),
            all.len() == rows * bytes,
            out@ == all.subrange(0, row * bytes),
        decreases rows - row,
    {
        assert(row * padded + padded <= rows * padded && row * bytes + bytes <= rows * bytes)
            by (nonlinear_arith)
            requires
                row < rows,
                padded >= 0,
                bytes >= 0,
        ;
        let start: usize = row * padded;
        let mut x: usize = 0;
        assert(all.subrange(0, row * bytes + 0) =~= all.subrange(0, row * bytes));
        while x < width as usize
            invariant
                x <= width,
                row < rows,
                bytes == 4 * width,
                bytes <= padded,
                start == row * padded,
                start + padded <= data@.len(),
                total == data@.len(),
                row * bytes + bytes <= all.len(),
                row * bytes >= 0,
                all == unpadded(data@, width as int, height as int, padded as int, swap),
                out@ == all.subrange(0, row * bytes + 4 * x),
            decreases width - x,
        {
            let at: usize = start + 4 * x;
            let (r, g, b, a): (u8, u8, u8, u8) = (data[at], data[at + 1], data[at + 2], data[at + 3]);
            let (first, third): (u8, u8) = if swap {
                (b, r)
            } else {
                (r, b)
            };
            out.push(first);
            out.push(g);
            out.push(third);
            out.push(a);
            proof {
                let base = row * bytes + 4 * x;
                lemma_pixel(all, data@, width as int, row as int, x as int, padded as int, swap, 0);
                lemma_pixel(all, data@, width as int, row as int, x as int, padded as int, swap, 1);
                lemma_pixel(all, data@, width as int, row as int, x as int, padded as int, swap, 2);
                lemma_pixel(all, data@, width as int, row as int, x as int, padded as int, swap, 3);
                assert(out@ =~= all.subrange(0, base + 4));
            }
            x += 1;
        }
        assert(row * bytes + bytes == (row + 1) * bytes) by (nonlinear_arith);
        row += 1;
    }
    assert(all.subrange(0, rows * bytes) =~= all);
    out
}

proof fn lemma_pixel(
    all: Seq<u8>,
    data: Seq<u8>,
    width: int,
    row: int,
    x: int,
    padded: int,
    swap: bool,
    k: int,
)
    requires
        0 <= x < width,
        0 <= row,
        0 <= k < 4,
        row * (4 * width) + 4 * x + k < all.len(),
        forall|i: int|
            0 <= i < all.len() ==> #[trigger] all[i] == data[i / (4 * width) * padded + i % (4
                * width) / 4 * 4 + channel(i % (4 * width) % 4, swap)],
    ensures
        all[row * (4 * width) + 4 * x + k] == data[row * padded + 4 * x + channel(k, swap)],
{
    let n = 4 * width;
    let i = row * n + (4 * x + k);
    vstd::arithmetic::div_mod::lemma_fundamental_div_mod_converse(i, n, row, 4 * x + k);
    assert(i >= 0) by (nonlinear_arith)
        requires
            i == row * n + (4 * x + k),
            row >= 0,
            n >= 0,
            x >= 0,
            k >= 0,
    ;
    assert((4 * x + k) / 4 * 4 == 4 * x && (4 * x + k) % 4 == k);
}

/// Rows for the screen start at multiples of 256 bytes, each at the first one
/// that leaves room for the row before.
pub proof fn lemma_rows_start_at_multiples_of_256(width: u32)
    ensures
        multiple_above(4 * width, 256) % 256 == 0,
        4 * width <= multiple_above(4 * width, 256) < 4 * width + 256,
{
}

/// A buffer that holds what is needed, counted up to the next four bytes, is
/// kept as it is.
pub proof fn lemma_a_buffer_that_fits_is_kept(capacity: u64, len: int)
    requires
        0 <= len,
        len + 3 <= capacity || (len % 4 == 0 && len <= capacity),
    ensures
        capacity_for(capacity, len) == capacity,
{
}

/// The picture taken off the screen is the one on it: of each pixel in it, red,
/// green, blue and alpha come out in this order, whichever way round the screen
/// holds red and blue, and what fills the rows up is left out.
pub proof fn lemma_a_picture_has_its_pixels(
    data: Seq<u8>,
    width: int,
    height: int,
    padded: int,
    swap: bool,
    x: int,
    y: int,
)
    requires
        0 <= x < width,
        0 <= y < height,
        4 * width <= padded,
        data.len() >= height * padded,
    ensures
        ({
            let out = unpadded(data, width, height, padded, swap);
            let (to, from) = (y * (4 * width) + 4 * x, y * padded + 4 * x);
            &&& out.len() == height * (4 * width)
            &&& out[to] == data[from + if swap {
                2int
            } else {
                0int
            }]
            &&& out[to + 1] == data[from + 1]
            &&& out[to + 2] == data[from + if swap {
                0int
            } else {
                2int
            }]
            &&& out[to + 3] == data[from + 3]
        }),
{
    let out = unpadded(data, width, height, padded, swap);
    let rows = data.len() as int / padded;
    assert(rows >= height) by (nonlinear_arith)
        requires
            rows == data.len() as int / padded,
            data.len() as int >= height * padded,
            padded > 0,
            height > 0,
    ;
    let wide = 4 * width;
    assert(y * wide + wide <= height * wide) by (nonlinear_arith)
        requires
            y + 1 <= height,
            wide > 0,
    ;
    assert(0 <= y * wide) by (nonlinear_arith)
        requires
            y >= 0,
            wide > 0,
    ;
    assert(rows_read(data.len() as int, padded, height) == height);
    assert(out.len() == height * wide);
    assert forall|i: int| 0 <= i < out.len() implies #[trigger] out[i] == data[i / (4 * width)
        * padded + i % (4 * width) / 4 * 4 + channel(i % (4 * width) % 4, swap)] by {}
    lemma_pixel(out, data, width, y, x, padded, swap, 0);
    lemma_pixel(out, data, width, y, x, padded, swap, 1);
    lemma_pixel(out, data, width, y, x, padded, swap, 2);
    lemma_pixel(out, data, width, y, x, padded, swap, 3);
}

/// The lines drawn over the scene are those that are turned on and have any
/// points, the grid first, then the box, then the axes.
pub proof fn lemma_only_what_is_turned_on_is_drawn(o: Overlays, grid: bool, bbox: bool, axes: bool)
    requires
        o.grid.start < o.grid.end,
        o.bbox.start < o.bbox.end,
        o.axes.start < o.axes.end,
    ensures
        ({
            let (g, b, a) = (
                (o.grid.start, o.grid.end),
                (o.bbox.start, o.bbox.end),
                (o.axes.start, o.axes.end),
            );
            wanted(o, grid, bbox, axes) == (match (grid, bbox, axes) {
                (true, true, true) => seq![g, b, a],
                (true, true, false) => seq![g, b],
                (true, false, true) => seq![g, a],
                (true, false, false) => seq![g],
                (false, true, true) => seq![b, a],
                (false, true, false) => seq![b],
                (false, false, true) => seq![a],
                (false, false, false) => Seq::<(u32, u32)>::empty(),
            })
        }),
{
    let (g, b, a) = (
        (o.grid.start, o.grid.end),
        (o.bbox.start, o.bbox.end),
        (o.axes.start, o.axes.end),
    );
    assert(seq![g].push(b).push(a) =~= seq![g, b, a]);
    assert(seq![g].push(b) =~= seq![g, b]);
    assert(seq![g].push(a) =~= seq![g, a]);
    assert(seq![b].push(a) =~= seq![b, a]);
    let none = Seq::<(u32, u32)>::empty();
    assert(none.push(b) =~= seq![b]);
    assert(none.push(a) =~= seq![a]);
    assert(none.push(b).push(a) =~= seq![b, a]);
}

/// Lines without points are not drawn.
pub proof fn lemma_nothing_is_drawn_of_empty_lines(o: Overlays, grid: bool, bbox: bool, axes: bool)
    ensures
        forall|i: int|
            0 <= i < wanted(o, grid, bbox, axes).len() ==> (#[trigger] wanted(
                o,
                grid,
                bbox,
                axes,
            )[i]).0 < wanted(o, grid, bbox, axes)[i].1,
{
}

/// The triangles on screen are those of every placement: a model placed twice
/// counts twice, and three indices make one.
pub proof fn lemma_every_placement_draws_its_triangles(
    instances: Seq<ModelInstance>,
    meshes: Seq<Mesh>,
    n: int,
    each: nat,
)
    requires
        0 <= n <= instances.len(),
        forall|i: int|
            0 <= i < n ==> (#[trigger] instances[i]).model_index < meshes.len()
                && meshes[instances[i].model_index as int].indices@.len() == 3 * each,
    ensures
        triangles(instances, meshes, n) == n * each,
    decreases n,
{
    if n > 0 {
        lemma_every_placement_draws_its_triangles(instances, meshes, n - 1, each);
        assert(instances[n - 1].model_index < meshes.len());
        assert((n - 1) * each + each == n * each) by (nonlinear_arith);
    } else {
        assert(n * each == 0) by (nonlinear_arith)
            requires
                n == 0,
        ;
    }
}

} // verus!
