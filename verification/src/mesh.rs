//! Greedy meshing.
//!
//! For each of the six face directions the model is swept slice by slice. A
//! slice gives a 2-D mask of its visible faces, and the mask is merged into as
//! few axis-aligned rectangles as possible. That is the classic greedy
//! algorithm; the only twist here is that the merge key carries the face's
//! ambient-occlusion value as well as its palette index, so a quad is only
//! merged across faces that shade identically.
//!
//! Meshes are built in the model's own local space, `0..size`. Placing them in
//! the world is the job of [`crate::scene::VoxTransform`].

use vstd::prelude::*;

use crate::geom;
use crate::geom::IVec3;
use crate::model;
use crate::model::{GridView, VoxelGrid};

verus! {

/// The direction a face looks in. Faces are numbered `+X, -X, +Y, -Y, +Z, -Z`.
pub open spec fn normal_of(face: int) -> (int, int, int) {
    let d = step(face);
    place(face / 2, d, 0, 0)
}

/// One along the face's axis, or one back.
pub open spec fn step(face: int) -> int {
    if face % 2 == 0 {
        1
    } else {
        -1
    }
}

/// The cell `slice` along `axis`, `a` along the next axis and `b` along the one after.
///
/// The three axes in that order are a right-handed basis, which is what makes
/// the winding of the quads come out the same way for all of them.
pub open spec fn place(axis: int, slice: int, a: int, b: int) -> (int, int, int) {
    if axis == 0 {
        (slice, a, b)
    } else if axis == 1 {
        (b, slice, a)
    } else {
        (a, b, slice)
    }
}

/// How far the grid reaches along `axis`, the next axis, and the one after.
pub open spec fn reach(g: GridView, axis: int) -> (int, int, int) {
    if axis == 0 {
        (g.size.x as int, g.size.y as int, g.size.z as int)
    } else if axis == 1 {
        (g.size.y as int, g.size.z as int, g.size.x as int)
    } else {
        (g.size.z as int, g.size.x as int, g.size.y as int)
    }
}

pub open spec fn at_place(g: GridView, axis: int, slice: int, a: int, b: int) -> Option<u8> {
    let p = place(axis, slice, a, b);
    g.at(p.0, p.1, p.2)
}

/// A mesh vertex.
///
/// Colour is not stored here: the vertex carries a *palette index* and the
/// shader looks the colour up in a 256-entry uniform.
#[derive(Clone, Copy, Debug, PartialEq, Eq, Structural)]
pub struct Vertex {
    pub position: IVec3,
    /// Bits 0-7 palette index, bits 8-10 face index, bits 11-18 occlusion (0-255).
    pub packed: u32,
}

/// The word that carries a palette index, a face and an occlusion value.
pub open spec fn pack(palette_index: u8, face: u32, ao: u8) -> u32 {
    palette_index as u32 | (face << 8) | ((ao as u32) << 11)
}

impl Vertex {
    pub fn new(position: IVec3, palette_index: u8, face: usize, ao: u8) -> (v: Vertex)
        requires
            face < 8,
        ensures
            v.position == position,
            v.packed == pack(palette_index, face as u32, ao),
            v.spec_palette_index() == palette_index,
            v.spec_face() == face,
            v.spec_ao() == ao,
    {
        let f: u32 = face as u32;
        proof {
            lemma_pack(palette_index, f, ao);
        }
        Vertex { position, packed: palette_index as u32 | (f << 8) | ((ao as u32) << 11) }
    }

    pub open spec fn spec_palette_index(self) -> u8 {
        (self.packed & 0xff) as u8
    }

    pub open spec fn spec_face(self) -> u32 {
        (self.packed >> 8) & 0b111
    }

    pub open spec fn spec_ao(self) -> u8 {
        ((self.packed >> 11) & 0xff) as u8
    }

    pub fn palette_index(self) -> (r: u8)
        ensures
            r == self.spec_palette_index(),
    {
        (self.packed & 0xff) as u8
    }

    pub fn face(self) -> (r: usize)
        ensures
            r == self.spec_face(),
            r < 8,
    {
        let p: u32 = self.packed;
        assert((p >> 8) & 0b111 < 8) by (bit_vector);
        ((self.packed >> 8) & 0b111) as usize
    }

    pub fn ao(self) -> (r: u8)
        ensures
            r == self.spec_ao(),
    {
        ((self.packed >> 11) & 0xff) as u8
    }
}

/// Packing a vertex word loses nothing.
pub proof fn lemma_pack(palette_index: u8, face: u32, ao: u8)
    requires
        face < 8,
    ensures
        (pack(palette_index, face, ao) & 0xff) as u8 == palette_index,
        (pack(palette_index, face, ao) >> 8) & 0b111 == face,
        ((pack(palette_index, face, ao) >> 11) & 0xff) as u8 == ao,
{
    let c: u32 = palette_index as u32;
    let o: u32 = ao as u32;
    let w: u32 = c | (face << 8) | (o << 11);
    assert((w & 0xff) == c && (w >> 8) & 0b111 == face && (w >> 11) & 0xff == o) by (bit_vector)
        requires
            w == c | (face << 8) | (o << 11),
            c < 256,
            face < 8,
            o < 256,
    ;
}

/// Triangles for one model.
#[derive(Clone, Debug)]
pub struct Mesh {
    pub vertices: Vec<Vertex>,
    /// Three per triangle: the opaque triangles, then the blended ones.
    pub indices: Vec<u32>,
    /// How many of the indices belong to the opaque pass.
    pub opaque: usize,
}

/// What makes two faces mergeable: same colour, same shading.
#[derive(Clone, Copy, Debug, PartialEq, Eq, Structural)]
pub struct FaceKey {
    pub palette_index: u8,
    pub ao: u8,
}

/// A rectangle of equal faces in one slice: a corner, a width and a height.
pub struct Rect {
    pub a: int,
    pub b: int,
    pub w: int,
    pub h: int,
    pub key: FaceKey,
}

impl Rect {
    pub open spec fn covers(self, a: int, b: int) -> bool {
        self.a <= a < self.a + self.w && self.b <= b < self.b + self.h
    }
}

/// A rectangle together with the slice and the direction it was found in.
pub struct Quad {
    pub face: int,
    pub slice: int,
    pub rect: Rect,
}

// ---- what is visible ----------------------------------------------------
/// One for a solid cell, none for an empty one.
pub open spec fn unit_of(b: bool) -> int {
    if b {
        1
    } else {
        0
    }
}

/// The occlusion term at one corner of a face: the two cells beside the corner
/// and the one diagonally across, in the layer in front of the face.
pub open spec fn corner_light(side_u: bool, side_v: bool, diagonal: bool) -> int {
    if side_u && side_v {
        0
    } else {
        3 - (unit_of(side_u) + unit_of(side_v) + unit_of(diagonal))
    }
}

/// Whether the cell offset by `(i, j)` in the layer in front of the face is solid.
#[verifier::opaque]
pub open spec fn front(g: GridView, face: int, slice: int, a: int, b: int, i: int, j: int) -> bool {
    at_place(g, face / 2, slice + step(face), a + i, b + j) is Some
}

pub open spec fn light_at(
    g: GridView,
    face: int,
    slice: int,
    a: int,
    b: int,
    i: int,
    j: int,
) -> int {
    corner_light(
        front(g, face, slice, a, b, i, 0),
        front(g, face, slice, a, b, 0, j),
        front(g, face, slice, a, b, i, j),
    )
}

/// Ambient occlusion of one face: the four corner terms, summed and scaled to 0-255.
pub open spec fn occlusion(g: GridView, face: int, slice: int, a: int, b: int) -> int {
    (light_at(g, face, slice, a, b, -1, -1) + light_at(g, face, slice, a, b, -1, 1) + light_at(
        g,
        face,
        slice,
        a,
        b,
        1,
        -1,
    ) + light_at(g, face, slice, a, b, 1, 1)) * 255 / 12
}

/// The key of the face a cell shows in a direction, or `None` where the cell
/// is empty or the face is hidden by a neighbour.
pub open spec fn face_key(g: GridView, face: int, slice: int, a: int, b: int) -> Option<FaceKey> {
    match at_place(g, face / 2, slice, a, b) {
        Some(palette_index) => if at_place(g, face / 2, slice + step(face), a, b) is Some {
            None
        } else {
            Some(FaceKey { palette_index, ao: occlusion(g, face, slice, a, b) as u8 })
        },
        None => None,
    }
}

/// The visible faces of one slice, row by row.
pub open spec fn mask_of(g: GridView, face: int, slice: int) -> Seq<Option<FaceKey>> {
    let (_, su, sv) = reach(g, face / 2);
    Seq::new((su * sv) as nat, |i: int| face_key(g, face, slice, i % su, i / su))
}

// ---- merging a slice ----------------------------------------------------
/// How many entries from `from` on, up to `end`, hold `key` without a gap.
pub open spec fn run(mask: Seq<Option<FaceKey>>, from: int, end: int, key: FaceKey) -> int
    decreases end - from,
{
    if from < end && mask[from] == Some(key) {
        1 + run(mask, from + 1, end, key)
    } else {
        0
    }
}

/// How many rows from `b` on hold `key` in each of the `w` columns from `a` on.
pub open spec fn rows(
    mask: Seq<Option<FaceKey>>,
    su: int,
    sv: int,
    a: int,
    b: int,
    w: int,
    key: FaceKey,
) -> int
    decreases sv - b,
{
    if b < sv && run(mask, a + su * b, a + su * b + w, key) >= w {
        1 + rows(mask, su, sv, a, b + 1, w, key)
    } else {
        0
    }
}

/// The largest rectangle the mask allows at a corner: as wide as the run of
/// equal faces there, then as tall as that whole run repeats.
pub open spec fn rect_at(
    mask: Seq<Option<FaceKey>>,
    su: int,
    sv: int,
    a: int,
    b: int,
    key: FaceKey,
) -> Rect {
    let w = run(mask, a + su * b, su * b + su, key);
    Rect { a, b, w, h: rows(mask, su, sv, a, b, w, key), key }
}

/// The mask with the faces of a rectangle taken out.
pub open spec fn without(mask: Seq<Option<FaceKey>>, su: int, r: Rect) -> Seq<Option<FaceKey>> {
    Seq::new(
        mask.len(),
        |i: int|
            if r.covers(i % su, i / su) {
                None
            } else {
                mask[i]
            },
    )
}

/// The rectangles of a mask from a position on, in reading order: the first
/// face that is left gives its rectangle, which is then taken out.
pub open spec fn merge_from(
    mask: Seq<Option<FaceKey>>,
    su: int,
    sv: int,
    a: int,
    b: int,
) -> Seq<Rect>
    decreases sv - b, su - a,
    when 0 <= a && 0 <= b
    via merge_from_decreases
{
    if b >= sv {
        Seq::empty()
    } else if a >= su {
        merge_from(mask, su, sv, 0, b + 1)
    } else {
        match mask[a + su * b] {
            None => merge_from(mask, su, sv, a + 1, b),
            Some(key) => {
                let r = rect_at(mask, su, sv, a, b, key);
                seq![r] + merge_from(without(mask, su, r), su, sv, a + r.w, b)
            },
        }
    }
}

#[via_fn]
proof fn merge_from_decreases(
    mask: Seq<Option<FaceKey>>,
    su: int,
    sv: int,
    a: int,
    b: int,
) {
    if 0 <= a < su && 0 <= b < sv {
        if let Some(key) = mask[a + su * b] {
            lemma_run(mask, a + su * b, su * b + su, key);
            assert(run(mask, a + su * b, su * b + su, key) >= 1);
        }
    }
}

pub open spec fn merged(mask: Seq<Option<FaceKey>>, su: int, sv: int) -> Seq<Rect> {
    merge_from(mask, su, sv, 0, 0)
}

/// A run stays inside its limits, holds the key throughout, and stops where the key does.
proof fn lemma_run(mask: Seq<Option<FaceKey>>, from: int, end: int, key: FaceKey)
    ensures
        0 <= run(mask, from, end, key),
        from <= end ==> run(mask, from, end, key) <= end - from,
        forall|i: int| from <= i < from + run(mask, from, end, key) ==> mask[i] == Some(key),
        from + run(mask, from, end, key) < end ==> mask[from + run(mask, from, end, key)] != Some(key),
    decreases end - from,
{
    if from < end && mask[from] == Some(key) {
        lemma_run(mask, from + 1, end, key);
    }
}

/// A run is as long as the entries that hold the key, where all of them do.
proof fn lemma_run_full(mask: Seq<Option<FaceKey>>, from: int, end: int, key: FaceKey)
    requires
        from <= end,
        forall|i: int| from <= i < end ==> mask[i] == Some(key),
    ensures
        run(mask, from, end, key) == end - from,
    decreases end - from,
{
    if from < end {
        lemma_run_full(mask, from + 1, end, key);
    }
}

proof fn lemma_rows(
    mask: Seq<Option<FaceKey>>,
    su: int,
    sv: int,
    a: int,
    b: int,
    w: int,
    key: FaceKey,
)
    ensures
        0 <= rows(mask, su, sv, a, b, w, key),
        b <= sv ==> b + rows(mask, su, sv, a, b, w, key) <= sv,
        forall|i: int, j: int|
            #![trigger mask[a + i + su * j]]
            0 <= i < w && b <= j < b + rows(mask, su, sv, a, b, w, key) ==> mask[a + i + su * j]
                == Some(key),
    decreases sv - b,
{
    if b < sv && run(mask, a + su * b, a + su * b + w, key) >= w {
        lemma_rows(mask, su, sv, a, b + 1, w, key);
        lemma_run(mask, a + su * b, a + su * b + w, key);
        assert forall|i: int, j: int|
            #![trigger mask[a + i + su * j]]
            0 <= i < w && b <= j < b + rows(mask, su, sv, a, b, w, key) implies mask[a + i + su * j]
            == Some(key) by {
            if j == b {
                assert(mask[a + su * b + i] == Some(key));
            }
        }
    }
}

/// A rectangle found at a face covers that face, stays on the mask, and covers
/// nothing but faces of its own key.
proof fn lemma_rect_at(
    mask: Seq<Option<FaceKey>>,
    su: int,
    sv: int,
    a: int,
    b: int,
    key: FaceKey,
)
    requires
        0 <= a < su,
        0 <= b < sv,
        mask.len() == su * sv,
        mask[a + su * b] == Some(key),
    ensures
        ({
            let r = rect_at(mask, su, sv, a, b, key);
            &&& r.w >= 1
            &&& r.h >= 1
            &&& r.a + r.w <= su
            &&& r.b + r.h <= sv
            &&& forall|i: int, j: int|
                #![trigger mask[i + su * j]]
                r.covers(i, j) ==> mask[i + su * j] == Some(key)
        }),
{
    let r = rect_at(mask, su, sv, a, b, key);
    lemma_run(mask, a + su * b, su * b + su, key);
    lemma_run(mask, a + su * b + 1, su * b + su, key);
    lemma_rows(mask, su, sv, a, b, r.w, key);
    lemma_rows(mask, su, sv, a, b + 1, r.w, key);
    assert forall|i: int| a + su * b <= i < a + su * b + r.w implies mask[i] == Some(key) by {}
    lemma_run_full(mask, a + su * b, a + su * b + r.w, key);
    assert forall|i: int, j: int|
        #![trigger mask[i + su * j]]
        r.covers(i, j) implies mask[i + su * j] == Some(key) by {
        assert(mask[a + (i - a) + su * j] == Some(key));
        assert(a + (i - a) + su * j == i + su * j);
    }
}

// ---- the laws of merging a slice ----------------------------------------
/// Whether some rectangle of the list covers the face.
pub open spec fn covered(rects: Seq<Rect>, a: int, b: int) -> bool {
    exists|k: int| 0 <= k < rects.len() && #[trigger] rects[k].covers(a, b)
}

/// Whether a position comes at or after another in reading order.
pub open spec fn from_on(a: int, b: int, a0: int, b0: int) -> bool {
    b > b0 || (b == b0 && a >= a0)
}

/// No face is left before a position.
pub open spec fn swept(mask: Seq<Option<FaceKey>>, su: int, sv: int, a0: int, b0: int) -> bool {
    forall|a: int, b: int|
        #![trigger mask[a + su * b]]
        0 <= a < su && 0 <= b < sv && !from_on(a, b, a0, b0) ==> mask[a + su * b] is None
}

/// The rectangles tile the mask: each lies on it, covers only faces of its own
/// key, no face is covered twice, and no face is left out.
pub open spec fn tiles(rects: Seq<Rect>, mask: Seq<Option<FaceKey>>, su: int, sv: int) -> bool {
    &&& forall|k: int|
        0 <= k < rects.len() ==> {
            let r = #[trigger] rects[k];
            &&& 0 <= r.a && 0 <= r.b && 1 <= r.w && 1 <= r.h && r.a + r.w <= su && r.b + r.h <= sv
        }
    &&& forall|k: int, a: int, b: int|
        #![trigger rects[k].covers(a, b)]
        0 <= k < rects.len() && rects[k].covers(a, b) ==> mask[a + su * b] == Some(rects[k].key)
    &&& forall|k: int, l: int, a: int, b: int|
        #![trigger rects[k].covers(a, b), rects[l].covers(a, b)]
        0 <= k < l < rects.len() ==> !(rects[k].covers(a, b) && rects[l].covers(a, b))
    &&& forall|a: int, b: int|
        #![trigger mask[a + su * b]]
        0 <= a < su && 0 <= b < sv && mask[a + su * b] is Some ==> covered(rects, a, b)
}

proof fn lemma_without(mask: Seq<Option<FaceKey>>, su: int, sv: int, r: Rect, a: int, b: int)
    requires
        mask.len() == su * sv,
        0 <= a < su,
        0 <= b < sv,
    ensures
        without(mask, su, r)[a + su * b] == (if r.covers(a, b) {
            None::<FaceKey>
        } else {
            mask[a + su * b]
        }),
{
    geom::lemma_pack_bound(a, b, su, sv);
    geom::lemma_pack_unpack(a, b, su);
}

proof fn lemma_merge_tiles(mask: Seq<Option<FaceKey>>, su: int, sv: int, a: int, b: int)
    requires
        mask.len() == su * sv,
        0 <= a,
        0 <= b,
        0 <= su,
        swept(mask, su, sv, a, b),
    ensures
        tiles(merge_from(mask, su, sv, a, b), mask, su, sv),
        merge_from(mask, su, sv, a, b).len() <= model::count_some(mask),
    decreases sv - b, su - a,
{
    reveal_with_fuel(merge_from, 2);
    if b >= sv {
    } else if a >= su {
        assert(swept(mask, su, sv, 0, b + 1)) by {
            assert forall|a2: int, b2: int|
                #![trigger mask[a2 + su * b2]]
                0 <= a2 < su && 0 <= b2 < sv && !from_on(a2, b2, 0, b + 1) implies mask[a2 + su
                * b2] is None by {
                assert(!from_on(a2, b2, a, b));
            }
        }
        lemma_merge_tiles(mask, su, sv, 0, b + 1);
    } else {
        match mask[a + su * b] {
            None => {
                assert(swept(mask, su, sv, a + 1, b)) by {
                    assert forall|a2: int, b2: int|
                        #![trigger mask[a2 + su * b2]]
                        0 <= a2 < su && 0 <= b2 < sv && !from_on(a2, b2, a + 1, b) implies mask[a2
                        + su * b2] is None by {
                        assert(!from_on(a2, b2, a, b) || (a2 == a && b2 == b));
                    }
                }
                lemma_merge_tiles(mask, su, sv, a + 1, b);
            },
            Some(key) => {
                let r = rect_at(mask, su, sv, a, b, key);
                lemma_rect_at(mask, su, sv, a, b, key);
                let next = without(mask, su, r);
                let rest = merge_from(next, su, sv, a + r.w, b);
                assert(swept(next, su, sv, a + r.w, b)) by {
                    assert forall|a2: int, b2: int|
                        #![trigger next[a2 + su * b2]]
                        0 <= a2 < su && 0 <= b2 < sv && !from_on(a2, b2, a + r.w, b) implies next[a2
                        + su * b2] is None by {
                        lemma_without(mask, su, sv, r, a2, b2);
                        if from_on(a2, b2, a, b) {
                            assert(r.covers(a2, b2));
                        } else {
                            assert(mask[a2 + su * b2] is None);
                        }
                    }
                }
                lemma_merge_tiles(next, su, sv, a + r.w, b);
                lemma_taking_out_counts(mask, su, sv, r);
                lemma_tiles_cons(mask, su, sv, r, rest);
                assert(merge_from(mask, su, sv, a, b) == seq![r] + rest);
            },
        }
    }
}

proof fn lemma_tiles_cons(
    mask: Seq<Option<FaceKey>>,
    su: int,
    sv: int,
    r: Rect,
    rest: Seq<Rect>,
)
    requires
        mask.len() == su * sv,
        0 <= r.a,
        0 <= r.b,
        1 <= r.w,
        1 <= r.h,
        r.a + r.w <= su,
        r.b + r.h <= sv,
        forall|i: int, j: int|
            #![trigger mask[i + su * j]]
            r.covers(i, j) ==> mask[i + su * j] == Some(r.key),
        tiles(rest, without(mask, su, r), su, sv),
    ensures
        tiles(seq![r] + rest, mask, su, sv),
{
    let all = seq![r] + rest;
    let next = without(mask, su, r);
    assert forall|k: int, a: int, b: int|
        #![trigger all[k].covers(a, b)]
        0 <= k < all.len() && all[k].covers(a, b) implies mask[a + su * b] == Some(all[k].key) by {
        if k == 0 {
            assert(mask[a + su * b] == Some(r.key));
        } else {
            assert(all[k] == rest[k - 1]);
            assert(rest[k - 1].covers(a, b));
            assert(next[a + su * b] == Some(rest[k - 1].key));
            lemma_without(mask, su, sv, r, a, b);
        }
    }
    assert forall|k: int, l: int, a: int, b: int|
        #![trigger all[k].covers(a, b), all[l].covers(a, b)]
        0 <= k < l < all.len() implies !(all[k].covers(a, b) && all[l].covers(a, b)) by {
        if all[k].covers(a, b) && all[l].covers(a, b) {
            assert(all[l] == rest[l - 1]);
            assert(rest[l - 1].covers(a, b));
            assert(next[a + su * b] == Some(rest[l - 1].key));
            if k == 0 {
                lemma_without(mask, su, sv, r, a, b);
            } else {
                assert(all[k] == rest[k - 1]);
                assert(rest[k - 1].covers(a, b));
            }
        }
    }
    assert forall|a: int, b: int|
        #![trigger mask[a + su * b]]
        0 <= a < su && 0 <= b < sv && mask[a + su * b] is Some implies covered(all, a, b) by {
        lemma_without(mask, su, sv, r, a, b);
        if r.covers(a, b) {
            assert(all[0].covers(a, b));
        } else {
            assert(next[a + su * b] is Some);
            let k = choose|k: int| 0 <= k < rest.len() && #[trigger] rest[k].covers(a, b);
            assert(all[k + 1] == rest[k]);
            assert(all[k + 1].covers(a, b));
        }
    }
    assert forall|k: int| 0 <= k < all.len() implies {
        let r = #[trigger] all[k];
        &&& 0 <= r.a && 0 <= r.b && 1 <= r.w && 1 <= r.h && r.a + r.w <= su && r.b + r.h <= sv
    } by {
        if k > 0 {
            assert(all[k] == rest[k - 1]);
        }
    }
}

/// Where every entry of one list has one in another, and another is left over, the counts show it.
proof fn lemma_count_less<T>(s: Seq<Option<T>>, t: Seq<Option<T>>, j: int)
    requires
        s.len() == t.len(),
        forall|i: int| 0 <= i < s.len() && s[i] is Some ==> t[i] is Some,
        0 <= j < s.len(),
        s[j] is None,
        t[j] is Some,
    ensures
        model::count_some(s) + 1 <= model::count_some(t),
    decreases s.len(),
{
    let (s0, t0) = (s.drop_last(), t.drop_last());
    if j == s.len() - 1 {
        lemma_count_le(s0, t0);
    } else {
        lemma_count_less(s0, t0, j);
    }
}

proof fn lemma_count_le<T>(s: Seq<Option<T>>, t: Seq<Option<T>>)
    requires
        s.len() == t.len(),
        forall|i: int| 0 <= i < s.len() && s[i] is Some ==> t[i] is Some,
    ensures
        model::count_some(s) <= model::count_some(t),
    decreases s.len(),
{
    if s.len() > 0 {
        lemma_count_le(s.drop_last(), t.drop_last());
    }
}

proof fn lemma_taking_out_counts(mask: Seq<Option<FaceKey>>, su: int, sv: int, r: Rect)
    requires
        mask.len() == su * sv,
        0 <= r.a,
        0 <= r.b,
        1 <= r.w,
        1 <= r.h,
        r.a + r.w <= su,
        r.b + r.h <= sv,
        mask[r.a + su * r.b] is Some,
    ensures
        model::count_some(without(mask, su, r)) + 1 <= model::count_some(mask),
{
    lemma_without(mask, su, sv, r, r.a, r.b);
    geom::lemma_pack_bound(r.a, r.b, su, sv);
    lemma_count_less(without(mask, su, r), mask, r.a + su * r.b);
}

/// Merging a slice tiles it: every visible face is covered by exactly one
/// rectangle, which shades it as it should be, and no rectangle covers
/// anything else. There are never more rectangles than faces.
pub proof fn lemma_merged_tiles(mask: Seq<Option<FaceKey>>, su: int, sv: int)
    requires
        0 <= su,
        0 <= sv,
        mask.len() == su * sv,
    ensures
        tiles(merged(mask, su, sv), mask, su, sv),
        merged(mask, su, sv).len() <= model::count_some(mask),
{
    lemma_merge_tiles(mask, su, sv, 0, 0);
}

// ---- the whole mesh -------------------------------------------------------
pub open spec fn quads_in(rects: Seq<Rect>, face: int, slice: int) -> Seq<Quad> {
    rects.map_values(|rect: Rect| Quad { face, slice, rect })
}

/// The quads of one slice.
pub open spec fn quads_of_slice(g: GridView, face: int, slice: int) -> Seq<Quad> {
    let (_, su, sv) = reach(g, face / 2);
    quads_in(merged(mask_of(g, face, slice), su, sv), face, slice)
}

/// The quads of the first slices in one direction.
pub open spec fn quads_of_slices(g: GridView, face: int, slices: int) -> Seq<Quad>
    decreases slices,
{
    if slices <= 0 {
        Seq::empty()
    } else {
        quads_of_slices(g, face, slices - 1) + quads_of_slice(g, face, slices - 1)
    }
}

/// The quads of every slice in the first directions.
pub open spec fn quads_of_faces(g: GridView, faces: int) -> Seq<Quad>
    decreases faces,
{
    if faces <= 0 {
        Seq::empty()
    } else {
        quads_of_faces(g, faces - 1) + quads_of_slices(
            g,
            faces - 1,
            reach(g, (faces - 1) / 2).0,
        )
    }
}

/// Every quad of a model, direction by direction and slice by slice.
pub open spec fn quads_of(g: GridView) -> Seq<Quad> {
    quads_of_faces(g, 6)
}

/// The plane a quad lies in: the far side of its voxels for a positive
/// direction, the near side for a negative one.
pub open spec fn plane_of(q: Quad) -> int {
    if q.face % 2 == 0 {
        q.slice + 1
    } else {
        q.slice
    }
}

/// The corners of a quad, counter-clockwise seen from outside the face.
pub open spec fn corner_of(q: Quad, n: int) -> (int, int, int) {
    let far_a = if q.face % 2 == 0 {
        n == 1 || n == 2
    } else {
        n == 2 || n == 3
    };
    let far_b = if q.face % 2 == 0 {
        n == 2 || n == 3
    } else {
        n == 1 || n == 2
    };
    place(
        q.face / 2,
        plane_of(q),
        if far_a {
            q.rect.a + q.rect.w
        } else {
            q.rect.a
        },
        if far_b {
            q.rect.b + q.rect.h
        } else {
            q.rect.b
        },
    )
}

pub open spec fn vertex_of(q: Quad, n: int) -> Vertex {
    let p = corner_of(q, n);
    Vertex {
        position: IVec3 { x: p.0 as i32, y: p.1 as i32, z: p.2 as i32 },
        packed: pack(q.rect.key.palette_index, q.face as u32, q.rect.key.ao),
    }
}

/// Four vertices for each quad.
pub open spec fn vertices_of(quads: Seq<Quad>) -> Seq<Vertex> {
    Seq::new(4 * quads.len(), |i: int| vertex_of(quads[i / 4], i % 4))
}

/// The corner that each of a quad's six indices names: two triangles.
pub open spec fn fan(n: int) -> int {
    if n == 0 || n == 3 {
        0
    } else if n == 1 {
        1
    } else if n == 2 || n == 4 {
        2
    } else {
        3
    }
}

/// Six indices for each of `n` quads.
pub open spec fn indices_of(n: nat) -> Seq<u32> {
    Seq::new(6 * n, |i: int| (4 * (i / 6) + fan(i % 6)) as u32)
}

impl Mesh {
    /// The mesh is exactly the triangles of these quads.
    pub open spec fn encodes(&self, quads: Seq<Quad>) -> bool {
        &&& self.vertices@ == vertices_of(quads)
        &&& self.indices@ == indices_of(quads.len())
        &&& self.opaque == self.indices@.len()
    }

    /// The mesh is exactly the triangles of these quads, those of the blended
    /// palette entries after the others.
    pub open spec fn encodes_passes(&self, quads: Seq<Quad>, blended: Seq<u64>) -> bool {
        &&& self.vertices@ == vertices_of(quads)
        &&& self.indices@ == pass_indices(quads, blended, false) + pass_indices(
            quads,
            blended,
            true,
        )
        &&& self.opaque == pass_indices(quads, blended, false).len()
    }

    pub fn triangle_count(&self) -> (n: usize)
        ensures
            n == self.indices@.len() / 3,
            forall|quads: Seq<Quad>| #[trigger] self.encodes(quads) ==> n == 2 * quads.len(),
            forall|quads: Seq<Quad>, blended: Seq<u64>| #[trigger]
                self.encodes_passes(quads, blended) ==> n == 2 * quads.len(),
    {
        proof {
            assert forall|quads: Seq<Quad>, blended: Seq<u64>| #[trigger]
                self.encodes_passes(quads, blended) implies self.indices@.len() == 6
                * quads.len() by {
                lemma_pass_lengths(quads, blended);
            }
        }
        self.indices.len() / 3
    }

    /// Number of merged rectangles; four vertices each.
    pub fn quad_count(&self) -> (n: usize)
        ensures
            n == self.vertices@.len() / 4,
            forall|quads: Seq<Quad>| #[trigger] self.encodes(quads) ==> n == quads.len(),
            forall|quads: Seq<Quad>, blended: Seq<u64>| #[trigger]
                self.encodes_passes(quads, blended) ==> n == quads.len(),
    {
        self.vertices.len() / 4
    }

    pub fn is_empty(&self) -> (r: bool)
        ensures
            r <==> self.indices@.len() == 0,
            forall|quads: Seq<Quad>| #[trigger] self.encodes(quads) ==> (r <==> quads.len() == 0),
            forall|quads: Seq<Quad>, blended: Seq<u64>| #[trigger]
                self.encodes_passes(quads, blended) ==> (r <==> quads.len() == 0),
    {
        proof {
            assert forall|quads: Seq<Quad>, blended: Seq<u64>| #[trigger]
                self.encodes_passes(quads, blended) implies self.indices@.len() == 6
                * quads.len() by {
                lemma_pass_lengths(quads, blended);
            }
        }
        self.indices.len() == 0
    }

    fn push_quad(
        &mut self,
        corners: [IVec3; 4],
        palette_index: u8,
        face: usize,
        ao: u8,
        Ghost(done): Ghost<Seq<Quad>>,
        Ghost(quad): Ghost<Quad>,
    )
        requires
            old(self).encodes(done),
            4 * done.len() + 4 <= u32::MAX,
            face < 6,
            quad.face == face,
            quad.rect.key == (FaceKey { palette_index, ao }),
            forall|n: int| 0 <= n < 4 ==> #[trigger] corners[n] == vertex_of(quad, n).position,
        ensures
            final(self).encodes(done.push(quad)),
    {
        let base: u32 = self.vertices.len() as u32;
        let ghost before = self.vertices@;
        let mut n: usize = 0;
        while n < 4
            invariant
                n <= 4,
                face < 6,
                quad.face == face,
                quad.rect.key == (FaceKey { palette_index, ao }),
                forall|k: int| 0 <= k < 4 ==> #[trigger] corners[k] == vertex_of(quad, k).position,
                self.vertices@ == before + Seq::new(n as nat, |k: int| vertex_of(quad, k)),
                self.indices@ == old(self).indices@,
                self.opaque == old(self).opaque,
            decreases 4 - n,
        {
            self.vertices.push(Vertex::new(corners[n], palette_index, face, ao));
            assert(self.vertices@ =~= before + Seq::new(
                (n + 1) as nat,
                |k: int| vertex_of(quad, k),
            ));
            n += 1;
        }
        self.indices.push(base);
        self.indices.push(base + 1);
        self.indices.push(base + 2);
        self.indices.push(base);
        self.indices.push(base + 2);
        self.indices.push(base + 3);
        self.opaque = self.indices.len();
        proof {
            let all = done.push(quad);
            let len = done.len() as int;
            assert forall|i: int| 0 <= i < 4 * all.len() implies self.vertices@[i] == vertices_of(
                all,
            )[i] by {
                if i < 4 * len {
                    assert(all[i / 4] == done[i / 4]);
                    assert(before[i] == vertex_of(done[i / 4], i % 4));
                } else {
                    assert(i / 4 == len && i % 4 == i - 4 * len);
                }
            }
            assert(self.vertices@ =~= vertices_of(all));
            assert forall|i: int| 0 <= i < 6 * all.len() implies self.indices@[i] == indices_of(
                all.len(),
            )[i] by {
                if i < 6 * len {
                    assert(old(self).indices@[i] == indices_of(done.len())[i]);
                } else {
                    assert(i / 6 == len && i % 6 == i - 6 * len);
                }
            }
            assert(self.indices@ =~= indices_of(all.len()));
        }
    }
}

/// The cell `slice` along `axis`, `a` along the next axis and `b` along the one after.
fn cell_at(axis: usize, slice: i32, a: i32, b: i32) -> (p: IVec3)
    requires
        axis < 3,
    ensures
        (p.x as int, p.y as int, p.z as int) == place(axis as int, slice as int, a as int, b as int),
{
    if axis == 0 {
        IVec3::new(slice, a, b)
    } else if axis == 1 {
        IVec3::new(b, slice, a)
    } else {
        IVec3::new(a, b, slice)
    }
}

/// How far the grid reaches along `axis`, the next axis, and the one after.
fn reach_of(grid: &VoxelGrid, axis: usize) -> (r: (usize, usize, usize))
    requires
        grid.wf(),
        axis < 3,
    ensures
        (r.0 as int, r.1 as int, r.2 as int) == reach(grid@, axis as int),
        r.0 <= 2048,
        r.1 <= 2048,
        r.2 <= 2048,
{
    proof {
        grid.lemma_wf();
    }
    let s = grid.size();
    let (x, y, z): (usize, usize, usize) = (s.x as usize, s.y as usize, s.z as usize);
    if axis == 0 {
        (x, y, z)
    } else if axis == 1 {
        (y, z, x)
    } else {
        (z, x, y)
    }
}

fn corner_term(side_u: bool, side_v: bool, diagonal: bool) -> (r: u32)
    ensures
        r == corner_light(side_u, side_v, diagonal),
        r <= 3,
{
    if side_u && side_v {
        0
    } else {
        let u: u32 = if side_u { 1 } else { 0 };
        let v: u32 = if side_v { 1 } else { 0 };
        let d: u32 = if diagonal { 1 } else { 0 };
        3 - (u + v + d)
    }
}

fn solid_in_front(
    grid: &VoxelGrid,
    face: usize,
    slice: i32,
    a: i32,
    b: i32,
    i: i32,
    j: i32,
) -> (r: bool)
    requires
        grid.wf(),
        face < 6,
        0 <= slice <= 2048,
        0 <= a <= 2048,
        0 <= b <= 2048,
        -1 <= i <= 1,
        -1 <= j <= 1,
    ensures
        r == front(grid@, face as int, slice as int, a as int, b as int, i as int, j as int),
{
    reveal(front);
    let s: i32 = if face % 2 == 0 { slice + 1 } else { slice - 1 };
    grid.is_solid(cell_at(face / 2, s, a + i, b + j))
}

/// Ambient occlusion for one face, as a single 0-255 value.
///
/// Each of the face's four corners gets the usual three-neighbour term, and
/// the four are averaged. A per-face value (rather than per-vertex) is what
/// lets merged quads stay merged: the value goes into the merge key, so faces
/// only join up when they are equally occluded.
#[verifier::spinoff_prover]
#[verifier::rlimit(80)]
fn face_ao(grid: &VoxelGrid, face: usize, slice: i32, a: i32, b: i32) -> (r: u8)
    requires
        grid.wf(),
        face < 6,
        0 <= slice <= 2048,
        0 <= a <= 2048,
        0 <= b <= 2048,
    ensures
        r == occlusion(grid@, face as int, slice as int, a as int, b as int),
        0 <= occlusion(grid@, face as int, slice as int, a as int, b as int) <= 255,
{
    let mm = solid_in_front(grid, face, slice, a, b, -1, -1);
    let mz = solid_in_front(grid, face, slice, a, b, -1, 0);
    let mp = solid_in_front(grid, face, slice, a, b, -1, 1);
    let zm = solid_in_front(grid, face, slice, a, b, 0, -1);
    let zp = solid_in_front(grid, face, slice, a, b, 0, 1);
    let pm = solid_in_front(grid, face, slice, a, b, 1, -1);
    let pz = solid_in_front(grid, face, slice, a, b, 1, 0);
    let pp = solid_in_front(grid, face, slice, a, b, 1, 1);
    let total: u32 = corner_term(mz, zm, mm) + corner_term(mz, zp, mp) + corner_term(pz, zm, pm)
        + corner_term(pz, zp, pp);
    // total is 0..=12; map onto 0..=255 with no rounding drift.
    (total * 255 / 12) as u8
}

fn visible_face(grid: &VoxelGrid, face: usize, slice: i32, a: i32, b: i32) -> (r: Option<FaceKey>)
    requires
        grid.wf(),
        face < 6,
        0 <= slice <= 2048,
        0 <= a <= 2048,
        0 <= b <= 2048,
    ensures
        r == face_key(grid@, face as int, slice as int, a as int, b as int),
{
    let axis: usize = face / 2;
    match grid.get_i(cell_at(axis, slice, a, b)) {
        Some(palette_index) => {
            let s: i32 = if face % 2 == 0 { slice + 1 } else { slice - 1 };
            if grid.is_solid(cell_at(axis, s, a, b)) {
                None  // hidden by its neighbour

            } else {
                Some(FaceKey { palette_index, ao: face_ao(grid, face, slice, a, b) })
            }
        },
        None => None,
    }
}

/// The visible faces of one slice, row by row.
fn slice_mask(grid: &VoxelGrid, face: usize, slice: usize) -> (mask: Vec<Option<FaceKey>>)
    requires
        grid.wf(),
        face < 6,
        slice <= 2048,
    ensures
        mask@ == mask_of(grid@, face as int, slice as int),
{
    let (_, su, sv): (usize, usize, usize) = reach_of(grid, face / 2);
    let mut mask: Vec<Option<FaceKey>> = Vec::new();
    let mut b: usize = 0;
    assert(su * 0 == 0) by (nonlinear_arith);
    while b < sv
        invariant
            grid.wf(),
            face < 6,
            slice <= 2048,
            su <= 2048,
            sv <= 2048,
            b <= sv,
            mask@.len() == su * b,
            forall|i: int|
                0 <= i < mask@.len() ==> #[trigger] mask@[i] == face_key(
                    grid@,
                    face as int,
                    slice as int,
                    i % su as int,
                    i / su as int,
                ),
        decreases sv - b,
    {
        let mut a: usize = 0;
        while a < su
            invariant
                grid.wf(),
                face < 6,
                slice <= 2048,
                su <= 2048,
                sv <= 2048,
                b < sv,
                a <= su,
                mask@.len() == a + su * b,
                forall|i: int|
                    0 <= i < mask@.len() ==> #[trigger] mask@[i] == face_key(
                        grid@,
                        face as int,
                        slice as int,
                        i % su as int,
                        i / su as int,
                    ),
            decreases su - a,
        {
            proof {
                geom::lemma_pack_unpack(a as int, b as int, su as int);
            }
            mask.push(visible_face(grid, face, slice as i32, a as i32, b as i32));
            a += 1;
        }
        assert(su * (b + 1) == su + su * b) by (nonlinear_arith);
        b += 1;
    }
    assert(mask@ =~= mask_of(grid@, face as int, slice as int));
    mask
}

fn run_length(mask: &Vec<Option<FaceKey>>, from: usize, end: usize, key: FaceKey) -> (w: usize)
    requires
        from <= end <= mask@.len(),
    ensures
        w == run(mask@, from as int, end as int, key),
        w <= end - from,
{
    let mut i: usize = from;
    proof {
        lemma_run(mask@, from as int, end as int, key);
    }
    while i < end && mask[i] == Some(key)
        invariant
            from <= i <= end <= mask@.len(),
            run(mask@, from as int, end as int, key) == (i - from) + run(
                mask@,
                i as int,
                end as int,
                key,
            ),
        decreases end - i,
    {
        i += 1;
    }
    i - from
}

fn row_count(
    mask: &Vec<Option<FaceKey>>,
    su: usize,
    sv: usize,
    a: usize,
    b: usize,
    w: usize,
    key: FaceKey,
) -> (h: usize)
    requires
        a + w <= su <= 2048,
        b < sv <= 2048,
        1 <= w,
        mask@.len() == su * sv,
    ensures
        h == rows(mask@, su as int, sv as int, a as int, b as int, w as int, key),
{
    let mut j: usize = b;
    proof {
        lemma_rows(mask@, su as int, sv as int, a as int, b as int, w as int, key);
    }
    let mut growing = true;
    while growing && j < sv
        invariant
            a + w <= su <= 2048,
            1 <= w,
            b <= j <= sv <= 2048,
            mask@.len() == su * sv,
            rows(mask@, su as int, sv as int, a as int, b as int, w as int, key) == (j - b) + (
            if growing {
                rows(mask@, su as int, sv as int, a as int, j as int, w as int, key)
            } else {
                0
            }),
        decreases sv - j + if growing { 1int } else { 0int },
    {
        proof {
            geom::lemma_pack_bound((a + w - 1) as int, j as int, su as int, sv as int);
            lemma_run(mask@, a + su * j, a + su * j + w, key);
            assert(su * j <= 2048 * 2048) by (nonlinear_arith)
                requires
                    su <= 2048,
                    j <= 2048,
            ;
        }
        let start: usize = a + su * j;
        if run_length(mask, start, start + w, key) == w {
            j += 1;
        } else {
            growing = false;
        }
    }
    j - b
}

fn clear_rect(mask: &mut Vec<Option<FaceKey>>, su: usize, sv: usize, a: usize, b: usize, w: usize, h: usize, key: FaceKey)
    requires
        a + w <= su <= 2048,
        b + h <= sv <= 2048,
        old(mask)@.len() == su * sv,
    ensures
        final(mask)@ == without(
            old(mask)@,
            su as int,
            Rect { a: a as int, b: b as int, w: w as int, h: h as int, key },
        ),
{
    let ghost start = mask@;
    let ghost cols = su as int;
    let ghost whole = Rect { a: a as int, b: b as int, w: w as int, h: h as int, key };
    let mut j: usize = 0;
    assert(mask@ =~= without(start, cols, Rect { h: 0, ..whole }));
    while j < h
        invariant
            a + w <= su <= 2048,
            b + h <= sv <= 2048,
            j <= h,
            cols == su,
            start.len() == su * sv,
            whole == (Rect { a: a as int, b: b as int, w: w as int, h: h as int, key }),
            mask@ == without(start, cols, Rect { h: j as int, ..whole }),
        decreases h - j,
    {
        let ghost above = Rect { h: j as int, ..whole };
        let mut i: usize = 0;
        while i < w
            invariant
                a + w <= su <= 2048,
                b + h <= sv <= 2048,
                j < h,
                i <= w,
                cols == su,
                start.len() == su * sv,
                mask@.len() == start.len(),
                above == (Rect { a: a as int, b: b as int, w: w as int, h: j as int, key }),
                forall|k: int|
                    0 <= k < start.len() ==> #[trigger] mask@[k] == (if above.covers(
                        k % cols,
                        k / cols,
                    ) || (k / cols == b + j && a <= k % cols && k % cols < a + i) {
                        None::<FaceKey>
                    } else {
                        start[k]
                    }),
            decreases w - i,
        {
            let ghost before = mask@;
            proof {
                geom::lemma_pack_bound((a + i) as int, (b + j) as int, cols, sv as int);
                geom::lemma_pack_unpack((a + i) as int, (b + j) as int, cols);
                assert(su * (b + j) <= 2048 * 2048) by (nonlinear_arith)
                    requires
                        su <= 2048,
                        b + j <= 2048,
                ;
            }
            let at: usize = a + i + su * (b + j);
            mask.set(at, None);
            assert forall|k: int| 0 <= k < start.len() implies #[trigger] mask@[k] == (
            if above.covers(k % cols, k / cols) || (k / cols == b + j && a <= k % cols && k % cols
                < a + i + 1) {
                None::<FaceKey>
            } else {
                start[k]
            }) by {
                if k != at {
                    assert(mask@[k] == before[k]);
                    geom::lemma_unpack_bound(k, cols, sv as int);
                }
            }
            i += 1;
        }
        assert(mask@ =~= without(start, cols, Rect { h: j as int + 1, ..whole }));
        j += 1;
    }
}

/// Merge the mask into rectangles and emit one quad per rectangle.
fn merge_mask(
    mesh: &mut Mesh,
    mask: &mut Vec<Option<FaceKey>>,
    su: usize,
    sv: usize,
    face: usize,
    slice: usize,
    Ghost(done): Ghost<Seq<Quad>>,
)
    requires
        su <= 2048,
        sv <= 2048,
        face < 6,
        slice < 2048,
        old(mask)@.len() == su * sv,
        old(mesh).encodes(done),
        4 * (done.len() + merged(old(mask)@, su as int, sv as int).len()) <= u32::MAX,
    ensures
        final(mesh).encodes(
            done + quads_in(
                merged(old(mask)@, su as int, sv as int),
                face as int,
                slice as int,
            ),
        ),
{
    let ghost (cols, lines, f, sl) = (su as int, sv as int, face as int, slice as int);
    let ghost goal = done + quads_in(merged(mask@, cols, lines), f, sl);
    let ghost mut cur = done;
    let plane: i32 = if face % 2 == 0 { slice as i32 + 1 } else { slice as i32 };
    let axis: usize = face / 2;
    let mut b: usize = 0;
    while b < sv
        invariant
            su <= 2048,
            sv <= 2048,
            face < 6,
            slice < 2048,
            axis == face / 2,
            plane == (if face % 2 == 0 { slice + 1 } else { slice as int }),
            cols == su,
            lines == sv,
            f == face,
            sl == slice,
            b <= sv,
            mask@.len() == su * sv,
            mesh.encodes(cur),
            4 * goal.len() <= u32::MAX,
            cur + quads_in(merge_from(mask@, cols, lines, 0, b as int), f, sl) == goal,
        decreases sv - b,
    {
        let mut a: usize = 0;
        while a < su
            invariant
                su <= 2048,
                sv <= 2048,
                face < 6,
                slice < 2048,
                axis == face / 2,
                plane == (if face % 2 == 0 { slice + 1 } else { slice as int }),
                cols == su,
                lines == sv,
                f == face,
                sl == slice,
                a <= su,
                b < sv,
                mask@.len() == su * sv,
                mesh.encodes(cur),
                4 * goal.len() <= u32::MAX,
                cur + quads_in(merge_from(mask@, cols, lines, a as int, b as int), f, sl) == goal,
            decreases su - a,
        {
            proof {
                geom::lemma_pack_bound(a as int, b as int, cols, lines);
                assert(su * b <= 2048 * 2048) by (nonlinear_arith)
                    requires
                        su <= 2048,
                        b <= 2048,
                ;
                assert(su * b + su <= su * sv) by (nonlinear_arith)
                    requires
                        b < sv,
                        0 <= su,
                ;
            }
            let start: usize = a + su * b;
            match mask[start] {
                None => {
                    a += 1;
                },
                Some(key) => {
                    let ghost before = mask@;
                    let ghost r = rect_at(before, cols, lines, a as int, b as int, key);
                    proof {
                        lemma_rect_at(before, cols, lines, a as int, b as int, key);
                    }
                    // Grow along u, then grow the whole run along v.
                    let w: usize = run_length(mask, start, su * b + su, key);
                    let h: usize = row_count(mask, su, sv, a, b, w, key);
                    clear_rect(mask, su, sv, a, b, w, h, key);
                    let (a0, a1, b0, b1): (i32, i32, i32, i32) = (
                        a as i32,
                        (a + w) as i32,
                        b as i32,
                        (b + h) as i32,
                    );
                    let p00 = cell_at(axis, plane, a0, b0);
                    let p10 = cell_at(axis, plane, a1, b0);
                    let p11 = cell_at(axis, plane, a1, b1);
                    let p01 = cell_at(axis, plane, a0, b1);
                    // Counter-clockwise seen from outside the face.
                    let corners: [IVec3; 4] = if face % 2 == 0 {
                        [p00, p10, p11, p01]
                    } else {
                        [p00, p01, p11, p10]
                    };
                    let ghost quad = Quad { face: f, slice: sl, rect: r };
                    let ghost rest = merge_from(mask@, cols, lines, a + r.w, b as int);
                    proof {
                        assert(merge_from(before, cols, lines, a as int, b as int) == seq![r] + rest);
                        assert(quads_in(seq![r] + rest, f, sl) =~= seq![quad] + quads_in(
                            rest,
                            f,
                            sl,
                        ));
                        assert(cur.push(quad) + quads_in(rest, f, sl) =~= cur + (seq![quad]
                            + quads_in(rest, f, sl)));
                    }
                    mesh.push_quad(
                        corners,
                        key.palette_index,
                        face,
                        key.ao,
                        Ghost(cur),
                        Ghost(quad),
                    );
                    proof {
                        cur = cur.push(quad);
                    }
                    a += w;
                },
            }
        }
        b += 1;
    }
    assert(cur + quads_in(Seq::empty(), f, sl) =~= cur);
}

// ---- how large a mesh can get -------------------------------------------
/// A face hides the face behind it, so the same place cannot show a face in two slices in a row.
proof fn lemma_slices_alternate(g: GridView, face: int, slice: int)
    requires
        0 <= face < 6,
        g.wf(),
    ensures
        ({
            let (_, su, sv) = reach(g, face / 2);
            model::count_some(mask_of(g, face, slice)) + model::count_some(mask_of(g, face, slice + 1)) <= su * sv
        }),
{
    let (_, su, sv) = reach(g, face / 2);
    assert(0 <= su * sv) by (nonlinear_arith)
        requires
            0 <= su,
            0 <= sv,
    ;
    let (s, t) = (mask_of(g, face, slice), mask_of(g, face, slice + 1));
    assert forall|i: int| 0 <= i < s.len() implies s[i] is None || t[i] is None by {}
    lemma_count_disjoint(s, t);
}

proof fn lemma_count_disjoint<T>(s: Seq<Option<T>>, t: Seq<Option<T>>)
    requires
        s.len() == t.len(),
        forall|i: int| 0 <= i < s.len() ==> s[i] is None || t[i] is None,
    ensures
        model::count_some(s) + model::count_some(t) <= s.len(),
    decreases s.len(),
{
    if s.len() > 0 {
        assert(s.last() is None || t.last() is None);
        assert forall|i: int| 0 <= i < s.drop_last().len() implies s.drop_last()[i] is None
            || t.drop_last()[i] is None by {
            assert(s[i] is None || t[i] is None);
        }
        lemma_count_disjoint(s.drop_last(), t.drop_last());
    }
}

proof fn lemma_slice_quads(g: GridView, face: int, slice: int)
    requires
        0 <= face < 6,
        g.wf(),
    ensures
        quads_of_slice(g, face, slice).len() <= model::count_some(mask_of(g, face, slice)),
{
    let (_, su, sv) = reach(g, face / 2);
    assert(0 <= su * sv) by (nonlinear_arith)
        requires
            0 <= su,
            0 <= sv,
    ;
    lemma_merged_tiles(mask_of(g, face, slice), su, sv);
}

proof fn lemma_slices_bound(g: GridView, face: int, slices: int)
    requires
        0 <= face < 6,
        0 <= slices,
        g.wf(),
    ensures
        ({
            let (_, su, sv) = reach(g, face / 2);
            quads_of_slices(g, face, slices).len() <= ((slices + 1) / 2) * (su * sv)
        }),
    decreases slices,
{
    let (_, su, sv) = reach(g, face / 2);
    let area = su * sv;
    assert(0 <= area) by (nonlinear_arith)
        requires
            area == su * sv,
            0 <= su,
            0 <= sv,
    ;
    reveal_with_fuel(quads_of_slices, 3);
    if slices == 0 {
        assert(0 * area == 0);
    } else if slices == 1 {
        lemma_slice_quads(g, face, 0);
        model::lemma_count_some_bound(mask_of(g, face, 0));
        assert(1 * area == area);
    } else {
        lemma_slices_bound(g, face, slices - 2);
        lemma_slice_quads(g, face, slices - 2);
        lemma_slice_quads(g, face, slices - 1);
        lemma_slices_alternate(g, face, slices - 2);
        let half = (slices - 1) / 2;
        assert((slices + 1) / 2 == half + 1);
        assert((half + 1) * area == half * area + area) by (nonlinear_arith);
    }
}

/// A mesh never needs more vertices than a 32-bit index can name.
pub proof fn lemma_mesh_fits(g: GridView)
    requires
        g.wf(),
    ensures
        4 * quads_of(g).len() <= u32::MAX,
{
    let (x, y, z) = (g.size.x as int, g.size.y as int, g.size.z as int);
    reveal_with_fuel(quads_of_faces, 7);
    lemma_slices_bound(g, 0, x);
    lemma_slices_bound(g, 1, x);
    lemma_slices_bound(g, 2, y);
    lemma_slices_bound(g, 3, y);
    lemma_slices_bound(g, 4, z);
    lemma_slices_bound(g, 5, z);
    let (yz, zx, xy) = (y * z, z * x, x * y);
    let volume = x * yz;
    assert(0 <= yz <= 2048 * 2048 && 0 <= zx <= 2048 * 2048 && 0 <= xy <= 2048 * 2048)
        by (nonlinear_arith)
        requires
            yz == y * z,
            zx == z * x,
            xy == x * y,
            0 <= x <= 2048,
            0 <= y <= 2048,
            0 <= z <= 2048,
    ;
    assert(y * zx == volume && z * xy == volume) by (nonlinear_arith)
        requires
            volume == x * yz,
            yz == y * z,
            zx == z * x,
            xy == x * y,
    ;
    assert(2 * (((x + 1) / 2) * yz) <= volume + yz) by (nonlinear_arith)
        requires
            volume == x * yz,
            0 <= yz,
            0 <= x,
    ;
    assert(2 * (((y + 1) / 2) * zx) <= volume + zx) by (nonlinear_arith)
        requires
            volume == y * zx,
            0 <= zx,
            0 <= y,
    ;
    assert(2 * (((z + 1) / 2) * xy) <= volume + xy) by (nonlinear_arith)
        requires
            volume == z * xy,
            0 <= xy,
            0 <= z,
    ;
}

proof fn lemma_empty_grid(g: GridView, faces: int)
    requires
        g.wf(),
        forall|x: int, y: int, z: int| !#[trigger] g.solid(x, y, z),
        faces <= 6,
    ensures
        quads_of_faces(g, faces).len() == 0,
    decreases faces,
{
    if faces > 0 {
        lemma_empty_grid(g, faces - 1);
        lemma_empty_slices(g, faces - 1, reach(g, (faces - 1) / 2).0);
    }
}

proof fn lemma_empty_slices(g: GridView, face: int, slices: int)
    requires
        g.wf(),
        0 <= face < 6,
        forall|x: int, y: int, z: int| !#[trigger] g.solid(x, y, z),
    ensures
        quads_of_slices(g, face, slices).len() == 0,
    decreases slices,
{
    if slices > 0 {
        lemma_empty_slices(g, face, slices - 1);
        lemma_slice_quads(g, face, slices - 1);
        let mask = mask_of(g, face, slices - 1);
        assert forall|i: int| 0 <= i < mask.len() implies mask[i] is None by {
            let (_, su, _) = reach(g, face / 2);
            let p = place(face / 2, slices - 1, i % su, i / su);
            assert(!g.solid(p.0, p.1, p.2));
        }
        model::lemma_count_some_zero(mask);
    }
}

proof fn lemma_prefix_lengths(g: GridView, faces: int, slices: int)
    requires
        0 <= faces < 6,
        0 <= slices <= reach(g, faces / 2).0,
    ensures
        quads_of_faces(g, faces).len() + quads_of_slices(g, faces, slices).len() <= quads_of(
            g,
        ).len(),
    decreases 6 - faces, reach(g, faces / 2).0 - slices,
{
    if slices < reach(g, faces / 2).0 {
        lemma_prefix_lengths(g, faces, slices + 1);
    } else if faces < 5 {
        lemma_prefix_lengths(g, faces + 1, 0);
    }
}

/// Greedily mesh one model.
pub fn greedy_mesh(grid: &VoxelGrid) -> (mesh: Mesh)
    requires
        grid.wf(),
    ensures
        mesh.encodes(quads_of(grid@)),
{
    let ghost g = grid@;
    proof {
        grid.lemma_wf();
        lemma_mesh_fits(g);
    }
    let mut mesh = Mesh { vertices: Vec::new(), indices: Vec::new(), opaque: 0 };
    let ghost mut cur: Seq<Quad> = Seq::empty();
    assert(mesh.vertices@ =~= vertices_of(cur));
    assert(mesh.indices@ =~= indices_of(0));
    if grid.is_empty() {
        proof {
            lemma_empty_grid(g, 6);
            assert(quads_of(g) =~= Seq::empty());
        }
        return mesh;
    }
    let mut face: usize = 0;
    while face < 6
        invariant
            grid.wf(),
            g == grid@,
            g.wf(),
            4 * quads_of(g).len() <= u32::MAX,
            face <= 6,
            cur == quads_of_faces(g, face as int),
            mesh.encodes(cur),
        decreases 6 - face,
    {
        let (dim, su, sv): (usize, usize, usize) = reach_of(grid, face / 2);
        let ghost before = cur;
        let mut slice: usize = 0;
        assert(cur =~= before + quads_of_slices(g, face as int, 0));
        while slice < dim
            invariant
                grid.wf(),
                g == grid@,
                g.wf(),
                4 * quads_of(g).len() <= u32::MAX,
                face < 6,
                (dim as int, su as int, sv as int) == reach(g, face as int / 2),
                dim <= 2048,
                su <= 2048,
                sv <= 2048,
                slice <= dim,
                before == quads_of_faces(g, face as int),
                cur == before + quads_of_slices(g, face as int, slice as int),
                mesh.encodes(cur),
            decreases dim - slice,
        {
            let mut mask = slice_mask(grid, face, slice);
            proof {
                lemma_prefix_lengths(g, face as int, slice as int + 1);
                assert(su * sv >= 0) by (nonlinear_arith);
            }
            let ghost found = quads_of_slice(g, face as int, slice as int);
            merge_mask(&mut mesh, &mut mask, su, sv, face, slice, Ghost(cur));
            proof {
                assert(cur + found =~= before + (quads_of_slices(g, face as int, slice as int)
                    + found));
                cur = cur + found;
            }
            slice += 1;
        }
        face += 1;
    }
    mesh
}

// ---- the laws of a mesh ---------------------------------------------------
/// Whether a quad draws the face at this place.
pub open spec fn draws(q: Quad, face: int, slice: int, a: int, b: int) -> bool {
    q.face == face && q.slice == slice && q.rect.covers(a, b)
}

/// Whether a direction and a slice come before a position in meshing order.
pub open spec fn sooner(face: int, slice: int, faces: int, slices: int) -> bool {
    face < faces || (face == faces && slice < slices)
}

/// Whether this is a place on the grid where a face could be.
pub open spec fn on_grid(g: GridView, face: int, slice: int, a: int, b: int) -> bool {
    let (dim, su, sv) = reach(g, face / 2);
    0 <= face < 6 && 0 <= slice < dim && 0 <= a < su && 0 <= b < sv
}

/// The quads draw the faces that come before a position, and nothing else.
pub open spec fn draws_exactly(quads: Seq<Quad>, g: GridView, faces: int, slices: int) -> bool {
    &&& forall|k: int, face: int, slice: int, a: int, b: int|
        #![trigger draws(quads[k], face, slice, a, b)]
        0 <= k < quads.len() && draws(quads[k], face, slice, a, b) ==> on_grid(g, face, slice, a, b)
            && sooner(face, slice, faces, slices) && face_key(g, face, slice, a, b) == Some(
            quads[k].rect.key,
        )
    &&& forall|k: int, l: int, face: int, slice: int, a: int, b: int|
        #![trigger draws(quads[k], face, slice, a, b), draws(quads[l], face, slice, a, b)]
        0 <= k < l < quads.len() ==> !(draws(quads[k], face, slice, a, b) && draws(
            quads[l],
            face,
            slice,
            a,
            b,
        ))
    &&& forall|face: int, slice: int, a: int, b: int|
        #![trigger face_key(g, face, slice, a, b)]
        on_grid(g, face, slice, a, b) && sooner(face, slice, faces, slices) && face_key(
            g,
            face,
            slice,
            a,
            b,
        ) is Some ==> exists|k: int|
            0 <= k < quads.len() && #[trigger] draws(quads[k], face, slice, a, b)
    &&& forall|k: int|
        0 <= k < quads.len() ==> {
            let q = #[trigger] quads[k];
            1 <= q.rect.w && 1 <= q.rect.h
        }
}

proof fn lemma_draws_slice(quads: Seq<Quad>, g: GridView, face: int, slice: int)
    requires
        g.wf(),
        0 <= face < 6,
        0 <= slice < reach(g, face / 2).0,
        draws_exactly(quads, g, face, slice),
    ensures
        draws_exactly(quads + quads_of_slice(g, face, slice), g, face, slice + 1),
{
    let (dim, su, sv) = reach(g, face / 2);
    let mask = mask_of(g, face, slice);
    let rects = merged(mask, su, sv);
    let found = quads_of_slice(g, face, slice);
    let all = quads + found;
    assert(0 <= su * sv) by (nonlinear_arith)
        requires
            0 <= su,
            0 <= sv,
    ;
    lemma_merged_tiles(mask, su, sv);
    let n = quads.len() as int;
    assert forall|a: int, b: int| 0 <= a < su && 0 <= b < sv implies #[trigger] mask[a + su * b]
        == face_key(g, face, slice, a, b) by {
        geom::lemma_pack_bound(a, b, su, sv);
        geom::lemma_pack_unpack(a, b, su);
    }
    assert forall|k: int, f: int, s: int, a: int, b: int|
        #![trigger draws(all[k], f, s, a, b)]
        0 <= k < all.len() && draws(all[k], f, s, a, b) implies on_grid(g, f, s, a, b) && sooner(
        f,
        s,
        face,
        slice + 1,
    ) && face_key(g, f, s, a, b) == Some(all[k].rect.key) by {
        if k < n {
            assert(all[k] == quads[k]);
            assert(draws(quads[k], f, s, a, b));
        } else {
            assert(all[k].rect == rects[k - n]);
            assert(rects[k - n].covers(a, b));
            assert(mask[a + su * b] == Some(rects[k - n].key));
        }
    }
    assert forall|k: int, l: int, f: int, s: int, a: int, b: int|
        #![trigger draws(all[k], f, s, a, b), draws(all[l], f, s, a, b)]
        0 <= k < l < all.len() implies !(draws(all[k], f, s, a, b) && draws(all[l], f, s, a, b)) by {
        if draws(all[k], f, s, a, b) && draws(all[l], f, s, a, b) {
            if l < n {
                assert(draws(quads[k], f, s, a, b) && draws(quads[l], f, s, a, b));
            } else if k < n {
                assert(draws(quads[k], f, s, a, b));
                assert(all[l].face == face && all[l].slice == slice);
            } else {
                assert(rects[k - n].covers(a, b) && rects[l - n].covers(a, b));
            }
        }
    }
    assert forall|f: int, s: int, a: int, b: int|
        #![trigger face_key(g, f, s, a, b)]
        on_grid(g, f, s, a, b) && sooner(f, s, face, slice + 1) && face_key(
            g,
            f,
            s,
            a,
            b,
        ) is Some implies exists|k: int|
        0 <= k < all.len() && #[trigger] draws(all[k], f, s, a, b) by {
        if sooner(f, s, face, slice) {
            let k = choose|k: int| 0 <= k < quads.len() && #[trigger] draws(quads[k], f, s, a, b);
            assert(draws(all[k], f, s, a, b));
        } else {
            assert(mask[a + su * b] is Some);
            assert(covered(rects, a, b));
            let k = choose|k: int| 0 <= k < rects.len() && #[trigger] rects[k].covers(a, b);
            assert(all[n + k] == found[k]);
            assert(draws(all[n + k], f, s, a, b));
        }
    }
    assert forall|k: int| 0 <= k < all.len() implies {
        let q = #[trigger] all[k];
        1 <= q.rect.w && 1 <= q.rect.h
    } by {
        if k < n {
            assert(all[k] == quads[k]);
        } else {
            assert(all[k].rect == rects[k - n]);
        }
    }
}

proof fn lemma_draws_slices(g: GridView, face: int, slices: int)
    requires
        g.wf(),
        0 <= face < 6,
        0 <= slices <= reach(g, face / 2).0,
    ensures
        draws_exactly(quads_of_faces(g, face) + quads_of_slices(g, face, slices), g, face, slices),
    decreases face, slices,
{
    let before = quads_of_faces(g, face);
    if slices > 0 {
        lemma_draws_slices(g, face, slices - 1);
        let upto = quads_of_slices(g, face, slices - 1);
        lemma_draws_slice(before + upto, g, face, slices - 1);
        assert(before + upto + quads_of_slice(g, face, slices - 1) =~= before + quads_of_slices(
            g,
            face,
            slices,
        ));
    } else if face > 0 {
        let dim = reach(g, (face - 1) / 2).0;
        lemma_draws_slices(g, face - 1, dim);
        assert(before + quads_of_slices(g, face, 0) =~= before);
        assert forall|f: int, s: int, a: int, b: int| on_grid(g, f, s, a, b) implies #[trigger] sooner(
            f,
            s,
            face,
            0,
        ) == sooner(f, s, face - 1, dim) && #[trigger] on_grid(g, f, s, a, b) by {}
        assert forall|k: int, f: int, s: int, a: int, b: int|
            #![trigger draws(before[k], f, s, a, b)]
            0 <= k < before.len() && draws(before[k], f, s, a, b) implies sooner(f, s, face, 0) by {
            assert(sooner(f, s, face - 1, dim));
            assert(on_grid(g, f, s, a, b));
        }
    }
}

/// The mesh of a model draws every visible face exactly once, in its own
/// colour and shade, and draws nothing else.
pub proof fn lemma_mesh_draws_every_face_once(g: GridView)
    requires
        g.wf(),
    ensures
        forall|k: int, face: int, slice: int, a: int, b: int|
            #![trigger draws(quads_of(g)[k], face, slice, a, b)]
            0 <= k < quads_of(g).len() && draws(quads_of(g)[k], face, slice, a, b) ==> on_grid(
                g,
                face,
                slice,
                a,
                b,
            ) && face_key(g, face, slice, a, b) == Some(quads_of(g)[k].rect.key),
        forall|k: int, l: int, face: int, slice: int, a: int, b: int|
            #![trigger draws(quads_of(g)[k], face, slice, a, b), draws(quads_of(g)[l], face, slice, a, b)]
            0 <= k < l < quads_of(g).len() ==> !(draws(quads_of(g)[k], face, slice, a, b) && draws(
                quads_of(g)[l],
                face,
                slice,
                a,
                b,
            )),
        forall|face: int, slice: int, a: int, b: int|
            #![trigger face_key(g, face, slice, a, b)]
            on_grid(g, face, slice, a, b) && face_key(g, face, slice, a, b) is Some ==> exists|
                k: int,
            |
                0 <= k < quads_of(g).len() && #[trigger] draws(
                    quads_of(g)[k],
                    face,
                    slice,
                    a,
                    b,
                ),
        forall|k: int|
            0 <= k < quads_of(g).len() ==> {
                let q = #[trigger] quads_of(g)[k];
                1 <= q.rect.w && 1 <= q.rect.h
            },
{
    let dim = reach(g, 2).0;
    lemma_draws_slices(g, 5, dim);
    assert(draws_exactly(quads_of(g), g, 5, dim));
    assert forall|face: int, slice: int, a: int, b: int|
        #![trigger face_key(g, face, slice, a, b)]
        on_grid(g, face, slice, a, b) && face_key(g, face, slice, a, b) is Some implies exists|
        k: int,
    |
        0 <= k < quads_of(g).len() && #[trigger] draws(quads_of(g)[k], face, slice, a, b) by {
        assert(sooner(face, slice, 5, dim));
    }
}

/// Every index of a mesh names one of its vertices.
pub proof fn lemma_indices_in_range(mesh: Mesh, quads: Seq<Quad>)
    requires
        mesh.encodes(quads),
        4 * quads.len() <= u32::MAX,
    ensures
        forall|i: int|
            0 <= i < mesh.indices@.len() ==> #[trigger] mesh.indices@[i] < mesh.vertices@.len(),
{
}

/// The cross product of the two edges that leave the first corner of a triangle.
pub open spec fn cross(
    p: (int, int, int),
    q: (int, int, int),
    r: (int, int, int),
) -> (int, int, int) {
    let (ux, uy, uz) = (q.0 - p.0, q.1 - p.1, q.2 - p.2);
    let (vx, vy, vz) = (r.0 - p.0, r.1 - p.1, r.2 - p.2);
    (uy * vz - uz * vy, uz * vx - ux * vz, ux * vy - uy * vx)
}

/// Both triangles of a quad wind counter-clockwise around the direction its
/// face looks in: their normals are that direction, scaled by the area.
pub proof fn lemma_quads_face_outwards(q: Quad)
    requires
        0 <= q.face < 6,
        1 <= q.rect.w,
        1 <= q.rect.h,
    ensures
        ({
            let n = normal_of(q.face);
            let area = q.rect.w * q.rect.h;
            let first = cross(corner_of(q, 0), corner_of(q, 1), corner_of(q, 2));
            let second = cross(corner_of(q, 0), corner_of(q, 2), corner_of(q, 3));
            &&& area >= 1
            &&& first == (area * n.0, area * n.1, area * n.2)
            &&& second == (area * n.0, area * n.1, area * n.2)
        }),
{
    let (w, h) = (q.rect.w, q.rect.h);
    let area = w * h;
    assert(area >= 1) by (nonlinear_arith)
        requires
            area == w * h,
            w >= 1,
            h >= 1,
    ;
    assert(h * w == area) by (nonlinear_arith)
        requires
            area == w * h,
    ;
    assert(area * 0 == 0 && area * 1 == area && area * -1 == -area) by (nonlinear_arith);
    assert(w * 0 == 0 && 0 * h == 0 && 0 * w == 0 && h * 0 == 0) by (nonlinear_arith);
    let (p, c1, c2, c3) = (corner_of(q, 0), corner_of(q, 1), corner_of(q, 2), corner_of(q, 3));
    lemma_cross(c1.0 - p.0, c1.1 - p.1, c1.2 - p.2, c2.0 - p.0, c2.1 - p.1, c2.2 - p.2, w, h);
    lemma_cross(c2.0 - p.0, c2.1 - p.1, c2.2 - p.2, c3.0 - p.0, c3.1 - p.1, c3.2 - p.2, w, h);
}

/// Products of edges that are each nothing, a width or a height.
proof fn lemma_cross(ux: int, uy: int, uz: int, vx: int, vy: int, vz: int, w: int, h: int)
    requires
        ux == 0 || ux == w || ux == h,
        uy == 0 || uy == w || uy == h,
        uz == 0 || uz == w || uz == h,
        vx == 0 || vx == w || vx == h,
        vy == 0 || vy == w || vy == h,
        vz == 0 || vz == w || vz == h,
    ensures
        uy * vz == (if uy == 0 || vz == 0 { 0 } else { uy * vz }),
        uz * vy == (if uz == 0 || vy == 0 { 0 } else { uz * vy }),
        uz * vx == (if uz == 0 || vx == 0 { 0 } else { uz * vx }),
        ux * vz == (if ux == 0 || vz == 0 { 0 } else { ux * vz }),
        ux * vy == (if ux == 0 || vy == 0 { 0 } else { ux * vy }),
        uy * vx == (if uy == 0 || vx == 0 { 0 } else { uy * vx }),
        w * h == h * w,
{
    assert(w * h == h * w) by (nonlinear_arith);
}

// ---- passes ---------------------------------------------------------------
/// Whether a palette index is marked in a 256-bit mask of four words.
pub open spec fn marked(blended: Seq<u64>, index: u8) -> bool {
    (blended[index as int / 64] >> ((index % 64) as u64)) & 1 == 1
}

/// The indices of the quads that belong to one of the two passes, in order.
pub open spec fn pass_indices(quads: Seq<Quad>, blended: Seq<u64>, pass: bool) -> Seq<u32>
    decreases quads.len(),
{
    if quads.len() == 0 {
        Seq::empty()
    } else {
        let before = pass_indices(quads.drop_last(), blended, pass);
        if marked(blended, quads.last().rect.key.palette_index) == pass {
            before + Seq::new(6, |n: int| (4 * (quads.len() - 1) + fan(n)) as u32)
        } else {
            before
        }
    }
}

/// The two passes share the quads out between them: six indices for each.
pub proof fn lemma_pass_lengths(quads: Seq<Quad>, blended: Seq<u64>)
    ensures
        pass_indices(quads, blended, false).len() + pass_indices(quads, blended, true).len() == 6
            * quads.len(),
    decreases quads.len(),
{
    if quads.len() > 0 {
        lemma_pass_lengths(quads.drop_last(), blended);
    }
}

fn is_marked(blended: &[u64; 4], index: u8) -> (r: bool)
    ensures
        r == marked(blended@, index),
{
    let shift: u64 = (index % 64) as u64;
    (blended[index as usize / 64] >> shift) & 1 == 1
}

/// Put the triangles of the blended palette entries after the others.
///
/// Which entries those are comes as a 256-bit mask: what a face is made of does
/// not change where it is or how it merges, only which pass draws it.
fn order_passes(mesh: Mesh, blended: &[u64; 4], Ghost(quads): Ghost<Seq<Quad>>) -> (r: Mesh)
    requires
        mesh.encodes(quads),
        4 * quads.len() <= u32::MAX,
        forall|k: int| 0 <= k < quads.len() ==> 0 <= (#[trigger] quads[k]).face < 6,
    ensures
        r.encodes_passes(quads, blended@),
{
    let mut solid: Vec<u32> = Vec::new();
    let mut glass: Vec<u32> = Vec::new();
    let count: usize = mesh.vertices.len() / 4;
    let mut k: usize = 0;
    assert(quads.subrange(0, 0) =~= Seq::empty());
    while k < count
        invariant
            mesh.encodes(quads),
            4 * quads.len() <= u32::MAX,
            forall|k: int| 0 <= k < quads.len() ==> 0 <= (#[trigger] quads[k]).face < 6,
            count == quads.len(),
            k <= count,
            solid@ == pass_indices(quads.subrange(0, k as int), blended@, false),
            glass@ == pass_indices(quads.subrange(0, k as int), blended@, true),
        decreases count - k,
    {
        let ghost upto = quads.subrange(0, k as int + 1);
        proof {
            assert(upto.drop_last() =~= quads.subrange(0, k as int));
            assert(upto.last() == quads[k as int]);
            let q = quads[k as int];
            lemma_pack(q.rect.key.palette_index, q.face as u32, q.rect.key.ao);
            assert(mesh.vertices@[4 * k as int] == vertex_of(q, 0));
        }
        let base: u32 = (4 * k) as u32;
        let ghost six = Seq::new(6, |n: int| (4 * (upto.len() - 1) + fan(n)) as u32);
        if is_marked(blended, mesh.vertices[4 * k].palette_index()) {
            let ghost before = glass@;
            push_fan(&mut glass, base);
            assert(glass@ =~= before + six);
        } else {
            let ghost before = solid@;
            push_fan(&mut solid, base);
            assert(solid@ =~= before + six);
        }
        k += 1;
    }
    assert(quads.subrange(0, k as int) =~= quads);
    let opaque: usize = solid.len();
    solid.append(&mut glass);
    Mesh { vertices: mesh.vertices, indices: solid, opaque }
}

fn push_fan(out: &mut Vec<u32>, base: u32)
    requires
        base + 3 <= u32::MAX,
    ensures
        final(out)@ == old(out)@ + Seq::new(6, |n: int| (base + fan(n)) as u32),
{
    let ghost before = out@;
    out.push(base);
    out.push(base + 1);
    out.push(base + 2);
    out.push(base);
    out.push(base + 2);
    out.push(base + 3);
    assert(out@ =~= before + Seq::new(6, |n: int| (base + fan(n)) as u32));
}

proof fn lemma_quad_faces(g: GridView, faces: int)
    requires
        0 <= faces <= 6,
    ensures
        forall|k: int|
            0 <= k < quads_of_faces(g, faces).len() ==> 0 <= (#[trigger] quads_of_faces(
                g,
                faces,
            )[k]).face < 6,
    decreases faces,
{
    if faces > 0 {
        let dim = reach(g, (faces - 1) / 2).0;
        lemma_quad_faces(g, faces - 1);
        lemma_quad_face(g, faces - 1, dim);
        let (before, last) = (quads_of_faces(g, faces - 1), quads_of_slices(g, faces - 1, dim));
        let all = quads_of_faces(g, faces);
        assert forall|k: int| 0 <= k < all.len() implies 0 <= (#[trigger] all[k]).face < 6 by {
            if k < before.len() {
                assert(all[k] == before[k]);
            } else {
                assert(all[k] == last[k - before.len()]);
            }
        }
    }
}

proof fn lemma_quad_face(g: GridView, face: int, slices: int)
    ensures
        forall|k: int|
            0 <= k < quads_of_slices(g, face, slices).len() ==> (#[trigger] quads_of_slices(
                g,
                face,
                slices,
            )[k]).face == face,
    decreases slices,
{
    if slices > 0 {
        lemma_quad_face(g, face, slices - 1);
        let (before, last) = (
            quads_of_slices(g, face, slices - 1),
            quads_of_slice(g, face, slices - 1),
        );
        let all = quads_of_slices(g, face, slices);
        assert forall|k: int| 0 <= k < all.len() implies (#[trigger] all[k]).face == face by {
            if k < before.len() {
                assert(all[k] == before[k]);
            } else {
                assert(all[k] == last[k - before.len()]);
            }
        }
    }
}

/// Mesh every model in a scene. Models are meshed once even when a scene
/// instances them several times. `blended` marks the palette entries that are
/// drawn in the blended pass.
pub fn mesh_models(models: &Vec<VoxelGrid>, blended: &[u64; 4]) -> (meshes: Vec<Mesh>)
    requires
        forall|k: int| 0 <= k < models@.len() ==> (#[trigger] models@[k]).wf(),
    ensures
        meshes@.len() == models@.len(),
        forall|k: int|
            0 <= k < models@.len() ==> (#[trigger] meshes@[k]).encodes_passes(
                quads_of(models@[k]@),
                blended@,
            ),
{
    let mut meshes: Vec<Mesh> = Vec::new();
    let mut k: usize = 0;
    while k < models.len()
        invariant
            forall|k: int| 0 <= k < models@.len() ==> (#[trigger] models@[k]).wf(),
            k <= models@.len(),
            meshes@.len() == k,
            forall|i: int|
                0 <= i < k ==> (#[trigger] meshes@[i]).encodes_passes(
                    quads_of(models@[i]@),
                    blended@,
                ),
        decreases models@.len() - k,
    {
        let mesh = greedy_mesh(&models[k]);
        let ghost quads = quads_of(models@[k as int]@);
        proof {
            models@[k as int].lemma_wf();
            lemma_mesh_fits(models@[k as int]@);
            lemma_quad_faces(models@[k as int]@, 6);
        }
        meshes.push(order_passes(mesh, blended, Ghost(quads)));
        k += 1;
    }
    meshes
}

// ---- counting faces without merging ---------------------------------------
/// A face, named by its direction and the cell it belongs to, that nothing hides.
pub open spec fn visible(g: GridView, t: (int, int, int, int)) -> bool {
    let n = normal_of(t.0);
    0 <= t.0 < 6 && g.solid(t.1, t.2, t.3) && !g.solid(t.1 + n.0, t.2 + n.1, t.3 + n.2)
}

/// Every face that nothing hides.
pub open spec fn visible_faces(g: GridView) -> Set<(int, int, int, int)> {
    Set::new(|t: (int, int, int, int)| visible(g, t))
}

/// The visible faces of the first cells, and of the next cell in its first directions.
spec fn visible_upto(g: GridView, cells: int, faces: int) -> Set<(int, int, int, int)> {
    Set::new(
        |t: (int, int, int, int)|
            visible(g, t) && (model::cell_index(g.size, t.1, t.2, t.3) < cells || (model::cell_index(
                g.size,
                t.1,
                t.2,
                t.3,
            ) == cells && t.0 < faces)),
    )
}

proof fn lemma_visible_step(g: GridView, x: int, y: int, z: int, face: int)
    requires
        g.wf(),
        model::inside(g.size, x, y, z),
        0 <= face < 6,
        visible_upto(g, model::cell_index(g.size, x, y, z), face).finite(),
    ensures
        visible_upto(g, model::cell_index(g.size, x, y, z), face + 1).finite(),
        visible_upto(g, model::cell_index(g.size, x, y, z), face + 1).len() == visible_upto(
            g,
            model::cell_index(g.size, x, y, z),
            face,
        ).len() + unit_of(visible(g, (face, x, y, z))),
{
    let i = model::cell_index(g.size, x, y, z);
    let (s, t) = (visible_upto(g, i, face), visible_upto(g, i, face + 1));
    let here = (face, x, y, z);
    assert forall|u: (int, int, int, int)| visible(g, u) && model::cell_index(g.size, u.1, u.2, u.3)
        == i implies u.1 == x && u.2 == y && u.3 == z by {
        model::lemma_cell_index_injective(g.size, x, y, z, u.1, u.2, u.3);
    }
    if visible(g, here) {
        assert(t =~= s.insert(here));
    } else {
        assert(t =~= s);
    }
}

proof fn lemma_visible_next_cell(g: GridView, cells: int)
    ensures
        visible_upto(g, cells, 6) == visible_upto(g, cells + 1, 0),
{
    assert(visible_upto(g, cells, 6) =~= visible_upto(g, cells + 1, 0));
}

proof fn lemma_visible_finite(g: GridView, cells: int)
    requires
        g.wf(),
        0 <= cells <= model::cell_total(g.size),
    ensures
        visible_upto(g, cells, 0).finite(),
    decreases cells,
{
    if cells == 0 {
        assert forall|t: (int, int, int, int)| !visible_upto(g, 0, 0).contains(t) by {
            if visible(g, t) {
                model::lemma_cell_index(g.size, t.1, t.2, t.3);
            }
        }
        assert(visible_upto(g, 0, 0) =~= Set::empty());
    } else {
        let i = cells - 1;
        lemma_visible_finite(g, i);
        model::lemma_every_index_is_a_cell(g.size, i);
        let x = i % g.size.x as int;
        let rest = i / g.size.x as int;
        let (y, z) = (rest % g.size.y as int, rest / g.size.y as int);
        lemma_visible_step(g, x, y, z, 0);
        lemma_visible_step(g, x, y, z, 1);
        lemma_visible_step(g, x, y, z, 2);
        lemma_visible_step(g, x, y, z, 3);
        lemma_visible_step(g, x, y, z, 4);
        lemma_visible_step(g, x, y, z, 5);
        lemma_visible_next_cell(g, i);
    }
}

proof fn lemma_visible_all(g: GridView)
    requires
        g.wf(),
    ensures
        visible_faces(g).finite(),
        visible_faces(g) == visible_upto(g, model::cell_total(g.size), 0),
{
    lemma_visible_finite(g, model::cell_total(g.size));
    assert forall|t: (int, int, int, int)| visible(g, t) implies model::cell_index(
        g.size,
        t.1,
        t.2,
        t.3,
    ) < model::cell_total(g.size) by {
        model::lemma_cell_index(g.size, t.1, t.2, t.3);
    }
    assert(visible_faces(g) =~= visible_upto(g, model::cell_total(g.size), 0));
}

/// The direction a face looks in.
pub fn face_normal(face: usize) -> (n: IVec3)
    requires
        face < 6,
    ensures
        (n.x as int, n.y as int, n.z as int) == normal_of(face as int),
{
    cell_at(face / 2, if face % 2 == 0 { 1 } else { -1 }, 0, 0)
}

/// Faces that would be drawn with no merging at all: a check on the greedy
/// pass that does not share any of its code.
pub fn exposed_face_count(grid: &VoxelGrid) -> (count: usize)
    requires
        grid.wf(),
    ensures
        count == visible_faces(grid@).len(),
{
    let ghost g = grid@;
    proof {
        grid.lemma_wf();
        lemma_visible_finite(g, 0);
        lemma_visible_all(g);
        assert forall|t: (int, int, int, int)| !visible_upto(g, 0, 0).contains(t) by {
            if visible(g, t) {
                model::lemma_cell_index(g.size, t.1, t.2, t.3);
            }
        }
        assert(visible_upto(g, 0, 0) =~= Set::empty());
    }
    let size = grid.size();
    let mut count: usize = 0;
    let ghost mut i: int = 0;
    let mut z: u32 = 0;
    assert(g.size.x * (g.size.y * 0) == 0) by (nonlinear_arith);
    while z < size.z
        invariant
            grid.wf(),
            g == grid@,
            g.wf(),
            size == g.size,
            z <= size.z,
            i == size.x * (size.y * z),
            visible_upto(g, i, 0).finite(),
            count == visible_upto(g, i, 0).len(),
            count <= 6 * i,
        decreases size.z - z,
    {
        let mut y: u32 = 0;
        while y < size.y
            invariant
                grid.wf(),
                g == grid@,
                g.wf(),
                size == g.size,
                z < size.z,
                y <= size.y,
                i == size.x * (y + size.y * z),
                visible_upto(g, i, 0).finite(),
                count == visible_upto(g, i, 0).len(),
                count <= 6 * i,
            decreases size.y - y,
        {
            let mut x: u32 = 0;
            while x < size.x
                invariant
                    grid.wf(),
                    g == grid@,
                    g.wf(),
                    size == g.size,
                    z < size.z,
                    y < size.y,
                    x <= size.x,
                    i == x + size.x * (y + size.y * z),
                    visible_upto(g, i, 0).finite(),
                    count == visible_upto(g, i, 0).len(),
                    count <= 6 * i,
                decreases size.x - x,
            {
                let p = IVec3::new(x as i32, y as i32, z as i32);
                let solid = grid.is_solid(p);
                proof {
                    model::lemma_cell_index(g.size, x as int, y as int, z as int);
                }
                let mut face: usize = 0;
                while face < 6
                    invariant
                        grid.wf(),
                        g == grid@,
                        g.wf(),
                        size == g.size,
                        model::inside(g.size, x as int, y as int, z as int),
                        p == (IVec3 { x: x as i32, y: y as i32, z: z as i32 }),
                        solid == g.solid(x as int, y as int, z as int),
                        i == model::cell_index(g.size, x as int, y as int, z as int),
                        0 <= i < model::cell_total(g.size),
                        face <= 6,
                        visible_upto(g, i, face as int).finite(),
                        count == visible_upto(g, i, face as int).len(),
                        count <= 6 * i + face,
                    decreases 6 - face,
                {
                    let n = face_normal(face);
                    proof {
                        lemma_visible_step(g, x as int, y as int, z as int, face as int);
                    }
                    let hidden = grid.is_solid(IVec3::new(p.x + n.x, p.y + n.y, p.z + n.z));
                    if solid && !hidden {
                        count += 1;
                    }
                    face += 1;
                }
                proof {
                    lemma_visible_next_cell(g, i);
                    i = i + 1;
                }
                x += 1;
            }
            assert(size.x + size.x * (y + size.y * z) == size.x * (y + 1 + size.y * z))
                by (nonlinear_arith);
            y += 1;
        }
        assert(size.y + size.y * z == size.y * (z + 1)) by (nonlinear_arith);
        z += 1;
    }
    count
}

/// Merging never adds faces: a mesh has at most one quad for each visible face.
pub proof fn lemma_merging_never_adds(g: GridView)
    requires
        g.wf(),
    ensures
        quads_of(g).len() <= visible_faces(g).len(),
{
    let quads = quads_of(g);
    lemma_mesh_draws_every_face_once(g);
    lemma_quad_faces(g, 6);
    lemma_visible_all(g);
    let corners = Seq::new(
        quads.len(),
        |k: int|
            {
                let q = quads[k];
                let p = place(q.face / 2, q.slice, q.rect.a, q.rect.b);
                (q.face, p.0, p.1, p.2)
            },
    );
    assert forall|k: int| 0 <= k < corners.len() implies #[trigger] visible_faces(g).contains(
        corners[k],
    ) by {
        let q = quads[k];
        assert(draws(q, q.face, q.slice, q.rect.a, q.rect.b));
        assert(face_key(g, q.face, q.slice, q.rect.a, q.rect.b) is Some);
    }
    assert(corners.no_duplicates()) by {
        assert forall|k: int, l: int| 0 <= k < l < corners.len() implies corners[k] != corners[l] by {
            let (q, r) = (quads[k], quads[l]);
            if corners[k] == corners[l] {
                assert(draws(quads[k], q.face, q.slice, q.rect.a, q.rect.b));
                assert(draws(quads[l], q.face, q.slice, q.rect.a, q.rect.b));
            }
        }
    }
    corners.unique_seq_to_set();
    assert(corners.to_set().subset_of(visible_faces(g)));
    vstd::set_lib::lemma_len_subset(corners.to_set(), visible_faces(g));
}

// ---- the mesh on the model --------------------------------------------------
/// The cell a face looks at: the neighbour that would hide it.
pub open spec fn ahead(face: int, x: int, y: int, z: int) -> (int, int, int) {
    if face == 0 {
        (x + 1, y, z)
    } else if face == 1 {
        (x - 1, y, z)
    } else if face == 2 {
        (x, y + 1, z)
    } else if face == 3 {
        (x, y - 1, z)
    } else if face == 4 {
        (x, y, z + 1)
    } else {
        (x, y, z - 1)
    }
}

/// How many coordinates of two cells differ.
pub open spec fn apart(p: (int, int, int), q: (int, int, int)) -> int {
    unit_of(p.0 != q.0) + unit_of(p.1 != q.1) + unit_of(p.2 != q.2)
}

/// Whether a cell lies in the layer a face looks at and touches the cell right
/// ahead: with one coordinate apart beside it, with two across a corner.
pub open spec fn around(face: int, x: int, y: int, z: int, q: (int, int, int)) -> bool {
    let f = ahead(face, x, y, z);
    &&& -1 <= q.0 - f.0 <= 1 && -1 <= q.1 - f.1 <= 1 && -1 <= q.2 - f.2 <= 1
    &&& q != f
    &&& if face < 2 {
        q.0 == f.0
    } else if face < 4 {
        q.1 == f.1
    } else {
        q.2 == f.2
    }
}

pub open spec fn fills(g: GridView, q: (int, int, int)) -> bool {
    g.at(q.0, q.1, q.2) is Some
}

/// How light the face of a cell is: 255 in the open, less the more it is closed in.
pub open spec fn shade(g: GridView, face: int, x: int, y: int, z: int) -> int {
    if face < 2 {
        occlusion(g, face, x, y, z)
    } else if face < 4 {
        occlusion(g, face, y, z, x)
    } else {
        occlusion(g, face, z, x, y)
    }
}

/// The eight cells around what a face looks at.
spec fn ring(face: int, x: int, y: int, z: int, i: int, j: int) -> (int, int, int) {
    let f = ahead(face, x, y, z);
    if face < 2 {
        (f.0, f.1 + i, f.2 + j)
    } else if face < 4 {
        (f.0 + j, f.1, f.2 + i)
    } else {
        (f.0 + i, f.1 + j, f.2)
    }
}

proof fn lemma_ring(g: GridView, face: int, x: int, y: int, z: int, i: int, j: int)
    requires
        0 <= face < 6,
        -1 <= i <= 1,
        -1 <= j <= 1,
        i != 0 || j != 0,
    ensures
        around(face, x, y, z, ring(face, x, y, z, i, j)),
        apart(ring(face, x, y, z, i, j), ahead(face, x, y, z)) == unit_of(i != 0) + unit_of(j != 0),
        face < 2 ==> front(g, face, x, y, z, i, j) == fills(g, ring(face, x, y, z, i, j)),
        2 <= face < 4 ==> front(g, face, y, z, x, i, j) == fills(g, ring(face, x, y, z, i, j)),
        4 <= face ==> front(g, face, z, x, y, i, j) == fills(g, ring(face, x, y, z, i, j)),
{
    reveal(front);
}

proof fn lemma_all_ring(g: GridView, face: int, x: int, y: int, z: int)
    requires
        0 <= face < 6,
    ensures
        forall|q: (int, int, int)| #[trigger]
            around(face, x, y, z, q) ==> exists|i: int, j: int|
                -1 <= i <= 1 && -1 <= j <= 1 && (i != 0 || j != 0) && q == #[trigger] ring(
                    face,
                    x,
                    y,
                    z,
                    i,
                    j,
                ),
{
    let f = ahead(face, x, y, z);
    assert forall|q: (int, int, int)| #[trigger] around(face, x, y, z, q) implies exists|
        i: int,
        j: int,
    |
        -1 <= i <= 1 && -1 <= j <= 1 && (i != 0 || j != 0) && q == #[trigger] ring(
            face,
            x,
            y,
            z,
            i,
            j,
        ) by {
        let (i, j) = if face < 2 {
            (q.1 - f.1, q.2 - f.2)
        } else if face < 4 {
            (q.2 - f.2, q.0 - f.0)
        } else {
            (q.0 - f.0, q.1 - f.1)
        };
        assert(q == ring(face, x, y, z, i, j));
    }
}

proof fn lemma_ring_eight(g: GridView, face: int, x: int, y: int, z: int)
    requires
        0 <= face < 6,
    ensures
        ({
            let r = |i: int, j: int| fills(g, ring(face, x, y, z, i, j));
            shade(g, face, x, y, z) == (corner_light(r(-1, 0), r(0, -1), r(-1, -1)) + corner_light(
                r(-1, 0),
                r(0, 1),
                r(-1, 1),
            ) + corner_light(r(1, 0), r(0, -1), r(1, -1)) + corner_light(
                r(1, 0),
                r(0, 1),
                r(1, 1),
            )) * 255 / 12
        }),
{
    lemma_ring(g, face, x, y, z, -1, 0);
    lemma_ring(g, face, x, y, z, 1, 0);
    lemma_ring(g, face, x, y, z, 0, -1);
    lemma_ring(g, face, x, y, z, 0, 1);
    lemma_ring(g, face, x, y, z, -1, -1);
    lemma_ring(g, face, x, y, z, -1, 1);
    lemma_ring(g, face, x, y, z, 1, -1);
    lemma_ring(g, face, x, y, z, 1, 1);
}

/// Filling cells never makes a face lighter, and only the cells around what it
/// looks at count.
#[verifier::spinoff_prover]
#[verifier::rlimit(80)]
pub proof fn lemma_filling_never_lightens(
    g: GridView,
    h: GridView,
    face: int,
    x: int,
    y: int,
    z: int,
)
    requires
        0 <= face < 6,
        forall|q: (int, int, int)| #[trigger]
            around(face, x, y, z, q) && fills(g, q) ==> fills(h, q),
    ensures
        shade(h, face, x, y, z) <= shade(g, face, x, y, z),
{
    lemma_ring_eight(g, face, x, y, z);
    lemma_ring_eight(h, face, x, y, z);
    assert forall|i: int, j: int|
        -1 <= i <= 1 && -1 <= j <= 1 && (i != 0 || j != 0) && fills(
            g,
            #[trigger] ring(face, x, y, z, i, j),
        ) implies fills(h, ring(face, x, y, z, i, j)) by {
        lemma_ring(g, face, x, y, z, i, j);
        assert(around(face, x, y, z, ring(face, x, y, z, i, j)));
    }
}

/// A face is fully lit exactly where all eight cells around what it looks at
/// are empty, and fully dark exactly where the four beside it are full.
pub proof fn lemma_light_and_dark(g: GridView, face: int, x: int, y: int, z: int)
    requires
        0 <= face < 6,
    ensures
        0 <= shade(g, face, x, y, z) <= 255,
        shade(g, face, x, y, z) == 255 <==> forall|q: (int, int, int)| #[trigger]
            around(face, x, y, z, q) ==> !fills(g, q),
        shade(g, face, x, y, z) == 0 <==> forall|q: (int, int, int)| #[trigger]
            around(face, x, y, z, q) && apart(q, ahead(face, x, y, z)) == 1 ==> fills(g, q),
{
    lemma_ring_eight(g, face, x, y, z);
    lemma_all_ring(g, face, x, y, z);
    lemma_ring(g, face, x, y, z, -1, 0);
    lemma_ring(g, face, x, y, z, 1, 0);
    lemma_ring(g, face, x, y, z, 0, -1);
    lemma_ring(g, face, x, y, z, 0, 1);
    lemma_ring(g, face, x, y, z, -1, -1);
    lemma_ring(g, face, x, y, z, -1, 1);
    lemma_ring(g, face, x, y, z, 1, -1);
    lemma_ring(g, face, x, y, z, 1, 1);
    let dark = forall|q: (int, int, int)| #[trigger]
        around(face, x, y, z, q) && apart(q, ahead(face, x, y, z)) == 1 ==> fills(g, q);
    if shade(g, face, x, y, z) == 0 {
        assert forall|q: (int, int, int)| #[trigger]
            around(face, x, y, z, q) && apart(q, ahead(face, x, y, z)) == 1 implies fills(
            g,
            q,
        ) by {
            let (i, j) = choose|i: int, j: int|
                -1 <= i <= 1 && -1 <= j <= 1 && (i != 0 || j != 0) && q == #[trigger] ring(
                    face,
                    x,
                    y,
                    z,
                    i,
                    j,
                );
            lemma_ring(g, face, x, y, z, i, j);
        }
    }
    if shade(g, face, x, y, z) == 255 {
        assert forall|q: (int, int, int)| #[trigger] around(face, x, y, z, q) implies !fills(
            g,
            q,
        ) by {
            let (i, j) = choose|i: int, j: int|
                -1 <= i <= 1 && -1 <= j <= 1 && (i != 0 || j != 0) && q == #[trigger] ring(
                    face,
                    x,
                    y,
                    z,
                    i,
                    j,
                );
            lemma_ring(g, face, x, y, z, i, j);
        }
    }
}

/// One full cell among the eight takes away light by where it lies: a cell
/// across a corner darkens that corner, a cell beside darkens two.
pub proof fn lemma_one_neighbour_darkens(
    g: GridView,
    face: int,
    x: int,
    y: int,
    z: int,
    only: (int, int, int),
)
    requires
        0 <= face < 6,
        around(face, x, y, z, only),
        fills(g, only),
        forall|q: (int, int, int)| #[trigger]
            around(face, x, y, z, q) && q != only ==> !fills(g, q),
    ensures
        shade(g, face, x, y, z) == (if apart(only, ahead(face, x, y, z)) == 1 {
            212int
        } else {
            233int
        }),
{
    lemma_ring_eight(g, face, x, y, z);
    lemma_all_ring(g, face, x, y, z);
    let (i, j) = choose|i: int, j: int|
        -1 <= i <= 1 && -1 <= j <= 1 && (i != 0 || j != 0) && only == #[trigger] ring(
            face,
            x,
            y,
            z,
            i,
            j,
        );
    lemma_ring(g, face, x, y, z, -1, 0);
    lemma_ring(g, face, x, y, z, 1, 0);
    lemma_ring(g, face, x, y, z, 0, -1);
    lemma_ring(g, face, x, y, z, 0, 1);
    lemma_ring(g, face, x, y, z, -1, -1);
    lemma_ring(g, face, x, y, z, -1, 1);
    lemma_ring(g, face, x, y, z, 1, -1);
    lemma_ring(g, face, x, y, z, 1, 1);
    assert(around(face, x, y, z, ring(face, x, y, z, -1, 0)));
    assert(around(face, x, y, z, ring(face, x, y, z, 1, 0)));
    assert(around(face, x, y, z, ring(face, x, y, z, 0, -1)));
    assert(around(face, x, y, z, ring(face, x, y, z, 0, 1)));
    assert(around(face, x, y, z, ring(face, x, y, z, -1, -1)));
    assert(around(face, x, y, z, ring(face, x, y, z, -1, 1)));
    assert(around(face, x, y, z, ring(face, x, y, z, 1, -1)));
    assert(around(face, x, y, z, ring(face, x, y, z, 1, 1)));
}

/// The unit square a face of a cell is: its lowest and its highest corner.
pub open spec fn square(face: int, x: int, y: int, z: int) -> ((int, int, int), (int, int, int)) {
    if face == 0 {
        ((x + 1, y, z), (x + 1, y + 1, z + 1))
    } else if face == 1 {
        ((x, y, z), (x, y + 1, z + 1))
    } else if face == 2 {
        ((x, y + 1, z), (x + 1, y + 1, z + 1))
    } else if face == 3 {
        ((x, y, z), (x + 1, y, z + 1))
    } else if face == 4 {
        ((x, y, z + 1), (x + 1, y + 1, z + 1))
    } else {
        ((x, y, z), (x + 1, y + 1, z))
    }
}

pub open spec fn between(a: int, n: int, m: int, b: int) -> bool {
    (a <= n && m <= b) || (b <= n && m <= a)
}

/// Whether the rectangle a quad draws holds the face of a cell.
pub open spec fn paints(q: Quad, face: int, x: int, y: int, z: int) -> bool {
    let (lo, hi) = square(face, x, y, z);
    let (p, r) = (corner_of(q, 0), corner_of(q, 2));
    &&& q.face == face
    &&& between(p.0, lo.0, hi.0, r.0)
    &&& between(p.1, lo.1, hi.1, r.1)
    &&& between(p.2, lo.2, hi.2, r.2)
}

proof fn lemma_paints(q: Quad, face: int, x: int, y: int, z: int)
    requires
        0 <= face < 6,
        1 <= q.rect.w,
        1 <= q.rect.h,
    ensures
        paints(q, face, x, y, z) <==> (if face < 2 {
            draws(q, face, x, y, z)
        } else if face < 4 {
            draws(q, face, y, z, x)
        } else {
            draws(q, face, z, x, y)
        }),
{
}

/// The rectangles of a mesh lie on the model's visible faces and nowhere else.
/// Every face of a full cell that looks at an empty one is painted by exactly
/// one quad, in the cell's own colour and with the light that falls on it.
pub proof fn lemma_the_mesh_paints_the_model(g: GridView)
    requires
        g.wf(),
    ensures
        forall|k: int, face: int, x: int, y: int, z: int|
            0 <= k < quads_of(g).len() && 0 <= face < 6 && #[trigger] paints(
                quads_of(g)[k],
                face,
                x,
                y,
                z,
            ) ==> {
                &&& g.at(x, y, z) == Some(quads_of(g)[k].rect.key.palette_index)
                &&& !fills(g, ahead(face, x, y, z))
                &&& quads_of(g)[k].rect.key.ao == shade(g, face, x, y, z)
            },
        forall|face: int, x: int, y: int, z: int|
            0 <= face < 6 && fills(g, (x, y, z)) && !fills(g, #[trigger] ahead(face, x, y, z))
                ==> exists|k: int|
                0 <= k < quads_of(g).len() && #[trigger] paints(quads_of(g)[k], face, x, y, z),
        forall|k: int, l: int, face: int, x: int, y: int, z: int|
            0 <= k < l < quads_of(g).len() && 0 <= face < 6 ==> !(#[trigger] paints(
                quads_of(g)[k],
                face,
                x,
                y,
                z,
            ) && #[trigger] paints(quads_of(g)[l], face, x, y, z)),
{
    lemma_mesh_draws_every_face_once(g);
    let quads = quads_of(g);
    assert forall|k: int, face: int, x: int, y: int, z: int|
        0 <= k < quads.len() && 0 <= face < 6 && #[trigger] paints(
            quads[k],
            face,
            x,
            y,
            z,
        ) implies {
        &&& g.at(x, y, z) == Some(quads[k].rect.key.palette_index)
        &&& !fills(g, ahead(face, x, y, z))
        &&& quads[k].rect.key.ao == shade(g, face, x, y, z)
    } by {
        let q = quads[k];
        lemma_paints(q, face, x, y, z);
        lemma_light_and_dark(g, face, x, y, z);
        if face < 2 {
            assert(draws(quads[k], face, x, y, z));
        } else if face < 4 {
            assert(draws(quads[k], face, y, z, x));
        } else {
            assert(draws(quads[k], face, z, x, y));
        }
    }
    assert forall|face: int, x: int, y: int, z: int|
        0 <= face < 6 && fills(g, (x, y, z)) && !fills(
            g,
            #[trigger] ahead(face, x, y, z),
        ) implies exists|k: int|
        0 <= k < quads.len() && #[trigger] paints(quads[k], face, x, y, z) by {
        let (s, a, b) = if face < 2 {
            (x, y, z)
        } else if face < 4 {
            (y, z, x)
        } else {
            (z, x, y)
        };
        assert(on_grid(g, face, s, a, b));
        assert(face_key(g, face, s, a, b) is Some);
        let k = choose|k: int| 0 <= k < quads.len() && #[trigger] draws(quads[k], face, s, a, b);
        lemma_paints(quads[k], face, x, y, z);
    }
    assert forall|k: int, l: int, face: int, x: int, y: int, z: int|
        0 <= k < l < quads.len() && 0 <= face < 6 implies !(#[trigger] paints(
        quads[k],
        face,
        x,
        y,
        z,
    ) && #[trigger] paints(quads[l], face, x, y, z)) by {
        lemma_paints(quads[k], face, x, y, z);
        lemma_paints(quads[l], face, x, y, z);
        let (s, a, b) = if face < 2 {
            (x, y, z)
        } else if face < 4 {
            (y, z, x)
        } else {
            (z, x, y)
        };
        assert(!(draws(quads[k], face, s, a, b) && draws(quads[l], face, s, a, b)));
    }
}

/// A vertex as a point.
pub open spec fn point(v: Vertex) -> (int, int, int) {
    (v.position.x as int, v.position.y as int, v.position.z as int)
}

/// Every triangle of a mesh belongs to one quad, carries its colour, its face
/// and its light at all three corners, and turns its front to the empty cell the
/// face looks at.
pub proof fn lemma_triangles_look_outwards(mesh: Mesh, g: GridView, t: int)
    requires
        g.wf(),
        mesh.encodes(quads_of(g)),
        0 <= t,
        3 * t < mesh.indices@.len(),
    ensures
        ({
            let q = quads_of(g)[t / 2];
            let v = |n: int| mesh.vertices@[mesh.indices@[3 * t + n] as int];
            let n = ahead(q.face, 0, 0, 0);
            let area = q.rect.w * q.rect.h;
            &&& 3 * t + 2 < mesh.indices@.len()
            &&& 0 <= t / 2 < quads_of(g).len()
            &&& area >= 1
            &&& cross(point(v(0)), point(v(1)), point(v(2))) == (area * n.0, area * n.1, area * n.2)
            &&& forall|k: int|
                0 <= k < 3 ==> {
                    let w = #[trigger] mesh.vertices@[mesh.indices@[3 * t + k] as int];
                    &&& w.spec_palette_index() == q.rect.key.palette_index
                    &&& w.spec_face() == q.face
                    &&& w.spec_ao() == q.rect.key.ao
                }
        }),
{
    let quads = quads_of(g);
    let k = t / 2;
    let q = quads[k];
    lemma_mesh_fits(g);
    lemma_triangle_corner(mesh, quads, t, 0);
    lemma_triangle_corner(mesh, quads, t, 1);
    lemma_triangle_corner(mesh, quads, t, 2);
    lemma_corners_fit(g, k, 0);
    lemma_corners_fit(g, k, 1);
    lemma_corners_fit(g, k, 2);
    lemma_corners_fit(g, k, 3);
    lemma_quads_face_outwards(q);
    assert(normal_of(q.face) == ahead(q.face, 0, 0, 0));
    lemma_pack(q.rect.key.palette_index, q.face as u32, q.rect.key.ao);
}

proof fn lemma_triangle_corner(mesh: Mesh, quads: Seq<Quad>, t: int, m: int)
    requires
        mesh.encodes(quads),
        4 * quads.len() <= u32::MAX,
        0 <= t,
        3 * t < mesh.indices@.len(),
        0 <= m < 3,
    ensures
        3 * t + 2 < mesh.indices@.len(),
        0 <= t / 2 < quads.len(),
        mesh.vertices@[mesh.indices@[3 * t + m] as int] == vertex_of(
            quads[t / 2],
            if m == 0 {
                0
            } else if t % 2 == 0 {
                m
            } else {
                m + 1
            },
        ),
{
    let i = 3 * t + m;
    let k = t / 2;
    assert(t == 2 * k + t % 2);
    assert(i == 6 * k + (3 * (t % 2) + m));
    assert(i / 6 == k && i % 6 == 3 * (t % 2) + m);
    assert(mesh.indices@[i] == (4 * k + fan(i % 6)) as u32);
    let c = 4 * k + fan(i % 6);
    assert(c / 4 == k && c % 4 == fan(i % 6));
    assert(mesh.vertices@[c] == vertex_of(quads[c / 4], c % 4));
}

proof fn lemma_corners_fit(g: GridView, k: int, n: int)
    requires
        g.wf(),
        0 <= k < quads_of(g).len(),
        0 <= n < 4,
    ensures
        point(vertex_of(quads_of(g)[k], n)) == corner_of(quads_of(g)[k], n),
        0 <= quads_of(g)[k].face < 6,
        1 <= quads_of(g)[k].rect.w,
        1 <= quads_of(g)[k].rect.h,
{
    let quads = quads_of(g);
    let q = quads[k];
    lemma_mesh_draws_every_face_once(g);
    lemma_quad_faces(g, 6);
    assert(1 <= quads[k].rect.w && 1 <= quads[k].rect.h);
    assert(draws(quads[k], q.face, q.slice, q.rect.a, q.rect.b));
    assert(draws(
        quads[k],
        q.face,
        q.slice,
        q.rect.a + q.rect.w - 1,
        q.rect.b + q.rect.h - 1,
    ));
    assert(on_grid(g, q.face, q.slice, q.rect.a, q.rect.b));
}

// ---- merging, and the two passes --------------------------------------------
/// Whether a model is one solid box of a colour.
pub open spec fn is_box(g: GridView, color: u8) -> bool {
    forall|x: int, y: int, z: int|
        0 <= x < g.size.x && 0 <= y < g.size.y && 0 <= z < g.size.z ==> #[trigger] g.at(x, y, z)
            == Some(color)
}

proof fn lemma_all_rows(
    mask: Seq<Option<FaceKey>>,
    su: int,
    sv: int,
    b: int,
    key: FaceKey,
)
    requires
        0 < su,
        0 <= b <= sv,
        mask.len() == su * sv,
        forall|i: int| 0 <= i < mask.len() ==> #[trigger] mask[i] == Some(key),
    ensures
        rows(mask, su, sv, 0, b, su, key) == sv - b,
    decreases sv - b,
{
    if b < sv {
        assert(0 <= su * b && su * b + su <= su * sv) by (nonlinear_arith)
            requires
                0 < su,
                0 <= b,
                b + 1 <= sv,
        ;
        lemma_run_full(mask, su * b, su * b + su, key);
        lemma_all_rows(mask, su, sv, b + 1, key);
    }
}

/// A slice that is all alike is drawn as one rectangle.
pub proof fn lemma_what_is_alike_is_merged(
    mask: Seq<Option<FaceKey>>,
    su: int,
    sv: int,
    key: FaceKey,
)
    requires
        0 < su,
        0 < sv,
        mask.len() == su * sv,
        forall|i: int| 0 <= i < mask.len() ==> #[trigger] mask[i] == Some(key),
    ensures
        merged(mask, su, sv) == seq![Rect { a: 0, b: 0, w: su, h: sv, key }],
{
    assert(su * sv >= su) by (nonlinear_arith)
        requires
            0 < su,
            0 < sv,
    ;
    assert(su * 0 == 0);
    lemma_run_full(mask, 0, su, key);
    lemma_all_rows(mask, su, sv, 0, key);
    let r = rect_at(mask, su, sv, 0, 0, key);
    assert(r == Rect { a: 0, b: 0, w: su, h: sv, key });
    let left = without(mask, su, r);
    assert forall|i: int| 0 <= i < left.len() implies left[i] is None by {
        crate::geom::lemma_unpack_bound(i, su, sv);
    }
    model::lemma_count_some_zero(left);
    assert(swept(left, su, sv, su, 0)) by {
        assert forall|a: int, b: int|
            #![trigger left[a + su * b]]
            0 <= a < su && 0 <= b < sv && !from_on(a, b, su, 0) implies left[a + su * b] is None by {
            crate::geom::lemma_pack_bound(a, b, su, sv);
        }
    }
    lemma_merge_tiles(left, su, sv, su, 0);
    let rest = merge_from(left, su, sv, su, 0);
    assert(rest =~= Seq::empty());
    assert(mask[0 + su * 0] == Some(key));
    assert(merged(mask, su, sv) == seq![r] + rest);
    assert(seq![r] + rest =~= seq![r]);
}

proof fn lemma_box_slice(g: GridView, color: u8, face: int, slice: int)
    requires
        g.wf(),
        is_box(g, color),
        0 <= face < 6,
        g.size.x > 0,
        g.size.y > 0,
        g.size.z > 0,
        0 <= slice < reach(g, face / 2).0,
    ensures
        quads_of_slice(g, face, slice).len() == (if slice == (if face % 2 == 0 {
            reach(g, face / 2).0 - 1
        } else {
            0
        }) {
            1int
        } else {
            0int
        }),
{
    let (dim, su, sv) = reach(g, face / 2);
    let mask = mask_of(g, face, slice);
    let key = FaceKey { palette_index: color, ao: 255 };
    let end = if face % 2 == 0 {
        dim - 1
    } else {
        0
    };
    assert(su * sv >= 0) by (nonlinear_arith)
        requires
            0 < su,
            0 < sv,
    ;
    assert forall|i: int| 0 <= i < mask.len() implies #[trigger] mask[i] == (if slice == end {
        Some(key)
    } else {
        None
    }) by {
        crate::geom::lemma_unpack_bound(i, su, sv);
        let (a, b) = (i % su, i / su);
        let p = place(face / 2, slice, a, b);
        assert(g.at(p.0, p.1, p.2) == Some(color));
        let q = place(face / 2, slice + step(face), a, b);
        if slice != end {
            assert(g.at(q.0, q.1, q.2) == Some(color));
        } else {
            assert forall|u: int, v: int| !#[trigger] front(g, face, slice, a, b, u, v) by {
                let f = place(face / 2, slice + step(face), a + u, b + v);
                assert(!model::inside(g.size, f.0, f.1, f.2));
                reveal(front);
                assert(g.at(f.0, f.1, f.2) is None);
                assert(at_place(g, face / 2, slice + step(face), a + u, b + v) is None);
            }
            assert(occlusion(g, face, slice, a, b) == 255);
        }
    }
    if slice == end {
        lemma_what_is_alike_is_merged(mask, su, sv, key);
    } else {
        model::lemma_count_some_zero(mask);
        lemma_merged_tiles(mask, su, sv);
    }
}

proof fn lemma_box_slices(g: GridView, color: u8, face: int, slices: int)
    requires
        g.wf(),
        is_box(g, color),
        0 <= face < 6,
        g.size.x > 0,
        g.size.y > 0,
        g.size.z > 0,
        0 <= slices <= reach(g, face / 2).0,
    ensures
        quads_of_slices(g, face, slices).len() == (if slices > (if face % 2 == 0 {
            reach(g, face / 2).0 - 1
        } else {
            0
        }) {
            1int
        } else {
            0int
        }),
    decreases slices,
{
    if slices > 0 {
        lemma_box_slices(g, color, face, slices - 1);
        lemma_box_slice(g, color, face, slices - 1);
    }
}

/// A solid box of one colour, whatever its size, is drawn as its six sides.
pub proof fn lemma_a_box_is_six_rectangles(g: GridView, color: u8)
    requires
        g.wf(),
        is_box(g, color),
        g.size.x > 0,
        g.size.y > 0,
        g.size.z > 0,
    ensures
        quads_of(g).len() == 6,
{
    reveal_with_fuel(quads_of_faces, 7);
    lemma_box_slices(g, color, 0, reach(g, 0).0);
    lemma_box_slices(g, color, 1, reach(g, 0).0);
    lemma_box_slices(g, color, 2, reach(g, 1).0);
    lemma_box_slices(g, color, 3, reach(g, 1).0);
    lemma_box_slices(g, color, 4, reach(g, 2).0);
    lemma_box_slices(g, color, 5, reach(g, 2).0);
}

/// A face counts as exposed where its cell is full and the one ahead of it is
/// not.
pub proof fn lemma_what_is_exposed(g: GridView, face: int, x: int, y: int, z: int)
    requires
        0 <= face < 6,
    ensures
        ({
            let q = ahead(face, x, y, z);
            visible_faces(g).contains((face, x, y, z)) <==> g.at(x, y, z) is Some && g.at(
                q.0,
                q.1,
                q.2,
            ) is None
        }),
{
}

/// The triangles of a quad stand in the pass that its colour is marked for, and
/// in that alone: every corner drawn in a pass is one of the four of such a
/// quad, and each of those is drawn.
pub proof fn lemma_quads_stand_in_their_pass(
    quads: Seq<Quad>,
    blended: Seq<u64>,
    pass: bool,
    v: u32,
)
    requires
        4 * quads.len() <= u32::MAX,
    ensures
        pass_indices(quads, blended, pass).contains(v) <==> v / 4 < quads.len() && marked(
            blended,
            quads[v as int / 4].rect.key.palette_index,
        ) == pass,
    decreases quads.len(),
{
    if quads.len() > 0 {
        let rest = quads.drop_last();
        lemma_quads_stand_in_their_pass(rest, blended, pass, v);
        let n = quads.len() - 1;
        let (before, now) = (
            pass_indices(rest, blended, pass),
            pass_indices(quads, blended, pass),
        );
        if v as int / 4 < n {
            assert(rest[v as int / 4] == quads[v as int / 4]);
        }
        if marked(blended, quads.last().rect.key.palette_index) == pass {
            let more = Seq::new(6, |k: int| (4 * (quads.len() - 1) + fan(k)) as u32);
            assert(now == before + more);
            if before.contains(v) {
                let k = choose|k: int| 0 <= k < before.len() && before[k] == v;
                assert(now[k] == v);
            }
            if v as int / 4 == n {
                let k = if v % 4 == 0 {
                    0int
                } else if v % 4 == 1 {
                    1
                } else if v % 4 == 2 {
                    2
                } else {
                    5
                };
                assert(more[k] == v);
                assert(now[before.len() + k] == v);
            }
            if now.contains(v) {
                let k = choose|k: int| 0 <= k < now.len() && now[k] == v;
                if k < before.len() {
                    assert(before[k] == v);
                } else {
                    assert(more[k - before.len()] == v);
                }
            }
        }
    }
}

} // verus!
