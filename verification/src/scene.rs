//! Scene-graph flattening.
//!
//! MagicaVoxel 0.99+ stores a scene graph of `nTRN` (transform), `nGRP`
//! (group) and `nSHP` (shape) chunks. Flattening it gives one *instance* per
//! rendered model, each with an integer rigid transform.
//!
//! Coordinates are MagicaVoxel's own: right-handed, Z up, one unit per voxel.
//! Sums of coordinates wrap around at the ends of the 32-bit range, so that no
//! file, however corrupt its numbers, can stop the flattening.

use vstd::prelude::*;

use crate::geom;
use crate::geom::IVec3;
use crate::text;

verus! {

// ---- vectors --------------------------------------------------------------
/// The sum of two vectors, wrapping around at the ends of the range.
pub open spec fn plus(a: IVec3, b: IVec3) -> IVec3 {
    IVec3 {
        x: geom::wrap_i32(a.x + b.x) as i32,
        y: geom::wrap_i32(a.y + b.y) as i32,
        z: geom::wrap_i32(a.z + b.z) as i32,
    }
}

/// The difference of two vectors, wrapping around at the ends of the range.
pub open spec fn minus(a: IVec3, b: IVec3) -> IVec3 {
    IVec3 {
        x: geom::wrap_i32(a.x - b.x) as i32,
        y: geom::wrap_i32(a.y - b.y) as i32,
        z: geom::wrap_i32(a.z - b.z) as i32,
    }
}

fn add_vec(a: IVec3, b: IVec3) -> (r: IVec3)
    ensures
        r == plus(a, b),
{
    IVec3::new(a.x.wrapping_add(b.x), a.y.wrapping_add(b.y), a.z.wrapping_add(b.z))
}

fn sub_vec(a: IVec3, b: IVec3) -> (r: IVec3)
    ensures
        r == minus(a, b),
{
    IVec3::new(a.x.wrapping_sub(b.x), a.y.wrapping_sub(b.y), a.z.wrapping_sub(b.z))
}

/// One coordinate of a vector.
pub open spec fn pick(v: IVec3, axis: u8) -> i32 {
    if axis == 0 {
        v.x
    } else if axis == 1 {
        v.y
    } else {
        v.z
    }
}

fn coordinate(v: IVec3, axis: u8) -> (r: i32)
    ensures
        r == pick(v, axis),
{
    if axis == 0 {
        v.x
    } else if axis == 1 {
        v.y
    } else {
        v.z
    }
}

/// A coordinate, negated or not.
pub open spec fn flip(c: i32, neg: bool) -> i32 {
    if neg {
        geom::wrap_i32(-c) as i32
    } else {
        c
    }
}

fn flipped(c: i32, neg: bool) -> (r: i32)
    ensures
        r == flip(c, neg),
{
    if neg {
        0i32.wrapping_sub(c)
    } else {
        c
    }
}

// ---- rotations ------------------------------------------------------------
/// A signed permutation matrix: the only rotation `.vox` can express.
///
/// `src_x` is the input axis that feeds the output's x, and `neg_x` its sign;
/// likewise for y and z. Kept as integers so transform composition is exact.
#[derive(Clone, Copy, Debug, PartialEq, Eq, Structural)]
pub struct Rot3 {
    pub src_x: u8,
    pub src_y: u8,
    pub src_z: u8,
    pub neg_x: bool,
    pub neg_y: bool,
    pub neg_z: bool,
}

/// The axis a pair of bits names.
pub open spec fn column(byte: u8, shift: u8) -> u8 {
    (byte >> shift) & 0b11
}

/// The rotation that leaves everything as it is.
pub open spec fn no_rotation() -> Rot3 {
    Rot3 { src_x: 0, src_y: 1, src_z: 2, neg_x: false, neg_y: false, neg_z: false }
}

/// The rotation a byte encodes, where it encodes one.
///
/// Bits 0-1 and 2-3 name the column of rows 0 and 1, row 2 gets the column
/// that is left, and bits 4-6 are the signs of the rows. Bit 7 says nothing.
pub open spec fn rotation_of(byte: u8) -> Option<Rot3> {
    let r0 = column(byte, 0);
    let r1 = column(byte, 2);
    if r0 > 2 || r1 > 2 || r0 == r1 {
        None
    } else {
        Some(
            Rot3 {
                src_x: r0,
                src_y: r1,
                src_z: (3 - r0 - r1) as u8,
                neg_x: byte & 0x10 != 0,
                neg_y: byte & 0x20 != 0,
                neg_z: byte & 0x40 != 0,
            },
        )
    }
}

impl Rot3 {
    /// Each input axis feeds exactly one output axis.
    pub open spec fn wf(self) -> bool {
        &&& self.src_x <= 2
        &&& self.src_y <= 2
        &&& self.src_z <= 2
        &&& self.src_x != self.src_y
        &&& self.src_x != self.src_z
        &&& self.src_y != self.src_z
    }

    /// The rotated vector.
    pub open spec fn turn(self, v: IVec3) -> IVec3 {
        IVec3 {
            x: flip(pick(v, self.src_x), self.neg_x),
            y: flip(pick(v, self.src_y), self.neg_y),
            z: flip(pick(v, self.src_z), self.neg_z),
        }
    }

    pub open spec fn source(self, axis: u8) -> u8 {
        if axis == 0 {
            self.src_x
        } else if axis == 1 {
            self.src_y
        } else {
            self.src_z
        }
    }

    pub open spec fn sign(self, axis: u8) -> bool {
        if axis == 0 {
            self.neg_x
        } else if axis == 1 {
            self.neg_y
        } else {
            self.neg_z
        }
    }

    /// The rotation that applies `rhs` first, then `self`.
    pub open spec fn after(self, rhs: Rot3) -> Rot3 {
        Rot3 {
            src_x: rhs.source(self.src_x),
            src_y: rhs.source(self.src_y),
            src_z: rhs.source(self.src_z),
            neg_x: self.neg_x != rhs.sign(self.src_x),
            neg_y: self.neg_y != rhs.sign(self.src_y),
            neg_z: self.neg_z != rhs.sign(self.src_z),
        }
    }

    /// The rotation that leaves everything as it is.
    pub fn identity() -> (r: Rot3)
        ensures
            r == no_rotation(),
            r.wf(),
    {
        Rot3 { src_x: 0, src_y: 1, src_z: 2, neg_x: false, neg_y: false, neg_z: false }
    }

    /// Decode MagicaVoxel's `_r` byte.
    ///
    /// Returns `None` for the bit patterns that do not describe a permutation.
    pub fn from_byte(byte: u8) -> (r: Option<Rot3>)
        ensures
            r == rotation_of(byte),
            r matches Some(rot) ==> rot.wf(),
    {
        let r0: u8 = byte & 0b11;
        let r1: u8 = (byte >> 2) & 0b11;
        assert(byte >> 0 == byte) by (bit_vector);
        if r0 > 2 || r1 > 2 || r0 == r1 {
            return None;
        }
        let r2: u8 = 3 - r0 - r1;
        Some(
            Rot3 {
                src_x: r0,
                src_y: r1,
                src_z: r2,
                neg_x: byte & 0x10 != 0,
                neg_y: byte & 0x20 != 0,
                neg_z: byte & 0x40 != 0,
            },
        )
    }

    /// Apply to an integer vector.
    pub fn apply(self, v: IVec3) -> (r: IVec3)
        ensures
            r == self.turn(v),
    {
        IVec3::new(
            flipped(coordinate(v, self.src_x), self.neg_x),
            flipped(coordinate(v, self.src_y), self.neg_y),
            flipped(coordinate(v, self.src_z), self.neg_z),
        )
    }

    /// `self * rhs`: the rotation that applies `rhs` first, then `self`.
    pub fn compose(self, rhs: Rot3) -> (r: Rot3)
        ensures
            r == self.after(rhs),
            self.wf() && rhs.wf() ==> r.wf(),
    {
        Rot3 {
            src_x: rhs.source_of(self.src_x),
            src_y: rhs.source_of(self.src_y),
            src_z: rhs.source_of(self.src_z),
            neg_x: self.neg_x != rhs.sign_of(self.src_x),
            neg_y: self.neg_y != rhs.sign_of(self.src_y),
            neg_z: self.neg_z != rhs.sign_of(self.src_z),
        }
    }

    /// The input axis that feeds an output axis.
    pub fn source_of(self, axis: u8) -> (r: u8)
        ensures
            r == self.source(axis),
    {
        if axis == 0 {
            self.src_x
        } else if axis == 1 {
            self.src_y
        } else {
            self.src_z
        }
    }

    /// Whether an output axis is negated.
    pub fn sign_of(self, axis: u8) -> (r: bool)
        ensures
            r == self.sign(axis),
    {
        if axis == 0 {
            self.neg_x
        } else if axis == 1 {
            self.neg_y
        } else {
            self.neg_z
        }
    }
}

proof fn lemma_flip(c: i32, d: i32, s: bool, t: bool)
    ensures
        flip(flip(c, s), t) == flip(c, s != t),
        flip(c, s) == flip(d, s) ==> c == d,
        flip(geom::wrap_i32(c + d) as i32, s) == geom::wrap_i32(flip(c, s) + flip(d, s)) as i32,
{
}

/// Composing two rotations is the same as applying them in turn.
pub proof fn lemma_composing_is_applying_in_turn(p: Rot3, q: Rot3, v: IVec3)
    requires
        p.wf(),
        q.wf(),
    ensures
        p.after(q).turn(v) == p.turn(q.turn(v)),
        p.after(q).wf(),
{
    lemma_flip(pick(v, q.source(p.src_x)), 0, q.sign(p.src_x), p.neg_x);
    lemma_flip(pick(v, q.source(p.src_y)), 0, q.sign(p.src_y), p.neg_y);
    lemma_flip(pick(v, q.source(p.src_z)), 0, q.sign(p.src_z), p.neg_z);
}

/// A rotation loses nothing: two vectors that turn into the same one are the same.
pub proof fn lemma_rotations_lose_nothing(r: Rot3, v: IVec3, w: IVec3)
    requires
        r.wf(),
        r.turn(v) == r.turn(w),
    ensures
        v == w,
{
    lemma_flip(pick(v, r.src_x), pick(w, r.src_x), r.neg_x, false);
    lemma_flip(pick(v, r.src_y), pick(w, r.src_y), r.neg_y, false);
    lemma_flip(pick(v, r.src_z), pick(w, r.src_z), r.neg_z, false);
}

/// A rotation is a signed permutation: each coordinate of the result is one of
/// the coordinates that went in, or its negation, and all three are used.
pub proof fn lemma_rotations_are_signed_permutations(r: Rot3, v: IVec3)
    requires
        r.wf(),
    ensures
        r.turn(v).x == pick(v, r.src_x) || r.turn(v).x == geom::wrap_i32(-pick(v, r.src_x)),
        r.turn(v).y == pick(v, r.src_y) || r.turn(v).y == geom::wrap_i32(-pick(v, r.src_y)),
        r.turn(v).z == pick(v, r.src_z) || r.turn(v).z == geom::wrap_i32(-pick(v, r.src_z)),
        set![r.src_x, r.src_y, r.src_z] == set![0u8, 1u8, 2u8],
{
    assert(set![r.src_x, r.src_y, r.src_z] =~= set![0u8, 1u8, 2u8]);
}

/// The top bit of an encoded rotation says nothing.
pub proof fn lemma_top_bit_is_ignored(byte: u8)
    ensures
        rotation_of(byte) == rotation_of(byte & 0x7f),
{
    assert(column(byte, 0) == column(byte & 0x7f, 0) && column(byte, 2) == column(byte & 0x7f, 2)
        && byte & 0x10 == (byte & 0x7f) & 0x10 && byte & 0x20 == (byte & 0x7f) & 0x20 && byte & 0x40
        == (byte & 0x7f) & 0x40) by (bit_vector);
}

// ---- transforms -----------------------------------------------------------
/// A rigid, axis-aligned transform in voxel units.
#[derive(Clone, Copy, Debug, PartialEq, Eq, Structural)]
pub struct VoxTransform {
    pub rotation: Rot3,
    pub translation: IVec3,
}

/// The transform that leaves everything where it is.
pub open spec fn no_transform() -> VoxTransform {
    VoxTransform { rotation: no_rotation(), translation: IVec3 { x: 0, y: 0, z: 0 } }
}

/// The cell a model turns around: half its size, rounded down.
pub open spec fn pivot(size: IVec3) -> IVec3 {
    IVec3 { x: (size.x / 2) as i32, y: (size.y / 2) as i32, z: (size.z / 2) as i32 }
}

impl VoxTransform {
    pub open spec fn wf(self) -> bool {
        self.rotation.wf()
    }

    /// Where a point goes.
    pub open spec fn move_point(self, v: IVec3) -> IVec3 {
        plus(self.rotation.turn(v), self.translation)
    }

    /// `self` applied after `child`.
    pub open spec fn after(self, child: VoxTransform) -> VoxTransform {
        VoxTransform {
            rotation: self.rotation.after(child.rotation),
            translation: self.move_point(child.translation),
        }
    }

    /// Where the voxel at local coordinate `v` of a model stands in the world.
    pub open spec fn world(self, v: IVec3, size: IVec3) -> IVec3 {
        self.move_point(minus(v, pivot(size)))
    }

    /// The transform that leaves everything where it is.
    pub fn identity() -> (r: VoxTransform)
        ensures
            r == no_transform(),
            r.wf(),
    {
        VoxTransform { rotation: Rot3::identity(), translation: IVec3::new(0, 0, 0) }
    }

    /// `self` applied after `child`.
    pub fn compose(self, child: VoxTransform) -> (r: VoxTransform)
        ensures
            r == self.after(child),
            self.wf() && child.wf() ==> r.wf(),
    {
        VoxTransform {
            rotation: self.rotation.compose(child.rotation),
            translation: add_vec(self.rotation.apply(child.translation), self.translation),
        }
    }

    /// World-space integer coordinate of the voxel at local coordinate `v` in
    /// a model of dimensions `size`.
    ///
    /// `_t` gives the world position of the model's pivot, and MagicaVoxel's
    /// pivot is the *cell* `size / 2` in integer division, not the geometric
    /// centre. For even sizes the two agree; for odd sizes they differ by half
    /// a cell, and using the geometric centre would put the model half a voxel
    /// off the world grid. Keeping the whole calculation in integers makes
    /// that impossible to get subtly wrong.
    pub fn voxel_to_world(self, v: IVec3, size: IVec3) -> (r: IVec3)
        requires
            size.x >= 0,
            size.y >= 0,
            size.z >= 0,
        ensures
            r == self.world(v, size),
    {
        let half = IVec3::new(size.x / 2, size.y / 2, size.z / 2);
        add_vec(self.rotation.apply(sub_vec(v, half)), self.translation)
    }
}

/// A transform composed of two moves a point as the two do in turn, the child's first.
pub proof fn lemma_transforms_compose(parent: VoxTransform, child: VoxTransform, v: IVec3)
    requires
        parent.wf(),
        child.wf(),
    ensures
        parent.after(child).move_point(v) == parent.move_point(child.move_point(v)),
{
    let (p, c) = (parent.rotation, child.rotation);
    lemma_composing_is_applying_in_turn(p, c, v);
    let (a, b) = (c.turn(v), child.translation);
    lemma_flip(pick(a, p.src_x), pick(b, p.src_x), p.neg_x, false);
    lemma_flip(pick(a, p.src_y), pick(b, p.src_y), p.neg_y, false);
    lemma_flip(pick(a, p.src_z), pick(b, p.src_z), p.neg_z, false);
    assert(p.turn(plus(a, b)) == plus(p.turn(a), p.turn(b)));
    lemma_plus(p.turn(a), p.turn(b), parent.translation);
}

proof fn lemma_plus(a: IVec3, b: IVec3, c: IVec3)
    ensures
        plus(plus(a, b), c) == plus(a, plus(b, c)),
{
}

/// No two voxels of a model are placed in the same cell of the world.
pub proof fn lemma_placement_keeps_voxels_apart(t: VoxTransform, size: IVec3, v: IVec3, w: IVec3)
    requires
        t.wf(),
        t.world(v, size) == t.world(w, size),
    ensures
        v == w,
{
    let p = pivot(size);
    let (a, b) = (minus(v, p), minus(w, p));
    lemma_cancel(t.rotation.turn(a), t.rotation.turn(b), t.translation);
    lemma_rotations_lose_nothing(t.rotation, a, b);
    lemma_cancel_minus(v, w, p);
}

proof fn lemma_cancel(a: IVec3, b: IVec3, c: IVec3)
    requires
        plus(a, c) == plus(b, c),
    ensures
        a == b,
{
}

proof fn lemma_cancel_minus(a: IVec3, b: IVec3, c: IVec3)
    requires
        minus(a, c) == minus(b, c),
    ensures
        a == b,
{
}

// ---- the scene graph ------------------------------------------------------
/// One keyframe of a transform node: its `_r` and `_t` attributes.
#[derive(Clone, Debug, PartialEq, Eq)]
pub struct Frame {
    pub rotation: Option<String>,
    pub translation: Option<String>,
}

/// A node of the scene graph, with the attributes that flattening reads.
#[derive(Clone, Debug, PartialEq, Eq)]
pub enum SceneNode {
    /// `nTRN`: places its child. `hidden` and `name` are the `_hidden` and
    /// `_name` attributes.
    Transform {
        hidden: Option<String>,
        name: Option<String>,
        frames: Vec<Frame>,
        child: u32,
        layer_id: u32,
    },
    /// `nGRP`: holds children.
    Group { children: Vec<u32> },
    /// `nSHP`: shows a model. Multiple entries are animation keyframes.
    Shape { models: Vec<u32> },
}

/// The text of an attribute, where there is one.
pub open spec fn opt_text(s: Option<String>) -> Option<Seq<char>> {
    match s {
        Some(t) => Some(t@),
        None => None,
    }
}

/// A keyframe, as mathematical values.
pub struct FrameView {
    pub rotation: Option<Seq<char>>,
    pub translation: Option<Seq<char>>,
}

/// A node, as mathematical values.
pub enum NodeView {
    Transform {
        hidden: Option<Seq<char>>,
        name: Option<Seq<char>>,
        frames: Seq<FrameView>,
        child: u32,
        layer_id: u32,
    },
    Group { children: Seq<u32> },
    Shape { models: Seq<u32> },
}

impl View for Frame {
    type V = FrameView;

    open spec fn view(&self) -> FrameView {
        FrameView {
            rotation: opt_text(self.rotation),
            translation: opt_text(self.translation),
        }
    }
}

impl View for SceneNode {
    type V = NodeView;

    open spec fn view(&self) -> NodeView {
        match self {
            SceneNode::Transform { hidden, name, frames, child, layer_id } => NodeView::Transform {
                hidden: opt_text(*hidden),
                name: opt_text(*name),
                frames: frames@.map_values(|f: Frame| f@),
                child: *child,
                layer_id: *layer_id,
            },
            SceneNode::Group { children } => NodeView::Group { children: children@ },
            SceneNode::Shape { models } => NodeView::Shape { models: models@ },
        }
    }
}

/// The nodes of a graph, as mathematical values.
pub open spec fn node_views(nodes: Seq<SceneNode>) -> Seq<NodeView> {
    nodes.map_values(|n: SceneNode| n@)
}

/// One model placed in the world.
#[derive(Clone, Debug, PartialEq, Eq)]
pub struct ModelInstance {
    /// Index into [`crate::loader::VoxScene::models`].
    pub model_index: usize,
    pub transform: VoxTransform,
    /// `_name` of the nearest enclosing transform node, when it has one.
    pub name: Option<String>,
}

/// A placed model, as mathematical values.
pub struct InstanceView {
    pub model_index: usize,
    pub transform: VoxTransform,
    pub name: Option<Seq<char>>,
}

impl View for ModelInstance {
    type V = InstanceView;

    open spec fn view(&self) -> InstanceView {
        InstanceView {
            model_index: self.model_index,
            transform: self.transform,
            name: opt_text(self.name),
        }
    }
}

pub open spec fn instance_views(instances: Seq<ModelInstance>) -> Seq<InstanceView> {
    instances.map_values(|i: ModelInstance| i@)
}

/// Depth limit for scene traversal; also breaks cycles in corrupt files.
pub const MAX_DEPTH: u32 = 256;

/// The rotation an `_r` attribute names; the identity where it names none.
pub open spec fn frame_rotation(attribute: Option<Seq<char>>) -> Rot3 {
    match attribute {
        Some(s) => match text::within(text::parse_nat(text::trim(s)), 0, 255) {
            Some(n) => match rotation_of(n as u8) {
                Some(r) => r,
                None => no_rotation(),
            },
            None => no_rotation(),
        },
        None => no_rotation(),
    }
}

/// A coordinate written in decimal, where it fits.
pub open spec fn coordinate_of(s: Seq<char>) -> Option<int> {
    text::within(text::parse_int(s), i32::MIN as int, i32::MAX as int)
}

/// The vector that three words name, where there are three and each names a coordinate.
pub open spec fn vector_of(s: Seq<char>) -> Option<IVec3> {
    let w = text::words(s);
    if w.len() == 3 && coordinate_of(w[0]) is Some && coordinate_of(w[1]) is Some && coordinate_of(
        w[2],
    ) is Some {
        Some(
            IVec3 {
                x: coordinate_of(w[0])->0 as i32,
                y: coordinate_of(w[1])->0 as i32,
                z: coordinate_of(w[2])->0 as i32,
            },
        )
    } else {
        None
    }
}

/// The translation a `_t` attribute names; none where it names none.
pub open spec fn frame_translation(attribute: Option<Seq<char>>) -> IVec3 {
    match attribute {
        Some(s) => match vector_of(s) {
            Some(v) => v,
            None => IVec3 { x: 0, y: 0, z: 0 },
        },
        None => IVec3 { x: 0, y: 0, z: 0 },
    }
}

/// The transform of a node: that of its first keyframe.
pub open spec fn first_frame(frames: Seq<FrameView>) -> VoxTransform {
    if frames.len() == 0 {
        no_transform()
    } else {
        VoxTransform {
            rotation: frame_rotation(frames[0].rotation),
            translation: frame_translation(frames[0].translation),
        }
    }
}

/// Whether a layer is hidden; one that the file does not list is not.
pub open spec fn layer_hidden(hidden_layers: Seq<bool>, layer_id: u32) -> bool {
    layer_id < hidden_layers.len() && hidden_layers[layer_id as int]
}

/// The visible instances under a node.
///
/// A node that is being visited already, that is too deep, or that does not
/// exist shows nothing.
pub open spec fn visible_under(
    nodes: Seq<NodeView>,
    hidden_layers: Seq<bool>,
    model_count: nat,
    id: u32,
    parent: VoxTransform,
    name: Option<Seq<char>>,
    depth: nat,
    visiting: Seq<u32>,
) -> Seq<InstanceView>
    decreases 300 - depth, 0nat,
{
    if depth > MAX_DEPTH || visiting.contains(id) || id >= nodes.len() {
        Seq::empty()
    } else {
        let inner = visiting.push(id);
        match nodes[id as int] {
            NodeView::Transform { hidden, name: own, frames, child, layer_id } => if hidden == Some(
                seq!['1'],
            ) || layer_hidden(hidden_layers, layer_id) {
                Seq::empty()
            } else {
                visible_under(
                    nodes,
                    hidden_layers,
                    model_count,
                    child,
                    parent.after(first_frame(frames)),
                    if own is Some {
                        own
                    } else {
                        name
                    },
                    depth + 1,
                    inner,
                )
            },
            NodeView::Group { children } => visible_under_all(
                nodes,
                hidden_layers,
                model_count,
                children,
                parent,
                name,
                depth + 1,
                inner,
            ),
            NodeView::Shape { models } => if models.len() > 0 && models[0] < model_count {
                seq![InstanceView { model_index: models[0] as usize, transform: parent, name }]
            } else {
                Seq::empty()
            },
        }
    }
}

/// The visible instances under each of some nodes, in order.
pub open spec fn visible_under_all(
    nodes: Seq<NodeView>,
    hidden_layers: Seq<bool>,
    model_count: nat,
    children: Seq<u32>,
    parent: VoxTransform,
    name: Option<Seq<char>>,
    depth: nat,
    visiting: Seq<u32>,
) -> Seq<InstanceView>
    decreases 300 - depth, 1 + children.len(),
{
    if children.len() == 0 || depth > MAX_DEPTH {
        Seq::empty()
    } else {
        visible_under_all(
            nodes,
            hidden_layers,
            model_count,
            children.drop_last(),
            parent,
            name,
            depth,
            visiting,
        ) + visible_under(
            nodes,
            hidden_layers,
            model_count,
            children.last(),
            parent,
            name,
            depth,
            visiting,
        )
    }
}

/// Every visible instance of a scene, from the root down. A file without a
/// scene graph shows each of its models at the origin.
pub open spec fn flattened(
    nodes: Seq<NodeView>,
    hidden_layers: Seq<bool>,
    model_count: nat,
) -> Seq<InstanceView> {
    if nodes.len() == 0 {
        Seq::new(
            model_count,
            |i: int|
                InstanceView { model_index: i as usize, transform: no_transform(), name: None },
        )
    } else {
        visible_under(nodes, hidden_layers, model_count, 0, no_transform(), None, 0, Seq::empty())
    }
}

/// Walk `nodes` from the root and produce one instance per visible shape.
///
/// `hidden_layers` is consulted for `nTRN` nodes that name a hidden layer.
/// Nodes flagged `_hidden` are skipped, matching what MagicaVoxel displays.
pub fn flatten(nodes: &Vec<SceneNode>, hidden_layers: &Vec<bool>, model_count: usize) -> (out: Vec<
    ModelInstance,
>)
    ensures
        instance_views(out@) == flattened(node_views(nodes@), hidden_layers@, model_count as nat),
{
    let mut out: Vec<ModelInstance> = Vec::new();
    if nodes.len() == 0 {
        // Pre-0.99 files have no scene graph: every model sits at the origin.
        let mut i: usize = 0;
        while i < model_count
            invariant
                i <= model_count,
                out@.len() == i,
                forall|k: int|
                    0 <= k < i ==> (#[trigger] out@[k])@ == (InstanceView {
                        model_index: k as usize,
                        transform: no_transform(),
                        name: None,
                    }),
            decreases model_count - i,
        {
            out.push(
                ModelInstance { model_index: i, transform: VoxTransform::identity(), name: None },
            );
            i += 1;
        }
        assert(instance_views(out@) =~= flattened(
            node_views(nodes@),
            hidden_layers@,
            model_count as nat,
        ));
        return out;
    }
    let mut visiting: Vec<u32> = Vec::new();
    let none: Option<String> = None;
    visit(
        nodes,
        hidden_layers,
        model_count,
        0,
        VoxTransform::identity(),
        &none,
        0,
        &mut visiting,
        &mut out,
    );
    assert(instance_views(out@) =~= flattened(
        node_views(nodes@),
        hidden_layers@,
        model_count as nat,
    ));
    out
}

fn contains(list: &Vec<u32>, id: u32) -> (r: bool)
    ensures
        r == list@.contains(id),
{
    let mut i: usize = 0;
    while i < list.len()
        invariant
            i <= list@.len(),
            forall|k: int| 0 <= k < i ==> list@[k] != id,
        decreases list@.len() - i,
    {
        if list[i] == id {
            return true;
        }
        i += 1;
    }
    false
}

fn copy_name(name: &Option<String>) -> (r: Option<String>)
    ensures
        opt_text(r) == opt_text(*name),
{
    match name {
        Some(s) => Some(s.clone()),
        None => None,
    }
}

fn is_one(s: &Option<String>) -> (r: bool)
    ensures
        r <==> opt_text(*s) == Some(seq!['1']),
{
    match s {
        Some(t) => {
            let c = text::chars_of(t.as_str());
            let r = c.len() == 1 && c[0] == '1';
            proof {
                if r {
                    assert(t@ =~= seq!['1']);
                }
            }
            r
        },
        None => false,
    }
}

fn visit(
    nodes: &Vec<SceneNode>,
    hidden_layers: &Vec<bool>,
    model_count: usize,
    node_id: u32,
    parent: VoxTransform,
    name: &Option<String>,
    depth: u32,
    visiting: &mut Vec<u32>,
    out: &mut Vec<ModelInstance>,
)
    ensures
        final(visiting)@ == old(visiting)@,
        instance_views(final(out)@) == instance_views(old(out)@) + visible_under(
            node_views(nodes@),
            hidden_layers@,
            model_count as nat,
            node_id,
            parent,
            opt_text(*name),
            depth as nat,
            old(visiting)@,
        ),
    decreases 300 - depth,
{
    let ghost views = node_views(nodes@);
    let ghost before = instance_views(out@);
    let ghost seen = visiting@;
    assert(before + Seq::empty() =~= before);
    if depth > MAX_DEPTH || contains(visiting, node_id) || node_id as usize >= nodes.len() {
        return ;
    }
    visiting.push(node_id);
    let node: &SceneNode = &nodes[node_id as usize];
    assert(views[node_id as int] == node@);
    match node {
        SceneNode::Transform { hidden, name: own, frames, child, layer_id } => {
            let layer: usize = *layer_id as usize;
            let skip = is_one(hidden) || (layer < hidden_layers.len() && hidden_layers[layer]);
            if !skip {
                let local = frame_transform(frames);
                let inner = if own.is_some() {
                    copy_name(own)
                } else {
                    copy_name(name)
                };
                visit(
                    nodes,
                    hidden_layers,
                    model_count,
                    *child,
                    parent.compose(local),
                    &inner,
                    depth + 1,
                    visiting,
                    out,
                );
            }
        },
        SceneNode::Group { children } => {
            let mut k: usize = 0;
            let ghost inner = visiting@;
            assert(children@.subrange(0, 0) =~= Seq::empty());
            proof {
                if depth + 1 > MAX_DEPTH {
                    lemma_too_deep(
                        views,
                        hidden_layers@,
                        model_count as nat,
                        children@,
                        parent,
                        opt_text(*name),
                        depth as nat + 1,
                        inner,
                    );
                }
            }
            while k < children.len()
                invariant
                    depth <= MAX_DEPTH,
                    k <= children@.len(),
                    views == node_views(nodes@),
                    visiting@ == inner,
                    instance_views(out@) == before + visible_under_all(
                        views,
                        hidden_layers@,
                        model_count as nat,
                        children@.subrange(0, k as int),
                        parent,
                        opt_text(*name),
                        depth as nat + 1,
                        inner,
                    ),
                decreases children@.len() - k,
            {
                let ghost upto = children@.subrange(0, k as int + 1);
                let ghost had = instance_views(out@);
                visit(
                    nodes,
                    hidden_layers,
                    model_count,
                    children[k],
                    parent,
                    name,
                    depth + 1,
                    visiting,
                    out,
                );
                proof {
                    assert(upto.drop_last() =~= children@.subrange(0, k as int));
                    assert(upto.last() == children@[k as int]);
                    assert(instance_views(out@) =~= before + visible_under_all(
                        views,
                        hidden_layers@,
                        model_count as nat,
                        upto,
                        parent,
                        opt_text(*name),
                        depth as nat + 1,
                        inner,
                    ));
                }
                k += 1;
            }
            assert(children@.subrange(0, k as int) =~= children@);
        },
        SceneNode::Shape { models } => {
            // Multiple entries here are animation keyframes; render the first.
            if models.len() > 0 && (models[0] as usize) < model_count {
                out.push(
                    ModelInstance {
                        model_index: models[0] as usize,
                        transform: parent,
                        name: copy_name(name),
                    },
                );
                assert(instance_views(out@) =~= before.push(out@.last()@));
            }
        },
    }
    visiting.pop();
    assert(visiting@ =~= seen);
}

proof fn lemma_too_deep(
    nodes: Seq<NodeView>,
    hidden_layers: Seq<bool>,
    model_count: nat,
    children: Seq<u32>,
    parent: VoxTransform,
    name: Option<Seq<char>>,
    depth: nat,
    visiting: Seq<u32>,
)
    requires
        depth > MAX_DEPTH,
    ensures
        visible_under_all(
            nodes,
            hidden_layers,
            model_count,
            children,
            parent,
            name,
            depth,
            visiting,
        ) == Seq::<InstanceView>::empty(),
{
}

/// Read `_r` and `_t` out of the first keyframe.
///
/// An attribute that does not say what it should falls back to no rotation, or
/// to no translation: a malformed file must not stop the walk.
pub fn frame_transform(frames: &Vec<Frame>) -> (r: VoxTransform)
    ensures
        r == first_frame(frames@.map_values(|f: Frame| f@)),
        r.wf(),
{
    if frames.len() == 0 {
        return VoxTransform::identity();
    }
    let frame: &Frame = &frames[0];
    let rotation = match &frame.rotation {
        Some(s) => read_rotation(s),
        None => Rot3::identity(),
    };
    let translation = match &frame.translation {
        Some(s) => match parse_ivec3(s) {
            Some(v) => v,
            None => IVec3::new(0, 0, 0),
        },
        None => IVec3::new(0, 0, 0),
    };
    VoxTransform { rotation, translation }
}

fn read_rotation(s: &String) -> (r: Rot3)
    ensures
        r == frame_rotation(Some(s@)),
        r.wf(),
{
    let trimmed = text::trimmed(&text::chars_of(s.as_str()));
    match text::parse_u8(&trimmed) {
        Some(n) => match Rot3::from_byte(n) {
            Some(r) => r,
            None => Rot3::identity(),
        },
        None => Rot3::identity(),
    }
}

fn parse_ivec3(s: &String) -> (r: Option<IVec3>)
    ensures
        r == vector_of(s@),
{
    let w = text::split_words(&text::chars_of(s.as_str()));
    let ghost seen = text::words(s@);
    assert(text::runs(w@).len() == w@.len());
    if w.len() != 3 {
        return None;
    }
    assert(text::runs(w@)[0] == w@[0]@ && text::runs(w@)[1] == w@[1]@ && text::runs(w@)[2]
        == w@[2]@);
    let (x, y, z) = (text::parse_i32(&w[0]), text::parse_i32(&w[1]), text::parse_i32(&w[2]));
    match (x, y, z) {
        (Some(x), Some(y), Some(z)) => Some(IVec3::new(x, y, z)),
        _ => None,
    }
}

// ---- the laws of flattening -----------------------------------------------
/// Whether every instance names a model that there is, placed by a true rotation.
pub open spec fn instances_ok(instances: Seq<InstanceView>, model_count: nat) -> bool {
    forall|i: int|
        0 <= i < instances.len() ==> (#[trigger] instances[i]).model_index < model_count
            && instances[i].transform.wf()
}

proof fn lemma_under_ok(
    nodes: Seq<NodeView>,
    hidden_layers: Seq<bool>,
    model_count: nat,
    id: u32,
    parent: VoxTransform,
    name: Option<Seq<char>>,
    depth: nat,
    visiting: Seq<u32>,
)
    requires
        parent.wf(),
        model_count <= usize::MAX,
    ensures
        instances_ok(
            visible_under(
                nodes,
                hidden_layers,
                model_count,
                id,
                parent,
                name,
                depth,
                visiting,
            ),
            model_count,
        ),
    decreases 300 - depth, 0nat,
{
    if depth > MAX_DEPTH || visiting.contains(id) || id >= nodes.len() {
    } else {
        let inner = visiting.push(id);
        match nodes[id as int] {
            NodeView::Transform { hidden, name: own, frames, child, layer_id } => {
                lemma_first_frame_wf(frames);
                lemma_under_ok(
                    nodes,
                    hidden_layers,
                    model_count,
                    child,
                    parent.after(first_frame(frames)),
                    if own is Some {
                        own
                    } else {
                        name
                    },
                    depth + 1,
                    inner,
                );
            },
            NodeView::Group { children } => {
                lemma_under_all_ok(
                    nodes,
                    hidden_layers,
                    model_count,
                    children,
                    parent,
                    name,
                    depth + 1,
                    inner,
                );
            },
            NodeView::Shape { models } => {},
        }
    }
}

proof fn lemma_first_frame_wf(frames: Seq<FrameView>)
    ensures
        first_frame(frames).wf(),
{
    assert forall|n: u8|
        #![trigger rotation_of(n)]
        rotation_of(n) is Some implies rotation_of(n)->0.wf() by {
        assert((n >> 0) & 0b11 <= 3 && (n >> 2) & 0b11 <= 3) by (bit_vector);
    }
}

proof fn lemma_under_all_ok(
    nodes: Seq<NodeView>,
    hidden_layers: Seq<bool>,
    model_count: nat,
    children: Seq<u32>,
    parent: VoxTransform,
    name: Option<Seq<char>>,
    depth: nat,
    visiting: Seq<u32>,
)
    requires
        parent.wf(),
        model_count <= usize::MAX,
    ensures
        instances_ok(
            visible_under_all(
                nodes,
                hidden_layers,
                model_count,
                children,
                parent,
                name,
                depth,
                visiting,
            ),
            model_count,
        ),
    decreases 300 - depth, 1 + children.len(),
{
    if children.len() == 0 || depth > MAX_DEPTH {
    } else {
        lemma_under_all_ok(
            nodes,
            hidden_layers,
            model_count,
            children.drop_last(),
            parent,
            name,
            depth,
            visiting,
        );
        lemma_under_ok(
            nodes,
            hidden_layers,
            model_count,
            children.last(),
            parent,
            name,
            depth,
            visiting,
        );
    }
}

/// Whatever a file's scene graph says, every instance it flattens to names a
/// model of the file and is placed by a signed permutation.
pub proof fn lemma_instances_name_models(
    nodes: Seq<NodeView>,
    hidden_layers: Seq<bool>,
    model_count: nat,
)
    requires
        model_count <= usize::MAX,
    ensures
        instances_ok(flattened(nodes, hidden_layers, model_count), model_count),
{
    if nodes.len() > 0 {
        lemma_under_ok(
            nodes,
            hidden_layers,
            model_count,
            0,
            no_transform(),
            None,
            0,
            Seq::empty(),
        );
    }
}

/// An instance moved by a transform.
pub open spec fn moved(i: InstanceView, by: VoxTransform) -> InstanceView {
    InstanceView { transform: by.after(i.transform), ..i }
}

/// Instances moved by a transform.
pub open spec fn all_moved(list: Seq<InstanceView>, by: VoxTransform) -> Seq<InstanceView> {
    Seq::new(list.len(), |i: int| moved(list[i], by))
}

/// Composing transforms does not depend on how they are grouped.
pub proof fn lemma_transforms_group(a: VoxTransform, b: VoxTransform, c: VoxTransform)
    requires
        a.wf(),
        b.wf(),
        c.wf(),
    ensures
        a.after(b.after(c)) == a.after(b).after(c),
{
    lemma_transforms_compose(a, b, c.translation);
}

/// The transform that does nothing leaves every point where it is, and makes no
/// difference before or after another.
pub proof fn lemma_doing_nothing(t: VoxTransform, v: IVec3)
    requires
        t.wf(),
    ensures
        no_transform().wf(),
        no_transform().move_point(v) == v,
        no_transform().after(t) == t,
        t.after(no_transform()) == t,
{
    lemma_flip(0, 0, t.rotation.neg_x, false);
    lemma_flip(0, 0, t.rotation.neg_y, false);
    lemma_flip(0, 0, t.rotation.neg_z, false);
}

/// A model turns about the cell at half its size, and that cell stands where the
/// translation says; two cells stand as far apart in the world as the turned
/// distance between them.
pub proof fn lemma_a_model_turns_about_its_middle(t: VoxTransform, size: IVec3, v: IVec3, w: IVec3)
    requires
        t.wf(),
        size.x >= 0,
        size.y >= 0,
        size.z >= 0,
    ensures
        t.world(
            IVec3 {
                x: (size.x as int / 2) as i32,
                y: (size.y as int / 2) as i32,
                z: (size.z as int / 2) as i32,
            },
            size,
        ) == t.translation,
        minus(t.world(v, size), t.world(w, size)) == t.rotation.turn(minus(v, w)),
{
    let r = t.rotation;
    let p = pivot(size);
    let (a, b) = (minus(v, p), minus(w, p));
    lemma_difference(v.x, w.x, p.x);
    lemma_difference(v.y, w.y, p.y);
    lemma_difference(v.z, w.z, p.z);
    assert(minus(a, b) == minus(v, w));
    lemma_flipped_difference(pick(a, r.src_x), pick(b, r.src_x), r.neg_x, t.translation.x);
    lemma_flipped_difference(pick(a, r.src_y), pick(b, r.src_y), r.neg_y, t.translation.y);
    lemma_flipped_difference(pick(a, r.src_z), pick(b, r.src_z), r.neg_z, t.translation.z);
    assert(minus(pivot(size), p) == (IVec3 { x: 0, y: 0, z: 0 }));
    assert(r.turn(IVec3 { x: 0, y: 0, z: 0 }) == (IVec3 { x: 0, y: 0, z: 0 }));
}

proof fn lemma_difference(v: i32, w: i32, p: i32)
    ensures
        geom::wrap_i32(
            geom::wrap_i32(v - p) as i32 - geom::wrap_i32(w - p) as i32,
        ) == geom::wrap_i32(v - w),
{
}

proof fn lemma_flipped_difference(a: i32, b: i32, s: bool, t: i32)
    ensures
        geom::wrap_i32(
            geom::wrap_i32(flip(a, s) + t) as i32 - geom::wrap_i32(flip(b, s) + t) as i32,
        ) as i32 == flip(geom::wrap_i32(a - b) as i32, s),
{
}

/// A rotation byte names, two bits each, the coordinates that come out first
/// and second; the third is the one left. The next three bits turn their signs.
pub proof fn lemma_a_rotation_byte_says_where_coordinates_go(byte: u8, v: IVec3)
    ensures
        ({
            let (first, second) = (byte as int % 4, byte as int / 4 % 4);
            let c = seq![v.x, v.y, v.z];
            let minus_it = |n: i32| geom::wrap_i32(-n) as i32;
            if first > 2 || second > 2 || first == second {
                rotation_of(byte) is None
            } else {
                &&& rotation_of(byte) is Some
                &&& ({
                    let out = rotation_of(byte)->0.turn(v);
                    let third = 3 - first - second;
                    &&& out.x == (if byte as int / 16 % 2 == 0 {
                        c[first]
                    } else {
                        minus_it(c[first])
                    })
                    &&& out.y == (if byte as int / 32 % 2 == 0 {
                        c[second]
                    } else {
                        minus_it(c[second])
                    })
                    &&& out.z == (if byte as int / 64 % 2 == 0 {
                        c[third]
                    } else {
                        minus_it(c[third])
                    })
                })
            }
        }),
{
    assert((byte >> 0) & 0b11 == byte % 4 && (byte >> 2) & 0b11 == (byte / 4) % 4 && (byte & 0x10
        != 0) == ((byte / 16) % 2 != 0) && (byte & 0x20 != 0) == ((byte / 32) % 2 != 0) && (byte
        & 0x40 != 0) == ((byte / 64) % 2 != 0)) by (bit_vector);
}

proof fn lemma_moving_one(
    nodes: Seq<NodeView>,
    hidden_layers: Seq<bool>,
    model_count: nat,
    id: u32,
    by: VoxTransform,
    parent: VoxTransform,
    name: Option<Seq<char>>,
    depth: nat,
    visiting: Seq<u32>,
)
    requires
        by.wf(),
        parent.wf(),
    ensures
        visible_under(
            nodes,
            hidden_layers,
            model_count,
            id,
            by.after(parent),
            name,
            depth,
            visiting,
        ) == all_moved(
            visible_under(nodes, hidden_layers, model_count, id, parent, name, depth, visiting),
            by,
        ),
    decreases 300 - depth, 0nat,
{
    let shown = visible_under(
        nodes,
        hidden_layers,
        model_count,
        id,
        parent,
        name,
        depth,
        visiting,
    );
    if depth > MAX_DEPTH || visiting.contains(id) || id >= nodes.len() {
        assert(all_moved(shown, by) =~= shown);
    } else {
        let inner = visiting.push(id);
        match nodes[id as int] {
            NodeView::Transform { hidden, name: own, frames, child, layer_id } => {
                if hidden == Some(seq!['1']) || layer_hidden(hidden_layers, layer_id) {
                    assert(all_moved(shown, by) =~= shown);
                } else {
                    let f = first_frame(frames);
                    lemma_first_frame_wf(frames);
                    lemma_transforms_group(by, parent, f);
                    lemma_composing_is_applying_in_turn(
                        parent.rotation,
                        f.rotation,
                        f.translation,
                    );
                    lemma_moving_one(
                        nodes,
                        hidden_layers,
                        model_count,
                        child,
                        by,
                        parent.after(f),
                        if own is Some {
                            own
                        } else {
                            name
                        },
                        depth + 1,
                        inner,
                    );
                }
            },
            NodeView::Group { children } => {
                lemma_moving_all(
                    nodes,
                    hidden_layers,
                    model_count,
                    children,
                    by,
                    parent,
                    name,
                    depth + 1,
                    inner,
                );
            },
            NodeView::Shape { models } => {
                let other = visible_under(
                    nodes,
                    hidden_layers,
                    model_count,
                    id,
                    by.after(parent),
                    name,
                    depth,
                    visiting,
                );
                assert(all_moved(shown, by) =~= other);
            },
        }
    }
}

proof fn lemma_moving_all(
    nodes: Seq<NodeView>,
    hidden_layers: Seq<bool>,
    model_count: nat,
    children: Seq<u32>,
    by: VoxTransform,
    parent: VoxTransform,
    name: Option<Seq<char>>,
    depth: nat,
    visiting: Seq<u32>,
)
    requires
        by.wf(),
        parent.wf(),
    ensures
        visible_under_all(
            nodes,
            hidden_layers,
            model_count,
            children,
            by.after(parent),
            name,
            depth,
            visiting,
        ) == all_moved(
            visible_under_all(
                nodes,
                hidden_layers,
                model_count,
                children,
                parent,
                name,
                depth,
                visiting,
            ),
            by,
        ),
    decreases 300 - depth, 1 + children.len(),
{
    let shown = visible_under_all(
        nodes,
        hidden_layers,
        model_count,
        children,
        parent,
        name,
        depth,
        visiting,
    );
    if children.len() == 0 || depth > MAX_DEPTH {
        assert(all_moved(shown, by) =~= shown);
    } else {
        let rest = children.drop_last();
        lemma_moving_all(
            nodes,
            hidden_layers,
            model_count,
            rest,
            by,
            parent,
            name,
            depth,
            visiting,
        );
        lemma_moving_one(
            nodes,
            hidden_layers,
            model_count,
            children.last(),
            by,
            parent,
            name,
            depth,
            visiting,
        );
        let (a, b) = (
            visible_under_all(
                nodes,
                hidden_layers,
                model_count,
                rest,
                parent,
                name,
                depth,
                visiting,
            ),
            visible_under(
                nodes,
                hidden_layers,
                model_count,
                children.last(),
                parent,
                name,
                depth,
                visiting,
            ),
        );
        assert(all_moved(a, by) + all_moved(b, by) =~= all_moved(a + b, by));
    }
}

/// What is visible under a node that a transform was put above is what is
/// visible under the node alone, with every instance moved by that transform.
pub proof fn lemma_moving_a_node_moves_all_under_it(
    nodes: Seq<NodeView>,
    hidden_layers: Seq<bool>,
    model_count: nat,
    id: u32,
    parent: VoxTransform,
    name: Option<Seq<char>>,
    depth: nat,
    visiting: Seq<u32>,
)
    requires
        parent.wf(),
    ensures
        visible_under(nodes, hidden_layers, model_count, id, parent, name, depth, visiting)
            == all_moved(
            visible_under(
                nodes,
                hidden_layers,
                model_count,
                id,
                no_transform(),
                name,
                depth,
                visiting,
            ),
            parent,
        ),
{
    lemma_doing_nothing(parent, parent.translation);
    lemma_moving_one(
        nodes,
        hidden_layers,
        model_count,
        id,
        parent,
        no_transform(),
        name,
        depth,
        visiting,
    );
}

/// A list of children shows what its parts show, one after the other.
pub proof fn lemma_children_show_one_after_another(
    nodes: Seq<NodeView>,
    hidden_layers: Seq<bool>,
    model_count: nat,
    some: Seq<u32>,
    more: Seq<u32>,
    parent: VoxTransform,
    name: Option<Seq<char>>,
    depth: nat,
    visiting: Seq<u32>,
)
    ensures
        visible_under_all(
            nodes,
            hidden_layers,
            model_count,
            some + more,
            parent,
            name,
            depth,
            visiting,
        ) == visible_under_all(
            nodes,
            hidden_layers,
            model_count,
            some,
            parent,
            name,
            depth,
            visiting,
        ) + visible_under_all(
            nodes,
            hidden_layers,
            model_count,
            more,
            parent,
            name,
            depth,
            visiting,
        ),
    decreases more.len(),
{
    if more.len() == 0 {
        assert(some + more =~= some);
        assert(visible_under_all(
            nodes,
            hidden_layers,
            model_count,
            some,
            parent,
            name,
            depth,
            visiting,
        ) + Seq::<InstanceView>::empty() =~= visible_under_all(
            nodes,
            hidden_layers,
            model_count,
            some,
            parent,
            name,
            depth,
            visiting,
        ));
    } else if depth <= MAX_DEPTH {
        assert((some + more).drop_last() =~= some + more.drop_last());
        assert((some + more).last() == more.last());
        lemma_children_show_one_after_another(
            nodes,
            hidden_layers,
            model_count,
            some,
            more.drop_last(),
            parent,
            name,
            depth,
            visiting,
        );
    } else {
        assert(Seq::<InstanceView>::empty() + Seq::<InstanceView>::empty() =~= Seq::empty());
    }
}

// ---- routes ---------------------------------------------------------------
/// Whether a node has another for a child.
pub open spec fn leads_to(from: NodeView, to: u32) -> bool {
    match from {
        NodeView::Transform { hidden, name, frames, child, layer_id } => to == child,
        NodeView::Group { children } => children.contains(to),
        NodeView::Shape { models } => false,
    }
}

/// Whether a node lets through what is under it: it is neither flagged as hidden
/// itself nor on a layer that is.
pub open spec fn lets_through(node: NodeView, hidden_layers: Seq<bool>) -> bool {
    match node {
        NodeView::Transform { hidden, name, frames, child, layer_id } => {
            &&& !(hidden matches Some(flag) && flag.len() == 1 && flag[0] == '1')
            &&& layer_id < hidden_layers.len() ==> !hidden_layers[layer_id as int]
        },
        _ => true,
    }
}

/// Whether nodes lead one to the next, without meeting any twice, each letting
/// through what is under it, and end at a shape of a model.
pub open spec fn is_route(
    nodes: Seq<NodeView>,
    hidden_layers: Seq<bool>,
    route: Seq<u32>,
    model: int,
) -> bool {
    &&& route.len() > 0
    &&& forall|i: int|
        0 <= i < route.len() ==> (#[trigger] route[i]) < nodes.len() && lets_through(
            nodes[route[i] as int],
            hidden_layers,
        )
    &&& forall|i: int, j: int| 0 <= i < j < route.len() ==> route[i] != route[j]
    &&& forall|i: int, j: int|
        0 <= i < route.len() && j == i + 1 && j < route.len() ==> leads_to(
            nodes[#[trigger] route[i] as int],
            #[trigger] route[j],
        )
    &&& nodes[route.last() as int] matches NodeView::Shape { models } && models.len() > 0
        && models[0] == model
}

/// How a node places what is under it: by its first keyframe, if it is a
/// transform.
pub open spec fn own_transform(node: NodeView) -> VoxTransform {
    match node {
        NodeView::Transform { hidden, name, frames, child, layer_id } => first_frame(frames),
        _ => no_transform(),
    }
}

/// The composition of the transforms of some nodes, the last of them applied
/// first.
pub open spec fn product(nodes: Seq<NodeView>, route: Seq<u32>) -> VoxTransform
    decreases route.len(),
{
    if route.len() == 0 {
        no_transform()
    } else {
        own_transform(nodes[route[0] as int]).after(
            product(nodes, route.subrange(1, route.len() as int)),
        )
    }
}

/// The name of the last of some nodes that has one.
pub open spec fn nearest_name(nodes: Seq<NodeView>, route: Seq<u32>) -> Option<Seq<char>>
    decreases route.len(),
{
    if route.len() == 0 {
        None
    } else {
        match nodes[route.last() as int] {
            NodeView::Transform {
                hidden,
                name: Some(name),
                frames,
                child,
                layer_id,
            } => Some(name),
            _ => nearest_name(nodes, route.drop_last()),
        }
    }
}

/// Whether an instance is what stands at the end of a route below some place.
spec fn ends_in(
    nodes: Seq<NodeView>,
    hidden_layers: Seq<bool>,
    model_count: nat,
    route: Seq<u32>,
    parent: VoxTransform,
    name: Option<Seq<char>>,
    i: InstanceView,
) -> bool {
    &&& is_route(nodes, hidden_layers, route, i.model_index as int)
    &&& i.model_index < model_count
    &&& i.transform == parent.after(product(nodes, route))
    &&& i.name == (match nearest_name(nodes, route) {
        Some(n) => Some(n),
        None => name,
    })
}

spec fn avoids(route: Seq<u32>, visiting: Seq<u32>) -> bool {
    forall|i: int| 0 <= i < route.len() ==> !visiting.contains(#[trigger] route[i])
}

proof fn lemma_product_wf(nodes: Seq<NodeView>, route: Seq<u32>)
    ensures
        product(nodes, route).wf(),
    decreases route.len(),
{
    if route.len() > 0 {
        let rest = route.subrange(1, route.len() as int);
        lemma_product_wf(nodes, rest);
        let own = own_transform(nodes[route[0] as int]);
        if let NodeView::Transform { hidden, name, frames, child, layer_id } = nodes[route[0] as int] {
            lemma_first_frame_wf(frames);
        }
        lemma_composing_is_applying_in_turn(
            own.rotation,
            product(nodes, rest).rotation,
            own.translation,
        );
    }
}

proof fn lemma_name_from_front(nodes: Seq<NodeView>, route: Seq<u32>)
    requires
        route.len() > 0,
    ensures
        nearest_name(nodes, route) == (match nearest_name(
            nodes,
            route.subrange(1, route.len() as int),
        ) {
            Some(n) => Some(n),
            None => nearest_name(nodes, route.subrange(0, 1)),
        }),
    decreases route.len(),
{
    let rest = route.subrange(1, route.len() as int);
    if route.len() == 1 {
        assert(route.subrange(0, 1) =~= route);
        assert(rest =~= Seq::empty());
    } else {
        lemma_name_from_front(nodes, route.drop_last());
        assert(route.drop_last().subrange(1, route.len() - 1) =~= rest.drop_last());
        assert(route.drop_last().subrange(0, 1) =~= route.subrange(0, 1));
        assert(rest.last() == route.last());
    }
}

proof fn lemma_first_name(nodes: Seq<NodeView>, id: u32)
    ensures
        nearest_name(nodes, seq![id]) == (match nodes[id as int] {
            NodeView::Transform { hidden, name, frames, child, layer_id } => name,
            _ => None,
        }),
{
    assert(seq![id].drop_last() =~= Seq::empty());
    assert(nearest_name(nodes, seq![id].drop_last()) is None);
}

/// A route that goes on below a node.
proof fn lemma_longer_route(
    nodes: Seq<NodeView>,
    hidden_layers: Seq<bool>,
    id: u32,
    rest: Seq<u32>,
    model: int,
)
    requires
        id < nodes.len(),
        lets_through(nodes[id as int], hidden_layers),
        is_route(nodes, hidden_layers, rest, model),
        leads_to(nodes[id as int], rest[0]),
        avoids(rest, seq![id]),
    ensures
        is_route(nodes, hidden_layers, seq![id] + rest, model),
{
    let route = seq![id] + rest;
    assert forall|i: int| 0 <= i < route.len() implies (#[trigger] route[i]) < nodes.len()
        && lets_through(nodes[route[i] as int], hidden_layers) by {
        if i > 0 {
            assert(route[i] == rest[i - 1]);
        }
    }
    assert forall|i: int, j: int| 0 <= i < j < route.len() implies route[i] != route[j] by {
        assert(route[j] == rest[j - 1]);
        if i > 0 {
            assert(route[i] == rest[i - 1]);
        } else {
            assert(seq![id][0] == id);
            assert(!seq![id].contains(rest[j - 1]));
        }
    }
    assert forall|i: int, j: int|
        0 <= i < route.len() && j == i + 1 && j < route.len() implies leads_to(
        nodes[#[trigger] route[i] as int],
        #[trigger] route[j],
    ) by {
        assert(route[j] == rest[j - 1]);
        if i > 0 {
            assert(route[i] == rest[i - 1]);
        }
    }
    assert(route.last() == rest.last());
}

/// Every instance stands at the end of a route.
proof fn lemma_instance_has_route(
    nodes: Seq<NodeView>,
    hidden_layers: Seq<bool>,
    model_count: nat,
    id: u32,
    parent: VoxTransform,
    name: Option<Seq<char>>,
    depth: nat,
    visiting: Seq<u32>,
    k: int,
) -> (route: Seq<u32>)
    requires
        parent.wf(),
        model_count <= usize::MAX,
        0 <= k < visible_under(
            nodes,
            hidden_layers,
            model_count,
            id,
            parent,
            name,
            depth,
            visiting,
        ).len(),
    ensures
        ends_in(
            nodes,
            hidden_layers,
            model_count,
            route,
            parent,
            name,
            visible_under(
                nodes,
                hidden_layers,
                model_count,
                id,
                parent,
                name,
                depth,
                visiting,
            )[k],
        ),
        route[0] == id,
        avoids(route, visiting),
        depth + route.len() <= MAX_DEPTH + 1,
    decreases 300 - depth, 0nat,
{
    let inner = visiting.push(id);
    match nodes[id as int] {
        NodeView::Transform { hidden, name: own, frames, child, layer_id } => {
            let f = first_frame(frames);
            let below = if own is Some {
                own
            } else {
                name
            };
            lemma_first_frame_wf(frames);
            lemma_composing_is_applying_in_turn(parent.rotation, f.rotation, f.translation);
            let rest = lemma_instance_has_route(
                nodes,
                hidden_layers,
                model_count,
                child,
                parent.after(f),
                below,
                depth + 1,
                inner,
                k,
            );
            lemma_product_wf(nodes, rest);
            lemma_transforms_group(parent, f, product(nodes, rest));
            lemma_route_below(nodes, hidden_layers, id, rest, visiting, hidden);
            let route = seq![id] + rest;
            let i = visible_under(
                nodes,
                hidden_layers,
                model_count,
                id,
                parent,
                name,
                depth,
                visiting,
            )[k];
            lemma_longer_route(nodes, hidden_layers, id, rest, i.model_index as int);
            assert(route.subrange(1, route.len() as int) =~= rest);
            assert(route.subrange(0, 1) =~= seq![id]);
            lemma_name_from_front(nodes, route);
            lemma_first_name(nodes, id);
            route
        },
        NodeView::Group { children } => {
            let rest = lemma_instance_has_route_among(
                nodes,
                hidden_layers,
                model_count,
                children,
                parent,
                name,
                depth + 1,
                inner,
                k,
            );
            lemma_product_wf(nodes, rest);
            lemma_doing_nothing(product(nodes, rest), parent.translation);
            lemma_route_below(nodes, hidden_layers, id, rest, visiting, None);
            let route = seq![id] + rest;
            let i = visible_under(
                nodes,
                hidden_layers,
                model_count,
                id,
                parent,
                name,
                depth,
                visiting,
            )[k];
            lemma_longer_route(nodes, hidden_layers, id, rest, i.model_index as int);
            assert(route.subrange(1, route.len() as int) =~= rest);
            assert(route.subrange(0, 1) =~= seq![id]);
            lemma_name_from_front(nodes, route);
            lemma_first_name(nodes, id);
            route
        },
        NodeView::Shape { models } => {
            let route = seq![id];
            lemma_doing_nothing(parent, parent.translation);
            lemma_first_name(nodes, id);
            assert(route.subrange(1, 1) =~= Seq::empty());
            assert(product(nodes, route.subrange(1, 1)) == no_transform());
            assert(no_transform().after(no_transform()) == no_transform()) by {
                lemma_doing_nothing(no_transform(), parent.translation);
            }
            assert(product(nodes, route) == no_transform());
            route
        },
    }
}

/// What keeps a route below a node from meeting the node again, and the flag of
/// the node.
proof fn lemma_route_below(
    nodes: Seq<NodeView>,
    hidden_layers: Seq<bool>,
    id: u32,
    rest: Seq<u32>,
    visiting: Seq<u32>,
    flag: Option<Seq<char>>,
)
    requires
        avoids(rest, visiting.push(id)),
        !visiting.contains(id),
    ensures
        avoids(rest, seq![id]),
        avoids(seq![id] + rest, visiting),
        flag == Some(seq!['1']) <==> (flag matches Some(t) && t.len() == 1 && t[0] == '1'),
{
    assert(visiting.push(id)[visiting.len() as int] == id);
    assert forall|i: int| 0 <= i < rest.len() implies !seq![id].contains(#[trigger] rest[i]) by {
        assert(!visiting.push(id).contains(rest[i]));
        assert(visiting.push(id).contains(id));
    }
    let route = seq![id] + rest;
    assert forall|i: int| 0 <= i < route.len() implies !visiting.contains(#[trigger] route[i]) by {
        if i > 0 {
            assert(route[i] == rest[i - 1]);
            if visiting.contains(rest[i - 1]) {
                let j = choose|j: int| 0 <= j < visiting.len() && visiting[j] == rest[i - 1];
                assert(visiting.push(id)[j] == rest[i - 1]);
            }
        }
    }
    if let Some(t) = flag {
        if t.len() == 1 && t[0] == '1' {
            assert(t =~= seq!['1']);
        }
    }
}

proof fn lemma_instance_has_route_among(
    nodes: Seq<NodeView>,
    hidden_layers: Seq<bool>,
    model_count: nat,
    children: Seq<u32>,
    parent: VoxTransform,
    name: Option<Seq<char>>,
    depth: nat,
    visiting: Seq<u32>,
    k: int,
) -> (route: Seq<u32>)
    requires
        parent.wf(),
        model_count <= usize::MAX,
        0 <= k < visible_under_all(
            nodes,
            hidden_layers,
            model_count,
            children,
            parent,
            name,
            depth,
            visiting,
        ).len(),
    ensures
        ends_in(
            nodes,
            hidden_layers,
            model_count,
            route,
            parent,
            name,
            visible_under_all(
                nodes,
                hidden_layers,
                model_count,
                children,
                parent,
                name,
                depth,
                visiting,
            )[k],
        ),
        children.contains(route[0]),
        avoids(route, visiting),
        depth + route.len() <= MAX_DEPTH + 1,
    decreases 300 - depth, 1 + children.len(),
{
    let rest = children.drop_last();
    let before = visible_under_all(
        nodes,
        hidden_layers,
        model_count,
        rest,
        parent,
        name,
        depth,
        visiting,
    );
    if k < before.len() {
        let route = lemma_instance_has_route_among(
            nodes,
            hidden_layers,
            model_count,
            rest,
            parent,
            name,
            depth,
            visiting,
            k,
        );
        let j = choose|j: int| 0 <= j < rest.len() && rest[j] == route[0];
        assert(children[j] == route[0]);
        route
    } else {
        assert(children[children.len() - 1] == children.last());
        lemma_instance_has_route(
            nodes,
            hidden_layers,
            model_count,
            children.last(),
            parent,
            name,
            depth,
            visiting,
            k - before.len(),
        )
    }
}

/// Every route has its instance.
proof fn lemma_route_has_instance(
    nodes: Seq<NodeView>,
    hidden_layers: Seq<bool>,
    model_count: nat,
    parent: VoxTransform,
    name: Option<Seq<char>>,
    depth: nat,
    visiting: Seq<u32>,
    route: Seq<u32>,
    i: InstanceView,
)
    requires
        parent.wf(),
        ends_in(nodes, hidden_layers, model_count, route, parent, name, i),
        avoids(route, visiting),
        depth + route.len() <= MAX_DEPTH + 1,
    ensures
        visible_under(
            nodes,
            hidden_layers,
            model_count,
            route[0],
            parent,
            name,
            depth,
            visiting,
        ).contains(i),
    decreases route.len(),
{
    let id = route[0];
    let all = visible_under(nodes, hidden_layers, model_count, id, parent, name, depth, visiting);
    let rest = route.subrange(1, route.len() as int);
    let inner = visiting.push(id);
    lemma_name_from_front(nodes, route);
    lemma_first_name(nodes, id);
    assert(route.subrange(0, 1) =~= seq![id]);
    lemma_product_wf(nodes, rest);
    assert(!visiting.contains(id));
    assert(lets_through(nodes[id as int], hidden_layers));
    if route.len() == 1 {
        assert(rest =~= Seq::empty());
        lemma_doing_nothing(parent, parent.translation);
        lemma_doing_nothing(no_transform(), parent.translation);
        assert(all =~= seq![i]);
        assert(all[0] == i);
    } else {
        let own = own_transform(nodes[id as int]);
        assert(leads_to(nodes[route[0] as int], route[1]));
        assert forall|n: int| 0 <= n < rest.len() implies !inner.contains(#[trigger] rest[n]) by {
            assert(rest[n] == route[n + 1]);
            assert(route[0] != route[n + 1]);
            assert(!visiting.contains(route[n + 1]));
            if inner.contains(rest[n]) {
                let j = choose|j: int| 0 <= j < inner.len() && inner[j] == rest[n];
                if j < visiting.len() {
                    assert(visiting[j] == rest[n]);
                }
            }
        }
        assert(is_route(nodes, hidden_layers, rest, i.model_index as int)) by {
            assert forall|n: int| 0 <= n < rest.len() implies (#[trigger] rest[n]) < nodes.len()
                && lets_through(nodes[rest[n] as int], hidden_layers) by {
                assert(rest[n] == route[n + 1]);
            }
            assert forall|a: int, b: int| 0 <= a < b < rest.len() implies rest[a] != rest[b] by {
                assert(route[a + 1] != route[b + 1]);
            }
            assert forall|a: int, b: int|
                0 <= a < rest.len() && b == a + 1 && b < rest.len() implies leads_to(
                nodes[#[trigger] rest[a] as int],
                #[trigger] rest[b],
            ) by {
                assert(leads_to(nodes[route[a + 1] as int], route[b + 1]));
            }
            assert(rest.last() == route.last());
        }
        match nodes[id as int] {
            NodeView::Transform { hidden, name: outer, frames, child, layer_id } => {
                let f = first_frame(frames);
                lemma_first_frame_wf(frames);
                lemma_composing_is_applying_in_turn(parent.rotation, f.rotation, f.translation);
                lemma_transforms_group(parent, f, product(nodes, rest));
                lemma_route_has_instance(
                    nodes,
                    hidden_layers,
                    model_count,
                    parent.after(f),
                    if outer is Some {
                        outer
                    } else {
                        name
                    },
                    depth + 1,
                    inner,
                    rest,
                    i,
                );
            },
            NodeView::Group { children } => {
                lemma_doing_nothing(product(nodes, rest), parent.translation);
                lemma_route_has_instance(
                    nodes,
                    hidden_layers,
                    model_count,
                    parent,
                    name,
                    depth + 1,
                    inner,
                    rest,
                    i,
                );
                lemma_child_shows(
                    nodes,
                    hidden_layers,
                    model_count,
                    children,
                    parent,
                    name,
                    depth + 1,
                    inner,
                    rest[0],
                    i,
                );
            },
            NodeView::Shape { models } => {},
        }
    }
}

proof fn lemma_child_shows(
    nodes: Seq<NodeView>,
    hidden_layers: Seq<bool>,
    model_count: nat,
    children: Seq<u32>,
    parent: VoxTransform,
    name: Option<Seq<char>>,
    depth: nat,
    visiting: Seq<u32>,
    child: u32,
    i: InstanceView,
)
    requires
        depth <= MAX_DEPTH,
        children.contains(child),
        visible_under(
            nodes,
            hidden_layers,
            model_count,
            child,
            parent,
            name,
            depth,
            visiting,
        ).contains(i),
    ensures
        visible_under_all(
            nodes,
            hidden_layers,
            model_count,
            children,
            parent,
            name,
            depth,
            visiting,
        ).contains(i),
    decreases children.len(),
{
    let rest = children.drop_last();
    let (a, b) = (
        visible_under_all(
            nodes,
            hidden_layers,
            model_count,
            rest,
            parent,
            name,
            depth,
            visiting,
        ),
        visible_under(
            nodes,
            hidden_layers,
            model_count,
            children.last(),
            parent,
            name,
            depth,
            visiting,
        ),
    );
    if children.last() == child {
        let k = choose|k: int| 0 <= k < b.len() && b[k] == i;
        assert((a + b)[a.len() + k] == i);
    } else {
        let j = choose|j: int| 0 <= j < children.len() && children[j] == child;
        assert(rest[j] == child);
        lemma_child_shows(
            nodes,
            hidden_layers,
            model_count,
            rest,
            parent,
            name,
            depth,
            visiting,
            child,
            i,
        );
        let k = choose|k: int| 0 <= k < a.len() && a[k] == i;
        assert((a + b)[k] == i);
    }
}

/// What a scene graph flattens to is what its routes lead to. There is an
/// instance exactly where a route of at most 257 nodes leads from the root to a
/// shape of a model that there is; it is placed by all the transforms on the
/// way, the innermost first, and named after the nearest node that has a name.
/// A file without a graph shows every model once, in order, where it is.
pub proof fn lemma_instances_stand_at_the_ends_of_routes(
    nodes: Seq<NodeView>,
    hidden_layers: Seq<bool>,
    model_count: nat,
)
    requires
        model_count <= usize::MAX,
    ensures
        nodes.len() > 0 ==> forall|i: InstanceView| #[trigger]
            flattened(nodes, hidden_layers, model_count).contains(i) <==> exists|route: Seq<u32>|
                {
                    &&& #[trigger] is_route(nodes, hidden_layers, route, i.model_index as int)
                    &&& route[0] == 0
                    &&& route.len() <= 257
                    &&& i.model_index < model_count
                    &&& i.transform == product(nodes, route)
                    &&& i.name == nearest_name(nodes, route)
                },
        nodes.len() == 0 ==> ({
            let all = flattened(nodes, hidden_layers, model_count);
            &&& all.len() == model_count
            &&& forall|k: int|
                0 <= k < all.len() ==> (#[trigger] all[k]).model_index == k && all[k].name is None
                    && all[k].transform == no_transform()
        }),
{
    if nodes.len() > 0 {
        let all = flattened(nodes, hidden_layers, model_count);
        let start = no_transform();
        assert forall|i: InstanceView| #[trigger] all.contains(i) <==> exists|route: Seq<u32>|
            {
                &&& #[trigger] is_route(nodes, hidden_layers, route, i.model_index as int)
                &&& route[0] == 0
                &&& route.len() <= 257
                &&& i.model_index < model_count
                &&& i.transform == product(nodes, route)
                &&& i.name == nearest_name(nodes, route)
            } by {
            if all.contains(i) {
                let k = choose|k: int| 0 <= k < all.len() && all[k] == i;
                let route = lemma_instance_has_route(
                    nodes,
                    hidden_layers,
                    model_count,
                    0,
                    start,
                    None,
                    0,
                    Seq::empty(),
                    k,
                );
                lemma_product_wf(nodes, route);
                lemma_doing_nothing(product(nodes, route), start.translation);
                assert(is_route(nodes, hidden_layers, route, i.model_index as int));
            }
            if exists|route: Seq<u32>|
                {
                    &&& #[trigger] is_route(nodes, hidden_layers, route, i.model_index as int)
                    &&& route[0] == 0
                    &&& route.len() <= 257
                    &&& i.model_index < model_count
                    &&& i.transform == product(nodes, route)
                    &&& i.name == nearest_name(nodes, route)
                } {
                let route = choose|route: Seq<u32>|
                    {
                        &&& #[trigger] is_route(nodes, hidden_layers, route, i.model_index as int)
                        &&& route[0] == 0
                        &&& route.len() <= 257
                        &&& i.model_index < model_count
                        &&& i.transform == product(nodes, route)
                        &&& i.name == nearest_name(nodes, route)
                    };
                lemma_product_wf(nodes, route);
                lemma_doing_nothing(product(nodes, route), start.translation);
                lemma_route_has_instance(
                    nodes,
                    hidden_layers,
                    model_count,
                    start,
                    None,
                    0,
                    Seq::empty(),
                    route,
                    i,
                );
            }
        }
    }
}

// ---- writing a keyframe ---------------------------------------------------
/// The text of a `_t` attribute.
pub open spec fn vector_text(v: IVec3) -> Seq<char> {
    text::signed(v.x as int) + seq![' '] + text::signed(v.y as int) + seq![' '] + text::signed(
        v.z as int,
    )
}

/// Build the keyframe that places a node.
pub fn frame_dict(translation: IVec3, rotation_byte: Option<u8>) -> (f: Frame)
    ensures
        f@.translation == Some(vector_text(translation)),
        f@.rotation == (match rotation_byte {
            Some(b) => Some(text::decimal(b as nat)),
            None => None,
        }),
{
    let mut t = String::new();
    text::push_signed(&mut t, translation.x as i64);
    t.push(' ');
    text::push_signed(&mut t, translation.y as i64);
    t.push(' ');
    text::push_signed(&mut t, translation.z as i64);
    assert(t@ =~= vector_text(translation));
    let r = match rotation_byte {
        Some(b) => {
            let mut s = String::new();
            text::push_decimal(&mut s, b as u64);
            assert(s@ =~= text::decimal(b as nat));
            Some(s)
        },
        None => None,
    };
    Frame { rotation: r, translation: Some(t) }
}

/// A keyframe that was written reads back as the transform it was written for.
pub proof fn lemma_frame_reads_back(f: FrameView, translation: IVec3, rotation_byte: Option<u8>)
    requires
        f.translation == Some(vector_text(translation)),
        f.rotation == (match rotation_byte {
            Some(b) => Some(text::decimal(b as nat)),
            None => None,
        }),
    ensures
        first_frame(seq![f]) == (VoxTransform {
            rotation: match rotation_byte {
                Some(b) => match rotation_of(b) {
                    Some(r) => r,
                    None => no_rotation(),
                },
                None => no_rotation(),
            },
            translation,
        }),
{
    if let Some(b) = rotation_byte {
        text::lemma_number_round_trip(b as int);
        text::lemma_trim_idle(text::decimal(b as nat));
    }
    let (x, y, z) = (translation.x as int, translation.y as int, translation.z as int);
    text::lemma_number_round_trip(x);
    text::lemma_number_round_trip(y);
    text::lemma_number_round_trip(z);
    text::lemma_signed_is_a_word(x);
    text::lemma_signed_is_a_word(y);
    text::lemma_signed_is_a_word(z);
    let (sx, sy, sz) = (text::signed(x), text::signed(y), text::signed(z));
    text::lemma_words_one(sx);
    text::lemma_words_push(sx, sy);
    text::lemma_words_push(sx + seq![' '] + sy, sz);
    assert(text::words(vector_text(translation)) =~= seq![sx, sy, sz]);
}

/// A `_t` of three numbers is the vector of those numbers, x first, and an `_r`
/// that is a number with a rotation is that rotation. Only the first keyframe
/// counts, and what it does not give is left as it is.
pub proof fn lemma_a_keyframe_says_where_to(
    frames: Seq<FrameView>,
    t: Seq<char>,
    r: Seq<char>,
    x: i32,
    y: i32,
    z: i32,
    byte: u8,
)
    requires
        text::words(t) == seq![
            text::signed(x as int),
            text::signed(y as int),
            text::signed(z as int),
        ],
        text::trim(r) == text::decimal(byte as nat),
    ensures
        frames.len() == 0 ==> first_frame(frames) == no_transform(),
        frames.len() > 0 && frames[0].translation == Some(t) ==> first_frame(frames).translation == (
        IVec3 { x, y, z }),
        frames.len() > 0 && frames[0].translation is None ==> first_frame(frames).translation == (
        IVec3 { x: 0, y: 0, z: 0 }),
        frames.len() > 0 && frames[0].rotation == Some(r) && rotation_of(byte) is Some
            ==> first_frame(frames).rotation == rotation_of(byte)->0,
        frames.len() > 0 && frames[0].rotation is None ==> first_frame(frames).rotation
            == no_rotation(),
{
    text::lemma_number_round_trip(x as int);
    text::lemma_number_round_trip(y as int);
    text::lemma_number_round_trip(z as int);
    text::lemma_number_round_trip(byte as int);
}

} // verus!
