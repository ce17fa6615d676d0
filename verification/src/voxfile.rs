//! What a `.vox` file holds, and the way in and out of its bytes.
//!
//! The chunk format itself is `dot_vox`'s business: it parses a file into its
//! own container and writes a container out again. This module moves the parts
//! that the rest of the library reads between that container and plain values.

use vstd::prelude::*;

use crate::geom::UVec3;
use crate::model::{Model, ModelView, Voxel};
use crate::palette::Color;
use crate::scene;
use crate::scene::{Frame, FrameView, NodeView, SceneNode};

verus! {

/// A `MATL` chunk: its id, and the properties that have a use in a preview.
#[derive(Clone, Debug, PartialEq, Eq)]
pub struct MaterialSource {
    pub id: u32,
    /// `_type`
    pub kind: Option<String>,
    /// `_emit`
    pub emit: Option<String>,
    /// `_flux`
    pub flux: Option<String>,
    /// `_metal`
    pub metal: Option<String>,
    /// `_rough`
    pub rough: Option<String>,
    /// `_alpha`
    pub alpha: Option<String>,
    /// `_trans`
    pub trans: Option<String>,
}

/// A `MATL` chunk, as mathematical values.
pub struct MaterialView {
    pub id: u32,
    pub kind: Option<Seq<char>>,
    pub emit: Option<Seq<char>>,
    pub flux: Option<Seq<char>>,
    pub metal: Option<Seq<char>>,
    pub rough: Option<Seq<char>>,
    pub alpha: Option<Seq<char>>,
    pub trans: Option<Seq<char>>,
}

impl View for MaterialSource {
    type V = MaterialView;

    open spec fn view(&self) -> MaterialView {
        MaterialView {
            id: self.id,
            kind: scene::opt_text(self.kind),
            emit: scene::opt_text(self.emit),
            flux: scene::opt_text(self.flux),
            metal: scene::opt_text(self.metal),
            rough: scene::opt_text(self.rough),
            alpha: scene::opt_text(self.alpha),
            trans: scene::opt_text(self.trans),
        }
    }
}

/// A parsed `.vox` file.
#[derive(Clone, Debug, PartialEq, Eq)]
pub struct VoxFile {
    /// File format version from the header (150 for current MagicaVoxel).
    pub version: u32,
    pub models: Vec<Model>,
    pub palette: Vec<Color>,
    pub materials: Vec<MaterialSource>,
    pub nodes: Vec<SceneNode>,
    /// For each layer, in file order, whether it is hidden.
    pub hidden_layers: Vec<bool>,
}

/// A parsed `.vox` file, as mathematical values.
#[verifier::ext_equal]
pub struct VoxFileView {
    pub version: u32,
    pub models: Seq<ModelView>,
    pub palette: Seq<Color>,
    pub materials: Seq<MaterialView>,
    pub nodes: Seq<NodeView>,
    pub hidden_layers: Seq<bool>,
}

pub open spec fn model_views(models: Seq<Model>) -> Seq<ModelView> {
    models.map_values(|m: Model| m@)
}

pub open spec fn material_views(materials: Seq<MaterialSource>) -> Seq<MaterialView> {
    materials.map_values(|m: MaterialSource| m@)
}

impl View for VoxFile {
    type V = VoxFileView;

    open spec fn view(&self) -> VoxFileView {
        VoxFileView {
            version: self.version,
            models: model_views(self.models@),
            palette: self.palette@,
            materials: material_views(self.materials@),
            nodes: scene::node_views(self.nodes@),
            hidden_layers: self.hidden_layers@,
        }
    }
}

// ---- dot_vox's container --------------------------------------------------
/// `dot_vox::DotVoxData`, its container for the data of a file.
#[verifier::external_type_specification]
#[verifier::external_body]
pub struct ExDotVoxData(dot_vox::DotVoxData);

/// What a `dot_vox` container holds, as far as the library reads it: the
/// version, the models with their sizes and voxels, the palette, the id and
/// seven properties of each material, the nodes with the attributes named in
/// [`SceneNode`] and [`Frame`], and for each layer whether it is hidden.
pub uninterp spec fn contents(data: dot_vox::DotVoxData) -> VoxFileView;

/// What `dot_vox::load_bytes` finds in some bytes, or `None` where it refuses them.
pub uninterp spec fn vox_parse(bytes: Seq<u8>) -> Option<VoxFileView>;

/// `dot_vox::load_bytes`: a function of the bytes alone. It hands back a
/// container with what [`vox_parse`] names, or its one error message.
pub assume_specification[ dot_vox::load_bytes ](bytes: &[u8]) -> (r: Result<
    dot_vox::DotVoxData,
    &'static str,
>)
    ensures
        r is Ok <==> vox_parse(bytes@) is Some,
        r matches Ok(data) ==> vox_parse(bytes@) == Some(contents(data)),
        r matches Err(e) ==> e@ == "Not a valid MagicaVoxel .vox file"@,
;

/// The `version` field of `dot_vox::DotVoxData`.
#[verifier::external_body]
fn version_of(data: &dot_vox::DotVoxData) -> (r: u32)
    ensures
        r == contents(*data).version,
{
    data.version
}

/// The `models` field of `dot_vox::DotVoxData`: each `dot_vox::Model` with its
/// size and its voxels, in order.
#[verifier::external_body]
fn models_of(data: &dot_vox::DotVoxData) -> (r: Vec<Model>)
    ensures
        model_views(r@) == contents(*data).models,
{
    data.models.iter().map(
        |m| Model {
            size: UVec3 { x: m.size.x, y: m.size.y, z: m.size.z },
            voxels: m.voxels.iter().map(|v| Voxel { x: v.x, y: v.y, z: v.z, i: v.i }).collect(),
        },
    ).collect()
}

/// The `palette` field of `dot_vox::DotVoxData`: each `dot_vox::Color`, in order.
#[verifier::external_body]
fn palette_of(data: &dot_vox::DotVoxData) -> (r: Vec<Color>)
    ensures
        r@ == contents(*data).palette,
{
    data.palette.iter().map(|c| Color { r: c.r, g: c.g, b: c.b, a: c.a }).collect()
}

/// The `materials` field of `dot_vox::DotVoxData`: each `dot_vox::Material`
/// with its id and what its dictionary holds under seven keys, in order.
#[verifier::external_body]
fn materials_of(data: &dot_vox::DotVoxData) -> (r: Vec<MaterialSource>)
    ensures
        material_views(r@) == contents(*data).materials,
{
    data.materials.iter().map(
        |m| MaterialSource {
            id: m.id,
            kind: m.properties.get("_type").cloned(),
            emit: m.properties.get("_emit").cloned(),
            flux: m.properties.get("_flux").cloned(),
            metal: m.properties.get("_metal").cloned(),
            rough: m.properties.get("_rough").cloned(),
            alpha: m.properties.get("_alpha").cloned(),
            trans: m.properties.get("_trans").cloned(),
        },
    ).collect()
}

/// The number of entries in the `scenes` field of `dot_vox::DotVoxData`.
#[verifier::external_body]
fn node_count(data: &dot_vox::DotVoxData) -> (r: usize)
    ensures
        r == contents(*data).nodes.len(),
{
    data.scenes.len()
}

/// One entry of the `scenes` field of `dot_vox::DotVoxData`: a
/// `dot_vox::SceneNode`, with what its dictionaries hold under the keys that
/// [`SceneNode`] and [`Frame`] name.
#[verifier::external_body]
fn node_at(data: &dot_vox::DotVoxData, i: usize) -> (r: SceneNode)
    requires
        i < contents(*data).nodes.len(),
    ensures
        r@ == contents(*data).nodes[i as int],
{
    match &data.scenes[i] {
        dot_vox::SceneNode::Transform { attributes, frames, child, layer_id } => SceneNode::Transform {
            hidden: attributes.get("_hidden").cloned(),
            name: attributes.get("_name").cloned(),
            frames: frames.iter().map(|f| Frame {
                rotation: f.attributes.get("_r").cloned(),
                translation: f.attributes.get("_t").cloned() }).collect(),
            child: *child,
            layer_id: *layer_id,
        },
        dot_vox::SceneNode::Group { children, .. } => SceneNode::Group { children: children.clone() },
        dot_vox::SceneNode::Shape { models, .. } => SceneNode::Shape {
            models: models.iter().map(|m| m.model_id).collect() },
    }
}

/// `dot_vox::Layer::hidden` of each entry of the `layers` field of
/// `dot_vox::DotVoxData`, in order.
#[verifier::external_body]
fn hidden_layers_of(data: &dot_vox::DotVoxData) -> (r: Vec<bool>)
    ensures
        r@ == contents(*data).hidden_layers,
{
    data.layers.iter().map(|l| l.hidden()).collect()
}

/// Parse `.vox` bytes into plain values.
pub fn parse(bytes: &[u8]) -> (r: Result<VoxFile, String>)
    ensures
        r is Ok <==> vox_parse(bytes@) is Some,
        r matches Ok(file) ==> vox_parse(bytes@) == Some(file@),
        r matches Err(e) ==> e@ == "Not a valid MagicaVoxel .vox file"@,
{
    match dot_vox::load_bytes(bytes) {
        Ok(data) => {
            let mut nodes: Vec<SceneNode> = Vec::new();
            let count: usize = node_count(&data);
            let mut i: usize = 0;
            while i < count
                invariant
                    i <= count == contents(data).nodes.len(),
                    scene::node_views(nodes@) == contents(data).nodes.subrange(0, i as int),
                decreases count - i,
            {
                let ghost before = scene::node_views(nodes@);
                nodes.push(node_at(&data, i));
                assert(scene::node_views(nodes@) =~= before.push(contents(data).nodes[i as int]));
                assert(scene::node_views(nodes@) =~= contents(data).nodes.subrange(
                    0,
                    i as int + 1,
                ));
                i += 1;
            }
            let file = VoxFile {
                version: version_of(&data),
                models: models_of(&data),
                palette: palette_of(&data),
                materials: materials_of(&data),
                nodes,
                hidden_layers: hidden_layers_of(&data),
            };
            assert(file@ =~= contents(data));
            Ok(file)
        },
        Err(e) => Err(e.to_owned()),
    }
}

// ---- writing --------------------------------------------------------------
/// A fresh `dot_vox::DotVoxData` with a version, a palette, `dot_vox`'s default
/// index map, and nothing else in it.
#[verifier::external_body]
fn new_container(version: u32, palette: &Vec<Color>) -> (r: dot_vox::DotVoxData)
    ensures
        contents(r) == (VoxFileView {
            version,
            models: Seq::empty(),
            palette: palette@,
            materials: Seq::empty(),
            nodes: Seq::empty(),
            hidden_layers: Seq::empty(),
        }),
{
    dot_vox::DotVoxData {
        version,
        index_map: dot_vox::DEFAULT_INDEX_MAP.to_vec(),
        models: Vec::new(),
        palette: palette.iter().map(|c| dot_vox::Color { r: c.r, g: c.g, b: c.b, a: c.a }).collect(),
        materials: Vec::new(),
        scenes: Vec::new(),
        layers: Vec::new(),
    }
}

/// A `dot_vox::Model` pushed onto the `models` field.
#[verifier::external_body]
fn push_model(data: &mut dot_vox::DotVoxData, model: &Model)
    ensures
        contents(*final(data)) == (VoxFileView {
            models: contents(*old(data)).models.push(model@),
            ..contents(*old(data))
        }),
{
    data.models.push(
        dot_vox::Model {
            size: dot_vox::Size { x: model.size.x, y: model.size.y, z: model.size.z },
            voxels: model.voxels.iter().map(
                |v| dot_vox::Voxel { x: v.x, y: v.y, z: v.z, i: v.i },
            ).collect(),
        },
    );
}

/// A `dot_vox::Material` pushed onto the `materials` field, its dictionary
/// holding the properties that are there.
#[verifier::external_body]
fn push_material(data: &mut dot_vox::DotVoxData, m: &MaterialSource)
    ensures
        contents(*final(data)) == (VoxFileView {
            materials: contents(*old(data)).materials.push(m@),
            ..contents(*old(data))
        }),
{
    let mut properties = dot_vox::Dict::new();
    for (key, value) in [
        ("_type", &m.kind), ("_emit", &m.emit), ("_flux", &m.flux), ("_metal", &m.metal),
        ("_rough", &m.rough), ("_alpha", &m.alpha), ("_trans", &m.trans),
    ] {
        properties.extend(value.clone().map(|v| (key.to_string(), v)));
    }
    data.materials.push(dot_vox::Material { id: m.id, properties });
}

/// A `dot_vox::SceneNode::Transform` without frames pushed onto the `scenes`
/// field, its dictionary holding the attributes that are there.
#[verifier::external_body]
fn push_transform(
    data: &mut dot_vox::DotVoxData,
    hidden: &Option<String>,
    name: &Option<String>,
    child: u32,
    layer_id: u32,
)
    ensures
        contents(*final(data)) == (VoxFileView {
            nodes: contents(*old(data)).nodes.push(
                NodeView::Transform {
                    hidden: scene::opt_text(*hidden),
                    name: scene::opt_text(*name),
                    frames: Seq::empty(),
                    child,
                    layer_id,
                },
            ),
            ..contents(*old(data))
        }),
{
    let mut attributes = dot_vox::Dict::new();
    attributes.extend(hidden.clone().map(|v| ("_hidden".to_string(), v)));
    attributes.extend(name.clone().map(|v| ("_name".to_string(), v)));
    let frames = Vec::new();
    data.scenes.push(dot_vox::SceneNode::Transform { attributes, frames, child, layer_id });
}

/// A `dot_vox::Frame` pushed onto the frames of the last node, which is a
/// `dot_vox::SceneNode::Transform`; its dictionary holds the attributes that
/// are there.
#[verifier::external_body]
fn push_frame(data: &mut dot_vox::DotVoxData, frame: &Frame)
    requires
        contents(*old(data)).nodes.len() > 0,
        contents(*old(data)).nodes.last() is Transform,
    ensures
        contents(*final(data)) == (VoxFileView {
            nodes: contents(*old(data)).nodes.drop_last().push(
                with_frame(contents(*old(data)).nodes.last(), frame@),
            ),
            ..contents(*old(data))
        }),
{
    if let Some(dot_vox::SceneNode::Transform { frames, .. }) = data.scenes.last_mut() {
        let mut attributes = dot_vox::Dict::new();
        attributes.extend(frame.rotation.clone().map(|v| ("_r".to_string(), v)));
        attributes.extend(frame.translation.clone().map(|v| ("_t".to_string(), v)));
        frames.push(dot_vox::Frame::new(attributes));
    }
}

/// A transform node with one more keyframe.
pub open spec fn with_frame(node: NodeView, frame: FrameView) -> NodeView {
    match node {
        NodeView::Transform { hidden, name, frames, child, layer_id } => NodeView::Transform {
            hidden,
            name,
            frames: frames.push(frame),
            child,
            layer_id,
        },
        _ => node,
    }
}

/// A `dot_vox::SceneNode::Group` without attributes pushed onto the `scenes` field.
#[verifier::external_body]
fn push_group(data: &mut dot_vox::DotVoxData, children: &Vec<u32>)
    ensures
        contents(*final(data)) == (VoxFileView {
            nodes: contents(*old(data)).nodes.push(NodeView::Group { children: children@ }),
            ..contents(*old(data))
        }),
{
    let attributes = dot_vox::Dict::new();
    data.scenes.push(dot_vox::SceneNode::Group { attributes, children: children.clone() });
}

/// A `dot_vox::SceneNode::Shape` of `dot_vox::ShapeModel`s, none with
/// attributes, pushed onto the `scenes` field.
#[verifier::external_body]
fn push_shape(data: &mut dot_vox::DotVoxData, models: &Vec<u32>)
    ensures
        contents(*final(data)) == (VoxFileView {
            nodes: contents(*old(data)).nodes.push(NodeView::Shape { models: models@ }),
            ..contents(*old(data))
        }),
{
    let models = models.iter().map(
        |id| dot_vox::ShapeModel { model_id: *id, attributes: dot_vox::Dict::new() },
    ).collect();
    data.scenes.push(dot_vox::SceneNode::Shape { attributes: dot_vox::Dict::new(), models });
}

/// A `dot_vox::Layer` pushed onto the `layers` field, its dictionary holding
/// the `_hidden` attribute where it is there. `dot_vox::Layer::hidden` says
/// that a layer is hidden where that attribute is `1`.
#[verifier::external_body]
fn push_layer(data: &mut dot_vox::DotVoxData, hidden: &Option<String>)
    ensures
        contents(*final(data)) == (VoxFileView {
            hidden_layers: contents(*old(data)).hidden_layers.push(
                scene::opt_text(*hidden) == Some(seq!['1']),
            ),
            ..contents(*old(data))
        }),
{
    let mut attributes = dot_vox::Dict::new();
    attributes.extend(hidden.clone().map(|v| ("_hidden".to_string(), v)));
    data.layers.push(dot_vox::Layer { attributes });
}

/// `dot_vox::DotVoxData::write_vox` into a vector, which cannot fail. What it
/// writes, `dot_vox::load_bytes` reads back as what was in the container.
///
/// The bytes themselves are not named: dictionaries are written in the order
/// in which a hash map is walked.
#[verifier::external_body]
fn write_container(data: &dot_vox::DotVoxData) -> (r: Vec<u8>)
    requires
        writable(contents(*data)),
    ensures
        vox_parse(r@) == Some(contents(*data)),
{
    let mut bytes = Vec::new();
    data.write_vox(&mut bytes).expect("writing to a Vec cannot fail");
    bytes
}

/// How many bytes an attribute can take: its key, its text and their lengths.
pub open spec fn text_room(s: Option<Seq<char>>) -> int {
    match s {
        Some(t) => 16 + 4 * t.len() as int,
        None => 0,
    }
}

/// How many bytes a keyframe can take.
pub open spec fn frame_room(f: FrameView) -> int {
    4 + text_room(f.rotation) + text_room(f.translation)
}

pub open spec fn frames_room(frames: Seq<FrameView>) -> int
    decreases frames.len(),
{
    if frames.len() == 0 {
        0
    } else {
        frames_room(frames.drop_last()) + frame_room(frames.last())
    }
}

/// How many bytes a node can take.
pub open spec fn node_room(n: NodeView) -> int {
    36 + match n {
        NodeView::Transform { hidden, name, frames, child, layer_id } => text_room(hidden)
            + text_room(name) + frames_room(frames),
        NodeView::Group { children } => 4 * children.len() as int,
        NodeView::Shape { models } => 8 * models.len() as int,
    }
}

/// How many bytes a material can take.
pub open spec fn material_room(m: MaterialView) -> int {
    20 + text_room(m.kind) + text_room(m.emit) + text_room(m.flux) + text_room(m.metal) + text_room(
        m.rough,
    ) + text_room(m.alpha) + text_room(m.trans)
}

pub open spec fn models_room(models: Seq<ModelView>) -> int
    decreases models.len(),
{
    if models.len() == 0 {
        0
    } else {
        models_room(models.drop_last()) + 40 + 4 * models.last().voxels.len()
    }
}

pub open spec fn nodes_room(nodes: Seq<NodeView>) -> int
    decreases nodes.len(),
{
    if nodes.len() == 0 {
        0
    } else {
        nodes_room(nodes.drop_last()) + node_room(nodes.last())
    }
}

pub open spec fn materials_room(materials: Seq<MaterialView>) -> int
    decreases materials.len(),
{
    if materials.len() == 0 {
        0
    } else {
        materials_room(materials.drop_last()) + material_room(materials.last())
    }
}

/// How many bytes a file can take.
pub open spec fn file_room(f: VoxFileView) -> int {
    64 + models_room(f.models) + 4 * f.palette.len() + materials_room(f.materials) + nodes_room(
        f.nodes,
    ) + 64 * f.hidden_layers.len()
}

/// Whether a file can be written: chunk lengths are 32 bits wide, and a voxel's
/// palette index is stored one higher, in a byte.
pub open spec fn writable(f: VoxFileView) -> bool {
    &&& file_room(f) <= u32::MAX
    &&& forall|m: int, v: int|
        #![trigger f.models[m].voxels[v]]
        0 <= m < f.models.len() && 0 <= v < f.models[m].voxels.len() ==> f.models[m].voxels[v].i
            <= 254
}

/// Serialise a file to bytes that parse as the same file.
pub fn write(file: &VoxFile) -> (bytes: Vec<u8>)
    requires
        writable(file@),
    ensures
        vox_parse(bytes@) == Some(file@),
{
    let mut data = new_container(file.version, &file.palette);
    let ghost empty = contents(data);
    let mut i: usize = 0;
    while i < file.models.len()
        invariant
            i <= file.models@.len(),
            empty.version == file.version,
            empty.palette == file.palette@,
            contents(data) == (VoxFileView {
                models: model_views(file.models@).subrange(0, i as int),
                ..empty
            }),
        decreases file.models@.len() - i,
    {
        push_model(&mut data, &file.models[i]);
        assert(contents(data).models =~= model_views(file.models@).subrange(0, i as int + 1));
        i += 1;
    }
    let ghost with_models = contents(data);
    assert(with_models.models =~= model_views(file.models@));
    let mut j: usize = 0;
    while j < file.materials.len()
        invariant
            j <= file.materials@.len(),
            with_models.materials.len() == 0,
            contents(data) == (VoxFileView {
                materials: material_views(file.materials@).subrange(0, j as int),
                ..with_models
            }),
        decreases file.materials@.len() - j,
    {
        push_material(&mut data, &file.materials[j]);
        assert(contents(data).materials =~= material_views(file.materials@).subrange(
            0,
            j as int + 1,
        ));
        j += 1;
    }
    let ghost with_materials = contents(data);
    assert(with_materials.materials =~= material_views(file.materials@));
    let mut k: usize = 0;
    while k < file.nodes.len()
        invariant
            k <= file.nodes@.len(),
            with_materials.nodes.len() == 0,
            contents(data) == (VoxFileView {
                nodes: scene::node_views(file.nodes@).subrange(0, k as int),
                ..with_materials
            }),
        decreases file.nodes@.len() - k,
    {
        push_node(&mut data, &file.nodes[k]);
        assert(contents(data).nodes =~= scene::node_views(file.nodes@).subrange(0, k as int + 1));
        k += 1;
    }
    let ghost with_nodes = contents(data);
    assert(with_nodes.nodes =~= scene::node_views(file.nodes@));
    let mut l: usize = 0;
    while l < file.hidden_layers.len()
        invariant
            l <= file.hidden_layers@.len(),
            with_nodes.hidden_layers.len() == 0,
            contents(data) == (VoxFileView {
                hidden_layers: file.hidden_layers@.subrange(0, l as int),
                ..with_nodes
            }),
        decreases file.hidden_layers@.len() - l,
    {
        let flag: Option<String> = if file.hidden_layers[l] {
            let mut one = String::new();
            one.push('1');
            assert(one@ =~= seq!['1']);
            Some(one)
        } else {
            None
        };
        push_layer(&mut data, &flag);
        assert(contents(data).hidden_layers =~= file.hidden_layers@.subrange(0, l as int + 1));
        l += 1;
    }
    assert(contents(data).hidden_layers =~= file.hidden_layers@);
    assert(contents(data) =~= file@);
    write_container(&data)
}

fn push_node(data: &mut dot_vox::DotVoxData, node: &SceneNode)
    ensures
        contents(*final(data)) == (VoxFileView {
            nodes: contents(*old(data)).nodes.push(node@),
            ..contents(*old(data))
        }),
{
    let ghost before = contents(*data);
    match node {
        SceneNode::Transform { hidden, name, frames, child, layer_id } => {
            push_transform(data, hidden, name, *child, *layer_id);
            let ghost views = frames@.map_values(|f: Frame| f@);
            let mut i: usize = 0;
            assert(views.subrange(0, 0) =~= Seq::empty());
            while i < frames.len()
                invariant
                    i <= frames@.len(),
                    views == frames@.map_values(|f: Frame| f@),
                    contents(*data) == (VoxFileView {
                        nodes: before.nodes.push(
                            NodeView::Transform {
                                hidden: scene::opt_text(*hidden),
                                name: scene::opt_text(*name),
                                frames: views.subrange(0, i as int),
                                child: *child,
                                layer_id: *layer_id,
                            },
                        ),
                        ..before
                    }),
                decreases frames@.len() - i,
            {
                let ghost last = contents(*data).nodes.last();
                push_frame(data, &frames[i]);
                proof {
                    assert(views.subrange(0, i as int).push(frames@[i as int]@)
                        =~= views.subrange(0, i as int + 1));
                    assert(contents(*data).nodes =~= before.nodes.push(
                        with_frame(last, frames@[i as int]@),
                    ));
                }
                i += 1;
            }
            assert(views.subrange(0, i as int) =~= views);
        },
        SceneNode::Group { children } => {
            push_group(data, children);
        },
        SceneNode::Shape { models } => {
            push_shape(data, models);
        },
    }
}

} // verus!
