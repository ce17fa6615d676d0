//! Rotations, transforms and the scene graph.

use voxview::geom::IVec3;
use voxview::scene::{flatten, frame_dict, frame_transform, Frame, Rot3, SceneNode, VoxTransform};

/// Every `_r` byte that actually describes a signed permutation.
fn valid_bytes() -> Vec<u8> {
    (0u8..=255)
        .filter(|b| Rot3::from_byte(*b).is_some())
        .collect()
}

fn array(v: IVec3) -> [i32; 3] {
    [v.x, v.y, v.z]
}

fn zero() -> IVec3 {
    IVec3::new(0, 0, 0)
}

fn shape(model: u32) -> SceneNode {
    SceneNode::Shape {
        models: vec![model],
    }
}

fn place(frame: Frame, child: u32, hidden: Option<&str>) -> SceneNode {
    SceneNode::Transform {
        hidden: hidden.map(String::from),
        name: None,
        frames: vec![frame],
        child,
        layer_id: 0,
    }
}

#[test]
fn magicavoxel_identity_byte_decodes_to_identity() {
    // Row 0 takes column 0, row 1 takes column 1, no sign bits.
    assert_eq!(Rot3::from_byte(0b0000_0100), Some(Rot3::identity()));
}

#[test]
fn non_permutation_bytes_are_rejected() {
    // Rows 0 and 1 claiming the same column, and a column index of 3.
    assert_eq!(Rot3::from_byte(0b0000_0000), None);
    assert_eq!(Rot3::from_byte(0b0000_1111), None);
    // 48 of the low 7 bits are permutations: 6 orderings x 8 signs. Bit 7
    // is unused by the format and ignored, so 96 whole bytes decode.
    assert_eq!(valid_bytes().iter().filter(|b| **b < 128).count(), 48);
    assert_eq!(Rot3::from_byte(0b1000_0100), Some(Rot3::identity()));
}

#[test]
fn rotations_are_signed_permutations() {
    let v = IVec3::new(3, -5, 7);
    for byte in valid_bytes() {
        let r = Rot3::from_byte(byte).unwrap();
        let mut sorted = array(r.apply(v)).map(i32::abs);
        sorted.sort_unstable();
        assert_eq!(sorted, [3, 5, 7], "byte {byte} did not permute {v:?}");
    }
}

#[test]
fn composing_rotations_matches_applying_them_in_turn() {
    let v = IVec3::new(1, 2, 3);
    for a in valid_bytes() {
        for b in valid_bytes() {
            let (a, b) = (Rot3::from_byte(a).unwrap(), Rot3::from_byte(b).unwrap());
            assert_eq!(a.compose(b).apply(v), a.apply(b.apply(v)));
        }
    }
}

#[test]
fn translation_moves_a_model_by_whole_voxels() {
    // An even-sized model is centred on a cell boundary, so a translation
    // of t puts local voxel v at v + t - size / 2.
    let t = VoxTransform {
        rotation: Rot3::identity(),
        translation: IVec3::new(10, 0, 0),
    };
    let size = IVec3::splat(2);
    assert_eq!(t.voxel_to_world(zero(), size), IVec3::new(9, -1, -1));
    assert_eq!(
        t.voxel_to_world(IVec3::splat(1), size),
        IVec3::new(10, 0, 0)
    );
}

#[test]
fn odd_sized_models_stay_on_the_integer_grid() {
    // A 3-wide model has a voxel exactly at its centre, which has to land
    // exactly on the translation.
    let t = VoxTransform {
        rotation: Rot3::identity(),
        translation: IVec3::new(4, -2, 7),
    };
    assert_eq!(
        t.voxel_to_world(IVec3::splat(1), IVec3::splat(3)),
        IVec3::new(4, -2, 7)
    );
}

#[test]
fn rotation_about_the_centre_preserves_the_voxel_count() {
    // Every rotation has to map the model cells onto a set of the same
    // size. If the halving in `voxel_to_world` ever rounded, cells would
    // collide and the set would shrink.
    let size = IVec3::new(4, 2, 6);
    let cells = (size.x * size.y * size.z) as usize;
    for byte in valid_bytes() {
        let t = VoxTransform {
            rotation: Rot3::from_byte(byte).unwrap(),
            translation: IVec3::new(-3, 11, 2),
        };
        let mut seen = std::collections::HashSet::new();
        for z in 0..size.z {
            for y in 0..size.y {
                for x in 0..size.x {
                    seen.insert(array(t.voxel_to_world(IVec3::new(x, y, z), size)));
                }
            }
        }
        assert_eq!(seen.len(), cells, "byte {byte} collapsed cells");
    }
}

#[test]
fn nested_transforms_compose_parent_then_child() {
    // Rotate the child frame a quarter turn about Z, then offset it.
    let parent = VoxTransform {
        // Row 0 takes column 1 negated, row 1 takes column 0: (x, y) -> (-y, x).
        rotation: Rot3::from_byte(0b0001_0001).unwrap(),
        translation: IVec3::new(10, 0, 0),
    };
    let child = VoxTransform {
        rotation: Rot3::identity(),
        translation: IVec3::new(0, 3, -1),
    };
    let composed = parent.compose(child);
    assert_eq!(composed.rotation, parent.rotation);
    assert_eq!(composed.translation, IVec3::new(7, 0, -1));
}

#[test]
fn a_file_with_no_scene_graph_puts_every_model_at_the_origin() {
    let instances = flatten(&vec![], &vec![], 3);
    assert_eq!(instances.len(), 3);
    assert!(instances
        .iter()
        .all(|i| i.transform == VoxTransform::identity()));
    assert_eq!(instances[2].model_index, 2);
}

#[test]
fn hidden_nodes_and_out_of_range_models_are_skipped() {
    let nodes = vec![
        SceneNode::Group {
            children: vec![1, 3],
        },
        place(frame_dict(zero(), None), 2, Some("1")),
        shape(0),
        // Past the end of the model list: a corrupt file, not a panic.
        shape(99),
    ];
    assert!(flatten(&nodes, &vec![], 1).is_empty());
}

#[test]
fn a_cyclic_scene_graph_terminates() {
    let nodes = vec![
        SceneNode::Group { children: vec![1] },
        SceneNode::Group { children: vec![0] },
    ];
    assert!(flatten(&nodes, &vec![], 1).is_empty());
}

#[test]
fn malformed_keyframe_attributes_fall_back_to_identity() {
    let frame = Frame {
        // 0 is one of the rotation bytes that describe no rotation.
        rotation: Some("0".to_string()),
        translation: Some("not numbers".to_string()),
    };
    assert_eq!(frame_transform(&vec![frame]), VoxTransform::identity());
}

#[test]
fn a_keyframe_reads_back_what_it_was_made_of() {
    let frame = frame_dict(IVec3::new(3, -4, 5), Some(0b0001_0001));
    let t = frame_transform(&vec![frame]);
    assert_eq!(t.translation, IVec3::new(3, -4, 5));
    assert_eq!(t.rotation, Rot3::from_byte(0b0001_0001).unwrap());
    assert_eq!(frame_transform(&vec![]), VoxTransform::identity());
}

#[test]
fn a_hidden_layer_hides_what_lies_on_it() {
    let nodes = vec![place(frame_dict(zero(), None), 1, None), shape(0)];
    assert_eq!(flatten(&nodes, &vec![false], 1).len(), 1);
    assert!(flatten(&nodes, &vec![true], 1).is_empty());
}
