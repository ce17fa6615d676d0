//! What the renderer decides without a GPU, and what `--stats` prints.

use voxview::fixtures;
use voxview::gfx::{
    draws, frame_step, grown, model_stride, padded_row, pick_format, pick_samples, resized,
    triangle_count, unpad, wanted_ranges, Acquired, Background, Draw, FIRST_CAPACITY,
};
use voxview::loader::{self, VoxScene};
use voxview::mesh;
use voxview::overlay;
use voxview::paths::FilePath;
use voxview::report::stats_lines;

fn two_models() -> VoxScene {
    let bytes = fixtures::to_bytes(&fixtures::two_models_translated());
    loader::load_bytes(&bytes).expect("the fixture parses")
}

#[test]
fn buffers_grow_to_the_next_power_of_two() {
    assert_eq!(grown(FIRST_CAPACITY, 0), FIRST_CAPACITY);
    assert_eq!(grown(FIRST_CAPACITY, 4096), FIRST_CAPACITY);
    assert_eq!(grown(FIRST_CAPACITY, 4097), 8192);
    assert_eq!(grown(6, 7), 8);
    assert_eq!(grown(8, 7), 8);
}

#[test]
fn every_instance_is_drawn_from_its_own_uniform() {
    let scene = two_models();
    assert_eq!(model_stride(16), 64);
    assert_eq!(model_stride(256), 256);
    let list = draws(&scene.instances, 256);
    assert_eq!(
        list,
        [
            Draw {
                mesh: 0,
                uniform_offset: 0
            },
            Draw {
                mesh: 1,
                uniform_offset: 256
            }
        ]
    );
    let meshes = mesh::mesh_models(&scene.models, &[0; 4]);
    assert_eq!(triangle_count(&scene.instances, &meshes), 24);
    assert_eq!(triangle_count(&scene.instances, &Vec::new()), 0);
}

#[test]
fn only_the_overlays_that_are_on_are_drawn() {
    let o = overlay::build(None);
    assert!(wanted_ranges(&o, false, false, false).is_empty());
    assert_eq!(
        wanted_ranges(&o, false, true, true),
        [(o.bbox.start, o.bbox.end), (o.axes.start, o.axes.end)]
    );
}

#[test]
fn a_stale_surface_is_set_up_anew() {
    let s = frame_step(Acquired::Suboptimal);
    assert!(s.draw && s.reconfigure && !s.complain);
    let s = frame_step(Acquired::Lost);
    assert!(!s.draw && s.reconfigure);
    let s = frame_step(Acquired::Timeout);
    assert!(!s.draw && !s.reconfigure);
    assert!(frame_step(Acquired::Validation).complain);
    assert!(frame_step(Acquired::Success).draw);
    assert_eq!(resized(0, 5), None);
    assert_eq!(resized(4, 5), Some((4, 5)));
    assert_eq!(pick_format(&vec![false, true, true]), 1);
    assert_eq!(pick_format(&vec![false]), 0);
    assert_eq!(Background::Dark.toggled(), Background::Light);
}

#[test]
fn padding_is_taken_out_of_a_picture() {
    assert_eq!(padded_row(64), 256);
    assert_eq!(padded_row(65), 512);
    // Two rows of one pixel, eight bytes apart.
    let data = [1, 2, 3, 4, 9, 9, 9, 9, 5, 6, 7, 8, 9, 9, 9, 9];
    assert_eq!(unpad(&data, 1, 2, 8, false), [1, 2, 3, 4, 5, 6, 7, 8]);
    assert_eq!(unpad(&data, 1, 2, 8, true), [3, 2, 1, 4, 7, 6, 5, 8]);
    assert_eq!(unpad(&data, 1, 5, 8, false).len(), 8);
    assert!(unpad(&data, 0, 2, 8, false).is_empty());
}

#[test]
fn the_summary_of_a_file() {
    let path = FilePath {
        anchor: Vec::new(),
        names: vec!["two.vox".into()],
    };
    let lines = stats_lines(&path, &two_models(), 1, 0, 0);
    assert_eq!(
        lines,
        [
            "two.vox",
            "  version       150",
            "  models        2",
            "  instances     2",
            "  voxels        16",
            "  dimensions    18 x 4 x 3",
            "  bounds        min [-7.0, -1.0, -1.0] max [11.0, 3.0, 2.0]",
            "  palette       from file",
            "  materials     0  (1 emissive)",
            "  model 0       2 x 2 x 2  (8 voxels)",
            "  model 1       2 x 2 x 2  (8 voxels)",
        ]
    );
}

#[test]
fn the_largest_count_on_offer_is_taken() {
    assert_eq!(pick_samples(&vec![1, 2, 4, 8], 4), 4);
    assert_eq!(pick_samples(&vec![1, 4], 2), 1);
    assert_eq!(pick_samples(&vec![4, 1], 8), 4);
    assert_eq!(pick_samples(&vec![2, 4], 1), 1, "nothing that small is on offer");
    assert_eq!(pick_samples(&vec![], 8), 1);
}
