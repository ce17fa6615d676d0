//! The grid, the box and the axes.

use voxview::loader::{Bounds, Corner};
use voxview::overlay::{build, Stroke};

fn bounds(half: i64) -> Option<Bounds> {
    Some(Bounds {
        min: Corner {
            x: -half,
            y: -half,
            z: -half,
        },
        max: Corner {
            x: half,
            y: half,
            z: half,
        },
    })
}

#[test]
fn ranges_tile_the_buffer_without_gaps() {
    let o = build(bounds(16));
    assert_eq!(o.grid.start, 0);
    assert_eq!(o.grid.end, o.bbox.start);
    assert_eq!(o.bbox.end, o.axes.start);
    assert_eq!(o.axes.end as usize, o.vertices.len());
}

#[test]
fn box_has_twelve_edges_and_gizmo_three() {
    let o = build(bounds(16));
    assert_eq!(o.bbox.len(), 24);
    assert_eq!(o.axes.len(), 6);
}

#[test]
fn grid_line_count_stays_bounded_as_models_grow() {
    for half in [4i64, 32, 128, 1024] {
        let o = build(bounds(half));
        assert!(
            o.grid.len() <= 400,
            "grid for half-extent {half} used {} vertices",
            o.grid.len()
        );
        assert!(o.grid.len() >= 4);
    }
}

#[test]
fn grid_lies_on_the_ground_plane() {
    let o = build(bounds(16));
    for v in &o.vertices[o.grid.start as usize..o.grid.end as usize] {
        assert_eq!(v.position.z, 0);
    }
}

#[test]
fn the_grid_of_a_known_box() {
    // 32 across: three quarters is 24, so 24 cells of one voxel each way.
    let o = build(bounds(16));
    assert_eq!(o.grid.len(), 4 * 49);
    let first = o.vertices[0];
    assert_eq!((first.position.x, first.position.y), (-240, -240));
    assert_eq!(first.stroke, Stroke::GridMajor);
    assert_eq!(o.vertices[4].stroke, Stroke::GridMinor);
    let axis = o.vertices[o.axes.start as usize + 1];
    assert_eq!(axis.position.x, 192);
    assert_eq!(axis.stroke.srgb(), [230, 70, 70]);
}

#[test]
fn a_large_box_gets_a_wider_spacing() {
    // 2048 across: three quarters is 1536, which is 48 cells of 32 and so too
    // many; 64 is the first power of two that makes no more than 32 of it.
    let o = build(bounds(1024));
    let a = o.vertices[0].position.x;
    let b = o.vertices[4].position.x;
    assert_eq!(b - a, 640);
}

#[test]
fn an_empty_scene_has_a_box_of_one_cell() {
    let o = build(None);
    let corner = o.vertices[o.bbox.start as usize].position;
    assert_eq!((corner.x, corner.y, corner.z), (-5, -5, -5));
    assert_eq!(o.vertices[o.axes.start as usize + 1].position.x, 40);
}

#[test]
fn the_grid_is_anchored_on_its_own_spacing() {
    let mut b = bounds(16).unwrap();
    b.min.x += 1;
    b.max.x += 4;
    // The middle lies at 2.5; halfway between two lines goes outwards.
    let o = build(Some(b));
    let n = o.grid.len() / 4 / 2;
    assert_eq!(o.vertices[4 * n].position.x, 30);
}
