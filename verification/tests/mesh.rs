//! Greedy meshing.

use voxview::geom::{IVec3, UVec3};
use voxview::mesh::{exposed_face_count, face_normal, greedy_mesh, mesh_models, Vertex};
use voxview::model::VoxelGrid;

fn grid_from(size: UVec3, filled: &[(u32, u32, u32)]) -> VoxelGrid {
    let mut g = VoxelGrid::new(size).unwrap();
    for &(x, y, z) in filled {
        g.set(UVec3::new(x, y, z), Some(7));
    }
    g
}

fn solid(size: UVec3) -> VoxelGrid {
    let mut g = VoxelGrid::new(size).unwrap();
    for z in 0..size.z {
        for y in 0..size.y {
            for x in 0..size.x {
                g.set(UVec3::new(x, y, z), Some(7));
            }
        }
    }
    g
}

#[test]
fn empty_grid_makes_no_triangles() {
    let g = VoxelGrid::new(UVec3::new(4, 4, 4)).unwrap();
    assert!(greedy_mesh(&g).is_empty());
}

#[test]
fn single_voxel_is_twelve_triangles() {
    let g = solid(UVec3::splat(1));
    let mesh = greedy_mesh(&g);
    assert_eq!(mesh.triangle_count(), 12);
    assert_eq!(mesh.quad_count(), 6);
    assert_eq!(exposed_face_count(&g), 6);
}

#[test]
fn solid_two_cube_merges_to_twelve_triangles() {
    // 24 exposed faces, but each side is a flat 2x2 patch that is equally
    // lit, so greedy meshing collapses each side to a single quad.
    let g = solid(UVec3::splat(2));
    let mesh = greedy_mesh(&g);
    assert_eq!(exposed_face_count(&g), 24);
    assert_eq!(mesh.triangle_count(), 12);
    assert_eq!(mesh.quad_count(), 6);
}

#[test]
fn bigger_solid_cubes_also_collapse_to_six_quads() {
    for n in [3u32, 4, 8, 16] {
        let mesh = greedy_mesh(&solid(UVec3::splat(n)));
        assert_eq!(mesh.quad_count(), 6, "solid {n}-cube");
    }
}

#[test]
fn l_shape_face_count() {
    // Three voxels in the z = 0 plane:
    //   . .        y = 1:  X .
    //   X X        y = 0:  X X
    let g = grid_from(UVec3::new(2, 2, 1), &[(0, 0, 0), (1, 0, 0), (0, 1, 0)]);
    assert_eq!(exposed_face_count(&g), 14);

    // Merging, direction by direction:
    //   -Z and +Z: an L in the xy plane merges into 2 quads each
    //   -X: the two voxels at x = 0 share a plane and merge      -> 1
    //   +X: exposed faces sit in different planes (x = 1, x = 2) -> 2
    //   -Y: the two voxels at y = 0 share a plane and merge      -> 1
    //   +Y: exposed faces sit in different planes (y = 1, y = 2) -> 2
    let mesh = greedy_mesh(&g);
    assert_eq!(mesh.quad_count(), 10);
    assert_eq!(mesh.triangle_count(), 20);
}

#[test]
fn checkerboard_cannot_merge_anything() {
    let mut g = VoxelGrid::new(UVec3::splat(4)).unwrap();
    let mut filled = 0;
    for z in 0..4 {
        for y in 0..4 {
            for x in 0..4 {
                if (x + y + z) % 2 == 0 {
                    g.set(UVec3::new(x, y, z), Some(7));
                    filled += 1;
                }
            }
        }
    }
    // No two solid cells touch, so every voxel shows all six faces and no
    // two faces are coplanar neighbours.
    let mesh = greedy_mesh(&g);
    assert_eq!(exposed_face_count(&g), filled * 6);
    assert_eq!(mesh.quad_count(), filled * 6);
}

fn minus(a: IVec3, b: IVec3) -> IVec3 {
    IVec3::new(a.x - b.x, a.y - b.y, a.z - b.z)
}

fn dot(a: IVec3, b: IVec3) -> i32 {
    a.x * b.x + a.y * b.y + a.z * b.z
}

fn cross(a: IVec3, b: IVec3) -> IVec3 {
    IVec3::new(
        a.y * b.z - a.z * b.y,
        a.z * b.x - a.x * b.z,
        a.x * b.y - a.y * b.x,
    )
}

fn doubled(a: IVec3) -> IVec3 {
    IVec3::new(2 * a.x, 2 * a.y, 2 * a.z)
}

#[test]
fn faces_point_outwards() {
    // Every triangle of a convex solid must face away from the centre.
    let g = solid(UVec3::splat(3));
    let mesh = greedy_mesh(&g);
    let centre_doubled = IVec3::splat(3);
    for tri in mesh.indices.chunks_exact(3) {
        let a = mesh.vertices[tri[0] as usize].position;
        let b = mesh.vertices[tri[1] as usize].position;
        let c = mesh.vertices[tri[2] as usize].position;
        let winding_normal = cross(minus(b, a), minus(c, a));
        let declared = face_normal(mesh.vertices[tri[0] as usize].face());
        assert!(
            dot(winding_normal, declared) > 0,
            "winding disagrees with the declared face normal"
        );
        assert!(
            dot(winding_normal, minus(doubled(a), centre_doubled)) > 0,
            "triangle faces inwards"
        );
    }
}

#[test]
fn vertex_packing_round_trips() {
    for &ao in &[0u8, 1, 128, 255] {
        for face in 0..6 {
            let v = Vertex::new(IVec3::new(0, 0, 0), 200, face, ao);
            assert_eq!(v.palette_index(), 200);
            assert_eq!(v.face(), face);
            assert_eq!(v.ao(), ao);
        }
    }
}

#[test]
fn ao_darkens_a_concave_corner() {
    // Two voxels meeting at a right angle: the +X face of the lower one is
    // partly shadowed by the upper one, so it must not merge with a face
    // that is fully lit.
    let g = grid_from(UVec3::new(2, 1, 2), &[(0, 0, 0), (0, 0, 1), (1, 0, 1)]);
    let mesh = greedy_mesh(&g);
    let lit = mesh.vertices.iter().filter(|v| v.ao() == 255).count();
    assert!(lit > 0, "some faces should be fully lit");
    assert!(
        mesh.vertices.iter().any(|v| v.ao() < 255),
        "the concave corner should be occluded"
    );
}

#[test]
fn indices_are_in_range() {
    let g = solid(UVec3::new(5, 3, 7));
    let mesh = greedy_mesh(&g);
    assert!(!mesh.is_empty());
    for &i in &mesh.indices {
        assert!((i as usize) < mesh.vertices.len());
    }
}

#[test]
fn see_through_faces_go_in_the_second_pass() {
    let models = vec![solid(UVec3::splat(2))];
    let opaque = mesh_models(&models, &[0; 4]);
    assert_eq!(opaque.len(), 1);
    assert_eq!(opaque[0].opaque as usize, opaque[0].indices.len());
    let blended = mesh_models(&models, &[1 << 7, 0, 0, 0]);
    assert_eq!(blended[0].opaque, 0);
    assert_eq!(blended[0].indices.len(), opaque[0].indices.len());
}

#[test]
fn a_grid_gives_back_what_was_put_in() {
    let mut g = VoxelGrid::new(UVec3::new(2, 3, 4)).unwrap();
    g.set(UVec3::new(1, 2, 3), Some(9));
    assert_eq!(g.get(UVec3::new(1, 2, 3)), Some(9));
    assert_eq!(g.get(UVec3::new(0, 0, 0)), None);
    assert_eq!(g.get_i(IVec3::new(-1, 0, 0)), None);
    assert!(g.is_solid(IVec3::new(1, 2, 3)));
    assert_eq!(g.voxel_count(), 1);
    g.set(UVec3::new(1, 2, 3), None);
    assert!(g.is_empty());
    assert!(VoxelGrid::new(UVec3::splat(2049)).is_none());
    assert!(VoxelGrid::new(UVec3::splat(2048)).is_none());
    assert!(VoxelGrid::new(UVec3::splat(0)).is_some());
}
