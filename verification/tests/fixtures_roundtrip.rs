//! End-to-end checks over the synthetic fixtures, which are written from code.

use voxview::fixtures::{self, two_models_t0, two_models_t1};
use voxview::geom::{IVec3, UVec3};
use voxview::loader::{self, Corner, VoxScene};
use voxview::mesh;
use voxview::model::VoxelGrid;
use voxview::palette::Palette;
use voxview::paths::{is_vox, FilePath};
use voxview::walk::{collect_vox_paths, list_vox_dir, Argument, DirEntry, Kind, Sibling, Walker};

fn bytes_of(name: &str) -> Vec<u8> {
    let all = fixtures::fixtures();
    let (_, file) = all.iter().find(|(n, _)| n == name).expect("a fixture");
    fixtures::to_bytes(file)
}

fn load(name: &str) -> VoxScene {
    loader::load_bytes(&bytes_of(name)).expect("fixture should parse")
}

#[test]
fn every_fixture_is_written_and_parses() {
    for (name, file) in fixtures::fixtures() {
        assert!(!fixtures::to_bytes(&file).is_empty(), "{name} was not written");
        let scene = load(&name);
        assert_eq!(scene.version, 150);
        assert!(scene.palette.from_file, "{name} should carry a palette");
    }
}

#[test]
fn a_fixture_carries_the_default_palette() {
    let stock = Palette::magicavoxel_default();
    for (name, _) in fixtures::fixtures() {
        let scene = load(&name);
        assert_eq!(scene.palette.to_rgba_bytes(), stock.to_rgba_bytes(), "{name}");
    }
}

#[test]
fn a_solid_cube_meshes_to_six_quads() {
    let scene = load("cube.vox");
    assert_eq!(scene.models.len(), 1);
    assert_eq!(scene.models[0].size(), UVec3::splat(4));
    assert_eq!(scene.voxel_count, 64);

    let meshes = mesh::mesh_models(&scene.models, &[0; 4]);
    // Every face of a solid box has uniform shading, so each side merges into
    // a single quad: 6 quads, 12 triangles.
    assert_eq!(meshes[0].quad_count(), 6);
    assert_eq!(meshes[0].triangle_count(), 12);
}

#[test]
fn a_checkerboard_merges_nothing() {
    let scene = load("checker.vox");
    let grid = &scene.models[0];
    assert_eq!(grid.size(), UVec3::splat(8));

    let meshes = mesh::mesh_models(&scene.models, &[0; 4]);
    // No two exposed faces are adjacent, so the greedy pass cannot combine
    // any of them: one quad per exposed face is the floor for this mesher.
    assert_eq!(meshes[0].quad_count(), mesh::exposed_face_count(grid));
    assert_eq!(meshes[0].triangle_count(), meshes[0].quad_count() * 2);
}

#[test]
fn the_scene_graph_places_both_models() {
    let scene = load("two_models.vox");
    assert_eq!(scene.models.len(), 2);
    assert_eq!(scene.instances.len(), 2);

    // The graph is root nTRN -> nGRP -> two nTRN -> nSHP, so each shape ends
    // up with exactly its own transform: the root contributes nothing.
    let placed: Vec<(usize, IVec3)> = scene
        .instances
        .iter()
        .map(|i| (i.model_index, i.transform.translation))
        .collect();
    assert_eq!(placed, vec![(0, two_models_t0()), (1, two_models_t1())]);

    // Names come from the nearest enclosing nTRN.
    let names: Vec<_> = scene.instances.iter().map(|i| i.name.as_deref()).collect();
    assert_eq!(names, vec![Some("left"), Some("right")]);
}

#[test]
fn transformed_models_land_where_the_bounds_say_they_do() {
    let scene = load("two_models.vox");
    let size = IVec3::splat(2);

    // A 2-wide model pivots on cell 1, so local (0,0,0) sits at t - (1,1,1).
    let first = scene.instances[0].transform;
    let t = two_models_t0();
    assert_eq!(
        first.voxel_to_world(IVec3::splat(0), size),
        IVec3::new(t.x - 1, t.y - 1, t.z - 1)
    );
    let second = scene.instances[1].transform;
    assert_eq!(
        second.voxel_to_world(IVec3::splat(1), size),
        two_models_t1()
    );

    // Scene bounds are the union of both boxes.
    let bounds = scene.bounds.expect("two models are shown");
    assert_eq!(
        bounds.min,
        Corner {
            x: -7,
            y: -1,
            z: -1
        }
    );
    assert_eq!(bounds.max, Corner { x: 11, y: 3, z: 2 });
    assert_eq!(scene.dimensions(), IVec3::new(18, 4, 3));
}

#[test]
fn truncating_a_fixture_never_panics() {
    let bytes = bytes_of("two_models.vox");
    for len in 0..bytes.len() {
        // A prefix is either a complete, shorter file or a parse error --
        // never a crash.
        let _ = loader::load_bytes(&bytes[..len]);
    }
}

#[test]
fn corrupting_a_fixture_never_panics() {
    let original = bytes_of("two_models.vox");
    // A fixed sequence so a failure is reproducible from the message alone.
    let mut rng = 0x243f_6a88_85a3_08d3u64;
    let mut next = move || {
        rng ^= rng << 13;
        rng ^= rng >> 7;
        rng ^= rng << 17;
        rng
    };
    for _ in 0..2_000 {
        let mut bytes = original.clone();
        for _ in 0..4 {
            let at = (next() as usize) % bytes.len();
            bytes[at] = (next() & 0xff) as u8;
        }
        let _ = loader::load_bytes(&bytes);
    }
}

#[test]
fn a_large_model_meshes_quickly() {
    let size = UVec3::splat(126);
    let mut grid = VoxelGrid::new(size).expect("126 cubed is well within the limits");
    // A pattern that defeats trivial merging in every direction but still
    // leaves large mergeable runs: roughly what a detailed asset looks like.
    for z in 0..size.z {
        for y in 0..size.y {
            for x in 0..size.x {
                let shell = x < 2 || y < 2 || z < 2 || x > 123 || y > 123 || z > 123;
                let speckle = (x / 3 + y / 5 + z / 7) % 4 == 0;
                if shell || speckle {
                    let index = ((x * 7 + y * 13 + z * 31) % 255) as u8;
                    grid.set(UVec3::new(x, y, z), Some(index));
                }
            }
        }
    }

    let started = std::time::Instant::now();
    let meshed = mesh::greedy_mesh(&grid);
    let elapsed = started.elapsed();
    assert!(!meshed.is_empty());
    println!(
        "meshed {} voxels into {} quads in {:.1} ms",
        grid.voxel_count(),
        meshed.quad_count(),
        elapsed.as_secs_f64() * 1000.0
    );
}

#[test]
fn a_model_that_will_not_parse_never_reaches_the_renderer() {
    // The seam where a bad file would otherwise become a bad draw call.
    let mut bytes = fixtures::to_bytes(&fixtures::single_cube());
    bytes.truncate(bytes.len() / 2);
    assert!(
        loader::load_bytes(&bytes).is_err(),
        "a truncated file should not load"
    );
}

fn path(s: &str) -> FilePath {
    FilePath {
        anchor: Vec::new(),
        names: s.split('/').map(String::from).collect(),
    }
}

#[test]
fn a_directory_argument_finds_every_fixture() {
    let dir = path("fixtures");
    let here: Vec<FilePath> = fixtures::fixtures()
        .iter()
        .map(|(name, _)| path(&format!("fixtures/{name}")))
        .collect();
    let mut walker = Walker::new(&dir);
    walker.next();
    let entries = here
        .iter()
        .map(|p| DirEntry {
            path: p.clone(),
            kind: Kind::File,
        })
        .collect();
    walker.listed(0, &entries);
    let walk = walker.finish();
    let (paths, index) = collect_vox_paths(&dir, Argument::Dir(walk)).unwrap();
    assert_eq!(index, 0);
    assert!(paths.len() >= fixtures::fixtures().len());
    assert!(paths.iter().all(is_vox));

    // Naming one file yields the same listing, positioned on that file, so
    // `[` and `]` can page through its siblings.
    let arg = path("fixtures/checker.vox");
    let listing = list_vox_dir(&here.into_iter().map(|p| (p, true)).collect());
    let siblings = listing
        .into_iter()
        .map(|p| Sibling {
            canonical: p.clone(),
            path: p,
        })
        .collect();
    let what = Argument::File {
        canonical: arg.clone(),
        siblings,
    };
    let (siblings, at) = collect_vox_paths(&arg, what).unwrap();
    assert_eq!(siblings, paths);
    assert_eq!(siblings[at].names.last().unwrap(), "checker.vox");
}
