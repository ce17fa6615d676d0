//! What the scan learns of a file.

use voxview::fixtures;
use voxview::library::Load;
use voxview::paths::FilePath;
use voxview::scan::{stats_of, worker_count, Msg, Scan, MAX_WORKERS};

#[test]
fn a_malformed_file_reports_a_failure_rather_than_panicking() {
    let load = stats_of(Ok(b"definitely not a vox file".to_vec()), 25, None);
    assert!(matches!(load, Load::Failed(_)));
}

#[test]
fn a_file_that_cannot_be_read_reports_why() {
    match stats_of(Err("permission denied".into()), 0, None) {
        Load::Failed(why) => assert_eq!(why, "permission denied"),
        _ => panic!("there is nothing to know of it"),
    }
}

#[test]
fn a_good_file_reports_what_is_in_it() {
    let bytes = fixtures::to_bytes(&fixtures::single_cube());
    match stats_of(Ok(bytes), 1234, Some(5)) {
        Load::Ready(s) => {
            assert_eq!(s.dims, [4, 4, 4]);
            assert_eq!(s.voxels, 64);
            assert_eq!(s.triangles, 12, "each side of the cube is one rectangle");
            assert_eq!((s.models, s.instances), (1, 1));
            assert!(s.palette_from_file);
            assert_eq!(s.palette_head.len(), 32);
            assert_eq!((s.bytes, s.modified), (1234, Some(5)));
        }
        _ => panic!("the cube should parse"),
    }
}

#[test]
fn scanning_an_empty_tree_still_finishes() {
    let mut scan = Scan::new();
    let none: Vec<FilePath> = Vec::new();
    scan.arrive(Msg::Found {
        files: none,
        skipped: Vec::new(),
        truncated: false,
    });
    assert_eq!(scan.drain().len(), 1);
    assert!(!scan.finished());
    scan.arrive(Msg::Done);
    assert!(!scan.finished());
    assert_eq!(scan.drain().len(), 1);
    assert!(scan.finished());
}

#[test]
fn news_is_handed_out_once_and_in_order() {
    let mut scan = Scan::new();
    for name in ["/a.vox", "/b.vox", "/c.vox"] {
        scan.arrive(Msg::Stats {
            path: FilePath::rooted(name),
            load: Load::Pending,
        });
    }
    let names: Vec<String> = scan
        .drain()
        .iter()
        .map(|m| match m {
            Msg::Stats { path, .. } => path.title(),
            _ => panic!("only stats were sent"),
        })
        .collect();
    assert_eq!(names, ["a.vox", "b.vox", "c.vox"]);
    assert!(scan.drain().is_empty());
    assert!(!scan.finished());
}

#[test]
fn a_scan_thread_that_died_is_finished() {
    let mut scan = Scan::new();
    scan.hang_up();
    assert!(scan.drain().is_empty());
    assert!(scan.finished());
}

#[test]
fn there_are_as_many_workers_as_help() {
    assert_eq!(worker_count(None), 1);
    assert_eq!(worker_count(Some(1)), 1);
    assert_eq!(worker_count(Some(3)), 2);
    assert_eq!(worker_count(Some(64)), MAX_WORKERS);
}

#[test]
fn triangles_count_every_place_a_model_stands_in() {
    let bytes = fixtures::to_bytes(&fixtures::two_models_translated());
    match stats_of(Ok(bytes), 0, None) {
        Load::Ready(s) => {
            assert_eq!((s.models, s.instances), (2, 2));
            assert_eq!(s.triangles, 24);
        }
        _ => panic!("the fixture should parse"),
    }
}
