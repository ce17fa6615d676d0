//! Finding files, and what a command-line argument stands for.

use voxview::geom::UVec3;
use voxview::loader::{load_bytes, LoadError};
use voxview::paths::{browse_root, is_vox, FilePath};
use voxview::walk::{
    collect_vox_paths, list_vox_dir, Argument, CollectError, DirEntry, Kind, Sibling, Walk, Walker,
    MAX_WALK_DEPTH, MAX_WALK_FILES,
};

fn path(s: &str) -> FilePath {
    FilePath {
        anchor: Vec::new(),
        names: s.split('/').map(String::from).collect(),
    }
}

/// What a directory of a tree of files holds; nothing where there is none.
fn entries(dir: &FilePath, tree: &[&str]) -> Option<Vec<DirEntry>> {
    let mut out: Vec<DirEntry> = Vec::new();
    for file in tree.iter().map(|f| path(f)) {
        let n = dir.names.len();
        if file.names.len() > n && file.names[..n] == dir.names[..] {
            let here = FilePath {
                anchor: Vec::new(),
                names: file.names[..n + 1].to_vec(),
            };
            let kind = if file.names.len() == n + 1 {
                Kind::File
            } else {
                Kind::Dir
            };
            if !out.iter().any(|e| e.path == here) {
                out.push(DirEntry { path: here, kind });
            }
        }
    }
    if out.is_empty() {
        None
    } else {
        Some(out)
    }
}

fn walk_tree(root: &str, tree: &[&str]) -> Walk {
    let mut w = Walker::new(&path(root));
    while let Some((dir, depth)) = w.next() {
        match entries(&dir, tree) {
            Some(list) => w.listed(depth, &list),
            None => w.unreadable(dir, "no such directory".into()),
        }
    }
    w.finish()
}

#[test]
fn garbage_is_an_error_not_a_panic() {
    assert!(load_bytes(b"not a vox file at all").is_err());
    assert!(load_bytes(&[]).is_err());
    assert!(load_bytes(b"VOX ").is_err());
}

#[test]
fn truncated_header_is_an_error() {
    let mut bytes = b"VOX ".to_vec();
    bytes.extend_from_slice(&150u32.to_le_bytes());
    assert!(load_bytes(&bytes).is_err());
}

#[test]
fn a_refusal_says_why() {
    match load_bytes(b"") {
        Err(e) => assert_eq!(e.message(), "Not a valid MagicaVoxel .vox file"),
        Ok(_) => panic!("an empty file should not load"),
    }
    let size = LoadError::Implausible {
        model: 3,
        size: UVec3::new(1, 2, 9999),
    };
    assert_eq!(
        size.message(),
        "model 3 declares an implausible size of 1x2x9999"
    );
}

#[test]
fn walk_finds_nested_files_and_ignores_other_extensions() {
    let walk = walk_tree(
        "root",
        &[
            "root/top.vox",
            "root/notes.txt",
            "root/npc/wolf/male/head.vox",
            "root/npc/wolf/male/body.VOX",
            "root/npc/wolf/wolf_manifest.ron",
        ],
    );
    let names: Vec<String> = walk.files.iter().map(|p| p.names[1..].join("/")).collect();
    assert_eq!(
        names,
        [
            "npc/wolf/male/body.VOX",
            "npc/wolf/male/head.vox",
            "top.vox"
        ]
    );
    assert!(!walk.truncated);
    assert!(walk.skipped.is_empty());
}

#[test]
fn walk_of_a_missing_directory_reports_it_instead_of_failing() {
    let walk = walk_tree("no/such/directory/anywhere", &[]);
    assert!(walk.files.is_empty());
    assert_eq!(walk.skipped.len(), 1);
}

#[test]
fn links_are_not_followed_and_the_depth_is_bounded() {
    let mut w = Walker::new(&path("root"));
    w.next();
    let link = DirEntry {
        path: path("root/loop"),
        kind: Kind::Symlink,
    };
    w.listed(0, &vec![link]);
    assert!(w.next().is_none());
    assert!(!w.walk.truncated);
    let deep = DirEntry {
        path: path("root/deep"),
        kind: Kind::Dir,
    };
    w.listed(MAX_WALK_DEPTH, &vec![deep]);
    assert!(w.next().is_none());
    assert!(w.finish().truncated);
}

#[test]
fn a_directory_argument_covers_the_whole_subtree() {
    let walk = walk_tree("root", &["root/a/deep/one.vox", "root/b/two.vox"]);
    let (files, index) = collect_vox_paths(&path("root"), Argument::Dir(walk)).unwrap();
    assert_eq!(files.len(), 2);
    assert_eq!(index, 0);
}

fn siblings(files: Vec<FilePath>) -> Vec<Sibling> {
    files
        .into_iter()
        .map(|p| Sibling {
            canonical: p.clone(),
            path: p,
        })
        .collect()
}

#[test]
fn a_file_argument_pages_its_own_directory_only() {
    let listing = list_vox_dir(&vec![
        (path("root/two.vox"), true),
        (path("root/sub"), false),
        (path("root/one.vox"), true),
        (path("root/notes.txt"), true),
    ]);
    let arg = path("root/two.vox");
    let what = Argument::File {
        canonical: arg.clone(),
        siblings: siblings(listing),
    };
    let (files, index) = collect_vox_paths(&arg, what).unwrap();
    assert_eq!(files.len(), 2, "the subdirectory must not be pulled in");
    assert_eq!(index, 1);
    assert_eq!(browse_root(&arg, false), path("root"));
}

#[test]
fn an_argument_that_stands_for_nothing_is_refused() {
    let none = walk_tree("root", &["root/notes.txt"]);
    assert!(matches!(
        collect_vox_paths(&path("root"), Argument::Dir(none)),
        Err(CollectError::NoFiles)
    ));
    assert!(matches!(
        collect_vox_paths(&path("root"), Argument::Missing),
        Err(CollectError::Missing)
    ));
    assert_eq!(
        CollectError::NoFiles.message("here"),
        "no .vox files under here"
    );
    assert_eq!(CollectError::Missing.message("here"), "here does not exist");
}

#[test]
fn a_file_that_is_not_listed_is_shown_alone() {
    let arg = path("model.bin");
    let what = Argument::File {
        canonical: arg.clone(),
        siblings: siblings(vec![path("one.vox")]),
    };
    let (files, index) = collect_vox_paths(&arg, what).unwrap();
    assert_eq!(files, [arg.clone()]);
    assert_eq!(index, 0);
    assert_eq!(browse_root(&arg, false), path("."));
    assert_eq!(browse_root(&arg, true), arg);
}

#[test]
fn the_extension_counts_in_any_case() {
    assert!(is_vox(&path("a/b.VoX")));
    assert!(!is_vox(&path("a/b.vox.bak")));
    assert!(!is_vox(&path("a/.vox")));
}

#[test]
fn a_whole_walk_finds_what_is_not_too_deep() {
    let deepest = format!("root/{}in.vox", "d/".repeat(MAX_WALK_DEPTH));
    let shallow = walk_tree("root", &["root/z.vox", &deepest, "root/a.vox", "root/a.txt"]);
    assert_eq!(shallow.files, [path("root/a.vox"), path(&deepest), path("root/z.vox")]);
    assert!(!shallow.truncated && shallow.skipped.is_empty());

    let lost = format!("root/{}out.vox", "d/".repeat(MAX_WALK_DEPTH + 1));
    let cut = walk_tree("root", &[&lost, &deepest]);
    assert_eq!(cut.files, [path(&deepest)]);
    assert!(cut.truncated);
}

#[test]
fn a_walk_stops_at_the_ceiling() {
    let listing: Vec<DirEntry> = (0..MAX_WALK_FILES + 1)
        .map(|i| DirEntry {
            path: path(&format!("root/{i}.vox")),
            kind: Kind::File,
        })
        .collect();
    let mut w = Walker::new(&path("root"));
    w.next();
    w.listed(0, &listing);
    assert_eq!(w.walk.files.len(), MAX_WALK_FILES);
    assert!(w.walk.truncated);
    assert!(w.next().is_none());
}

#[test]
fn unreadable_directories_are_listed_in_order() {
    let mut w = Walker::new(&path("root"));
    w.next();
    let dirs = ["root/b", "root/a"].map(|p| DirEntry {
        path: path(p),
        kind: Kind::Dir,
    });
    w.listed(0, &Vec::from(dirs));
    let (first, depth) = w.next().unwrap();
    assert_eq!((first, depth), (path("root/a"), 1));
    let (second, _) = w.next().unwrap();
    w.unreadable(second, "no".into());
    w.unreadable(path("root/a"), "denied".into());
    let walk = w.finish();
    assert_eq!(
        walk.skipped,
        [
            (path("root/a"), "denied".to_string()),
            (path("root/b"), "no".to_string())
        ]
    );
}
