//! Noticing that the file on screen was edited.

use voxview::paths::FilePath;
use voxview::watch::{concerns, same_file, Change, FileWatcher, Named, DEBOUNCE};

fn path(s: &str) -> FilePath {
    FilePath {
        anchor: Vec::new(),
        names: s.split('/').map(String::from).collect(),
    }
}

fn same(a: &str, b: &str) -> bool {
    same_file(&path(a), &path(b), &path(a), &path(b))
}

#[test]
fn same_file_matches_itself_and_not_a_sibling() {
    assert!(same("a/b.vox", "a/b.vox"));
    assert!(same("a/b.vox", "c/b.vox"));
    assert!(!same("a/b.vox", "a/c.vox"));
}

#[test]
fn a_file_is_found_under_another_name_and_in_other_letters() {
    assert!(same("a/B.VOX", "c/b.vox"));
    assert!(same_file(
        &path("link.vox"),
        &path("real.vox"),
        &path("x/real.vox"),
        &path("x/real.vox")
    ));
}

#[test]
fn a_change_is_reported_once_it_has_settled() {
    let mut w = FileWatcher::new(path("a/b.vox"));
    assert_eq!(w.dir(), path("a"));
    assert!(!w.poll(false, 0));
    assert!(!w.poll(true, 1_000));
    assert!(!w.poll(false, 1_000 + DEBOUNCE - 1));
    assert!(!w.poll(true, 1_000 + DEBOUNCE), "another burst");
    assert!(w.poll(false, 1_000 + 2 * DEBOUNCE));
    assert!(!w.poll(false, 9_000), "and only once");
}

#[test]
fn a_notification_concerns_the_file_or_not() {
    let named = |s: &str| Named {
        path: path(s),
        canonical: path(s),
    };
    let target = named("a/b.vox");
    assert!(concerns(Change::Modify, &vec![named("a/x"), named("a/b.vox")], &target));
    assert!(!concerns(Change::Other, &vec![named("a/b.vox")], &target));
    assert!(!concerns(Change::Remove, &vec![named("a/c.vox")], &target));
    assert!(!concerns(Change::Create, &vec![], &target));
}
