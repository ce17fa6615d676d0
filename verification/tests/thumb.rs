//! Thumbnails and their cache.

use voxview::paths::FilePath;
use voxview::thumb::{
    cache_dir, cache_name, is_cache_name, needs_touch, prunable, Entry, Pruned, Sweep, Thumbs,
    IN_FLIGHT, PER_FRAME, PICTURE_BYTES, RESIDENT, SIZE, TOUCH_AFTER,
};

#[test]
fn the_cache_key_changes_when_the_file_does() {
    let first = cache_name("a/one.vox", 3, 1);
    // Same length, different content: only the mtime can tell them apart.
    let second = cache_name("a/one.vox", 3, 2);
    let third = cache_name("a/one.vox", 13, 2);
    assert_ne!(first, second);
    assert_ne!(second, third);
    assert_ne!(first, cache_name("a/two.vox", 3, 1));
    assert!(first.ends_with(&format!("-{SIZE}.png")));
}

/// Sixteen-digit names, aged so that the first is the oldest.
fn scratch(count: usize, size: u64) -> Vec<Entry> {
    (0..count)
        .map(|i| {
            let name = format!("{:016x}-{SIZE}.png", i as u64);
            prunable(&name, true, i as i64 * 3600, size).expect("one of our own")
        })
        .collect()
}

fn sweep(entries: Vec<Entry>, budget: u64) -> (Pruned, Vec<usize>) {
    let mut s = Sweep::new(entries, budget);
    let mut gone = Vec::new();
    while let Some(i) = s.next() {
        gone.push(i);
        s.settle(true);
    }
    (s.out, gone)
}

#[test]
fn a_cache_inside_its_budget_is_left_alone() {
    let (pruned, gone) = sweep(scratch(4, 1000), 1_000_000);
    assert_eq!(pruned.removed_files, 0);
    assert_eq!(pruned.kept_files, 4);
    assert!(gone.is_empty());
}

#[test]
fn pruning_takes_the_least_recently_used_first() {
    // Room for six, so the four oldest go.
    let (pruned, gone) = sweep(scratch(10, 1000), 6_000);
    assert_eq!(pruned.removed_files, 4);
    assert_eq!(pruned.removed_bytes, 4_000);
    assert_eq!(pruned.kept_files, 6);
    assert!(pruned.kept_bytes <= 6_000);
    assert_eq!(gone, [0, 1, 2, 3]);
}

#[test]
fn pruning_touches_nothing_it_did_not_write() {
    // Things that share the directory: another program's cache, a note
    // someone left, a thumbnail of a different size from an older build.
    for name in ["important.txt", "cover.png", "nothash-128.png"] {
        assert_eq!(prunable(name, true, 0, 8000), None, "{name} was taken");
    }
    assert_eq!(prunable("0123456789abcdef-128.png", false, 0, 0), None);
    // A budget of zero: everything there is to delete goes.
    let (pruned, _) = sweep(scratch(2, 4000), 0);
    assert_eq!(pruned.removed_files, 2);
}

#[test]
fn what_cannot_be_deleted_is_kept_and_not_tried_again() {
    let mut s = Sweep::new(scratch(3, 10), 0);
    assert_eq!(s.next(), Some(0));
    s.settle(false);
    assert_eq!(s.next(), Some(1));
    s.settle(true);
    s.settle(true);
    assert_eq!(s.next(), None);
    assert_eq!(s.out.kept_files, 1);
    assert_eq!(s.out.kept_bytes, 10);
}

#[test]
fn only_our_own_names_are_recognised() {
    assert!(is_cache_name(&format!("{:016x}-{SIZE}.png", 1u64)));
    assert!(is_cache_name("0123456789abcdef-64.png"));
    assert!(!is_cache_name("0123456789abcde-64.png"), "short hash");
    assert!(!is_cache_name("0123456789abcdefg-64.png"), "long hash");
    assert!(!is_cache_name("0123456789abcdez-64.png"), "not hex");
    assert!(!is_cache_name("0123456789abcdef-.png"), "no size");
    assert!(!is_cache_name("0123456789abcdef-64.jpg"), "not a png");
    assert!(!is_cache_name("0123456789abcdef64.png"), "no separator");
    assert!(!is_cache_name(".."), "a directory entry");
    assert!(is_cache_name(&cache_name("a/one.vox", 3, 1)));
}

#[test]
fn a_missing_cache_directory_prunes_nothing_and_does_not_panic() {
    let (pruned, _) = sweep(Vec::new(), 0);
    assert_eq!(pruned, Pruned::default());
}

#[test]
fn using_a_thumbnail_marks_it_as_used_today() {
    let now = 100 * TOUCH_AFTER;
    assert!(needs_touch(now, Some(now - TOUCH_AFTER * 3)));
    // And a file already used today is left alone, so a scroll through a
    // folder is not a write per cell.
    assert!(!needs_touch(now, Some(now)));
    assert!(!needs_touch(now, Some(now - TOUCH_AFTER + 1)));
    assert!(needs_touch(now, Some(now + 1)));
    assert!(needs_touch(now, None));
}

#[test]
fn thumbnails_lie_where_the_platform_keeps_its_caches() {
    let at = |s: &str| FilePath::rooted(s);
    let dir = cache_dir(
        false,
        None,
        None,
        Some(at("/home/me")),
        at("/tmp"),
    );
    assert_eq!(dir.to_text(), "/home/me/.cache/voxview/thumbnails");
    let dir = cache_dir(true, None, None, Some(at("/home/me")), at("/tmp"));
    assert_eq!(dir.to_text(), "/tmp/voxview/thumbnails");
}

fn path(i: usize) -> FilePath {
    FilePath {
        anchor: Vec::new(),
        names: vec![format!("{i}.vox")],
    }
}

#[test]
fn a_picture_is_asked_for_once_and_then_there() {
    let mut t = Thumbs::new();
    assert!(!t.get(&path(1)));
    assert!(!t.get(&path(1)));
    assert_eq!(t.wanted.len(), 1);
    let job = t.next_job().expect("one is wanted");
    t.sent(job);
    assert!(t.next_job().is_none());
    assert!(!t.get(&path(1)), "on its way");
    t.arrived(&path(1));
    assert!(t.may_draw(&path(1), 0));
    assert!(t.upload(&path(1), PICTURE_BYTES));
    assert!(t.get(&path(1)));
    t.forget(&path(1));
    assert!(!t.get(&path(1)));
}

#[test]
fn a_picture_of_the_wrong_size_is_a_failure() {
    let mut t = Thumbs::new();
    assert!(!t.upload(&path(1), 7));
    assert!(t.is_failed(&path(1)));
    assert!(!t.get(&path(1)));
    assert!(t.wanted.is_empty(), "a failure is not asked for again");
}

#[test]
fn a_frame_draws_only_so_many() {
    let mut t = Thumbs::new();
    assert!(t.may_draw(&path(1), PER_FRAME - 1));
    assert!(!t.may_draw(&path(2), PER_FRAME));
    assert_eq!(t.wanted, [path(2)]);
}

#[test]
fn the_worker_gets_only_so_many_at_once() {
    let mut t = Thumbs::new();
    for i in 0..IN_FLIGHT + 3 {
        t.get(&path(i));
    }
    let mut sent = 0;
    while let Some(job) = t.next_job() {
        t.sent(job);
        sent += 1;
    }
    assert_eq!(sent, IN_FLIGHT);
}

#[test]
fn the_pictures_drawn_longest_ago_are_let_go() {
    let mut t = Thumbs::new();
    for i in 0..RESIDENT + 5 {
        t.begin_frame();
        t.upload(&path(i), PICTURE_BYTES);
    }
    let gone = t.evict();
    assert_eq!(t.resident.len() + gone.len(), RESIDENT + 5);
    assert!(t.resident.len() <= RESIDENT);
    assert!(gone.contains(&path(0)));
    assert!(!gone.contains(&path(RESIDENT + 4)));
}
