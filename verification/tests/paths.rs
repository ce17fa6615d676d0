//! Paths and texts.

use std::cmp::Ordering;
use voxview::names::natural_cmp;
use voxview::paths::{compare_paths, equal_ignoring_case, FilePath};
use voxview::text;

fn path(s: &str) -> FilePath {
    FilePath {
        anchor: Vec::new(),
        names: s.split('/').map(String::from).collect(),
    }
}

#[test]
fn a_path_comes_apart() {
    let p = FilePath::rooted("/a/b.tar.gz");
    assert_eq!(p.to_text(), "/a/b.tar.gz");
    assert_eq!(p.parent().unwrap().to_text(), "/a");
    assert_eq!(p.file_name().as_deref(), Some("b.tar.gz"));
    assert_eq!(p.stem().as_deref(), Some("b.tar"));
    assert_eq!(p.relative_to(&FilePath::rooted("/a")), "b.tar.gz");
    assert_eq!(path("..").file_name(), None);
    assert_eq!(path("..").title(), "..");
    assert_eq!(path(".hidden").stem().as_deref(), Some(".hidden"));
    assert_eq!(path("a").join("b"), path("a/b"));
    assert!(path("a/b").same(&path("a/b")) && !path("a/b").same(&path("a")));
}

#[test]
fn paths_are_ordered_part_by_part() {
    assert_eq!(compare_paths(&path("a/b"), &path("a/b")), 0);
    assert_eq!(compare_paths(&path("a/z"), &path("a-b/a")), -1);
    assert_eq!(compare_paths(&path("b"), &path("a/b")), 1);
    assert!(equal_ignoring_case("A.VOX", "a.vox"));
    assert!(!equal_ignoring_case("a", "ab"));
}

#[test]
fn numbers_too_long_to_count_are_not_wrapped() {
    let big = "99999999999999999999999999";
    assert_eq!(natural_cmp(big, "18446744073709551614"), Ordering::Greater);
    assert_eq!(natural_cmp("a2", "A10"), Ordering::Less);
}

#[test]
fn texts_are_put_together() {
    assert_eq!(text::cat3("a", "b", "c"), "abc");
    assert_eq!(text::number(0), "0");
    assert_eq!(text::number(u64::MAX), "18446744073709551615");
    let mut s = String::new();
    text::push_signed(&mut s, -120);
    assert_eq!(s, "-120");
    let chars = text::chars_of(" a b ");
    assert_eq!(text::string_of(&text::trimmed(&chars)), "a b");
    assert_eq!(text::parse_u32(&text::chars_of("4294967295")), Some(u32::MAX));
    assert_eq!(text::parse_u32(&text::chars_of("4294967296")), None);
    assert_eq!(text::parse_i32(&text::chars_of("-7")), Some(-7));
}
