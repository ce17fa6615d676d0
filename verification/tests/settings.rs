//! What is carried across runs.

use voxview::edge::{Edge, PARTS};
use voxview::gfx::Background;
use voxview::library::{Sort, View};
use voxview::paths::{FilePath, Platform};
use voxview::settings::{self, Settings, Window};

/// A cell of so many points.
fn cell(points: f32) -> Edge {
    Edge::from_parts((points * PARTS as f32) as u32).unwrap()
}

#[test]
fn a_round_trip_keeps_every_field() {
    let mut s = Settings {
        window: Window {
            width: 1600,
            height: 900,
            x: Some(-12),
            y: Some(40),
            maximized: true,
        },
        background: Background::Light,
        grid: false,
        bbox: true,
        axes: false,
        occlusion: false,
        msaa: 8,
        orthographic: true,
        view: View::List,
        sort: Sort::Voxels,
        descending: true,
        stack_variants: false,
        cell: cell(96.0),
        root: Some("/some/assets".into()),
        collections: vec![
            ("Favourites".into(), vec!["/a.vox".into(), "/b.vox".into()]),
            ("Empty".into(), vec![]),
        ],
    };
    s.window = s.window.sane();
    assert_eq!(Settings::parse(&s.to_text()), s);
}

#[test]
fn an_empty_file_is_the_defaults() {
    assert_eq!(Settings::parse(""), Settings::default());
}

#[test]
fn nonsense_values_leave_the_defaults_alone() {
    // The point of the format: a bad line costs that one setting, not the
    // whole file and not the launch.
    let s = Settings::parse(
        "window.width = banana\n\
         view.msaa = 3\n\
         view.grid = yes-please\n\
         library.sort = by-vibes\n\
         library.cell = NaN\n\
         totally.unknown.key = 7\n\
         a line with no equals sign\n\
         view.bbox = true\n",
    );
    let d = Settings::default();
    assert_eq!(s.window.width, d.window.width);
    assert_eq!(s.msaa, d.msaa, "3 is not a legal sample count");
    assert_eq!(s.grid, d.grid);
    assert_eq!(s.sort, d.sort);
    assert_eq!(s.cell, d.cell);
    assert!(s.bbox, "the one good line still applied");
}

#[test]
fn a_window_off_the_edge_of_the_world_is_forgotten() {
    // A saved position outlives the monitor it named. Restoring it puts
    // the window somewhere invisible, which reads as a crash.
    let s = Settings::parse("window.x = 99999\nwindow.y = 10\n");
    assert_eq!(s.window.x, None);
    assert_eq!(s.window.y, None);

    let s = Settings::parse("window.width = 3\nwindow.height = 999999\n");
    assert_eq!(s.window.width, 480, "clamped up to something usable");
    assert_eq!(s.window.height, 16_384, "clamped down");
}

#[test]
fn collections_survive_as_paths() {
    let s = Settings::parse(
        "collection = Trees\n\
         member = /forest/oak.vox\n\
         member = /forest/pine.vox\n\
         collection = Rocks\n\
         member = /quarry/granite.vox\n",
    );
    assert_eq!(s.collections.len(), 2);
    assert_eq!(s.collections[0].0, "Trees");
    assert_eq!(s.collections[0].1.len(), 2);
    assert_eq!(s.collections[1].0, "Rocks");
    assert_eq!(s.collections[1].1.len(), 1);
}

#[test]
fn a_member_before_any_collection_is_dropped() {
    let s = Settings::parse("member = /orphan.vox\ncollection = Real\n");
    assert_eq!(s.collections.len(), 1);
    assert!(s.collections[0].1.is_empty());
}

#[test]
fn a_name_with_a_newline_cannot_forge_a_key() {
    let s = Settings {
        collections: vec![("bad\nview.grid = false".into(), vec![])],
        ..Settings::default()
    };
    let text = s.to_text();
    assert!(!text.contains("bad\nview.grid"));
    assert!(Settings::parse(&text).grid, "grid was not turned off");
}

#[test]
fn a_usable_window_stays_as_it_is() {
    let w = Window::default();
    assert_eq!(w.sane(), w);
    assert_eq!(w.sane().sane(), w.sane());
}

#[test]
fn settings_lie_where_the_platform_keeps_them() {
    let dir = |s: &str| FilePath::rooted(s);
    let found = |p: Option<FilePath>| p.map(|p| p.to_text());
    let home = Some(dir("/home/me"));
    assert_eq!(
        found(settings::path(
            Platform::Unix,
            None,
            Some(dir("/etc/mine")),
            home.clone()
        )),
        Some("/etc/mine/voxview/settings.txt".to_string())
    );
    assert_eq!(settings::path(Platform::Windows, None, None, home), None);
}

#[test]
fn what_was_read_is_trimmed_and_reads_back() {
    let read = Settings::parse(
        "\r\n  collection =   Old trees \t\n member =\nmember =  /forest/oak.vox  \n\
         msaa = 7\ncollection =\nroot =\n= = =\ncollection",
    );
    assert_eq!(
        read.collections,
        [(
            "Old trees".to_string(),
            vec!["/forest/oak.vox".to_string()]
        )]
    );
    assert_eq!(read.root, None);
    assert_eq!(read.msaa, Settings::default().msaa);
    assert_eq!(Settings::parse(&read.to_text()), read);
}

#[test]
fn the_cell_is_written_and_the_last_number_counts() {
    assert_eq!(Settings::default().cell, cell(128.0));
    assert!(Settings::default().to_text().contains("\nlibrary.cell = 128\n"));
    let s = Settings::parse("library.cell = 100.1\nlibrary.cell = NaN\nlibrary.cell = 1e99\n");
    assert_eq!(s.cell, cell(100.1));
    assert!(s.to_text().contains("library.cell = 100.1\n"));
    assert_eq!(Settings::parse("library.cell = 12").cell, cell(48.0));
    assert_eq!(Settings::parse("library.cell = 1e4").cell, cell(512.0));
    assert_eq!(Settings::parse("library.cell = ").cell, cell(128.0));
}
