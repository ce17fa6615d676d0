//! What the browser says, and what its clicks do.

use voxview::library::{AssetStats, Library, Load, Row, Scope, Sort};
use voxview::panels;
use voxview::paths::FilePath;
use voxview::sysfont::Script;
use voxview::ui::{
    add_collection, bytes, cell_input, enter_folder, extent_of, flip_order, flip_stacking,
    is_a_name, paths_of, sort_by, targets, Action, ScanStatus, Toggle, Tone, Ui, ViewerChrome,
};

const NOW: i64 = 0;

fn path(s: &str) -> FilePath {
    FilePath {
        anchor: Vec::new(),
        names: s.split('/').map(String::from).collect(),
    }
}

fn lib(paths: &[&str]) -> Library {
    let files = paths.iter().map(|p| path(&format!("root/{p}"))).collect();
    Library::new(path("root"), files)
}

fn ready(dims: [i32; 3]) -> Load {
    Load::Ready(AssetStats {
        dims,
        voxels: 1,
        triangles: 1200,
        models: 1,
        instances: 1,
        palette_from_file: true,
        palette_head: Vec::new(),
        bytes: 0,
        modified: None,
    })
}

#[test]
fn a_stack_whose_members_disagree_reports_that_rather_than_a_number() {
    let mut lib = lib(&["a/crate-0.vox", "a/crate-1.vox"]);
    lib.assets[0].load = ready([11, 11, 10]);
    lib.assets[1].load = ready([6, 6, 5]);

    let rows = lib.rows(NOW).to_vec();
    assert_eq!(extent_of(&lib, &rows[0]).as_deref(), Some("varies"));

    lib.assets[1].load = ready([11, 11, 10]);
    assert_eq!(
        extent_of(&lib, &rows[0]).as_deref(),
        Some("11 \u{d7} 11 \u{d7} 10")
    );
}

#[test]
fn an_unread_member_leaves_the_extent_blank_instead_of_guessing() {
    let mut lib = lib(&["a/crate-0.vox", "a/crate-1.vox"]);
    lib.assets[0].load = ready([11, 11, 10]);
    let rows = lib.rows(NOW).to_vec();
    assert_eq!(extent_of(&lib, &rows[0]), None);
}

#[test]
fn byte_counts_read_the_way_a_file_manager_shows_them() {
    assert_eq!(bytes(512), "512 B");
    assert_eq!(bytes(2048), "2.0 KB");
    assert_eq!(bytes(3 * 1024 * 1024), "3.0 MB");
}

#[test]
fn byte_counts_are_rounded_as_a_formatted_float_is() {
    for n in [1024u64, 1075, 1126, 1177, 1280, 1408, 1536, 1664, 9_999, 1_048_575] {
        assert_eq!(bytes(n), format!("{:.1} KB", n as f64 / 1024.0), "{n}");
    }
    for n in [1_048_576u64, 1_310_720, 1_835_008, 123_456_789, 98_765_432_100] {
        assert_eq!(bytes(n), format!("{:.1} MB", n as f64 / (1024.0 * 1024.0)), "{n}");
    }
}

#[test]
fn a_batch_is_the_paths_there_are() {
    let lib = lib(&["a/one.vox", "a/two.vox"]);
    assert_eq!(paths_of(&lib, &[1, 9, 0]), [path("root/a/two.vox"), path("root/a/one.vox")]);
}

#[test]
fn clicking_a_stack_opens_it_and_a_file_selects_it() {
    let mut lib = lib(&["a/crate-0.vox", "a/crate-1.vox", "a/barrel.vox"]);
    let rows = lib.rows(NOW).to_vec();
    let stack = rows.iter().find(|r| matches!(r, Row::Family { .. })).unwrap();
    assert_eq!(cell_input(&mut lib, stack, false, true, false, false, NOW), None);
    assert!(lib.family_expanded(stack));
    assert!(lib.selection.is_empty());
    assert_eq!(cell_input(&mut lib, stack, false, true, true, false, NOW), None);
    assert_eq!(targets(&lib), [stack.lead()]);
    assert_eq!(
        cell_input(&mut lib, &Row::One(2), true, true, false, false, NOW),
        Some(Action::Open(2))
    );
    assert_eq!(lib.selection, [2]);
    assert_eq!(cell_input(&mut lib, &Row::One(0), false, false, false, false, NOW), None);
    assert_eq!(lib.selection, [2]);
}

#[test]
fn the_rail_opens_what_it_moves_into() {
    let mut lib = lib(&["a/b/one.vox", "c/two.vox"]);
    let a = lib.folders.iter().position(|f| f.name == "a").unwrap();
    if lib.folders[a].expanded {
        lib.toggle_folder(a);
    }
    enter_folder(&mut lib, a);
    assert!(lib.folders[a].expanded);
    assert_eq!(lib.scope, Scope::Folder(a));
    assert_eq!(add_collection(&mut lib), 0);
    assert_eq!(lib.collections[0].name, "Collection 1");
    sort_by(&mut lib, Sort::Voxels);
    flip_order(&mut lib);
    flip_stacking(&mut lib);
    assert!(lib.descending && !lib.stack_variants);
    assert_eq!(lib.sort, Sort::Voxels);
}

#[test]
fn a_script_is_looked_for_once() {
    let mut ui = Ui::new();
    ui.may_show("barrel");
    assert!(ui.wanted_scripts.is_empty());
    ui.may_show("\u{6a3d}");
    assert!(ui.wanted_scripts.contains(Script::Han));
    let wanted = ui.take_wanted();
    assert!(wanted.contains(Script::Han));
    ui.may_show("\u{6a3d}\u{305f}");
    assert!(!ui.wanted_scripts.contains(Script::Han));
    assert!(ui.wanted_scripts.contains(Script::Kana));
}

#[test]
fn overlays_come_and_go() {
    let mut ui = Ui::new();
    assert!(!ui.close_overlay());
    ui.toggle_peek();
    ui.prompt_collection();
    assert!(ui.close_overlay());
    assert!(!ui.peek && !ui.prompt);
    assert_eq!(ui.columns(), 1);
    ui.columns = 0;
    assert_eq!(ui.columns(), 1);
    ui.scroll_to_row(4);
    assert_eq!(ui.pending_scroll, Some(4));
    ui.focus_find();
    assert!(ui.focus_find);
}

#[test]
fn the_bars_say_how_far_the_scan_has_got() {
    let mut status = ScanStatus {
        found: 1234,
        parsed: 12,
        scanning: true,
    };
    assert_eq!(panels::scan_progress(status).text, "reading 12 of 1,234");
    assert_eq!(panels::scan_note(status).text, "read 12 / 1,234");
    assert_eq!(panels::scan_note(status).tone, Tone::Warn);
    status.scanning = false;
    assert_eq!(panels::scan_progress(status).text, "watching 1,234 files");
    assert_eq!(panels::scan_note(status).text, "scan complete");
}

#[test]
fn the_status_bar_says_what_went_wrong() {
    let mut lib = lib(&["a/one.vox"]);
    let status = ScanStatus::default();
    let texts = |lib: &Library| -> Vec<String> {
        panels::status_line(lib, status)
            .into_iter()
            .map(|r| r.text)
            .collect()
    };
    assert_eq!(texts(&lib), ["0 in root", "0 selected", "0 failed to parse"]);
    lib.truncated = true;
    lib.skipped.push((path("x"), "denied".into()));
    lib.assets[0].load = Load::Failed("no".into());
    assert_eq!(
        texts(&lib),
        [
            "0 in root",
            "0 selected",
            "1 failed to parse",
            "listing truncated",
            "1 folders unreadable"
        ]
    );
    assert_eq!(panels::status_line(&lib, status)[2].tone, Tone::Bad);
}

#[test]
fn cells_and_list_rows_are_labelled() {
    let mut lib = lib(&["a/crate-0.vox", "a/crate-1.vox", "barrel.vox"]);
    let rows = lib.rows(NOW).to_vec();
    let stack = rows.iter().find(|r| matches!(r, Row::Family { .. })).unwrap();
    assert_eq!(panels::caption(&lib, stack), "a/crate-*  (2)");
    assert_eq!(panels::caption(&lib, &Row::One(2)), "barrel");
    assert_eq!(panels::detail(&lib, stack).text, "reading\u{2026}");
    assert_eq!(panels::extent_column(&lib, stack).text, "\u{2026}");
    lib.assets[0].load = ready([1, 2, 3]);
    lib.assets[1].load = ready([4, 2, 3]);
    assert_eq!(panels::detail(&lib, stack).text, "varies");
    assert_eq!(panels::extent_column(&lib, stack).tone, Tone::Warn);
    assert_eq!(panels::detail(&lib, &Row::One(0)).text, "1 \u{d7} 2 \u{d7} 3");
    assert_eq!(panels::peek_detail(&lib.assets[0].load), "1 \u{d7} 2 \u{d7} 3   1 voxels");
    lib.assets[2].load = Load::Failed("bad header".into());
    assert_eq!(panels::detail(&lib, &Row::One(2)).text, "would not parse");
    assert_eq!(panels::extent_column(&lib, &Row::One(2)).text, "--");
    assert_eq!(panels::peek_detail(&lib.assets[2].load), "bad header");
    assert_eq!(
        panels::split_name(&lib, 0),
        ("crate-".to_string(), "0".to_string())
    );
    assert_eq!(
        panels::split_name(&lib, 2),
        (String::new(), "barrel".to_string())
    );
}

#[test]
fn the_inspector_lists_what_is_known() {
    let lib = {
        let mut lib = lib(&["one.vox"]);
        lib.assets[0].load = ready([1, 2, 3]);
        lib
    };
    let stats = panels::inspect(lib.assets[0].stats().unwrap());
    let lines: Vec<String> = stats.iter().map(|s| format!("{}={}", s.key, s.value)).collect();
    assert_eq!(
        lines,
        [
            "Extent=1 \u{d7} 2 \u{d7} 3",
            "Voxels=1",
            "Triangles=1,200",
            "Models=1",
            "Instances=1",
            "Palette=from file",
            "On disk=0 B"
        ]
    );
}

#[test]
fn an_empty_listing_says_why() {
    let mut some = lib(&["one.vox"]);
    assert_eq!(panels::empty_text(&lib(&[])), "Nothing found under this root.");
    assert_eq!(
        panels::empty_text(&some),
        "This folder holds no .vox files. Open one of its children."
    );
    some.find = "x".into();
    assert!(panels::is_narrowed(&some));
    assert_eq!(panels::empty_text(&some), "No asset matches these filters.");
}

#[test]
fn small_notes_read_well() {
    let mut lib = lib(&["one.vox"]);
    assert_eq!(panels::assets_note(1200), "1,200 assets");
    assert_eq!(panels::rows_note(&lib, 3, 3), None);
    assert_eq!(panels::rows_note(&lib, 3, 5).as_deref(), Some("3 rows"));
    assert_eq!(panels::pending_note(0), None);
    assert_eq!(panels::pending_note(7).as_deref(), Some("  7 still being read"));
    assert_eq!(panels::prompt_title(1), "Add 1 asset to");
    assert_eq!(panels::prompt_title(2), "Add 2 assets to");
    assert_eq!(panels::stack_badge(12), "\u{d7}12");
    assert_eq!(panels::stack_name("crate"), "crate-*");
    assert_eq!(panels::files_label(7), "7 files");
    assert_eq!(panels::collect_label(3), "+ Collection (3)");
    assert!(is_a_name(" a ") && !is_a_name(" \t\u{a0}") && !is_a_name(""));
    let set = lib.new_collection("Tavern".into());
    lib.add_to_collection(set, &[0]);
    assert_eq!(panels::collection_label(&lib.collections[set]), "Tavern   1");
    lib.set_scope(Scope::Collection(set));
    assert_eq!(panels::scope_name(&lib), "Tavern");
    lib.set_scope(Scope::Collection(9));
    assert_eq!(panels::scope_name(&lib), "");
}

#[test]
fn the_viewer_chrome_says_where_it_is() {
    let lib = lib(&["a/one.vox", "two.vox"]);
    let mut chrome = ViewerChrome {
        current: Some(0),
        name: "one.vox",
        show_grid: true,
        show_bbox: false,
        show_axes: true,
        occlusion: false,
        orthographic: true,
        samples: 4,
        error: None,
    };
    assert_eq!(panels::where_it_is(&lib, &chrome), "a/one.vox");
    let on: Vec<bool> = panels::pills(&chrome).iter().map(|p| p.on).collect();
    assert_eq!(on, [true, false, true, false, true]);
    assert_eq!(panels::pills(&chrome)[4].toggle, Toggle::Orthographic);
    chrome.current = Some(1);
    assert_eq!(panels::where_it_is(&lib, &chrome), "one.vox");
    chrome.current = None;
    assert_eq!(panels::where_it_is(&lib, &chrome), "one.vox");
    assert_eq!(panels::samples_label(1), "MSAA off  S");
    assert_eq!(panels::samples_label(8), "MSAA 8x  S");
    assert_eq!(panels::counter(&vec![4, 2], Some(2)), "2 / 2");
    assert_eq!(panels::counter(&vec![4, 2], None), "\u{2013} / 2");
    assert_eq!(panels::selected_note(&lib), "0 selected");
}
