//! The file menu.

use voxview::hud::{Color, Metrics};
use voxview::menu::{elide, Hit, Menu, NAME_WIDTH};

const VIEW: (u32, u32) = (1280, 800);
const METRICS: Metrics = Metrics {
    cell_w: 6,
    cell_h: 10,
    scale: 2,
};

fn names(n: usize) -> Vec<String> {
    (0..n).map(|i| format!("file{i:03}.vox")).collect()
}

/// Open a menu and lay it out once, which is what gives it a hit box.
fn opened(names: &[String], current: usize) -> Menu {
    let mut menu = Menu::new();
    menu.toggle(names, current);
    menu.lines(names, "dir", current, &METRICS, VIEW);
    menu
}

#[test]
fn opening_lands_on_the_current_file() {
    let names = names(50);
    let menu = opened(&names, 17);
    assert!(menu.is_open());
    assert_eq!(menu.selection(), Some(17));
}

#[test]
fn toggling_closes_it_again() {
    let names = names(4);
    let mut menu = opened(&names, 0);
    menu.toggle(&names, 0);
    assert!(!menu.is_open());
    // A closed menu must not claim clicks.
    assert_eq!(menu.hit(VIEW.0 as i64 - 20, 100), None);
}

#[test]
fn stepping_clamps_at_both_ends() {
    let names = names(5);
    let mut menu = opened(&names, 0);
    assert_eq!(menu.step(-1), Some(0));
    assert_eq!(menu.step(3), Some(3));
    assert_eq!(menu.step(99), Some(4));
    assert_eq!(menu.step(-99), Some(0));
}

#[test]
fn the_cursor_stays_on_screen_when_it_moves() {
    let names = names(500);
    let mut menu = opened(&names, 0);
    menu.step(400);
    menu.lines(&names, "dir", 0, &METRICS, VIEW);
    let visible = menu.visible();
    assert!(
        menu.scroll <= menu.cursor && menu.cursor < menu.scroll + visible,
        "cursor {} outside view {}..{}",
        menu.cursor,
        menu.scroll,
        menu.scroll + visible
    );
    // Stepping back to the top has to scroll back with it.
    menu.step(-400);
    menu.lines(&names, "dir", 0, &METRICS, VIEW);
    assert_eq!(menu.scroll, 0);
}

#[test]
fn filtering_narrows_the_list_case_insensitively() {
    let names: Vec<String> = ["Head.vox", "jaw.vox", "foot_br.vox", "foot_fr.vox"]
        .iter()
        .map(|s| s.to_string())
        .collect();
    let mut menu = opened(&names, 0);
    for c in "FOOT".chars() {
        menu.filter_push(c, &names);
    }
    assert_eq!(menu.filtered, vec![2, 3]);
    // The cursor was on a file the filter dropped, so it parks on the
    // first match rather than pointing at nothing.
    assert_eq!(menu.selection(), Some(2));

    menu.filter_pop(&names);
    assert_eq!(menu.filtered, vec![2, 3]);
    assert!(menu.filter_clear(&names));
    assert_eq!(menu.filtered.len(), 4);
    // Clearing keeps the file the cursor was on.
    assert_eq!(menu.selection(), Some(2));
    assert!(!menu.filter_clear(&names));
}

#[test]
fn a_filter_that_matches_nothing_is_not_a_crash() {
    let names = names(20);
    let mut menu = opened(&names, 3);
    for c in "zzz".chars() {
        menu.filter_push(c, &names);
    }
    assert!(menu.filtered.is_empty());
    assert_eq!(menu.selection(), None);
    assert_eq!(menu.step(1), None);
    let lines = menu.lines(&names, "dir", 3, &METRICS, VIEW);
    assert!(lines.iter().any(|l| l.text.contains("no match")));
    assert!(lines.iter().any(|l| l.text.contains("0/0")));
    assert!(lines.iter().any(|l| l.text.contains("[Esc] close")));
}

#[test]
fn reopening_starts_from_the_whole_directory() {
    let names = names(30);
    let mut menu = opened(&names, 7);
    for c in "file01".chars() {
        menu.filter_push(c, &names);
    }
    assert!(menu.filtered.len() < names.len());
    menu.toggle(&names, 7); // close
    menu.toggle(&names, 7); // and open again
    assert_eq!(menu.filtered.len(), names.len());
    // And back on the file that is actually on screen.
    assert_eq!(menu.selection(), Some(7));
}

#[test]
fn following_tracks_a_file_opened_some_other_way() {
    let names = names(30);
    let mut menu = opened(&names, 0);
    menu.follow(12);
    assert_eq!(menu.selection(), Some(12));
    // A file the filter excludes leaves the cursor alone rather than
    // moving it somewhere arbitrary.
    menu.filter_push('0', &names);
    menu.filter_push('0', &names);
    let before = menu.selection();
    menu.follow(29);
    assert_eq!(menu.selection(), before);
}

#[test]
fn clicking_a_row_selects_the_row_that_was_drawn() {
    let names = names(200);
    let mut menu = opened(&names, 0);
    menu.scroll_by(5);
    let lines = menu.lines(&names, "dir", 0, &METRICS, VIEW);
    let b = menu.hit.unwrap();

    // Every visible row, hit in its vertical middle.
    for row in 0..menu.visible() {
        let y = b.first_row_top + row as i64 * b.line_h + b.line_h / 2;
        let x = (b.x0 + b.x1) / 2;
        assert_eq!(menu.hit(x, y), Some(Hit::Row(menu.scroll + row)));
    }
    // The row text agrees with what hit-testing claims is there.
    let first = &lines[lines.len() - menu.visible() - 2];
    assert!(first.text.contains(&names[menu.scroll]));
}

#[test]
fn clicks_outside_the_panel_are_not_the_menus() {
    let names = names(40);
    let menu = opened(&names, 0);
    let b = menu.hit.unwrap();
    assert_eq!(menu.hit(b.x0 - 1, b.y0 + 10), None);
    assert_eq!(menu.hit(b.x1 + 1, b.y0 + 10), None);
    assert_eq!(menu.hit(b.x0 + 10, b.y0 - 1), None);
    assert_eq!(menu.hit(b.x0 + 10, b.y1 + 1), None);
    // The title and footer are inside the panel but are not files.
    assert_eq!(menu.hit(b.x0 + 10, b.y0 + 2), Some(Hit::Panel));
    assert_eq!(menu.hit(b.x0 + 10, b.y1 - 2), Some(Hit::Panel));
}

#[test]
fn scrolling_stops_at_both_ends() {
    let names = names(100);
    let mut menu = opened(&names, 0);
    menu.scroll_by(-10);
    assert_eq!(menu.scroll, 0);
    menu.scroll_by(1000);
    assert_eq!(menu.scroll, 100 - menu.visible());
}

#[test]
fn the_panel_is_a_stable_width_however_long_the_names_are() {
    let long: Vec<String> = vec![
        "a.vox".into(),
        "a_very_long_asset_name_that_would_stretch_the_panel_0123456789.vox".into(),
    ];
    let mut menu = opened(&long, 0);
    let lines = menu.lines(&long, "dir", 0, &METRICS, VIEW);
    let widths: Vec<usize> = lines.iter().map(|l| l.text.chars().count()).collect();
    assert!(
        widths.iter().all(|&w| w == NAME_WIDTH + 2),
        "ragged rows: {widths:?}"
    );
    // The long name is elided from the front, keeping its tail.
    assert!(lines.iter().any(|l| l.text.contains("0123456789.vox")));
}

#[test]
fn a_short_window_still_shows_a_row() {
    let names = names(50);
    let mut menu = Menu::new();
    menu.toggle(&names, 0);
    let lines = menu.lines(&names, "dir", 0, &METRICS, (1280, 40));
    assert!(!lines.is_empty());
    assert_eq!(menu.visible(), 1);
}

#[test]
fn an_empty_listing_lays_out_without_panicking() {
    let mut menu = Menu::new();
    menu.toggle(&[], 0);
    let lines = menu.lines(&[], "dir", 0, &METRICS, VIEW);
    assert!(lines.iter().any(|l| l.text.contains("no match")));
    assert_eq!(menu.selection(), None);
}

#[test]
fn a_page_is_a_screenful_once_the_menu_was_drawn() {
    let names = names(500);
    let mut menu = Menu::new();
    assert_eq!(menu.page(), 10);
    menu.toggle(&names, 0);
    menu.lines(&names, "dir", 0, &METRICS, VIEW);
    assert_eq!(menu.page() as usize, menu.visible());
}

#[test]
fn a_short_name_is_not_elided() {
    assert_eq!(elide("a.vox"), "a.vox");
    let long = "x".repeat(NAME_WIDTH + 10);
    assert_eq!(elide(&long).chars().count(), NAME_WIDTH);
}

#[test]
fn a_handled_menu_is_drawn_whole() {
    let names = names(120);
    let mut menu = opened(&names, 90);
    menu.step(-3);
    menu.scroll_by(-50);
    for c in "FILE0".chars() {
        menu.filter_push(c, &names);
    }
    menu.step(12);
    let chosen = menu.selection();
    assert_eq!(chosen, Some(99));
    let lines = menu.lines(&names, "dir", 90, &METRICS, VIEW);
    assert!(lines.iter().all(|l| l.text.chars().count() == 36));
    assert_eq!(menu.selection(), chosen, "drawing moves the cursor to no other file");
    let lit: Vec<&str> = lines
        .iter()
        .filter(|l| l.color == Color::Selected)
        .map(|l| l.text.trim())
        .collect();
    assert_eq!(lit, ["file099.vox"]);

    menu.filter_push('z', &names);
    let lines = menu.lines(&names, "dir", 90, &METRICS, VIEW);
    assert_eq!(lines[3].text.trim_end(), "  no match");
    assert!(lines[lines.len() - 1].text.starts_with("0/0  "));
    assert!(lines.iter().all(|l| l.text.chars().count() == 36));
}

#[test]
fn typing_says_whether_the_list_changed() {
    let names = names(12);
    let mut menu = opened(&names, 0);
    assert!(!menu.filter_push('F', &names), "every name has an f");
    assert!(!menu.filter_push('i', &names));
    assert!(menu.filter_push('z', &names));
    assert!(!menu.filter_push('z', &names), "nothing was left to drop");
    assert_eq!(menu.filter, "fizz");
}
