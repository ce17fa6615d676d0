//! The window's state: what the scan, the keys and the mouse make of it.

use voxview::geom::IVec3;
use voxview::gfx::Background;
use voxview::hud::{Color, Metrics};
use voxview::input::{reaches_the_window, Button, Drag, Fps, Mouse, FPS_MICROS};
use voxview::keys::Key;
use voxview::library::{Load, View};
use voxview::paths::FilePath;
use voxview::session::{
    file_name, first_line, next_samples, printable, samples_note, screenshot_path, window_at, Axis,
    Framing, Mode, SceneInfo, Session, STATUS_MILLIS,
};
use voxview::settings::{Settings, Window};
use voxview::ui::{Action, Toggle, Ui};
use voxview::viewer::{shot_note, shots_note, Work};

const NOW: i64 = 0;
const METRICS: Metrics = Metrics {
    cell_w: 6,
    cell_h: 10,
    scale: 1,
};

fn path(s: &str) -> FilePath {
    FilePath {
        anchor: Vec::new(),
        names: s.split('/').map(String::from).collect(),
    }
}

fn files(list: &[&str]) -> Vec<FilePath> {
    list.iter().map(|s| path(s)).collect()
}

fn session(list: &[&str], browse: bool) -> Session {
    Session::new(
        path("root"),
        files(list),
        0,
        browse,
        &Settings::default(),
        Vec::new(),
    )
}

/// A session on three scanned files.
fn scanned() -> Session {
    let list = ["root/a.vox", "root/b.vox", "root/c.vox"];
    let mut s = session(&list, true);
    s.found(files(&list), Vec::new(), false);
    s
}

fn press(s: &mut Session, ui: &mut Ui, key: Key) -> Work {
    s.press(ui, Some(key), None, false, 0, NOW)
}

#[test]
fn only_the_first_line_of_an_error_reaches_the_hud() {
    assert_eq!(first_line("bad file\ncaused by: nonsense"), "bad file");
    assert_eq!(first_line("bad file"), "bad file");
}

#[test]
fn a_line_can_end_in_two_characters() {
    assert_eq!(first_line("bad\r\nfile"), "bad");
    assert_eq!(first_line(""), "");
    assert_eq!(first_line("\nfile"), "");
}

#[test]
fn one_printable_character_is_typed() {
    assert_eq!(printable("a"), Some('a'));
    assert_eq!(printable("ab"), None);
    assert_eq!(printable(""), None);
    assert_eq!(printable("\u{1b}"), None);
    assert_eq!(printable("\u{85}"), None);
}

#[test]
fn names_and_titles_come_from_paths() {
    assert_eq!(file_name(&path("a/b.vox")), "b.vox");
    let s = session(&["dir/a.vox"], false);
    assert_eq!(s.title, "dir");
    assert_eq!(s.names, ["a.vox"]);
    assert_eq!(session(&["a.vox"], false).title, ".");
    assert_eq!(s.window_title(), "voxview - dir/a.vox");
    assert_eq!(session(&["dir/a.vox"], true).window_title(), "voxview - root");
    assert_eq!(
        screenshot_path(&path("dir/a.vox"), "now").to_text(),
        "dir/a_now.png"
    );
    assert_eq!(screenshot_path(&path("a.vox"), "now").to_text(), "./a_now.png");
}

#[test]
fn sample_counts_go_round() {
    let counts = vec![1, 2, 4];
    assert_eq!(next_samples(&counts, 1), 2);
    assert_eq!(next_samples(&counts, 4), 1);
    assert_eq!(next_samples(&counts, 8), 1);
    assert_eq!(samples_note(1), "no antialiasing");
    assert_eq!(samples_note(4), "4x antialiasing");
}

#[test]
fn axes_have_opposites_and_names() {
    assert_eq!(Axis::Front.opposite(), Axis::Back);
    assert_eq!(Axis::Top.opposite().opposite(), Axis::Top);
    assert_eq!(Axis::Bottom.label(), "bottom view");
    assert_eq!(Axis::Bottom.quarter_turns(), (3, -1));
}

#[test]
fn a_walk_keeps_what_was_set_before_it() {
    let mut s = session(&["root/b.vox"], true);
    s.lib.view = View::List;
    s.lib.descending = true;
    s.found(files(&["root/a.vox", "root/b.vox"]), vec![(path("x"), "no".into())], true);
    assert_eq!(s.found, 2);
    assert_eq!(s.lib.assets.len(), 2);
    assert_eq!(s.lib.view, View::List);
    assert!(s.lib.descending && s.lib.truncated);
    assert_eq!(s.lib.skipped.len(), 1);
    assert_eq!(s.current, Some(1));
}

#[test]
fn what_the_scan_learns_lands_on_its_asset() {
    let mut s = scanned();
    s.learned(&path("root/b.vox"), Load::Failed("no".into()));
    s.learned(&path("root/gone.vox"), Load::Failed("no".into()));
    assert_eq!(s.parsed, 2);
    assert!(s.lib.assets[1].failed());
    assert!(!s.lib.assets[0].failed());
}

#[test]
fn collections_come_back_by_path() {
    let saved = vec![
        ("Mine".to_string(), files(&["root/b.vox", "root/gone.vox"])),
        ("Empty".to_string(), Vec::new()),
    ];
    let mut s = Session::new(
        path("root"),
        files(&["root/a.vox"]),
        0,
        true,
        &Settings::default(),
        saved,
    );
    let kept = s.saved_collections();
    assert_eq!(kept[0].1.len(), 2, "no scan finished, so nothing is lost");
    s.found(files(&["root/a.vox", "root/b.vox"]), Vec::new(), false);
    assert_eq!(s.lib.collections.len(), 2);
    assert_eq!(s.lib.collections[0].members, [1]);
    assert!(s.lib.collections[1].members.is_empty());
    let kept = s.saved_collections();
    assert_eq!(kept[0].1, [path("root/b.vox")]);
    let mut settings = Settings::default();
    s.show_bbox = true;
    s.store(&mut settings);
    assert!(settings.bbox);
    assert_eq!(settings.root.as_deref(), Some("root"));
    assert_eq!(settings.collections[0].1, ["root/b.vox"]);
}

#[test]
fn the_window_is_remembered_unless_maximized() {
    let was = Window::default();
    let w = window_at(was, 0, 600, false, Some((3, -4)));
    assert_eq!((w.width, w.height, w.x, w.y), (1, 600, Some(3), Some(-4)));
    let w = window_at(was, 5, 6, true, Some((3, -4)));
    assert!(w.maximized && w.x.is_none());
}

#[test]
fn stepping_wraps_around() {
    let mut s = session(&["root/a.vox", "root/b.vox", "root/c.vox"], false);
    assert!(matches!(s.cycle(-1, 0), Work::Load(Framing::Reset)));
    assert_eq!(s.index, 2);
    s.cycle(2, 0);
    assert_eq!(s.index, 1);
    assert!(matches!(s.cycle(3, 0), Work::Nothing));
    assert!(matches!(s.show(9), Work::Nothing));
    let mut one = session(&["root/a.vox"], false);
    assert!(matches!(one.cycle(1, 7), Work::Nothing));
    assert_eq!(
        one.status,
        Some(("only one .vox file in this directory".to_string(), 7))
    );
}

#[test]
fn opening_walks_what_the_library_lists() {
    let mut s = scanned();
    s.lib.descending = true;
    assert!(matches!(s.open(0, NOW), Work::Load(Framing::Reset)));
    assert_eq!(s.mode, Mode::Viewer);
    assert_eq!(s.files, files(&["root/c.vox", "root/b.vox", "root/a.vox"]));
    assert_eq!((s.index, s.current), (2, Some(0)));
    assert_eq!(s.title, "root");
    assert!(matches!(s.open(99, NOW), Work::Nothing));
}

#[test]
fn actions_turn_switches_and_ask_for_work() {
    let mut s = scanned();
    let grid = s.show_grid;
    s.act(Action::Toggle(Toggle::Grid), NOW);
    assert_ne!(s.show_grid, grid);
    s.act(Action::Toggle(Toggle::Background), NOW);
    assert_eq!(s.background, Background::Light);
    assert!(matches!(s.act(Action::Toggle(Toggle::Msaa), NOW), Work::Samples));
    assert!(matches!(s.act(Action::Reload, NOW), Work::Load(Framing::Keep)));
    s.mode = Mode::Viewer;
    assert!(matches!(s.act(Action::ToLibrary, NOW), Work::Retitle));
    assert_eq!(s.mode, Mode::Library);
    match s.act(Action::Screenshot(vec![2, 8]), NOW) {
        Work::Shots(list) => assert_eq!(list, files(&["root/c.vox"])),
        _ => panic!("a screenshot is outside work"),
    }
    assert_eq!(shots_note(1, 2), "saved 1 of 2 screenshots");
    assert_eq!(shot_note(&path("a/b.png")), "saved b.png");
}

fn info() -> SceneInfo {
    SceneInfo {
        name: "a.vox".into(),
        models: 1,
        instances: 2,
        dimensions: IVec3::new(3, 4, 5),
        voxels: 12345,
        default_palette: true,
        load_ms: 6,
        mesh_ms: 7,
    }
}

#[test]
fn the_hud_says_what_is_on_screen() {
    let mut s = session(&["root/a.vox"], false);
    let texts = |s: &Session, now: u64| -> Vec<String> {
        s.hud(24, 60, now).into_iter().map(|l| l.text).collect()
    };
    assert_eq!(texts(&s, 0), ["no model loaded", "[M]enu  [Esc] library"]);
    s.loaded(Ok(info()));
    s.orthographic = true;
    s.note("hello".into(), 1_000);
    assert_eq!(
        texts(&s, 1_000 + STATUS_MILLIS - 1),
        [
            "a.vox",
            "1 model, 2 instances",
            "3 x 4 x 5",
            "12,345 voxels, 24 tris",
            "60 fps, load 6 ms, mesh 7 ms",
            "orthographic",
            "default palette (none in file)",
            "[M]enu  [Esc] library",
            "hello"
        ]
    );
    s.loaded(Err("bad\nworse".into()));
    let lines = s.hud(24, 60, 1_000 + STATUS_MILLIS);
    let last = lines.last().unwrap();
    assert_eq!((last.text.as_str(), last.color), ("error: bad", Color::Error));
    assert!(s.info.is_some(), "the last good scene stays");
}

#[test]
fn keys_in_the_library() {
    let mut s = scanned();
    let mut ui = Ui::new();
    ui.columns = 2;
    press(&mut s, &mut ui, Key::Down);
    assert_eq!((s.lib.cursor, ui.pending_scroll), (2, Some(2)));
    press(&mut s, &mut ui, Key::Home);
    assert_eq!(s.lib.cursor, 0);
    press(&mut s, &mut ui, Key::End);
    press(&mut s, &mut ui, Key::BracketLeft);
    assert_eq!(s.lib.selection, [1]);
    press(&mut s, &mut ui, Key::V);
    assert_eq!(s.lib.view, View::List);
    press(&mut s, &mut ui, Key::S);
    assert!(!s.lib.stack_variants);
    press(&mut s, &mut ui, Key::Slash);
    assert!(ui.focus_find);
    match press(&mut s, &mut ui, Key::P) {
        Work::Shots(list) => assert_eq!(list, files(&["root/b.vox"])),
        _ => panic!("P writes pictures"),
    }
    s.press(&mut ui, Some(Key::A), None, true, 0, NOW);
    assert_eq!(s.lib.selection.len(), 3);
    press(&mut s, &mut ui, Key::Space);
    press(&mut s, &mut ui, Key::C);
    s.lib.find = "a".into();
    // Escape undoes the overlay, then the filter, then the program.
    assert!(matches!(press(&mut s, &mut ui, Key::Escape), Work::Nothing));
    assert!(!ui.peek && !ui.prompt);
    assert!(matches!(press(&mut s, &mut ui, Key::Escape), Work::Nothing));
    assert!(s.lib.find.is_empty());
    assert!(matches!(press(&mut s, &mut ui, Key::Escape), Work::Exit));
    assert!(matches!(press(&mut s, &mut ui, Key::Q), Work::Exit));
    assert!(matches!(
        press(&mut s, &mut ui, Key::Enter),
        Work::Load(Framing::Reset)
    ));
    assert_eq!(s.mode, Mode::Viewer);
}

#[test]
fn keys_in_the_viewer() {
    let mut s = scanned();
    let mut ui = Ui::new();
    s.mode = Mode::Viewer;
    assert!(matches!(press(&mut s, &mut ui, Key::F), Work::Frame));
    assert!(matches!(press(&mut s, &mut ui, Key::Home), Work::Reset));
    assert!(matches!(press(&mut s, &mut ui, Key::P), Work::Shot));
    assert!(matches!(press(&mut s, &mut ui, Key::S), Work::Samples));
    assert!(matches!(press(&mut s, &mut ui, Key::R), Work::Load(Framing::Keep)));
    assert!(matches!(press(&mut s, &mut ui, Key::Seven), Work::Look(Axis::Top)));
    assert!(matches!(
        s.press(&mut ui, Some(Key::One), None, true, 5, NOW),
        Work::Look(Axis::Back)
    ));
    assert_eq!(s.status, Some(("back view".to_string(), 5)));
    press(&mut s, &mut ui, Key::Five);
    assert!(s.orthographic);
    assert_eq!(s.status.as_ref().unwrap().0, "orthographic");
    press(&mut s, &mut ui, Key::BracketRight);
    assert_eq!(s.index, 1);
    press(&mut s, &mut ui, Key::B);
    assert!(s.show_bbox);
    assert!(matches!(press(&mut s, &mut ui, Key::Escape), Work::Retitle));
    assert_eq!((s.mode, s.current), (Mode::Library, Some(1)));
}

#[test]
fn keys_in_the_menu() {
    let mut s = scanned();
    let mut ui = Ui::new();
    s.mode = Mode::Viewer;
    press(&mut s, &mut ui, Key::M);
    assert!(s.menu.is_open());
    assert!(matches!(
        press(&mut s, &mut ui, Key::Down),
        Work::Load(Framing::Reset)
    ));
    assert_eq!(s.index, 1);
    // A letter spells a filter; it is no shortcut now.
    let grid = s.show_grid;
    s.press(&mut ui, Some(Key::G), Some("g"), false, 0, NOW);
    assert_eq!((s.show_grid, s.menu.filter.as_str()), (grid, "g"));
    press(&mut s, &mut ui, Key::Backspace);
    assert!(s.menu.filter.is_empty());
    s.press(&mut ui, None, Some("c"), false, 0, NOW);
    assert_eq!(s.menu.filtered.len(), 1);
    assert!(matches!(
        press(&mut s, &mut ui, Key::Enter),
        Work::Load(Framing::Reset)
    ));
    assert_eq!(s.index, 2);
    assert!(!s.menu.is_open());
    press(&mut s, &mut ui, Key::Tab);
    s.press(&mut ui, None, Some("a"), false, 0, NOW);
    press(&mut s, &mut ui, Key::Escape);
    assert!(s.menu.is_open(), "the filter goes first");
    press(&mut s, &mut ui, Key::Escape);
    assert!(!s.menu.is_open());
}

#[test]
fn the_menu_swallows_clicks_and_the_wheel() {
    let mut s = scanned();
    let mut ui = Ui::new();
    s.mode = Mode::Viewer;
    assert!(s.menu_lines(&METRICS, (800, 600)).is_empty());
    press(&mut s, &mut ui, Key::M);
    assert!(!s.menu_lines(&METRICS, (800, 600)).is_empty());
    let b = s.menu.hit.unwrap();
    let x = b.x0 + 5;
    assert!(matches!(
        s.press_menu(x, b.first_row_top + b.line_h + 1),
        Some(Work::Load(Framing::Reset))
    ));
    assert_eq!(s.index, 1);
    assert!(matches!(s.press_menu(x, b.y0 + 1), Some(Work::Nothing)));
    assert!(s.press_menu(0, 0).is_none());
    assert!(s.wheel_menu(x, b.y0 + 1, 3));
    assert!(!s.wheel_menu(0, 0, 3));
}

#[test]
fn dragging_needs_a_button_and_somewhere_to_come_from() {
    let mut m = Mouse::default();
    assert_eq!(m.moved(), None);
    m.button(Button::Left, true);
    assert_eq!(m.moved(), Some(Drag::Orbit));
    m.button(Button::Left, false);
    assert_eq!(m.moved(), None, "the drag is over");
    m.button(Button::Middle, true);
    assert_eq!(m.moved(), Some(Drag::Pan));
    m.lost();
    assert_eq!(m.moved(), None);
    assert!(reaches_the_window(false, false) && reaches_the_window(true, true));
    assert!(!reaches_the_window(true, false));
}

#[test]
fn the_frame_rate_is_worked_out_every_half_second() {
    let mut fps = Fps::new(0);
    for i in 1..30 {
        fps.tick(i * 16_000);
    }
    assert_eq!(fps.value, 0);
    fps.tick(FPS_MICROS);
    assert_eq!((fps.value, fps.frames, fps.since), (60, 0, FPS_MICROS));
}

#[test]
fn a_scene_reports_its_own_numbers() {
    let bytes = voxview::fixtures::to_bytes(&voxview::fixtures::single_cube());
    let scene = voxview::loader::load_bytes(&bytes).unwrap();
    let i = SceneInfo::new(&path("x/cube.vox"), &scene, 1, 2);
    assert_eq!((i.name.as_str(), i.models, i.instances), ("cube.vox", 1, 1));
    assert_eq!(i.dimensions, IVec3::new(4, 4, 4));
    assert_eq!((i.voxels, i.default_palette), (64, false));
}
