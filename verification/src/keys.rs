//! What the keys do.

use vstd::prelude::*;

use crate::browse;
use crate::library::{Library, View};
use crate::menu;
use crate::menu::Menu;
use crate::panels;
use crate::paths;
use crate::rail;
use crate::rows;
use crate::session;
use crate::session::{Axis, Framing, Mode, Session};
use crate::text;
use crate::ui;
use crate::ui::{Toggle, Ui};
use crate::viewer;
use crate::viewer::{Work, WorkView};
use vstd::view::View as _;

verus! {

/// The keys that mean something. The digits and `Enter` are those of the
/// numpad too.
#[derive(Clone, Copy, Debug, PartialEq, Eq, Structural)]
pub enum Key {
    Escape,
    Tab,
    Enter,
    Backspace,
    Space,
    Slash,
    Home,
    End,
    PageUp,
    PageDown,
    Up,
    Down,
    Left,
    Right,
    BracketLeft,
    BracketRight,
    A,
    B,
    C,
    F,
    G,
    M,
    O,
    P,
    Q,
    R,
    S,
    T,
    V,
    One,
    Three,
    Five,
    Seven,
    Other,
}

// ---- while the menu is open -------------------------------------------------
/// Whether the menu claims a key.
pub open spec fn menu_takes(key: Key) -> bool {
    match key {
        Key::Escape
        | Key::Tab
        | Key::Up
        | Key::Down
        | Key::PageUp
        | Key::PageDown
        | Key::Enter
        | Key::Backspace => true,
        _ => false,
    }
}

/// How far a key moves the menu's cursor.
pub open spec fn menu_step(menu: Menu, key: Key) -> int {
    match key {
        Key::Up => -1,
        Key::Down => 1,
        Key::PageUp => -menu.page_size(),
        Key::PageDown => menu.page_size(),
        _ => 0,
    }
}

/// A session with its menu closed.
pub open spec fn menu_closed(s: Session) -> Session {
    Session { menu: (Menu { open: false, hit: None, ..s.menu }), ..s }
}

/// Whether one session is another with a new filter in its menu.
pub open spec fn refiltered(now: Session, was: Session, filter: Seq<char>) -> bool {
    &&& now == (Session { menu: now.menu, ..was })
    &&& now.menu.open == was.menu.open
    &&& now.menu.refiltered(was.menu, filter, was.names@)
}

/// Whether one session is another after the cursor of its menu moved: the file
/// it lands on is shown, so arrowing through the list previews each file as you
/// pass it.
pub open spec fn menu_moved(now: Session, was: Session, step: int, work: WorkView) -> bool {
    if was.menu.filtered@.len() == 0 {
        now == was && work == WorkView::Nothing
    } else {
        let at = menu::clamped(was.menu.cursor + step, 0, was.menu.filtered@.len() - 1);
        let file = was.menu.filtered@[at];
        let on = Session { menu: (Menu { cursor: at as usize, ..was.menu }), ..was };
        viewer::turned_to(now, on, file) && work == viewer::turn_work(on, file)
    }
}

/// Whether one session is another after its menu took a key.
///
/// Escape undoes the last thing you did: it drops the filter if there is one,
/// and only then closes the menu.
pub open spec fn menu_pressed(now: Session, was: Session, key: Key, work: WorkView) -> bool {
    match key {
        Key::Escape => {
            &&& work == WorkView::Nothing
            &&& if was.menu.filter@.len() > 0 {
                refiltered(now, was, Seq::empty())
            } else {
                now == menu_closed(was)
            }
        },
        Key::Tab => now == menu_closed(was) && work == WorkView::Nothing,
        Key::Backspace => {
            &&& work == WorkView::Nothing
            &&& if was.menu.filter@.len() > 0 {
                refiltered(now, was, was.menu.filter@.drop_last())
            } else {
                now == was
            }
        },
        Key::Enter => match was.menu.chosen() {
            Some(file) => {
                let shown = Session {
                    index: if file < was.files@.len() {
                        file
                    } else {
                        was.index
                    },
                    menu: (Menu {
                        cursor: now.menu.cursor,
                        ..was.menu
                    }),
                    ..was
                };
                &&& work == viewer::turn_work(was, file)
                &&& viewer::turned_to(shown, was, file)
                &&& now == menu_closed(shown)
            },
            None => now == menu_closed(was) && work == WorkView::Nothing,
        },
        _ => menu_moved(now, was, menu_step(was.menu, key), work),
    }
}

impl Session {
    /// Move the menu cursor and show whatever it lands on.
    fn step_menu(&mut self, step: isize) -> (r: Work)
        requires
            old(self).wf(),
        ensures
            final(self).wf(),
            menu_moved(*final(self), *old(self), step as int, r@),
    {
        match self.menu.step(step) {
            Some(index) => self.show(index),
            None => Work::Nothing,
        }
    }

    /// Keys the menu claims while it is open. Returns nothing where it did not
    /// take one.
    pub fn menu_key(&mut self, key: Key) -> (r: Option<Work>)
        requires
            old(self).wf(),
        ensures
            final(self).wf(),
            r is Some <==> menu_takes(key),
            match r {
                Some(work) => menu_pressed(*final(self), *old(self), key, work@),
                None => *final(self) == *old(self),
            },
    {
        match key {
            Key::Escape => {
                if !self.menu.filter_clear(self.names.as_slice()) {
                    self.menu.close();
                }
                Some(Work::Nothing)
            },
            Key::Tab => {
                self.menu.close();
                Some(Work::Nothing)
            },
            Key::Up => Some(self.step_menu(-1)),
            Key::Down => Some(self.step_menu(1)),
            Key::PageUp => {
                let page: isize = self.menu.page();
                Some(self.step_menu(-page))
            },
            Key::PageDown => {
                let page: isize = self.menu.page();
                Some(self.step_menu(page))
            },
            Key::Enter => {
                let work = match self.menu.selection() {
                    Some(index) => self.show(index),
                    None => Work::Nothing,
                };
                self.menu.close();
                Some(work)
            },
            Key::Backspace => {
                self.menu.filter_pop(self.names.as_slice());
                Some(Work::Nothing)
            },
            _ => None,
        }
    }
}

// ---- while the library is up ------------------------------------------------
/// How far a key moves the library's cursor: one row, one line of the grid, or
/// farther than any listing goes.
pub open spec fn grid_step(key: Key, columns: int) -> Option<int> {
    match key {
        Key::Left | Key::BracketLeft => Some(-1),
        Key::Right | Key::BracketRight => Some(1),
        Key::Up => Some(-columns),
        Key::Down => Some(columns),
        Key::Home => Some(isize::MIN as int / 2),
        Key::End => Some(isize::MAX as int / 2),
        _ => None,
    }
}

/// The columns a step counts in.
pub open spec fn columns_of(ui: Ui) -> int {
    if ui.columns == 0 {
        1
    } else {
        ui.columns as int
    }
}

/// Whether one library is another that nothing narrows down any more.
pub open spec fn unfiltered(now: Library, was: Library) -> bool {
    &&& now.facets.none()
    &&& now.find@.len() == 0
    &&& now == (Library { facets: now.facets, find: now.find, cache: None, ..was })
}

/// Whether a session and its browser are others after a key that is no step.
///
/// Escape undoes the last thing you did: an overlay, then the filters, then the
/// program.
pub open spec fn library_pressed(
    now: Session,
    was: Session,
    ui: Ui,
    ui_was: Ui,
    key: Key,
    ctrl: bool,
    time: i64,
    work: WorkView,
) -> bool {
    match key {
        Key::Escape => if ui_was.peek || ui_was.prompt {
            &&& ui == (Ui { peek: false, prompt: false, ..ui_was })
            &&& now == was
            &&& work == WorkView::Nothing
        } else if !was.lib.facets.none() || was.lib.find@.len() > 0 {
            &&& ui == ui_was
            &&& now == (Session { lib: now.lib, ..was })
            &&& unfiltered(now.lib, was.lib)
            &&& work == WorkView::Nothing
        } else {
            ui == ui_was && now == was && work == WorkView::Exit
        },
        Key::Q => ui == ui_was && now == was && work == WorkView::Exit,
        Key::Slash => {
            &&& ui == (Ui { focus_find: true, ..ui_was })
            &&& now == was
            &&& work == WorkView::Nothing
        },
        Key::Enter => {
            &&& ui == ui_was
            &&& if was.lib.selection@.len() > 0 {
                let asset = was.lib.selection@.last();
                &&& viewer::opened(now, was, asset, time)
                &&& work == (if browse::shown(was.lib, time).contains(asset) {
                    WorkView::Load(Framing::Reset)
                } else {
                    WorkView::Nothing
                })
            } else {
                now == was && work == WorkView::Nothing
            }
        },
        Key::Space => {
            &&& ui == (Ui { peek: !ui_was.peek, ..ui_was })
            &&& now == was
            &&& work == WorkView::Nothing
        },
        Key::C => {
            &&& ui == (Ui { prompt: true, ..ui_was })
            &&& now == was
            &&& work == WorkView::Nothing
        },
        Key::V => {
            let view = match was.lib.view {
                View::Grid => View::List,
                View::List => View::Grid,
            };
            &&& ui == ui_was
            &&& now == (Session { lib: (Library { view, ..was.lib }), ..was })
            &&& work == WorkView::Nothing
        },
        Key::S => {
            let lib = Library {
                stack_variants: !was.lib.stack_variants,
                cache: None,
                ..was.lib
            };
            ui == ui_was && now == (Session { lib, ..was }) && work == WorkView::Nothing
        },
        Key::A if ctrl => {
            &&& ui == ui_was
            &&& now.lib.selection@ == browse::shown(was.lib, time)
            &&& now.lib.anchor == (if now.lib.selection@.len() == 0 {
                None
            } else {
                Some(now.lib.selection@[0])
            })
            &&& now == (Session {
                lib: (Library {
                    selection: now.lib.selection,
                    anchor: now.lib.anchor,
                    ..was.lib
                }),
                ..was
            })
            &&& work == WorkView::Nothing
        },
        Key::P => {
            let list = was.lib.selection@;
            &&& ui == ui_was && now == was
            &&& work == WorkView::Shots(
                ui::known_paths(was.lib.assets@, list, list.len() as int),
            )
        },
        _ => ui == ui_was && now == was && work == WorkView::Nothing,
    }
}

/// Whether a session and its browser are others after a key in the library.
pub open spec fn in_library(
    now: Session,
    was: Session,
    ui: Ui,
    ui_was: Ui,
    key: Key,
    ctrl: bool,
    time: i64,
    work: WorkView,
) -> bool {
    match grid_step(key, columns_of(ui_was)) {
        Some(step) => {
            let delta = step as isize;
            &&& now == (Session { lib: now.lib, ..was })
            &&& rows::moved(now.lib, was.lib, delta, time)
            &&& ui == (match rows::landed(was.lib, delta, time) {
                Some(row) => Ui { pending_scroll: Some(row), ..ui_was },
                None => ui_was,
            })
            &&& work == WorkView::Nothing
        },
        None => library_pressed(now, was, ui, ui_was, key, ctrl, time, work),
    }
}

fn step_of(key: Key, columns: isize) -> (r: Option<isize>)
    requires
        columns >= 1,
    ensures
        r is Some <==> grid_step(key, columns as int) is Some,
        r matches Some(step) ==> grid_step(key, columns as int) == Some(step as int),
{
    match key {
        Key::Left | Key::BracketLeft => Some(-1),
        Key::Right | Key::BracketRight => Some(1),
        Key::Up => Some(-columns),
        Key::Down => Some(columns),
        Key::Home => Some(-(isize::MAX / 2) - 1),
        Key::End => Some(isize::MAX / 2),
        _ => None,
    }
}

impl Session {
    /// Keys while the grid is up. The viewer's own bindings are left alone.
    pub fn library_key(&mut self, ui: &mut Ui, key: Key, ctrl: bool, time: i64) -> (r: Work)
        requires
            old(self).wf(),
            old(ui).wf(),
        ensures
            final(self).wf(),
            final(ui).wf(),
            in_library(
                *final(self),
                *old(self),
                *final(ui),
                *old(ui),
                key,
                ctrl,
                time,
                r@,
            ),
    {
        let columns: isize = ui.columns() as isize;
        match step_of(key, columns) {
            Some(step) => {
                if let Some(row) = self.lib.move_cursor(step, time) {
                    ui.scroll_to_row(row);
                }
                Work::Nothing
            },
            None => self.command(ui, key, ctrl, time),
        }
    }

    fn undo_last(&mut self, ui: &mut Ui) -> (r: Work)
        requires
            old(self).wf(),
            old(ui).wf(),
        ensures
            final(self).wf(),
            final(ui).wf(),
            library_pressed(
                *final(self),
                *old(self),
                *final(ui),
                *old(ui),
                Key::Escape,
                false,
                0,
                r@,
            ),
    {
        if ui.close_overlay() {
            return Work::Nothing;
        }
        if panels::is_narrowed(&self.lib) {
            self.lib.clear_filters();
            return Work::Nothing;
        }
        Work::Exit
    }

    #[verifier::spinoff_prover]
    fn command(&mut self, ui: &mut Ui, key: Key, ctrl: bool, time: i64) -> (r: Work)
        requires
            old(self).wf(),
            old(ui).wf(),
        ensures
            final(self).wf(),
            final(ui).wf(),
            grid_step(key, 1) is None ==> library_pressed(
                *final(self),
                *old(self),
                *final(ui),
                *old(ui),
                key,
                ctrl,
                time,
                r@,
            ),
    {
        match key {
            Key::Escape => self.undo_last(ui),
            Key::Q => Work::Exit,
            Key::Slash => {
                ui.focus_find();
                Work::Nothing
            },
            Key::Enter => match self.lib.focused() {
                Some(asset) => self.open(asset, time),
                None => Work::Nothing,
            },
            Key::Space => {
                ui.toggle_peek();
                Work::Nothing
            },
            Key::C => {
                ui.prompt_collection();
                Work::Nothing
            },
            Key::V => {
                self.lib.view = match self.lib.view {
                    View::Grid => View::List,
                    View::List => View::Grid,
                };
                Work::Nothing
            },
            Key::S => {
                ui::flip_stacking(&mut self.lib);
                Work::Nothing
            },
            Key::A => {
                if ctrl {
                    self.lib.select_all(time);
                }
                Work::Nothing
            },
            Key::P => {
                let list = ui::targets(&self.lib);
                Work::Shots(ui::paths_of(&self.lib, list.as_slice()))
            },
            _ => Work::Nothing,
        }
    }
}

// ---- while the viewer is up -------------------------------------------------
/// The side a digit looks from; the opposite one while Ctrl is down.
pub open spec fn side_of(key: Key, ctrl: bool) -> Option<Axis> {
    let axis = match key {
        Key::One => Some(Axis::Front),
        Key::Three => Some(Axis::Right),
        Key::Seven => Some(Axis::Top),
        _ => None,
    };
    match axis {
        Some(a) => Some(
            if ctrl {
                a.other_side()
            } else {
                a
            },
        ),
        None => None,
    }
}

/// What the status line says of a view.
pub open spec fn side_text(axis: Axis) -> Seq<char> {
    match axis {
        Axis::Front => "front view"@,
        Axis::Back => "back view"@,
        Axis::Right => "right view"@,
        Axis::Left => "left view"@,
        Axis::Top => "top view"@,
        Axis::Bottom => "bottom view"@,
    }
}

/// Whether one menu is another that was opened on a file, or closed.
pub open spec fn menu_toggled(now: Menu, was: Menu, names: Seq<String>, current: usize) -> bool {
    if was.open {
        now == (Menu { open: false, hit: None, ..was })
    } else {
        &&& now.open
        &&& now.filter@.len() == 0
        &&& now.filtered@ == menu::matching(Seq::empty(), names, names.len() as int)
        &&& now.cursor == (match now.filtered@.index_of_first(current) {
            Some(at) => at,
            None => menu::place_of(now.filtered@, was.chosen()),
        })
        &&& now.scroll == menu::least(was.scroll as int, now.farthest())
        &&& now.hit == was.hit
    }
}

/// Whether one session is another after a step through its files.
pub open spec fn cycled(now: Session, was: Session, step: int, time: u64, work: WorkView) -> bool {
    if was.files@.len() < 2 {
        work == WorkView::Nothing && viewer::noted(
            now,
            was,
            "only one .vox file in this directory"@,
            time,
        )
    } else {
        let next = viewer::step_from(was.index, step, was.files@.len()) as usize;
        viewer::turned_to(now, was, next) && work == viewer::turn_work(was, next)
    }
}

/// Whether one session is another after a key in the viewer.
pub open spec fn in_viewer(
    now: Session,
    was: Session,
    key: Key,
    ctrl: bool,
    time: u64,
    work: WorkView,
) -> bool {
    match key {
        // Escape steps back to the grid; only Q leaves outright.
        Key::Escape => {
            &&& session::opt_int(now.current) == rail::asset_at(
                was.lib.assets@,
                was.files@[was.index as int]@,
                0,
            )
            &&& now == (Session { current: now.current, mode: Mode::Library, ..was })
            &&& work == WorkView::Retitle
        },
        Key::Q => now == was && work == WorkView::Exit,
        Key::F => now == was && work == WorkView::Frame,
        Key::Home => now == was && work == WorkView::Reset,
        Key::G => now == was.switched(Toggle::Grid) && work == WorkView::Nothing,
        Key::B => now == was.switched(Toggle::Bbox) && work == WorkView::Nothing,
        Key::A => now == was.switched(Toggle::Axes) && work == WorkView::Nothing,
        Key::O => now == was.switched(Toggle::Occlusion) && work == WorkView::Nothing,
        Key::S => now == was && work == WorkView::Samples,
        Key::T => now == was.switched(Toggle::Background) && work == WorkView::Nothing,
        Key::P => now == was && work == WorkView::Shot,
        Key::M | Key::Tab => {
            &&& menu_toggled(now.menu, was.menu, was.names@, was.index)
            &&& now == (Session { menu: now.menu, ..was })
            &&& work == WorkView::Nothing
        },
        Key::BracketLeft => cycled(now, was, -1, time, work),
        Key::BracketRight => cycled(now, was, 1, time, work),
        Key::R => now == was && work == WorkView::Load(Framing::Keep),
        Key::One | Key::Three | Key::Seven => {
            let axis = side_of(key, ctrl)->0;
            viewer::noted(now, was, side_text(axis), time) && work == WorkView::Look(axis)
        },
        Key::Five => {
            let word = if was.orthographic {
                "perspective"@
            } else {
                "orthographic"@
            };
            &&& viewer::noted(now, was.switched(Toggle::Orthographic), word, time)
            &&& work == WorkView::Nothing
        },
        _ => now == was && work == WorkView::Nothing,
    }
}

impl Session {
    /// Swing to an axis, or to the opposite one when Ctrl is down.
    fn look_along(&mut self, axis: Axis, ctrl: bool, now: u64) -> (r: Work)
        requires
            old(self).wf(),
        ensures
            final(self).wf(),
            ({
                let to = if ctrl {
                    axis.other_side()
                } else {
                    axis
                };
                viewer::noted(*final(self), *old(self), side_text(to), now) && r@
                    == WorkView::Look(to)
            }),
    {
        let to = if ctrl {
            axis.opposite()
        } else {
            axis
        };
        self.note(text::copied(to.label()), now);
        Work::Look(to)
    }

    /// Keys while the viewer is up.
    ///
    /// The digits are Blender's numpad views, on the numpad and on the digit
    /// row for the laptops that have no numpad. Ctrl gives the opposite side,
    /// which is the convention people already have in their fingers.
    pub fn key(&mut self, key: Key, ctrl: bool, now: u64) -> (r: Work)
        requires
            old(self).wf(),
        ensures
            final(self).wf(),
            in_viewer(*final(self), *old(self), key, ctrl, now, r@),
    {
        match key {
            Key::Escape => {
                self.sync_current();
                self.mode = Mode::Library;
                Work::Retitle
            },
            Key::Q => Work::Exit,
            Key::F => Work::Frame,
            Key::Home => Work::Reset,
            Key::G => self.toggle(Toggle::Grid),
            Key::B => self.toggle(Toggle::Bbox),
            Key::A => self.toggle(Toggle::Axes),
            Key::O => self.toggle(Toggle::Occlusion),
            Key::S => Work::Samples,
            Key::T => self.toggle(Toggle::Background),
            Key::P => Work::Shot,
            Key::M | Key::Tab => {
                self.menu.toggle(self.names.as_slice(), self.index);
                Work::Nothing
            },
            Key::BracketLeft => self.cycle(-1, now),
            Key::BracketRight => self.cycle(1, now),
            Key::R => Work::Load(Framing::Keep),
            Key::One => self.look_along(Axis::Front, ctrl, now),
            Key::Three => self.look_along(Axis::Right, ctrl, now),
            Key::Seven => self.look_along(Axis::Top, ctrl, now),
            Key::Five => {
                self.orthographic = !self.orthographic;
                let word = if self.orthographic {
                    "orthographic"
                } else {
                    "perspective"
                };
                self.note(text::copied(word), now);
                Work::Nothing
            },
            _ => Work::Nothing,
        }
    }
}

// ---- one press --------------------------------------------------------------
/// Whether a session and its browser are others after a key press.
///
/// An open menu sees it first. What it does not claim and can be typed spells a
/// filter: the overlay shortcuts are single letters, so they have to give way
/// while the menu has the keyboard.
pub open spec fn pressed(
    now: Session,
    was: Session,
    ui: Ui,
    ui_was: Ui,
    key: Option<Key>,
    typed: Option<char>,
    ctrl: bool,
    millis: u64,
    time: i64,
    work: WorkView,
) -> bool {
    if was.menu.open && key is Some && menu_takes(key->0) {
        ui == ui_was && menu_pressed(now, was, key->0, work)
    } else if was.menu.open && typed is Some {
        &&& ui == ui_was
        &&& refiltered(now, was, was.menu.filter@.push(paths::lower_char(typed->0)))
        &&& work == WorkView::Nothing
    } else {
        match key {
            Some(key) => match was.mode {
                Mode::Library => in_library(now, was, ui, ui_was, key, ctrl, time, work),
                Mode::Viewer => ui == ui_was && in_viewer(now, was, key, ctrl, millis, work),
            },
            None => ui == ui_was && now == was && work == WorkView::Nothing,
        }
    }
}

/// The character a key press types.
pub open spec fn typed(s: Option<Seq<char>>) -> Option<char> {
    match s {
        Some(s) if s.len() == 1 && !session::is_control(s[0]) => Some(s[0]),
        _ => None,
    }
}

impl Session {
    /// Deal with a key press: what key it was, if it is one that has a name,
    /// and what it spells, if anything.
    pub fn press(
        &mut self,
        ui: &mut Ui,
        key: Option<Key>,
        spelled: Option<&str>,
        ctrl: bool,
        now: u64,
        time: i64,
    ) -> (r: Work)
        requires
            old(self).wf(),
            old(ui).wf(),
        ensures
            final(self).wf(),
            final(ui).wf(),
            pressed(
                *final(self),
                *old(self),
                *final(ui),
                *old(ui),
                key,
                typed(
                    match spelled {
                        Some(s) => Some(s@),
                        None => None,
                    },
                ),
                ctrl,
                now,
                time,
                r@,
            ),
    {
        if self.menu.is_open() {
            if let Some(key) = key {
                if let Some(work) = self.menu_key(key) {
                    return work;
                }
            }
            if let Some(s) = spelled {
                if let Some(c) = session::printable(s) {
                    self.menu.filter_push(c, self.names.as_slice());
                    return Work::Nothing;
                }
            }
        }
        match key {
            Some(key) => match self.mode {
                Mode::Library => self.library_key(ui, key, ctrl, time),
                Mode::Viewer => self.key(key, ctrl, now),
            },
            None => Work::Nothing,
        }
    }
}

// ---- laws -------------------------------------------------------------------
/// Escape in the library leaves only where there is nothing left to undo: no
/// overlay is up and nothing narrows the listing down.
pub proof fn lemma_escape_leaves_last(
    now: Session,
    was: Session,
    ui: Ui,
    ui_was: Ui,
    ctrl: bool,
    time: i64,
    work: WorkView,
)
    requires
        in_library(now, was, ui, ui_was, Key::Escape, ctrl, time, work),
    ensures
        work == WorkView::Exit <==> !ui_was.peek && !ui_was.prompt && was.lib.facets.none()
            && was.lib.find@.len() == 0,
        work != WorkView::Exit ==> work == WorkView::Nothing,
        ui_was.peek || ui_was.prompt ==> now == was,
{
}

/// Escape in the viewer never leaves the program: it steps back to the library.
pub proof fn lemma_escape_steps_back_from_the_viewer(
    now: Session,
    was: Session,
    ctrl: bool,
    millis: u64,
    work: WorkView,
)
    requires
        in_viewer(now, was, Key::Escape, ctrl, millis, work),
    ensures
        now.mode == Mode::Library,
        work == WorkView::Retitle,
        now.lib == was.lib,
{
}

/// While the menu is open a letter spells a filter and nothing else: no
/// shortcut fires and no file is loaded.
pub proof fn lemma_letters_spell_a_filter(
    now: Session,
    was: Session,
    ui: Ui,
    ui_was: Ui,
    key: Option<Key>,
    c: char,
    ctrl: bool,
    millis: u64,
    time: i64,
    work: WorkView,
)
    requires
        was.menu.open,
        key matches Some(k) ==> !menu_takes(k),
        pressed(now, was, ui, ui_was, key, Some(c), ctrl, millis, time, work),
    ensures
        ui == ui_was,
        now == (Session { menu: now.menu, ..was }),
        now.menu.open,
        now.menu.filter@ == was.menu.filter@.push(paths::lower_char(c)),
        work == WorkView::Nothing,
{
}

/// Moving the menu's cursor previews: the file under the cursor is the file on
/// screen afterwards, wherever the menu lists files and none of them twice.
pub proof fn lemma_moving_in_the_menu_previews(now: Session, was: Session, step: int, work: WorkView)
    requires
        menu_moved(now, was, step, work),
        was.menu.filtered@.len() > 0,
        was.menu.filtered@.no_duplicates(),
        was.menu.lists(was.files@.len()),
    ensures
        now.menu.chosen() == Some(now.index),
        now.menu.cursor == menu::clamped(
            was.menu.cursor + step,
            0,
            was.menu.filtered@.len() - 1,
        ),
{
    let list = was.menu.filtered@;
    assert(was.menu.filtered.len() == list.len());
    let at = menu::clamped(was.menu.cursor + step, 0, list.len() - 1);
    assert(list[at] < was.files@.len());
    list.index_of_first_ensures(list[at]);
    let first = list.index_of_first(list[at])->0;
    assert(list[first] == list[at]);
}

// ---- what the keys do -------------------------------------------------------
/// The arrows go one row or one line of rows, back undoes forth, and Home and
/// End reach the first row and the last from anywhere.
pub proof fn lemma_arrows_go_where_they_point(columns: int, cursor: usize, len: nat)
    requires
        columns >= 1,
        cursor < len <= isize::MAX / 2,
    ensures
        grid_step(Key::Left, columns) == Some(-1int),
        grid_step(Key::Right, columns) == Some(1int),
        grid_step(Key::Up, columns) == Some(-columns),
        grid_step(Key::Down, columns) == Some(columns),
        grid_step(Key::BracketLeft, columns) == grid_step(Key::Left, columns),
        grid_step(Key::BracketRight, columns) == grid_step(Key::Right, columns),
        grid_step(Key::Home, columns) is Some && grid_step(Key::End, columns) is Some,
        rows::stepped(cursor, grid_step(Key::Home, columns)->0 as isize, len) == 0,
        rows::stepped(cursor, grid_step(Key::End, columns)->0 as isize, len) == len - 1,
{
}

/// In the menu Escape first takes back what was typed and only then closes,
/// Tab closes at once, Backspace takes back one character, and Enter closes on
/// the file under the cursor.
pub proof fn lemma_the_menus_keys(now: Session, was: Session, key: Key, work: WorkView)
    requires
        menu_pressed(now, was, key, work),
        was.menu.open,
    ensures
        key is Escape && was.menu.filter@.len() > 0 ==> now.menu.open && now.menu.filter@.len()
            == 0,
        key is Escape && was.menu.filter@.len() == 0 ==> !now.menu.open,
        key is Tab ==> !now.menu.open && now.menu.filter == was.menu.filter,
        key is Backspace ==> now.menu.open && now.menu.filter@ == (if was.menu.filter@.len() > 0 {
            was.menu.filter@.drop_last()
        } else {
            was.menu.filter@
        }),
        key is Enter ==> !now.menu.open,
        key is Enter ==> (was.menu.chosen() matches Some(f) ==> f < was.files@.len() ==> now.index
            == f && (work == WorkView::Load(Framing::Reset) <==> f != was.index)),
        key is Escape || key is Tab || key is Backspace ==> now.index == was.index && work
            == WorkView::Nothing,
        key is Up && 0 < was.menu.cursor < was.menu.filtered@.len() && was.menu.lists(
            was.files@.len(),
        ) ==> now.index == was.menu.filtered@[was.menu.cursor - 1],
        key is Down && was.menu.cursor + 1 < was.menu.filtered@.len() && was.menu.lists(
            was.files@.len(),
        ) ==> now.index == was.menu.filtered@[was.menu.cursor + 1],
{
}

/// In the viewer each letter turns its own switch and leaves the others.
pub proof fn lemma_letters_turn_their_switches(
    now: Session,
    was: Session,
    key: Key,
    ctrl: bool,
    millis: u64,
    work: WorkView,
)
    requires
        in_viewer(now, was, key, ctrl, millis, work),
    ensures
        now.show_grid == (was.show_grid != (key is G)),
        now.show_bbox == (was.show_bbox != (key is B)),
        now.show_axes == (was.show_axes != (key is A)),
        now.ambient_occlusion == (was.ambient_occlusion != (key is O)),
        now.orthographic == (was.orthographic != (key is Five)),
        (now.background != was.background) == (key is T),
        (now.mode == Mode::Library && was.mode == Mode::Viewer) ==> key is Escape,
        work == WorkView::Exit <==> key is Q,
        work == WorkView::Samples <==> key is S,
        work == WorkView::Shot <==> key is P,
        work == WorkView::Frame <==> key is F,
        work == WorkView::Reset <==> key is Home,
        work == WorkView::Load(Framing::Keep) <==> key is R,
        work is Look <==> key is One || key is Three || key is Seven,
        key is One ==> work == WorkView::Look(
            if ctrl {
                Axis::Back
            } else {
                Axis::Front
            },
        ),
        key is Three ==> work == WorkView::Look(
            if ctrl {
                Axis::Left
            } else {
                Axis::Right
            },
        ),
        key is Seven ==> work == WorkView::Look(
            if ctrl {
                Axis::Bottom
            } else {
                Axis::Top
            },
        ),
        key is M || key is Tab ==> now.menu.open == !was.menu.open,
        now.lib == was.lib && now.files == was.files,
{
}

/// The brackets turn to the file before and after, from the first to the last
/// and from the last to the first.
pub proof fn lemma_brackets_turn_the_page(
    now: Session,
    was: Session,
    key: Key,
    ctrl: bool,
    millis: u64,
    work: WorkView,
)
    requires
        in_viewer(now, was, key, ctrl, millis, work),
        was.index < was.files@.len(),
        was.files@.len() >= 2,
    ensures
        key is BracketRight ==> now.index == (if was.index + 1 == was.files@.len() {
            0
        } else {
            was.index + 1
        }),
        key is BracketLeft ==> now.index == (if was.index == 0 {
            was.files@.len() - 1
        } else {
            was.index - 1
        }),
        key is BracketLeft || key is BracketRight ==> work == WorkView::Load(Framing::Reset),
        !(key is BracketLeft || key is BracketRight) ==> now.index == was.index,
{
    assert(was.files.len() == was.files@.len());
    let n = was.files@.len() as int;
    if key is BracketRight {
        if was.index + 1 == n {
            vstd::arithmetic::div_mod::lemma_mod_self_0(n);
        } else {
            vstd::arithmetic::div_mod::lemma_small_mod((was.index + 1) as nat, n as nat);
        }
    } else if key is BracketLeft {
        if was.index == 0 {
            vstd::arithmetic::div_mod::lemma_mod_add_multiples_vanish(-1, n);
            vstd::arithmetic::div_mod::lemma_small_mod((n - 1) as nat, n as nat);
        } else {
            vstd::arithmetic::div_mod::lemma_small_mod((was.index - 1) as nat, n as nat);
        }
    }
}

/// In the library each command does its own thing: V turns between grid and
/// list, S turns stacking, Space the large view, C asks for a collection, the
/// slash goes to the find field, control with A selects what is shown, P takes
/// pictures of what is selected, and Q leaves.
pub proof fn lemma_the_librarys_commands(
    now: Session,
    was: Session,
    ui: Ui,
    ui_was: Ui,
    key: Key,
    ctrl: bool,
    time: i64,
    work: WorkView,
)
    requires
        in_library(now, was, ui, ui_was, key, ctrl, time, work),
    ensures
        now.lib.view != was.lib.view <==> key is V,
        now.lib.stack_variants != was.lib.stack_variants <==> key is S,
        key is S ==> now.lib.cache is None,
        key is Space ==> ui.peek == !ui_was.peek && now == was,
        key is C ==> ui.prompt && now == was,
        key is Slash ==> ui.focus_find && now == was,
        key is A && ctrl ==> now.lib.selection@ == browse::shown(was.lib, time),
        key is A && !ctrl ==> now == was && ui == ui_was,
        key is P ==> (work matches WorkView::Shots(files) && files == ui::known_paths(
            was.lib.assets@,
            was.lib.selection@,
            was.lib.selection@.len() as int,
        )),
        key is Q ==> work == WorkView::Exit,
        work == WorkView::Exit ==> key is Q || key is Escape,
        key is Enter && was.lib.selection@.len() > 0 && browse::shown(was.lib, time).contains(
            was.lib.selection@.last(),
        ) ==> now.mode == Mode::Viewer && now.current == Some(was.lib.selection@.last()),
        now.mode != was.mode ==> key is Enter,
        key is Other ==> now == was && ui == ui_was && work == WorkView::Nothing,
{
}

/// A text that is one character and no control character is typed; anything
/// else is not.
pub proof fn lemma_what_is_typed(s: Seq<char>)
    ensures
        typed(None) is None,
        s.len() != 1 ==> typed(Some(s)) is None,
        s.len() == 1 && ' ' <= s[0] <= '~' ==> typed(Some(s)) == Some(s[0]),
        s.len() == 1 && (s[0] as u32) < 32 ==> typed(Some(s)) is None,
{
}

} // verus!
