//! Moving through the files, and what the viewer says of the one on screen.

use vstd::prelude::*;

use crate::browse;
use crate::gfx::Background;
use crate::hud;
use crate::hud::{Color, HudLine, LineView, Metrics};
use crate::library::Library;
use crate::menu;
use crate::menu::Menu;
use crate::names;
use crate::panels;
use crate::paths;
use crate::paths::{FilePath, PathView};
use crate::selection;
use crate::session;
use crate::session::{Axis, Framing, Mode, SceneInfo, Session, STATUS_MILLIS};
use crate::text;
use crate::ui;
use crate::ui::{Action, Toggle};
use vstd::view::View as _;

verus! {

/// What is left to do, outside, once a key or a click was dealt with.
#[derive(Clone, Debug)]
pub enum Work {
    Nothing,
    /// Read the file being shown. Where the camera is to be reset it is another
    /// file, so it is also the one to watch and to name in the title bar.
    Load(Framing),
    /// Say in the title bar which face is up.
    Retitle,
    /// Leave the program.
    Exit,
    /// Bring the whole scene into view, from the angles the camera has.
    Frame,
    /// Bring the whole scene into view, from the angles it starts with.
    Reset,
    /// Swing the camera to one side.
    Look(Axis),
    /// Go to the next multisample count.
    Samples,
    /// Write a PNG of what is on screen.
    Shot,
    /// Write a PNG next to each of these files.
    Shots(Vec<FilePath>),
}

/// The work, where lists of files are what they name.
pub enum WorkView {
    Nothing,
    Load(Framing),
    Retitle,
    Exit,
    Frame,
    Reset,
    Look(Axis),
    Samples,
    Shot,
    Shots(Seq<PathView>),
}

impl vstd::view::View for Work {
    type V = WorkView;

    open spec fn view(&self) -> WorkView {
        match *self {
            Work::Nothing => WorkView::Nothing,
            Work::Load(f) => WorkView::Load(f),
            Work::Retitle => WorkView::Retitle,
            Work::Exit => WorkView::Exit,
            Work::Frame => WorkView::Frame,
            Work::Reset => WorkView::Reset,
            Work::Look(a) => WorkView::Look(a),
            Work::Samples => WorkView::Samples,
            Work::Shot => WorkView::Shot,
            Work::Shots(files) => WorkView::Shots(paths::views(files@)),
        }
    }
}

// ---- which file -------------------------------------------------------------
/// Whether one session is another on a file of its listing. A place that is
/// not in the listing, and the one already shown, change nothing.
pub open spec fn turned_to(now: Session, was: Session, index: usize) -> bool {
    if index < was.files@.len() && index != was.index {
        &&& now == (Session {
            index,
            menu: (Menu { cursor: now.menu.cursor, ..was.menu }),
            ..was
        })
        &&& now.menu.cursor == (match was.menu.filtered@.index_of_first(index) {
            Some(at) => at,
            None => was.menu.cursor as int,
        })
    } else {
        now == was
    }
}

/// What showing a file leaves to do.
pub open spec fn turn_work(was: Session, index: usize) -> WorkView {
    if index < was.files@.len() && index != was.index {
        WorkView::Load(Framing::Reset)
    } else {
        WorkView::Nothing
    }
}

/// The file some steps on in a listing, round its end.
pub open spec fn step_from(index: usize, step: int, len: nat) -> int {
    (index + step) % (len as int)
}

/// A session with a message up.
pub open spec fn noted(now: Session, was: Session, note: Seq<char>, time: u64) -> bool {
    &&& now.status matches Some(s) && s.0@ == note && s.1 == time
    &&& now == (Session { status: now.status, ..was })
}

fn wrapped_step(index: usize, step: isize, len: usize) -> (r: usize)
    requires
        index < len,
    ensures
        r == step_from(index, step as int, len as nat),
{
    let n: i128 = len as i128;
    let size: i128 = if step < 0 {
        -(step as i128)
    } else {
        step as i128
    };
    let part: i128 = (size as u128 % len as u128) as i128;
    proof {
        vstd::arithmetic::div_mod::lemma_fundamental_div_mod(size as int, n as int);
    }
    let ghost q = size as int / n as int;
    assert(size as int == n as int * q + part as int);
    let sum: i128 = if step < 0 {
        index as i128 - part
    } else {
        index as i128 + part
    };
    let r: i128 = if sum < 0 {
        sum + n
    } else if sum >= n {
        sum - n
    } else {
        sum
    };
    proof {
        let k: int = (if step < 0 {
            -q
        } else {
            q
        }) + (if sum < 0 {
            -1int
        } else if sum >= n {
            1int
        } else {
            0int
        });
        let whole = n as int;
        assert(index + step == k * whole + r) by (nonlinear_arith)
            requires
                size as int == whole * q + part,
                step < 0 ==> size == -step && sum == index - part,
                step >= 0 ==> size == step && sum == index + part,
                r == (if sum < 0 {
                    sum + whole
                } else if sum >= whole {
                    sum - whole
                } else {
                    sum as int
                }),
                k == (if step < 0 {
                    -q
                } else {
                    q
                }) + (if sum < 0 {
                    -1int
                } else if sum >= whole {
                    1int
                } else {
                    0int
                }),
        ;
        vstd::arithmetic::div_mod::lemma_fundamental_div_mod_converse(
            index + step,
            whole,
            k,
            r as int,
        );
    }
    r as usize
}

impl Session {
    /// Switch to `index` in the listing.
    pub fn show(&mut self, index: usize) -> (r: Work)
        ensures
            turned_to(*final(self), *old(self), index),
            r@ == turn_work(*old(self), index),
            old(self).wf() ==> final(self).wf(),
    {
        if index >= self.files.len() || index == self.index {
            return Work::Nothing;
        }
        self.index = index;
        self.menu.follow(index);
        Work::Load(Framing::Reset)
    }

    /// Move `step` files through the directory listing, wrapping around.
    pub fn cycle(&mut self, step: isize, now: u64) -> (r: Work)
        requires
            old(self).wf(),
        ensures
            final(self).wf(),
            old(self).files@.len() < 2 ==> r@ == WorkView::Nothing && noted(
                *final(self),
                *old(self),
                "only one .vox file in this directory"@,
                now,
            ),
            old(self).files@.len() >= 2 ==> ({
                let next = step_from(old(self).index, step as int, old(self).files@.len()) as usize;
                turned_to(*final(self), *old(self), next) && r@ == turn_work(*old(self), next)
            }),
    {
        if self.files.len() < 2 {
            self.note(text::copied("only one .vox file in this directory"), now);
            return Work::Nothing;
        }
        let next: usize = wrapped_step(self.index, step, self.files.len());
        self.show(next)
    }

    /// Put a line in the HUD for a few seconds.
    pub fn note(&mut self, note: String, now: u64)
        ensures
            noted(*final(self), *old(self), note@, now),
            old(self).wf() ==> final(self).wf(),
    {
        self.status = Some((note, now));
    }

    /// Show a library asset in the viewer, with `[` and `]` walking whatever
    /// the library was filtered down to.
    pub fn open(&mut self, asset: usize, time: i64) -> (r: Work)
        requires
            old(self).wf(),
        ensures
            final(self).wf(),
            opened(*final(self), *old(self), asset, time),
            r@ == (if browse::shown(old(self).lib, time).contains(asset) {
                WorkView::Load(Framing::Reset)
            } else {
                WorkView::Nothing
            }),
    {
        let order = self.lib.filtered(time);
        proof {
            order@.index_of_first_ensures(asset);
        }
        let at: usize = match selection::position(&order, asset) {
            Some(at) => at,
            None => {
                return Work::Nothing;
            },
        };
        proof {
            assert(order@[at as int] == asset);
            assert forall|i: int| 0 <= i < order@.len() implies (#[trigger] order@[i])
                < self.lib.assets@.len() by {}
            ui::lemma_all_known(self.lib.assets@, order@, order@.len() as int);
        }
        self.files = ui::paths_of(&self.lib, order.as_slice());
        proof {
            assert(paths::views(self.files@).len() == self.files@.len());
            assert(self.files@.len() == order@.len());
        }
        self.names = session::names_of(&self.files);
        self.title = panels::scope_name(&self.lib);
        self.index = at;
        self.current = Some(asset);
        self.menu.close();
        self.mode = Mode::Viewer;
        Work::Load(Framing::Reset)
    }
}

/// Whether one session is another after an asset was opened: where the asset
/// is listed, the listing becomes the files to walk and the viewer comes up on
/// it; where it is not, nothing changes.
pub open spec fn opened(now: Session, was: Session, asset: usize, time: i64) -> bool {
    let order = browse::shown(was.lib, time);
    if order.contains(asset) {
        &&& paths::views(now.files@) == ui::paths_at(was.lib.assets@, order)
        &&& text::texts(now.names@) == session::titles(paths::views(now.files@))
        &&& now.title@ == panels::scope_text(was.lib)
        &&& Some(now.index as int) == order.index_of_first(asset)
        &&& now == (Session {
            files: now.files,
            names: now.names,
            title: now.title,
            index: now.index,
            current: Some(asset),
            menu: (Menu { open: false, hit: None, ..was.menu }),
            mode: Mode::Viewer,
            ..was
        })
    } else {
        now == was
    }
}

// ---- what is asked for ------------------------------------------------------
impl Session {
    /// The session with one of its switches turned.
    pub open spec fn switched(self, toggle: Toggle) -> Session {
        match toggle {
            Toggle::Grid => Session { show_grid: !self.show_grid, ..self },
            Toggle::Bbox => Session { show_bbox: !self.show_bbox, ..self },
            Toggle::Axes => Session { show_axes: !self.show_axes, ..self },
            Toggle::Occlusion => Session { ambient_occlusion: !self.ambient_occlusion, ..self },
            Toggle::Orthographic => Session { orthographic: !self.orthographic, ..self },
            Toggle::Msaa => self,
            Toggle::Background => Session {
                background: if self.background is Dark {
                    Background::Light
                } else {
                    Background::Dark
                },
                ..self
            },
        }
    }

    /// Turn one of the switches. The sample count is the renderer's to change.
    pub fn toggle(&mut self, toggle: Toggle) -> (r: Work)
        ensures
            *final(self) == old(self).switched(toggle),
            r@ == (if toggle is Msaa {
                WorkView::Samples
            } else {
                WorkView::Nothing
            }),
            old(self).wf() ==> final(self).wf(),
    {
        match toggle {
            Toggle::Grid => self.show_grid = !self.show_grid,
            Toggle::Bbox => self.show_bbox = !self.show_bbox,
            Toggle::Axes => self.show_axes = !self.show_axes,
            Toggle::Occlusion => self.ambient_occlusion = !self.ambient_occlusion,
            Toggle::Orthographic => self.orthographic = !self.orthographic,
            Toggle::Msaa => {
                return Work::Samples;
            },
            Toggle::Background => self.background = self.background.toggled(),
        }
        Work::Nothing
    }

    /// Apply one thing the browser asked for.
    pub fn act(&mut self, action: Action, time: i64) -> (r: Work)
        requires
            old(self).wf(),
        ensures
            final(self).wf(),
            match action {
                Action::Open(asset) => opened(*final(self), *old(self), asset, time) && r@ == (
                if browse::shown(old(self).lib, time).contains(asset) {
                    WorkView::Load(Framing::Reset)
                } else {
                    WorkView::Nothing
                }),
                Action::Screenshot(list) => *final(self) == *old(self) && r@ == WorkView::Shots(
                    ui::known_paths(old(self).lib.assets@, list@, list@.len() as int),
                ),
                Action::ToLibrary => *final(self) == (Session {
                    mode: Mode::Library,
                    ..*old(self)
                }) && r@ == WorkView::Retitle,
                Action::Toggle(t) => *final(self) == old(self).switched(t) && r@ == (
                if t is Msaa {
                    WorkView::Samples
                } else {
                    WorkView::Nothing
                }),
                Action::Reload => *final(self) == *old(self) && r@ == WorkView::Load(Framing::Keep),
            },
    {
        match action {
            Action::Open(asset) => self.open(asset, time),
            Action::Screenshot(list) => Work::Shots(ui::paths_of(&self.lib, list.as_slice())),
            Action::ToLibrary => {
                self.mode = Mode::Library;
                Work::Retitle
            },
            Action::Toggle(t) => self.toggle(t),
            Action::Reload => Work::Load(Framing::Keep),
        }
    }

    /// Take in how reading the current file went.
    ///
    /// A failure is never fatal: its first line goes into the HUD, and whatever
    /// was last rendered successfully stays on screen.
    pub fn loaded(&mut self, outcome: Result<SceneInfo, String>)
        ensures
            match outcome {
                Ok(info) => *final(self) == (Session {
                    info: Some(info),
                    error: None,
                    ..*old(self)
                }),
                Err(why) => (final(self).error matches Some(e) && e@ == session::first_line_of(
                    why@,
                )) && *final(self) == (Session { error: final(self).error, ..*old(self) }),
            },
            old(self).wf() ==> final(self).wf(),
    {
        match outcome {
            Ok(info) => {
                self.info = Some(info);
                self.error = None;
            },
            Err(why) => {
                self.error = Some(session::first_line(why.as_str()));
            },
        }
    }
}

/// What the status line says after a batch of screenshots.
pub fn shots_note(written: usize, wanted: usize) -> (r: String)
    ensures
        r@ == "saved "@ + text::decimal(written as nat) + " of "@ + text::decimal(wanted as nat)
            + " screenshots"@,
{
    let mut s = text::cat3("saved ", text::number(written as u64).as_str(), " of ");
    text::push_decimal(&mut s, wanted as u64);
    text::push_str(&mut s, " screenshots");
    s
}

/// What the status line says after one.
pub fn shot_note(file: &FilePath) -> (r: String)
    ensures
        r@ == "saved "@ + (match file@.file_name() {
            Some(n) => n,
            None => ""@,
        }),
{
    let name = match file.file_name() {
        Some(n) => n,
        None => text::copied(""),
    };
    text::cat("saved ", name.as_str())
}

// ---- the words on screen ----------------------------------------------------
pub open spec fn line(text: Seq<char>, color: Color) -> LineView {
    LineView { text, color }
}

/// What the HUD says of a scene.
pub open spec fn scene_lines(
    info: SceneInfo,
    orthographic: bool,
    triangles: usize,
    fps: u64,
) -> Seq<LineView> {
    let head = seq![
        line(info.name@, Color::Normal),
        line(
            text::decimal(info.models as nat) + " model"@ + ui::plural(info.models as int) + ", "@
                + text::decimal(info.instances as nat) + " instance"@ + ui::plural(
                info.instances as int,
            ),
            Color::Dim,
        ),
        line(
            text::signed(info.dimensions.x as int) + " x "@ + text::signed(
                info.dimensions.y as int,
            ) + " x "@ + text::signed(info.dimensions.z as int),
            Color::Dim,
        ),
        line(
            names::grouped(info.voxels as nat) + " voxels, "@ + names::grouped(triangles as nat)
                + " tris"@,
            Color::Dim,
        ),
        line(
            text::decimal(fps as nat) + " fps, load "@ + text::decimal(info.load_ms as nat)
                + " ms, mesh "@ + text::decimal(info.mesh_ms as nat) + " ms"@,
            Color::Dim,
        ),
    ];
    let flat = if orthographic {
        head.push(line("orthographic"@, Color::Dim))
    } else {
        head
    };
    if info.default_palette {
        flat.push(line("default palette (none in file)"@, Color::Dim))
    } else {
        flat
    }
}

/// The message that is up at some time.
pub open spec fn status_at(status: Option<(String, u64)>, now: u64) -> Option<Seq<char>> {
    match status {
        Some(s) if now - s.1 < STATUS_MILLIS => Some(s.0@),
        _ => None,
    }
}

/// The text panel of the viewer.
pub open spec fn hud_lines(s: Session, triangles: usize, fps: u64, now: u64) -> Seq<LineView> {
    let scene = match s.info {
        Some(info) => scene_lines(info, s.orthographic, triangles, fps),
        None => seq![line("no model loaded"@, Color::Normal)],
    };
    let hint = if s.files@.len() < 2 {
        scene.push(line("[M]enu  [Esc] library"@, Color::Dim))
    } else {
        scene
    };
    let told = match s.error {
        Some(e) => hint.push(line("error: "@ + e@, Color::Error)),
        None => hint,
    };
    match status_at(s.status, now) {
        Some(t) => told.push(line(t, Color::Normal)),
        None => told,
    }
}

fn push_line(out: &mut Vec<HudLine>, l: HudLine)
    ensures
        hud::line_views(final(out)@) == hud::line_views(old(out)@).push(line(l.text@, l.color)),
{
    proof {
        hud::lemma_line_push(out@, l);
    }
    out.push(l);
}

fn scene_text(info: &SceneInfo, orthographic: bool, triangles: usize, fps: u64) -> (r: Vec<HudLine>)
    ensures
        hud::line_views(r@) == scene_lines(*info, orthographic, triangles, fps),
{
    let mut out: Vec<HudLine> = Vec::new();
    assert(hud::line_views(out@) =~= Seq::empty());
    push_line(&mut out, HudLine::normal(text::copied(info.name.as_str())));

    let mut s = text::cat3(
        text::number(info.models as u64).as_str(),
        " model",
        ui::plural_of(info.models),
    );
    text::push_str(&mut s, ", ");
    text::push_decimal(&mut s, info.instances as u64);
    text::push_str(&mut s, " instance");
    text::push_str(&mut s, ui::plural_of(info.instances));
    push_line(&mut out, HudLine::dim(s));

    let d = info.dimensions;
    let mut s = String::new();
    text::push_signed(&mut s, d.x as i64);
    text::push_str(&mut s, " x ");
    text::push_signed(&mut s, d.y as i64);
    text::push_str(&mut s, " x ");
    text::push_signed(&mut s, d.z as i64);
    assert(s@ =~= text::signed(d.x as int) + " x "@ + text::signed(d.y as int) + " x "@
        + text::signed(d.z as int));
    push_line(&mut out, HudLine::dim(s));

    let mut s = text::cat3(
        names::thousands(info.voxels).as_str(),
        " voxels, ",
        names::thousands(triangles).as_str(),
    );
    text::push_str(&mut s, " tris");
    push_line(&mut out, HudLine::dim(s));

    let mut s = text::cat3(
        text::number(fps).as_str(),
        " fps, load ",
        text::number(info.load_ms).as_str(),
    );
    text::push_str(&mut s, " ms, mesh ");
    text::push_decimal(&mut s, info.mesh_ms);
    text::push_str(&mut s, " ms");
    push_line(&mut out, HudLine::dim(s));

    if orthographic {
        // Only when it is on: perspective is the default, and a HUD line that
        // is always there teaches nobody anything.
        push_line(&mut out, HudLine::dim(text::copied("orthographic")));
    }
    if info.default_palette {
        push_line(&mut out, HudLine::dim(text::copied("default palette (none in file)")));
    }
    assert(hud::line_views(out@) =~= scene_lines(*info, orthographic, triangles, fps));
    out
}

impl Session {
    /// Assemble the text panel for this frame.
    pub fn hud(&self, triangles: usize, fps: u64, now: u64) -> (r: Vec<HudLine>)
        ensures
            hud::line_views(r@) == hud_lines(*self, triangles, fps, now),
    {
        let mut out: Vec<HudLine> = match &self.info {
            Some(info) => scene_text(info, self.orthographic, triangles, fps),
            None => {
                let mut none: Vec<HudLine> = Vec::new();
                push_line(&mut none, HudLine::normal(text::copied("no model loaded")));
                assert(hud::line_views(none@) =~= seq![line("no model loaded"@, Color::Normal)]);
                none
            },
        };
        if self.files.len() < 2 {
            push_line(&mut out, HudLine::dim(text::copied("[M]enu  [Esc] library")));
        }
        if let Some(e) = &self.error {
            push_line(&mut out, HudLine::error(text::cat("error: ", e.as_str())));
        }
        if let Some(s) = &self.status {
            if now < s.1 || now - s.1 < STATUS_MILLIS {
                push_line(&mut out, HudLine::normal(text::copied(s.0.as_str())));
            }
        }
        out
    }

    /// What the title bar says: which face is up and what it is looking at.
    pub fn window_title(&self) -> (r: String)
        requires
            self.wf(),
        ensures
            r@ == "voxview - "@ + (match self.mode {
                Mode::Library => self.root@.as_text(),
                Mode::Viewer => self.files@[self.index as int]@.as_text(),
            }),
    {
        let what = match self.mode {
            Mode::Library => self.root.to_text(),
            Mode::Viewer => self.files[self.index].to_text(),
        };
        text::cat("voxview - ", what.as_str())
    }

    /// Build the menu's panel for this frame; no lines where it is closed.
    pub fn menu_lines(&mut self, m: &Metrics, viewport: (u32, u32)) -> (r: Vec<HudLine>)
        requires
            old(self).wf(),
            m.scale > 0,
            old(self).menu.filter@.len() < hud::FAR - 100,
        ensures
            final(self).wf(),
            !old(self).menu.open ==> r@.len() == 0 && *final(self) == *old(self),
            old(self).menu.open ==> ({
                let (was, now) = (old(self).menu, final(self).menu);
                let len = was.filtered@.len() as int;
                let visible = menu::room(*m, viewport.1, old(self).names@.len() as int);
                let cursor = menu::least(was.cursor as int, menu::over(len, 1));
                &&& now.cursor == cursor
                &&& now.scroll == menu::settled(cursor, was.scroll as int, visible, len)
                &&& now.hit matches Some(b) && menu::boxes(b, *m, r@, visible, viewport)
                &&& now == (Menu { cursor: now.cursor, scroll: now.scroll, hit: now.hit, ..was })
                &&& *final(self) == (Session { menu: now, ..*old(self) })
                &&& hud::line_views(r@) == menu::panel_lines(
                    now,
                    old(self).names@,
                    old(self).title@,
                    old(self).index,
                )
            }),
    {
        if !self.menu.is_open() {
            return Vec::new();
        }
        proof {
            m.lemma_bounds();
            m.lemma_fitting(viewport.1);
        }
        self.menu.lines(
            self.names.as_slice(),
            self.title.as_str(),
            self.index,
            m,
            viewport,
        )
    }
}

// ---- laws -------------------------------------------------------------------
/// A step through the listing and one back end where they began, and so many
/// steps as there are files go once round.
pub proof fn lemma_stepping_goes_round(index: usize, step: int, len: nat)
    requires
        index < len <= usize::MAX,
    ensures
        0 <= step_from(index, step, len) < len,
        step_from(step_from(index, step, len) as usize, -step, len) == index,
        step_from(index, len as int, len) == index,
{
    let n = len as int;
    let to = step_from(index, step, len);
    vstd::arithmetic::div_mod::lemma_mod_bound(index + step, n);
    vstd::arithmetic::div_mod::lemma_fundamental_div_mod(index + step, n);
    let q = (index + step) / n;
    assert(to - step == (-q) * n + index) by (nonlinear_arith)
        requires
            index + step == n * q + to,
    ;
    vstd::arithmetic::div_mod::lemma_fundamental_div_mod_converse(to - step, n, -q, index as int);
    assert(index + n == 1 * n + index);
    vstd::arithmetic::div_mod::lemma_fundamental_div_mod_converse(index + n, n, 1, index as int);
}

/// Every file of the listing can be reached by stepping one at a time.
pub proof fn lemma_stepping_reaches_every_file(index: usize, to: usize, len: nat)
    requires
        index < len,
        to < len,
    ensures
        step_from(index, to - index, len) == to,
{
    vstd::arithmetic::div_mod::lemma_small_mod(to as nat, len);
}

/// What is opened from the library is the file on screen, and `[` and `]` walk
/// exactly what the library listed, in that order.
pub proof fn lemma_opening_shows_the_asset(now: Session, was: Session, asset: usize, time: i64)
    requires
        opened(now, was, asset, time),
        browse::shown(was.lib, time).contains(asset),
    ensures
        now.mode == Mode::Viewer,
        now.files@.len() == browse::shown(was.lib, time).len(),
        now.index < now.files@.len(),
        now.files@[now.index as int]@ == was.lib.assets@[asset as int].path@,
        forall|i: int|
            0 <= i < now.files@.len() ==> (#[trigger] now.files@[i])@ == was.lib.assets@[
                browse::shown(was.lib, time)[i] as int
            ].path@,
{
    let order = browse::shown(was.lib, time);
    order.index_of_first_ensures(asset);
    let views = paths::views(now.files@);
    let at = ui::paths_at(was.lib.assets@, order);
    assert(views.len() == at.len());
    assert forall|i: int| 0 <= i < now.files@.len() implies (#[trigger] now.files@[i])@
        == was.lib.assets@[order[i] as int].path@ by {
        assert(views[i] == at[i]);
    }
    assert(order[now.index as int] == asset);
}

/// Turning a switch twice leaves everything as it was.
pub proof fn lemma_switching_twice_changes_nothing(s: Session, toggle: Toggle)
    ensures
        s.switched(toggle).switched(toggle) == s,
{
}

/// A failed load keeps what is on screen: only the error line changes.
pub proof fn lemma_a_failure_keeps_the_scene(s: Session, failed: Session, triangles: usize, fps: u64, now: u64)
    requires
        failed == (Session { error: failed.error, ..s }),
        failed.error is Some,
        s.error is None,
    ensures
        ({
            let (a, b) = (hud_lines(s, triangles, fps, now), hud_lines(failed, triangles, fps, now));
            &&& b.len() == a.len() + 1
            &&& forall|i: int|
                0 <= i < a.len() - 1 && status_at(s.status, now) is Some || 0 <= i < a.len()
                    && status_at(s.status, now) is None ==> #[trigger] b[i] == a[i]
        }),
{
}

/// Turning to another file reads it with the camera reset; turning to the one
/// that is shown, or to none, does nothing.
pub proof fn lemma_turning_reads_another_file(now: Session, was: Session, index: usize)
    requires
        turned_to(now, was, index),
    ensures
        index < was.files@.len() ==> now.index == index,
        index >= was.files@.len() ==> now == was,
        index == was.index ==> now == was,
        turn_work(was, index) == WorkView::Load(Framing::Reset) <==> now.index != was.index,
        turn_work(was, index) == WorkView::Nothing <==> now.index == was.index,
        was.menu.filtered@.contains(now.index) && now.index != was.index ==> now.menu.chosen()
            == Some(now.index),
{
    was.menu.filtered@.index_of_first_ensures(index);
}

/// Each switch turns what it names and leaves everything else.
pub proof fn lemma_a_switch_turns_its_own(s: Session, toggle: Toggle)
    ensures
        ({
            let now = s.switched(toggle);
            &&& now.show_grid == (s.show_grid != (toggle is Grid))
            &&& now.show_bbox == (s.show_bbox != (toggle is Bbox))
            &&& now.show_axes == (s.show_axes != (toggle is Axes))
            &&& now.ambient_occlusion == (s.ambient_occlusion != (toggle is Occlusion))
            &&& now.orthographic == (s.orthographic != (toggle is Orthographic))
            &&& (now.background == s.background) == !(toggle is Background)
            &&& now == (Session {
                show_grid: now.show_grid,
                show_bbox: now.show_bbox,
                show_axes: now.show_axes,
                ambient_occlusion: now.ambient_occlusion,
                orthographic: now.orthographic,
                background: now.background,
                ..s
            })
        }),
{
}

/// A message stays up for four seconds.
pub proof fn lemma_a_message_stays_four_seconds(note: String, at: u64, now: u64)
    ensures
        now < at + 4000 ==> status_at(Some((note, at)), now) == Some(note@),
        now >= at + 4000 ==> status_at(Some((note, at)), now) is None,
        status_at(None, now) is None,
{
}

/// What the overlay says: the file's name first, then what is in it, then a
/// line for each thing out of the ordinary; an error is told in its own colour
/// and a message comes last.
pub proof fn lemma_the_overlay_tells(s: Session, triangles: usize, fps: u64, now: u64)
    ensures
        ({
            let lines = hud_lines(s, triangles, fps, now);
            let one = |b: bool|
                if b {
                    1int
                } else {
                    0int
                };
            let noted = s.status matches Some(n) && now < n.1 + 4000;
            &&& s.info is None ==> lines[0] == line("no model loaded"@, Color::Normal)
            &&& s.info matches Some(info) ==> {
                &&& lines[0] == line(info.name@, Color::Normal)
                &&& lines[2].text == text::signed(info.dimensions.x as int) + " x "@ + text::signed(
                    info.dimensions.y as int,
                ) + " x "@ + text::signed(info.dimensions.z as int)
                &&& lines[3].text == names::grouped(info.voxels as nat) + " voxels, "@
                    + names::grouped(triangles as nat) + " tris"@
                &&& lines.len() == 5 + one(s.orthographic) + one(info.default_palette) + one(
                    s.files@.len() < 2,
                ) + one(s.error is Some) + one(noted)
            }
            &&& noted ==> lines.last() == line((s.status->0).0@, Color::Normal)
            &&& s.error matches Some(e) ==> lines.contains(line("error: "@ + e@, Color::Error))
        }),
{
    let lines = hud_lines(s, triangles, fps, now);
    if let Some(e) = s.error {
        let wanted = line("error: "@ + e@, Color::Error);
        if status_at(s.status, now) is Some {
            assert(lines[lines.len() - 2] == wanted);
        } else {
            assert(lines[lines.len() - 1] == wanted);
        }
    }
}

} // verus!
