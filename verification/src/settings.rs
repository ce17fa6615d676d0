//! What the viewer remembers between runs.
//!
//! Window geometry, the overlay toggles, how the library was last sorted and
//! looked at, and the collections that were built.
//!
//! The file is line-based `key = value` text. It needs no dependency, and a
//! settings file people can open and fix by hand is a feature when something
//! goes wrong. Unknown keys are ignored and malformed values fall back to the
//! default, so a file written by a newer version, or edited badly, degrades
//! instead of failing.

use vstd::prelude::*;
use vstd::view::View as _;

use crate::edge;
use crate::edge::Edge;
use crate::gfx::Background;
use crate::library;
use crate::library::Sort;
use crate::paths::{FilePath, PathView, Platform};
use crate::text;

verus! {

/// Where and how big the window was.
#[derive(Clone, Copy, Debug, PartialEq, Eq, Structural)]
pub struct Window {
    pub width: u32,
    pub height: u32,
    /// Screen position, when it was known. Restored only if it still lands on
    /// a monitor; see [`Window::sane`].
    pub x: Option<i32>,
    pub y: Option<i32>,
    pub maximized: bool,
}

/// The nearest value in a range.
pub open spec fn clamped(n: u32, lo: u32, hi: u32) -> u32 {
    if n < lo {
        lo
    } else if n > hi {
        hi
    } else {
        n
    }
}

/// Whether a position lies too far out to be on any screen.
pub open spec fn off_screen(v: Option<i32>) -> bool {
    v matches Some(n) && !(-32_000 <= n < 32_000)
}

impl Window {
    /// The window with a usable size, and without a position that cannot be right.
    pub open spec fn usable(self) -> Window {
        let lost = off_screen(self.x) || off_screen(self.y);
        Window {
            width: clamped(self.width, 480, 16_384),
            height: clamped(self.height, 360, 16_384),
            x: if lost {
                None
            } else {
                self.x
            },
            y: if lost {
                None
            } else {
                self.y
            },
            maximized: self.maximized,
        }
    }

    /// Reject geometry that would open the window somewhere unusable.
    ///
    /// A saved position is only good until the monitor it named goes away, and
    /// a window restored onto a display that no longer exists is invisible and
    /// looks exactly like a crash. Rather than enumerate monitors, this throws
    /// out what is obviously wrong and lets the compositor place the rest.
    pub fn sane(self) -> (r: Window)
        ensures
            r == self.usable(),
    {
        let width: u32 = if self.width < 480 {
            480
        } else if self.width > 16_384 {
            16_384
        } else {
            self.width
        };
        let height: u32 = if self.height < 360 {
            360
        } else if self.height > 16_384 {
            16_384
        } else {
            self.height
        };
        let lost_x = match self.x {
            Some(n) => n < -32_000 || n >= 32_000,
            None => false,
        };
        let lost_y = match self.y {
            Some(n) => n < -32_000 || n >= 32_000,
            None => false,
        };
        if lost_x || lost_y {
            Window { width, height, x: None, y: None, maximized: self.maximized }
        } else {
            Window { width, height, x: self.x, y: self.y, maximized: self.maximized }
        }
    }
}

/// Making a window usable a second time changes nothing.
pub proof fn lemma_usable_is_stable(w: Window)
    ensures
        w.usable().usable() == w.usable(),
{
}

/// The window of a first run.
pub open spec fn default_window() -> Window {
    Window { width: 1280, height: 800, x: None, y: None, maximized: false }
}

impl Default for Window {
    fn default() -> (w: Window)
        ensures
            w == default_window(),
    {
        Window { width: 1280, height: 800, x: None, y: None, maximized: false }
    }
}

/// Everything carried across runs.
#[derive(Clone, Debug, PartialEq, Eq)]
pub struct Settings {
    pub window: Window,
    pub background: Background,
    pub grid: bool,
    pub bbox: bool,
    pub axes: bool,
    pub occlusion: bool,
    /// Multisample count for the 3D view: 1, 2, 4 or 8.
    pub msaa: u32,
    /// `true` for an orthographic camera, which is what most asset inspection
    /// wants; `false` for perspective.
    pub orthographic: bool,
    pub view: library::View,
    pub sort: Sort,
    pub descending: bool,
    pub stack_variants: bool,
    /// The edge of a grid cell.
    pub cell: Edge,
    /// The directory the library was last pointed at, reopened when the viewer
    /// is started with no argument.
    pub root: Option<String>,
    /// Collections, as names and the absolute paths that were in them.
    ///
    /// Paths rather than asset indices: indices only mean something relative
    /// to one scan, and the next scan may find a different set of files.
    pub collections: Vec<(String, Vec<String>)>,
}

/// A collection, as texts.
pub struct CollectionView {
    pub name: Seq<char>,
    pub members: Seq<Seq<char>>,
}

/// Everything carried across runs, as mathematical values.
#[verifier::ext_equal]
pub struct SettingsView {
    pub window: Window,
    pub background: Background,
    pub grid: bool,
    pub bbox: bool,
    pub axes: bool,
    pub occlusion: bool,
    pub msaa: u32,
    pub orthographic: bool,
    pub view: library::View,
    pub sort: Sort,
    pub descending: bool,
    pub stack_variants: bool,
    pub cell: int,
    pub root: Option<Seq<char>>,
    pub collections: Seq<CollectionView>,
}

pub open spec fn collection_view(c: (String, Vec<String>)) -> CollectionView {
    CollectionView { name: c.0@, members: text::texts(c.1@) }
}

pub open spec fn collection_views(c: Seq<(String, Vec<String>)>) -> Seq<CollectionView> {
    c.map_values(|c: (String, Vec<String>)| collection_view(c))
}

impl vstd::view::View for Settings {
    type V = SettingsView;

    open spec fn view(&self) -> SettingsView {
        SettingsView {
            window: self.window,
            background: self.background,
            grid: self.grid,
            bbox: self.bbox,
            axes: self.axes,
            occlusion: self.occlusion,
            msaa: self.msaa,
            orthographic: self.orthographic,
            view: self.view,
            sort: self.sort,
            descending: self.descending,
            stack_variants: self.stack_variants,
            cell: self.cell@,
            root: match self.root {
                Some(s) => Some(s@),
                None => None,
            },
            collections: collection_views(self.collections@),
        }
    }
}

// ---- keys -------------------------------------------------------------------
/// The keys a settings line can have.
#[derive(Clone, Copy, Debug, PartialEq, Eq, Structural)]
pub enum Key {
    Width,
    Height,
    X,
    Y,
    Maximized,
    Background,
    Grid,
    Bbox,
    Axes,
    Occlusion,
    Msaa,
    Orthographic,
    View,
    Sort,
    Descending,
    StackVariants,
    Cell,
    Root,
    Collection,
    Member,
    Unknown,
}

/// How a key is written.
pub open spec fn key_text(k: Key) -> Seq<char> {
    match k {
        Key::Width => "window.width"@,
        Key::Height => "window.height"@,
        Key::X => "window.x"@,
        Key::Y => "window.y"@,
        Key::Maximized => "window.maximized"@,
        Key::Background => "view.background"@,
        Key::Grid => "view.grid"@,
        Key::Bbox => "view.bbox"@,
        Key::Axes => "view.axes"@,
        Key::Occlusion => "view.occlusion"@,
        Key::Msaa => "view.msaa"@,
        Key::Orthographic => "view.orthographic"@,
        Key::View => "library.view"@,
        Key::Sort => "library.sort"@,
        Key::Descending => "library.descending"@,
        Key::StackVariants => "library.stack_variants"@,
        Key::Cell => "library.cell"@,
        Key::Root => "library.root"@,
        Key::Collection => "collection"@,
        Key::Member => "member"@,
        Key::Unknown => Seq::empty(),
    }
}

/// The key a text names.
pub open spec fn key_named(s: Seq<char>) -> Key {
    if s == "window.width"@ {
        Key::Width
    } else if s == "window.height"@ {
        Key::Height
    } else if s == "window.x"@ {
        Key::X
    } else if s == "window.y"@ {
        Key::Y
    } else if s == "window.maximized"@ {
        Key::Maximized
    } else if s == "view.background"@ {
        Key::Background
    } else if s == "view.grid"@ {
        Key::Grid
    } else if s == "view.bbox"@ {
        Key::Bbox
    } else if s == "view.axes"@ {
        Key::Axes
    } else if s == "view.occlusion"@ {
        Key::Occlusion
    } else if s == "view.msaa"@ {
        Key::Msaa
    } else if s == "view.orthographic"@ {
        Key::Orthographic
    } else if s == "library.view"@ {
        Key::View
    } else if s == "library.sort"@ {
        Key::Sort
    } else if s == "library.descending"@ {
        Key::Descending
    } else if s == "library.stack_variants"@ {
        Key::StackVariants
    } else if s == "library.cell"@ {
        Key::Cell
    } else if s == "library.root"@ {
        Key::Root
    } else if s == "collection"@ {
        Key::Collection
    } else if s == "member"@ {
        Key::Member
    } else {
        Key::Unknown
    }
}

fn read_key(s: &Vec<char>) -> (k: Key)
    ensures
        k == key_named(s@),
{
    if text::is_text(s, "window.width") {
        Key::Width
    } else if text::is_text(s, "window.height") {
        Key::Height
    } else if text::is_text(s, "window.x") {
        Key::X
    } else if text::is_text(s, "window.y") {
        Key::Y
    } else if text::is_text(s, "window.maximized") {
        Key::Maximized
    } else if text::is_text(s, "view.background") {
        Key::Background
    } else if text::is_text(s, "view.grid") {
        Key::Grid
    } else if text::is_text(s, "view.bbox") {
        Key::Bbox
    } else if text::is_text(s, "view.axes") {
        Key::Axes
    } else if text::is_text(s, "view.occlusion") {
        Key::Occlusion
    } else if text::is_text(s, "view.msaa") {
        Key::Msaa
    } else if text::is_text(s, "view.orthographic") {
        Key::Orthographic
    } else if text::is_text(s, "library.view") {
        Key::View
    } else if text::is_text(s, "library.sort") {
        Key::Sort
    } else if text::is_text(s, "library.descending") {
        Key::Descending
    } else if text::is_text(s, "library.stack_variants") {
        Key::StackVariants
    } else if text::is_text(s, "library.cell") {
        Key::Cell
    } else if text::is_text(s, "library.root") {
        Key::Root
    } else if text::is_text(s, "collection") {
        Key::Collection
    } else if text::is_text(s, "member") {
        Key::Member
    } else {
        Key::Unknown
    }
}

/// Whether a text can stand before the equals sign of a line.
pub open spec fn plain(s: Seq<char>) -> bool {
    &&& s.len() > 0
    &&& s[0] != '#'
    &&& forall|i: int|
        0 <= i < s.len() ==> #[trigger] s[i] != '=' && s[i] != '\n' && !text::is_space(s[i])
}

/// What tells the texts of keys apart: how long they are, and one letter of
/// those that are as long as others.
spec fn mark(s: Seq<char>) -> (int, char) {
    let n = s.len() as int;
    if n == 8 {
        (n, s[7])
    } else if n == 9 {
        (n, s[5])
    } else if n == 12 {
        (n, s[8])
    } else {
        (n, ' ')
    }
}

spec fn mark_of(k: Key) -> (int, char) {
    match k {
        Key::Width => (12, 'i'),
        Key::Height => (13, ' '),
        Key::X => (8, 'x'),
        Key::Y => (8, 'y'),
        Key::Maximized => (16, ' '),
        Key::Background => (15, ' '),
        Key::Grid => (9, 'g'),
        Key::Bbox => (9, 'b'),
        Key::Axes => (9, 'a'),
        Key::Occlusion => (14, ' '),
        Key::Msaa => (9, 'm'),
        Key::Orthographic => (17, ' '),
        Key::View => (12, 'v'),
        Key::Sort => (12, 's'),
        Key::Descending => (18, ' '),
        Key::StackVariants => (22, ' '),
        Key::Cell => (12, 'c'),
        Key::Root => (12, 'r'),
        Key::Collection => (10, ' '),
        Key::Member => (6, ' '),
        Key::Unknown => (0, ' '),
    }
}

proof fn lemma_key_text(k: Key)
    requires
        k != Key::Unknown,
    ensures
        mark(key_text(k)) == mark_of(k),
        plain(key_text(k)),
{
    reveal_strlit("window.width");
    reveal_strlit("window.height");
    reveal_strlit("window.x");
    reveal_strlit("window.y");
    reveal_strlit("window.maximized");
    reveal_strlit("view.background");
    reveal_strlit("view.grid");
    reveal_strlit("view.bbox");
    reveal_strlit("view.axes");
    reveal_strlit("view.occlusion");
    reveal_strlit("view.msaa");
    reveal_strlit("view.orthographic");
    reveal_strlit("library.view");
    reveal_strlit("library.sort");
    reveal_strlit("library.descending");
    reveal_strlit("library.stack_variants");
    reveal_strlit("library.cell");
    reveal_strlit("library.root");
    reveal_strlit("collection");
    reveal_strlit("member");
}

/// Every key is read as the key it was written for.
proof fn lemma_key_round_trip(k: Key)
    requires
        k != Key::Unknown,
    ensures
        key_named(key_text(k)) == k,
        plain(key_text(k)),
{
    lemma_key_text(k);
    lemma_key_text(Key::Width);
    lemma_key_text(Key::Height);
    lemma_key_text(Key::X);
    lemma_key_text(Key::Y);
    lemma_key_text(Key::Maximized);
    lemma_key_text(Key::Background);
    lemma_key_text(Key::Grid);
    lemma_key_text(Key::Bbox);
    lemma_key_text(Key::Axes);
    lemma_key_text(Key::Occlusion);
    lemma_key_text(Key::Msaa);
    lemma_key_text(Key::Orthographic);
    lemma_key_text(Key::View);
    lemma_key_text(Key::Sort);
    lemma_key_text(Key::Descending);
    lemma_key_text(Key::StackVariants);
    lemma_key_text(Key::Cell);
    lemma_key_text(Key::Root);
    lemma_key_text(Key::Collection);
    lemma_key_text(Key::Member);
}

// ---- reading ----------------------------------------------------------------
/// The settings of a first run.
pub open spec fn default_settings() -> SettingsView {
    SettingsView {
        window: default_window(),
        background: Background::Dark,
        grid: true,
        bbox: false,
        axes: true,
        occlusion: true,
        msaa: 4,
        orthographic: false,
        view: library::View::Grid,
        sort: Sort::Name,
        descending: false,
        stack_variants: true,
        cell: edge::USUAL as int,
        root: None,
        collections: Seq::empty(),
    }
}

/// What has been read so far: the settings, and the collection being filled.
///
/// Collections are written as a `collection` line followed by its `member`
/// lines, so reading carries the open one along.
#[verifier::ext_equal]
pub struct Reading {
    pub settings: SettingsView,
    pub open: Option<CollectionView>,
}

/// The key and the value of a line that has both.
///
/// A blank line, a comment, and a line without an equals sign have neither.
pub open spec fn entry(line: Seq<char>) -> Option<(Seq<char>, Seq<char>)> {
    let l = text::trim(line);
    let at = text::find(l, '=');
    if l.len() == 0 || l[0] == '#' || at >= l.len() {
        None
    } else {
        Some(
            (
                text::trim(l.subrange(0, at)),
                text::trim(l.subrange(at + 1, l.len() as int)),
            ),
        )
    }
}

/// A truth value as it is written.
pub open spec fn bool_of(s: Seq<char>) -> Option<bool> {
    if s == "true"@ {
        Some(true)
    } else if s == "false"@ {
        Some(false)
    } else {
        None
    }
}

pub open spec fn bool_or(s: Seq<char>, fallback: bool) -> bool {
    match bool_of(s) {
        Some(b) => b,
        None => fallback,
    }
}

pub open spec fn u32_of(s: Seq<char>) -> Option<u32> {
    match text::within(text::parse_nat(s), 0, u32::MAX as int) {
        Some(n) => Some(n as u32),
        None => None,
    }
}

pub open spec fn u32_or(s: Seq<char>, fallback: u32) -> u32 {
    match u32_of(s) {
        Some(n) => n,
        None => fallback,
    }
}

pub open spec fn i32_of(s: Seq<char>) -> Option<i32> {
    match text::within(text::parse_int(s), i32::MIN as int, i32::MAX as int) {
        Some(n) => Some(n as i32),
        None => None,
    }
}

pub open spec fn legal_msaa(n: u32) -> bool {
    n == 1 || n == 2 || n == 4 || n == 8
}

/// The collection being filled, closed off.
pub open spec fn closed_off(r: Reading) -> Reading {
    match r.open {
        Some(c) => Reading {
            settings: SettingsView { collections: r.settings.collections.push(c), ..r.settings },
            open: None,
        },
        None => r,
    }
}

/// The settings with one value changed, where the value makes sense.
#[verifier::opaque]
pub open spec fn with_value(s: SettingsView, key: Key, v: Seq<char>) -> SettingsView {
    match key {
        Key::Width => SettingsView {
            window: Window { width: u32_or(v, s.window.width), ..s.window },
            ..s
        },
        Key::Height => SettingsView {
            window: Window { height: u32_or(v, s.window.height), ..s.window },
            ..s
        },
        Key::X => SettingsView { window: Window { x: i32_of(v), ..s.window }, ..s },
        Key::Y => SettingsView { window: Window { y: i32_of(v), ..s.window }, ..s },
        Key::Maximized => SettingsView {
            window: Window { maximized: bool_or(v, s.window.maximized), ..s.window },
            ..s
        },
        Key::Background => SettingsView {
            background: if v == "dark"@ {
                Background::Dark
            } else if v == "light"@ {
                Background::Light
            } else {
                s.background
            },
            ..s
        },
        Key::Grid => SettingsView { grid: bool_or(v, s.grid), ..s },
        Key::Bbox => SettingsView { bbox: bool_or(v, s.bbox), ..s },
        Key::Axes => SettingsView { axes: bool_or(v, s.axes), ..s },
        Key::Occlusion => SettingsView { occlusion: bool_or(v, s.occlusion), ..s },
        Key::Msaa => match u32_of(v) {
            Some(n) => if legal_msaa(n) {
                SettingsView { msaa: n, ..s }
            } else {
                s
            },
            None => s,
        },
        Key::Orthographic => SettingsView { orthographic: bool_or(v, s.orthographic), ..s },
        Key::View => SettingsView {
            view: if v == "grid"@ {
                library::View::Grid
            } else if v == "list"@ {
                library::View::List
            } else {
                s.view
            },
            ..s
        },
        Key::Sort => SettingsView {
            sort: if v == "name"@ {
                Sort::Name
            } else if v == "extent"@ {
                Sort::Extent
            } else if v == "voxels"@ {
                Sort::Voxels
            } else if v == "modified"@ {
                Sort::Modified
            } else {
                s.sort
            },
            ..s
        },
        Key::Descending => SettingsView { descending: bool_or(v, s.descending), ..s },
        Key::StackVariants => SettingsView { stack_variants: bool_or(v, s.stack_variants), ..s },
        Key::Cell => SettingsView {
            cell: match edge::edge_of(v) {
                Some(cell) => cell,
                None => s.cell,
            },
            ..s
        },
        Key::Root => if v.len() > 0 {
            SettingsView { root: Some(v), ..s }
        } else {
            s
        },
        Key::Collection => s,
        Key::Member => s,
        Key::Unknown => s,
    }
}

/// What one line does.
pub open spec fn after_entry(r: Reading, key: Key, v: Seq<char>) -> Reading {
    match key {
        Key::Collection => Reading {
            settings: closed_off(r).settings,
            open: if v.len() > 0 {
                Some(CollectionView { name: v, members: Seq::empty() })
            } else {
                None
            },
        },
        Key::Member => match r.open {
            Some(c) => if v.len() > 0 {
                Reading {
                    settings: r.settings,
                    open: Some(CollectionView { name: c.name, members: c.members.push(v) }),
                }
            } else {
                r
            },
            None => r,
        },
        _ => Reading { settings: with_value(closed_off(r).settings, key, v), open: None },
    }
}

pub open spec fn after_line(r: Reading, line: Seq<char>) -> Reading {
    match entry(line) {
        Some((k, v)) => after_entry(r, key_named(k), v),
        None => r,
    }
}

/// What has been read after some lines.
pub open spec fn after_lines(lines: Seq<Seq<char>>) -> Reading
    decreases lines.len(),
{
    if lines.len() == 0 {
        Reading { settings: default_settings(), open: None }
    } else {
        after_line(after_lines(lines.drop_last()), lines.last())
    }
}

/// The settings a text gives.
pub open spec fn parsed(t: Seq<char>) -> SettingsView {
    let s = closed_off(after_lines(text::split(t, '\n'))).settings;
    SettingsView { window: s.window.usable(), ..s }
}

impl Default for Settings {
    fn default() -> (s: Settings)
        ensures
            s@ == default_settings(),
    {
        let s = Settings {
            window: Window::default(),
            background: Background::Dark,
            grid: true,
            bbox: false,
            axes: true,
            occlusion: true,
            msaa: 4,
            orthographic: false,
            view: library::View::Grid,
            sort: Sort::Name,
            descending: false,
            stack_variants: true,
            cell: Edge::usual(),
            root: None,
            collections: Vec::new(),
        };
        assert(s@ =~= default_settings());
        s
    }
}

/// The collection being filled, as texts.
pub open spec fn open_view(open: Option<(String, Vec<String>)>) -> Option<CollectionView> {
    match open {
        Some(c) => Some(collection_view(c)),
        None => None,
    }
}

/// Close off the collection being read, if there is one.
fn take(open: Option<(String, Vec<String>)>, s: &mut Settings)
    ensures
        final(s)@ == closed_off(Reading { settings: old(s)@, open: open_view(open) }).settings,
{
    if let Some(c) = open {
        let ghost before = s.collections@;
        s.collections.push(c);
        assert(collection_views(s.collections@) =~= collection_views(before).push(
            collection_view(c),
        ));
    }
}

fn read_bool(v: &Vec<char>, fallback: bool) -> (r: bool)
    ensures
        r == bool_or(v@, fallback),
{
    if text::is_text(v, "true") {
        true
    } else if text::is_text(v, "false") {
        false
    } else {
        fallback
    }
}

fn read_u32(v: &Vec<char>, fallback: u32) -> (r: u32)
    ensures
        r == u32_or(v@, fallback),
{
    match text::parse_u32(v) {
        Some(n) => n,
        None => fallback,
    }
}

/// Change a window value, leaving it in place if the text is nonsense.
fn set_window(s: &mut Settings, key: Key, v: &Vec<char>)
    requires
        key is Width || key is Height || key is X || key is Y || key is Maximized,
    ensures
        final(s)@ == with_value(old(s)@, key, v@),
{
    reveal(with_value);
    let ghost before = s@;
    match key {
        Key::Width => {
            s.window.width = read_u32(v, s.window.width);
        },
        Key::Height => {
            s.window.height = read_u32(v, s.window.height);
        },
        Key::X => {
            s.window.x = text::parse_i32(v);
        },
        Key::Y => {
            s.window.y = text::parse_i32(v);
        },
        Key::Maximized => {
            s.window.maximized = read_bool(v, s.window.maximized);
        },
        _ => {},
    }
    assert(s@ =~= with_value(before, key, v@));
}

/// Change a value of the 3D view, leaving it in place if the text is nonsense.
fn set_view(s: &mut Settings, key: Key, v: &Vec<char>)
    requires
        key is Background || key is Grid || key is Bbox || key is Axes || key is Occlusion || key is Msaa || key is Orthographic,
    ensures
        final(s)@ == with_value(old(s)@, key, v@),
{
    reveal(with_value);
    let ghost before = s@;
    match key {
        Key::Background => {
            if text::is_text(v, "dark") {
                s.background = Background::Dark;
            } else if text::is_text(v, "light") {
                s.background = Background::Light;
            }
        },
        Key::Grid => {
            s.grid = read_bool(v, s.grid);
        },
        Key::Bbox => {
            s.bbox = read_bool(v, s.bbox);
        },
        Key::Axes => {
            s.axes = read_bool(v, s.axes);
        },
        Key::Occlusion => {
            s.occlusion = read_bool(v, s.occlusion);
        },
        Key::Msaa => {
            if let Some(n) = text::parse_u32(v) {
                if n == 1 || n == 2 || n == 4 || n == 8 {
                    s.msaa = n;
                }
            }
        },
        Key::Orthographic => {
            s.orthographic = read_bool(v, s.orthographic);
        },
        _ => {},
    }
    assert(s@ =~= with_value(before, key, v@));
}

/// Change a value of the library, leaving it in place if the text is nonsense.
fn set_library(s: &mut Settings, key: Key, v: &Vec<char>)
    requires
        key is View || key is Sort || key is Descending || key is StackVariants || key is Cell || key is Root,
    ensures
        final(s)@ == with_value(old(s)@, key, v@),
{
    reveal(with_value);
    let ghost before = s@;
    match key {
        Key::View => {
            if text::is_text(v, "grid") {
                s.view = library::View::Grid;
            } else if text::is_text(v, "list") {
                s.view = library::View::List;
            }
        },
        Key::Sort => {
            if text::is_text(v, "name") {
                s.sort = Sort::Name;
            } else if text::is_text(v, "extent") {
                s.sort = Sort::Extent;
            } else if text::is_text(v, "voxels") {
                s.sort = Sort::Voxels;
            } else if text::is_text(v, "modified") {
                s.sort = Sort::Modified;
            }
        },
        Key::Descending => {
            s.descending = read_bool(v, s.descending);
        },
        Key::StackVariants => {
            s.stack_variants = read_bool(v, s.stack_variants);
        },
        Key::Cell => {
            if let Some(cell) = Edge::read(v) {
                s.cell = cell;
            }
        },
        Key::Root => {
            if v.len() > 0 {
                s.root = Some(text::string_of(v));
            }
        },
        _ => {},
    }
    assert(s@ =~= with_value(before, key, v@));
}

/// Change one value, leaving it in place if the text is nonsense.
fn set(s: &mut Settings, key: Key, v: &Vec<char>)
    ensures
        final(s)@ == with_value(old(s)@, key, v@),
{
    reveal(with_value);
    match key {
        Key::Width | Key::Height | Key::X | Key::Y | Key::Maximized => {
            set_window(s, key, v);
        },
        Key::Background | Key::Grid | Key::Bbox | Key::Axes | Key::Occlusion | Key::Msaa
        | Key::Orthographic => {
            set_view(s, key, v);
        },
        Key::View | Key::Sort | Key::Descending | Key::StackVariants | Key::Cell | Key::Root => {
            set_library(s, key, v);
        },
        Key::Collection | Key::Member | Key::Unknown => {},
    }
}

/// The key and the value of a line that has both.
fn read_entry(line: &Vec<char>) -> (r: Option<(Vec<char>, Vec<char>)>)
    ensures
        match r {
            Some((k, v)) => entry(line@) == Some((k@, v@)),
            None => entry(line@) is None,
        },
{
    let l = text::trimmed(line);
    if l.len() == 0 || l[0] == '#' {
        return None;
    }
    let at: usize = text::find_from(&l, '=', 0);
    assert(l@.subrange(0, l@.len() as int) =~= l@);
    if at >= l.len() {
        return None;
    }
    Some(
        (
            text::trimmed(&text::slice(&l, 0, at)),
            text::trimmed(&text::slice(&l, at + 1, l.len())),
        ),
    )
}

impl Settings {
    /// Read the settings out of a text. A bad line costs that one setting, not
    /// the whole file.
    pub fn parse(source: &str) -> (r: Settings)
        ensures
            r@ == parsed(source@),
    {
        let mut s = Settings::default();
        let mut open: Option<(String, Vec<String>)> = None;
        let lines = text::split_on(&text::chars_of(source), '\n');
        let ghost views = text::split(source@, '\n');
        let mut i: usize = 0;
        assert(views.subrange(0, 0) =~= Seq::empty());
        while i < lines.len()
            invariant
                views == text::runs(lines@),
                i <= lines@.len(),
                (Reading { settings: s@, open: open_view(open) }) == after_lines(
                    views.subrange(0, i as int),
                ),
            decreases lines@.len() - i,
        {
            let ghost upto = views.subrange(0, i as int + 1);
            assert(upto.drop_last() =~= views.subrange(0, i as int));
            assert(upto.last() == lines@[i as int]@);
            if let Some((key_chars, value)) = read_entry(&lines[i]) {
                let key = read_key(&key_chars);
                if key == Key::Member {
                    if value.len() > 0 {
                        open = match open {
                            Some((name, members)) => {
                                let mut members = members;
                                let ghost had = members@;
                                members.push(text::string_of(&value));
                                assert(text::texts(members@) =~= text::texts(had).push(value@));
                                Some((name, members))
                            },
                            None => None,
                        };
                    }
                } else {
                    take(open, &mut s);
                    open = None;
                    if key == Key::Collection {
                        if value.len() > 0 {
                            let members: Vec<String> = Vec::new();
                            assert(text::texts(members@) =~= Seq::empty());
                            open = Some((text::string_of(&value), members));
                        }
                    } else {
                        set(&mut s, key, &value);
                    }
                }
            }
            i += 1;
        }
        assert(views.subrange(0, i as int) =~= views);
        take(open, &mut s);
        s.window = s.window.sane();
        s
    }
}

// ---- writing ----------------------------------------------------------------
/// Lines, each with its line break.
pub open spec fn lines_text(lines: Seq<Seq<char>>) -> Seq<char>
    decreases lines.len(),
{
    if lines.len() == 0 {
        Seq::empty()
    } else {
        lines[0] + seq!['\n'] + lines_text(lines.subrange(1, lines.len() as int))
    }
}

/// A key and a value, as a line.
pub open spec fn line(key: Key, v: Seq<char>) -> Seq<char> {
    key_text(key) + " = "@ + v
}

pub open spec fn bool_text(b: bool) -> Seq<char> {
    if b {
        "true"@
    } else {
        "false"@
    }
}

pub open spec fn background_text(b: Background) -> Seq<char> {
    match b {
        Background::Dark => "dark"@,
        Background::Light => "light"@,
    }
}

pub open spec fn view_text(v: library::View) -> Seq<char> {
    match v {
        library::View::Grid => "grid"@,
        library::View::List => "list"@,
    }
}

pub open spec fn sort_text(s: Sort) -> Seq<char> {
    match s {
        Sort::Name => "name"@,
        Sort::Extent => "extent"@,
        Sort::Voxels => "voxels"@,
        Sort::Modified => "modified"@,
    }
}

/// The lines a settings file begins with.
pub open spec fn head_lines() -> Seq<Seq<char>> {
    seq![
        "# voxview settings"@,
        "# Edit freely: unknown keys are ignored."@,
        Seq::empty(),
    ]
}

pub open spec fn position_lines(ls: Seq<Seq<char>>, key: Key, at: Option<i32>) -> Seq<Seq<char>> {
    match at {
        Some(n) => ls.push(line(key, text::signed(n as int))),
        None => ls,
    }
}

pub open spec fn window_lines(ls: Seq<Seq<char>>, w: Window) -> Seq<Seq<char>> {
    let ls = ls.push(line(Key::Width, text::decimal(w.width as nat))).push(
        line(Key::Height, text::decimal(w.height as nat)),
    );
    position_lines(position_lines(ls, Key::X, w.x), Key::Y, w.y).push(
        line(Key::Maximized, bool_text(w.maximized)),
    )
}

pub open spec fn view_lines(ls: Seq<Seq<char>>, s: SettingsView) -> Seq<Seq<char>> {
    ls.push(Seq::empty()).push(line(Key::Background, background_text(s.background))).push(
        line(Key::Grid, bool_text(s.grid)),
    ).push(line(Key::Bbox, bool_text(s.bbox))).push(line(Key::Axes, bool_text(s.axes))).push(
        line(Key::Occlusion, bool_text(s.occlusion)),
    ).push(line(Key::Msaa, text::decimal(s.msaa as nat))).push(
        line(Key::Orthographic, bool_text(s.orthographic)),
    )
}

pub open spec fn library_lines(ls: Seq<Seq<char>>, s: SettingsView) -> Seq<Seq<char>> {
    let ls = ls.push(Seq::empty()).push(line(Key::View, view_text(s.view))).push(
        line(Key::Sort, sort_text(s.sort)),
    ).push(line(Key::Descending, bool_text(s.descending))).push(
        line(Key::StackVariants, bool_text(s.stack_variants)),
    ).push(line(Key::Cell, edge::edge_text(s.cell)));
    match s.root {
        Some(root) => ls.push(line(Key::Root, root)),
        None => ls,
    }
}

/// The member lines of a collection. A path with a line break in it is left out.
pub open spec fn member_lines(ls: Seq<Seq<char>>, members: Seq<Seq<char>>) -> Seq<Seq<char>>
    decreases members.len(),
{
    if members.len() == 0 {
        ls
    } else {
        let before = member_lines(ls, members.drop_last());
        if members.last().contains('\n') {
            before
        } else {
            before.push(line(Key::Member, members.last()))
        }
    }
}

/// The lines of some collections. A name with a line break in it would forge
/// a key, so it is dropped rather than escaped: nothing here is worth an
/// escaping scheme.
pub open spec fn collection_lines(
    ls: Seq<Seq<char>>,
    collections: Seq<CollectionView>,
) -> Seq<Seq<char>>
    decreases collections.len(),
{
    if collections.len() == 0 {
        ls
    } else {
        let before = collection_lines(ls, collections.drop_last());
        let c = collections.last();
        if c.name.contains('\n') || c.name.len() == 0 {
            before
        } else {
            member_lines(before.push(Seq::empty()).push(line(Key::Collection, c.name)), c.members)
        }
    }
}

/// The lines of a settings file.
pub open spec fn settings_lines(s: SettingsView) -> Seq<Seq<char>> {
    collection_lines(
        library_lines(view_lines(window_lines(head_lines(), s.window), s), s),
        s.collections,
    )
}

proof fn lemma_lines_text_push(ls: Seq<Seq<char>>, l: Seq<char>)
    ensures
        lines_text(ls.push(l)) == lines_text(ls) + l + seq!['\n'],
    decreases ls.len(),
{
    let all = ls.push(l);
    if ls.len() == 0 {
        assert(all.subrange(1, 1) =~= Seq::empty());
        reveal_with_fuel(lines_text, 2);
        assert(lines_text(all) =~= lines_text(ls) + l + seq!['\n']);
    } else {
        let rest = ls.subrange(1, ls.len() as int);
        lemma_lines_text_push(rest, l);
        assert(all.subrange(1, all.len() as int) =~= rest.push(l));
        assert(lines_text(all) =~= lines_text(ls) + l + seq!['\n']);
    }
}

/// Append one line.
fn push_text_line(out: &mut String, l: &str, Ghost(ls): Ghost<Seq<Seq<char>>>)
    requires
        old(out)@ == lines_text(ls),
    ensures
        final(out)@ == lines_text(ls.push(l@)),
{
    text::push_str(out, l);
    out.push('\n');
    proof {
        lemma_lines_text_push(ls, l@);
        assert(out@ =~= lines_text(ls) + l@ + seq!['\n']);
    }
}

fn key_name(key: Key) -> (r: &'static str)
    ensures
        r@ == key_text(key),
{
    match key {
        Key::Width => "window.width",
        Key::Height => "window.height",
        Key::X => "window.x",
        Key::Y => "window.y",
        Key::Maximized => "window.maximized",
        Key::Background => "view.background",
        Key::Grid => "view.grid",
        Key::Bbox => "view.bbox",
        Key::Axes => "view.axes",
        Key::Occlusion => "view.occlusion",
        Key::Msaa => "view.msaa",
        Key::Orthographic => "view.orthographic",
        Key::View => "library.view",
        Key::Sort => "library.sort",
        Key::Descending => "library.descending",
        Key::StackVariants => "library.stack_variants",
        Key::Cell => "library.cell",
        Key::Root => "library.root",
        Key::Collection => "collection",
        Key::Member => "member",
        Key::Unknown => {
            proof {
                reveal_strlit("");
                assert(""@ =~= Seq::empty());
            }
            ""
        },
    }
}

/// Append a line of a key and a value.
fn push_entry(out: &mut String, key: Key, v: &str, Ghost(ls): Ghost<Seq<Seq<char>>>)
    requires
        old(out)@ == lines_text(ls),
    ensures
        final(out)@ == lines_text(ls.push(line(key, v@))),
{
    text::push_str(out, key_name(key));
    text::push_str(out, " = ");
    text::push_str(out, v);
    out.push('\n');
    proof {
        lemma_lines_text_push(ls, line(key, v@));
        assert(out@ =~= lines_text(ls) + line(key, v@) + seq!['\n']);
    }
}

fn bool_name(b: bool) -> (r: &'static str)
    ensures
        r@ == bool_text(b),
{
    if b {
        "true"
    } else {
        "false"
    }
}

fn number(n: u32) -> (r: String)
    ensures
        r@ == text::decimal(n as nat),
{
    let mut s = String::new();
    text::push_decimal(&mut s, n as u64);
    assert(s@ =~= text::decimal(n as nat));
    s
}

fn push_position(out: &mut String, key: Key, at: Option<i32>, Ghost(ls): Ghost<Seq<Seq<char>>>)
    requires
        old(out)@ == lines_text(ls),
    ensures
        final(out)@ == lines_text(position_lines(ls, key, at)),
{
    if let Some(n) = at {
        let mut s = String::new();
        text::push_signed(&mut s, n as i64);
        assert(s@ =~= text::signed(n as int));
        push_entry(out, key, s.as_str(), Ghost(ls));
    }
}

fn push_window(out: &mut String, w: Window, Ghost(ls): Ghost<Seq<Seq<char>>>)
    requires
        old(out)@ == lines_text(ls),
    ensures
        final(out)@ == lines_text(window_lines(ls, w)),
{
    push_entry(out, Key::Width, number(w.width).as_str(), Ghost(ls));
    let ghost ls = ls.push(line(Key::Width, text::decimal(w.width as nat)));
    push_entry(out, Key::Height, number(w.height).as_str(), Ghost(ls));
    let ghost ls = ls.push(line(Key::Height, text::decimal(w.height as nat)));
    push_position(out, Key::X, w.x, Ghost(ls));
    let ghost ls = position_lines(ls, Key::X, w.x);
    push_position(out, Key::Y, w.y, Ghost(ls));
    let ghost ls = position_lines(ls, Key::Y, w.y);
    push_entry(out, Key::Maximized, bool_name(w.maximized), Ghost(ls));
}

fn push_view(out: &mut String, s: &Settings, Ghost(ls): Ghost<Seq<Seq<char>>>)
    requires
        old(out)@ == lines_text(ls),
    ensures
        final(out)@ == lines_text(view_lines(ls, s@)),
{
    let background = match s.background {
        Background::Dark => "dark",
        Background::Light => "light",
    };
    proof {
        reveal_strlit("");
        assert(""@ =~= Seq::empty());
    }
    push_text_line(out, "", Ghost(ls));
    let ghost ls = ls.push(Seq::empty());
    push_entry(out, Key::Background, background, Ghost(ls));
    let ghost ls = ls.push(line(Key::Background, background_text(s.background)));
    push_entry(out, Key::Grid, bool_name(s.grid), Ghost(ls));
    let ghost ls = ls.push(line(Key::Grid, bool_text(s.grid)));
    push_entry(out, Key::Bbox, bool_name(s.bbox), Ghost(ls));
    let ghost ls = ls.push(line(Key::Bbox, bool_text(s.bbox)));
    push_entry(out, Key::Axes, bool_name(s.axes), Ghost(ls));
    let ghost ls = ls.push(line(Key::Axes, bool_text(s.axes)));
    push_entry(out, Key::Occlusion, bool_name(s.occlusion), Ghost(ls));
    let ghost ls = ls.push(line(Key::Occlusion, bool_text(s.occlusion)));
    push_entry(out, Key::Msaa, number(s.msaa).as_str(), Ghost(ls));
    let ghost ls = ls.push(line(Key::Msaa, text::decimal(s.msaa as nat)));
    push_entry(out, Key::Orthographic, bool_name(s.orthographic), Ghost(ls));
}

fn push_library(out: &mut String, s: &Settings, Ghost(ls): Ghost<Seq<Seq<char>>>)
    requires
        old(out)@ == lines_text(ls),
    ensures
        final(out)@ == lines_text(library_lines(ls, s@)),
{
    let view = match s.view {
        library::View::Grid => "grid",
        library::View::List => "list",
    };
    let sort = match s.sort {
        Sort::Name => "name",
        Sort::Extent => "extent",
        Sort::Voxels => "voxels",
        Sort::Modified => "modified",
    };
    proof {
        reveal_strlit("");
        assert(""@ =~= Seq::empty());
    }
    push_text_line(out, "", Ghost(ls));
    let ghost ls = ls.push(Seq::empty());
    push_entry(out, Key::View, view, Ghost(ls));
    let ghost ls = ls.push(line(Key::View, view_text(s.view)));
    push_entry(out, Key::Sort, sort, Ghost(ls));
    let ghost ls = ls.push(line(Key::Sort, sort_text(s.sort)));
    push_entry(out, Key::Descending, bool_name(s.descending), Ghost(ls));
    let ghost ls = ls.push(line(Key::Descending, bool_text(s.descending)));
    push_entry(out, Key::StackVariants, bool_name(s.stack_variants), Ghost(ls));
    let ghost ls = ls.push(line(Key::StackVariants, bool_text(s.stack_variants)));
    push_entry(out, Key::Cell, s.cell.to_text().as_str(), Ghost(ls));
    let ghost ls = ls.push(line(Key::Cell, edge::edge_text(s.cell@)));
    if let Some(root) = &s.root {
        push_entry(out, Key::Root, root.as_str(), Ghost(ls));
    }
}

fn has_break(s: &str) -> (r: bool)
    ensures
        r == s@.contains('\n'),
{
    let c = text::chars_of(s);
    let at: usize = text::find_from(&c, '\n', 0);
    proof {
        assert(c@.subrange(0, c@.len() as int) =~= c@);
        text::lemma_find(c@, '\n');
        if at < c@.len() {
            assert(c@[at as int] == '\n');
        }
    }
    at < c.len()
}

fn push_collection(
    out: &mut String,
    name: &String,
    members: &Vec<String>,
    Ghost(ls): Ghost<Seq<Seq<char>>>,
)
    requires
        old(out)@ == lines_text(ls),
        !name@.contains('\n'),
        name@.len() > 0,
    ensures
        final(out)@ == lines_text(
            member_lines(
                ls.push(Seq::empty()).push(line(Key::Collection, name@)),
                text::texts(members@),
            ),
        ),
{
    proof {
        reveal_strlit("");
        assert(""@ =~= Seq::empty());
    }
    push_text_line(out, "", Ghost(ls));
    let ghost ls = ls.push(Seq::empty());
    push_entry(out, Key::Collection, name.as_str(), Ghost(ls));
    let ghost ls = ls.push(line(Key::Collection, name@));
    let ghost paths = text::texts(members@);
    let mut i: usize = 0;
    assert(paths.subrange(0, 0) =~= Seq::empty());
    while i < members.len()
        invariant
            i <= members@.len(),
            paths == text::texts(members@),
            out@ == lines_text(member_lines(ls, paths.subrange(0, i as int))),
        decreases members@.len() - i,
    {
        let ghost upto = paths.subrange(0, i as int + 1);
        assert(upto.drop_last() =~= paths.subrange(0, i as int));
        if !has_break(members[i].as_str()) {
            push_entry(
                out,
                Key::Member,
                members[i].as_str(),
                Ghost(member_lines(ls, paths.subrange(0, i as int))),
            );
        }
        i += 1;
    }
    assert(paths.subrange(0, i as int) =~= paths);
}

impl Settings {
    /// The text of a settings file.
    pub fn to_text(&self) -> (out: String)
        ensures
            out@ == lines_text(settings_lines(self@)),
    {
        let mut out = String::new();
        let ghost ls: Seq<Seq<char>> = Seq::empty();
        proof {
            reveal_strlit("");
            assert(""@ =~= Seq::empty());
        }
        push_text_line(&mut out, "# voxview settings", Ghost(ls));
        let ghost ls = ls.push("# voxview settings"@);
        push_text_line(&mut out, "# Edit freely: unknown keys are ignored.", Ghost(ls));
        let ghost ls = ls.push("# Edit freely: unknown keys are ignored."@);
        push_text_line(&mut out, "", Ghost(ls));
        let ghost ls = ls.push(Seq::empty());
        assert(ls =~= head_lines());
        push_window(&mut out, self.window, Ghost(ls));
        let ghost ls = window_lines(ls, self.window);
        push_view(&mut out, self, Ghost(ls));
        let ghost ls = view_lines(ls, self@);
        push_library(&mut out, self, Ghost(ls));
        let ghost ls = library_lines(ls, self@);
        let ghost all = collection_views(self.collections@);
        let mut i: usize = 0;
        assert(all.subrange(0, 0) =~= Seq::empty());
        while i < self.collections.len()
            invariant
                i <= self.collections@.len(),
                all == collection_views(self.collections@),
                out@ == lines_text(collection_lines(ls, all.subrange(0, i as int))),
            decreases self.collections@.len() - i,
        {
            let ghost upto = all.subrange(0, i as int + 1);
            assert(upto.drop_last() =~= all.subrange(0, i as int));
            let c = &self.collections[i];
            assert(upto.last() == collection_view(*c));
            if !has_break(c.0.as_str()) && !c.0.as_str().is_empty() {
                push_collection(
                    &mut out,
                    &c.0,
                    &c.1,
                    Ghost(collection_lines(ls, all.subrange(0, i as int))),
                );
            }
            i += 1;
        }
        assert(all.subrange(0, i as int) =~= all);
        out
    }
}

// ---- what is written reads back --------------------------------------------
/// Whether a text survives on a line of its own: no line break in it, and no
/// white space around it to be trimmed away.
pub open spec fn keepable(s: Seq<char>) -> bool {
    !s.contains('\n') && text::is_trim(s)
}

/// Whether everything but the collections survives being written.
pub open spec fn storable_view(s: SettingsView) -> bool {
    &&& s.window == s.window.usable()
    &&& legal_msaa(s.msaa)
    &&& edge::is_edge(s.cell)
    &&& s.root matches Some(r) ==> keepable(r) && r.len() > 0
}

/// Whether a collection survives being written.
pub open spec fn storable_collection(c: CollectionView) -> bool {
    &&& keepable(c.name)
    &&& c.name.len() > 0
    &&& forall|i: int|
        0 <= i < c.members.len() ==> keepable(#[trigger] c.members[i]) && c.members[i].len() > 0
}

proof fn lemma_trim_end_keeps(s: Seq<char>, n: int)
    requires
        0 <= n < s.len(),
        !text::is_space(s[n]),
    ensures
        text::trim_end(s).len() > n,
        text::trim_end(s) == s.subrange(0, text::trim_end(s).len() as int),
        text::trim_end(s).len() <= s.len(),
    decreases s.len(),
{
    if text::is_space(s.last()) {
        lemma_trim_end_keeps(s.drop_last(), n);
        let t = text::trim_end(s);
        assert(s.drop_last().subrange(0, t.len() as int) =~= s.subrange(0, t.len() as int));
    } else {
        assert(s.subrange(0, s.len() as int) =~= s);
    }
}

/// A written line has the key it was written with, whatever its value.
proof fn lemma_line_key(key: Key, v: Seq<char>)
    requires
        key != Key::Unknown,
    ensures
        entry(line(key, v)) matches Some((k, w)) && key_named(k) == key && (text::is_trim(v) ==> w
            == v),
{
    lemma_key_round_trip(key);
    reveal_strlit(" = ");
    let k = key_text(key);
    let l = line(key, v);
    let n = k.len() as int;
    assert(l[0] == k[0]);
    assert(l[n] == ' ' && l[n + 1] == '=' && l[n + 2] == ' ');
    assert(text::trim_start(l) == l);
    lemma_trim_end_keeps(l, n + 1);
    let t = text::trim_end(l);
    assert(text::trim(l) == t);
    assert(t[0] == l[0]);
    assert forall|i: int| 0 <= i < n + 1 implies t[i] != '=' by {
        if i < n {
            assert(t[i] == k[i]);
        }
    }
    text::lemma_find_is(t, '=', n + 1);
    assert(t.subrange(0, n + 1) =~= k + seq![' ']);
    assert(text::is_trim(k)) by {
        assert(!text::is_space(k[0]) && !text::is_space(k[n - 1]));
    }
    text::lemma_trim_space_after(k);
    if text::is_trim(v) {
        let rest = t.subrange(n + 2, t.len() as int);
        if v.len() > 0 {
            assert(l.last() == v.last());
            assert(t == l);
            assert(rest =~= seq![' '] + v);
            text::lemma_trim_space_before(v);
        } else {
            assert(l.last() == ' ');
            assert(l.drop_last().last() == '=');
            reveal_with_fuel(text::trim_end, 2);
            assert(t =~= l.drop_last());
            assert(rest =~= v);
        }
    }
}

proof fn lemma_step(ls: Seq<Seq<char>>, key: Key, v: Seq<char>)
    requires
        key != Key::Unknown,
        text::is_trim(v),
    ensures
        after_lines(ls.push(line(key, v))) == after_entry(after_lines(ls), key, v),
{
    assert(ls.push(line(key, v)).drop_last() =~= ls);
    lemma_line_key(key, v);
}

proof fn lemma_step_blank(ls: Seq<Seq<char>>)
    ensures
        after_lines(ls.push(Seq::empty())) == after_lines(ls),
{
    assert(ls.push(Seq::<char>::empty()).drop_last() =~= ls);
}

proof fn lemma_step_comment(ls: Seq<Seq<char>>, l: Seq<char>)
    requires
        l.len() > 0,
        l[0] == '#',
    ensures
        after_lines(ls.push(l)) == after_lines(ls),
{
    assert(ls.push(l).drop_last() =~= ls);
    assert(text::trim_start(l) == l);
    lemma_trim_end_keeps(l, 0);
}

proof fn lemma_words_are_trim()
    ensures
        text::is_trim("true"@),
        text::is_trim("false"@),
        text::is_trim("dark"@),
        text::is_trim("light"@),
        text::is_trim("grid"@),
        text::is_trim("list"@),
        text::is_trim("name"@),
        text::is_trim("extent"@),
        text::is_trim("voxels"@),
        text::is_trim("modified"@),
        "true"@ != "false"@,
        "dark"@ != "light"@,
        "grid"@ != "list"@,
        "name"@ != "extent"@,
        "name"@ != "voxels"@,
        "name"@ != "modified"@,
        "extent"@ != "voxels"@,
        "extent"@ != "modified"@,
        "voxels"@ != "modified"@,
{
    reveal_strlit("true");
    reveal_strlit("false");
    reveal_strlit("dark");
    reveal_strlit("light");
    reveal_strlit("grid");
    reveal_strlit("list");
    reveal_strlit("name");
    reveal_strlit("extent");
    reveal_strlit("voxels");
    reveal_strlit("modified");
    assert("true"@[0] != "false"@[0]);
    assert("dark"@[0] != "light"@[0]);
    assert("grid"@[0] != "list"@[0]);
    assert("name"@[0] != "extent"@[0]);
    assert("name"@[0] != "voxels"@[0]);
    assert("name"@[0] != "modified"@[0]);
    assert("extent"@[0] != "voxels"@[0]);
    assert("extent"@[0] != "modified"@[0]);
    assert("voxels"@[0] != "modified"@[0]);
}

proof fn lemma_head()
    ensures
        after_lines(head_lines()) == (Reading { settings: default_settings(), open: None }),
{
    reveal_strlit("# voxview settings");
    reveal_strlit("# Edit freely: unknown keys are ignored.");
    let (a, b) = ("# voxview settings"@, "# Edit freely: unknown keys are ignored."@);
    let none = Seq::<Seq<char>>::empty();
    lemma_step_comment(none, a);
    lemma_step_comment(none.push(a), b);
    lemma_step_blank(none.push(a).push(b));
    assert(head_lines() =~= none.push(a).push(b).push(Seq::empty()));
}

proof fn lemma_position(ls: Seq<Seq<char>>, s: SettingsView, key: Key, at: Option<i32>)
    requires
        key is X || key is Y,
        after_lines(ls) == (Reading { settings: s, open: None }),
        key is X ==> s.window.x is None,
        key is Y ==> s.window.y is None,
    ensures
        after_lines(position_lines(ls, key, at)) == (Reading {
            settings: SettingsView {
                window: if key is X {
                    Window { x: at, ..s.window }
                } else {
                    Window { y: at, ..s.window }
                },
                ..s
            },
            open: None,
        }),
{
    reveal(with_value);
    if let Some(n) = at {
        text::lemma_number_round_trip(n as int);
        lemma_step(ls, key, text::signed(n as int));
    }
}

proof fn lemma_window(ls: Seq<Seq<char>>, s: SettingsView, w: Window)
    requires
        after_lines(ls) == (Reading { settings: s, open: None }),
        s.window.x is None,
        s.window.y is None,
    ensures
        after_lines(window_lines(ls, w)) == (Reading {
            settings: SettingsView { window: w, ..s },
            open: None,
        }),
{
    reveal(with_value);
    text::lemma_number_round_trip(w.width as int);
    text::lemma_number_round_trip(w.height as int);
    lemma_words_are_trim();
    lemma_step(ls, Key::Width, text::decimal(w.width as nat));
    let s = SettingsView { window: Window { width: w.width, ..s.window }, ..s };
    let ls = ls.push(line(Key::Width, text::decimal(w.width as nat)));
    assert(after_lines(ls) == (Reading { settings: s, open: None }));
    lemma_step(ls, Key::Height, text::decimal(w.height as nat));
    let s = SettingsView { window: Window { height: w.height, ..s.window }, ..s };
    let ls = ls.push(line(Key::Height, text::decimal(w.height as nat)));
    assert(after_lines(ls) == (Reading { settings: s, open: None }));
    lemma_position(ls, s, Key::X, w.x);
    let s = SettingsView { window: Window { x: w.x, ..s.window }, ..s };
    let ls = position_lines(ls, Key::X, w.x);
    lemma_position(ls, s, Key::Y, w.y);
    let s = SettingsView { window: Window { y: w.y, ..s.window }, ..s };
    let ls = position_lines(ls, Key::Y, w.y);
    lemma_step(ls, Key::Maximized, bool_text(w.maximized));
}

/// How the value of a plain setting is written.
spec fn value_text(key: Key, v: SettingsView) -> Seq<char> {
    match key {
        Key::Background => background_text(v.background),
        Key::Grid => bool_text(v.grid),
        Key::Bbox => bool_text(v.bbox),
        Key::Axes => bool_text(v.axes),
        Key::Occlusion => bool_text(v.occlusion),
        Key::Msaa => text::decimal(v.msaa as nat),
        Key::Orthographic => bool_text(v.orthographic),
        Key::View => view_text(v.view),
        Key::Sort => sort_text(v.sort),
        Key::Descending => bool_text(v.descending),
        Key::StackVariants => bool_text(v.stack_variants),
        _ => Seq::empty(),
    }
}

/// The settings with a plain setting taken from others.
spec fn taking(s: SettingsView, key: Key, v: SettingsView) -> SettingsView {
    match key {
        Key::Background => SettingsView { background: v.background, ..s },
        Key::Grid => SettingsView { grid: v.grid, ..s },
        Key::Bbox => SettingsView { bbox: v.bbox, ..s },
        Key::Axes => SettingsView { axes: v.axes, ..s },
        Key::Occlusion => SettingsView { occlusion: v.occlusion, ..s },
        Key::Msaa => SettingsView { msaa: v.msaa, ..s },
        Key::Orthographic => SettingsView { orthographic: v.orthographic, ..s },
        Key::View => SettingsView { view: v.view, ..s },
        Key::Sort => SettingsView { sort: v.sort, ..s },
        Key::Descending => SettingsView { descending: v.descending, ..s },
        Key::StackVariants => SettingsView { stack_variants: v.stack_variants, ..s },
        _ => s,
    }
}

spec fn is_plain(key: Key) -> bool {
    key is Background || key is Grid || key is Bbox || key is Axes || key is Occlusion || key is Msaa
        || key is Orthographic || key is View || key is Sort || key is Descending
        || key is StackVariants
}

proof fn lemma_value_text_is_trim(key: Key, v: SettingsView)
    requires
        is_plain(key),
    ensures
        text::is_trim(value_text(key, v)),
{
    lemma_words_are_trim();
    text::lemma_number_round_trip(v.msaa as int);
}

proof fn lemma_bool_reads_back(b: bool, fallback: bool)
    ensures
        bool_or(bool_text(b), fallback) == b,
{
    lemma_words_are_trim();
}

proof fn lemma_toggle_reads_back(s: SettingsView, key: Key, v: SettingsView)
    requires
        key is Grid || key is Bbox || key is Axes || key is Occlusion || key is Orthographic
            || key is Descending || key is StackVariants,
    ensures
        with_value(s, key, value_text(key, v)) == taking(s, key, v),
{
    reveal(with_value);
    lemma_bool_reads_back(v.grid, s.grid);
    lemma_bool_reads_back(v.bbox, s.bbox);
    lemma_bool_reads_back(v.axes, s.axes);
    lemma_bool_reads_back(v.occlusion, s.occlusion);
    lemma_bool_reads_back(v.orthographic, s.orthographic);
    lemma_bool_reads_back(v.descending, s.descending);
    lemma_bool_reads_back(v.stack_variants, s.stack_variants);
}

proof fn lemma_choice_reads_back(s: SettingsView, key: Key, v: SettingsView)
    requires
        key is Background || key is View || key is Sort,
    ensures
        with_value(s, key, value_text(key, v)) == taking(s, key, v),
{
    reveal(with_value);
    lemma_words_are_trim();
}

proof fn lemma_msaa_reads_back(s: SettingsView, v: SettingsView)
    requires
        legal_msaa(v.msaa),
    ensures
        with_value(s, Key::Msaa, value_text(Key::Msaa, v)) == taking(s, Key::Msaa, v),
{
    reveal(with_value);
    text::lemma_number_round_trip(v.msaa as int);
    assert(u32_of(text::decimal(v.msaa as nat)) == Some(v.msaa));
}

proof fn lemma_put(ls: Seq<Seq<char>>, s: SettingsView, key: Key, v: SettingsView)
    requires
        is_plain(key),
        legal_msaa(v.msaa),
        after_lines(ls) == (Reading { settings: s, open: None }),
    ensures
        after_lines(ls.push(line(key, value_text(key, v)))) == (Reading {
            settings: taking(s, key, v),
            open: None,
        }),
{
    lemma_value_text_is_trim(key, v);
    lemma_step(ls, key, value_text(key, v));
    if key is Msaa {
        lemma_msaa_reads_back(s, v);
    } else if key is Background || key is View || key is Sort {
        lemma_choice_reads_back(s, key, v);
    } else {
        lemma_toggle_reads_back(s, key, v);
    }
}

proof fn lemma_view(ls: Seq<Seq<char>>, s: SettingsView, v: SettingsView)
    requires
        after_lines(ls) == (Reading { settings: s, open: None }),
        legal_msaa(v.msaa),
    ensures
        after_lines(view_lines(ls, v)) == (Reading {
            settings: SettingsView {
                background: v.background,
                grid: v.grid,
                bbox: v.bbox,
                axes: v.axes,
                occlusion: v.occlusion,
                msaa: v.msaa,
                orthographic: v.orthographic,
                ..s
            },
            open: None,
        }),
{
    lemma_step_blank(ls);
    let l0 = ls.push(Seq::empty());
    lemma_put(l0, s, Key::Background, v);
    let l1 = l0.push(line(Key::Background, background_text(v.background)));
    let s1 = taking(s, Key::Background, v);
    lemma_put(l1, s1, Key::Grid, v);
    let l2 = l1.push(line(Key::Grid, bool_text(v.grid)));
    let s2 = taking(s1, Key::Grid, v);
    lemma_put(l2, s2, Key::Bbox, v);
    let l3 = l2.push(line(Key::Bbox, bool_text(v.bbox)));
    let s3 = taking(s2, Key::Bbox, v);
    lemma_put(l3, s3, Key::Axes, v);
    let l4 = l3.push(line(Key::Axes, bool_text(v.axes)));
    let s4 = taking(s3, Key::Axes, v);
    lemma_put(l4, s4, Key::Occlusion, v);
    let l5 = l4.push(line(Key::Occlusion, bool_text(v.occlusion)));
    let s5 = taking(s4, Key::Occlusion, v);
    lemma_put(l5, s5, Key::Msaa, v);
    let l6 = l5.push(line(Key::Msaa, text::decimal(v.msaa as nat)));
    let s6 = taking(s5, Key::Msaa, v);
    lemma_put(l6, s6, Key::Orthographic, v);
    assert(view_lines(ls, v) == l6.push(line(Key::Orthographic, bool_text(v.orthographic))));
}

proof fn lemma_edge_is_keepable(cell: int)
    requires
        edge::is_edge(cell),
    ensures
        keepable(edge::edge_text(cell)),
        edge::edge_text(cell).len() > 0,
{
    edge::lemma_edge_reads_back(cell);
    let t = edge::edge_text(cell);
    assert(!text::is_space(t[0]) && !text::is_space(t[t.len() - 1]));
    lemma_word_has_no_break(t);
}

proof fn lemma_library(ls: Seq<Seq<char>>, s: SettingsView, v: SettingsView)
    requires
        after_lines(ls) == (Reading { settings: s, open: None }),
        s.root is None,
        storable_view(v),
    ensures
        after_lines(library_lines(ls, v)) == (Reading {
            settings: SettingsView {
                view: v.view,
                sort: v.sort,
                descending: v.descending,
                stack_variants: v.stack_variants,
                cell: v.cell,
                root: v.root,
                ..s
            },
            open: None,
        }),
{
    lemma_step_blank(ls);
    let l0 = ls.push(Seq::empty());
    lemma_put(l0, s, Key::View, v);
    let l1 = l0.push(line(Key::View, view_text(v.view)));
    let s1 = taking(s, Key::View, v);
    lemma_put(l1, s1, Key::Sort, v);
    let l2 = l1.push(line(Key::Sort, sort_text(v.sort)));
    let s2 = taking(s1, Key::Sort, v);
    lemma_put(l2, s2, Key::Descending, v);
    let l3 = l2.push(line(Key::Descending, bool_text(v.descending)));
    let s3 = taking(s2, Key::Descending, v);
    lemma_put(l3, s3, Key::StackVariants, v);
    let l4 = l3.push(line(Key::StackVariants, bool_text(v.stack_variants)));
    let s4 = taking(s3, Key::StackVariants, v);
    lemma_edge_is_keepable(v.cell);
    lemma_step(l4, Key::Cell, edge::edge_text(v.cell));
    let l5 = l4.push(line(Key::Cell, edge::edge_text(v.cell)));
    let s5 = SettingsView { cell: v.cell, ..s4 };
    assert(with_value(s4, Key::Cell, edge::edge_text(v.cell)) == s5) by {
        reveal(with_value);
        edge::lemma_edge_reads_back(v.cell);
    }
    if let Some(root) = v.root {
        lemma_step(l5, Key::Root, root);
        assert(with_value(s5, Key::Root, root) == (SettingsView { root: v.root, ..s5 })) by {
            reveal(with_value);
        }
        assert(library_lines(ls, v) == l5.push(line(Key::Root, root)));
    } else {
        assert(library_lines(ls, v) == l5);
    }
}

/// What is read before the collections: everything but them.
proof fn lemma_body(v: SettingsView)
    requires
        storable_view(v),
    ensures
        after_lines(library_lines(view_lines(window_lines(head_lines(), v.window), v), v)) == (
        Reading { settings: SettingsView { collections: Seq::empty(), ..v }, open: None }),
{
    lemma_head();
    let s = default_settings();
    let ls = head_lines();
    lemma_window(ls, s, v.window);
    let s = SettingsView { window: v.window, ..s };
    let ls = window_lines(ls, v.window);
    lemma_view(ls, s, v);
    let s = SettingsView {
        background: v.background,
        grid: v.grid,
        bbox: v.bbox,
        axes: v.axes,
        occlusion: v.occlusion,
        msaa: v.msaa,
        orthographic: v.orthographic,
        ..s
    };
    let ls = view_lines(ls, v);
    lemma_library(ls, s, v);
}

proof fn lemma_members(
    ls: Seq<Seq<char>>,
    s: SettingsView,
    name: Seq<char>,
    members: Seq<Seq<char>>,
)
    requires
        after_lines(ls) == (Reading {
            settings: s,
            open: Some(CollectionView { name, members: Seq::empty() }),
        }),
        forall|i: int|
            0 <= i < members.len() ==> keepable(#[trigger] members[i]) && members[i].len() > 0,
    ensures
        after_lines(member_lines(ls, members)) == (Reading {
            settings: s,
            open: Some(CollectionView { name, members }),
        }),
    decreases members.len(),
{
    if members.len() == 0 {
        assert(members =~= Seq::empty());
    } else {
        let before = members.drop_last();
        assert forall|i: int| 0 <= i < before.len() implies keepable(#[trigger] before[i])
            && before[i].len() > 0 by {
            assert(keepable(members[i]));
        }
        lemma_members(ls, s, name, before);
        assert(keepable(members.last()));
        lemma_step(member_lines(ls, before), Key::Member, members.last());
        assert(before.push(members.last()) =~= members);
    }
}

proof fn lemma_collections(
    ls: Seq<Seq<char>>,
    s: SettingsView,
    collections: Seq<CollectionView>,
)
    requires
        after_lines(ls) == (Reading { settings: s, open: None }),
        s.collections.len() == 0,
        forall|i: int|
            0 <= i < collections.len() ==> storable_collection(#[trigger] collections[i]),
    ensures
        closed_off(after_lines(collection_lines(ls, collections))).settings == (SettingsView {
            collections,
            ..s
        }),
    decreases collections.len(),
{
    if collections.len() == 0 {
        assert(s.collections =~= collections);
    } else {
        let before = collections.drop_last();
        assert forall|i: int| 0 <= i < before.len() implies storable_collection(
            #[trigger] before[i],
        ) by {
            assert(storable_collection(collections[i]));
        }
        lemma_collections(ls, s, before);
        let c = collections.last();
        assert(storable_collection(c));
        let had = collection_lines(ls, before);
        lemma_step_blank(had);
        lemma_step(had.push(Seq::empty()), Key::Collection, c.name);
        let opened = had.push(Seq::empty()).push(line(Key::Collection, c.name));
        let now = SettingsView { collections: before, ..s };
        assert(after_lines(opened) == (Reading {
            settings: now,
            open: Some(CollectionView { name: c.name, members: Seq::empty() }),
        }));
        lemma_members(opened, now, c.name, c.members);
        assert(before.push(c) =~= collections);
    }
}

proof fn lemma_split_lines(ls: Seq<Seq<char>>)
    requires
        forall|i: int| 0 <= i < ls.len() ==> !(#[trigger] ls[i]).contains('\n'),
    ensures
        text::split(lines_text(ls), '\n') == ls.push(Seq::empty()),
    decreases ls.len(),
{
    let t = lines_text(ls);
    if ls.len() == 0 {
        assert(text::split(t, '\n') =~= ls.push(Seq::empty()));
    } else {
        let rest = ls.subrange(1, ls.len() as int);
        assert forall|i: int| 0 <= i < rest.len() implies !(#[trigger] rest[i]).contains('\n') by {
            assert(rest[i] == ls[i + 1]);
        }
        lemma_split_lines(rest);
        let l = ls[0];
        let n = l.len() as int;
        assert(!l.contains('\n'));
        assert forall|i: int| 0 <= i < n implies t[i] != '\n' by {
            assert(t[i] == l[i]);
            assert(l.contains(l[i]));
        }
        assert(t[n] == '\n');
        text::lemma_find_is(t, '\n', n);
        assert(t.subrange(0, n) =~= l);
        assert(t.subrange(n + 1, t.len() as int) =~= lines_text(rest));
        assert(text::split(t, '\n') =~= ls.push(Seq::empty()));
    }
}

proof fn lemma_line_has_no_break(key: Key, v: Seq<char>)
    requires
        key != Key::Unknown,
        !v.contains('\n'),
    ensures
        !line(key, v).contains('\n'),
{
    lemma_key_round_trip(key);
    reveal_strlit(" = ");
    let (k, l) = (key_text(key), line(key, v));
    if l.contains('\n') {
        let i = choose|i: int| 0 <= i < l.len() && l[i] == '\n';
        if i < k.len() {
            assert(k[i] == '\n');
        } else if i >= k.len() + 3 {
            assert(v[i - k.len() - 3] == '\n');
        } else {
            assert(l[i] == " = "@[i - k.len()]);
        }
    }
}

/// Whether no line of some has a line break in it.
spec fn unbroken(ls: Seq<Seq<char>>) -> bool {
    forall|i: int| 0 <= i < ls.len() ==> !(#[trigger] ls[i]).contains('\n')
}

proof fn lemma_unbroken_push(ls: Seq<Seq<char>>, key: Key, v: Seq<char>)
    requires
        unbroken(ls),
        key != Key::Unknown,
        !v.contains('\n'),
    ensures
        unbroken(ls.push(line(key, v))),
        unbroken(ls.push(Seq::empty())),
{
    lemma_line_has_no_break(key, v);
}

proof fn lemma_word_has_no_break(w: Seq<char>)
    requires
        text::is_word(w),
    ensures
        !w.contains('\n'),
{
    if w.contains('\n') {
        let i = choose|i: int| 0 <= i < w.len() && w[i] == '\n';
        assert(!text::is_space(w[i]));
    }
}

proof fn lemma_words_have_no_break()
    ensures
        !"true"@.contains('\n'),
        !"false"@.contains('\n'),
        !"dark"@.contains('\n'),
        !"light"@.contains('\n'),
        !"grid"@.contains('\n'),
        !"list"@.contains('\n'),
        !"name"@.contains('\n'),
        !"extent"@.contains('\n'),
        !"voxels"@.contains('\n'),
        !"modified"@.contains('\n'),
{
    reveal_strlit("true");
    reveal_strlit("false");
    reveal_strlit("dark");
    reveal_strlit("light");
    reveal_strlit("grid");
    reveal_strlit("list");
    reveal_strlit("name");
    reveal_strlit("extent");
    reveal_strlit("voxels");
    reveal_strlit("modified");
}

proof fn lemma_body_unbroken(v: SettingsView)
    requires
        storable_view(v),
    ensures
        unbroken(library_lines(view_lines(window_lines(head_lines(), v.window), v), v)),
{
    lemma_words_have_no_break();
    lemma_head_unbroken();
    let ls = head_lines();
    lemma_window_unbroken(ls, v.window);
    let ls = window_lines(ls, v.window);
    lemma_view_unbroken(ls, v);
    let ls = view_lines(ls, v);
    lemma_unbroken_push(ls, Key::View, view_text(v.view));
    let ls = ls.push(Seq::empty());
    lemma_unbroken_push(ls, Key::View, view_text(v.view));
    let ls = ls.push(line(Key::View, view_text(v.view)));
    lemma_unbroken_push(ls, Key::Sort, sort_text(v.sort));
    let ls = ls.push(line(Key::Sort, sort_text(v.sort)));
    lemma_unbroken_push(ls, Key::Descending, bool_text(v.descending));
    let ls = ls.push(line(Key::Descending, bool_text(v.descending)));
    lemma_unbroken_push(ls, Key::StackVariants, bool_text(v.stack_variants));
    let ls = ls.push(line(Key::StackVariants, bool_text(v.stack_variants)));
    lemma_edge_is_keepable(v.cell);
    lemma_unbroken_push(ls, Key::Cell, edge::edge_text(v.cell));
    let ls = ls.push(line(Key::Cell, edge::edge_text(v.cell)));
    if let Some(root) = v.root {
        lemma_unbroken_push(ls, Key::Root, root);
    }
}

proof fn lemma_head_unbroken()
    ensures
        unbroken(head_lines()),
{
    reveal_strlit("# voxview settings");
    reveal_strlit("# Edit freely: unknown keys are ignored.");
}

proof fn lemma_window_unbroken(ls: Seq<Seq<char>>, w: Window)
    requires
        unbroken(ls),
    ensures
        unbroken(window_lines(ls, w)),
{
    lemma_words_have_no_break();
    text::lemma_signed_is_a_word(w.width as int);
    text::lemma_signed_is_a_word(w.height as int);
    lemma_word_has_no_break(text::decimal(w.width as nat));
    lemma_word_has_no_break(text::decimal(w.height as nat));
    lemma_unbroken_push(ls, Key::Width, text::decimal(w.width as nat));
    let ls = ls.push(line(Key::Width, text::decimal(w.width as nat)));
    lemma_unbroken_push(ls, Key::Height, text::decimal(w.height as nat));
    let ls = ls.push(line(Key::Height, text::decimal(w.height as nat)));
    if let Some(n) = w.x {
        text::lemma_signed_is_a_word(n as int);
        lemma_word_has_no_break(text::signed(n as int));
        lemma_unbroken_push(ls, Key::X, text::signed(n as int));
    }
    let ls = position_lines(ls, Key::X, w.x);
    if let Some(n) = w.y {
        text::lemma_signed_is_a_word(n as int);
        lemma_word_has_no_break(text::signed(n as int));
        lemma_unbroken_push(ls, Key::Y, text::signed(n as int));
    }
    let ls = position_lines(ls, Key::Y, w.y);
    lemma_unbroken_push(ls, Key::Maximized, bool_text(w.maximized));
}

proof fn lemma_view_unbroken(ls: Seq<Seq<char>>, v: SettingsView)
    requires
        unbroken(ls),
    ensures
        unbroken(view_lines(ls, v)),
{
    lemma_words_have_no_break();
    text::lemma_signed_is_a_word(v.msaa as int);
    lemma_word_has_no_break(text::decimal(v.msaa as nat));
    lemma_unbroken_push(ls, Key::Grid, bool_text(v.grid));
    let ls = ls.push(Seq::empty());
    lemma_unbroken_push(ls, Key::Background, background_text(v.background));
    let ls = ls.push(line(Key::Background, background_text(v.background)));
    lemma_unbroken_push(ls, Key::Grid, bool_text(v.grid));
    let ls = ls.push(line(Key::Grid, bool_text(v.grid)));
    lemma_unbroken_push(ls, Key::Bbox, bool_text(v.bbox));
    let ls = ls.push(line(Key::Bbox, bool_text(v.bbox)));
    lemma_unbroken_push(ls, Key::Axes, bool_text(v.axes));
    let ls = ls.push(line(Key::Axes, bool_text(v.axes)));
    lemma_unbroken_push(ls, Key::Occlusion, bool_text(v.occlusion));
    let ls = ls.push(line(Key::Occlusion, bool_text(v.occlusion)));
    lemma_unbroken_push(ls, Key::Msaa, text::decimal(v.msaa as nat));
    let ls = ls.push(line(Key::Msaa, text::decimal(v.msaa as nat)));
    lemma_unbroken_push(ls, Key::Orthographic, bool_text(v.orthographic));
}

proof fn lemma_members_unbroken(ls: Seq<Seq<char>>, members: Seq<Seq<char>>)
    requires
        unbroken(ls),
    ensures
        unbroken(member_lines(ls, members)),
    decreases members.len(),
{
    if members.len() > 0 {
        let before = member_lines(ls, members.drop_last());
        lemma_members_unbroken(ls, members.drop_last());
        if !members.last().contains('\n') {
            lemma_unbroken_push(before, Key::Member, members.last());
        }
    }
}

proof fn lemma_collections_unbroken(ls: Seq<Seq<char>>, collections: Seq<CollectionView>)
    requires
        unbroken(ls),
    ensures
        unbroken(collection_lines(ls, collections)),
    decreases collections.len(),
{
    if collections.len() > 0 {
        let before = collection_lines(ls, collections.drop_last());
        lemma_collections_unbroken(ls, collections.drop_last());
        let c = collections.last();
        if !(c.name.contains('\n') || c.name.len() == 0) {
            lemma_unbroken_push(before, Key::Collection, c.name);
            lemma_unbroken_push(before.push(Seq::empty()), Key::Collection, c.name);
            lemma_members_unbroken(
                before.push(Seq::empty()).push(line(Key::Collection, c.name)),
                c.members,
            );
        }
    }
}

proof fn lemma_parsed_lines(ls: Seq<Seq<char>>)
    requires
        unbroken(ls),
    ensures
        after_lines(text::split(lines_text(ls), '\n')) == after_lines(ls),
{
    lemma_split_lines(ls);
    lemma_step_blank(ls);
}

/// Settings that are written and read again come back in every field.
///
/// What the text format cannot hold is left out: a window or a sample count
/// that reading would correct, and texts that do not survive on a line.
pub proof fn lemma_round_trip_keeps_every_field(s: SettingsView)
    requires
        storable_view(s),
        forall|i: int|
            0 <= i < s.collections.len() ==> storable_collection(#[trigger] s.collections[i]),
    ensures
        parsed(lines_text(settings_lines(s))) == s,
{
    lemma_body(s);
    lemma_body_unbroken(s);
    let body = library_lines(view_lines(window_lines(head_lines(), s.window), s), s);
    lemma_collections_unbroken(body, s.collections);
    lemma_parsed_lines(settings_lines(s));
    lemma_collections(body, SettingsView { collections: Seq::empty(), ..s }, s.collections);
}

/// Whether two settings agree on everything but the collections.
pub open spec fn same_but_collections(a: SettingsView, b: SettingsView) -> bool {
    a == (SettingsView { collections: a.collections, ..b })
}

proof fn lemma_members_touch_nothing_else(
    ls: Seq<Seq<char>>,
    s: SettingsView,
    members: Seq<Seq<char>>,
)
    requires
        same_but_collections(after_lines(ls).settings, s),
    ensures
        same_but_collections(after_lines(member_lines(ls, members)).settings, s),
    decreases members.len(),
{
    if members.len() > 0 {
        lemma_members_touch_nothing_else(ls, s, members.drop_last());
        if !members.last().contains('\n') {
            let before = member_lines(ls, members.drop_last());
            let l = line(Key::Member, members.last());
            lemma_line_key(Key::Member, members.last());
            assert(before.push(l).drop_last() =~= before);
        }
    }
}

proof fn lemma_collections_touch_nothing_else(
    ls: Seq<Seq<char>>,
    s: SettingsView,
    collections: Seq<CollectionView>,
)
    requires
        same_but_collections(after_lines(ls).settings, s),
    ensures
        same_but_collections(after_lines(collection_lines(ls, collections)).settings, s),
    decreases collections.len(),
{
    if collections.len() > 0 {
        lemma_collections_touch_nothing_else(ls, s, collections.drop_last());
        let c = collections.last();
        if !(c.name.contains('\n') || c.name.len() == 0) {
            let before = collection_lines(ls, collections.drop_last());
            lemma_step_blank(before);
            let blank = before.push(Seq::empty());
            let l = line(Key::Collection, c.name);
            lemma_line_key(Key::Collection, c.name);
            assert(blank.push(l).drop_last() =~= blank);
            lemma_members_touch_nothing_else(blank.push(l), s, c.members);
        }
    }
}

/// No name and no path of a collection, whatever is in it, can change any
/// other setting: a line break cannot forge a key.
pub proof fn lemma_collections_cannot_forge_a_key(s: SettingsView)
    requires
        storable_view(s),
    ensures
        same_but_collections(parsed(lines_text(settings_lines(s))), s),
{
    lemma_body(s);
    lemma_body_unbroken(s);
    let body = library_lines(view_lines(window_lines(head_lines(), s.window), s), s);
    lemma_collections_unbroken(body, s.collections);
    lemma_parsed_lines(settings_lines(s));
    lemma_collections_touch_nothing_else(body, s, s.collections);
}

/// Whatever the text, the settings it gives open a usable window, ask for a
/// sample count there is and cells of 48 to 512 points, name a root if at all,
/// and hold collections whose names and paths are there, have no line break in them and no white space
/// around them.
pub proof fn lemma_parsing_never_fails(t: Seq<char>)
    ensures
        storable_view(parsed(t)),
        forall|i: int|
            0 <= i < parsed(t).collections.len() ==> storable_collection(
                #[trigger] parsed(t).collections[i],
            ),
{
    text::lemma_split_apart(t, '\n');
    lemma_reading_ok(text::split(t, '\n'));
    lemma_usable_is_stable(closed_off(after_lines(text::split(t, '\n'))).settings.window);
}

/// Settings that were read from any text at all read back the same after they
/// were written.
pub proof fn lemma_what_was_read_reads_back(t: Seq<char>)
    ensures
        parsed(lines_text(settings_lines(parsed(t)))) == parsed(t),
{
    lemma_parsing_never_fails(t);
    lemma_round_trip_keeps_every_field(parsed(t));
}

spec fn reading_ok(r: Reading) -> bool {
    &&& settings_ok(r.settings)
    &&& r.open matches Some(c) ==> storable_collection(c)
    &&& forall|i: int|
        0 <= i < r.settings.collections.len() ==> storable_collection(
            #[trigger] r.settings.collections[i],
        )
}

spec fn settings_ok(s: SettingsView) -> bool {
    &&& legal_msaa(s.msaa)
    &&& edge::is_edge(s.cell)
    &&& s.root matches Some(r) ==> keepable(r) && r.len() > 0
}

proof fn lemma_reading_ok(ls: Seq<Seq<char>>)
    requires
        unbroken(ls),
    ensures
        reading_ok(after_lines(ls)),
    decreases ls.len(),
{
    if ls.len() > 0 {
        let r = after_lines(ls.drop_last());
        lemma_reading_ok(ls.drop_last());
        assert(reading_ok(closed_off(r)));
        if let Some((k, v)) = entry(ls.last()) {
            lemma_value_keepable(ls.last());
            lemma_value_ok(closed_off(r).settings, key_named(k), v);
        }
    }
}

proof fn lemma_value_keepable(line: Seq<char>)
    requires
        !line.contains('\n'),
    ensures
        entry(line) matches Some((_, v)) ==> keepable(v),
{
    let l = text::trim(line);
    let at = text::find(l, '=');
    text::lemma_find(l, '=');
    text::lemma_trim_trims(line);
    assert(!l.contains('\n'));
    if at < l.len() {
        let rest = l.subrange(at + 1, l.len() as int);
        text::lemma_trim_trims(rest);
        if rest.contains('\n') {
            let k = choose|k: int| 0 <= k < rest.len() && rest[k] == '\n';
            assert(l[at + 1 + k] == '\n');
        }
        assert(!text::trim(rest).contains('\n'));
    }
}

proof fn lemma_value_ok(s: SettingsView, key: Key, v: Seq<char>)
    requires
        settings_ok(s),
        keepable(v),
    ensures
        settings_ok(with_value(s, key, v)),
        with_value(s, key, v).collections == s.collections,
{
    reveal(with_value);
    if key is Cell {
        edge::lemma_what_is_read_is_an_edge(v);
    }
}

// ---- where they are kept ----------------------------------------------------
/// The settings file, where the platform's convention names a place for it.
pub open spec fn place(
    platform: Platform,
    roaming: Option<PathView>,
    xdg: Option<PathView>,
    home: Option<PathView>,
) -> Option<PathView> {
    let base = match platform {
        Platform::Windows => roaming,
        Platform::MacOs => match home {
            Some(h) => Some(h.join("Library"@).join("Application Support"@)),
            None => None,
        },
        Platform::Unix => match xdg {
            Some(x) => Some(x),
            None => match home {
                Some(h) => Some(h.join(".config"@)),
                None => None,
            },
        },
    };
    match base {
        Some(b) => Some(b.join("voxview"@).join("settings.txt"@)),
        None => None,
    }
}

/// A path that may be missing, as texts.
pub open spec fn opt_path(p: Option<FilePath>) -> Option<PathView> {
    match p {
        Some(p) => Some(p@),
        None => None,
    }
}

/// Where the settings file is, following each platform's convention: under
/// what the system names for it, or under the home directory.
pub fn path(
    platform: Platform,
    roaming: Option<FilePath>,
    xdg: Option<FilePath>,
    home: Option<FilePath>,
) -> (r: Option<FilePath>)
    ensures
        opt_path(r) == place(platform, opt_path(roaming), opt_path(xdg), opt_path(home)),
{
    let base = match platform {
        Platform::Windows => roaming,
        Platform::MacOs => match home {
            Some(h) => Some(h.join("Library").join("Application Support")),
            None => None,
        },
        Platform::Unix => match xdg {
            Some(x) => Some(x),
            None => match home {
                Some(h) => Some(h.join(".config")),
                None => None,
            },
        },
    };
    match base {
        Some(b) => Some(b.join("voxview").join("settings.txt")),
        None => None,
    }
}

// ---- what a file of settings can do -----------------------------------------
/// A window comes back as it was where it is between 480 by 360 and 16384 by
/// 16384, and at the nearest such size otherwise. Its place is kept where both
/// coordinates are between -32000 and 32000, and else forgotten, both of them.
pub proof fn lemma_a_window_can_be_seen(w: Window)
    ensures
        480 <= w.usable().width <= 16_384,
        360 <= w.usable().height <= 16_384,
        480 <= w.width <= 16_384 ==> w.usable().width == w.width,
        360 <= w.height <= 16_384 ==> w.usable().height == w.height,
        w.width < 480 ==> w.usable().width == 480,
        w.width > 16_384 ==> w.usable().width == 16_384,
        w.height < 360 ==> w.usable().height == 360,
        w.height > 16_384 ==> w.usable().height == 16_384,
        (w.x matches Some(n) ==> -32_000 <= n < 32_000) && (w.y matches Some(n) ==> -32_000 <= n
            < 32_000) ==> w.usable().x == w.x && w.usable().y == w.y,
        (w.x matches Some(n) && (n < -32_000 || n >= 32_000)) || (w.y matches Some(n) && (n
            < -32_000 || n >= 32_000)) ==> w.usable().x is None && w.usable().y is None,
        w.usable().maximized == w.maximized,
{
}

/// A switch is on after "true", off after "false" and as it was after anything
/// else, and each key touches its own setting alone.
pub proof fn lemma_a_switch_is_true_or_false(s: SettingsView, v: Seq<char>)
    ensures
        ({
            let turned = |was: bool| v == "true"@ || (was && v != "false"@);
            &&& with_value(s, Key::Grid, v) == (SettingsView { grid: turned(s.grid), ..s })
            &&& with_value(s, Key::Bbox, v) == (SettingsView { bbox: turned(s.bbox), ..s })
            &&& with_value(s, Key::Axes, v) == (SettingsView { axes: turned(s.axes), ..s })
            &&& with_value(s, Key::Occlusion, v) == (SettingsView {
                occlusion: turned(s.occlusion),
                ..s
            })
            &&& with_value(s, Key::Orthographic, v) == (SettingsView {
                orthographic: turned(s.orthographic),
                ..s
            })
            &&& with_value(s, Key::Descending, v) == (SettingsView {
                descending: turned(s.descending),
                ..s
            })
            &&& with_value(s, Key::StackVariants, v) == (SettingsView {
                stack_variants: turned(s.stack_variants),
                ..s
            })
            &&& with_value(s, Key::Maximized, v) == (SettingsView {
                window: Window { maximized: turned(s.window.maximized), ..s.window },
                ..s
            })
        }),
{
    reveal(with_value);
    lemma_words_are_trim();
}

/// Samples are taken only as 1, 2, 4 or 8; any other number, and what is no
/// number, leaves them as they were.
pub proof fn lemma_samples_are_one_two_four_or_eight(s: SettingsView, v: Seq<char>)
    ensures
        with_value(s, Key::Msaa, v) == (SettingsView {
            msaa: with_value(s, Key::Msaa, v).msaa,
            ..s
        }),
        text::parse_nat(v) matches Some(n) && (n == 1 || n == 2 || n == 4 || n == 8) ==> with_value(
            s,
            Key::Msaa,
            v,
        ).msaa == text::parse_nat(v)->0,
        !(text::parse_nat(v) matches Some(n) && (n == 1 || n == 2 || n == 4 || n == 8))
            ==> with_value(s, Key::Msaa, v) == s,
{
    reveal(with_value);
}

proof fn lemma_read_samples(lines: Seq<Seq<char>>)
    ensures
        ({
            let n = after_lines(lines).settings.msaa;
            n == 1 || n == 2 || n == 4 || n == 8
        }),
    decreases lines.len(),
{
    if lines.len() > 0 {
        lemma_read_samples(lines.drop_last());
        reveal(with_value);
    }
}

/// Whatever a file holds, the settings read from it can be used: the samples
/// are 1, 2, 4 or 8 and the window is of a size that fits a screen.
pub proof fn lemma_any_file_gives_usable_settings(t: Seq<char>)
    ensures
        ({
            let s = parsed(t);
            &&& s.msaa == 1 || s.msaa == 2 || s.msaa == 4 || s.msaa == 8
            &&& 480 <= s.window.width <= 16_384
            &&& 360 <= s.window.height <= 16_384
        }),
{
    lemma_read_samples(text::split(t, '\n'));
}

/// A blank line, a comment and a line without an equals sign say nothing, and a
/// key that is not known changes no setting.
pub proof fn lemma_what_is_not_known_is_passed_over(r: Reading, l: Seq<char>)
    ensures
        text::trim(l).len() == 0 ==> after_line(r, l) == r,
        text::trim(l).len() > 0 && text::trim(l)[0] == '#' ==> after_line(r, l) == r,
        !text::trim(l).contains('=') ==> after_line(r, l) == r,
        (entry(l) matches Some((k, v)) && forall|key: Key|
            key != Key::Unknown ==> k != #[trigger] key_text(key)) ==> closed_off(
            after_line(r, l),
        ).settings == closed_off(r).settings,
{
    let t = text::trim(l);
    if !t.contains('=') {
        text::lemma_find(t, '=');
    }
    if let Some((k, v)) = entry(l) {
        reveal(with_value);
        if forall|key: Key| key != Key::Unknown ==> k != #[trigger] key_text(key) {
            assert(key_named(k) == Key::Unknown) by {
                assert(k != key_text(Key::Width) && k != key_text(Key::Height));
                assert(k != key_text(Key::X) && k != key_text(Key::Y));
                assert(k != key_text(Key::Maximized) && k != key_text(Key::Background));
                assert(k != key_text(Key::Grid) && k != key_text(Key::Bbox));
                assert(k != key_text(Key::Axes) && k != key_text(Key::Occlusion));
                assert(k != key_text(Key::Msaa) && k != key_text(Key::Orthographic));
                assert(k != key_text(Key::View) && k != key_text(Key::Sort));
                assert(k != key_text(Key::Descending) && k != key_text(Key::StackVariants));
                assert(k != key_text(Key::Cell) && k != key_text(Key::Root));
                assert(k != key_text(Key::Collection) && k != key_text(Key::Member));
            }
        }
    }
}

/// A later line of a kind overrules an earlier one.
pub proof fn lemma_the_last_word_counts(s: SettingsView, a: Seq<char>, b: Seq<char>)
    ensures
        b == "true"@ || b == "false"@ ==> with_value(with_value(s, Key::Grid, a), Key::Grid, b)
            == with_value(s, Key::Grid, b),
        b.len() > 0 ==> with_value(with_value(s, Key::Root, a), Key::Root, b).root == Some(b),
{
    reveal(with_value);
    lemma_words_are_trim();
}

} // verus!
