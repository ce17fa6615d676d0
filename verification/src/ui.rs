//! What the browser and the viewer's chrome say, and what a click there means.
//!
//! Drawing is elsewhere. What to show is decided in [`crate::library`]; what
//! happens when you click is handed back as an [`Action`] rather than done on
//! the spot, so the browser never has to know about windows, cameras or file
//! watchers.

use vstd::prelude::*;

use crate::browse;
use crate::library;
use crate::library::{Library, Load, Row, RowView, Scope, Sort};
use crate::paths;
use crate::paths::{FilePath, PathView};
use crate::rail;
use crate::rows;
use crate::selection;
use crate::sysfont;
use crate::sysfont::{Script, Scripts};
use crate::text;
use vstd::view::View as _;

verus! {

/// What the browser wants the application to do.
#[derive(Clone, Debug, PartialEq, Eq)]
pub enum Action {
    /// Open this asset in the viewer.
    Open(usize),
    /// Write a PNG next to each of these assets.
    Screenshot(Vec<usize>),
    /// Leave the viewer and go back to the grid.
    ToLibrary,
    Toggle(Toggle),
    Reload,
}

#[derive(Clone, Copy, Debug, PartialEq, Eq, Structural)]
pub enum Toggle {
    Grid,
    Bbox,
    Axes,
    Occlusion,
    Orthographic,
    Msaa,
    Background,
}

/// How far the background scan has got, for the status bar.
#[derive(Clone, Copy, Debug, PartialEq, Eq, Structural)]
pub struct ScanStatus {
    pub found: usize,
    pub parsed: usize,
    pub scanning: bool,
}

impl Default for ScanStatus {
    fn default() -> (r: ScanStatus)
        ensures
            r == (ScanStatus { found: 0, parsed: 0, scanning: false }),
    {
        ScanStatus { found: 0, parsed: 0, scanning: false }
    }
}

/// The viewer's state, for the overlay drawn on top of the model.
pub struct ViewerChrome<'a> {
    pub current: Option<usize>,
    /// The file on screen. Drawn here as well as in the HUD, because the HUD's
    /// bitmap font is ASCII and a name in another script reaches it as `?`.
    pub name: &'a str,
    pub show_grid: bool,
    pub show_bbox: bool,
    pub show_axes: bool,
    pub occlusion: bool,
    pub orthographic: bool,
    /// Multisample count in force, for the pill that cycles it.
    pub samples: u32,
    pub error: Option<&'a str>,
}

/// Which face the browser is showing.
pub enum Chrome<'a> {
    Library(ScanStatus),
    Viewer(ViewerChrome<'a>),
}

/// How loudly something is said.
#[derive(Clone, Copy, Debug, PartialEq, Eq, Structural)]
pub enum Tone {
    Faint,
    Dim,
    Good,
    Warn,
    Bad,
}

// ---- the browser's own state ------------------------------------------------
/// What the browser remembers from one frame to the next.
pub struct Ui {
    /// Set by `/` so the find field takes focus on the next frame.
    pub focus_find: bool,
    pub new_collection: String,
    /// Columns the grid laid out last frame, so the arrow keys know what a row
    /// is worth.
    pub columns: usize,
    /// A row the keyboard moved to that the scroll area has yet to reveal.
    pub pending_scroll: Option<usize>,
    /// `Space`: the focused asset, large, without leaving the grid.
    pub peek: bool,
    /// `C`: choose a collection for the selection.
    pub prompt: bool,
    /// Scripts seen in names that the bundled font cannot draw, and not yet
    /// answered with a system font.
    pub wanted_scripts: Scripts,
    /// Scripts a font has already been looked for, so each is looked for once.
    pub loaded_scripts: Scripts,
}

impl Ui {
    /// Both sets of scripts hold scripts, and none is wanted that was looked
    /// for; the grid is no wider than a step of the cursor can be.
    pub open spec fn wf(&self) -> bool {
        &&& self.columns <= isize::MAX
        &&& self.wanted_scripts.wf()
        &&& self.loaded_scripts.wf()
        &&& forall|s: Script| !(#[trigger] self.wanted_scripts.has(s) && self.loaded_scripts.has(s))
    }

    pub fn new() -> (r: Ui)
        ensures
            r.wf(),
            !r.focus_find,
            r.new_collection@.len() == 0,
            r.columns == 1,
            r.pending_scroll is None,
            !r.peek,
            !r.prompt,
            forall|s: Script| !#[trigger] r.wanted_scripts.has(s),
            forall|s: Script| !#[trigger] r.loaded_scripts.has(s),
    {
        Ui {
            focus_find: false,
            new_collection: String::new(),
            columns: 1,
            pending_scroll: None,
            peek: false,
            prompt: false,
            wanted_scripts: Scripts::default(),
            loaded_scripts: Scripts::default(),
        }
    }

    /// Note that `name` is about to be shown, so fonts that can draw it are
    /// found before it is.
    pub fn may_show(&mut self, name: &str)
        requires
            old(self).wf(),
        ensures
            final(self).wf(),
            forall|s: Script| #[trigger]
                final(self).wanted_scripts.has(s) <==> old(self).wanted_scripts.has(s) || (
                sysfont::asks_for(name@, name@.len() as int, s) && !old(self).loaded_scripts.has(s)),
            *final(self) == (Ui { wanted_scripts: final(self).wanted_scripts, ..*old(self) }),
    {
        let scripts = sysfont::scripts_beyond(name);
        let all = Script::all();
        let mut i: usize = 0;
        while i < 7
            invariant
                i <= 7,
                all@ == Script::every(),
                self.wf(),
                scripts.wf(),
                forall|s: Script| #[trigger]
                    scripts.has(s) <==> sysfont::asks_for(name@, name@.len() as int, s),
                forall|s: Script| #[trigger]
                    self.wanted_scripts.has(s) <==> old(self).wanted_scripts.has(s) || (
                    scripts.has(s) && !old(self).loaded_scripts.has(s) && Script::every().subrange(
                        0,
                        i as int,
                    ).contains(s)),
                *self == (Ui { wanted_scripts: self.wanted_scripts, ..*old(self) }),
            decreases 7 - i,
        {
            let script = all[i];
            let ghost was = self.wanted_scripts;
            if scripts.contains(script) && !self.loaded_scripts.contains(script) {
                self.wanted_scripts.insert(script);
            }
            proof {
                let upto = Script::every().subrange(0, i as int + 1);
                let before = Script::every().subrange(0, i as int);
                assert(upto =~= before.push(script));
                assert forall|s: Script| #[trigger]
                    self.wanted_scripts.has(s) <==> old(self).wanted_scripts.has(s) || (
                    scripts.has(s) && !old(self).loaded_scripts.has(s) && upto.contains(s)) by {
                    assert(was.has(s) <==> old(self).wanted_scripts.has(s) || (scripts.has(s)
                        && !old(self).loaded_scripts.has(s) && before.contains(s)));
                    if upto.contains(s) && s != script {
                        let k = choose|k: int| 0 <= k < upto.len() && upto[k] == s;
                        assert(before[k] == s);
                    }
                    if before.contains(s) {
                        let k = choose|k: int| 0 <= k < before.len() && before[k] == s;
                        assert(upto[k] == s);
                    }
                    assert(upto[i as int] == script);
                }
            }
            i += 1;
        }
        proof {
            let upto = Script::every().subrange(0, 7);
            assert forall|s: Script| #[trigger] upto.contains(s) by {
                lemma_every_script_is_listed(s);
                let k = choose|k: int| 0 <= k < 7 && Script::every()[k] == s;
                assert(upto[k] == s);
            }
            assert forall|s: Script| #[trigger]
                self.wanted_scripts.has(s) <==> old(self).wanted_scripts.has(s) || (
                sysfont::asks_for(name@, name@.len() as int, s)
                    && !old(self).loaded_scripts.has(s)) by {
                assert(upto.contains(s));
                assert(scripts.has(s) <==> sysfont::asks_for(name@, name@.len() as int, s));
            }
        }
    }

    /// Take the scripts a font is to be looked for now.
    ///
    /// They count as done whether or not a font turns up: a script with no font
    /// on this machine has no font on the next frame either, and re-reading the
    /// directories every frame would be worse than boxes.
    pub fn take_wanted(&mut self) -> (r: Scripts)
        requires
            old(self).wf(),
        ensures
            final(self).wf(),
            r == old(self).wanted_scripts,
            forall|s: Script| !#[trigger] final(self).wanted_scripts.has(s),
            forall|s: Script| #[trigger]
                final(self).loaded_scripts.has(s) <==> old(self).loaded_scripts.has(s) || r.has(s),
            *final(self) == (Ui {
                wanted_scripts: final(self).wanted_scripts,
                loaded_scripts: final(self).loaded_scripts,
                ..*old(self)
            }),
    {
        let wanted = self.wanted_scripts;
        self.wanted_scripts = Scripts::default();
        self.loaded_scripts = self.loaded_scripts.union(wanted);
        wanted
    }

    pub fn focus_find(&mut self)
        ensures
            *final(self) == (Ui { focus_find: true, ..*old(self) }),
    {
        self.focus_find = true;
    }

    /// How many cells the grid fitted across last frame. One in list view, so
    /// up and down move a single row either way.
    pub fn columns(&self) -> (r: usize)
        ensures
            r == (if self.columns == 0 {
                1
            } else {
                self.columns
            }),
    {
        if self.columns == 0 {
            1
        } else {
            self.columns
        }
    }

    /// Bring a row into view on the next frame.
    pub fn scroll_to_row(&mut self, row: usize)
        ensures
            *final(self) == (Ui { pending_scroll: Some(row), ..*old(self) }),
    {
        self.pending_scroll = Some(row);
    }

    pub fn toggle_peek(&mut self)
        ensures
            *final(self) == (Ui { peek: !old(self).peek, ..*old(self) }),
    {
        self.peek = !self.peek;
    }

    /// Dismiss whatever overlay is up. Returns true if there was one, so `Esc`
    /// closes it before it means anything else.
    pub fn close_overlay(&mut self) -> (r: bool)
        ensures
            r == (old(self).peek || old(self).prompt),
            *final(self) == (Ui { peek: false, prompt: false, ..*old(self) }),
    {
        let was = self.peek || self.prompt;
        self.peek = false;
        self.prompt = false;
        was
    }

    pub fn prompt_collection(&mut self)
        ensures
            *final(self) == (Ui { prompt: true, ..*old(self) }),
    {
        self.prompt = true;
    }
}

proof fn lemma_every_script_is_listed(s: Script)
    ensures
        exists|k: int| 0 <= k < 7 && Script::every()[k] == s,
{
    let all = Script::every();
    assert(all[0] == Script::Broad && all[1] == Script::MiddleEast && all[2] == Script::Indic
        && all[3] == Script::SouthEastAsian && all[4] == Script::Han && all[5] == Script::Kana
        && all[6] == Script::Hangul);
}

// ---- what a click does ------------------------------------------------------
/// Whether a row is a stack.
pub open spec fn is_stack(row: RowView) -> bool {
    row is Family
}

/// What a click on a row of the grid or the list leaves behind.
///
/// Clicking a stack opens it; the modifier clicks still select, so you can put
/// a whole family in a collection without opening it.
pub open spec fn clicked_row(
    was: Library,
    now: Library,
    row: RowView,
    ctrl: bool,
    shift: bool,
    time: i64,
) -> bool {
    let asset = row.first();
    if is_stack(row) && !ctrl && !shift {
        let turned = Library { cache: None, expanded_families: now.expanded_families, ..was };
        let id = rows::family_id(was, row)->0;
        &&& rows::open_families(now) == rows::toggled(rows::open_families(was), id)
        &&& now.cursor == (match rows::row_of(rows::rows_now(turned, time), asset, 0) {
            Some(i) => i,
            None => was.cursor as int,
        })
        &&& now == (Library { cache: now.cache, cursor: now.cursor, ..turned })
    } else {
        let picked = Library { selection: now.selection, anchor: now.anchor, ..was };
        &&& (now.selection@, now.anchor) == selection::clicked(
            was.selection@,
            was.anchor,
            browse::shown(was, time),
            asset,
            ctrl,
            shift,
        )
        &&& now.cursor == (match rows::row_of(rows::rows_now(picked, time), asset, 0) {
            Some(i) => i,
            None => was.cursor as int,
        })
        &&& now == (Library { cache: now.cache, cursor: now.cursor, ..picked })
    }
}

/// Clicks shared by the grid and the list.
pub fn cell_input(
    lib: &mut Library,
    row: &Row,
    double_clicked: bool,
    clicked: bool,
    ctrl: bool,
    shift: bool,
    now: i64,
) -> (r: Option<Action>)
    requires
        old(lib).wf(),
        row@.wf(),
        rows::is_row(*old(lib), row@),
    ensures
        final(lib).wf(),
        double_clicked ==> r == Some(Action::Open(row@.first())) && final(lib).selection@ == seq![
            row@.first(),
        ] && *final(lib) == (Library {
            selection: final(lib).selection,
            anchor: Some(row@.first()),
            ..*old(lib)
        }),
        !double_clicked ==> r is None,
        !double_clicked && clicked ==> clicked_row(
            *old(lib),
            *final(lib),
            row@,
            ctrl,
            shift,
            now,
        ),
        !double_clicked && !clicked ==> *final(lib) == *old(lib),
{
    let asset: usize = row.lead();
    if double_clicked {
        lib.select_only(asset);
        return Some(Action::Open(asset));
    }
    if clicked {
        let stack = match row {
            Row::Family { .. } => true,
            Row::One(_) => false,
        };
        if stack && !ctrl && !shift {
            lib.toggle_family(row);
        } else {
            lib.click(asset, ctrl, shift, now);
        }
        lib.focus_row(asset, now);
    }
    None
}

/// What a batch action applies to: the selection.
pub fn targets(lib: &Library) -> (r: Vec<usize>)
    ensures
        r@ == lib.selection@,
{
    browse::copy_list(&lib.selection)
}

/// Move into a folder of the rail, opening it where there is more below.
pub fn enter_folder(lib: &mut Library, folder: usize)
    requires
        old(lib).wf(),
        folder < old(lib).folders@.len(),
    ensures
        final(lib).wf(),
        rail::same_but_open(old(lib).folders@, final(lib).folders@),
        forall|i: int|
            0 <= i < old(lib).folders@.len() ==> (#[trigger] final(lib).folders@[i]).expanded == (
            old(lib).folders@[i].expanded || i == folder && old(lib).folders@[i].children@.len()
                > 0),
        ({
            let scope = Scope::Folder(folder);
            if old(lib).scope == scope {
                *final(lib) == (Library { folders: final(lib).folders, ..*old(lib) })
            } else {
                final(lib).selection@.len() == 0 && *final(lib) == (Library {
                    folders: final(lib).folders,
                    scope,
                    selection: final(lib).selection,
                    anchor: None,
                    cursor: 0,
                    cache: None,
                    ..*old(lib)
                })
            }
        }),
{
    if lib.folders[folder].children.len() > 0 && !lib.folders[folder].expanded {
        lib.toggle_folder(folder);
    }
    lib.set_scope(Scope::Folder(folder));
}

/// Whether what was typed can name a collection: there is more to it than
/// white space.
pub fn is_a_name(typed: &str) -> (r: bool)
    ensures
        r == (text::trim(typed@).len() > 0),
{
    text::trimmed(&text::chars_of(typed)).len() > 0
}

/// Make an empty collection, numbered after the ones there are.
pub fn add_collection(lib: &mut Library) -> (r: usize)
    requires
        old(lib).collections@.len() < usize::MAX,
    ensures
        r == old(lib).collections@.len(),
        final(lib).collections@.len() == r + 1,
        final(lib).collections@.drop_last() == old(lib).collections@,
        final(lib).collections@.last().name@ == "Collection "@ + text::decimal((r + 1) as nat),
        final(lib).collections@.last().members@.len() == 0,
        *final(lib) == (Library { collections: final(lib).collections, ..*old(lib) }),
        old(lib).wf() ==> final(lib).wf(),
{
    let n: usize = lib.collections.len() + 1;
    let name = text::cat("Collection ", text::number(n as u64).as_str());
    lib.new_collection(name)
}

/// Sort the library some other way.
pub fn sort_by(lib: &mut Library, sort: Sort)
    ensures
        *final(lib) == (Library { sort, cache: None, ..*old(lib) }),
        old(lib).wf() ==> final(lib).wf(),
{
    lib.sort = sort;
    lib.invalidate();
}

/// Turn the order round.
pub fn flip_order(lib: &mut Library)
    ensures
        *final(lib) == (Library { descending: !old(lib).descending, cache: None, ..*old(lib) }),
        old(lib).wf() ==> final(lib).wf(),
{
    lib.descending = !lib.descending;
    lib.invalidate();
}

/// Stack variants, or show each file for itself.
pub fn flip_stacking(lib: &mut Library)
    ensures
        *final(lib) == (Library {
            stack_variants: !old(lib).stack_variants,
            cache: None,
            ..*old(lib)
        }),
        old(lib).wf() ==> final(lib).wf(),
{
    lib.stack_variants = !lib.stack_variants;
    lib.invalidate();
}

// ---- what the panels say ----------------------------------------------------
/// An `s`, unless there is one.
pub open spec fn plural(n: int) -> Seq<char> {
    if n == 1 {
        ""@
    } else {
        "s"@
    }
}

pub(crate) fn plural_of(n: usize) -> (r: &'static str)
    ensures
        r@ == plural(n as int),
{
    if n == 1 {
        ""
    } else {
        "s"
    }
}

/// Three sides as text.
pub open spec fn sides(dims: Seq<i32>) -> Seq<char> {
    text::signed(dims[0] as int) + " \u{d7} "@ + text::signed(dims[1] as int) + " \u{d7} "@
        + text::signed(dims[2] as int)
}

pub(crate) fn sides_text(dims: &[i32; 3]) -> (r: String)
    ensures
        r@ == sides(dims@),
{
    let mut s = String::new();
    text::push_signed(&mut s, dims[0] as i64);
    text::push_str(&mut s, " \u{d7} ");
    text::push_signed(&mut s, dims[1] as i64);
    text::push_str(&mut s, " \u{d7} ");
    text::push_signed(&mut s, dims[2] as i64);
    assert(s@ =~= sides(dims@));
    s
}

/// The assets a row stands for.
pub open spec fn members_of(row: RowView) -> Seq<usize> {
    match row {
        RowView::One(i) => seq![i],
        RowView::Family { members, .. } => members,
    }
}

/// The extent that the members of a row from one on agree on: a text that says
/// so where one differs, and nothing where one is not read yet.
pub open spec fn agreed(
    assets: Seq<library::Asset>,
    members: Seq<usize>,
    dims: Seq<i32>,
    from: int,
) -> Option<Seq<char>>
    decreases members.len() - from,
{
    if from < 0 || from >= members.len() {
        Some(sides(dims))
    } else {
        match assets[members[from] as int].load {
            Load::Ready(s) => if s.dims@ == dims {
                agreed(assets, members, dims, from + 1)
            } else {
                Some("varies"@)
            },
            _ => None,
        }
    }
}

/// The extent of a row.
pub open spec fn extent_text(lib: Library, row: RowView) -> Option<Seq<char>> {
    let members = members_of(row);
    if members.len() == 0 {
        None
    } else {
        match lib.assets@[members[0] as int].load {
            Load::Ready(s) => agreed(lib.assets@, members, s.dims@, 1),
            _ => None,
        }
    }
}

/// Whether everything a row stands for is an asset of the library.
pub open spec fn row_fits(lib: Library, row: RowView) -> bool {
    forall|i: int|
        0 <= i < members_of(row).len() ==> (#[trigger] members_of(row)[i]) < lib.assets@.len()
}

fn same_sides(a: &[i32; 3], b: &[i32; 3]) -> (r: bool)
    ensures
        r == (a@ == b@),
{
    let r = a[0] == b[0] && a[1] == b[1] && a[2] == b[2];
    proof {
        if r {
            assert(a@ =~= b@);
        }
    }
    r
}

fn row_members(row: &Row) -> (r: Vec<usize>)
    ensures
        r@ == members_of(row@),
{
    match row {
        Row::One(i) => {
            let mut v: Vec<usize> = Vec::new();
            v.push(*i);
            assert(v@ =~= seq![*i]);
            v
        },
        Row::Family { members, .. } => browse::copy_list(members),
    }
}

/// The extent column. A stack whose members disagree says so rather than
/// picking one of them: `crate-0` is 11 x 11 x 10 and `crate-2` is 6 x 6 x 5,
/// and hiding that behind one number would be a lie.
pub fn extent_of(lib: &Library, row: &Row) -> (r: Option<String>)
    requires
        row_fits(*lib, row@),
    ensures
        opt_text(r) == extent_text(*lib, row@),
{
    let members = row_members(row);
    if members.len() == 0 {
        return None;
    }
    assert(members_of(row@)[0] < lib.assets@.len());
    let first: [i32; 3] = match &lib.assets[members[0]].load {
        Load::Ready(s) => s.dims,
        _ => {
            return None;
        },
    };
    let mut i: usize = 1;
    while i < members.len()
        invariant
            1 <= i <= members@.len(),
            members@ == members_of(row@),
            row_fits(*lib, row@),
            extent_text(*lib, row@) == agreed(lib.assets@, members@, first@, i as int),
        decreases members@.len() - i,
    {
        assert(members_of(row@)[i as int] < lib.assets@.len());
        match &lib.assets[members[i]].load {
            Load::Ready(s) => {
                if !same_sides(&s.dims, &first) {
                    return Some(text::copied("varies"));
                }
            },
            _ => {
                return None;
            },
        }
        i += 1;
    }
    Some(sides_text(&first))
}

/// A text that may be missing.
pub open spec fn opt_text(s: Option<String>) -> Option<Seq<char>> {
    match s {
        Some(s) => Some(s@),
        None => None,
    }
}

/// A number over a unit in tenths, to the nearest one; halfway, to the even one.
pub open spec fn tenths(n: int, unit: int) -> int {
    let (q, rem) = (10 * n / unit, 10 * n % unit);
    if 2 * rem > unit || 2 * rem == unit && q % 2 == 1 {
        q + 1
    } else {
        q
    }
}

/// A number with one decimal.
pub open spec fn one_decimal(t: int) -> Seq<char> {
    text::decimal((t / 10) as nat) + "."@ + text::decimal((t % 10) as nat)
}

/// A file size as text.
pub open spec fn size_text(n: u64) -> Seq<char> {
    if n < 1024 {
        text::decimal(n as nat) + " B"@
    } else if n < 1_048_576 {
        one_decimal(tenths(n as int, 1024)) + " KB"@
    } else {
        one_decimal(tenths(n as int, 1_048_576)) + " MB"@
    }
}

fn in_tenths(n: u64, unit: u64) -> (r: String)
    requires
        unit == 1024 || unit == 1_048_576,
    ensures
        r@ == one_decimal(tenths(n as int, unit as int)),
{
    let wide: u128 = n as u128 * 10;
    let (q, rem): (u128, u128) = (wide / unit as u128, wide % unit as u128);
    let t: u128 = if 2 * rem > unit as u128 || (2 * rem == unit as u128 && q % 2 == 1) {
        q + 1
    } else {
        q
    };
    let mut s = text::number((t / 10) as u64);
    text::push_str(&mut s, ".");
    text::push_decimal(&mut s, (t % 10) as u64);
    s
}

pub fn bytes(n: u64) -> (r: String)
    ensures
        r@ == size_text(n),
{
    if n < 1024 {
        text::cat(text::number(n).as_str(), " B")
    } else if n < 1_048_576 {
        text::cat(in_tenths(n, 1024).as_str(), " KB")
    } else {
        text::cat(in_tenths(n, 1_048_576).as_str(), " MB")
    }
}

/// The paths of the assets at some places.
pub open spec fn paths_at(assets: Seq<library::Asset>, list: Seq<usize>) -> Seq<PathView> {
    Seq::new(list.len(), |i: int| assets[list[i] as int].path@)
}

/// The paths of those of the first `n` listed assets that there are.
pub open spec fn known_paths(
    assets: Seq<library::Asset>,
    list: Seq<usize>,
    n: int,
) -> Seq<PathView>
    decreases n,
{
    if n <= 0 {
        Seq::empty()
    } else {
        let before = known_paths(assets, list, n - 1);
        if list[n - 1] < assets.len() {
            before.push(assets[list[n - 1] as int].path@)
        } else {
            before
        }
    }
}

pub proof fn lemma_all_known(assets: Seq<library::Asset>, list: Seq<usize>, n: int)
    requires
        0 <= n <= list.len(),
        forall|i: int| 0 <= i < list.len() ==> (#[trigger] list[i]) < assets.len(),
    ensures
        known_paths(assets, list, n) == paths_at(assets, list).subrange(0, n),
        n == list.len() ==> known_paths(assets, list, n) == paths_at(assets, list),
    decreases n,
{
    let all = paths_at(assets, list);
    if n > 0 {
        lemma_all_known(assets, list, n - 1);
        assert(all.subrange(0, n) =~= all.subrange(0, n - 1).push(all[n - 1]));
    } else {
        assert(all.subrange(0, 0) =~= Seq::empty());
    }
    if n == list.len() {
        assert(all.subrange(0, n) =~= all);
    }
}

/// Paths of the assets a batch action applies to.
pub fn paths_of(lib: &Library, assets: &[usize]) -> (r: Vec<FilePath>)
    ensures
        paths::views(r@) == known_paths(lib.assets@, assets@, assets@.len() as int),
{
    let mut out: Vec<FilePath> = Vec::new();
    let mut i: usize = 0;
    assert(paths::views(out@) =~= Seq::empty());
    while i < assets.len()
        invariant
            i <= assets@.len(),
            paths::views(out@) == known_paths(lib.assets@, assets@, i as int),
        decreases assets@.len() - i,
    {
        let at: usize = assets[i];
        if at < lib.assets.len() {
            let ghost had = out@;
            out.push(lib.assets[at].path.copy());
            assert(paths::views(out@) =~= paths::views(had).push(lib.assets@[at as int].path@));
        }
        i += 1;
    }
    out
}

// ---- how sizes are written --------------------------------------------------
/// A number of tenths of a unit is rounded to the nearest, and to the even one
/// of two that are as near.
pub proof fn lemma_tenths_are_rounded(n: int, unit: int)
    requires
        0 <= n,
        0 < unit,
    ensures
        -unit <= 2 * (tenths(n, unit) * unit - 10 * n) <= unit,
        2 * (tenths(n, unit) * unit - 10 * n) == unit || 2 * (10 * n - tenths(n, unit) * unit)
            == unit ==> tenths(n, unit) % 2 == 0,
{
    let (q, rem) = (10 * n / unit, 10 * n % unit);
    vstd::arithmetic::div_mod::lemma_fundamental_div_mod(10 * n, unit);
    assert((q + 1) * unit == unit * q + unit) by (nonlinear_arith);
    assert(q * unit == unit * q) by (nonlinear_arith);
}

/// A size below 1024 is written in bytes, one below 1024 times 1024 in units of
/// 1024 with one decimal, and any other in units of 1024 times 1024.
pub proof fn lemma_a_size_has_its_unit(n: u64)
    ensures
        n < 1024 ==> size_text(n) == text::decimal(n as nat) + " B"@,
        1024 <= n < 1024 * 1024 ==> exists|whole: nat, tenth: nat|
            tenth < 10 && -512 <= 1024 * (10 * whole + tenth) - 10 * n <= 512 && size_text(n)
                == #[trigger] text::decimal(whole) + "."@ + #[trigger] text::decimal(tenth) + " KB"@,
        1024 * 1024 <= n ==> exists|whole: nat, tenth: nat|
            tenth < 10 && -524_288 <= 1_048_576 * (10 * whole + tenth) - 10 * n <= 524_288
                && size_text(n) == #[trigger] text::decimal(whole) + "."@ + #[trigger] text::decimal(
                tenth,
            ) + " MB"@,
{
    if n >= 1024 {
        let unit = if n < 1_048_576 {
            1024int
        } else {
            1_048_576int
        };
        lemma_tenths_are_rounded(n as int, unit);
        let t = tenths(n as int, unit);
        let (whole, tenth) = ((t / 10) as nat, (t % 10) as nat);
        assert(t >= 0) by (nonlinear_arith)
            requires
                unit > 0,
                -unit <= 2 * (t * unit - 10 * n),
                n >= 1024,
                unit == 1024 || (unit == 1_048_576 && n >= 1_048_576),
        ;
        assert(t == 10 * whole + tenth);
        assert(size_text(n) == text::decimal(whole) + "."@ + text::decimal(tenth) + (if unit == 1024 {
            " KB"@
        } else {
            " MB"@
        }));
    }
}

/// The size of a stack is that of its members where all were read and are
/// alike, "varies" where all were read and they are not, and unknown where the
/// first was not read.
pub proof fn lemma_a_stack_has_a_size_if_its_members_agree(lib: Library, row: RowView)
    requires
        members_of(row).len() > 0,
    ensures
        ({
            let m = members_of(row);
            let load = |i: int| lib.assets@[m[i] as int].load;
            &&& !(load(0) is Ready) ==> extent_text(lib, row) is None
            &&& (forall|i: int|
                0 <= i < m.len() ==> (#[trigger] lib.assets@[m[i] as int]).load is Ready) ==> {
                &&& (forall|i: int|
                    0 <= i < m.len() ==> (#[trigger] lib.assets@[m[i] as int]).load->Ready_0.dims@
                        == load(0)->Ready_0.dims@) ==> extent_text(lib, row) == Some(
                    sides(load(0)->Ready_0.dims@),
                )
                &&& (exists|i: int|
                    0 <= i < m.len() && (#[trigger] lib.assets@[m[i] as int]).load->Ready_0.dims@
                        != load(0)->Ready_0.dims@) ==> extent_text(lib, row) == Some("varies"@)
            }
        }),
{
    let m = members_of(row);
    if forall|i: int| 0 <= i < m.len() ==> (#[trigger] lib.assets@[m[i] as int]).load is Ready {
        assert(lib.assets@[m[0] as int].load is Ready);
        let dims = lib.assets@[m[0] as int].load->Ready_0.dims@;
        lemma_agreeing(lib.assets@, m, dims, 1);
        if exists|i: int|
            0 <= i < m.len() && (#[trigger] lib.assets@[m[i] as int]).load->Ready_0.dims@ != dims {
            let i = choose|i: int|
                0 <= i < m.len() && (#[trigger] lib.assets@[m[i] as int]).load->Ready_0.dims@
                    != dims;
            assert(i >= 1);
        }
    }
}

proof fn lemma_agreeing(
    assets: Seq<library::Asset>,
    members: Seq<usize>,
    dims: Seq<i32>,
    from: int,
)
    requires
        0 <= from <= members.len(),
        forall|i: int|
            0 <= i < members.len() ==> (#[trigger] assets[members[i] as int]).load is Ready,
    ensures
        agreed(assets, members, dims, from) == (if forall|i: int|
            from <= i < members.len() ==> (#[trigger] assets[members[i] as int]).load->Ready_0.dims@
                == dims {
            Some(sides(dims))
        } else {
            Some("varies"@)
        }),
    decreases members.len() - from,
{
    if from < members.len() {
        assert(assets[members[from] as int].load is Ready);
        lemma_agreeing(assets, members, dims, from + 1);
        if assets[members[from] as int].load->Ready_0.dims@ == dims {
            assert((forall|i: int|
                from <= i < members.len() ==> (#[trigger] assets[members[i] as int]).load->Ready_0.dims@
                    == dims) <==> (forall|i: int|
                from + 1 <= i < members.len() ==> (
                #[trigger] assets[members[i] as int]).load->Ready_0.dims@ == dims)) by {
                if forall|i: int|
                    from + 1 <= i < members.len() ==> (
                    #[trigger] assets[members[i] as int]).load->Ready_0.dims@ == dims {
                    assert forall|i: int| from <= i < members.len() implies (
                    #[trigger] assets[members[i] as int]).load->Ready_0.dims@ == dims by {
                        if i > from {
                            assert(from + 1 <= i);
                        }
                    }
                }
            }
        }
    }
}

/// One of a thing is named without an s, and any other number with one.
pub proof fn lemma_only_one_has_no_plural(n: int)
    ensures
        n == 1 ==> plural(n).len() == 0,
        n != 1 ==> plural(n) == seq!['s'],
{
    reveal_strlit("");
    reveal_strlit("s");
    assert("s"@ =~= seq!['s']);
}

} // verus!
