//! What the window shows and what the keys do, apart from drawing it.
//!
//! The library and the viewer share one window; this is the state behind both
//! and the decisions made on it. Reading files, rendering and the clock are
//! elsewhere: where one of those has to act, the function says so in what it
//! returns.

use vstd::prelude::*;

use crate::geom::IVec3;
use crate::gfx::Background;
use crate::library;
use crate::library::{Library, Scope};
use crate::loader;
use crate::loader::VoxScene;
use crate::menu::Menu;
use crate::paths;
use crate::paths::{FilePath, PathView};
use crate::rail;
use crate::scene;
use crate::selection;
use crate::settings;
use crate::settings::{CollectionView, Settings, SettingsView, Window};
use crate::text;
use crate::ui;
use vstd::view::View as _;

verus! {

/// Which face of the program is up.
///
/// They share one window, one device and one set of thumbnails; only the
/// input routing and what gets drawn differ.
#[derive(Clone, Copy, Debug, PartialEq, Eq, Structural)]
pub enum Mode {
    Library,
    Viewer,
}

/// What to do with the camera when new geometry arrives.
#[derive(Clone, Copy, Debug, PartialEq, Eq, Structural)]
pub enum Framing {
    /// Re-frame from the default angles: a different file is being shown.
    Reset,
    /// Leave it exactly where it is: the same file was edited.
    Keep,
}

/// One of the six axis-aligned directions to look from.
///
/// Named for where the camera goes, not where it points: `Front` puts the
/// camera in front of the model looking back at it.
#[derive(Clone, Copy, Debug, PartialEq, Eq, Structural)]
pub enum Axis {
    Front,
    Back,
    Left,
    Right,
    Top,
    Bottom,
}

impl Axis {
    /// Where the camera goes, in quarter turns: about the vertical from the
    /// positive X side, and up from the ground.
    ///
    /// In front it sits on the negative Y side and looks towards +Y, which is
    /// the face a MagicaVoxel model presents as its front.
    pub fn quarter_turns(self) -> (r: (u8, i8))
        ensures
            r == (match self {
                Axis::Front => (3u8, 0i8),
                Axis::Back => (1u8, 0i8),
                Axis::Right => (0u8, 0i8),
                Axis::Left => (2u8, 0i8),
                Axis::Top => (3u8, 1i8),
                Axis::Bottom => (3u8, (-1) as i8),
            }),
    {
        match self {
            Axis::Front => (3, 0),
            Axis::Back => (1, 0),
            Axis::Right => (0, 0),
            Axis::Left => (2, 0),
            Axis::Top => (3, 1),
            Axis::Bottom => (3, -1),
        }
    }

    /// The other side.
    pub fn opposite(self) -> (r: Axis)
        ensures
            r == self.other_side(),
    {
        match self {
            Axis::Front => Axis::Back,
            Axis::Back => Axis::Front,
            Axis::Right => Axis::Left,
            Axis::Left => Axis::Right,
            Axis::Top => Axis::Bottom,
            Axis::Bottom => Axis::Top,
        }
    }

    pub open spec fn other_side(self) -> Axis {
        match self {
            Axis::Front => Axis::Back,
            Axis::Back => Axis::Front,
            Axis::Right => Axis::Left,
            Axis::Left => Axis::Right,
            Axis::Top => Axis::Bottom,
            Axis::Bottom => Axis::Top,
        }
    }

    /// What the status line says of a view.
    pub fn label(self) -> (r: &'static str)
        ensures
            r@ == (match self {
                Axis::Front => "front view"@,
                Axis::Back => "back view"@,
                Axis::Right => "right view"@,
                Axis::Left => "left view"@,
                Axis::Top => "top view"@,
                Axis::Bottom => "bottom view"@,
            }),
    {
        match self {
            Axis::Front => "front view",
            Axis::Back => "back view",
            Axis::Right => "right view",
            Axis::Left => "left view",
            Axis::Top => "top view",
            Axis::Bottom => "bottom view",
        }
    }
}

// ---- small things -----------------------------------------------------------
/// Whether a character is a control character.
pub open spec fn is_control(c: char) -> bool {
    c as u32 <= 0x1f || 0x7f <= c as u32 <= 0x9f
}

/// The single character a key press contributes to the filter.
///
/// Dead keys and IME sequences deliver more than one character at a time; a
/// file filter is plain text, so anything exotic is dropped rather than
/// half-applied.
pub fn printable(s: &str) -> (r: Option<char>)
    ensures
        r == (if s@.len() == 1 && !is_control(s@[0]) {
            Some(s@[0])
        } else {
            None
        }),
{
    let chars = text::chars_of(s);
    if chars.len() != 1 {
        return None;
    }
    let c: char = chars[0];
    let u: u32 = c as u32;
    if u <= 0x1f || (0x7f <= u && u <= 0x9f) {
        return None;
    }
    Some(c)
}

/// The first line of a text, without what ends it.
pub open spec fn first_line_of(s: Seq<char>) -> Seq<char> {
    let at = text::find(s, '\n');
    if at == s.len() {
        s
    } else if at > 0 && s[at - 1] == '\r' {
        s.subrange(0, at - 1)
    } else {
        s.subrange(0, at)
    }
}

/// The first line of a message, which is all that the HUD has room for.
pub fn first_line(s: &str) -> (r: String)
    ensures
        r@ == first_line_of(s@),
{
    let chars = text::chars_of(s);
    assert(chars@.subrange(0, chars@.len() as int) =~= chars@);
    let at: usize = text::find_from(&chars, '\n', 0);
    if at == chars.len() {
        return text::copied(s);
    }
    let end: usize = if at > 0 && chars[at - 1] == '\r' {
        at - 1
    } else {
        at
    };
    text::string_of(&text::slice(&chars, 0, end))
}

/// A file's name, or its whole path where it has none.
pub fn file_name(path: &FilePath) -> (r: String)
    ensures
        r@ == path@.title(),
{
    path.title()
}

/// The names of some files.
pub open spec fn titles(v: Seq<PathView>) -> Seq<Seq<char>> {
    Seq::new(v.len(), |i: int| v[i].title())
}

pub(crate) fn names_of(files: &Vec<FilePath>) -> (r: Vec<String>)
    ensures
        text::texts(r@) == titles(paths::views(files@)),
{
    let ghost all = titles(paths::views(files@));
    let mut out: Vec<String> = Vec::new();
    let mut i: usize = 0;
    assert(text::texts(out@) =~= all.subrange(0, 0));
    while i < files.len()
        invariant
            i <= files@.len(),
            all == titles(paths::views(files@)),
            text::texts(out@) == all.subrange(0, i as int),
        decreases files@.len() - i,
    {
        let ghost had = out@;
        out.push(file_name(&files[i]));
        i += 1;
        assert(text::texts(out@) =~= text::texts(had).push(all[i - 1]));
        assert(text::texts(out@) =~= all.subrange(0, i as int));
    }
    assert(all.subrange(0, i as int) =~= all);
    out
}

/// The directory a listing came from: that of its first file, or this one.
pub open spec fn listing_title(files: Seq<FilePath>) -> Seq<char> {
    if files.len() == 0 {
        "."@
    } else {
        match files[0]@.parent() {
            Some(d) => if d.is_nothing() {
                "."@
            } else {
                d.title()
            },
            None => "."@,
        }
    }
}

fn title_of(files: &Vec<FilePath>) -> (r: String)
    ensures
        r@ == listing_title(files@),
{
    if files.len() > 0 {
        if let Some(d) = files[0].parent() {
            if d.anchor.len() > 0 || d.names.len() > 0 {
                return file_name(&d);
            }
        }
    }
    text::copied(".")
}

/// The file a screenshot of a model is saved in: beside it, under its name and
/// the time.
pub open spec fn shot_path(model: PathView, stamp: Seq<char>) -> PathView {
    let stem = match model.stem() {
        Some(s) => s,
        None => "voxview"@,
    };
    paths::root_of(model, false).join(stem + "_"@ + stamp + ".png"@)
}

/// Where a screenshot of a model goes.
pub fn screenshot_path(model: &FilePath, stamp: &str) -> (r: FilePath)
    ensures
        r@ == shot_path(model@, stamp@),
{
    let mut name = match model.stem() {
        Some(s) => s,
        None => text::copied("voxview"),
    };
    let ghost stem = name@;
    text::push_str(&mut name, "_");
    text::push_str(&mut name, stamp);
    text::push_str(&mut name, ".png");
    assert(name@ =~= stem + "_"@ + stamp@ + ".png"@);
    paths::browse_root(model, false).join(name.as_str())
}

/// The sample count after one in a list, or the first where it is not in it.
pub open spec fn sample_after(counts: Seq<u32>, current: u32) -> u32 {
    match counts.index_of_first(current) {
        Some(i) => counts[(i + 1) % (counts.len() as int)],
        None => counts[0],
    }
}

/// The next multisample count that an adapter offers.
///
/// A cycle rather than an on/off switch: the useful question on a laptop is
/// not whether to antialias but how much to pay for it, and the answer is
/// visible in the frame rate in the corner while you press the key.
pub fn next_samples(counts: &Vec<u32>, current: u32) -> (r: u32)
    requires
        counts@.len() > 0,
    ensures
        r == sample_after(counts@, current),
{
    proof {
        counts@.index_of_first_ensures(current);
    }
    let n: usize = counts.len();
    let mut i: usize = 0;
    while i < n
        invariant
            n == counts@.len(),
            i <= n,
            forall|k: int| 0 <= k < i ==> #[trigger] counts@[k] != current,
        decreases n - i,
    {
        if counts[i] == current {
            proof {
                counts@.index_of_first_ensures(current);
                assert(counts@[i as int] == current);
                let j = counts@.index_of_first(current)->0;
                assert(counts@[j] == current);
            }
            let next: usize = if i + 1 == n {
                0
            } else {
                i + 1
            };
            assert(next as int == (i + 1) % (n as int)) by {
                if i + 1 < n {
                    vstd::arithmetic::div_mod::lemma_small_mod((i + 1) as nat, n as nat);
                }
            }
            return counts[next];
        }
        i += 1;
    }
    counts[0]
}

/// What the status line says of a sample count.
pub fn samples_note(samples: u32) -> (r: String)
    ensures
        r@ == (if samples == 1 {
            "no antialiasing"@
        } else {
            text::decimal(samples as nat) + "x antialiasing"@
        }),
{
    if samples == 1 {
        return text::copied("no antialiasing");
    }
    let mut s = String::new();
    text::push_decimal(&mut s, samples as u64);
    text::push_str(&mut s, "x antialiasing");
    assert(s@ =~= text::decimal(samples as nat) + "x antialiasing"@);
    s
}

// ---- the session ------------------------------------------------------------
/// The state behind the window.
pub struct Session {
    pub mode: Mode,
    /// Where the library browses from. Not necessarily the file's own folder:
    /// a directory argument browses its whole subtree.
    pub root: FilePath,
    pub lib: Library,
    /// Names found, and files parsed, for the status bar.
    pub found: usize,
    pub parsed: usize,
    /// The library index of whatever the viewer is showing, so the filmstrip
    /// knows where it is.
    pub current: Option<usize>,
    pub files: Vec<FilePath>,
    pub index: usize,
    /// File names for the menu.
    pub names: Vec<String>,
    /// The directory the listing came from, shown as the menu's heading.
    pub title: String,
    pub menu: Menu,
    pub show_grid: bool,
    pub show_bbox: bool,
    pub show_axes: bool,
    pub ambient_occlusion: bool,
    pub orthographic: bool,
    pub background: Background,
    /// Collections from the settings file, waiting for a scan to resolve their
    /// paths into asset indices. Taken once, on the first completed walk.
    pub pending: Vec<(String, Vec<FilePath>)>,
    /// What is known of the scene on screen.
    pub info: Option<SceneInfo>,
    /// Set when the current file would not parse. The last good render stays
    /// on screen underneath it.
    pub error: Option<String>,
    /// A one-off message, and when it was put up, in milliseconds.
    pub status: Option<(String, u64)>,
}

/// How long a one-off message (a screenshot path, say) stays in the HUD, in
/// milliseconds.
pub const STATUS_MILLIS: u64 = 4000;

/// File rows one notch of the wheel scrolls the menu by.
pub const WHEEL_ROWS: usize = 3;

/// Edge of a PNG written from the library, where there is no viewport to
/// borrow a size from.
pub const SHOT_SIZE: u32 = 512;

/// The parts of a loaded scene the HUD reports.
pub struct SceneInfo {
    pub name: String,
    pub models: usize,
    pub instances: usize,
    pub dimensions: IVec3,
    pub voxels: usize,
    pub default_palette: bool,
    /// How long reading the file and building its meshes took, in milliseconds.
    pub load_ms: u64,
    pub mesh_ms: u64,
}

impl SceneInfo {
    pub fn new(path: &FilePath, scene: &VoxScene, load_ms: u64, mesh_ms: u64) -> (r: SceneInfo)
        ensures
            r.name@ == path@.title(),
            r.models == scene.models@.len(),
            r.instances == scene.instances@.len(),
            match scene.bounds {
                Some(b) => r.dimensions.x == loader::side(b.min.x, b.max.x) && r.dimensions.y
                    == loader::side(b.min.y, b.max.y) && r.dimensions.z == loader::side(
                    b.min.z,
                    b.max.z,
                ),
                None => r.dimensions == (IVec3 { x: 1, y: 1, z: 1 }),
            },
            r.voxels == scene.voxel_count,
            r.default_palette == !scene.palette.from_file,
            r.load_ms == load_ms,
            r.mesh_ms == mesh_ms,
    {
        SceneInfo {
            name: file_name(path),
            models: scene.models.len(),
            instances: scene.instances.len(),
            dimensions: scene.dimensions(),
            voxels: scene.voxel_count,
            default_palette: !scene.palette.from_file,
            load_ms,
            mesh_ms,
        }
    }
}

impl Session {
    /// There is a file to show, the library holds together, and what an open
    /// menu lists are files.
    pub open spec fn wf(&self) -> bool {
        &&& self.lib.wf()
        &&& self.index < self.files@.len()
        &&& text::texts(self.names@) == titles(paths::views(self.files@))
        &&& self.menu.rows() <= isize::MAX
        &&& self.menu.hit matches Some(b) ==> b.line_h > 0
        &&& self.menu.open ==> self.menu.lists(self.names@.len())
    }

    /// Whether a library was set up as the settings have it.
    pub open spec fn arranged_as(lib: Library, s: Settings) -> bool {
        &&& lib.view == s.view
        &&& lib.sort == s.sort
        &&& lib.descending == s.descending
        &&& lib.stack_variants == s.stack_variants
    }

    /// Whether nothing in a library was chosen yet, and only its root is open.
    pub open spec fn untouched(lib: Library) -> bool {
        &&& lib.scope == Scope::Folder(0)
        &&& lib.find@.len() == 0
        &&& lib.facets.none()
        &&& lib.selection@.len() == 0
        &&& lib.anchor is None
        &&& lib.cursor == 0
        &&& lib.expanded_families@.len() == 0
        &&& lib.cache is None
        &&& forall|i: int|
            0 <= i < lib.folders@.len() ==> (#[trigger] lib.folders@[i]).expanded == (i == 0)
    }

    /// Start on some files, in the library or on one of them.
    pub fn new(
        root: FilePath,
        files: Vec<FilePath>,
        index: usize,
        browse: bool,
        settings: &Settings,
        pending: Vec<(String, Vec<FilePath>)>,
    ) -> (r: Session)
        requires
            index < files@.len(),
        ensures
            r.wf(),
            r.mode == (if browse {
                Mode::Library
            } else {
                Mode::Viewer
            }),
            r.root == root,
            r.lib.root@ == root@,
            library::folders_are(
                r.lib.folders@,
                library::places_of(root@, Seq::<FilePath>::empty()).0,
            ),
            r.lib.assets@.len() == 0,
            r.lib.collections@.len() == 0,
            r.lib.skipped@.len() == 0,
            !r.lib.truncated,
            Session::arranged_as(r.lib, *settings),
            Session::untouched(r.lib),
            r.found == 0,
            r.parsed == 0,
            r.current is None,
            r.files == files,
            r.index == index,
            r.title@ == listing_title(files@),
            !r.menu.open,
            r.menu.cursor == 0,
            r.menu.scroll == 0,
            r.menu.filter@.len() == 0,
            r.menu.filtered@.len() == 0,
            r.menu.hit is None,
            r.show_grid == settings.grid,
            r.show_bbox == settings.bbox,
            r.show_axes == settings.axes,
            r.ambient_occlusion == settings.occlusion,
            r.orthographic == settings.orthographic,
            r.background == settings.background,
            r.pending == pending,
            r.info is None,
            r.error is None,
            r.status is None,
    {
        let names = names_of(&files);
        let title = title_of(&files);
        let none: Vec<FilePath> = Vec::new();
        assert(none@ =~= Seq::empty());
        let mut lib = Library::new(root.copy(), none);
        lib.view = settings.view;
        lib.sort = settings.sort;
        lib.descending = settings.descending;
        lib.stack_variants = settings.stack_variants;
        Session {
            mode: if browse {
                Mode::Library
            } else {
                Mode::Viewer
            },
            root,
            lib,
            found: 0,
            parsed: 0,
            current: None,
            files,
            index,
            names,
            title,
            menu: Menu::new(),
            show_grid: settings.grid,
            show_bbox: settings.bbox,
            show_axes: settings.axes,
            ambient_occlusion: settings.occlusion,
            orthographic: settings.orthographic,
            background: settings.background,
            pending,
            info: None,
            error: None,
            status: None,
        }
    }

    /// The file the viewer is on.
    pub fn path(&self) -> (r: &FilePath)
        requires
            self.index < self.files@.len(),
        ensures
            *r == self.files@[self.index as int],
    {
        &self.files[self.index]
    }
}

// ---- news from the scan -----------------------------------------------------
/// The last of the first `n` assets that has a path.
pub open spec fn last_at(assets: Seq<library::Asset>, p: PathView, n: int) -> Option<int>
    decreases n,
{
    if n <= 0 {
        None
    } else if assets[n - 1].path@ == p {
        Some(n - 1)
    } else {
        last_at(assets, p, n - 1)
    }
}

/// The assets that the first `n` of some paths lead to; paths that lead to
/// none drop out.
pub open spec fn resolved(
    assets: Seq<library::Asset>,
    files: Seq<FilePath>,
    n: int,
) -> Seq<usize>
    decreases n,
{
    if n <= 0 {
        Seq::empty()
    } else {
        let before = resolved(assets, files, n - 1);
        match last_at(assets, files[n - 1]@, assets.len() as int) {
            Some(i) => before.push(i as usize),
            None => before,
        }
    }
}

/// Whether collections are some saved ones, as far as their files are there.
pub open spec fn are_restored(
    collections: Seq<library::Collection>,
    saved: Seq<(String, Vec<FilePath>)>,
    assets: Seq<library::Asset>,
) -> bool {
    &&& collections.len() == saved.len()
    &&& forall|k: int|
        0 <= k < saved.len() ==> (#[trigger] collections[k]).name@ == saved[k].0@
            && collections[k].members@ == selection::with_missing(
            Seq::empty(),
            resolved(assets, saved[k].1@, saved[k].1@.len() as int),
        )
}

fn last_asset(assets: &Vec<library::Asset>, path: &FilePath) -> (r: Option<usize>)
    ensures
        match r {
            Some(i) => i < assets@.len() && last_at(assets@, path@, assets@.len() as int) == Some(
                i as int,
            ),
            None => last_at(assets@, path@, assets@.len() as int) is None,
        },
{
    let mut n: usize = assets.len();
    while n > 0
        invariant
            n <= assets@.len(),
            last_at(assets@, path@, assets@.len() as int) == last_at(assets@, path@, n as int),
        decreases n,
    {
        if assets[n - 1].path.same(path) {
            return Some(n - 1);
        }
        n -= 1;
    }
    None
}

fn resolve(assets: &Vec<library::Asset>, files: &Vec<FilePath>) -> (r: Vec<usize>)
    ensures
        r@ == resolved(assets@, files@, files@.len() as int),
        forall|i: int| 0 <= i < r@.len() ==> (#[trigger] r@[i]) < assets@.len(),
{
    let mut out: Vec<usize> = Vec::new();
    let mut i: usize = 0;
    while i < files.len()
        invariant
            i <= files@.len(),
            out@ == resolved(assets@, files@, i as int),
            forall|k: int| 0 <= k < out@.len() ==> (#[trigger] out@[k]) < assets@.len(),
        decreases files@.len() - i,
    {
        if let Some(at) = last_asset(assets, &files[i]) {
            out.push(at);
        }
        i += 1;
    }
    out
}

/// Put saved collections into a library that has none.
///
/// Paths that are no longer on disk simply drop out; a collection that loses
/// every member is still kept, because an empty collection you made on purpose
/// is not the same thing as one that never existed.
fn restore_collections(lib: &mut Library, saved: &Vec<(String, Vec<FilePath>)>)
    requires
        old(lib).wf(),
        old(lib).collections@.len() == 0,
    ensures
        final(lib).wf(),
        are_restored(final(lib).collections@, saved@, old(lib).assets@),
        *final(lib) == (Library {
            collections: final(lib).collections,
            cache: final(lib).cache,
            ..*old(lib)
        }),
{
    let ghost start = *lib;
    let mut k: usize = 0;
    while k < saved.len()
        invariant
            k <= saved@.len(),
            lib.wf(),
            *lib == (Library { collections: lib.collections, cache: lib.cache, ..start }),
            are_restored(lib.collections@, saved@.subrange(0, k as int), start.assets@),
        decreases saved@.len() - k,
    {
        let members = resolve(&lib.assets, &saved[k].1);
        let ghost had = lib.collections@;
        let set: usize = lib.new_collection(text::copied(saved[k].0.as_str()));
        let ghost made = lib.collections@;
        lib.add_to_collection(set, members.as_slice());
        proof {
            let now = lib.collections@;
            let upto = saved@.subrange(0, k as int + 1);
            assert(made.drop_last() == had);
            assert(made.last().members@ =~= Seq::empty());
            assert forall|j: int| 0 <= j < upto.len() implies (#[trigger] now[j]).name@
                == upto[j].0@ && now[j].members@ == selection::with_missing(
                Seq::empty(),
                resolved(start.assets@, upto[j].1@, upto[j].1@.len() as int),
            ) by {
                if j < k {
                    assert(now[j] == made[j]);
                    assert(made.drop_last()[j] == had[j]);
                    assert(had[j].name@ == saved@.subrange(0, k as int)[j].0@);
                }
            }
        }
        k += 1;
    }
    assert(saved@.subrange(0, k as int) =~= saved@);
}

impl Session {
    /// Find the library entry for the file the viewer is showing.
    pub fn sync_current(&mut self)
        requires
            old(self).index < old(self).files@.len(),
        ensures
            opt_int(final(self).current) == rail::asset_at(
                old(self).lib.assets@,
                old(self).files@[old(self).index as int]@,
                0,
            ),
            *final(self) == (Session { current: final(self).current, ..*old(self) }),
    {
        let ghost p = self.files@[self.index as int]@;
        let mut i: usize = 0;
        while i < self.lib.assets.len()
            invariant
                *self == *old(self),
                self.index < self.files@.len(),
                p == self.files@[self.index as int]@,
                i <= self.lib.assets@.len(),
                rail::asset_at(self.lib.assets@, p, 0) == rail::asset_at(
                    self.lib.assets@,
                    p,
                    i as int,
                ),
            decreases self.lib.assets@.len() - i,
        {
            if self.lib.assets[i].path.same(&self.files[self.index]) {
                self.current = Some(i);
                return;
            }
            i += 1;
        }
        self.current = None;
    }

    /// Take in a finished walk: build the tree, and put the saved collections
    /// into it.
    ///
    /// Rebuilding is the honest way to fold a whole walk into the tree, so the
    /// few settings you could have reached in that first moment are carried
    /// across by hand.
    pub fn found(
        &mut self,
        files: Vec<FilePath>,
        skipped: Vec<(FilePath, String)>,
        truncated: bool,
    )
        requires
            old(self).wf(),
        ensures
            final(self).wf(),
            final(self).found == files@.len(),
            ({
                let (was, lib) = (old(self).lib, final(self).lib);
                let (places, assets) = library::places_of(old(self).root@, files@);
                &&& lib.root@ == old(self).root@
                &&& library::folders_are(lib.folders@, places)
                &&& library::assets_are(lib.assets@, assets)
                &&& forall|i: int|
                    0 <= i < lib.assets@.len() ==> scene::opt_text(
                        (#[trigger] lib.assets@[i]).family,
                    ) == library::family_among(lib.assets@, i)
                &&& are_restored(lib.collections@, old(self).pending@, lib.assets@)
                &&& Session::untouched(lib)
                &&& lib.view == was.view
                &&& lib.sort == was.sort
                &&& lib.descending == was.descending
                &&& lib.stack_variants == was.stack_variants
                &&& lib.skipped == skipped
                &&& lib.truncated == truncated
            }),
            final(self).pending@.len() == 0,
            opt_int(final(self).current) == rail::asset_at(
                final(self).lib.assets@,
                old(self).files@[old(self).index as int]@,
                0,
            ),
            *final(self) == (Session {
                lib: final(self).lib,
                found: final(self).found,
                pending: final(self).pending,
                current: final(self).current,
                ..*old(self)
            }),
    {
        self.found = files.len();
        let mut lib = Library::new(self.root.copy(), files);
        lib.view = self.lib.view;
        lib.sort = self.lib.sort;
        lib.descending = self.lib.descending;
        lib.stack_variants = self.lib.stack_variants;
        lib.skipped = skipped;
        lib.truncated = truncated;
        restore_collections(&mut lib, &self.pending);
        lib.invalidate();
        self.lib = lib;
        self.pending = Vec::new();
        self.sync_current();
    }

    /// Take in what the scan learned about one file. Extent and palette facets
    /// depend on it, so the row list and the counts are stale.
    pub fn learned(&mut self, path: &FilePath, load: library::Load)
        requires
            old(self).wf(),
            old(self).parsed < usize::MAX,
        ensures
            final(self).wf(),
            final(self).parsed == old(self).parsed + 1,
            final(self).lib.assets@ == (match rail::asset_at(old(self).lib.assets@, path@, 0) {
                Some(at) => old(self).lib.assets@.update(
                    at,
                    (library::Asset { load, ..old(self).lib.assets@[at] }),
                ),
                None => old(self).lib.assets@,
            }),
            final(self).lib == (Library {
                assets: final(self).lib.assets,
                cache: None,
                ..old(self).lib
            }),
            *final(self) == (Session {
                lib: final(self).lib,
                parsed: final(self).parsed,
                ..*old(self)
            }),
    {
        self.parsed += 1;
        self.lib.apply(path, load);
        self.lib.invalidate();
    }

    /// The collections as they are saved: by path, because an asset index only
    /// means something relative to the scan that produced it. If no scan ever
    /// finished, the ones loaded at the start are kept rather than thrown away.
    pub fn saved_collections(&self) -> (r: Vec<(String, Vec<FilePath>)>)
        requires
            self.lib.wf(),
        ensures
            self.lib.assets@.len() == 0 ==> same_saved(r@, self.pending@),
            self.lib.assets@.len() > 0 ==> are_saved(
                r@,
                self.lib.collections@,
                self.lib.assets@,
            ),
    {
        let mut out: Vec<(String, Vec<FilePath>)> = Vec::new();
        let mut k: usize = 0;
        if self.lib.assets.len() == 0 {
            while k < self.pending.len()
                invariant
                    k <= self.pending@.len(),
                    same_saved(out@, self.pending@.subrange(0, k as int)),
                decreases self.pending@.len() - k,
            {
                let ghost had = out@;
                let members = copy_paths(&self.pending[k].1);
                out.push((text::copied(self.pending[k].0.as_str()), members));
                k += 1;
                proof {
                    let part = self.pending@.subrange(0, k as int);
                    assert forall|j: int| 0 <= j < part.len() implies (#[trigger] out@[j]).0@
                        == part[j].0@ && paths::views(out@[j].1@) == paths::views(part[j].1@) by {
                        if j < k - 1 {
                            assert(had[j].0@ == self.pending@.subrange(0, k - 1)[j].0@);
                            assert(out@[j] == had[j]);
                        }
                    }
                }
            }
            assert(self.pending@.subrange(0, k as int) =~= self.pending@);
            return out;
        }
        while k < self.lib.collections.len()
            invariant
                self.lib.wf(),
                k <= self.lib.collections@.len(),
                are_saved(
                    out@,
                    self.lib.collections@.subrange(0, k as int),
                    self.lib.assets@,
                ),
            decreases self.lib.collections@.len() - k,
        {
            let ghost had = out@;
            let c = &self.lib.collections[k];
            proof {
                assert forall|i: int| 0 <= i < c.members@.len() implies (#[trigger] c.members@[i])
                    < self.lib.assets@.len() by {
                    assert(self.lib.collections@[k as int].members@[i] < self.lib.assets@.len());
                }
            }
            let members = ui::paths_of(&self.lib, c.members.as_slice());
            proof {
                ui::lemma_all_known(self.lib.assets@, c.members@, c.members@.len() as int);
            }
            out.push((text::copied(c.name.as_str()), members));
            k += 1;
            proof {
                let part = self.lib.collections@.subrange(0, k as int);
                assert forall|j: int| 0 <= j < part.len() implies (#[trigger] out@[j]).0@
                    == part[j].name@ && paths::views(out@[j].1@) == ui::paths_at(
                    self.lib.assets@,
                    part[j].members@,
                ) by {
                    if j < k - 1 {
                        assert(had[j].0@ == self.lib.collections@.subrange(0, k - 1)[j].name@);
                        assert(out@[j] == had[j]);
                    }
                }
            }
        }
        assert(self.lib.collections@.subrange(0, k as int) =~= self.lib.collections@);
        out
    }
}

/// An index that may be missing, as a number.
pub open spec fn opt_int(i: Option<usize>) -> Option<int> {
    match i {
        Some(i) => Some(i as int),
        None => None,
    }
}

/// Whether two lists of saved collections say the same.
pub open spec fn same_saved(
    a: Seq<(String, Vec<FilePath>)>,
    b: Seq<(String, Vec<FilePath>)>,
) -> bool {
    &&& a.len() == b.len()
    &&& forall|k: int|
        0 <= k < b.len() ==> (#[trigger] a[k]).0@ == b[k].0@ && paths::views(a[k].1@)
            == paths::views(b[k].1@)
}

/// Whether some collections are saved by path.
pub open spec fn are_saved(
    saved: Seq<(String, Vec<FilePath>)>,
    collections: Seq<library::Collection>,
    assets: Seq<library::Asset>,
) -> bool {
    &&& saved.len() == collections.len()
    &&& forall|k: int|
        0 <= k < collections.len() ==> (#[trigger] saved[k]).0@ == collections[k].name@
            && paths::views(saved[k].1@) == ui::paths_at(assets, collections[k].members@)
}

fn copy_paths(list: &Vec<FilePath>) -> (r: Vec<FilePath>)
    ensures
        paths::views(r@) == paths::views(list@),
{
    let mut out: Vec<FilePath> = Vec::new();
    let mut i: usize = 0;
    let ghost all = paths::views(list@);
    assert(paths::views(out@) =~= all.subrange(0, 0));
    while i < list.len()
        invariant
            i <= list@.len(),
            all == paths::views(list@),
            paths::views(out@) == all.subrange(0, i as int),
        decreases list@.len() - i,
    {
        let ghost had = out@;
        out.push(list[i].copy());
        i += 1;
        assert(paths::views(out@) =~= paths::views(had).push(all[i - 1]));
        assert(paths::views(out@) =~= all.subrange(0, i as int));
    }
    assert(all.subrange(0, i as int) =~= all);
    out
}

// ---- what is kept across runs -----------------------------------------------
/// Paths as they are written down.
pub open spec fn as_texts(v: Seq<PathView>) -> Seq<Seq<char>> {
    Seq::new(v.len(), |i: int| v[i].as_text())
}

/// The collections to write down: those of the library, or the ones read at
/// the start where no scan ever finished.
pub open spec fn kept_collections(s: Session) -> Seq<CollectionView> {
    if s.lib.assets@.len() == 0 {
        Seq::new(
            s.pending@.len(),
            |k: int|
                CollectionView {
                    name: s.pending@[k].0@,
                    members: as_texts(paths::views(s.pending@[k].1@)),
                },
        )
    } else {
        Seq::new(
            s.lib.collections@.len(),
            |k: int|
                CollectionView {
                    name: s.lib.collections@[k].name@,
                    members: as_texts(
                        ui::paths_at(s.lib.assets@, s.lib.collections@[k].members@),
                    ),
                },
        )
    }
}

/// The settings after a session. Where the window is, the sample count and the
/// cell width are somebody else's to know.
pub open spec fn kept(s: Session, was: SettingsView) -> SettingsView {
    SettingsView {
        background: s.background,
        grid: s.show_grid,
        bbox: s.show_bbox,
        axes: s.show_axes,
        occlusion: s.ambient_occlusion,
        orthographic: s.orthographic,
        view: s.lib.view,
        sort: s.lib.sort,
        descending: s.lib.descending,
        stack_variants: s.lib.stack_variants,
        root: Some(s.root@.as_text()),
        collections: kept_collections(s),
        ..was
    }
}

fn path_texts(list: &Vec<FilePath>) -> (r: Vec<String>)
    ensures
        text::texts(r@) == as_texts(paths::views(list@)),
{
    let ghost all = as_texts(paths::views(list@));
    let mut out: Vec<String> = Vec::new();
    let mut i: usize = 0;
    assert(text::texts(out@) =~= all.subrange(0, 0));
    while i < list.len()
        invariant
            i <= list@.len(),
            all == as_texts(paths::views(list@)),
            text::texts(out@) == all.subrange(0, i as int),
        decreases list@.len() - i,
    {
        let ghost had = out@;
        out.push(list[i].to_text());
        i += 1;
        assert(text::texts(out@) =~= text::texts(had).push(all[i - 1]));
        assert(text::texts(out@) =~= all.subrange(0, i as int));
    }
    assert(all.subrange(0, i as int) =~= all);
    out
}

impl Session {
    /// Fold the live state back into the settings, on the way out.
    pub fn store(&self, settings: &mut Settings)
        requires
            self.lib.wf(),
        ensures
            final(settings)@ == kept(*self, old(settings)@),
    {
        let saved = self.saved_collections();
        let mut texts: Vec<(String, Vec<String>)> = Vec::new();
        let mut k: usize = 0;
        while k < saved.len()
            invariant
                k <= saved@.len(),
                texts@.len() == k,
                forall|j: int|
                    0 <= j < k ==> (#[trigger] texts@[j]).0@ == saved@[j].0@ && text::texts(
                        texts@[j].1@,
                    ) == as_texts(paths::views(saved@[j].1@)),
            decreases saved@.len() - k,
        {
            texts.push((text::copied(saved[k].0.as_str()), path_texts(&saved[k].1)));
            k += 1;
        }
        proof {
            let views = settings::collection_views(texts@);
            let want = kept_collections(*self);
            assert forall|j: int| 0 <= j < want.len() implies views[j] == want[j] by {
                assert(texts@[j].0@ == saved@[j].0@);
                assert(views[j] == settings::collection_view(texts@[j]));
                assert(views[j].members == want[j].members);
            }
            assert(views =~= want);
        }
        settings.background = self.background;
        settings.grid = self.show_grid;
        settings.bbox = self.show_bbox;
        settings.axes = self.show_axes;
        settings.occlusion = self.ambient_occlusion;
        settings.orthographic = self.orthographic;
        settings.view = self.lib.view;
        settings.sort = self.lib.sort;
        settings.descending = self.lib.descending;
        settings.stack_variants = self.lib.stack_variants;
        settings.root = Some(self.root.to_text());
        settings.collections = texts;
    }
}

/// What is written down of the window: its size, which is never nothing, and
/// its place, except of a maximized one, whose place is the compositor's
/// business and nothing to restore.
pub fn window_at(
    was: Window,
    width: u32,
    height: u32,
    maximized: bool,
    position: Option<(i32, i32)>,
) -> (r: Window)
    ensures
        r == (Window {
            width: if width == 0 {
                1
            } else {
                width
            },
            height: if height == 0 {
                1
            } else {
                height
            },
            x: match position {
                Some(p) if !maximized => Some(p.0),
                _ => was.x,
            },
            y: match position {
                Some(p) if !maximized => Some(p.1),
                _ => was.y,
            },
            maximized,
        }),
{
    let mut r = was;
    r.width = if width == 0 {
        1
    } else {
        width
    };
    r.height = if height == 0 {
        1
    } else {
        height
    };
    r.maximized = maximized;
    if !maximized {
        if let Some(p) = position {
            r.x = Some(p.0);
            r.y = Some(p.1);
        }
    }
    r
}

// ---- laws -------------------------------------------------------------------
proof fn lemma_found_again(assets: Seq<library::Asset>, i: int, n: int)
    requires
        0 <= i < n <= assets.len(),
        forall|a: int, b: int|
            0 <= a < b < assets.len() ==> (#[trigger] assets[a]).path@ != (#[trigger] assets[b]).path@,
    ensures
        last_at(assets, assets[i].path@, n) == Some(i),
    decreases n,
{
    if n - 1 != i {
        assert(assets[i].path@ != assets[n - 1].path@);
        lemma_found_again(assets, i, n - 1);
    }
}

proof fn lemma_resolved_again(
    assets: Seq<library::Asset>,
    members: Seq<usize>,
    files: Seq<FilePath>,
    n: int,
)
    requires
        0 <= n <= members.len(),
        paths::views(files) == ui::paths_at(assets, members),
        forall|i: int| 0 <= i < members.len() ==> (#[trigger] members[i]) < assets.len(),
        forall|a: int, b: int|
            0 <= a < b < assets.len() ==> (#[trigger] assets[a]).path@ != (#[trigger] assets[b]).path@,
    ensures
        resolved(assets, files, n) == members.subrange(0, n),
    decreases n,
{
    if n > 0 {
        lemma_resolved_again(assets, members, files, n - 1);
        let i = members[n - 1] as int;
        assert(paths::views(files).len() == files.len());
        assert(paths::views(files)[n - 1] == files[n - 1]@);
        assert(ui::paths_at(assets, members)[n - 1] == assets[i].path@);
        lemma_found_again(assets, i, assets.len() as int);
        assert(members.subrange(0, n) =~= members.subrange(0, n - 1).push(members[n - 1]));
    } else {
        assert(members.subrange(0, 0) =~= Seq::empty());
    }
}

proof fn lemma_nothing_missing(members: Seq<usize>)
    requires
        members.no_duplicates(),
    ensures
        selection::with_missing(Seq::empty(), members) == members,
    decreases members.len(),
{
    if members.len() > 0 {
        let rest = members.drop_last();
        assert forall|a: int, b: int| 0 <= a < b < rest.len() implies rest[a] != rest[b] by {
            assert(members[a] != members[b]);
        }
        lemma_nothing_missing(rest);
        assert(!rest.contains(members.last())) by {
            if rest.contains(members.last()) {
                let j = choose|j: int| 0 <= j < rest.len() && rest[j] == members.last();
                assert(members[j] != members[members.len() - 1]);
            }
        }
        assert(rest.push(members.last()) =~= members);
    } else {
        assert(members =~= Seq::empty());
    }
}

/// Collections survive a restart: saved by path and put back into a library
/// that found the same files, each holds the same assets in the same order.
pub proof fn lemma_collections_come_back(
    before: Seq<library::Collection>,
    assets: Seq<library::Asset>,
    saved: Seq<(String, Vec<FilePath>)>,
    after: Seq<library::Collection>,
)
    requires
        are_saved(saved, before, assets),
        are_restored(after, saved, assets),
        forall|c: int| 0 <= c < before.len() ==> (#[trigger] before[c]).members@.no_duplicates(),
        forall|c: int, k: int|
            #![trigger before[c].members@[k]]
            0 <= c < before.len() && 0 <= k < before[c].members@.len() ==> before[c].members@[k]
                < assets.len(),
        forall|a: int, b: int|
            0 <= a < b < assets.len() ==> (#[trigger] assets[a]).path@ != (#[trigger] assets[b]).path@,
    ensures
        after.len() == before.len(),
        forall|c: int|
            0 <= c < before.len() ==> (#[trigger] after[c]).name@ == before[c].name@
                && after[c].members@ == before[c].members@,
{
    assert forall|c: int| 0 <= c < before.len() implies (#[trigger] after[c]).name@
        == before[c].name@ && after[c].members@ == before[c].members@ by {
        let (members, files) = (before[c].members@, saved[c].1@);
        assert(saved[c].0@ == before[c].name@);
        assert forall|i: int| 0 <= i < members.len() implies (#[trigger] members[i])
            < assets.len() by {
            assert(before[c].members@[i] < assets.len());
        }
        assert(paths::views(files).len() == files.len());
        lemma_resolved_again(assets, members, files, members.len() as int);
        assert(members.subrange(0, members.len() as int) =~= members);
        lemma_nothing_missing(members);
    }
}

/// A saved file that is gone drops out of its collection, and the collection
/// stays, though it held nothing else.
pub proof fn lemma_a_collection_outlives_its_files(
    assets: Seq<library::Asset>,
    saved: Seq<(String, Vec<FilePath>)>,
    after: Seq<library::Collection>,
    c: int,
)
    requires
        are_restored(after, saved, assets),
        0 <= c < saved.len(),
        forall|i: int, k: int|
            0 <= i < assets.len() && 0 <= k < saved[c].1@.len() ==> (#[trigger] assets[i]).path@
                != (#[trigger] saved[c].1@[k])@,
    ensures
        after.len() == saved.len(),
        after[c].name@ == saved[c].0@,
        after[c].members@.len() == 0,
{
    lemma_all_gone(assets, saved[c].1@, saved[c].1@.len() as int);
}

proof fn lemma_all_gone(assets: Seq<library::Asset>, files: Seq<FilePath>, n: int)
    requires
        0 <= n <= files.len(),
        forall|i: int, k: int|
            0 <= i < assets.len() && 0 <= k < files.len() ==> (#[trigger] assets[i]).path@ != (
            #[trigger] files[k])@,
    ensures
        resolved(assets, files, n) =~= Seq::<usize>::empty(),
    decreases n,
{
    if n > 0 {
        lemma_all_gone(assets, files, n - 1);
        lemma_not_found(assets, files[n - 1]@, assets.len() as int);
    }
}

proof fn lemma_not_found(assets: Seq<library::Asset>, p: PathView, n: int)
    requires
        n <= assets.len(),
        forall|i: int| 0 <= i < assets.len() ==> (#[trigger] assets[i]).path@ != p,
    ensures
        last_at(assets, p, n) is None,
    decreases n,
{
    if n > 0 {
        lemma_not_found(assets, p, n - 1);
    }
}

/// Turning to the opposite side twice is turning back.
pub proof fn lemma_opposite_of_opposite(axis: Axis)
    ensures
        axis.other_side().other_side() == axis,
        axis.other_side() != axis,
{
}

// ---- what a session keeps ---------------------------------------------------
/// The first line of a text is what stands before its first line break, without
/// the carriage return before that; a text without a break is its own first
/// line.
pub proof fn lemma_the_first_line_ends_at_the_break(s: Seq<char>)
    ensures
        ({
            let first = first_line_of(s);
            let n = first.len() as int;
            &&& !first.contains('\n')
            &&& n <= s.len() && s.subrange(0, n) == first
            &&& !s.contains('\n') ==> first == s
            &&& s.contains('\n') ==> (n < s.len() && s[n] == '\n') || (n + 1 < s.len() && s[n]
                == '\r' && s[n + 1] == '\n')
            &&& s.contains('\n') && n > 0 && s[n] == '\n' ==> s[n - 1] != '\r'
        }),
{
    text::lemma_find(s, '\n');
    let first = first_line_of(s);
    assert(s.subrange(0, s.len() as int) =~= s);
    if first.contains('\n') {
        let k = choose|k: int| 0 <= k < first.len() && first[k] == '\n';
        assert(s[k] == '\n');
    }
    if text::find(s, '\n') < s.len() {
        assert(s[text::find(s, '\n')] == '\n');
    }
    if s.contains('\n') {
        let k = choose|k: int| 0 <= k < s.len() && s[k] == '\n';
        assert(text::find(s, '\n') < s.len());
    }
}

/// Going on through the sample counts visits them in turn and starts over after
/// the last; one that is not among them is followed by the first.
pub proof fn lemma_sample_counts_come_in_turn(counts: Seq<u32>, i: int, other: u32)
    requires
        counts.no_duplicates(),
        0 <= i < counts.len(),
        !counts.contains(other),
    ensures
        i + 1 < counts.len() ==> sample_after(counts, counts[i]) == counts[i + 1],
        i + 1 == counts.len() ==> sample_after(counts, counts[i]) == counts[0],
        sample_after(counts, other) == counts[0],
{
    counts.index_of_first_ensures(counts[i]);
    counts.index_of_first_ensures(other);
    let at = counts.index_of_first(counts[i])->0;
    assert(at == i);
    if i + 1 < counts.len() {
        vstd::arithmetic::div_mod::lemma_small_mod((i + 1) as nat, counts.len());
    } else {
        vstd::arithmetic::div_mod::lemma_mod_self_0(counts.len() as int);
    }
}

/// A picture of a model is written beside it, under the name of the model with
/// the time behind it.
pub proof fn lemma_a_picture_lies_beside_its_model(model: PathView, stamp: Seq<char>)
    requires
        model.file_name() is Some,
    ensures
        ({
            let shot = shot_path(model, stamp);
            let stem = model.stem()->0;
            &&& shot.names.last() == stem + "_"@ + stamp + ".png"@
            &&& model.anchor.len() > 0 || model.names.len() > 1 ==> shot.anchor == model.anchor
                && shot.names.drop_last() == model.names.drop_last()
            &&& model.anchor.len() == 0 && model.names.len() == 1 ==> shot.anchor == model.anchor
                && shot.names.drop_last() == seq![seq!['.']]
        }),
{
    let shot = shot_path(model, stamp);
    let dir = paths::root_of(model, false);
    assert(shot.names.drop_last() =~= dir.names);
    assert(model.anchor.len() == 0 ==> model.anchor =~= Seq::<Seq<char>>::empty());
}

/// A listing is headed by the name of the directory its first file lies in.
pub proof fn lemma_a_listing_is_headed_by_its_directory(files: Seq<FilePath>)
    requires
        files.len() > 0,
        files[0]@.names.len() >= 2,
        !paths::is_dots(files[0]@.names[files[0]@.names.len() - 2]),
    ensures
        listing_title(files) == files[0]@.names[files[0]@.names.len() - 2],
{
}

/// What is stored is what is on screen: each switch and choice under its own
/// key, with the window, the samples and the size of the cells left as they
/// were.
pub proof fn lemma_what_is_on_screen_is_stored(s: Session, was: SettingsView)
    ensures
        ({
            let k = kept(s, was);
            &&& k.grid == s.show_grid && k.bbox == s.show_bbox && k.axes == s.show_axes
            &&& k.occlusion == s.ambient_occlusion && k.orthographic == s.orthographic
            &&& k.background == s.background
            &&& k.view == s.lib.view && k.sort == s.lib.sort
            &&& k.descending == s.lib.descending && k.stack_variants == s.lib.stack_variants
            &&& k.root == Some(s.root@.as_text())
            &&& k.window == was.window && k.msaa == was.msaa && k.cell == was.cell
        }),
        s.lib.assets@.len() > 0 ==> kept(s, was).collections.len() == s.lib.collections@.len()
            && forall|c: int, k: int|
            #![trigger s.lib.collections@[c].members@[k]]
            0 <= c < s.lib.collections@.len() && 0 <= k < s.lib.collections@[c].members@.len()
                ==> kept(s, was).collections[c].members[k]
                == s.lib.assets@[s.lib.collections@[c].members@[k] as int].path@.as_text()
                && kept(s, was).collections[c].name == s.lib.collections@[c].name@,
        s.lib.assets@.len() == 0 ==> kept(s, was).collections.len() == s.pending@.len()
            && forall|c: int, k: int|
            #![trigger s.pending@[c].1@[k]]
            0 <= c < s.pending@.len() && 0 <= k < s.pending@[c].1@.len() ==> kept(
                s,
                was,
            ).collections[c].members[k] == s.pending@[c].1@[k]@.as_text() && kept(
                s,
                was,
            ).collections[c].name == s.pending@[c].0@,
{
}

/// The opposite of a side is the one across from it.
pub proof fn lemma_sides_lie_across()
    ensures
        Axis::Front.other_side() == Axis::Back,
        Axis::Right.other_side() == Axis::Left,
        Axis::Top.other_side() == Axis::Bottom,
        forall|a: Axis| (#[trigger] a.other_side()).other_side() == a,
{
}

/// What can be typed is every character but the control characters.
pub proof fn lemma_what_can_be_typed(c: char)
    ensures
        is_control(c) <==> (c as u32) < 32 || (127 <= c as u32 && (c as u32) < 160),
{
}

} // verus!
