//! What the library browser shows, and why.
//!
//! This module is the answer to "given a few thousand files on disk, which
//! ones belong on screen right now, in what order, and grouped how". The UI
//! layer reads it and draws; the scanner writes into it from a background
//! thread's messages.
//!
//! Three ideas carry most of the weight:
//!
//! * **Folders are not the only grouping.** A *collection* cuts across the
//!   tree, because the thing you are working on -- a tavern, one creature --
//!   is almost never one directory.
//! * **Variant families.** Packs ship `crate-0` through `crate-6`. Seven cells
//!   for one crate is noise, so files sharing a name prefix collapse into one
//!   row you can open.
//! * **Facet counts are live.** Every filter shows how many assets it would
//!   leave, counted against everything *except* its own group, which is what
//!   makes a facet list worth reading before you click it.

use vstd::prelude::*;
use vstd::view::View as _;

use crate::names;
use crate::paths::{FilePath, PathView};
use crate::scene;
use crate::text;

pub use crate::names::{family_key, family_tail, natural_cmp, thousands};

verus! {

/// Anything under 24 hours old counts as "recently changed"; in nanoseconds.
pub const RECENT: i64 = 86_400_000_000_000;

/// Palette entries kept per asset for the inspector's swatch strip.
pub const PALETTE_HEAD: usize = 32;

/// What the background scan learned about one file.
#[derive(Clone, Debug)]
pub struct AssetStats {
    pub dims: [i32; 3],
    pub voxels: usize,
    /// What the viewer draws of it; a model counts once for each place it
    /// stands in.
    pub triangles: usize,
    pub models: usize,
    pub instances: usize,
    /// False when the file carried no `RGBA` chunk and the MagicaVoxel
    /// default palette was substituted.
    pub palette_from_file: bool,
    pub palette_head: Vec<[u8; 3]>,
    pub bytes: u64,
    /// When the file was last changed, in nanoseconds since the epoch.
    pub modified: Option<i64>,
}

pub open spec fn larger(a: int, b: int) -> int {
    if a >= b {
        a
    } else {
        b
    }
}

impl AssetStats {
    pub open spec fn longest(self) -> int {
        larger(larger(self.dims[0] as int, self.dims[1] as int), self.dims[2] as int)
    }

    /// Longest side in voxels; what the extent facets bucket on.
    pub fn longest_side(&self) -> (r: i32)
        ensures
            r == self.longest(),
    {
        let (a, b, c): (i32, i32, i32) = (self.dims[0], self.dims[1], self.dims[2]);
        let ab: i32 = if a >= b { a } else { b };
        if ab >= c {
            ab
        } else {
            c
        }
    }
}

/// How far the scan has got with one file.
#[derive(Clone, Debug)]
pub enum Load {
    Pending,
    Ready(AssetStats),
    Failed(String),
}

#[derive(Clone, Debug)]
pub struct Asset {
    pub path: FilePath,
    /// File stem: `barrel_wood_water`, not `barrel_wood_water.vox`.
    pub name: String,
    /// Index into [`Library::folders`].
    pub folder: usize,
    /// Set when this asset shares a name prefix with a sibling.
    pub family: Option<String>,
    pub load: Load,
}

impl Asset {
    pub fn stats(&self) -> (r: Option<&AssetStats>)
        ensures
            r == (match self.load {
                Load::Ready(s) => Some(&s),
                _ => None,
            }),
    {
        match &self.load {
            Load::Ready(s) => Some(s),
            _ => None,
        }
    }

    pub fn failed(&self) -> (r: bool)
        ensures
            r == (self.load is Failed),
    {
        match &self.load {
            Load::Failed(_) => true,
            _ => false,
        }
    }
}

/// One directory in the rail's tree.
#[derive(Clone, Debug)]
pub struct Folder {
    pub name: String,
    pub path: FilePath,
    pub parent: Option<usize>,
    pub children: Vec<usize>,
    pub depth: usize,
    /// `.vox` files sitting directly in this directory.
    pub direct: usize,
    /// `.vox` files in this directory and everything under it.
    pub total: usize,
    pub expanded: bool,
}

/// A hand-made set that cuts across the folder tree.
#[derive(Clone, Debug)]
pub struct Collection {
    pub name: String,
    /// Asset indices, in the order they were added.
    pub members: Vec<usize>,
}

/// How the centre pane lays assets out.
#[derive(Clone, Copy, Debug, PartialEq, Eq, Structural)]
pub enum View {
    Grid,
    List,
}

/// What the centre pane is showing the contents of.
#[derive(Clone, Copy, Debug, PartialEq, Eq, Structural)]
pub enum Scope {
    /// A folder and everything beneath it.
    Folder(usize),
    Collection(usize),
}

/// What the assets are ordered by.
#[derive(Clone, Copy, Debug, PartialEq, Eq, Structural)]
pub enum Sort {
    Name,
    Extent,
    Voxels,
    Modified,
}

impl Sort {
    pub fn label(self) -> (r: &'static str)
        ensures
            r@ == (match self {
                Sort::Name => "Name"@,
                Sort::Extent => "Extent"@,
                Sort::Voxels => "Voxels"@,
                Sort::Modified => "Modified"@,
            }),
    {
        match self {
            Sort::Name => "Name",
            Sort::Extent => "Extent",
            Sort::Voxels => "Voxels",
            Sort::Modified => "Modified",
        }
    }

    /// Every order there is, as the menu lists them.
    pub fn all() -> (r: [Sort; 4])
        ensures
            r@ == seq![Sort::Name, Sort::Extent, Sort::Voxels, Sort::Modified],
    {
        let r = [Sort::Name, Sort::Extent, Sort::Voxels, Sort::Modified];
        assert(r@ =~= seq![Sort::Name, Sort::Extent, Sort::Voxels, Sort::Modified]);
        r
    }
}

/// The filter checkboxes, as a flat set of flags.
///
/// All-off means "no filter from this group", which is what makes the counts
/// readable: nothing is hidden until you choose to hide it.
#[derive(Clone, Copy, Debug, PartialEq, Eq)]
pub struct Facets {
    /// `<= 16`, `<= 32`, `> 32` on the longest side.
    pub extent: [bool; 3],
    pub palette_from_file: bool,
    pub palette_default: bool,
    pub recent: bool,
    pub failed: bool,
}

impl Facets {
    pub open spec fn some_extent(self) -> bool {
        self.extent[0] || self.extent[1] || self.extent[2]
    }

    pub open spec fn none(self) -> bool {
        &&& !self.some_extent()
        &&& !self.palette_from_file
        &&& !self.palette_default
        &&& !self.recent
        &&& !self.failed
    }

    fn extent_any(&self) -> (r: bool)
        ensures
            r == self.some_extent(),
    {
        self.extent[0] || self.extent[1] || self.extent[2]
    }

    pub(crate) fn clear(&mut self)
        ensures
            final(self).none(),
    {
        *self = Facets::default();
    }

    /// Whether anything is filtered at all.
    pub fn any(&self) -> (r: bool)
        ensures
            r == !self.none(),
    {
        self.extent_any() || self.palette_from_file || self.palette_default || self.recent
            || self.failed
    }
}

impl Default for Facets {
    fn default() -> (r: Facets)
        ensures
            r.none(),
    {
        Facets {
            extent: [false, false, false],
            palette_from_file: false,
            palette_default: false,
            recent: false,
            failed: false,
        }
    }
}

/// One entry in the centre pane: a single asset, or a stack of variants.
#[derive(Clone, Debug, PartialEq, Eq)]
pub enum Row {
    One(usize),
    /// A collapsed or expanded variant family. When expanded, the `One` rows
    /// for its members follow immediately.
    Family { key: String, members: Vec<usize> },
}

/// An entry of the centre pane, as mathematical values.
pub enum RowView {
    One(usize),
    Family { key: Seq<char>, members: Seq<usize> },
}

impl vstd::view::View for Row {
    type V = RowView;

    open spec fn view(&self) -> RowView {
        match self {
            Row::One(i) => RowView::One(*i),
            Row::Family { key, members } => RowView::Family { key: key@, members: members@ },
        }
    }
}

impl RowView {
    /// A stack has something in it.
    pub open spec fn wf(self) -> bool {
        self matches RowView::Family { members, .. } ==> members.len() > 0
    }

    pub open spec fn first(self) -> usize {
        match self {
            RowView::One(i) => i,
            RowView::Family { members, .. } => members[0],
        }
    }

    pub open spec fn shows(self, asset: usize) -> bool {
        match self {
            RowView::One(i) => i == asset,
            RowView::Family { members, .. } => members.contains(asset),
        }
    }
}

impl Row {
    /// The asset whose thumbnail and stats represent this row.
    pub fn lead(&self) -> (r: usize)
        requires
            self@.wf(),
        ensures
            r == self@.first(),
    {
        match self {
            Row::One(i) => *i,
            Row::Family { members, .. } => members[0],
        }
    }
}

/// One line of the rail's folder tree, after single-child chains are merged.
#[derive(Clone, Debug)]
pub struct TreeRow {
    pub folder: usize,
    /// `voxygen · voxel` when a chain of pass-through directories was merged.
    pub label: String,
    pub depth: usize,
    pub has_children: bool,
    pub expanded: bool,
    pub total: usize,
}

/// A count for one facet checkbox.
#[derive(Clone, Copy, Debug, PartialEq, Eq, Structural)]
pub struct FacetCount {
    pub matching: usize,
    pub on: bool,
}

/// Counts for one draw of the filter rail.
#[derive(Clone, Copy, Debug)]
pub struct FacetCounts {
    pub extent: [FacetCount; 3],
    pub palette_from_file: FacetCount,
    pub palette_default: FacetCount,
    pub recent: FacetCount,
    pub failed: FacetCount,
    /// Assets in scope, before find and facets.
    pub total: usize,
    /// Of those, how many the scan has not reached yet.
    pub pending: usize,
}

pub struct Library {
    pub root: FilePath,
    pub folders: Vec<Folder>,
    pub assets: Vec<Asset>,
    pub collections: Vec<Collection>,
    pub scope: Scope,
    pub find: String,
    pub view: View,
    pub sort: Sort,
    pub descending: bool,
    pub stack_variants: bool,
    pub facets: Facets,
    /// Asset indices, in click order. The last one drives the inspector.
    pub selection: Vec<usize>,
    /// Where a shift-click range starts.
    pub anchor: Option<usize>,
    /// Row index the keyboard cursor sits on.
    pub cursor: usize,
    /// Families that are open, as a folder and a shared prefix.
    pub expanded_families: Vec<(usize, String)>,
    /// Directories that could not be read during the walk.
    pub skipped: Vec<(FilePath, String)>,
    pub truncated: bool,
    /// Cleared whenever anything that affects [`Library::rows`] changes.
    pub cache: Option<Vec<Row>>,
}

// ---- the tree ---------------------------------------------------------------
/// Whether the folders form a tree: the root comes first, every other folder
/// after the one it lies in, and each folder lists exactly the ones in it.
pub open spec fn is_tree(folders: Seq<Folder>) -> bool {
    &&& folders.len() >= 1
    &&& folders[0].parent is None
    &&& folders[0].depth == 0
    &&& forall|i: int|
        1 <= i < folders.len() ==> (#[trigger] folders[i]).parent is Some && folders[i].parent->0
            < i && folders[i].depth == folders[folders[i].parent->0 as int].depth + 1
    &&& forall|p: int, k: int|
        #![trigger folders[p].children@[k]]
        0 <= p < folders.len() && 0 <= k < folders[p].children@.len() ==> {
            let c = folders[p].children@[k];
            p < c < folders.len() && folders[c as int].parent == Some(p as usize)
        }
    &&& forall|p: int, j: int, k: int|
        #![trigger folders[p].children@[j], folders[p].children@[k]]
        0 <= p < folders.len() && 0 <= j < k < folders[p].children@.len()
            ==> folders[p].children@[j] < folders[p].children@[k]
    &&& forall|i: int|
        1 <= i < folders.len() ==> folders[(#[trigger] folders[i]).parent->0 as int].children@.contains(
            i as usize,
        )
}

/// Whether a folder is another or lies somewhere below it.
pub open spec fn beneath(folders: Seq<Folder>, i: int, top: int) -> bool
    decreases i,
{
    i == top || match folders[i].parent {
        Some(p) => 0 <= p < i && beneath(folders, p as int, top),
        None => false,
    }
}

/// How many of some assets lie directly in a folder.
pub open spec fn direct_count(assets: Seq<Asset>, f: int) -> nat
    decreases assets.len(),
{
    if assets.len() == 0 {
        0
    } else {
        direct_count(assets.drop_last(), f) + if assets.last().folder == f {
            1nat
        } else {
            0nat
        }
    }
}

/// How many of some assets lie in a folder or below it.
pub open spec fn total_count(folders: Seq<Folder>, assets: Seq<Asset>, f: int) -> nat
    decreases assets.len(),
{
    if assets.len() == 0 {
        0
    } else {
        total_count(folders, assets.drop_last(), f) + if beneath(
            folders,
            assets.last().folder as int,
            f,
        ) {
            1nat
        } else {
            0nat
        }
    }
}

/// Whether the folders' counts are those of the assets.
pub open spec fn counted(folders: Seq<Folder>, assets: Seq<Asset>) -> bool {
    &&& forall|i: int|
        0 <= i < assets.len() ==> (#[trigger] assets[i]).folder < folders.len()
    &&& forall|f: int|
        0 <= f < folders.len() ==> (#[trigger] folders[f]).direct == direct_count(assets, f)
            && folders[f].total == total_count(folders, assets, f)
}

impl Library {
    /// The folders form a tree that counts the assets, and everything that
    /// names a folder or an asset names one there is.
    pub open spec fn wf(&self) -> bool {
        &&& is_tree(self.folders@)
        &&& counted(self.folders@, self.assets@)
        &&& forall|c: int, k: int|
            #![trigger self.collections@[c].members@[k]]
            0 <= c < self.collections@.len() && 0 <= k < self.collections@[c].members@.len()
                ==> self.collections@[c].members@[k] < self.assets@.len()
        &&& self.scope matches Scope::Folder(f) ==> f < self.folders@.len()
        &&& self.cache matches Some(rows) ==> forall|i: int|
            0 <= i < rows@.len() ==> (#[trigger] rows@[i])@.wf()
    }
}

/// A folder of the tree being built: where it is, and the folder it lies in.
pub struct Place {
    pub path: PathView,
    pub parent: Option<int>,
}

/// The folder with some path, if there is one.
pub open spec fn place_at(places: Seq<Place>, dir: PathView, from: int) -> Option<int>
    decreases places.len() - from,
{
    if from < 0 || from >= places.len() {
        None
    } else if places[from].path == dir {
        Some(from)
    } else {
        place_at(places, dir, from + 1)
    }
}

/// The folders with one for `dir`, and those it lies in, added where they were
/// missing; a directory that is not below the root hangs off it all the same.
pub open spec fn with_place(places: Seq<Place>, dir: PathView) -> (Seq<Place>, int)
    decreases dir.names.len(),
{
    match place_at(places, dir, 0) {
        Some(i) => (places, i),
        None => match dir.parent() {
            None => (places, 0),
            Some(up) => {
                let (before, p) = with_place(places, up);
                (before.push(Place { path: dir, parent: Some(p) }), before.len() as int)
            },
        },
    }
}

/// Folders and files after one more file was found; a path without a directory
/// is no file.
pub open spec fn with_file(
    places: Seq<Place>,
    found: Seq<(PathView, int)>,
    path: PathView,
) -> (Seq<Place>, Seq<(PathView, int)>) {
    match path.parent() {
        None => (places, found),
        Some(dir) => {
            let (after, at) = with_place(places, dir);
            (after, found.push((path, at)))
        },
    }
}

/// The folders after some files, and for each file the folder it lies in.
pub open spec fn places_of(root: PathView, files: Seq<FilePath>) -> (Seq<Place>, Seq<(PathView, int)>)
    decreases files.len(),
{
    if files.len() == 0 {
        (seq![Place { path: root, parent: None }], Seq::empty())
    } else {
        let (places, found) = places_of(root, files.drop_last());
        with_file(places, found, files.last()@)
    }
}

/// Whether a folder is the one at a place, new and closed.
pub open spec fn folder_is(f: Folder, p: Place) -> bool {
    &&& f.path@ == p.path
    &&& f.name@ == p.path.title()
    &&& f.parent is Some <==> p.parent is Some
    &&& f.parent matches Some(i) ==> p.parent == Some(i as int)
}

pub open spec fn folders_are(folders: Seq<Folder>, places: Seq<Place>) -> bool {
    &&& folders.len() == places.len()
    &&& forall|i: int| 0 <= i < folders.len() ==> folder_is(#[trigger] folders[i], places[i])
}

/// The name of an asset: its file name without the extension.
pub open spec fn asset_name(p: PathView) -> Seq<char> {
    match p.stem() {
        Some(s) => s,
        None => Seq::empty(),
    }
}

/// Whether an asset is the file found in a folder, not yet looked into.
pub open spec fn asset_is(a: Asset, found: (PathView, int)) -> bool {
    &&& a.path@ == found.0
    &&& a.name@ == asset_name(found.0)
    &&& a.folder == found.1
    &&& a.load is Pending
}

pub open spec fn assets_are(assets: Seq<Asset>, found: Seq<(PathView, int)>) -> bool {
    &&& assets.len() == found.len()
    &&& forall|i: int| 0 <= i < assets.len() ==> asset_is(#[trigger] assets[i], found[i])
}

// ---- families ---------------------------------------------------------------
/// How many of some assets in a folder have a name with some prefix.
pub open spec fn sharing(assets: Seq<Asset>, folder: usize, key: Seq<char>) -> nat
    decreases assets.len(),
{
    if assets.len() == 0 {
        0
    } else {
        sharing(assets.drop_last(), folder, key) + if assets.last().folder == folder
            && names::family_of_name(assets.last().name@) == Some(key) {
            1nat
        } else {
            0nat
        }
    }
}

/// The family of an asset: the prefix of its name, where another asset in the
/// same folder shares it.
pub open spec fn family_among(assets: Seq<Asset>, i: int) -> Option<Seq<char>> {
    match names::family_of_name(assets[i].name@) {
        Some(key) => if sharing(assets, assets[i].folder, key) > 1 {
            Some(key)
        } else {
            None
        },
        None => None,
    }
}

// ---- building the tree ------------------------------------------------------
pub proof fn lemma_beneath_le(folders: Seq<Folder>, i: int, top: int)
    requires
        beneath(folders, i, top),
        0 <= i,
    ensures
        top <= i,
    decreases i,
{
    if i != top {
        if let Some(p) = folders[i].parent {
            lemma_beneath_le(folders, p as int, top);
        }
    }
}

/// Whether some folders lie in the same folders in two trees.
pub open spec fn same_parents(a: Seq<Folder>, b: Seq<Folder>, n: int) -> bool {
    forall|i: int| 0 <= i < n ==> (#[trigger] a[i]).parent == b[i].parent
}

proof fn lemma_beneath_frame(a: Seq<Folder>, b: Seq<Folder>, n: int, i: int, top: int)
    requires
        same_parents(a, b, n),
        0 <= i < n,
    ensures
        beneath(a, i, top) == beneath(b, i, top),
    decreases i,
{
    assert(a[i].parent == b[i].parent);
    if let Some(p) = a[i].parent {
        if 0 <= p < i {
            lemma_beneath_frame(a, b, n, p as int, top);
        }
    }
}

pub proof fn lemma_total_frame(a: Seq<Folder>, b: Seq<Folder>, assets: Seq<Asset>, n: int, f: int)
    requires
        same_parents(a, b, n),
        forall|i: int| 0 <= i < assets.len() ==> (#[trigger] assets[i]).folder < n,
    ensures
        total_count(a, assets, f) == total_count(b, assets, f),
    decreases assets.len(),
{
    if assets.len() > 0 {
        let before = assets.drop_last();
        assert forall|i: int| 0 <= i < before.len() implies (#[trigger] before[i]).folder < n by {
            assert(assets[i].folder < n);
        }
        lemma_total_frame(a, b, before, n, f);
        assert(assets[assets.len() - 1].folder < n);
        lemma_beneath_frame(a, b, n, assets.last().folder as int, f);
    }
}

proof fn lemma_none_beneath(folders: Seq<Folder>, assets: Seq<Asset>, n: int, f: int)
    requires
        forall|i: int| 0 <= i < assets.len() ==> (#[trigger] assets[i]).folder < n,
        n <= f,
    ensures
        total_count(folders, assets, f) == 0,
        direct_count(assets, f) == 0,
    decreases assets.len(),
{
    if assets.len() > 0 {
        let before = assets.drop_last();
        assert forall|i: int| 0 <= i < before.len() implies (#[trigger] before[i]).folder < n by {
            assert(assets[i].folder < n);
        }
        lemma_none_beneath(folders, before, n, f);
        assert(assets[assets.len() - 1].folder < n);
        if beneath(folders, assets.last().folder as int, f) {
            lemma_beneath_le(folders, assets.last().folder as int, f);
        }
    }
}

proof fn lemma_count_bounds(folders: Seq<Folder>, assets: Seq<Asset>, f: int)
    ensures
        direct_count(assets, f) <= assets.len(),
        total_count(folders, assets, f) <= assets.len(),
    decreases assets.len(),
{
    if assets.len() > 0 {
        lemma_count_bounds(folders, assets.drop_last(), f);
    }
}

proof fn lemma_depth_bound(folders: Seq<Folder>, i: int)
    requires
        is_tree(folders),
        0 <= i < folders.len(),
    ensures
        folders[i].depth <= i,
    decreases i,
{
    if i > 0 {
        lemma_depth_bound(folders, folders[i].parent->0 as int);
    }
}

/// Whether no two folders have the same path.
pub open spec fn distinct(places: Seq<Place>) -> bool {
    forall|i: int, j: int|
        #![trigger places[i], places[j]]
        0 <= i < j < places.len() ==> places[i].path != places[j].path
}

proof fn lemma_place_at(places: Seq<Place>, dir: PathView, from: int)
    requires
        0 <= from,
    ensures
        match place_at(places, dir, from) {
            Some(i) => from <= i < places.len() && places[i].path == dir,
            None => forall|i: int| from <= i < places.len() ==> (#[trigger] places[i]).path != dir,
        },
    decreases places.len() - from,
{
    if from < places.len() && places[from].path != dir {
        lemma_place_at(places, dir, from + 1);
    }
}

proof fn lemma_with_place(places: Seq<Place>, dir: PathView)
    requires
        distinct(places),
        places.len() >= 1,
    ensures
        distinct(with_place(places, dir).0),
        0 <= with_place(places, dir).1 < with_place(places, dir).0.len(),
        with_place(places, dir).0.len() >= places.len(),
        forall|i: int|
            0 <= i < places.len() ==> (#[trigger] with_place(places, dir).0[i]) == places[i],
        forall|i: int|
            places.len() <= i < with_place(places, dir).0.len() ==> (#[trigger] with_place(
                places,
                dir,
            ).0[i]).path.names.len() <= dir.names.len(),
    decreases dir.names.len(),
{
    lemma_place_at(places, dir, 0);
    if place_at(places, dir, 0) is None {
        if let Some(up) = dir.parent() {
            lemma_with_place(places, up);
            let before = with_place(places, up).0;
            let after = with_place(places, dir).0;
            assert forall|i: int, j: int|
                #![trigger after[i], after[j]]
                0 <= i < j < after.len() implies after[i].path != after[j].path by {
                if j == before.len() {
                    if i < places.len() {
                        assert(before[i] == places[i]);
                    } else {
                        assert(before[i].path.names.len() <= up.names.len());
                    }
                } else {
                    assert(before[i].path != before[j].path);
                }
            }
        }
    }
}

/// The index of the folder with some path.
fn find_folder(folders: &Vec<Folder>, dir: &FilePath, Ghost(places): Ghost<Seq<Place>>) -> (r:
    Option<usize>)
    requires
        folders_are(folders@, places),
        distinct(places),
    ensures
        match r {
            Some(i) => place_at(places, dir@, 0) == Some(i as int) && i < folders@.len(),
            None => place_at(places, dir@, 0) is None,
        },
{
    proof {
        lemma_place_at(places, dir@, 0);
    }
    // Files come sorted, so the folder asked for is mostly the newest one.
    let mut i: usize = folders.len();
    while i > 0
        invariant
            i <= folders@.len(),
            folders_are(folders@, places),
            distinct(places),
            forall|k: int| i <= k < folders@.len() ==> (#[trigger] places[k]).path != dir@,
            match place_at(places, dir@, 0) {
                Some(i) => 0 <= i < places.len() && places[i].path == dir@,
                None => forall|i: int|
                    0 <= i < places.len() ==> (#[trigger] places[i]).path != dir@,
            },
        decreases i,
    {
        i -= 1;
        assert(folder_is(folders@[i as int], places[i as int]));
        if folders[i].path.same(dir) {
            proof {
                if let Some(j) = place_at(places, dir@, 0) {
                    if j != i {
                        assert(places[i as int].path == places[j].path);
                    }
                }
            }
            return Some(i);
        }
    }
    None
}

/// Whether folders were only added, empty and closed, to those there were.
pub open spec fn grown(a: Seq<Folder>, b: Seq<Folder>) -> bool {
    &&& a.len() <= b.len()
    &&& forall|i: int|
        0 <= i < a.len() ==> (#[trigger] b[i]).parent == a[i].parent && b[i].direct == a[i].direct
            && b[i].total == a[i].total && b[i].expanded == a[i].expanded
    &&& forall|i: int|
        a.len() <= i < b.len() ==> (#[trigger] b[i]).direct == 0 && b[i].total == 0
            && !b[i].expanded
}

/// Find or create the folder for `dir`, walking up to the root as needed.
#[verifier::spinoff_prover]
#[verifier::rlimit(60)]
fn folder_for(folders: &mut Vec<Folder>, dir: &FilePath, Ghost(places): Ghost<Seq<Place>>) -> (r:
    usize)
    requires
        is_tree(old(folders)@),
        folders_are(old(folders)@, places),
        distinct(places),
    ensures
        is_tree(final(folders)@),
        folders_are(final(folders)@, with_place(places, dir@).0),
        r == with_place(places, dir@).1,
        r < final(folders)@.len(),
        grown(old(folders)@, final(folders)@),
    decreases dir@.names.len(),
{
    proof {
        lemma_with_place(places, dir@);
    }
    if let Some(i) = find_folder(folders, dir, Ghost(places)) {
        return i;
    }
    // A file outside the root should still land somewhere sane.
    let up = match dir.parent() {
        Some(up) => up,
        None => {
            return 0;
        },
    };
    proof {
        lemma_with_place(places, up@);
    }
    let parent: usize = folder_for(folders, &up, Ghost(places));
    let index: usize = folders.len();
    let ghost before = folders@;
    let ghost placed = with_place(places, up@).0;
    proof {
        lemma_depth_bound(before, parent as int);
    }
    let depth: usize = folders[parent].depth + 1;
    folders.push(
        Folder {
            name: dir.title(),
            path: dir.copy(),
            parent: Some(parent),
            children: Vec::new(),
            depth,
            direct: 0,
            total: 0,
            expanded: false,
        },
    );
    let ghost pushed = folders@;
    folders[parent].children.push(index);
    proof {
        let now = folders@;
        assert(now.len() == before.len() + 1);
        assert forall|i: int| 0 <= i < now.len() && i != parent implies now[i] == pushed[i] by {}
        assert(now[parent as int].children@ == before[parent as int].children@.push(index));
        assert(now[parent as int].parent == before[parent as int].parent);
        assert(now[parent as int].path == before[parent as int].path);
        assert(now[parent as int].name == before[parent as int].name);
        lemma_tree_push(before, now, parent, index);
        assert forall|i: int| 0 <= i < now.len() implies folder_is(
            #[trigger] now[i],
            with_place(places, dir@).0[i],
        ) by {
            if i < before.len() {
                assert(folder_is(before[i], placed[i]));
            }
        }
    }
    index
}

proof fn lemma_tree_push(before: Seq<Folder>, now: Seq<Folder>, parent: usize, index: usize)
    requires
        is_tree(before),
        index == before.len(),
        parent < before.len(),
        now.len() == before.len() + 1,
        forall|i: int|
            0 <= i < before.len() ==> (#[trigger] now[i]).parent == before[i].parent && now[i].depth
                == before[i].depth,
        forall|i: int|
            0 <= i < before.len() && i != parent ==> (#[trigger] now[i]).children@
                == before[i].children@,
        now[parent as int].children@ == before[parent as int].children@.push(index),
        now[index as int].parent == Some(parent),
        now[index as int].depth == before[parent as int].depth + 1,
        now[index as int].children@.len() == 0,
    ensures
        is_tree(now),
{
    assert forall|p: int, k: int|
        #![trigger now[p].children@[k]]
        0 <= p < now.len() && 0 <= k < now[p].children@.len() implies {
        let c = now[p].children@[k];
        p < c < now.len() && now[c as int].parent == Some(p as usize)
    } by {
        if p == parent && k == before[p].children@.len() {
        } else if p < before.len() {
            assert(before[p].children@[k] == now[p].children@[k]);
        }
    }
    assert forall|p: int, j: int, k: int|
        #![trigger now[p].children@[j], now[p].children@[k]]
        0 <= p < now.len() && 0 <= j < k < now[p].children@.len() implies now[p].children@[j]
        < now[p].children@[k] by {
        if p < before.len() {
            assert(before[p].children@[j] == now[p].children@[j]);
            if k < before[p].children@.len() {
                assert(before[p].children@[k] == now[p].children@[k]);
            }
        }
    }
    assert forall|i: int| 1 <= i < now.len() implies now[(#[trigger] now[i]).parent->0 as int].children@.contains(
        i as usize,
    ) by {
        let p = now[i].parent->0 as int;
        if i == index {
            let c = now[p].children@;
            assert(c[c.len() - 1] == index);
        } else {
            assert(before[i].parent == now[i].parent);
            assert(before[p].children@.contains(i as usize));
            let k = choose|k: int|
                0 <= k < before[p].children@.len() && before[p].children@[k] == i as usize;
            assert(now[p].children@[k] == i as usize);
        }
    }
    assert forall|i: int| 1 <= i < now.len() implies (#[trigger] now[i]).parent is Some
        && now[i].parent->0 < i && now[i].depth == now[now[i].parent->0 as int].depth + 1 by {
        if i < before.len() {
            assert(before[i].parent is Some);
        }
    }
}

/// Whether one more file is counted in a folder and in those it lies in.
pub open spec fn one_more(a: Seq<Folder>, b: Seq<Folder>, folder: int) -> bool {
    forall|i: int|
        0 <= i < a.len() ==> {
            let f = #[trigger] b[i];
            &&& f.parent == a[i].parent
            &&& f.expanded == a[i].expanded
            &&& f.path == a[i].path
            &&& f.name == a[i].name
            &&& f.direct == a[i].direct + if i == folder {
                1int
            } else {
                0int
            }
            &&& f.total == a[i].total + if beneath(a, folder, i) {
                1int
            } else {
                0int
            }
        }
}

/// Count one more file in a folder and in every folder that one lies in.
fn count_file(folders: &mut Vec<Folder>, folder: usize, Ghost(assets): Ghost<Seq<Asset>>)
    requires
        is_tree(old(folders)@),
        folder < old(folders)@.len(),
        counted(old(folders)@, assets),
        assets.len() < usize::MAX,
    ensures
        is_tree(final(folders)@),
        final(folders)@.len() == old(folders)@.len(),
        one_more(old(folders)@, final(folders)@, folder as int),
{
    let ghost start = folders@;
    proof {
        lemma_count_bounds(start, assets, folder as int);
        assert(start[folder as int].direct == direct_count(assets, folder as int));
    }
    folders[folder].direct = folders[folder].direct + 1;
    let mut up: Option<usize> = Some(folder);
    proof {
        lemma_tree_frame(start, folders@);
    }
    while up.is_some()
        invariant
            is_tree(folders@),
            folders@.len() == start.len(),
            counted(start, assets),
            assets.len() < usize::MAX,
            folder < start.len(),
            up matches Some(u) ==> u < start.len() && beneath(start, folder as int, u as int),
            forall|i: int|
                0 <= i < start.len() ==> {
                    let (f, g) = (#[trigger] folders@[i], start[i]);
                    &&& f.parent == g.parent
                    &&& f.expanded == g.expanded
                    &&& f.path == g.path
                    &&& f.name == g.name
                    &&& f.children == g.children
                    &&& f.depth == g.depth
                    &&& f.direct == g.direct + if i == folder {
                        1int
                    } else {
                        0int
                    }
                    &&& f.total == g.total + if beneath(start, folder as int, i) && !(
                    up matches Some(u) && beneath(start, u as int, i)) {
                        1int
                    } else {
                        0int
                    }
                },
        decreases match up {
            Some(u) => u + 1,
            None => 0,
        },
    {
        let f: usize = up.unwrap();
        let ghost had = folders@;
        proof {
            lemma_count_bounds(start, assets, f as int);
            assert(start[f as int].total == total_count(start, assets, f as int));
            assert(beneath(start, f as int, f as int));
        }
        folders[f].total = folders[f].total + 1;
        up = folders[f].parent;
        proof {
            assert(had[f as int].parent == start[f as int].parent);
            if f > 0 {
                assert(start[f as int].parent is Some);
            }
            assert forall|i: int| 0 <= i < start.len() implies beneath(start, f as int, i) == (i
                == f || (up matches Some(u) && beneath(start, u as int, i))) by {
                if let Some(u) = up {
                    assert(u < f);
                }
            }
            if let Some(u) = up {
                lemma_beneath_chain(start, folder as int, f as int, u as int);
                if beneath(start, u as int, f as int) {
                    lemma_beneath_le(start, u as int, f as int);
                }
            }
            lemma_tree_frame(had, folders@);
        }
    }
}

/// The folder above one that something lies beneath also has it beneath it.
pub proof fn lemma_beneath_chain(folders: Seq<Folder>, i: int, f: int, up: int)
    requires
        0 <= i,
        beneath(folders, i, f),
        folders[f].parent == Some(up as usize),
        0 <= up < f,
        up <= usize::MAX,
    ensures
        beneath(folders, i, up),
    decreases i,
{
    if i == f {
        assert(beneath(folders, up, up));
    } else if let Some(p) = folders[i].parent {
        lemma_beneath_chain(folders, p as int, f, up);
    }
}

/// Counts and the open state of folders are no part of what makes them a tree.
pub proof fn lemma_tree_frame(a: Seq<Folder>, b: Seq<Folder>)
    requires
        is_tree(a),
        a.len() == b.len(),
        forall|i: int|
            0 <= i < a.len() ==> (#[trigger] b[i]).parent == a[i].parent && b[i].children
                == a[i].children && b[i].depth == a[i].depth,
    ensures
        is_tree(b),
{
    assert forall|p: int, k: int|
        #![trigger b[p].children@[k]]
        0 <= p < b.len() && 0 <= k < b[p].children@.len() implies {
        let c = b[p].children@[k];
        p < c < b.len() && b[c as int].parent == Some(p as usize)
    } by {
        assert(b[p].children == a[p].children);
        let c = a[p].children@[k];
        assert(b[c as int].parent == a[c as int].parent);
    }
    assert forall|p: int, j: int, k: int|
        #![trigger b[p].children@[j], b[p].children@[k]]
        0 <= p < b.len() && 0 <= j < k < b[p].children@.len() implies b[p].children@[j]
        < b[p].children@[k] by {
        assert(b[p].children == a[p].children);
        assert(a[p].children@[j] < a[p].children@[k]);
    }
    assert forall|i: int| 1 <= i < b.len() implies b[(#[trigger] b[i]).parent->0 as int].children@.contains(
        i as usize,
    ) by {
        assert(a[i].parent is Some);
        let p = a[i].parent->0 as int;
        assert(b[p].children == a[p].children);
    }
    assert forall|i: int| 1 <= i < b.len() implies (#[trigger] b[i]).parent is Some
        && b[i].parent->0 < i && b[i].depth == b[b[i].parent->0 as int].depth + 1 by {
        assert(a[i].parent is Some);
        let p = a[i].parent->0 as int;
        assert(b[p].depth == a[p].depth);
    }
}

/// A folder and a prefix as one text.
pub open spec fn scoped(folder: usize, key: Seq<char>) -> Seq<char> {
    text::decimal(folder as nat) + seq!['/'] + key
}

proof fn lemma_scoped_injective(f: usize, k: Seq<char>, g: usize, l: Seq<char>)
    requires
        scoped(f, k) == scoped(g, l),
    ensures
        f == g,
        k == l,
{
    let (a, b) = (text::decimal(f as nat), text::decimal(g as nat));
    text::lemma_decimal(f as nat);
    text::lemma_decimal(g as nat);
    let (s, t) = (scoped(f, k), scoped(g, l));
    if a.len() < b.len() {
        assert(s[a.len() as int] == '/');
        assert(t[a.len() as int] == b[a.len() as int]);
        assert(text::is_digit(b[a.len() as int]));
    } else if b.len() < a.len() {
        assert(t[b.len() as int] == '/');
        assert(s[b.len() as int] == a[b.len() as int]);
        assert(text::is_digit(a[b.len() as int]));
    }
    assert forall|i: int| 0 <= i < a.len() implies a[i] == b[i] by {
        assert(s[i] == t[i]);
    }
    assert(a =~= b);
    assert(s.len() == a.len() + 1 + k.len() && t.len() == b.len() + 1 + l.len());
    assert forall|i: int| 0 <= i < k.len() implies k[i] == l[i] by {
        assert(s[a.len() + 1 + i] == t[a.len() + 1 + i]);
    }
    assert(k =~= l);
}

fn scoped_text(folder: usize, key: &String) -> (r: String)
    ensures
        r@ == scoped(folder, key@),
{
    let mut s = String::new();
    text::push_decimal(&mut s, folder as u64);
    s.push('/');
    text::push_str(&mut s, key.as_str());
    assert(s@ =~= scoped(folder, key@));
    s
}

/// Whether a table holds how often each prefix occurs among some assets.
spec fn tallied(table: Map<Seq<char>, usize>, assets: Seq<Asset>) -> bool {
    forall|f: usize, k: Seq<char>|
        #![trigger sharing(assets, f, k)]
        #![trigger scoped(f, k)]
        sharing(assets, f, k) == (if table.dom().contains(scoped(f, k)) {
            table[scoped(f, k)] as nat
        } else {
            0nat
        })
}

proof fn lemma_sharing_bound(assets: Seq<Asset>, f: usize, k: Seq<char>)
    ensures
        sharing(assets, f, k) <= assets.len(),
    decreases assets.len(),
{
    if assets.len() > 0 {
        lemma_sharing_bound(assets.drop_last(), f, k);
    }
}

/// Whether two lists of assets are the same files in the same folders.
pub open spec fn same_files(a: Seq<Asset>, b: Seq<Asset>) -> bool {
    &&& a.len() == b.len()
    &&& forall|i: int|
        0 <= i < a.len() ==> (#[trigger] b[i]).path == a[i].path && b[i].name == a[i].name
            && b[i].folder == a[i].folder && b[i].load == a[i].load
}

proof fn lemma_sharing_frame(a: Seq<Asset>, b: Seq<Asset>, f: usize, k: Seq<char>)
    requires
        same_files(a, b),
    ensures
        sharing(a, f, k) == sharing(b, f, k),
    decreases a.len(),
{
    if a.len() > 0 {
        let (s, t) = (a.drop_last(), b.drop_last());
        assert forall|i: int| 0 <= i < s.len() implies (#[trigger] t[i]).path == s[i].path
            && t[i].name == s[i].name && t[i].folder == s[i].folder && t[i].load == s[i].load by {
            assert(b[i].path == a[i].path);
        }
        lemma_sharing_frame(s, t, f, k);
        assert(b[b.len() - 1].folder == a[a.len() - 1].folder);
    }
}

proof fn lemma_counts_frame(folders: Seq<Folder>, a: Seq<Asset>, b: Seq<Asset>, f: int)
    requires
        same_files(a, b),
    ensures
        direct_count(a, f) == direct_count(b, f),
        total_count(folders, a, f) == total_count(folders, b, f),
    decreases a.len(),
{
    if a.len() > 0 {
        let (s, t) = (a.drop_last(), b.drop_last());
        assert forall|i: int| 0 <= i < s.len() implies (#[trigger] t[i]).path == s[i].path
            && t[i].name == s[i].name && t[i].folder == s[i].folder && t[i].load == s[i].load by {
            assert(b[i].path == a[i].path);
        }
        lemma_counts_frame(folders, s, t, f);
        assert(b[b.len() - 1].folder == a[a.len() - 1].folder);
    }
}

/// Whether an asset lies in a folder and has a name with some prefix.
pub open spec fn bears(a: Asset, folder: usize, key: Seq<char>) -> bool {
    a.folder == folder && names::family_of_name(a.name@) == Some(key)
}

proof fn lemma_sharing_some(assets: Seq<Asset>, folder: usize, key: Seq<char>)
    ensures
        sharing(assets, folder, key) > 0 <==> exists|j: int|
            0 <= j < assets.len() && bears(#[trigger] assets[j], folder, key),
    decreases assets.len(),
{
    if assets.len() > 0 {
        let rest = assets.drop_last();
        lemma_sharing_some(rest, folder, key);
        let last = assets.len() - 1;
        if bears(assets[last], folder, key) {
            assert(sharing(assets, folder, key) > 0);
        } else if sharing(rest, folder, key) > 0 {
            let j = choose|j: int| 0 <= j < rest.len() && bears(#[trigger] rest[j], folder, key);
            assert(assets[j] == rest[j]);
        } else if exists|j: int|
            0 <= j < assets.len() && bears(#[trigger] assets[j], folder, key) {
            let j = choose|j: int|
                0 <= j < assets.len() && bears(#[trigger] assets[j], folder, key);
            assert(rest[j] == assets[j]);
        }
    }
}

proof fn lemma_sharing_others(assets: Seq<Asset>, folder: usize, key: Seq<char>, i: int)
    requires
        0 <= i < assets.len(),
        bears(assets[i], folder, key),
    ensures
        sharing(assets, folder, key) > 1 <==> exists|j: int|
            0 <= j < assets.len() && j != i && bears(#[trigger] assets[j], folder, key),
    decreases assets.len(),
{
    let rest = assets.drop_last();
    let last = assets.len() - 1;
    lemma_sharing_some(rest, folder, key);
    if i < last {
        assert(rest[i] == assets[i]);
        lemma_sharing_others(rest, folder, key, i);
    }
    if sharing(assets, folder, key) > 1 {
        if i < last && bears(assets[last], folder, key) {
        } else {
            let j = choose|j: int|
                0 <= j < rest.len() && j != i && bears(#[trigger] rest[j], folder, key);
            assert(assets[j] == rest[j]);
        }
    }
    if exists|j: int| 0 <= j < assets.len() && j != i && bears(#[trigger] assets[j], folder, key) {
        let j = choose|j: int|
            0 <= j < assets.len() && j != i && bears(#[trigger] assets[j], folder, key);
        if j < last {
            assert(rest[j] == assets[j]);
        }
    }
}

/// An asset has a family exactly where its name has a prefix that the name of
/// another asset in its folder has too; the family is that prefix.
pub proof fn lemma_a_family_takes_two(assets: Seq<Asset>, i: int, key: Seq<char>)
    requires
        0 <= i < assets.len(),
    ensures
        family_among(assets, i) == Some(key) <==> names::family_of_name(assets[i].name@) == Some(
            key,
        ) && exists|j: int|
            0 <= j < assets.len() && j != i && bears(#[trigger] assets[j], assets[i].folder, key),
{
    if names::family_of_name(assets[i].name@) == Some(key) {
        lemma_sharing_others(assets, assets[i].folder, key, i);
    }
}

/// Tag every asset that shares a name prefix with a sibling.
fn assign_families(assets: &mut Vec<Asset>)
    ensures
        same_files(old(assets)@, final(assets)@),
        forall|i: int|
            0 <= i < final(assets)@.len() ==> scene::opt_text((#[trigger] final(assets)@[i]).family)
                == family_among(final(assets)@, i),
{
    let ghost start = assets@;
    let mut table: vstd::hash_map::StringHashMap<usize> = vstd::hash_map::StringHashMap::new();
    let mut i: usize = 0;
    assert(start.subrange(0, 0) =~= Seq::empty());
    while i < assets.len()
        invariant
            assets@ == start,
            i <= start.len(),
            tallied(table@, start.subrange(0, i as int)),
        decreases start.len() - i,
    {
        let ghost upto = start.subrange(0, i as int + 1);
        let ghost had = start.subrange(0, i as int);
        assert(upto.drop_last() =~= had);
        let ghost before = table@;
        if let Some(key) = family_key(assets[i].name.as_str()) {
            let folder: usize = assets[i].folder;
            let id = scoped_text(folder, &key);
            proof {
                lemma_sharing_bound(had, folder, key@);
                assert(sharing(had, folder, key@) <= i);
            }
            let n: usize = match table.get(id.as_str()) {
                Some(n) => *n,
                None => 0,
            };
            table.insert(id, n + 1);
            proof {
                assert forall|f: usize, k: Seq<char>|
                    #![trigger sharing(upto, f, k)]
                    #![trigger scoped(f, k)]
                    sharing(upto, f, k) == (if table@.dom().contains(scoped(f, k)) {
                        table@[scoped(f, k)] as nat
                    } else {
                        0nat
                    }) by {
                    assert(sharing(had, f, k) == (if before.dom().contains(scoped(f, k)) {
                        before[scoped(f, k)] as nat
                    } else {
                        0nat
                    }));
                    if scoped(f, k) == scoped(folder, key@) {
                        lemma_scoped_injective(f, k, folder, key@);
                    }
                }
            }
        } else {
            proof {
                assert forall|f: usize, k: Seq<char>|
                    #![trigger sharing(upto, f, k)]
                    #![trigger scoped(f, k)]
                    sharing(upto, f, k) == (if table@.dom().contains(scoped(f, k)) {
                        table@[scoped(f, k)] as nat
                    } else {
                        0nat
                    }) by {
                    assert(sharing(had, f, k) == sharing(upto, f, k));
                }
            }
        }
        i += 1;
    }
    assert(start.subrange(0, i as int) =~= start);
    let mut j: usize = 0;
    while j < assets.len()
        invariant
            tallied(table@, start),
            same_files(start, assets@),
            j <= assets@.len(),
            forall|k: int|
                0 <= k < j ==> scene::opt_text((#[trigger] assets@[k]).family) == family_among(
                    start,
                    k,
                ),
        decreases assets@.len() - j,
    {
        let ghost had = assets@;
        assert(had[j as int].name == start[j as int].name);
        let family: Option<String> = match family_key(assets[j].name.as_str()) {
            Some(key) => {
                let id = scoped_text(assets[j].folder, &key);
                assert(sharing(start, start[j as int].folder, key@) == (if table@.dom().contains(
                    id@,
                ) {
                    table@[id@] as nat
                } else {
                    0nat
                }));
                let shared = match table.get(id.as_str()) {
                    Some(n) => *n > 1,
                    None => false,
                };
                if shared {
                    Some(key)
                } else {
                    None
                }
            },
            None => None,
        };
        assert(scene::opt_text(family) == family_among(start, j as int));
        assets[j].family = family;
        proof {
            assert forall|k: int| 0 <= k < assets@.len() && k != j implies assets@[k] == had[k] by {}
            assert(assets@[j as int].path == had[j as int].path);
        }
        j += 1;
    }
    proof {
        assert forall|k: int| 0 <= k < assets@.len() implies scene::opt_text(
            (#[trigger] assets@[k]).family,
        ) == family_among(assets@, k) by {
            if let Some(key) = names::family_of_name(start[k].name@) {
                lemma_sharing_frame(start, assets@, start[k].folder, key);
            }
            assert(assets@[k].name == start[k].name && assets@[k].folder == start[k].folder);
        }
    }
}

/// Whether a library has just been made: nothing chosen, nothing filtered.
pub open spec fn is_fresh(lib: Library) -> bool {
    &&& lib.collections@.len() == 0
    &&& lib.scope == Scope::Folder(0)
    &&& lib.find@.len() == 0
    &&& lib.view == View::Grid
    &&& lib.sort == Sort::Name
    &&& !lib.descending
    &&& lib.stack_variants
    &&& lib.facets.none()
    &&& lib.selection@.len() == 0
    &&& lib.anchor is None
    &&& lib.cursor == 0
    &&& lib.expanded_families@.len() == 0
    &&& lib.skipped@.len() == 0
    &&& !lib.truncated
    &&& lib.cache is None
}

/// Put one file into the tree.
fn add_file(
    folders: &mut Vec<Folder>,
    assets: &mut Vec<Asset>,
    path: &FilePath,
    Ghost(places): Ghost<Seq<Place>>,
    Ghost(found): Ghost<Seq<(PathView, int)>>,
)
    requires
        old(assets)@.len() < usize::MAX,
        is_tree(old(folders)@),
        counted(old(folders)@, old(assets)@),
        distinct(places),
        folders_are(old(folders)@, places),
        assets_are(old(assets)@, found),
        forall|k: int|
            0 <= k < old(folders)@.len() ==> (#[trigger] old(folders)@[k]).expanded == (k == 0),
    ensures
        final(assets)@.len() <= old(assets)@.len() + 1,
        is_tree(final(folders)@),
        counted(final(folders)@, final(assets)@),
        distinct(with_file(places, found, path@).0),
        folders_are(final(folders)@, with_file(places, found, path@).0),
        assets_are(final(assets)@, with_file(places, found, path@).1),
        forall|k: int|
            0 <= k < final(folders)@.len() ==> (#[trigger] final(folders)@[k]).expanded == (k
                == 0),
{
    if let Some(dir) = path.parent() {
        let ghost had = folders@;
        let folder: usize = folder_for(folders, &dir, Ghost(places));
        let ghost grown_to = folders@;
        proof {
            lemma_with_place(places, dir@);
            lemma_counted_grown(had, grown_to, assets@);
        }
        count_file(folders, folder, Ghost(assets@));
        let name = match path.stem() {
            Some(s) => s,
            None => String::new(),
        };
        let ghost old_assets = assets@;
        let ghost counted_to = folders@;
        assets.push(Asset { path: path.copy(), name, folder, family: None, load: Load::Pending });
        proof {
            assert(name@ =~= asset_name(path@));
            assert(assets@.drop_last() =~= old_assets);
            lemma_counted_push(grown_to, counted_to, old_assets, assets@);
            let after = with_place(places, dir@).0;
            assert forall|k: int| 0 <= k < folders@.len() implies folder_is(
                #[trigger] folders@[k],
                after[k],
            ) by {
                assert(folder_is(grown_to[k], after[k]));
            }
            assert forall|k: int| 0 <= k < folders@.len() implies (
            #[trigger] folders@[k]).expanded == (k == 0) by {
                assert(grown_to[k].expanded == (k == 0));
            }
            assert forall|k: int| 0 <= k < assets@.len() implies asset_is(
                #[trigger] assets@[k],
                found.push((path@, folder as int))[k],
            ) by {
                if k < old_assets.len() {
                    assert(asset_is(old_assets[k], found[k]));
                }
            }
        }
    }
}

impl Library {
    /// Build the folder tree for a set of files already found on disk.
    pub fn new(root: FilePath, files: Vec<FilePath>) -> (lib: Library)
        ensures
            lib.wf(),
            is_fresh(lib),
            lib.root@ == root@,
            folders_are(lib.folders@, places_of(root@, files@).0),
            assets_are(lib.assets@, places_of(root@, files@).1),
            forall|i: int|
                0 <= i < lib.folders@.len() ==> (#[trigger] lib.folders@[i]).expanded == (i == 0),
            forall|i: int|
                0 <= i < lib.assets@.len() ==> scene::opt_text((#[trigger] lib.assets@[i]).family)
                    == family_among(lib.assets@, i),
    {
        let mut folders: Vec<Folder> = Vec::new();
        folders.push(
            Folder {
                name: root.title(),
                path: root.copy(),
                parent: None,
                children: Vec::new(),
                depth: 0,
                direct: 0,
                total: 0,
                expanded: true,
            },
        );
        let mut assets: Vec<Asset> = Vec::new();
        let mut i: usize = 0;
        assert(files@.subrange(0, 0) =~= Seq::empty());
        proof {
            lemma_none_beneath(folders@, assets@, 0, 0);
        }
        while i < files.len()
            invariant
                i <= files@.len(),
                assets@.len() <= i,
                is_tree(folders@),
                counted(folders@, assets@),
                distinct(places_of(root@, files@.subrange(0, i as int)).0),
                folders_are(folders@, places_of(root@, files@.subrange(0, i as int)).0),
                assets_are(assets@, places_of(root@, files@.subrange(0, i as int)).1),
                forall|k: int|
                    0 <= k < folders@.len() ==> (#[trigger] folders@[k]).expanded == (k == 0),
            decreases files@.len() - i,
        {
            let ghost upto = files@.subrange(0, i as int + 1);
            let ghost (places, found) = places_of(root@, files@.subrange(0, i as int));
            assert(upto.drop_last() =~= files@.subrange(0, i as int));
            assert(upto.last() == files@[i as int]);
            add_file(&mut folders, &mut assets, &files[i], Ghost(places), Ghost(found));
            i += 1;
        }
        assert(files@.subrange(0, i as int) =~= files@);
        let ghost built = assets@;
        assign_families(&mut assets);
        proof {
            assert forall|k: int| 0 <= k < assets@.len() implies (#[trigger] assets@[k]).folder
                < folders@.len() by {
                assert(assets@[k].folder == built[k].folder);
                assert(built[k].folder < folders@.len());
            }
            assert forall|f: int| 0 <= f < folders@.len() implies (#[trigger] folders@[f]).direct
                == direct_count(assets@, f) && folders@[f].total == total_count(
                folders@,
                assets@,
                f,
            ) by {
                lemma_counts_frame(folders@, built, assets@, f);
            }
            assert forall|k: int| 0 <= k < assets@.len() implies asset_is(
                #[trigger] assets@[k],
                places_of(root@, files@).1[k],
            ) by {
                assert(asset_is(built[k], places_of(root@, files@).1[k]));
                assert(assets@[k].path == built[k].path);
            }
        }
        Library {
            root,
            folders,
            assets,
            collections: Vec::new(),
            scope: Scope::Folder(0),
            find: String::new(),
            view: View::Grid,
            sort: Sort::Name,
            descending: false,
            stack_variants: true,
            facets: Facets::default(),
            selection: Vec::new(),
            anchor: None,
            cursor: 0,
            expanded_families: Vec::new(),
            skipped: Vec::new(),
            truncated: false,
            cache: None,
        }
    }
}

proof fn lemma_counted_grown(a: Seq<Folder>, b: Seq<Folder>, assets: Seq<Asset>)
    requires
        counted(a, assets),
        grown(a, b),
    ensures
        counted(b, assets),
{
    assert(same_parents(a, b, a.len() as int));
    assert forall|i: int| 0 <= i < assets.len() implies (#[trigger] assets[i]).folder < b.len() by {
        assert(assets[i].folder < a.len());
    }
    assert forall|f: int| 0 <= f < b.len() implies (#[trigger] b[f]).direct == direct_count(
        assets,
        f,
    ) && b[f].total == total_count(b, assets, f) by {
        if f < a.len() {
            assert(a[f].direct == direct_count(assets, f));
            lemma_total_frame(a, b, assets, a.len() as int, f);
        } else {
            lemma_none_beneath(b, assets, a.len() as int, f);
        }
    }
}

proof fn lemma_counted_push(a: Seq<Folder>, b: Seq<Folder>, had: Seq<Asset>, now: Seq<Asset>)
    requires
        counted(a, had),
        now.len() == had.len() + 1,
        now.drop_last() == had,
        now.last().folder < a.len(),
        a.len() == b.len(),
        one_more(a, b, now.last().folder as int),
    ensures
        counted(b, now),
{
    assert(same_parents(a, b, a.len() as int));
    assert forall|i: int| 0 <= i < now.len() implies (#[trigger] now[i]).folder < b.len() by {
        if i < had.len() {
            assert(had[i] == now[i]);
        }
    }
    assert forall|f: int| 0 <= f < b.len() implies (#[trigger] b[f]).direct == direct_count(now, f)
        && b[f].total == total_count(b, now, f) by {
        assert(a[f].direct == direct_count(had, f));
        lemma_total_frame(a, b, now, a.len() as int, f);
    }
}

// ---- what the tree promises -------------------------------------------------
/// Whether folders lie where their paths say: the root first, and every other
/// folder that is below the root in the folder its path goes on from.
pub open spec fn well_placed(root: PathView, places: Seq<Place>) -> bool {
    &&& places.len() > 0
    &&& places[0].path == root
    &&& places[0].parent is None
    &&& forall|i: int|
        1 <= i < places.len() ==> {
            &&& (#[trigger] places[i]).parent matches Some(p) && 0 <= p < i && (places[i].path.under(
                root,
            ) ==> places[i].path.parent() == Some(places[p].path))
        }
}

proof fn lemma_placing(root: PathView, places: Seq<Place>, dir: PathView)
    requires
        well_placed(root, places),
        distinct(places),
    ensures
        well_placed(root, with_place(places, dir).0),
        dir.under(root) ==> with_place(places, dir).0[with_place(places, dir).1].path == dir,
        forall|i: int|
            places.len() <= i < with_place(places, dir).0.len() ==> dir.under(
                (#[trigger] with_place(places, dir).0[i]).path,
            ),
    decreases dir.names.len(),
{
    lemma_place_at(places, dir, 0);
    lemma_with_place(places, dir);
    if place_at(places, dir, 0) is None {
        assert(places[0].path != dir);
        if let Some(up) = dir.parent() {
            lemma_placing(root, places, up);
            lemma_with_place(places, up);
            let (before, p) = with_place(places, up);
            let after = with_place(places, dir).0;
            if dir.under(root) {
                if root.names.len() == dir.names.len() {
                    assert(dir.names.subrange(0, root.names.len() as int) =~= dir.names);
                }
                assert(up.names.subrange(0, root.names.len() as int) =~= dir.names.subrange(
                    0,
                    root.names.len() as int,
                ));
            }
            assert forall|i: int| 1 <= i < after.len() implies {
                &&& (#[trigger] after[i]).parent matches Some(q) && 0 <= q < i && (
                after[i].path.under(root) ==> after[i].path.parent() == Some(after[q].path))
            } by {
                if i < before.len() {
                    assert(after[i] == before[i]);
                    let q = before[i].parent->0;
                    assert(after[q] == before[q]);
                } else {
                    assert(after[p] == before[p]);
                }
            }
            assert forall|i: int| places.len() <= i < after.len() implies dir.under(
                (#[trigger] after[i]).path,
            ) by {
                if i < before.len() {
                    assert(after[i] == before[i]);
                    let a = before[i].path;
                    assert(up.under(a));
                    assert(dir.names.subrange(0, a.names.len() as int) =~= up.names.subrange(
                        0,
                        a.names.len() as int,
                    ));
                } else {
                    assert(dir.names.subrange(0, dir.names.len() as int) =~= dir.names);
                }
            }
        } else if dir.under(root) {
            assert(root.names =~= dir.names);
        }
    }
}

/// The tree of a library is that of its files: every file that has a directory
/// is there once, in the order given; a file below the root lies in the folder
/// with its directory's path; folders below the root hang off the folder their
/// path goes on from; no two folders are one; and there is no folder but the
/// root that does not lead to a file.
pub proof fn lemma_the_tree_is_that_of_the_files(root: PathView, files: Seq<FilePath>)
    requires
        forall|k: int| 0 <= k < files.len() ==> (#[trigger] files[k])@.names.len() > 0,
    ensures
        ({
            let (places, found) = places_of(root, files);
            &&& well_placed(root, places)
            &&& forall|i: int, j: int|
                0 <= i < j < places.len() ==> (#[trigger] places[i]).path
                    != (#[trigger] places[j]).path
            &&& found.len() == files.len()
            &&& forall|k: int|
                0 <= k < files.len() ==> {
                    let dir = PathView {
                        anchor: files[k]@.anchor,
                        names: files[k]@.names.drop_last(),
                    };
                    &&& (#[trigger] found[k]).0 == files[k]@
                    &&& 0 <= found[k].1 < places.len()
                    &&& dir.under(root) ==> places[found[k].1].path == dir
                }
            &&& forall|i: int|
                1 <= i < places.len() ==> exists|k: int|
                    0 <= k < files.len() && (#[trigger] files[k])@.under((#[trigger] places[i]).path)
        }),
    decreases files.len(),
{
    let (places, found) = places_of(root, files);
    if files.len() > 0 {
        let rest = files.drop_last();
        let (old_places, old_found) = places_of(root, rest);
        assert forall|k: int| 0 <= k < rest.len() implies (#[trigger] rest[k])@.names.len()
            > 0 by {
            assert(rest[k] == files[k]);
        }
        lemma_the_tree_is_that_of_the_files(root, rest);
        let last = files.last()@;
        assert(files[files.len() - 1]@ == last);
        let dir = last.parent()->0;
        lemma_placing(root, old_places, dir);
        lemma_with_place(old_places, dir);
        assert forall|k: int| 0 <= k < files.len() implies {
            let d = PathView { anchor: files[k]@.anchor, names: files[k]@.names.drop_last() };
            &&& (#[trigger] found[k]).0 == files[k]@
            &&& 0 <= found[k].1 < places.len()
            &&& d.under(root) ==> places[found[k].1].path == d
        } by {
            if k < rest.len() {
                assert(found[k] == old_found[k]);
                assert(rest[k] == files[k]);
                assert(places[old_found[k].1] == old_places[old_found[k].1]);
            }
        }
        assert forall|i: int| 1 <= i < places.len() implies exists|k: int|
            0 <= k < files.len() && (#[trigger] files[k])@.under((#[trigger] places[i]).path) by {
            if i < old_places.len() {
                assert(places[i] == old_places[i]);
                let k = choose|k: int|
                    0 <= k < rest.len() && (#[trigger] rest[k])@.under(old_places[i].path);
                assert(files[k] == rest[k]);
            } else {
                let a = places[i].path;
                assert(dir.under(a));
                assert(last.names.subrange(0, a.names.len() as int) =~= dir.names.subrange(
                    0,
                    a.names.len() as int,
                ));
                assert(files[files.len() - 1]@.under(places[i].path));
            }
        }
    }
}

/// The longest side of a file is one of its three, and no other is longer.
pub proof fn lemma_the_longest_side(s: AssetStats)
    ensures
        s.longest() == s.dims[0] || s.longest() == s.dims[1] || s.longest() == s.dims[2],
        s.dims[0] <= s.longest() && s.dims[1] <= s.longest() && s.dims[2] <= s.longest(),
{
}

} // verus!
