//! The rail: the folder tree, what the centre pane shows the contents of, and
//! what the scan reports.

use vstd::prelude::*;

use crate::library;
use crate::library::{Asset, Folder, Library, Load, Scope, TreeRow};
use crate::paths::{FilePath, PathView};
use crate::text;
use vstd::view::View as _;

verus! {

// ---- the tree, flattened ----------------------------------------------------
/// Whether a folder is not worth a row: it holds no files of its own and has
/// exactly one child.
pub open spec fn passes_through(f: Folder) -> bool {
    f.direct == 0 && f.children@.len() == 1
}

/// The folder at the end of the chain of such folders that starts at one.
pub open spec fn chain_end(folders: Seq<Folder>, i: int) -> int
    decreases folders.len() - i,
{
    if 0 <= i < folders.len() && passes_through(folders[i]) && i < folders[i].children@[0]
        < folders.len() {
        chain_end(folders, folders[i].children@[0] as int)
    } else {
        i
    }
}

/// The names along a chain, with dots between them.
pub open spec fn chain_label(folders: Seq<Folder>, i: int) -> Seq<char>
    decreases folders.len() - i,
{
    if 0 <= i < folders.len() && passes_through(folders[i]) && i < folders[i].children@[0]
        < folders.len() {
        folders[i].name@ + seq![' ', '\u{b7}', ' '] + chain_label(
            folders,
            folders[i].children@[0] as int,
        )
    } else {
        folders[i].name@
    }
}

/// A line of the tree, as mathematical values.
pub struct TreeRowView {
    pub folder: int,
    pub label: Seq<char>,
    pub depth: int,
    pub has_children: bool,
    pub expanded: bool,
    pub total: int,
}

impl vstd::view::View for TreeRow {
    type V = TreeRowView;

    open spec fn view(&self) -> TreeRowView {
        TreeRowView {
            folder: self.folder as int,
            label: self.label@,
            depth: self.depth as int,
            has_children: self.has_children,
            expanded: self.expanded,
            total: self.total as int,
        }
    }
}

/// The line for the chain of folders that starts at one.
pub open spec fn line_of(folders: Seq<Folder>, i: int, depth: int) -> TreeRowView {
    let last = chain_end(folders, i);
    TreeRowView {
        folder: last,
        label: chain_label(folders, i),
        depth,
        has_children: folders[last].children@.len() > 0,
        expanded: folders[last].expanded,
        total: folders[last].total as int,
    }
}

/// The lines of a folder and, where it is open, of what lies in it.
pub open spec fn lines_from(folders: Seq<Folder>, i: int, depth: int) -> Seq<TreeRowView>
    decreases folders.len() - i, 1int, 0int,
    when library::is_tree(folders) && 0 <= i < folders.len()
    via lines_from_decreases
{
    let last = chain_end(folders, i);
    seq![line_of(folders, i, depth)] + if folders[last].expanded {
        lines_below(folders, last, folders[last].children@.len() as int, depth + 1)
    } else {
        Seq::empty()
    }
}

/// The lines of the first `n` children of a folder.
pub open spec fn lines_below(folders: Seq<Folder>, i: int, n: int, depth: int) -> Seq<TreeRowView>
    decreases folders.len() - i, 0int, n,
    when library::is_tree(folders) && 0 <= i < folders.len() && n <= folders[i].children@.len()
    via lines_below_decreases
{
    if n <= 0 {
        Seq::empty()
    } else {
        lines_below(folders, i, n - 1, depth) + lines_from(
            folders,
            folders[i].children@[n - 1] as int,
            depth,
        )
    }
}

#[via_fn]
proof fn lines_from_decreases(folders: Seq<Folder>, i: int, depth: int) {
    lemma_chain_end(folders, i);
}

#[via_fn]
proof fn lines_below_decreases(folders: Seq<Folder>, i: int, n: int, depth: int) {
    if n > 0 {
        assert(folders[i].children@[n - 1] > i);
    }
}

proof fn lemma_chain_end(folders: Seq<Folder>, i: int)
    requires
        library::is_tree(folders),
        0 <= i < folders.len(),
    ensures
        i <= chain_end(folders, i) < folders.len(),
        !passes_through(folders[chain_end(folders, i)]),
    decreases folders.len() - i,
{
    if passes_through(folders[i]) {
        assert(i < folders[i].children@[0] < folders.len());
        lemma_chain_end(folders, folders[i].children@[0] as int);
    }
}

/// Lines as mathematical values.
pub open spec fn line_views(rows: Seq<TreeRow>) -> Seq<TreeRowView> {
    Seq::new(rows.len(), |i: int| rows[i]@)
}

// ---- where a folder lies ----------------------------------------------------
/// The folders from the root down to one.
pub open spec fn trail(folders: Seq<Folder>, i: int) -> Seq<usize>
    decreases i,
{
    match folders[i].parent {
        Some(p) => if p < i {
            trail(folders, p as int).push(i as usize)
        } else {
            seq![i as usize]
        },
        None => seq![i as usize],
    }
}

/// Whether one folder lies somewhere below another.
pub open spec fn is_above(folders: Seq<Folder>, top: int, i: int) -> bool {
    top != i && library::beneath(folders, i, top)
}

/// The first asset with a path.
pub open spec fn asset_at(assets: Seq<Asset>, path: PathView, from: int) -> Option<int>
    decreases assets.len() - from,
{
    if from < 0 || from >= assets.len() {
        None
    } else if assets[from].path@ == path {
        Some(from)
    } else {
        asset_at(assets, path, from + 1)
    }
}

/// Whether two lists of folders differ at most in which are open.
pub open spec fn same_but_open(a: Seq<Folder>, b: Seq<Folder>) -> bool {
    &&& a.len() == b.len()
    &&& forall|i: int|
        0 <= i < a.len() ==> (#[trigger] b[i]) == (Folder { expanded: b[i].expanded, ..a[i] })
}

proof fn lemma_same_but_open(a: Seq<Folder>, b: Seq<Folder>, assets: Seq<Asset>)
    requires
        same_but_open(a, b),
        library::is_tree(a),
        library::counted(a, assets),
    ensures
        library::is_tree(b),
        library::counted(b, assets),
{
    assert forall|i: int| 0 <= i < a.len() implies (#[trigger] b[i]).parent == a[i].parent
        && b[i].children == a[i].children && b[i].depth == a[i].depth && b[i].direct == a[i].direct
        && b[i].total == a[i].total by {
        assert(b[i] == (Folder { expanded: b[i].expanded, ..a[i] }));
    }
    library::lemma_tree_frame(a, b);
    assert forall|f: int| 0 <= f < b.len() implies (#[trigger] b[f]).direct
        == library::direct_count(assets, f) && b[f].total == library::total_count(b, assets, f) by {
        assert(a[f].direct == library::direct_count(assets, f));
        library::lemma_total_frame(a, b, assets, a.len() as int, f);
    }
}

impl Library {
    /// Record what the scan learned about one file.
    pub fn apply(&mut self, path: &FilePath, load: Load)
        ensures
            ({
                let (was, now) = (old(self).assets@, final(self).assets@);
                match asset_at(was, path@, 0) {
                    None => *final(self) == *old(self),
                    Some(at) => {
                        &&& now == was.update(at, (Asset { load, ..was[at] }))
                        &&& *final(self) == (Library {
                            assets: final(self).assets,
                            cache: None,
                            ..*old(self)
                        })
                    },
                }
            }),
            old(self).wf() ==> final(self).wf(),
    {
        let mut i: usize = 0;
        while i < self.assets.len()
            invariant
                *self == *old(self),
                i <= self.assets@.len(),
                asset_at(self.assets@, path@, 0) == asset_at(self.assets@, path@, i as int),
            decreases self.assets@.len() - i,
        {
            if self.assets[i].path.same(path) {
                let ghost was = self.assets@;
                self.assets[i].load = load;
                self.cache = None;
                proof {
                    assert(self.assets@ =~= was.update(
                        i as int,
                        Asset { load, ..was[i as int] },
                    ));
                    if old(self).wf() {
                        lemma_reloaded(*old(self), *self, i as int);
                    }
                }
                return;
            }
            i += 1;
        }
    }

    /// The folder tree, flattened for drawing.
    ///
    /// A directory that holds no `.vox` files of its own and has exactly one
    /// child is not worth a row: `voxygen` and `voxel` merge into one line,
    /// which is how the path reads out loud anyway.
    pub fn tree_rows(&self) -> (r: Vec<TreeRow>)
        requires
            self.wf(),
        ensures
            line_views(r@) == lines_from(self.folders@, 0, 0),
    {
        let mut rows: Vec<TreeRow> = Vec::new();
        self.push_tree_row(0, 0, &mut rows);
        assert(line_views(rows@) =~= lines_from(self.folders@, 0, 0));
        rows
    }

    fn push_tree_row(&self, folder: usize, depth: usize, out: &mut Vec<TreeRow>)
        requires
            library::is_tree(self.folders@),
            folder < self.folders@.len(),
            depth <= folder,
        ensures
            line_views(final(out)@) == line_views(old(out)@) + lines_from(
                self.folders@,
                folder as int,
                depth as int,
            ),
        decreases self.folders@.len() - folder,
    {
        let ghost folders = self.folders@;
        let ghost start = out@;
        let mut label = String::new();
        text::push_str(&mut label, self.folders[folder].name.as_str());
        let mut last: usize = folder;
        let ghost mut prefix = Seq::<char>::empty();
        proof {
            lemma_chain_end(folders, folder as int);
            assert(label@ =~= prefix + folders[folder as int].name@);
            assert(chain_label(folders, folder as int) =~= prefix + chain_label(
                folders,
                folder as int,
            ));
        }
        while self.folders[last].direct == 0 && self.folders[last].children.len() == 1
            invariant
                folders == self.folders@,
                library::is_tree(folders),
                folder <= last < folders.len(),
                chain_end(folders, last as int) == chain_end(folders, folder as int),
                label@ == prefix + folders[last as int].name@,
                chain_label(folders, folder as int) == prefix + chain_label(folders, last as int),
            decreases folders.len() - last,
        {
            let child: usize = self.folders[last].children[0];
            assert(last < folders[last as int].children@[0] < folders.len());
            label.push(' ');
            label.push('\u{b7}');
            label.push(' ');
            text::push_str(&mut label, self.folders[child].name.as_str());
            proof {
                let dot = seq![' ', '\u{b7}', ' '];
                let name = folders[last as int].name@;
                let rest = chain_label(folders, child as int);
                assert(label@ =~= prefix + name + dot + folders[child as int].name@);
                assert(prefix + (name + dot + rest) =~= prefix + name + dot + rest);
                prefix = prefix + name + dot;
            }
            last = child;
        }
        proof {
            lemma_chain_end(folders, last as int);
            assert(chain_end(folders, last as int) == last);
            assert(chain_label(folders, last as int) == folders[last as int].name@);
        }
        let children = &self.folders[last].children;
        let count: usize = children.len();
        out.push(
            TreeRow {
                folder: last,
                label,
                depth,
                has_children: count > 0,
                expanded: self.folders[last].expanded,
                total: self.folders[last].total,
            },
        );
        let ghost line = line_of(folders, folder as int, depth as int);
        proof {
            assert(out@.last()@ == line);
            assert(line_views(out@) =~= line_views(start) + seq![line]);
        }
        if !self.folders[last].expanded {
            assert(line_views(start) + seq![line] =~= line_views(start) + lines_from(
                folders,
                folder as int,
                depth as int,
            ));
            return;
        }
        let mut k: usize = 0;
        assert(line_views(out@) =~= line_views(start) + (seq![line] + lines_below(
            folders,
            last as int,
            0,
            depth + 1,
        )));
        while k < count
            invariant
                folders == self.folders@,
                library::is_tree(folders),
                folder <= last < folders.len(),
                depth <= folder,
                children@ == folders[last as int].children@,
                count == children@.len(),
                k <= count,
                line_views(out@) == line_views(start) + (seq![line] + lines_below(
                    folders,
                    last as int,
                    k as int,
                    depth + 1,
                )),
            decreases count - k,
        {
            let child: usize = children[k];
            assert(last < folders[last as int].children@[k as int] < folders.len());
            let ghost before = lines_below(folders, last as int, k as int, depth + 1);
            let ghost more = lines_from(folders, child as int, depth + 1);
            self.push_tree_row(child, depth + 1, out);
            k += 1;
            proof {
                assert(line_views(start) + (seq![line] + before) + more =~= line_views(start) + (
                seq![line] + (before + more)));
            }
        }
    }

    pub fn toggle_folder(&mut self, folder: usize)
        requires
            folder < old(self).folders@.len(),
        ensures
            same_but_open(old(self).folders@, final(self).folders@),
            forall|i: int|
                0 <= i < old(self).folders@.len() ==> (#[trigger] final(self).folders@[i]).expanded
                    == (old(self).folders@[i].expanded != (i == folder)),
            *final(self) == (Library { folders: final(self).folders, ..*old(self) }),
            old(self).wf() ==> final(self).wf(),
    {
        let open = !self.folders[folder].expanded;
        self.folders[folder].expanded = open;
        proof {
            if old(self).wf() {
                lemma_same_but_open(old(self).folders@, self.folders@, self.assets@);
            }
        }
    }

    /// Open every ancestor of `folder` so it is visible in the rail.
    pub fn reveal_folder(&mut self, folder: usize)
        requires
            old(self).wf(),
            folder < old(self).folders@.len(),
        ensures
            same_but_open(old(self).folders@, final(self).folders@),
            forall|i: int|
                0 <= i < old(self).folders@.len() ==> (#[trigger] final(self).folders@[i]).expanded
                    == (old(self).folders@[i].expanded || is_above(
                    old(self).folders@,
                    i,
                    folder as int,
                )),
            *final(self) == (Library { folders: final(self).folders, ..*old(self) }),
            final(self).wf(),
    {
        let ghost was = self.folders@;
        let ghost assets = self.assets@;
        let mut up: Option<usize> = self.folders[folder].parent;
        let ghost mut at = folder as int;
        proof {
            assert forall|i: int| 0 <= i < was.len() implies !(#[trigger] is_above(
                was,
                i,
                folder as int,
            ) && i >= at) by {
                if library::beneath(was, folder as int, i) {
                    library::lemma_beneath_le(was, folder as int, i);
                }
            }
        }
        while up.is_some()
            invariant
                was == old(self).folders@,
                assets == self.assets@,
                library::is_tree(was),
                library::counted(was, assets),
                *self == (Library { folders: self.folders, ..*old(self) }),
                same_but_open(was, self.folders@),
                folder < was.len(),
                0 <= at <= folder,
                up == was[at].parent,
                library::beneath(was, folder as int, at),
                forall|i: int|
                    0 <= i < was.len() ==> (#[trigger] self.folders@[i]).expanded == (
                    was[i].expanded || (is_above(was, i, folder as int) && i >= at)),
            decreases at,
        {
            let f: usize = up.unwrap();
            proof {
                assert(at >= 1);
                lemma_next_above(was, folder as int, at);
            }
            let ghost now = self.folders@;
            self.folders[f].expanded = true;
            proof {
                assert(self.folders@ =~= now.update(
                    f as int,
                    Folder { expanded: true, ..now[f as int] },
                ));
                assert(now[f as int] == (Folder {
                    expanded: now[f as int].expanded,
                    ..was[f as int]
                }));
                assert forall|i: int| 0 <= i < was.len() implies (
                #[trigger] self.folders@[i]).expanded == (was[i].expanded || (is_above(
                    was,
                    i,
                    folder as int,
                ) && i >= f)) by {
                    assert(now[i].expanded == (was[i].expanded || (is_above(was, i, folder as int)
                        && i >= at)));
                }
            }
            up = self.folders[f].parent;
            proof {
                at = f as int;
            }
        }
        proof {
            assert(at == 0) by {
                if at >= 1 {
                    assert(was[at].parent is Some);
                }
            }
            lemma_same_but_open(was, self.folders@, assets);
        }
    }

    pub fn set_scope(&mut self, scope: Scope)
        ensures
            old(self).scope == scope ==> *final(self) == *old(self),
            old(self).scope != scope ==> final(self).selection@.len() == 0 && *final(self) == (
            Library {
                scope,
                selection: final(self).selection,
                anchor: None,
                cursor: 0,
                cache: None,
                ..*old(self)
            }),
            old(self).wf() && (scope matches Scope::Folder(f) ==> f < old(self).folders@.len())
                ==> final(self).wf(),
    {
        if self.scope != scope {
            self.scope = scope;
            self.selection.clear();
            self.anchor = None;
            self.cursor = 0;
            self.cache = None;
        }
    }

    /// Ancestors of the current folder, root first, for the breadcrumb.
    pub fn breadcrumb(&self) -> (r: Vec<usize>)
        requires
            self.wf(),
        ensures
            r@ == (match self.scope {
                Scope::Folder(f) => trail(self.folders@, f as int),
                Scope::Collection(_) => Seq::empty(),
            }),
    {
        match self.scope {
            Scope::Collection(_) => Vec::new(),
            Scope::Folder(f) => self.path_to(f),
        }
    }

    fn path_to(&self, folder: usize) -> (r: Vec<usize>)
        requires
            library::is_tree(self.folders@),
            folder < self.folders@.len(),
        ensures
            r@ == trail(self.folders@, folder as int),
        decreases folder,
    {
        match self.folders[folder].parent {
            Some(p) => {
                assert(p < folder);
                let mut out = self.path_to(p);
                out.push(folder);
                out
            },
            None => {
                let mut out: Vec<usize> = Vec::new();
                out.push(folder);
                assert(out@ =~= seq![folder]);
                out
            },
        }
    }
}

proof fn lemma_reloaded(was: Library, now: Library, at: int)
    requires
        was.wf(),
        0 <= at < was.assets@.len(),
        now.assets@.len() == was.assets@.len(),
        forall|i: int|
            0 <= i < was.assets@.len() ==> (#[trigger] now.assets@[i]).folder
                == was.assets@[i].folder,
        now == (Library { assets: now.assets, cache: None, ..was }),
    ensures
        now.wf(),
{
    assert forall|f: int| 0 <= f < now.folders@.len() implies (#[trigger] now.folders@[f]).direct
        == library::direct_count(now.assets@, f) && now.folders@[f].total == library::total_count(
        now.folders@,
        now.assets@,
        f,
    ) by {
        assert(was.folders@[f].direct == library::direct_count(was.assets@, f));
        lemma_counts_by_folder(was.folders@, was.assets@, now.assets@, f);
    }
    assert forall|i: int| 0 <= i < now.assets@.len() implies (#[trigger] now.assets@[i]).folder
        < now.folders@.len() by {
        assert(was.assets@[i].folder < was.folders@.len());
    }
}

proof fn lemma_counts_by_folder(folders: Seq<Folder>, a: Seq<Asset>, b: Seq<Asset>, f: int)
    requires
        a.len() == b.len(),
        forall|i: int| 0 <= i < a.len() ==> (#[trigger] b[i]).folder == a[i].folder,
    ensures
        library::direct_count(a, f) == library::direct_count(b, f),
        library::total_count(folders, a, f) == library::total_count(folders, b, f),
    decreases a.len(),
{
    if a.len() > 0 {
        let (s, t) = (a.drop_last(), b.drop_last());
        assert forall|i: int| 0 <= i < s.len() implies (#[trigger] t[i]).folder == s[i].folder by {
            assert(b[i].folder == a[i].folder);
        }
        lemma_counts_by_folder(folders, s, t, f);
        assert(b[b.len() - 1].folder == a[a.len() - 1].folder);
    }
}

/// The folders above one, from the nearest up: between a folder and the one it
/// lies in there is none.
proof fn lemma_next_above(folders: Seq<Folder>, i: int, at: int)
    requires
        library::is_tree(folders),
        0 <= i < folders.len(),
        1 <= at <= i,
        library::beneath(folders, i, at),
    ensures
        library::beneath(folders, i, folders[at].parent->0 as int),
        forall|j: int|
            folders[at].parent->0 < j < at ==> !#[trigger] library::beneath(folders, i, j),
    decreases i,
{
    let up = folders[at].parent->0 as int;
    assert(folders[at].parent is Some && up < at);
    let p = folders[i].parent->0 as int;
    assert(folders[i].parent is Some && p < i);
    if i == at {
        assert forall|j: int| up < j < at implies !#[trigger] library::beneath(folders, i, j) by {
            if library::beneath(folders, up, j) {
                library::lemma_beneath_le(folders, up, j);
            }
        }
        assert(library::beneath(folders, up, up));
    } else {
        assert(library::beneath(folders, p, at));
        library::lemma_beneath_le(folders, p, at);
        lemma_next_above(folders, p, at);
        assert forall|j: int| up < j < at implies !#[trigger] library::beneath(folders, i, j) by {
            assert(!library::beneath(folders, p, j));
        }
    }
}

// ---- what the rail promises -------------------------------------------------
/// The breadcrumb runs from the root to the folder, each folder lying in the
/// one before it.
pub proof fn lemma_the_breadcrumb_leads_from_the_root(folders: Seq<Folder>, i: int)
    requires
        library::is_tree(folders),
        0 <= i < folders.len() <= usize::MAX,
    ensures
        trail(folders, i).len() == folders[i].depth + 1,
        trail(folders, i)[0] == 0,
        trail(folders, i).last() == i,
        forall|k: int|
            #![trigger trail(folders, i)[k]]
            1 <= k < trail(folders, i).len() ==> folders[trail(folders, i)[k] as int].parent == Some(
                trail(folders, i)[k - 1],
            ),
    decreases i,
{
    if i > 0 {
        let p = folders[i].parent->0 as int;
        assert(folders[i].parent is Some && p < i);
        lemma_the_breadcrumb_leads_from_the_root(folders, p);
        let (up, all) = (trail(folders, p), trail(folders, i));
        assert(all == up.push(i as usize));
        assert forall|k: int|
            #![trigger all[k]]
            1 <= k < all.len() implies folders[all[k] as int].parent == Some(all[k - 1]) by {
            if k < up.len() {
                assert(all[k] == up[k] && all[k - 1] == up[k - 1]);
            } else {
                assert(all[k - 1] == up.last());
            }
        }
    }
}

/// Whether every line of one part of the tree is a line of another.
spec fn part_of(a: Seq<TreeRowView>, b: Seq<TreeRowView>) -> bool {
    forall|k: int| 0 <= k < a.len() ==> b.contains(#[trigger] a[k])
}

/// Whether the lines of a folder are all there.
spec fn lines_are_in(folders: Seq<Folder>, i: int, depth: int, all: Seq<TreeRowView>) -> bool {
    part_of(lines_from(folders, i, depth), all)
}

proof fn lemma_child_lines(folders: Seq<Folder>, i: int, n: int, k: int, depth: int)
    requires
        library::is_tree(folders),
        0 <= i < folders.len(),
        0 <= k < n <= folders[i].children@.len(),
    ensures
        part_of(
            lines_from(folders, folders[i].children@[k] as int, depth),
            lines_below(folders, i, n, depth),
        ),
    decreases n,
{
    let (before, more) = (
        lines_below(folders, i, n - 1, depth),
        lines_from(folders, folders[i].children@[n - 1] as int, depth),
    );
    let all = lines_below(folders, i, n, depth);
    let part = lines_from(folders, folders[i].children@[k] as int, depth);
    if k < n - 1 {
        lemma_child_lines(folders, i, n - 1, k, depth);
        assert forall|j: int| 0 <= j < part.len() implies all.contains(#[trigger] part[j]) by {
            assert(before.contains(part[j]));
            let m = choose|m: int| 0 <= m < before.len() && before[m] == part[j];
            assert(all[m] == part[j]);
        }
    } else {
        assert forall|j: int| 0 <= j < part.len() implies all.contains(#[trigger] part[j]) by {
            assert(all[before.len() + j] == part[j]);
        }
    }
}

/// Where everything above a folder is open, the chain it belongs to has its
/// lines in the tree.
proof fn lemma_lines_reach(folders: Seq<Folder>, i: int) -> (r: (int, int))
    requires
        library::is_tree(folders),
        0 <= i < folders.len() <= usize::MAX,
        forall|j: int|
            0 <= j < folders.len() && #[trigger] is_above(folders, j, i) ==> folders[j].expanded,
    ensures
        0 <= r.0 < folders.len(),
        chain_end(folders, r.0) == chain_end(folders, i),
        lines_are_in(folders, r.0, r.1, lines_from(folders, 0, 0)),
    decreases i,
{
    let all = lines_from(folders, 0, 0);
    if i == 0 {
        assert forall|k: int| 0 <= k < all.len() implies all.contains(#[trigger] all[k]) by {}
        (0, 0)
    } else {
        let p = folders[i].parent->0 as int;
        assert(folders[i].parent is Some && p < i);
        assert(library::beneath(folders, p, p));
        assert(is_above(folders, p, i));
        assert forall|j: int|
            0 <= j < folders.len() && #[trigger] is_above(folders, j, p) implies folders[j].expanded by {
            library::lemma_beneath_le(folders, p, j);
            assert(is_above(folders, j, i));
        }
        let (s, d) = lemma_lines_reach(folders, p);
        assert(folders[folders[i].parent->0 as int].children@.contains(i as usize));
        let k = choose|k: int|
            0 <= k < folders[p].children@.len() && folders[p].children@[k] == i as usize;
        assert(p < folders[p].children@[k] < folders.len());
        if passes_through(folders[p]) {
            assert(k == 0);
            (s, d)
        } else {
            assert(chain_end(folders, p) == p);
            let n = folders[p].children@.len() as int;
            lemma_child_lines(folders, p, n, k, d + 1);
            let (below, top) = (lines_below(folders, p, n, d + 1), lines_from(folders, s, d));
            assert(folders[p].children@[k] == i);
            let part = lines_from(folders, i, d + 1);
            assert(part_of(part, below));
            assert forall|j: int| 0 <= j < part.len() implies all.contains(#[trigger] part[j]) by {
                assert(below.contains(part[j]));
                let m = choose|m: int| 0 <= m < below.len() && below[m] == part[j];
                assert(top[m + 1] == part[j]);
                assert(all.contains(top[m + 1]));
            }
            (i, d + 1)
        }
    }
}

/// A folder is on screen once everything above it is open: the line of the
/// chain it belongs to is in the tree.
pub proof fn lemma_revealing_shows_the_folder(folders: Seq<Folder>, i: int)
    requires
        library::is_tree(folders),
        0 <= i < folders.len() <= usize::MAX,
        forall|j: int|
            0 <= j < folders.len() && #[trigger] is_above(folders, j, i) ==> folders[j].expanded,
    ensures
        exists|k: int|
            0 <= k < lines_from(folders, 0, 0).len() && (#[trigger] lines_from(
                folders,
                0,
                0,
            )[k]).folder == chain_end(folders, i),
{
    let (s, d) = lemma_lines_reach(folders, i);
    let (part, all) = (lines_from(folders, s, d), lines_from(folders, 0, 0));
    assert(part[0] == line_of(folders, s, d));
    assert(all.contains(part[0]));
    let k = choose|k: int| 0 <= k < all.len() && all[k] == part[0];
    assert(all[k].folder == chain_end(folders, i));
}

/// How many of the first `n` children of a folder a folder lies beneath.
spec fn branches(folders: Seq<Folder>, f: int, n: int, x: int) -> int
    decreases n,
{
    if n <= 0 {
        0
    } else {
        branches(folders, f, n - 1, x) + if library::beneath(
            folders,
            x,
            folders[f].children@[n - 1] as int,
        ) {
            1int
        } else {
            0int
        }
    }
}

/// A folder that lies below another lies beneath exactly one of its children.
proof fn lemma_one_branch(folders: Seq<Folder>, f: int, x: int)
    requires
        library::is_tree(folders),
        0 <= f < folders.len() <= usize::MAX,
        0 <= x < folders.len(),
    ensures
        branches(folders, f, folders[f].children@.len() as int, x) == (if is_above(folders, f, x) {
            1int
        } else {
            0int
        }),
    decreases x,
{
    let n = folders[f].children@.len() as int;
    if x == 0 {
        lemma_no_branch(folders, f, n, x);
    } else {
        let p = folders[x].parent->0 as int;
        assert(folders[x].parent is Some && p < x);
        lemma_one_branch(folders, f, p);
        if p == f {
            assert(folders[folders[x].parent->0 as int].children@.contains(x as usize));
            let k = choose|k: int|
                0 <= k < folders[f].children@.len() && folders[f].children@[k] == x as usize;
            lemma_own_branch(folders, f, n, x, k);
        } else {
            lemma_same_branches(folders, f, n, x);
            if x == f {
                if library::beneath(folders, p, f) {
                    library::lemma_beneath_le(folders, p, f);
                }
            }
        }
    }
}

proof fn lemma_no_branch(folders: Seq<Folder>, f: int, n: int, x: int)
    requires
        library::is_tree(folders),
        0 <= f < folders.len(),
        0 <= n <= folders[f].children@.len(),
        x == 0,
    ensures
        branches(folders, f, n, x) == 0,
        !is_above(folders, f, x),
    decreases n,
{
    if n > 0 {
        lemma_no_branch(folders, f, n - 1, x);
        let c = folders[f].children@[n - 1] as int;
        assert(f < folders[f].children@[n - 1] < folders.len());
        assert(!library::beneath(folders, 0, c));
    }
}

/// A child is beneath itself and beneath none of its siblings.
proof fn lemma_own_branch(folders: Seq<Folder>, f: int, n: int, x: int, k: int)
    requires
        library::is_tree(folders),
        0 <= f < folders.len() <= usize::MAX,
        0 <= n <= folders[f].children@.len(),
        0 <= k < folders[f].children@.len(),
        folders[f].children@[k] == x,
    ensures
        branches(folders, f, n, x) == (if k < n {
            1int
        } else {
            0int
        }),
        library::beneath(folders, x, f),
    decreases n,
{
    assert(f < folders[f].children@[k] < folders.len());
    assert(folders[x].parent == Some(f as usize));
    assert(library::beneath(folders, f, f));
    if n > 0 {
        lemma_own_branch(folders, f, n - 1, x, k);
        let c = folders[f].children@[n - 1] as int;
        assert(f < folders[f].children@[n - 1] < folders.len());
        if n - 1 == k {
            assert(library::beneath(folders, x, x));
        } else {
            if n - 1 < k {
                assert(folders[f].children@[n - 1] < folders[f].children@[k]);
            } else {
                assert(folders[f].children@[k] < folders[f].children@[n - 1]);
            }
            if library::beneath(folders, x, c) {
                library::lemma_beneath_le(folders, f, c);
            }
        }
    }
}

/// A folder that is no child lies beneath what its own folder lies beneath.
proof fn lemma_same_branches(folders: Seq<Folder>, f: int, n: int, x: int)
    requires
        library::is_tree(folders),
        0 <= f < folders.len(),
        0 <= n <= folders[f].children@.len(),
        1 <= x < folders.len(),
        folders[x].parent is Some,
        folders[x].parent->0 != f,
    ensures
        branches(folders, f, n, x) == branches(folders, f, n, folders[x].parent->0 as int),
    decreases n,
{
    if n > 0 {
        lemma_same_branches(folders, f, n - 1, x);
        let c = folders[f].children@[n - 1] as int;
        assert(f < folders[f].children@[n - 1] < folders.len());
        assert(folders[c].parent == Some(f as usize));
        assert(c != x);
        assert(folders[x].parent->0 < x);
    }
}

/// The files beneath the first `n` children of a folder.
pub open spec fn in_children(folders: Seq<Folder>, f: int, n: int) -> int
    decreases n,
{
    if n <= 0 {
        0
    } else {
        in_children(folders, f, n - 1) + folders[folders[f].children@[n - 1] as int].total
    }
}

spec fn beneath_children(folders: Seq<Folder>, assets: Seq<Asset>, f: int, n: int) -> int
    decreases n,
{
    if n <= 0 {
        0
    } else {
        beneath_children(folders, assets, f, n - 1) + library::total_count(
            folders,
            assets,
            folders[f].children@[n - 1] as int,
        )
    }
}

proof fn lemma_beneath_children(folders: Seq<Folder>, assets: Seq<Asset>, f: int, n: int)
    requires
        0 <= n <= folders[f].children@.len(),
    ensures
        assets.len() == 0 ==> beneath_children(folders, assets, f, n) == 0,
        assets.len() > 0 ==> beneath_children(folders, assets, f, n) == beneath_children(
            folders,
            assets.drop_last(),
            f,
            n,
        ) + branches(folders, f, n, assets.last().folder as int),
    decreases n,
{
    if n > 0 {
        lemma_beneath_children(folders, assets, f, n - 1);
    }
}

proof fn lemma_counts_add_up(folders: Seq<Folder>, assets: Seq<Asset>, f: int)
    requires
        library::is_tree(folders),
        0 <= f < folders.len() <= usize::MAX,
        forall|i: int| 0 <= i < assets.len() ==> (#[trigger] assets[i]).folder < folders.len(),
    ensures
        library::total_count(folders, assets, f) == library::direct_count(assets, f)
            + beneath_children(folders, assets, f, folders[f].children@.len() as int),
    decreases assets.len(),
{
    let n = folders[f].children@.len() as int;
    lemma_beneath_children(folders, assets, f, n);
    if assets.len() > 0 {
        let rest = assets.drop_last();
        assert forall|i: int| 0 <= i < rest.len() implies (#[trigger] rest[i]).folder
            < folders.len() by {
            assert(rest[i] == assets[i]);
        }
        lemma_counts_add_up(folders, rest, f);
        assert(assets[assets.len() - 1].folder < folders.len());
        lemma_one_branch(folders, f, assets.last().folder as int);
    }
}

proof fn lemma_children_totals(folders: Seq<Folder>, assets: Seq<Asset>, f: int, n: int)
    requires
        library::is_tree(folders),
        library::counted(folders, assets),
        0 <= f < folders.len(),
        0 <= n <= folders[f].children@.len(),
    ensures
        in_children(folders, f, n) == beneath_children(folders, assets, f, n),
    decreases n,
{
    if n > 0 {
        lemma_children_totals(folders, assets, f, n - 1);
        let c = folders[f].children@[n - 1] as int;
        assert(f < folders[f].children@[n - 1] < folders.len());
        assert(folders[c].total == library::total_count(folders, assets, c));
    }
}

/// Totals roll up: what a folder holds in all is what lies directly in it and
/// what its children hold in all.
pub proof fn lemma_totals_roll_up(lib: Library, f: int)
    requires
        lib.wf(),
        0 <= f < lib.folders@.len() <= usize::MAX,
    ensures
        lib.folders@[f].total == lib.folders@[f].direct + in_children(
            lib.folders@,
            f,
            lib.folders@[f].children@.len() as int,
        ),
{
    let (folders, assets) = (lib.folders@, lib.assets@);
    lemma_counts_add_up(folders, assets, f);
    lemma_children_totals(folders, assets, f, folders[f].children@.len() as int);
    assert(folders[f].direct == library::direct_count(assets, f));
}

/// The root holds every asset.
pub proof fn lemma_the_root_holds_everything(lib: Library)
    requires
        lib.wf(),
    ensures
        lib.folders@[0].total == lib.assets@.len(),
{
    lemma_all_beneath_root(lib.folders@, lib.assets@);
}

proof fn lemma_all_beneath_root(folders: Seq<Folder>, assets: Seq<Asset>)
    requires
        library::is_tree(folders),
        forall|i: int| 0 <= i < assets.len() ==> (#[trigger] assets[i]).folder < folders.len(),
    ensures
        library::total_count(folders, assets, 0) == assets.len(),
    decreases assets.len(),
{
    if assets.len() > 0 {
        let rest = assets.drop_last();
        assert forall|i: int| 0 <= i < rest.len() implies (#[trigger] rest[i]).folder
            < folders.len() by {
            assert(rest[i] == assets[i]);
        }
        lemma_all_beneath_root(folders, rest);
        assert(assets[assets.len() - 1].folder < folders.len());
        lemma_beneath_root(folders, assets.last().folder as int);
    }
}

proof fn lemma_beneath_root(folders: Seq<Folder>, i: int)
    requires
        library::is_tree(folders),
        0 <= i < folders.len(),
    ensures
        library::beneath(folders, i, 0),
    decreases i,
{
    if i > 0 {
        assert(folders[i].parent is Some && folders[i].parent->0 < i);
        lemma_beneath_root(folders, folders[i].parent->0 as int);
    }
}

// ---- what the tree shows ----------------------------------------------------
/// Whether a folder gets a line of its own: it holds files, or leads to none or
/// several folders.
pub open spec fn has_line(f: Folder) -> bool {
    f.direct > 0 || f.children@.len() != 1
}

/// How many of the folders above one have a line.
pub open spec fn lines_above(folders: Seq<Folder>, i: int) -> int
    decreases i,
{
    match folders[i].parent {
        Some(p) => if p < i {
            lines_above(folders, p as int) + if has_line(folders[p as int]) {
                1int
            } else {
                0int
            }
        } else {
            0
        },
        None => 0,
    }
}

/// The names of the folders above one that have no line, down from the last
/// that has, each with a dot behind it.
pub open spec fn led_by(folders: Seq<Folder>, i: int) -> Seq<char>
    decreases i,
{
    match folders[i].parent {
        Some(p) => if p < i && !has_line(folders[p as int]) {
            led_by(folders, p as int) + folders[p as int].name@ + seq![' ', '\u{b7}', ' ']
        } else {
            Seq::empty()
        },
        None => Seq::empty(),
    }
}

/// Whether every folder above one that has a line is open.
pub open spec fn is_in_view(folders: Seq<Folder>, i: int) -> bool
    decreases i,
{
    match folders[i].parent {
        Some(p) => p < i ==> is_in_view(folders, p as int) && (has_line(folders[p as int])
            ==> folders[p as int].expanded),
        None => true,
    }
}

/// Whether a line is that of its folder.
pub open spec fn is_line_of(folders: Seq<Folder>, line: TreeRowView) -> bool {
    let f = folders[line.folder];
    &&& 0 <= line.folder < folders.len()
    &&& has_line(f)
    &&& is_in_view(folders, line.folder)
    &&& line.label == led_by(folders, line.folder) + f.name@
    &&& line.depth == lines_above(folders, line.folder)
    &&& line.has_children == (f.children@.len() > 0)
    &&& line.expanded == f.expanded
    &&& line.total == f.total
}

/// Whether some lines hold a folder.
pub open spec fn holds_line(lines: Seq<TreeRowView>, f: int) -> bool {
    exists|k: int| 0 <= k < lines.len() && (#[trigger] lines[k]).folder == f
}

spec fn all_true(folders: Seq<Folder>, lines: Seq<TreeRowView>) -> bool {
    &&& forall|k: int| 0 <= k < lines.len() ==> is_line_of(folders, #[trigger] lines[k])
    &&& forall|j: int, k: int|
        0 <= j < k < lines.len() ==> (#[trigger] lines[j]).folder != (#[trigger] lines[k]).folder
}

proof fn lemma_in_view(folders: Seq<Folder>, f: int, top: int)
    requires
        library::is_tree(folders),
        0 <= f < folders.len(),
        0 <= top,
        library::beneath(folders, f, top),
        is_in_view(folders, f),
    ensures
        is_in_view(folders, top),
        f != top && has_line(folders[top]) ==> folders[top].expanded,
    decreases f,
{
    if f != top {
        let p = folders[f].parent->0 as int;
        assert(folders[f].parent is Some && p < f);
        lemma_in_view(folders, p, top);
    }
}

proof fn lemma_under_a_child(folders: Seq<Folder>, f: int, top: int) -> (k: int)
    requires
        library::is_tree(folders),
        0 <= f < folders.len() <= usize::MAX,
        0 <= top < folders.len(),
        library::beneath(folders, f, top),
        f != top,
    ensures
        0 <= k < folders[top].children@.len(),
        library::beneath(folders, f, folders[top].children@[k] as int),
    decreases f,
{
    let p = folders[f].parent->0 as int;
    assert(folders[f].parent is Some && p < f);
    if p == top {
        assert(folders[folders[f].parent->0 as int].children@.contains(f as usize));
        let k = choose|k: int|
            0 <= k < folders[top].children@.len() && folders[top].children@[k] == f as usize;
        assert(library::beneath(folders, f, f));
        k
    } else {
        lemma_under_a_child(folders, p, top)
    }
}

proof fn lemma_under_one_child(folders: Seq<Folder>, f: int, a: int, b: int)
    requires
        library::is_tree(folders),
        0 <= f < folders.len(),
        1 <= a < folders.len(),
        1 <= b < folders.len(),
        folders[a].parent == folders[b].parent,
        library::beneath(folders, f, a),
        library::beneath(folders, f, b),
    ensures
        a == b,
    decreases f,
{
    assert(folders[a].parent is Some && folders[a].parent->0 < a);
    assert(folders[b].parent is Some && folders[b].parent->0 < b);
    if f == a && f != b {
        library::lemma_beneath_le(folders, folders[a].parent->0 as int, b);
    } else if f == b && f != a {
        library::lemma_beneath_le(folders, folders[b].parent->0 as int, a);
    } else if f != a && f != b {
        let p = folders[f].parent->0 as int;
        lemma_under_one_child(folders, p, a, b);
    }
}

proof fn lemma_along_a_chain(folders: Seq<Folder>, i: int)
    requires
        library::is_tree(folders),
        0 <= i < folders.len() <= usize::MAX,
        is_in_view(folders, i),
    ensures
        ({
            let e = chain_end(folders, i);
            &&& i <= e < folders.len()
            &&& has_line(folders[e])
            &&& library::beneath(folders, e, i)
            &&& is_in_view(folders, e)
            &&& lines_above(folders, e) == lines_above(folders, i)
            &&& led_by(folders, e) + folders[e].name@ == led_by(folders, i) + chain_label(
                folders,
                i,
            )
            &&& forall|f: int|
                0 <= f < folders.len() && has_line(folders[f]) && #[trigger] library::beneath(
                    folders,
                    f,
                    i,
                ) ==> library::beneath(folders, f, e)
        }),
    decreases folders.len() - i,
{
    if !has_line(folders[i]) {
        let c = folders[i].children@[0] as int;
        assert(i < c < folders.len() && folders[c].parent == Some(i as usize));
        assert(is_in_view(folders, c));
        lemma_along_a_chain(folders, c);
        let e = chain_end(folders, c);
        assert(chain_end(folders, i) == e);
        let dot = seq![' ', '\u{b7}', ' '];
        assert(led_by(folders, c) == led_by(folders, i) + folders[i].name@ + dot);
        assert(led_by(folders, i) + folders[i].name@ + dot + chain_label(folders, c) =~= led_by(
            folders,
            i,
        ) + (folders[i].name@ + dot + chain_label(folders, c)));
        library::lemma_beneath_chain(folders, e, c, i);
        assert forall|f: int|
            0 <= f < folders.len() && has_line(folders[f]) && #[trigger] library::beneath(
                folders,
                f,
                i,
            ) implies library::beneath(folders, f, e) by {
            let k = lemma_under_a_child(folders, f, i);
            assert(k == 0);
            assert(library::beneath(folders, f, c));
        }
    } else {
        assert(chain_end(folders, i) == i);
        assert(chain_label(folders, i) == folders[i].name@);
    }
}

proof fn lemma_tree_lines(folders: Seq<Folder>, i: int, depth: int)
    requires
        library::is_tree(folders),
        0 <= i < folders.len() <= usize::MAX,
        is_in_view(folders, i),
        depth == lines_above(folders, i),
        led_by(folders, i).len() == 0,
    ensures
        all_true(folders, lines_from(folders, i, depth)),
        forall|k: int|
            0 <= k < lines_from(folders, i, depth).len() ==> library::beneath(
                folders,
                (#[trigger] lines_from(folders, i, depth)[k]).folder,
                i,
            ),
        forall|f: int|
            0 <= f < folders.len() && has_line(folders[f]) && is_in_view(folders, f)
                && #[trigger] library::beneath(folders, f, i) ==> holds_line(
                lines_from(folders, i, depth),
                f,
            ),
    decreases folders.len() - i, 1int, 0int,
{
    let lines = lines_from(folders, i, depth);
    let e = chain_end(folders, i);
    lemma_along_a_chain(folders, i);
    let n = folders[e].children@.len() as int;
    let below = lines_below(folders, e, n, depth + 1);
    assert(led_by(folders, i) + chain_label(folders, i) =~= chain_label(folders, i));
    assert(is_line_of(folders, line_of(folders, i, depth)));
    assert(lines[0] == line_of(folders, i, depth));
    if folders[e].expanded {
        lemma_lines_below(folders, e, n, depth + 1);
        assert(lines == seq![line_of(folders, i, depth)] + below);
        assert forall|k: int| 0 <= k < lines.len() implies is_line_of(folders, #[trigger] lines[k])
            && library::beneath(folders, lines[k].folder, i) && (k > 0 ==> lines[k].folder != e) by {
            if k > 0 {
                assert(lines[k] == below[k - 1]);
                let m = choose|m: int|
                    0 <= m < n && library::beneath(
                        folders,
                        below[k - 1].folder,
                        #[trigger] folders[e].children@[m] as int,
                    );
                let c = folders[e].children@[m] as int;
                assert(e < c < folders.len() && folders[c].parent == Some(e as usize));
                library::lemma_beneath_le(folders, below[k - 1].folder, c);
                library::lemma_beneath_chain(folders, below[k - 1].folder, c, e);
                lemma_beneath_through(folders, below[k - 1].folder, e, i);
            }
        }
        assert forall|j: int, k: int| 0 <= j < k < lines.len() implies (
        #[trigger] lines[j]).folder != (#[trigger] lines[k]).folder by {
            assert(lines[k] == below[k - 1]);
            if j > 0 {
                assert(lines[j] == below[j - 1]);
            }
        }
    } else {
        assert(lines =~= seq![line_of(folders, i, depth)]);
    }
    assert forall|f: int|
        0 <= f < folders.len() && has_line(folders[f]) && is_in_view(folders, f)
            && #[trigger] library::beneath(folders, f, i) implies holds_line(lines, f) by {
        assert(library::beneath(folders, f, e));
        if f == e {
            assert(lines[0].folder == f);
        } else {
            lemma_in_view(folders, f, e);
            let m = lemma_under_a_child(folders, f, e);
            assert(holds_line(below, f));
            let k = choose|k: int| 0 <= k < below.len() && (#[trigger] below[k]).folder == f;
            assert(lines[k + 1] == below[k]);
        }
    }
}

proof fn lemma_beneath_through(folders: Seq<Folder>, f: int, mid: int, top: int)
    requires
        library::is_tree(folders),
        0 <= f < folders.len(),
        library::beneath(folders, f, mid),
        library::beneath(folders, mid, top),
    ensures
        library::beneath(folders, f, top),
    decreases f,
{
    if f != mid {
        lemma_beneath_through(folders, folders[f].parent->0 as int, mid, top);
    }
}

proof fn lemma_lines_below(folders: Seq<Folder>, i: int, n: int, depth: int)
    requires
        library::is_tree(folders),
        0 <= i < folders.len() <= usize::MAX,
        0 <= n <= folders[i].children@.len(),
        is_in_view(folders, i),
        has_line(folders[i]),
        folders[i].expanded,
        depth == lines_above(folders, i) + 1,
    ensures
        all_true(folders, lines_below(folders, i, n, depth)),
        forall|k: int|
            0 <= k < lines_below(folders, i, n, depth).len() ==> exists|m: int|
                0 <= m < n && library::beneath(
                    folders,
                    (#[trigger] lines_below(folders, i, n, depth)[k]).folder,
                    #[trigger] folders[i].children@[m] as int,
                ),
        forall|f: int, m: int|
            0 <= f < folders.len() && has_line(folders[f]) && is_in_view(folders, f) && 0 <= m < n
                && #[trigger] library::beneath(folders, f, folders[i].children@[m] as int)
                ==> holds_line(lines_below(folders, i, n, depth), f),
    decreases folders.len() - i, 0int, n,
{
    let lines = lines_below(folders, i, n, depth);
    if n > 0 {
        let before = lines_below(folders, i, n - 1, depth);
        let c = folders[i].children@[n - 1] as int;
        assert(i < c < folders.len() && folders[c].parent == Some(i as usize));
        let more = lines_from(folders, c, depth);
        lemma_lines_below(folders, i, n - 1, depth);
        lemma_tree_lines(folders, c, depth);
        assert(lines == before + more);
        assert forall|k: int| 0 <= k < lines.len() implies is_line_of(folders, #[trigger] lines[k])
            && exists|m: int|
            0 <= m < n && library::beneath(
                folders,
                lines[k].folder,
                #[trigger] folders[i].children@[m] as int,
            ) by {
            if k < before.len() {
                assert(lines[k] == before[k]);
            } else {
                assert(lines[k] == more[k - before.len()]);
                assert(library::beneath(
                    folders,
                    lines[k].folder,
                    folders[i].children@[n - 1] as int,
                ));
            }
        }
        assert forall|j: int, k: int| 0 <= j < k < lines.len() implies (
        #[trigger] lines[j]).folder != (#[trigger] lines[k]).folder by {
            if k < before.len() {
                assert(lines[j] == before[j] && lines[k] == before[k]);
            } else if j >= before.len() {
                assert(lines[j] == more[j - before.len()] && lines[k] == more[k - before.len()]);
            } else if lines[j].folder == lines[k].folder {
                assert(lines[j] == before[j] && lines[k] == more[k - before.len()]);
                let f = before[j].folder;
                let m = choose|m: int|
                    0 <= m < n - 1 && library::beneath(
                        folders,
                        before[j].folder,
                        #[trigger] folders[i].children@[m] as int,
                    );
                let d = folders[i].children@[m] as int;
                assert(i < d < folders.len() && folders[d].parent == Some(i as usize));
                assert(d < c);
                lemma_under_one_child(folders, f, c, d);
            }
        }
        assert forall|f: int, m: int|
            0 <= f < folders.len() && has_line(folders[f]) && is_in_view(folders, f) && 0 <= m < n
                && #[trigger] library::beneath(
                folders,
                f,
                folders[i].children@[m] as int,
            ) implies holds_line(lines, f) by {
            if m < n - 1 {
                assert(holds_line(before, f));
                let k = choose|k: int| 0 <= k < before.len() && (#[trigger] before[k]).folder == f;
                assert(lines[k] == before[k]);
            } else {
                assert(holds_line(more, f));
                let k = choose|k: int| 0 <= k < more.len() && (#[trigger] more[k]).folder == f;
                assert(lines[before.len() + k] == more[k]);
            }
        }
    }
}

/// The tree has one line for each folder that holds files or leads to none or
/// several folders and above which all such folders are open, and no other
/// line. A line stands as deep as there are lines above it, and bears the name
/// of its folder behind those of the folders that lead to it alone.
pub proof fn lemma_the_tree_shows_what_is_open(lib: Library)
    requires
        lib.wf(),
    ensures
        ({
            let lines = lines_from(lib.folders@, 0, 0);
            &&& forall|k: int|
                0 <= k < lines.len() ==> is_line_of(lib.folders@, #[trigger] lines[k])
            &&& forall|j: int, k: int|
                0 <= j < k < lines.len() ==> (#[trigger] lines[j]).folder != (
                #[trigger] lines[k]).folder
            &&& forall|f: int|
                0 <= f < lib.folders@.len() && has_line(lib.folders@[f]) && #[trigger] is_in_view(
                    lib.folders@,
                    f,
                ) ==> holds_line(lines, f)
        }),
{
    let folders = lib.folders@;
    assert(lib.folders.len() == folders.len());
    lemma_tree_lines(folders, 0, 0);
    assert forall|f: int|
        0 <= f < folders.len() && has_line(folders[f]) && #[trigger] is_in_view(
            folders,
            f,
        ) implies holds_line(lines_from(folders, 0, 0), f) by {
        lemma_beneath_root(folders, f);
    }
}

/// Looking a file up finds the first that lies at the path, and finds nothing
/// only where none does.
pub proof fn lemma_the_first_at_a_path_is_found(assets: Seq<Asset>, path: PathView, from: int)
    requires
        0 <= from <= assets.len(),
    ensures
        match asset_at(assets, path, from) {
            Some(i) => from <= i < assets.len() && assets[i].path@ == path && forall|j: int|
                from <= j < i ==> (#[trigger] assets[j]).path@ != path,
            None => forall|j: int|
                from <= j < assets.len() ==> (#[trigger] assets[j]).path@ != path,
        },
    decreases assets.len() - from,
{
    if from < assets.len() && assets[from].path@ != path {
        lemma_the_first_at_a_path_is_found(assets, path, from + 1);
    }
}

} // verus!
