//! Finding the `.vox` files that a path stands for.
//!
//! The file system is listed elsewhere; here is what becomes of a listing.

use vstd::multiset::Multiset;
use vstd::prelude::*;

use crate::order;
use crate::order::Keyed;
use crate::paths;
use crate::paths::{is_vox, FilePath, PathView};
use crate::selection;
use crate::sysfont::ByPath;
use crate::text;

verus! {

/// How deep the recursive walk will go before it gives up on a branch.
///
/// The deepest asset path of a large game is six directories; 24 is far past
/// anything real and stops a symlink loop that was somehow missed.
pub const MAX_WALK_DEPTH: usize = 24;

/// Ceiling on files returned by one walk. A large game ships ~4,800; this is
/// two orders of magnitude of headroom and still bounds memory on a stray root.
pub const MAX_WALK_FILES: usize = 200_000;

/// The result of walking a directory tree for `.vox` files.
pub struct Walk {
    /// Every `.vox` file found, sorted by path.
    pub files: Vec<FilePath>,
    /// Set when [`MAX_WALK_FILES`] or [`MAX_WALK_DEPTH`] cut the walk short.
    pub truncated: bool,
    /// Directories that could not be read, with the reason. Listed rather than
    /// returned as an error: one unreadable folder should not lose the rest.
    pub skipped: Vec<(FilePath, String)>,
}

/// What a directory entry is, links not followed.
#[derive(Clone, Copy, Debug, PartialEq, Eq, Structural)]
pub enum Kind {
    Symlink,
    Dir,
    File,
    Other,
}

/// One entry of a directory.
pub struct DirEntry {
    pub path: FilePath,
    pub kind: Kind,
}

// ---- putting paths in order -------------------------------------------------
/// Whether one list of paths is another put in order.
pub open spec fn is_path_order(r: Seq<PathView>, source: Seq<PathView>) -> bool {
    &&& r.to_multiset() == source.to_multiset()
    &&& forall|i: int, j: int|
        #![trigger r[i], r[j]]
        0 <= i <= j < r.len() ==> order::lex_le(paths::path_key(r[i]), paths::path_key(r[j]))
}

/// The items at some places of a list.
pub open spec fn at<A>(list: Seq<A>, places: Seq<usize>) -> Seq<A> {
    Seq::new(places.len(), |i: int| list[places[i] as int])
}

proof fn lemma_at_count<A>(list: Seq<A>, a: Seq<usize>, b: Seq<usize>)
    requires
        a.to_multiset() == b.to_multiset(),
    ensures
        at(list, a).to_multiset() == at(list, b).to_multiset(),
    decreases a.len(),
{
    a.to_multiset_ensures();
    b.to_multiset_ensures();
    if a.len() > 0 {
        let x = a.last();
        assert(a.contains(x));
        assert(b.to_multiset().count(x) > 0);
        let j = choose|j: int| 0 <= j < b.len() && b[j] == x;
        let (p, q) = (a.drop_last(), b.remove(j));
        assert(a.remove(a.len() - 1) =~= p);
        lemma_at_count(list, p, q);
        let (s, t) = (at(list, a), at(list, b));
        s.to_multiset_ensures();
        t.to_multiset_ensures();
        assert(s.remove(s.len() - 1) =~= at(list, p));
        assert(t.remove(j) =~= at(list, q));
        assert(s[s.len() - 1] == t[j]);
        assert(s.contains(s[s.len() - 1]) && t.contains(t[j]));
        assert(s.to_multiset() =~= s.to_multiset().remove(t[j]).insert(t[j]));
        assert(t.to_multiset() =~= t.to_multiset().remove(t[j]).insert(t[j]));
    } else {
        assert(b.len() == 0);
        assert(at(list, a) =~= at(list, b));
    }
}

proof fn lemma_at_all<A>(list: Seq<A>)
    requires
        list.len() <= usize::MAX,
    ensures
        at(list, selection::upto(list.len())) == list,
{
    assert(at(list, selection::upto(list.len())) =~= list);
}

fn indices(n: usize) -> (r: Vec<usize>)
    ensures
        r@ == selection::upto(n as nat),
{
    let mut out: Vec<usize> = Vec::new();
    let mut i: usize = 0;
    while i < n
        invariant
            i <= n,
            out@ == selection::upto(i as nat),
        decreases n - i,
    {
        out.push(i);
        i += 1;
        assert(out@ =~= selection::upto(i as nat));
    }
    out
}

/// Put paths in order.
fn sort_paths(list: &Vec<FilePath>) -> (r: Vec<FilePath>)
    ensures
        is_path_order(paths::views(r@), paths::views(list@)),
{
    let n: usize = list.len();
    let all = indices(n);
    let by = ByPath { files: list };
    let sorted = order::sort(&by, &all, 0, n);
    let mut out: Vec<FilePath> = Vec::new();
    let mut i: usize = 0;
    let ghost source = paths::views(list@);
    assert(paths::views(out@) =~= at(source, sorted@.subrange(0, 0)));
    while i < n
        invariant
            n == sorted@.len(),
            n == list@.len(),
            i <= n,
            source == paths::views(list@),
            by.files == list,
            order::all_valid(by, sorted@),
            paths::views(out@) == at(source, sorted@.subrange(0, i as int)),
        decreases n - i,
    {
        let ghost had = out@;
        assert(by.valid(sorted@[i as int]));
        out.push(list[sorted[i]].copy());
        i += 1;
        assert(paths::views(out@) =~= paths::views(had).push(source[sorted@[i - 1] as int]));
        assert(paths::views(out@) =~= at(source, sorted@.subrange(0, i as int)));
    }
    proof {
        assert(sorted@.subrange(0, n as int) =~= sorted@);
        assert(all@.subrange(0, n as int) =~= all@);
        order::lemma_sorting_keeps_the_count(by, sorted@, all@);
        lemma_at_count(source, sorted@, all@);
        lemma_at_all(source);
        let r = paths::views(out@);
        assert forall|i: int, j: int|
            #![trigger r[i], r[j]]
            0 <= i <= j < r.len() implies order::lex_le(
            paths::path_key(r[i]),
            paths::path_key(r[j]),
        ) by {
            assert(order::lex_le(by.key(sorted@[i]), by.key(sorted@[j])));
        }
    }
    out
}

/// What could not be read, and why, as texts.
pub open spec fn reasons(v: Seq<(FilePath, String)>) -> Seq<(PathView, Seq<char>)> {
    Seq::new(v.len(), |i: int| (v[i].0@, v[i].1@))
}

/// What a reason sorts by: its path, and then its text.
pub open spec fn reason_key(r: (PathView, Seq<char>)) -> Seq<int> {
    paths::path_key(r.0) + seq![-1int] + paths::char_keys(r.1)
}

/// Whether one list of reasons is another put in order.
pub open spec fn is_reason_order(
    r: Seq<(PathView, Seq<char>)>,
    source: Seq<(PathView, Seq<char>)>,
) -> bool {
    &&& r.to_multiset() == source.to_multiset()
    &&& forall|i: int, j: int|
        #![trigger r[i], r[j]]
        0 <= i <= j < r.len() ==> order::lex_le(reason_key(r[i]), reason_key(r[j]))
}

/// Reasons by path and text.
pub struct ByReason<'a> {
    pub list: &'a Vec<(FilePath, String)>,
}

impl Keyed for ByReason<'_> {
    open spec fn valid(&self, i: usize) -> bool {
        i < self.list@.len()
    }

    open spec fn key(&self, i: usize) -> Seq<int> {
        reason_key((self.list@[i as int].0@, self.list@[i as int].1@))
    }

    fn le(&self, a: usize, b: usize) -> (r: bool) {
        let (x, y) = (&self.list[a], &self.list[b]);
        proof {
            paths::lemma_path_key_nonnegative(x.0@, 0);
            paths::lemma_path_key_nonnegative(y.0@, 0);
            order::lemma_lex_pair(
                paths::path_key(x.0@),
                paths::path_key(y.0@),
                paths::char_keys(x.1@),
                paths::char_keys(y.1@),
                -1,
            );
            order::lemma_lex_reflexive(paths::char_keys(x.1@));
        }
        let c: i8 = paths::compare_paths(&x.0, &y.0);
        if c != 0 {
            return c < 0;
        }
        let d: i8 = paths::compare_texts(&x.1, &y.1);
        d <= 0
    }
}

fn sort_reasons(list: &Vec<(FilePath, String)>) -> (r: Vec<(FilePath, String)>)
    ensures
        is_reason_order(reasons(r@), reasons(list@)),
{
    let n: usize = list.len();
    let all = indices(n);
    let by = ByReason { list };
    let sorted = order::sort(&by, &all, 0, n);
    let mut out: Vec<(FilePath, String)> = Vec::new();
    let mut i: usize = 0;
    let ghost source = reasons(list@);
    assert(reasons(out@) =~= at(source, sorted@.subrange(0, 0)));
    while i < n
        invariant
            n == sorted@.len(),
            n == list@.len(),
            i <= n,
            source == reasons(list@),
            by.list == list,
            order::all_valid(by, sorted@),
            reasons(out@) == at(source, sorted@.subrange(0, i as int)),
        decreases n - i,
    {
        let ghost had = out@;
        assert(by.valid(sorted@[i as int]));
        let entry = &list[sorted[i]];
        let mut why = String::new();
        text::push_str(&mut why, entry.1.as_str());
        assert(why@ =~= entry.1@);
        out.push((entry.0.copy(), why));
        i += 1;
        assert(reasons(out@) =~= reasons(had).push(source[sorted@[i - 1] as int]));
        assert(reasons(out@) =~= at(source, sorted@.subrange(0, i as int)));
    }
    proof {
        assert(sorted@.subrange(0, n as int) =~= sorted@);
        assert(all@.subrange(0, n as int) =~= all@);
        order::lemma_sorting_keeps_the_count(by, sorted@, all@);
        lemma_at_count(source, sorted@, all@);
        lemma_at_all(source);
        let r = reasons(out@);
        assert forall|i: int, j: int|
            #![trigger r[i], r[j]]
            0 <= i <= j < r.len() implies order::lex_le(reason_key(r[i]), reason_key(r[j])) by {
            assert(order::lex_le(by.key(sorted@[i]), by.key(sorted@[j])));
        }
    }
    out
}

// ---- one listing ------------------------------------------------------------
/// What a listing adds to a walk.
pub struct Gain {
    pub files: Seq<PathView>,
    pub children: Seq<PathView>,
    pub truncated: bool,
    /// No more files may be found: the walk is over.
    pub full: bool,
}

/// What the first `n` entries of a directory add to a walk that has found some
/// files. Links are left alone, which is the whole defence against cycles;
/// directories too deep and files too many are left out, and that is noted.
pub open spec fn gain(entries: Seq<DirEntry>, n: int, depth: usize, found: int) -> Gain
    decreases n,
{
    if n <= 0 {
        Gain { files: Seq::empty(), children: Seq::empty(), truncated: false, full: false }
    } else {
        let g = gain(entries, n - 1, depth, found);
        let e = entries[n - 1];
        if g.full {
            g
        } else if e.kind == Kind::Dir {
            if depth + 1 > MAX_WALK_DEPTH {
                Gain { truncated: true, ..g }
            } else {
                Gain { children: g.children.push(e.path@), ..g }
            }
        } else if e.kind == Kind::File && paths::has_vox_extension(e.path@) {
            if found + g.files.len() >= MAX_WALK_FILES {
                Gain { truncated: true, full: true, ..g }
            } else {
                Gain { files: g.files.push(e.path@), ..g }
            }
        } else {
            g
        }
    }
}

/// Directories still to be listed, and how deep they lie.
pub open spec fn depths(v: Seq<(FilePath, usize)>) -> Seq<(PathView, usize)> {
    Seq::new(v.len(), |i: int| (v[i].0@, v[i].1))
}

/// Paths at one depth, the last first.
pub open spec fn stacked(list: Seq<PathView>, depth: usize) -> Seq<(PathView, usize)> {
    Seq::new(list.len(), |i: int| (list[list.len() - 1 - i], depth))
}

/// A walk that is under way. It says which directory to list next and is told
/// what is in it.
pub struct Walker {
    pub walk: Walk,
    pub stack: Vec<(FilePath, usize)>,
}

impl Walker {
    /// Whether nothing was found yet and only the root is to be listed.
    pub open spec fn starts_at(self, root: PathView) -> bool {
        &&& self.walk.files@.len() == 0
        &&& self.walk.skipped@.len() == 0
        &&& !self.walk.truncated
        &&& depths(self.stack@) == seq![(root, 0usize)]
    }

    /// Whether this is another walk with the next directory taken off.
    pub open spec fn went_on(self, was: Walker) -> bool {
        &&& was.stack@.len() > 0
        &&& self.stack@ == was.stack@.drop_last()
        &&& self.walk == was.walk
    }

    /// Whether this is another walk with one more directory that could not be
    /// read.
    pub open spec fn missed(self, was: Walker, dir: FilePath, why: String) -> bool {
        &&& self.walk.skipped@ == was.walk.skipped@.push((dir, why))
        &&& self.walk.files == was.walk.files
        &&& self.walk.truncated == was.walk.truncated
        &&& self.stack == was.stack
    }

    /// Whether this is another walk with one more directory taken in.
    pub open spec fn took_in(self, was: Walker, depth: usize, entries: Seq<DirEntry>) -> bool {
        let g = gain(entries, entries.len() as int, depth, was.walk.files@.len() as int);
        &&& paths::views(self.walk.files@) == paths::views(was.walk.files@) + g.files
        &&& self.walk.truncated == (was.walk.truncated || g.truncated)
        &&& self.walk.skipped == was.walk.skipped
        &&& if g.full {
            self.stack@.len() == 0
        } else {
            exists|children: Seq<PathView>| #[trigger]
                is_path_order(children, g.children) && depths(self.stack@) == depths(was.stack@)
                    + stacked(children, (depth + 1) as usize)
        }
    }

    /// Whether this walk, put in order, is the one given.
    pub open spec fn ends_as(self, r: Walk) -> bool {
        &&& is_path_order(paths::views(r.files@), paths::views(self.walk.files@))
        &&& is_reason_order(reasons(r.skipped@), reasons(self.walk.skipped@))
        &&& r.truncated == self.walk.truncated
    }

    /// Start at a root.
    pub fn new(root: &FilePath) -> (r: Walker)
        ensures
            r.starts_at(root@),
    {
        let mut stack: Vec<(FilePath, usize)> = Vec::new();
        stack.push((root.copy(), 0));
        assert(depths(stack@) =~= seq![(root@, 0usize)]);
        Walker {
            walk: Walk { files: Vec::new(), truncated: false, skipped: Vec::new() },
            stack,
        }
    }

    /// The next directory to list, and how deep it lies.
    pub fn next(&mut self) -> (r: Option<(FilePath, usize)>)
        ensures
            match r {
                Some(d) => final(self).went_on(*old(self)) && d == old(self).stack@.last(),
                None => old(self).stack@.len() == 0 && final(self).stack@.len() == 0
                    && final(self).walk == old(self).walk,
            },
    {
        self.stack.pop()
    }

    /// Note a directory that could not be read.
    pub fn unreadable(&mut self, dir: FilePath, why: String)
        ensures
            final(self).missed(*old(self), dir, why),
    {
        self.walk.skipped.push((dir, why));
    }

    /// Take in what a directory holds.
    ///
    /// Depth-first, but putting children on the stack in reverse so that
    /// taking them off yields them in name order -- a cold scan then fills the
    /// browser top to bottom.
    pub fn listed(&mut self, depth: usize, entries: &Vec<DirEntry>)
        requires
            depth < usize::MAX,
        ensures
            final(self).took_in(*old(self), depth, entries@),
    {
        let ghost was = *self;
        let ghost found = self.walk.files@.len() as int;
        let mut children: Vec<FilePath> = Vec::new();
        let mut full = false;
        let mut i: usize = 0;
        assert(paths::views(self.walk.files@) =~= paths::views(was.walk.files@)
            + Seq::<PathView>::empty());
        assert(paths::views(children@) =~= Seq::empty());
        while i < entries.len() && !full
            invariant
                i <= entries@.len(),
                depth < usize::MAX,
                found == was.walk.files@.len(),
                self.stack == was.stack,
                self.walk.skipped == was.walk.skipped,
                full == gain(entries@, i as int, depth, found).full,
                self.walk.truncated == (was.walk.truncated || gain(
                    entries@,
                    i as int,
                    depth,
                    found,
                ).truncated),
                paths::views(self.walk.files@) == paths::views(was.walk.files@) + gain(
                    entries@,
                    i as int,
                    depth,
                    found,
                ).files,
                paths::views(children@) == gain(entries@, i as int, depth, found).children,
            decreases entries@.len() - i,
        {
            let e = &entries[i];
            let ghost g = gain(entries@, i as int, depth, found);
            assert(paths::views(self.walk.files@).len() == self.walk.files@.len());
            match e.kind {
                Kind::Symlink | Kind::Other => {},
                Kind::Dir => {
                    if depth + 1 > MAX_WALK_DEPTH {
                        self.walk.truncated = true;
                    } else {
                        let ghost had = children@;
                        children.push(e.path.copy());
                        assert(paths::views(children@) =~= paths::views(had).push(e.path@));
                    }
                },
                Kind::File => {
                    if is_vox(&e.path) {
                        if self.walk.files.len() >= MAX_WALK_FILES {
                            self.walk.truncated = true;
                            full = true;
                        } else {
                            let ghost had = self.walk.files@;
                            self.walk.files.push(e.path.copy());
                            assert(paths::views(self.walk.files@) =~= paths::views(had).push(
                                e.path@,
                            ));
                            assert(paths::views(was.walk.files@) + g.files.push(e.path@)
                                =~= (paths::views(was.walk.files@) + g.files).push(e.path@));
                        }
                    }
                },
            }
            i += 1;
        }
        if full {
            proof {
                lemma_full_stays(entries@, i as int, entries@.len() as int, depth, found);
            }
            self.stack.clear();
            return;
        }
        let sorted = sort_paths(&children);
        let ghost order = paths::views(sorted@);
        let ghost walked = self.walk;
        let mut k: usize = sorted.len();
        assert(depths(self.stack@) =~= depths(was.stack@) + stacked(order, (depth + 1) as usize).subrange(
            0,
            0,
        ));
        while k > 0
            invariant
                k <= sorted@.len(),
                depth < usize::MAX,
                order == paths::views(sorted@),
                self.walk == walked,
                depths(self.stack@) == depths(was.stack@) + stacked(
                    order,
                    (depth + 1) as usize,
                ).subrange(0, sorted@.len() - k),
            decreases k,
        {
            k -= 1;
            let ghost had = self.stack@;
            self.stack.push((sorted[k].copy(), depth + 1));
            proof {
                let all = stacked(order, (depth + 1) as usize);
                let item = (order[k as int], (depth + 1) as usize);
                assert(depths(self.stack@) =~= depths(had).push(item));
                assert(all.subrange(0, sorted@.len() - k) =~= all.subrange(
                    0,
                    sorted@.len() - k - 1,
                ).push(item));
                assert(depths(self.stack@) =~= depths(was.stack@) + all.subrange(
                    0,
                    sorted@.len() - k,
                ));
            }
        }
        proof {
            let all = stacked(order, (depth + 1) as usize);
            assert(all.subrange(0, all.len() as int) =~= all);
        }
    }

    /// The walk in order, once nothing is left to list.
    pub fn finish(self) -> (r: Walk)
        ensures
            self.ends_as(r),
    {
        Walk {
            files: sort_paths(&self.walk.files),
            truncated: self.walk.truncated,
            skipped: sort_reasons(&self.walk.skipped),
        }
    }
}

proof fn lemma_full_stays(entries: Seq<DirEntry>, n: int, m: int, depth: usize, found: int)
    requires
        0 <= n <= m,
        gain(entries, n, depth, found).full,
    ensures
        gain(entries, m, depth, found) == gain(entries, n, depth, found),
    decreases m - n,
{
    if n < m {
        lemma_full_stays(entries, n, m - 1, depth, found);
    }
}

/// Nothing in a listing is lost in silence: every `.vox` file is found and
/// every directory is to be listed, or the walk is marked as cut short.
pub proof fn lemma_nothing_is_lost_in_silence(
    entries: Seq<DirEntry>,
    n: int,
    depth: usize,
    found: int,
    i: int,
)
    requires
        0 <= i < n <= entries.len(),
    ensures
        gain(entries, n, depth, found).truncated || (entries[i].kind == Kind::Dir ==> gain(
            entries,
            n,
            depth,
            found,
        ).children.contains(entries[i].path@)),
        gain(entries, n, depth, found).truncated || (entries[i].kind == Kind::File
            && paths::has_vox_extension(entries[i].path@) ==> gain(
            entries,
            n,
            depth,
            found,
        ).files.contains(entries[i].path@)),
    decreases n,
{
    let (g, h) = (gain(entries, n - 1, depth, found), gain(entries, n, depth, found));
    let p = entries[i].path@;
    lemma_full_is_truncated(entries, n - 1, depth, found);
    if i < n - 1 {
        lemma_nothing_is_lost_in_silence(entries, n - 1, depth, found, i);
        if !h.truncated {
            if g.children.contains(p) {
                let k = choose|k: int| 0 <= k < g.children.len() && g.children[k] == p;
                assert(h.children[k] == p);
            }
            if g.files.contains(p) {
                let k = choose|k: int| 0 <= k < g.files.len() && g.files[k] == p;
                assert(h.files[k] == p);
            }
        }
    } else if !h.truncated {
        if entries[i].kind == Kind::Dir {
            assert(h.children[g.children.len() as int] == p);
        } else if entries[i].kind == Kind::File && paths::has_vox_extension(p) {
            assert(h.files[g.files.len() as int] == p);
        }
    }
}

proof fn lemma_full_is_truncated(entries: Seq<DirEntry>, n: int, depth: usize, found: int)
    ensures
        gain(entries, n, depth, found).full ==> gain(entries, n, depth, found).truncated,
    decreases n,
{
    if n > 0 {
        lemma_full_is_truncated(entries, n - 1, depth, found);
    }
}

/// Whether a path is that of an entry of some kind.
pub open spec fn is_entry(entries: Seq<DirEntry>, p: PathView, kind: Kind) -> bool {
    exists|i: int|
        0 <= i < entries.len() && (#[trigger] entries[i]).path@ == p && entries[i].kind == kind
}

/// Links are not followed: what is listed next was a directory, and what is
/// found a file with the extension, never more of them than the ceiling.
pub proof fn lemma_links_are_not_followed(
    entries: Seq<DirEntry>,
    n: int,
    depth: usize,
    found: int,
)
    requires
        0 <= n <= entries.len(),
    ensures
        forall|k: int|
            0 <= k < gain(entries, n, depth, found).children.len() ==> is_entry(
                entries,
                #[trigger] gain(entries, n, depth, found).children[k],
                Kind::Dir,
            ),
        forall|k: int|
            0 <= k < gain(entries, n, depth, found).files.len() ==> is_entry(
                entries,
                #[trigger] gain(entries, n, depth, found).files[k],
                Kind::File,
            ) && paths::has_vox_extension(gain(entries, n, depth, found).files[k]),
        found <= MAX_WALK_FILES ==> found + gain(entries, n, depth, found).files.len()
            <= MAX_WALK_FILES,
        depth >= MAX_WALK_DEPTH ==> gain(entries, n, depth, found).children.len() == 0,
    decreases n,
{
    if n > 0 {
        lemma_links_are_not_followed(entries, n - 1, depth, found);
        let (g, h) = (gain(entries, n - 1, depth, found), gain(entries, n, depth, found));
        assert forall|k: int| 0 <= k < h.children.len() implies is_entry(
            entries,
            #[trigger] h.children[k],
            Kind::Dir,
        ) by {
            if k < g.children.len() {
                assert(h.children[k] == g.children[k]);
            } else {
                assert(entries[n - 1].path@ == h.children[k]);
            }
        }
        assert forall|k: int| 0 <= k < h.files.len() implies is_entry(
            entries,
            #[trigger] h.files[k],
            Kind::File,
        ) && paths::has_vox_extension(h.files[k]) by {
            if k < g.files.len() {
                assert(h.files[k] == g.files[k]);
            } else {
                assert(entries[n - 1].path@ == h.files[k]);
            }
        }
    }
}

// ---- a whole walk -----------------------------------------------------------
/// What comes of listing a directory: its entries, or why it cannot be read.
pub enum Listing {
    Entries(Seq<DirEntry>),
    Unreadable(Seq<char>),
}

/// What lies under a directory: its `.vox` files, the directories that cannot be
/// read, and whether any lies too deep.
#[verifier::ext_equal]
pub struct Tree {
    pub files: Multiset<PathView>,
    pub skipped: Multiset<(PathView, Seq<char>)>,
    pub cut: bool,
}

/// Nothing at all.
pub open spec fn bare() -> Tree {
    Tree { files: Multiset::empty(), skipped: Multiset::empty(), cut: false }
}

/// What lies under either of two places.
pub open spec fn both(a: Tree, b: Tree) -> Tree {
    Tree {
        files: a.files.add(b.files),
        skipped: a.skipped.add(b.skipped),
        cut: a.cut || b.cut,
    }
}

/// What lies under a directory of some depth, down to [`MAX_WALK_DEPTH`].
pub open spec fn below(fs: spec_fn(PathView) -> Listing, dir: PathView, depth: int) -> Tree
    decreases MAX_WALK_DEPTH - depth, 1int, 0int,
{
    match fs(dir) {
        Listing::Entries(entries) => among(fs, entries, entries.len() as int, depth),
        Listing::Unreadable(why) => Tree { skipped: Multiset::singleton((dir, why)), ..bare() },
    }
}

/// What the first `n` entries of a directory of some depth stand for: a `.vox`
/// file for itself, a directory for what lies under it, and a link for nothing.
pub open spec fn among(
    fs: spec_fn(PathView) -> Listing,
    entries: Seq<DirEntry>,
    n: int,
    depth: int,
) -> Tree
    decreases MAX_WALK_DEPTH - depth, 0int, n,
{
    if n <= 0 {
        bare()
    } else {
        let e = entries[n - 1];
        both(
            among(fs, entries, n - 1, depth),
            if e.kind == Kind::Dir {
                if depth + 1 > MAX_WALK_DEPTH {
                    Tree { cut: true, ..bare() }
                } else {
                    below(fs, e.path@, depth + 1)
                }
            } else if e.kind == Kind::File && paths::has_vox_extension(e.path@) {
                Tree { files: Multiset::singleton(e.path@), ..bare() }
            } else {
                bare()
            },
        )
    }
}

/// Whether a walk is another one after the next directory was listed.
pub open spec fn goes_on(fs: spec_fn(PathView) -> Listing, now: Walker, was: Walker) -> bool {
    exists|mid: Walker| #[trigger]
        mid.went_on(was) && (match fs(was.stack@.last().0@) {
            Listing::Entries(entries) => now.took_in(mid, was.stack@.last().1, entries),
            Listing::Unreadable(why) => exists|text: String|
                text@ == why && #[trigger] now.missed(mid, was.stack@.last().0, text),
        })
}

/// Whether a walk started at a root and listed one directory after another until
/// none was left.
pub open spec fn is_walk(
    fs: spec_fn(PathView) -> Listing,
    root: PathView,
    run: Seq<Walker>,
) -> bool {
    &&& run.len() > 0
    &&& run[0].starts_at(root)
    &&& run.last().stack@.len() == 0
    &&& forall|i: int, j: int|
        0 <= i < run.len() && j == i + 1 && j < run.len() ==> goes_on(
            fs,
            #[trigger] run[j],
            #[trigger] run[i],
        )
}

/// What is still to be found under the directories to be listed.
spec fn pending(fs: spec_fn(PathView) -> Listing, stack: Seq<(PathView, usize)>) -> Tree
    decreases stack.len(),
{
    if stack.len() == 0 {
        bare()
    } else {
        both(
            pending(fs, stack.drop_last()),
            below(fs, stack.last().0, stack.last().1 as int),
        )
    }
}

/// What lies under some directories of one depth.
spec fn under(fs: spec_fn(PathView) -> Listing, dirs: Seq<PathView>, depth: int) -> Tree
    decreases dirs.len(),
{
    if dirs.len() == 0 {
        bare()
    } else {
        both(under(fs, dirs.drop_last(), depth), below(fs, dirs.last(), depth))
    }
}

proof fn lemma_under_remove(
    fs: spec_fn(PathView) -> Listing,
    dirs: Seq<PathView>,
    depth: int,
    j: int,
)
    requires
        0 <= j < dirs.len(),
    ensures
        under(fs, dirs, depth) == both(
            under(fs, dirs.remove(j), depth),
            below(fs, dirs[j], depth),
        ),
    decreases dirs.len(),
{
    if j == dirs.len() - 1 {
        assert(dirs.remove(j) =~= dirs.drop_last());
    } else {
        lemma_under_remove(fs, dirs.drop_last(), depth, j);
        assert(dirs.remove(j).drop_last() =~= dirs.drop_last().remove(j));
        assert(dirs.remove(j).last() == dirs.last());
        let rest = under(fs, dirs.drop_last().remove(j), depth);
        let (a, b) = (below(fs, dirs[j], depth), below(fs, dirs.last(), depth));
        assert(both(both(rest, a), b) =~= both(both(rest, b), a));
    }
}

proof fn lemma_under_order(
    fs: spec_fn(PathView) -> Listing,
    a: Seq<PathView>,
    b: Seq<PathView>,
    depth: int,
)
    requires
        a.to_multiset() == b.to_multiset(),
    ensures
        under(fs, a, depth) == under(fs, b, depth),
    decreases a.len(),
{
    a.to_multiset_ensures();
    b.to_multiset_ensures();
    if a.len() > 0 {
        let x = a.last();
        assert(a.contains(x));
        assert(b.to_multiset().count(x) > 0);
        let j = choose|j: int| 0 <= j < b.len() && b[j] == x;
        assert(a.remove(a.len() - 1) =~= a.drop_last());
        lemma_under_order(fs, a.drop_last(), b.remove(j), depth);
        lemma_under_remove(fs, b, depth, j);
    }
}

proof fn lemma_pending_stacked(
    fs: spec_fn(PathView) -> Listing,
    stack: Seq<(PathView, usize)>,
    dirs: Seq<PathView>,
    depth: usize,
)
    ensures
        pending(fs, stack + stacked(dirs, depth)) == both(
            pending(fs, stack),
            under(fs, dirs, depth as int),
        ),
    decreases dirs.len(),
{
    if dirs.len() == 0 {
        assert(stack + stacked(dirs, depth) =~= stack);
        assert(both(pending(fs, stack), bare()) =~= pending(fs, stack));
    } else {
        let rest = dirs.remove(0);
        let all = stack + stacked(dirs, depth);
        assert(all.drop_last() =~= stack + stacked(rest, depth));
        assert(all.last() == (dirs[0], depth));
        lemma_pending_stacked(fs, stack, rest, depth);
        lemma_under_remove(fs, dirs, depth as int, 0);
        let (a, b, c) = (
            pending(fs, stack),
            under(fs, rest, depth as int),
            below(fs, dirs[0], depth as int),
        );
        assert(both(both(a, b), c) =~= both(a, both(b, c)));
    }
}

proof fn lemma_push_counts<A>(s: Seq<A>, x: A)
    ensures
        s.push(x).to_multiset() == s.to_multiset().add(Multiset::singleton(x)),
{
    s.to_multiset_ensures();
    assert(s.push(x).to_multiset() =~= s.to_multiset().add(Multiset::singleton(x)));
}

/// What a listing adds and what it puts off make up what its entries stand for,
/// unless no more files may be found.
proof fn lemma_gain(
    fs: spec_fn(PathView) -> Listing,
    entries: Seq<DirEntry>,
    n: int,
    depth: usize,
    found: int,
)
    requires
        0 <= n <= entries.len(),
        depth <= MAX_WALK_DEPTH,
    ensures
        ({
            let g = gain(entries, n, depth, found);
            let t = among(fs, entries, n, depth as int);
            &&& g.full ==> g.files.to_multiset().subset_of(t.files) && g.truncated && found
                + g.files.len() >= MAX_WALK_FILES && g.files.len() < t.files.len()
            &&& !g.full ==> t == both(
                Tree {
                    files: g.files.to_multiset(),
                    skipped: Multiset::empty(),
                    cut: g.truncated,
                },
                under(fs, g.children, depth + 1),
            )
        }),
    decreases n,
{
    let g = gain(entries, n, depth, found);
    let t = among(fs, entries, n, depth as int);
    if n <= 0 {
        g.files.to_multiset_ensures();
        assert(g.files.to_multiset() =~= Multiset::empty());
        assert(both(bare(), bare()) =~= bare());
    } else {
        lemma_gain(fs, entries, n - 1, depth, found);
        let h = gain(entries, n - 1, depth, found);
        let u = among(fs, entries, n - 1, depth as int);
        let e = entries[n - 1];
        let here = Tree {
            files: h.files.to_multiset(),
            skipped: Multiset::empty(),
            cut: h.truncated,
        };
        let later = under(fs, h.children, depth + 1);
        h.files.to_multiset_ensures();
        if h.full {
            assert(u.files.subset_of(t.files));
        } else if e.kind == Kind::Dir {
            if depth + 1 > MAX_WALK_DEPTH {
                assert(t =~= both(Tree { cut: true, ..here }, later));
            } else {
                assert(g.children.drop_last() =~= h.children);
                let b = below(fs, e.path@, depth + 1);
                assert(both(both(here, later), b) =~= both(here, both(later, b)));
            }
        } else if e.kind == Kind::File && paths::has_vox_extension(e.path@) {
            if found + h.files.len() >= MAX_WALK_FILES {
                assert(h.files.to_multiset().subset_of(t.files));
            } else {
                lemma_push_counts(h.files, e.path@);
                assert(t =~= both(Tree { files: g.files.to_multiset(), ..here }, later));
            }
        } else {
            assert(both(u, bare()) =~= u);
        }
    }
}

/// What a walk has found so far.
spec fn so_far(w: Walker) -> Tree {
    Tree {
        files: paths::views(w.walk.files@).to_multiset(),
        skipped: reasons(w.walk.skipped@).to_multiset(),
        cut: w.walk.truncated,
    }
}

/// What holds of every walk under way: what it has found and what is still to be
/// found make up the tree, or the ceiling was reached.
spec fn on_course(fs: spec_fn(PathView) -> Listing, root: PathView, w: Walker) -> bool {
    let t = below(fs, root, 0);
    &&& w.walk.files@.len() <= MAX_WALK_FILES
    &&& forall|i: int| 0 <= i < w.stack@.len() ==> (#[trigger] w.stack@[i]).1 <= MAX_WALK_DEPTH
    &&& {
        ||| t == both(so_far(w), pending(fs, depths(w.stack@)))
        ||| {
            &&& w.stack@.len() == 0
            &&& w.walk.truncated
            &&& w.walk.files@.len() == MAX_WALK_FILES
            &&& t.files.len() > MAX_WALK_FILES
            &&& so_far(w).files.subset_of(t.files)
            &&& so_far(w).skipped.subset_of(t.skipped)
        }
    }
}

proof fn lemma_concat_counts<A>(a: Seq<A>, b: Seq<A>)
    ensures
        (a + b).to_multiset() == a.to_multiset().add(b.to_multiset()),
{
    vstd::seq_lib::lemma_multiset_commutative(a, b);
}

proof fn lemma_stays_on_course(
    fs: spec_fn(PathView) -> Listing,
    root: PathView,
    now: Walker,
    was: Walker,
)
    requires
        on_course(fs, root, was),
        goes_on(fs, now, was),
    ensures
        on_course(fs, root, now),
{
    let t = below(fs, root, 0);
    let (dir, depth) = was.stack@.last();
    let found = so_far(was);
    let mid = choose|mid: Walker| #[trigger]
        mid.went_on(was) && (match fs(dir@) {
            Listing::Entries(entries) => now.took_in(mid, depth, entries),
            Listing::Unreadable(why) => exists|text: String|
                text@ == why && #[trigger] now.missed(mid, dir, text),
        });
    let rest = pending(fs, depths(mid.stack@));
    assert(depths(was.stack@).drop_last() =~= depths(mid.stack@));
    assert(depths(was.stack@).last() == (dir@, depth));
    let here = below(fs, dir@, depth as int);
    assert(t == both(found, both(rest, here)));
    assert(was.stack@[was.stack@.len() - 1].1 <= MAX_WALK_DEPTH);
    match fs(dir@) {
        Listing::Unreadable(why) => {
            let text = choose|text: String| text@ == why && #[trigger] now.missed(mid, dir, text);
            let skipped = reasons(was.walk.skipped@);
            assert(reasons(now.walk.skipped@) =~= skipped.push((dir@, why)));
            lemma_push_counts(skipped, (dir@, why));
            assert(both(found, both(rest, here)) =~= both(so_far(now), rest));
        },
        Listing::Entries(entries) => {
            let g = gain(entries, entries.len() as int, depth, was.walk.files@.len() as int);
            let had = paths::views(was.walk.files@);
            lemma_gain(fs, entries, entries.len() as int, depth, was.walk.files@.len() as int);
            lemma_links_are_not_followed(
                entries,
                entries.len() as int,
                depth,
                was.walk.files@.len() as int,
            );
            lemma_concat_counts(had, g.files);
            assert(now.walk.files@.len() == paths::views(now.walk.files@).len());
            had.to_multiset_ensures();
            g.files.to_multiset_ensures();
            if g.full {
                assert(t.files.len() == found.files.len() + rest.files.len() + here.files.len());
                assert(so_far(now).files.subset_of(t.files));
                assert(so_far(now).skipped.subset_of(t.skipped));
            } else {
                let children = choose|children: Seq<PathView>| #[trigger]
                    is_path_order(children, g.children) && depths(now.stack@) == depths(mid.stack@)
                        + stacked(children, (depth + 1) as usize);
                lemma_under_order(fs, children, g.children, depth + 1);
                lemma_pending_stacked(
                    fs,
                    depths(mid.stack@),
                    children,
                    (depth + 1) as usize,
                );
                assert(both(found, both(rest, here)) =~= both(
                    so_far(now),
                    both(rest, under(fs, g.children, depth + 1)),
                ));
                children.to_multiset_ensures();
                g.children.to_multiset_ensures();
                assert(children.len() == g.children.len());
                assert forall|i: int| 0 <= i < now.stack@.len() implies (
                #[trigger] now.stack@[i]).1 <= MAX_WALK_DEPTH by {
                    let d = depths(now.stack@)[i];
                    assert(d.1 == now.stack@[i].1);
                    if i < mid.stack@.len() {
                        assert(d == depths(mid.stack@)[i]);
                        assert(mid.stack@[i] == was.stack@[i]);
                    } else {
                        assert(d == stacked(children, (depth + 1) as usize)[i
                            - mid.stack@.len()]);
                    }
                }
            }
        },
    }
}

proof fn lemma_walk_on_course(
    fs: spec_fn(PathView) -> Listing,
    root: PathView,
    run: Seq<Walker>,
    n: int,
)
    requires
        is_walk(fs, root, run),
        0 <= n < run.len(),
    ensures
        on_course(fs, root, run[n]),
    decreases n,
{
    if n == 0 {
        let w = run[0];
        let t = below(fs, root, 0);
        let files = paths::views(w.walk.files@);
        let skipped = reasons(w.walk.skipped@);
        files.to_multiset_ensures();
        skipped.to_multiset_ensures();
        assert(files =~= Seq::empty());
        assert(skipped =~= Seq::empty());
        assert(files.to_multiset() =~= Multiset::empty());
        assert(skipped.to_multiset() =~= Multiset::empty());
        let stack = depths(w.stack@);
        assert(stack.drop_last() =~= Seq::empty());
        assert(pending(fs, stack.drop_last()) == bare());
        assert(both(bare(), both(bare(), t)) =~= t);
        assert forall|i: int| 0 <= i < w.stack@.len() implies (#[trigger] w.stack@[i]).1
            <= MAX_WALK_DEPTH by {
            assert(stack[i].1 == w.stack@[i].1);
        }
    } else {
        lemma_walk_on_course(fs, root, run, n - 1);
        assert(goes_on(fs, run[n], run[n - 1]));
        lemma_stays_on_course(fs, root, run[n], run[n - 1]);
    }
}

/// A walk of a tree that stays as it is finds every `.vox` file at most
/// [`MAX_WALK_DEPTH`] directories down and nothing else, in ascending order,
/// lists every directory that could not be read, and is marked as cut short
/// where a directory lies too deep. Where there are more files than
/// [`MAX_WALK_FILES`] it finds that many of them, and is marked as cut short.
pub proof fn lemma_a_walk_finds_the_whole_tree(
    fs: spec_fn(PathView) -> Listing,
    root: PathView,
    run: Seq<Walker>,
    r: Walk,
)
    requires
        is_walk(fs, root, run),
        run.last().ends_as(r),
    ensures
        forall|i: int, j: int|
            0 <= i <= j < r.files@.len() ==> order::lex_le(
                paths::path_key((#[trigger] r.files@[i])@),
                paths::path_key((#[trigger] r.files@[j])@),
            ),
        ({
            let t = below(fs, root, 0);
            let files = paths::views(r.files@).to_multiset();
            let skipped = reasons(r.skipped@).to_multiset();
            if t.files.len() <= MAX_WALK_FILES {
                files == t.files && skipped == t.skipped && r.truncated == t.cut
            } else {
                r.files@.len() == MAX_WALK_FILES && files.subset_of(t.files)
                    && skipped.subset_of(t.skipped) && r.truncated
            }
        }),
{
    let w = run.last();
    let t = below(fs, root, 0);
    lemma_walk_on_course(fs, root, run, run.len() - 1);
    assert(depths(w.stack@).len() == 0);
    assert(both(so_far(w), bare()) =~= so_far(w));
    let (files, found) = (paths::views(r.files@), paths::views(w.walk.files@));
    files.to_multiset_ensures();
    found.to_multiset_ensures();
    assert(files.len() == found.len());
    assert forall|i: int, j: int| 0 <= i <= j < r.files@.len() implies order::lex_le(
        paths::path_key((#[trigger] r.files@[i])@),
        paths::path_key((#[trigger] r.files@[j])@),
    ) by {
        assert(files[i] == r.files@[i]@ && files[j] == r.files@[j]@);
    }
}

// ---- what an argument stands for --------------------------------------------
/// A file in a directory, as it is listed and as the system resolves it.
pub struct Sibling {
    pub path: FilePath,
    pub canonical: FilePath,
}

/// What was found out about a path given on the command line.
pub enum Argument {
    /// A directory, and the walk of it.
    Dir(Walk),
    /// Nothing is there.
    Missing,
    /// A file, as the system resolves it, and the `.vox` files beside it.
    File { canonical: FilePath, siblings: Vec<Sibling> },
}

/// Why a path stands for no files.
#[derive(Clone, Copy, Debug, PartialEq, Eq, Structural)]
pub enum CollectError {
    NoFiles,
    Missing,
}

impl CollectError {
    /// What to tell the user who gave a path.
    pub fn message(&self, arg: &str) -> (r: String)
        ensures
            r@ == (match *self {
                CollectError::NoFiles => "no .vox files under "@ + arg@,
                CollectError::Missing => arg@ + " does not exist"@,
            }),
    {
        let mut s = String::new();
        match self {
            CollectError::NoFiles => {
                text::push_str(&mut s, "no .vox files under ");
                text::push_str(&mut s, arg);
            },
            CollectError::Missing => {
                text::push_str(&mut s, arg);
                text::push_str(&mut s, " does not exist");
            },
        }
        assert(s@ =~= (match *self {
            CollectError::NoFiles => "no .vox files under "@ + arg@,
            CollectError::Missing => arg@ + " does not exist"@,
        }));
        s
    }
}

/// Where a file stands among its siblings.
pub open spec fn sibling_at(siblings: Seq<Sibling>, canonical: PathView, from: int) -> Option<int>
    decreases siblings.len() - from,
{
    if from < 0 || from >= siblings.len() {
        None
    } else if siblings[from].canonical@ == canonical {
        Some(from)
    } else {
        sibling_at(siblings, canonical, from + 1)
    }
}

/// The paths of some siblings.
pub open spec fn sibling_paths(siblings: Seq<Sibling>) -> Seq<PathView> {
    Seq::new(siblings.len(), |i: int| siblings[i].path@)
}

/// Collect the `.vox` files a command-line argument refers to, and which of
/// them to show first.
///
/// A directory yields its whole subtree, so pointing at `voxel/sprite` covers
/// all 950 files under it rather than the handful sitting directly there. A
/// *file* yields only its own directory's listing: paging with `[` and `]`
/// should stay instant no matter how large the tree above it is, and the
/// library browser does its own recursive scan off the main thread.
pub fn collect_vox_paths(arg: &FilePath, what: Argument) -> (r: Result<
    (Vec<FilePath>, usize),
    CollectError,
>)
    ensures
        match what {
            Argument::Dir(walk) => if walk.files@.len() == 0 {
                r == Err::<(Vec<FilePath>, usize), CollectError>(CollectError::NoFiles)
            } else {
                r matches Ok((files, first)) && files == walk.files && first == 0
            },
            Argument::Missing => r == Err::<(Vec<FilePath>, usize), CollectError>(
                CollectError::Missing,
            ),
            Argument::File { canonical, siblings } => match sibling_at(
                siblings@,
                canonical@,
                0,
            ) {
                Some(i) => r matches Ok((files, first)) && paths::views(files@) == sibling_paths(
                    siblings@,
                ) && first == i,
                None => r matches Ok((files, first)) && paths::views(files@) == seq![arg@] && first
                    == 0,
            },
        },
{
    match what {
        Argument::Dir(walk) => {
            if walk.files.len() == 0 {
                return Err(CollectError::NoFiles);
            }
            Ok((walk.files, 0))
        },
        Argument::Missing => Err(CollectError::Missing),
        Argument::File { canonical, siblings } => {
            let mut index: Option<usize> = None;
            let mut files: Vec<FilePath> = Vec::new();
            let mut i: usize = 0;
            let ghost all = sibling_paths(siblings@);
            assert(paths::views(files@) =~= all.subrange(0, 0));
            while i < siblings.len()
                invariant
                    i <= siblings@.len(),
                    all == sibling_paths(siblings@),
                    paths::views(files@) == all.subrange(0, i as int),
                    match index {
                        Some(at) => sibling_at(siblings@, canonical@, 0) == Some(at as int),
                        None => sibling_at(siblings@, canonical@, 0) == sibling_at(
                            siblings@,
                            canonical@,
                            i as int,
                        ),
                    },
                decreases siblings@.len() - i,
            {
                if index.is_none() && siblings[i].canonical.same(&canonical) {
                    index = Some(i);
                }
                let ghost had = files@;
                files.push(siblings[i].path.copy());
                i += 1;
                assert(paths::views(files@) =~= paths::views(had).push(all[i - 1]));
                assert(paths::views(files@) =~= all.subrange(0, i as int));
            }
            match index {
                Some(at) => {
                    assert(all.subrange(0, i as int) =~= all);
                    Ok((files, at))
                },
                // The named file is not a `.vox` by extension, or lives
                // somewhere that could not be listed: show just it.
                None => {
                    let mut only: Vec<FilePath> = Vec::new();
                    only.push(arg.copy());
                    assert(paths::views(only@) =~= seq![arg@]);
                    Ok((only, 0))
                },
            }
        },
    }
}

/// The `.vox` files among the first `n` entries of a directory.
pub open spec fn vox_among(entries: Seq<(FilePath, bool)>, n: int) -> Seq<PathView>
    decreases n,
{
    if n <= 0 {
        Seq::empty()
    } else {
        let before = vox_among(entries, n - 1);
        if entries[n - 1].1 && paths::has_vox_extension(entries[n - 1].0@) {
            before.push(entries[n - 1].0@)
        } else {
            before
        }
    }
}

/// The `.vox` files directly inside a directory, sorted by name; each entry
/// comes with whether it is a file.
pub fn list_vox_dir(entries: &Vec<(FilePath, bool)>) -> (r: Vec<FilePath>)
    ensures
        is_path_order(paths::views(r@), vox_among(entries@, entries@.len() as int)),
{
    let mut files: Vec<FilePath> = Vec::new();
    let mut i: usize = 0;
    assert(paths::views(files@) =~= Seq::empty());
    while i < entries.len()
        invariant
            i <= entries@.len(),
            paths::views(files@) == vox_among(entries@, i as int),
        decreases entries@.len() - i,
    {
        if entries[i].1 && is_vox(&entries[i].0) {
            let ghost had = files@;
            files.push(entries[i].0.copy());
            assert(paths::views(files@) =~= paths::views(had).push(entries@[i as int].0@));
        }
        i += 1;
    }
    sort_paths(&files)
}

/// A listing is cut short only where it must be: at the depth of twenty-four
/// folders, where there is one more below, or at two hundred thousand files.
pub proof fn lemma_a_walk_is_cut_only_at_its_limits(
    entries: Seq<DirEntry>,
    n: int,
    depth: usize,
    found: int,
)
    requires
        0 <= n <= entries.len(),
    ensures
        ({
            let g = gain(entries, n, depth, found);
            &&& g.truncated ==> (depth >= 24 && exists|i: int|
                0 <= i < n && (#[trigger] entries[i]).kind == Kind::Dir) || found + g.files.len()
                >= 200_000
            &&& g.files.len() + g.children.len() <= n
            &&& depth < 24 && found + n <= 200_000 ==> !g.truncated
        }),
    decreases n,
{
    if n > 0 {
        lemma_a_walk_is_cut_only_at_its_limits(entries, n - 1, depth, found);
        lemma_full_is_truncated(entries, n - 1, depth, found);
        if entries[n - 1].kind == Kind::Dir {
            assert(entries[n - 1].kind == Kind::Dir);
        }
    }
}

} // verus!
