//! Which assets are on screen, and in what order.

use vstd::prelude::*;

use crate::library;
use crate::library::{Asset, FacetCount, FacetCounts, Facets, Library, Load, Scope, Sort, RECENT};
use crate::names;
use crate::order;
use crate::order::Keyed;
use crate::paths;
use crate::text;
use vstd::view::View as _;

verus! {

// ---- scope ------------------------------------------------------------------
/// The assets among the first `n` that lie in a folder or below it.
pub open spec fn assets_under(lib: Library, top: usize, n: int) -> Seq<usize>
    decreases n,
{
    if n <= 0 {
        Seq::empty()
    } else {
        let before = assets_under(lib, top, n - 1);
        if library::beneath(lib.folders@, lib.assets@[n - 1].folder as int, top as int) {
            before.push((n - 1) as usize)
        } else {
            before
        }
    }
}

/// Assets inside the current scope, before find and facets.
pub open spec fn scope_of(lib: Library) -> Seq<usize> {
    match lib.scope {
        Scope::Folder(f) => assets_under(lib, f, lib.assets@.len() as int),
        Scope::Collection(c) => if c < lib.collections@.len() {
            lib.collections@[c as int].members@
        } else {
            Seq::empty()
        },
    }
}

/// Whether every item of a list is an asset of the library.
pub open spec fn are_assets(lib: Library, list: Seq<usize>) -> bool {
    forall|i: int| 0 <= i < list.len() ==> (#[trigger] list[i]) < lib.assets@.len()
}

// ---- find -------------------------------------------------------------------
/// The path of an asset's directory below the root of the library.
pub open spec fn directory_of(lib: Library, i: int) -> Seq<char> {
    let path = lib.assets@[i].path@;
    match path.parent() {
        Some(dir) => dir.relative_to(lib.root@),
        None => path.relative_to(lib.root@),
    }
}

/// The text a find looks in: the name, or with a slash in the find the path.
pub open spec fn haystack_of(lib: Library, i: int, needle: Seq<char>) -> Seq<char> {
    if needle.contains('/') {
        directory_of(lib, i) + seq!['/'] + lib.assets@[i].name@
    } else {
        lib.assets@[i].name@
    }
}

/// Whether an asset is one that is looked for.
pub open spec fn is_found(lib: Library, i: int) -> bool {
    let needle = text::lowercase(lib.find@);
    lib.find@.len() == 0 || text::holds(text::lowercase(haystack_of(lib, i, needle)), needle)
}

// ---- facets -----------------------------------------------------------------
/// The size class of a longest side: at most 16, at most 32, or more.
pub open spec fn bucket_of(side: int) -> int {
    if side <= 16 {
        0
    } else if side <= 32 {
        1
    } else {
        2
    }
}

pub open spec fn fits_extent(a: Asset, facets: Facets) -> bool {
    facets.some_extent() ==> (a.load matches Load::Ready(s) && facets.extent[bucket_of(
        s.longest(),
    )])
}

pub open spec fn fits_palette(a: Asset, facets: Facets) -> bool {
    facets.palette_from_file || facets.palette_default ==> (a.load matches Load::Ready(s) && (if s.palette_from_file {
        facets.palette_from_file
    } else {
        facets.palette_default
    }))
}

/// Whether an asset changed within the last day, and not in the future.
pub open spec fn is_recent(a: Asset, now: i64) -> bool {
    a.load matches Load::Ready(s) && s.modified matches Some(m) && 0 <= now - m < RECENT
}

pub open spec fn fits_state(a: Asset, facets: Facets, now: i64) -> bool {
    facets.recent || facets.failed ==> (facets.recent && is_recent(a, now)) || (facets.failed
        && a.load is Failed)
}

/// Whether an asset survives the find and some facets.
pub open spec fn survives(lib: Library, facets: Facets, now: i64, i: int) -> bool {
    &&& is_found(lib, i)
    &&& fits_extent(lib.assets@[i], facets)
    &&& fits_palette(lib.assets@[i], facets)
    &&& fits_state(lib.assets@[i], facets, now)
}

/// The items of a list that survive.
pub open spec fn survivors(lib: Library, facets: Facets, now: i64, list: Seq<usize>) -> Seq<usize>
    decreases list.len(),
{
    if list.len() == 0 {
        Seq::empty()
    } else {
        let before = survivors(lib, facets, now, list.drop_last());
        if survives(lib, facets, now, list.last() as int) {
            before.push(list.last())
        } else {
            before
        }
    }
}

// ---- order ------------------------------------------------------------------
/// A count as a signed number of as many bits.
pub open spec fn as_signed(n: usize) -> int {
    if n <= i64::MAX {
        n as int
    } else {
        n - 0x1_0000_0000_0000_0000
    }
}

/// What an asset is ordered by before its name.
pub open spec fn sort_rank(a: Asset, sort: Sort) -> int {
    match (sort, a.load) {
        (Sort::Extent, Load::Ready(s)) => s.longest(),
        (Sort::Voxels, Load::Ready(s)) => as_signed(s.voxels),
        (Sort::Modified, Load::Ready(s)) => match s.modified {
            Some(m) => if m >= 0 {
                m as int
            } else {
                0
            },
            None => 0,
        },
        _ => 0,
    }
}

/// A name as numbers and letters to be compared.
pub open spec fn name_key(name: Seq<char>) -> Seq<int> {
    names::natural_key(vstd::utf8::encode_utf8(name))
}

/// The order of the assets: what the library sorts by, then the name, then
/// the path.
impl Keyed for Library {
    open spec fn valid(&self, i: usize) -> bool {
        i < self.assets@.len()
    }

    open spec fn key(&self, i: usize) -> Seq<int> {
        let a = self.assets@[i as int];
        seq![sort_rank(a, self.sort)] + (name_key(a.name@) + seq![-1int] + paths::path_key(
            a.path@,
        ))
    }

    fn le(&self, a: usize, b: usize) -> (r: bool) {
        let (x, y) = (&self.assets[a], &self.assets[b]);
        let (p, q): (i64, i64) = (x.rank(self.sort), y.rank(self.sort));
        proof {
            let (s, t) = (name_key(x.name@), name_key(y.name@));
            let (u, v) = (paths::path_key(x.path@), paths::path_key(y.path@));
            names::lemma_natural_key_nonnegative(vstd::utf8::encode_utf8(x.name@));
            names::lemma_natural_key_nonnegative(vstd::utf8::encode_utf8(y.name@));
            order::lemma_lex_pair(s, t, u, v, -1);
            let (f, g) = (self.key(a), self.key(b));
            assert(f.subrange(1, f.len() as int) =~= s + seq![-1int] + u);
            assert(g.subrange(1, g.len() as int) =~= t + seq![-1int] + v);
            assert(f[0] == p && g[0] == q);
            order::lemma_lex_reflexive(u);
        }
        if p != q {
            return p < q;
        }
        let c: i8 = names::compare_names(x.name.as_str(), y.name.as_str());
        if c != 0 {
            return c < 0;
        }
        let d: i8 = paths::compare_paths(&x.path, &y.path);
        d <= 0
    }
}

impl Asset {
    /// What the asset is ordered by before its name.
    fn rank(&self, sort: Sort) -> (r: i64)
        ensures
            r == sort_rank(*self, sort),
    {
        match &self.load {
            Load::Ready(s) => match sort {
                Sort::Name => 0,
                Sort::Extent => s.longest_side() as i64,
                Sort::Voxels => {
                    let n: u64 = s.voxels as u64;
                    if n <= 0x7fff_ffff_ffff_ffff {
                        n as i64
                    } else {
                        (n as i128 - 0x1_0000_0000_0000_0000) as i64
                    }
                },
                Sort::Modified => match s.modified {
                    Some(m) => if m >= 0 {
                        m
                    } else {
                        0
                    },
                    None => 0,
                },
            },
            _ => 0,
        }
    }
}

/// A list in the order of the library.
pub open spec fn arranged(lib: Library, list: Seq<usize>) -> Seq<usize> {
    let up = choose|out: Seq<usize>| order::is_sorted_from(lib, out, list);
    if lib.descending {
        up.reverse()
    } else {
        up
    }
}

/// Every asset that survives scope, find and facets, in order.
pub open spec fn shown(lib: Library, now: i64) -> Seq<usize> {
    arranged(lib, survivors(lib, lib.facets, now, scope_of(lib)))
}

/// Mark a folder and everything beneath it.
fn mark_subtree(folders: &Vec<library::Folder>, top: usize) -> (r: Vec<bool>)
    requires
        library::is_tree(folders@),
        top < folders@.len(),
    ensures
        r@.len() == folders@.len(),
        forall|i: int|
            0 <= i < r@.len() ==> #[trigger] r@[i] == library::beneath(folders@, i, top as int),
{
    let mut wanted: Vec<bool> = Vec::new();
    let mut i: usize = 0;
    while i < folders.len()
        invariant
            library::is_tree(folders@),
            i <= folders@.len(),
            wanted@.len() == i,
            forall|k: int|
                0 <= k < i ==> #[trigger] wanted@[k] == library::beneath(
                    folders@,
                    k,
                    top as int,
                ),
        decreases folders@.len() - i,
    {
        assert(i >= 1 ==> folders@[i as int].parent is Some && folders@[i as int].parent->0 < i);
        let here = if i == top {
            true
        } else {
            match folders[i].parent {
                Some(p) => wanted[p],
                None => false,
            }
        };
        assert(here == library::beneath(folders@, i as int, top as int));
        wanted.push(here);
        i += 1;
    }
    wanted
}

proof fn lemma_assets_under(lib: Library, top: usize, n: int)
    requires
        0 <= n <= lib.assets@.len(),
    ensures
        are_assets(lib, assets_under(lib, top, n)),
        assets_under(lib, top, n).len() <= n,
    decreases n,
{
    if n > 0 {
        lemma_assets_under(lib, top, n - 1);
    }
}

/// Every asset in scope is one of the library.
proof fn lemma_scope(lib: Library)
    requires
        lib.wf(),
    ensures
        are_assets(lib, scope_of(lib)),
{
    match lib.scope {
        Scope::Folder(f) => lemma_assets_under(lib, f, lib.assets@.len() as int),
        Scope::Collection(c) => {
            if c < lib.collections@.len() {
                let members = lib.collections@[c as int].members@;
                assert forall|i: int| 0 <= i < members.len() implies (#[trigger] members[i])
                    < lib.assets@.len() by {
                    assert(lib.collections@[c as int].members@[i] < lib.assets@.len());
                }
            }
        },
    }
}

proof fn lemma_survivors(lib: Library, facets: Facets, now: i64, list: Seq<usize>)
    ensures
        survivors(lib, facets, now, list).len() <= list.len(),
        forall|x: usize| #[trigger]
            survivors(lib, facets, now, list).contains(x) <==> list.contains(x) && survives(
                lib,
                facets,
                now,
                x as int,
            ),
    decreases list.len(),
{
    let out = survivors(lib, facets, now, list);
    if list.len() > 0 {
        let rest = list.drop_last();
        lemma_survivors(lib, facets, now, rest);
        let before = survivors(lib, facets, now, rest);
        assert forall|x: usize| #[trigger] out.contains(x) <==> list.contains(x) && survives(
            lib,
            facets,
            now,
            x as int,
        ) by {
            if out.contains(x) {
                let k = choose|k: int| 0 <= k < out.len() && out[k] == x;
                if k < before.len() {
                    assert(before[k] == x && before.contains(x));
                    let j = choose|j: int| 0 <= j < rest.len() && rest[j] == x;
                    assert(list[j] == x);
                } else {
                    assert(list[list.len() - 1] == x);
                }
            }
            if list.contains(x) && survives(lib, facets, now, x as int) {
                let k = choose|k: int| 0 <= k < list.len() && list[k] == x;
                if k < rest.len() {
                    assert(list[k] == rest[k]);
                    assert(rest.contains(x));
                    assert(before.contains(x));
                    let j = choose|j: int| 0 <= j < before.len() && before[j] == x;
                    assert(out[j] == x);
                } else {
                    assert(out[out.len() - 1] == x);
                }
            }
        }
    }
}

/// Copy of a list of indices.
pub(crate) fn copy_list(list: &Vec<usize>) -> (r: Vec<usize>)
    ensures
        r@ == list@,
{
    let mut out: Vec<usize> = Vec::new();
    let mut i: usize = 0;
    while i < list.len()
        invariant
            i <= list@.len(),
            out@ == list@.subrange(0, i as int),
        decreases list@.len() - i,
    {
        out.push(list[i]);
        i += 1;
        assert(out@ =~= list@.subrange(0, i as int));
    }
    assert(out@ =~= list@);
    out
}

fn reversed(list: &Vec<usize>) -> (r: Vec<usize>)
    ensures
        r@ == list@.reverse(),
{
    let mut out: Vec<usize> = Vec::new();
    let mut i: usize = list.len();
    while i > 0
        invariant
            i <= list@.len(),
            out@.len() == list@.len() - i,
            forall|k: int| 0 <= k < out@.len() ==> #[trigger] out@[k] == list@[list@.len() - 1 - k],
        decreases i,
    {
        i -= 1;
        out.push(list[i]);
    }
    assert(out@ =~= list@.reverse());
    out
}

/// The size class of a longest side.
fn bucket(side: i32) -> (r: usize)
    ensures
        r == bucket_of(side as int),
        r < 3,
{
    if side <= 16 {
        0
    } else if side <= 32 {
        1
    } else {
        2
    }
}

impl Asset {
    fn matches_extent(&self, facets: &Facets) -> (r: bool)
        ensures
            r == fits_extent(*self, *facets),
    {
        if !(facets.extent[0] || facets.extent[1] || facets.extent[2]) {
            return true;
        }
        match self.stats() {
            None => false,
            Some(stats) => {
                let k: usize = bucket(stats.longest_side());
                facets.extent[k]
            },
        }
    }

    fn matches_palette(&self, facets: &Facets) -> (r: bool)
        ensures
            r == fits_palette(*self, *facets),
    {
        if !facets.palette_from_file && !facets.palette_default {
            return true;
        }
        match self.stats() {
            None => false,
            Some(stats) => (facets.palette_from_file && stats.palette_from_file) || (
            facets.palette_default && !stats.palette_from_file),
        }
    }

    /// Whether the file changed within the last day.
    fn recent(&self, now: i64) -> (r: bool)
        ensures
            r == is_recent(*self, now),
    {
        match self.stats() {
            None => false,
            Some(stats) => match stats.modified {
                None => false,
                Some(m) => {
                    let age: i128 = now as i128 - m as i128;
                    0 <= age && age < RECENT as i128
                },
            },
        }
    }

    fn matches_state(&self, facets: &Facets, now: i64) -> (r: bool)
        ensures
            r == fits_state(*self, *facets, now),
    {
        if !facets.recent && !facets.failed {
            return true;
        }
        (facets.recent && self.recent(now)) || (facets.failed && self.failed())
    }
}

impl Library {
    /// Path of `asset` relative to the library root, with `/` separators.
    pub fn relative(&self, asset: usize) -> (r: String)
        requires
            asset < self.assets@.len(),
        ensures
            r@ == self.assets@[asset as int].path@.relative_to(self.root@),
    {
        self.assets[asset].path.relative_to(&self.root)
    }

    /// Path of the directory `asset` lies in, relative to the library root:
    /// empty for a file sitting directly in the root.
    pub fn directory(&self, asset: usize) -> (r: String)
        requires
            asset < self.assets@.len(),
        ensures
            r@ == directory_of(*self, asset as int),
    {
        let path = &self.assets[asset].path;
        match path.parent() {
            Some(dir) => dir.relative_to(&self.root),
            None => path.relative_to(&self.root),
        }
    }

    /// Path of `folder` relative to the library root, with `/` separators.
    pub fn folder_relative(&self, folder: usize) -> (r: String)
        requires
            folder < self.folders@.len(),
        ensures
            r@ == self.folders@[folder as int].path@.relative_to(self.root@),
    {
        self.folders[folder].path.relative_to(&self.root)
    }

    /// Assets inside the current scope, before find and facets.
    pub fn in_scope(&self) -> (r: Vec<usize>)
        requires
            self.wf(),
        ensures
            r@ == scope_of(*self),
            are_assets(*self, r@),
    {
        proof {
            lemma_scope(*self);
        }
        match self.scope {
            Scope::Folder(f) => {
                let wanted = mark_subtree(&self.folders, f);
                let mut out: Vec<usize> = Vec::new();
                let mut i: usize = 0;
                while i < self.assets.len()
                    invariant
                        self.wf(),
                        i <= self.assets@.len(),
                        wanted@.len() == self.folders@.len(),
                        forall|k: int|
                            0 <= k < wanted@.len() ==> #[trigger] wanted@[k] == library::beneath(
                                self.folders@,
                                k,
                                f as int,
                            ),
                        out@ == assets_under(*self, f, i as int),
                    decreases self.assets@.len() - i,
                {
                    assert(self.assets@[i as int].folder < self.folders@.len());
                    if wanted[self.assets[i].folder] {
                        out.push(i);
                    }
                    i += 1;
                }
                out
            },
            Scope::Collection(c) => if c < self.collections.len() {
                copy_list(&self.collections[c].members)
            } else {
                Vec::new()
            },
        }
    }

    /// The text a find looks in. A find with a slash in it is about where the
    /// file lives, not what it is called, so it looks in the path.
    pub fn haystack(&self, asset: usize, needle: &str) -> (r: String)
        requires
            asset < self.assets@.len(),
        ensures
            r@ == haystack_of(*self, asset as int, needle@),
    {
        let chars = text::chars_of(needle);
        proof {
            text::lemma_find(chars@, '/');
        }
        let at: usize = text::find_from(&chars, '/', 0);
        assert(chars@.subrange(0, chars@.len() as int) =~= chars@);
        if at < chars.len() {
            assert(chars@[at as int] == '/');
            let mut s = self.directory(asset);
            s.push('/');
            text::push_str(&mut s, self.assets[asset].name.as_str());
            assert(s@ =~= haystack_of(*self, asset as int, needle@));
            s
        } else {
            assert(!needle@.contains('/'));
            let mut s = String::new();
            text::push_str(&mut s, self.assets[asset].name.as_str());
            assert(s@ =~= self.assets@[asset as int].name@);
            s
        }
    }

    fn matches_find(&self, asset: usize) -> (r: bool)
        requires
            asset < self.assets@.len(),
        ensures
            r == is_found(*self, asset as int),
    {
        let chars = text::chars_of(self.find.as_str());
        if chars.len() == 0 {
            return true;
        }
        let needle = self.find.as_str().to_lowercase();
        let hay = self.haystack(asset, needle.as_str()).as_str().to_lowercase();
        text::contains(&text::chars_of(hay.as_str()), &text::chars_of(needle.as_str()))
    }

    fn passes(&self, asset: usize, facets: &Facets, now: i64) -> (r: bool)
        requires
            asset < self.assets@.len(),
        ensures
            r == survives(*self, *facets, now, asset as int),
    {
        let a = &self.assets[asset];
        self.matches_find(asset) && a.matches_extent(facets) && a.matches_palette(facets)
            && a.matches_state(facets, now)
    }

    /// Every asset that survives scope, find and facets, sorted.
    pub fn filtered(&self, now: i64) -> (r: Vec<usize>)
        requires
            self.wf(),
        ensures
            r@ == shown(*self, now),
            order::is_sorted_from(
                *self,
                if self.descending {
                    r@.reverse()
                } else {
                    r@
                },
                survivors(*self, self.facets, now, scope_of(*self)),
            ),
            are_assets(*self, r@),
    {
        let scope = self.in_scope();
        let mut kept: Vec<usize> = Vec::new();
        let mut i: usize = 0;
        assert(scope@.subrange(0, 0) =~= Seq::empty());
        while i < scope.len()
            invariant
                i <= scope@.len(),
                are_assets(*self, scope@),
                kept@ == survivors(*self, self.facets, now, scope@.subrange(0, i as int)),
                are_assets(*self, kept@),
            decreases scope@.len() - i,
        {
            assert(scope@.subrange(0, i as int + 1).drop_last() =~= scope@.subrange(0, i as int));
            if self.passes(scope[i], &self.facets, now) {
                kept.push(scope[i]);
            }
            i += 1;
        }
        assert(scope@.subrange(0, i as int) =~= scope@);
        self.sort_assets(&kept)
    }

    fn sort_assets(&self, list: &Vec<usize>) -> (r: Vec<usize>)
        requires
            are_assets(*self, list@),
        ensures
            r@ == arranged(*self, list@),
            order::is_sorted_from(
                *self,
                if self.descending {
                    r@.reverse()
                } else {
                    r@
                },
                list@,
            ),
            are_assets(*self, r@),
    {
        let up = order::sort(self, list, 0, list.len());
        proof {
            assert(list@.subrange(0, list@.len() as int) =~= list@);
            let chosen = choose|out: Seq<usize>| order::is_sorted_from(*self, out, list@);
            order::lemma_sorting_is_unique(*self, chosen, up@, list@);
            assert(up@.reverse().reverse() =~= up@);
            assert forall|i: int| 0 <= i < up@.len() implies (#[trigger] up@[i])
                < self.assets@.len() by {
                assert(self.valid(up@[i]));
            }
        }
        if self.descending {
            reversed(&up)
        } else {
            up
        }
    }
}

/// What a list shows is what is in scope and survives, each as often as it is
/// in scope, whatever it is ordered by.
pub proof fn lemma_order_hides_nothing(lib: Library, now: i64, list: Seq<usize>)
    requires
        order::is_sorted_from(lib, list, survivors(lib, lib.facets, now, scope_of(lib))),
    ensures
        forall|x: usize| #[trigger]
            list.contains(x) <==> scope_of(lib).contains(x) && survives(
                lib,
                lib.facets,
                now,
                x as int,
            ),
{
    let kept = survivors(lib, lib.facets, now, scope_of(lib));
    lemma_survivors(lib, lib.facets, now, scope_of(lib));
    order::lemma_sorting_keeps_the_items(lib, list, kept);
    assert forall|x: usize| #[trigger] list.contains(x) <==> scope_of(lib).contains(x) && survives(
        lib,
        lib.facets,
        now,
        x as int,
    ) by {
        assert(list.contains(x) <==> kept.contains(x));
    }
}

// ---- facet counts -----------------------------------------------------------
impl Facets {
    /// These facets with one size class chosen and no other.
    pub open spec fn only_extent(self, k: int) -> Facets {
        Facets { extent: [k == 0, k == 1, k == 2], ..self }
    }

    /// These facets with files that bring a palette chosen, or those that do not.
    pub open spec fn only_palette(self, from_file: bool) -> Facets {
        Facets { palette_from_file: from_file, palette_default: !from_file, ..self }
    }

    /// These facets with recent files chosen, or broken ones.
    pub open spec fn only_state(self, recent: bool) -> Facets {
        Facets { recent, failed: !recent, ..self }
    }
}

/// How many assets in scope some facets would leave.
pub open spec fn leaves(lib: Library, facets: Facets, now: i64, list: Seq<usize>) -> nat {
    survivors(lib, facets, now, list).len()
}

/// How many of a list the scan has not reached yet.
pub open spec fn waiting(lib: Library, list: Seq<usize>) -> nat
    decreases list.len(),
{
    if list.len() == 0 {
        0
    } else {
        waiting(lib, list.drop_last()) + if lib.assets@[list.last() as int].load is Pending {
            1nat
        } else {
            0nat
        }
    }
}

/// Whether counts are those of a list: each facet counts what would be left
/// with it alone chosen in its group, the other groups as they are.
pub open spec fn counts_are(c: FacetCounts, lib: Library, now: i64, list: Seq<usize>) -> bool {
    let f = lib.facets;
    &&& forall|k: int|
        0 <= k < 3 ==> (#[trigger] c.extent[k]).matching == leaves(
            lib,
            f.only_extent(k),
            now,
            list,
        )
    &&& c.palette_from_file.matching == leaves(lib, f.only_palette(true), now, list)
    &&& c.palette_default.matching == leaves(lib, f.only_palette(false), now, list)
    &&& c.recent.matching == leaves(lib, f.only_state(true), now, list)
    &&& c.failed.matching == leaves(lib, f.only_state(false), now, list)
    &&& c.total == list.len()
    &&& c.pending == waiting(lib, list)
}

/// Whether the boxes are ticked as the facets have it.
pub open spec fn ticks_are(c: FacetCounts, f: Facets) -> bool {
    &&& forall|k: int| 0 <= k < 3 ==> (#[trigger] c.extent[k]).on == f.extent[k]
    &&& c.palette_from_file.on == f.palette_from_file
    &&& c.palette_default.on == f.palette_default
    &&& c.recent.on == f.recent
    &&& c.failed.on == f.failed
}

/// How the counts grow by one more asset.
proof fn lemma_counts_step(lib: Library, now: i64, list: Seq<usize>, x: usize)
    ensures
        waiting(lib, list.push(x)) == waiting(lib, list) + if lib.assets@[x as int].load is Pending {
            1nat
        } else {
            0nat
        },
        waiting(lib, list) <= list.len(),
        forall|facets: Facets| #[trigger]
            leaves(lib, facets, now, list.push(x)) == leaves(lib, facets, now, list) + if survives(
                lib,
                facets,
                now,
                x as int,
            ) {
                1nat
            } else {
                0nat
            },
        forall|facets: Facets| #[trigger] leaves(lib, facets, now, list) <= list.len(),
    decreases list.len(),
{
    let more = list.push(x);
    assert(more.drop_last() =~= list);
    if list.len() > 0 {
        lemma_counts_step(lib, now, list.drop_last(), list.last());
    }
    assert forall|facets: Facets| #[trigger] leaves(lib, facets, now, list) <= list.len() by {
        lemma_survivors(lib, facets, now, list);
    }
}

impl Library {
    /// How many assets each facet would leave, counted with that facet's own
    /// group switched off -- the count you actually want before clicking.
    pub fn facet_counts(&self, now: i64) -> (r: FacetCounts)
        requires
            self.wf(),
        ensures
            counts_are(r, *self, now, scope_of(*self)),
            ticks_are(r, self.facets),
    {
        let scope = self.in_scope();
        let f = self.facets;
        let mut counts = FacetCounts {
            extent: [
                FacetCount { matching: 0, on: f.extent[0] },
                FacetCount { matching: 0, on: f.extent[1] },
                FacetCount { matching: 0, on: f.extent[2] },
            ],
            palette_from_file: FacetCount { matching: 0, on: f.palette_from_file },
            palette_default: FacetCount { matching: 0, on: f.palette_default },
            recent: FacetCount { matching: 0, on: f.recent },
            failed: FacetCount { matching: 0, on: f.failed },
            total: 0,
            pending: 0,
        };
        let mut i: usize = 0;
        assert(scope@.subrange(0, 0) =~= Seq::empty());
        while i < scope.len()
            invariant
                i <= scope@.len(),
                f == self.facets,
                are_assets(*self, scope@),
                counts_are(counts, *self, now, scope@.subrange(0, i as int)),
                ticks_are(counts, f),
            decreases scope@.len() - i,
        {
            let ghost had = scope@.subrange(0, i as int);
            let asset: usize = scope[i];
            proof {
                lemma_counts_step(*self, now, had, asset);
                assert(scope@.subrange(0, i as int + 1) =~= had.push(asset));
            }
            self.count_one(&mut counts, asset, now, Ghost(had));
            i += 1;
        }
        assert(scope@.subrange(0, i as int) =~= scope@);
        counts
    }

    /// Count one asset under every facet that would leave it.
    fn count_one(&self, counts: &mut FacetCounts, asset: usize, now: i64, Ghost(had): Ghost<Seq<usize>>)
        requires
            asset < self.assets@.len(),
            had.len() < usize::MAX,
            counts_are(*old(counts), *self, now, had),
            ticks_are(*old(counts), self.facets),
        ensures
            counts_are(*final(counts), *self, now, had.push(asset)),
            ticks_are(*final(counts), self.facets),
    {
        proof {
            lemma_counts_step(*self, now, had, asset);
        }
        let ghost before = *counts;
        let a = &self.assets[asset];
        let f = self.facets;
        let found = self.matches_find(asset);
        let extent = a.matches_extent(&f);
        let palette = a.matches_palette(&f);
        let state = a.matches_state(&f, now);
        counts.total += 1;
        if let Load::Pending = &a.load {
            counts.pending += 1;
        }
        if let Some(stats) = a.stats() {
            if found && palette && state {
                let k: usize = bucket(stats.longest_side());
                counts.extent[k].matching += 1;
            }
            if found && extent && state {
                if stats.palette_from_file {
                    counts.palette_from_file.matching += 1;
                } else {
                    counts.palette_default.matching += 1;
                }
            }
        }
        if found && extent && palette {
            if a.recent(now) {
                counts.recent.matching += 1;
            }
            if a.failed() {
                counts.failed.matching += 1;
            }
        }
        proof {
            assert forall|k: int| 0 <= k < 3 implies (#[trigger] counts.extent[k]).matching
                == leaves(*self, f.only_extent(k), now, had.push(asset)) by {
                let g = f.only_extent(k);
                assert(g.extent[0] == (k == 0) && g.extent[1] == (k == 1) && g.extent[2] == (k == 2));
                assert(before.extent[k].matching == leaves(*self, g, now, had));
            }
        }
    }
}

// ---- what the listing promises ----------------------------------------------
/// The library with other boxes ticked.
pub open spec fn faceted(lib: Library, facets: Facets) -> Library {
    Library { facets, ..lib }
}

/// What is shown is what survives, in ascending order or turned round.
proof fn lemma_shown(lib: Library, now: i64)
    ensures
        order::is_sorted_from(
            lib,
            if lib.descending {
                shown(lib, now).reverse()
            } else {
                shown(lib, now)
            },
            survivors(lib, lib.facets, now, scope_of(lib)),
        ),
{
    let kept = survivors(lib, lib.facets, now, scope_of(lib));
    let one = order::lemma_sorting_is_possible(lib, kept);
    assert(order::is_sorted_from(lib, one, kept));
    let up = choose|out: Seq<usize>| order::is_sorted_from(lib, out, kept);
    assert(up.reverse().reverse() =~= up);
}

proof fn lemma_shown_holds(lib: Library, now: i64, x: usize)
    ensures
        shown(lib, now).contains(x) <==> scope_of(lib).contains(x) && survives(
            lib,
            lib.facets,
            now,
            x as int,
        ),
        shown(lib, now).len() == survivors(lib, lib.facets, now, scope_of(lib)).len(),
{
    lemma_shown(lib, now);
    let list = shown(lib, now);
    let up = if lib.descending {
        list.reverse()
    } else {
        list
    };
    lemma_order_hides_nothing(lib, now, up);
    assert(list.contains(x) <==> up.contains(x)) by {
        if list.contains(x) {
            let k = choose|k: int| 0 <= k < list.len() && list[k] == x;
            assert(list.reverse()[list.len() - 1 - k] == x);
        }
        if list.reverse().contains(x) {
            let k = choose|k: int| 0 <= k < list.len() && list.reverse()[k] == x;
            assert(list[list.len() - 1 - k] == x);
        }
    }
}

proof fn lemma_scope_faceted(lib: Library, facets: Facets)
    ensures
        scope_of(faceted(lib, facets)) == scope_of(lib),
{
    lemma_assets_faceted(lib, facets, lib.assets@.len() as int);
    if let Scope::Folder(f) = lib.scope {
        assert(assets_under(faceted(lib, facets), f, lib.assets@.len() as int) == assets_under(
            lib,
            f,
            lib.assets@.len() as int,
        ));
    }
}

proof fn lemma_assets_faceted(lib: Library, facets: Facets, n: int)
    ensures
        forall|top: usize| #[trigger]
            assets_under(faceted(lib, facets), top, n) == assets_under(lib, top, n),
    decreases n,
{
    if n > 0 {
        lemma_assets_faceted(lib, facets, n - 1);
    }
    assert forall|top: usize| #[trigger]
        assets_under(faceted(lib, facets), top, n) == assets_under(lib, top, n) by {
        if n > 0 {
            assert(assets_under(faceted(lib, facets), top, n - 1) == assets_under(lib, top, n - 1));
        }
    }
}

proof fn lemma_survivors_faceted(lib: Library, facets: Facets, now: i64, list: Seq<usize>)
    ensures
        survivors(faceted(lib, facets), facets, now, list) == survivors(lib, facets, now, list),
    decreases list.len(),
{
    if list.len() > 0 {
        lemma_survivors_faceted(lib, facets, now, list.drop_last());
    }
}

proof fn lemma_shown_faceted(lib: Library, facets: Facets, now: i64, x: usize)
    ensures
        shown(faceted(lib, facets), now).contains(x) <==> scope_of(lib).contains(x) && survives(
            lib,
            facets,
            now,
            x as int,
        ),
        shown(faceted(lib, facets), now).len() == survivors(
            lib,
            facets,
            now,
            scope_of(lib),
        ).len(),
{
    lemma_shown_holds(faceted(lib, facets), now, x);
    lemma_scope_faceted(lib, facets);
    lemma_survivors_faceted(lib, facets, now, scope_of(lib));
}

/// What each box keeps of what would be listed with none ticked. With one box
/// ticked and no other, those are: files with every side at most 16, at most 32
/// but not 16, or longer; files that bring a palette, or do not; files changed
/// within the 24 hours before now; files that would not load. None but a file
/// that was read has a size, a palette or an age.
pub proof fn lemma_what_a_box_keeps(lib: Library, f: Facets, none: Facets, now: i64, x: usize)
    requires
        none.none(),
    ensures
        ({
            let listed = shown(faceted(lib, f), now).contains(x);
            let before = shown(faceted(lib, none), now).contains(x);
            let load = lib.assets@[x as int].load;
            let e = f.extent;
            let size = |a: bool, b: bool, c: bool| e[0] == a && e[1] == b && e[2] == c;
            let rest = |p: bool, d: bool, r: bool, w: bool|
                f.palette_from_file == p && f.palette_default == d && f.recent == r && f.failed == w;
            &&& listed ==> before
            &&& size(false, false, false) && rest(false, false, false, false) ==> listed == before
            &&& size(true, false, false) && rest(false, false, false, false) ==> (listed <==> before
                && (load matches Load::Ready(s) && s.dims[0] <= 16 && s.dims[1] <= 16 && s.dims[2]
                <= 16))
            &&& size(false, true, false) && rest(false, false, false, false) ==> (listed <==> before
                && (load matches Load::Ready(s) && s.dims[0] <= 32 && s.dims[1] <= 32 && s.dims[2]
                <= 32 && (s.dims[0] > 16 || s.dims[1] > 16 || s.dims[2] > 16)))
            &&& size(false, false, true) && rest(false, false, false, false) ==> (listed <==> before
                && (load matches Load::Ready(s) && (s.dims[0] > 32 || s.dims[1] > 32 || s.dims[2]
                > 32)))
            &&& size(false, false, false) && rest(true, false, false, false) ==> (listed <==> before
                && (load matches Load::Ready(s) && s.palette_from_file))
            &&& size(false, false, false) && rest(false, true, false, false) ==> (listed <==> before
                && (load matches Load::Ready(s) && !s.palette_from_file))
            &&& size(false, false, false) && rest(false, false, true, false) ==> (listed <==> before
                && (load matches Load::Ready(s) && s.modified matches Some(m) && m <= now && now < m
                + 24 * 60 * 60 * 1_000_000_000))
            &&& size(false, false, false) && rest(false, false, false, true) ==> (listed <==> before
                && load is Failed)
        }),
{
    lemma_shown_faceted(lib, f, now, x);
    lemma_shown_faceted(lib, none, now, x);
}

/// Boxes of one group add to each other, and the groups take away from each
/// other: what is listed is what each group lists on its own, and what a group
/// lists is what any of its ticked boxes does.
pub proof fn lemma_boxes_of_a_group_add(
    lib: Library,
    f: Facets,
    none: Facets,
    now: i64,
    x: usize,
)
    requires
        none.none(),
    ensures
        ({
            let listed = |g: Facets| shown(faceted(lib, g), now).contains(x);
            let size = |a: bool, b: bool, c: bool| Facets { extent: [a, b, c], ..none };
            let palette = |p: bool, d: bool|
                Facets { palette_from_file: p, palette_default: d, ..none };
            let state = |r: bool, w: bool| Facets { recent: r, failed: w, ..none };
            let (a, b, c) = (f.extent[0], f.extent[1], f.extent[2]);
            let (p, d, r, w) = (f.palette_from_file, f.palette_default, f.recent, f.failed);
            &&& listed(f) <==> listed(size(a, b, c)) && listed(palette(p, d)) && listed(state(r, w))
            &&& (a || b || c) ==> (listed(size(a, b, c)) <==> (a && listed(size(true, false, false)))
                || (b && listed(size(false, true, false))) || (c && listed(
                size(false, false, true),
            )))
            &&& (p || d) ==> (listed(palette(p, d)) <==> (p && listed(palette(true, false))) || (d
                && listed(palette(false, true))))
            &&& (r || w) ==> (listed(state(r, w)) <==> (r && listed(state(true, false))) || (w
                && listed(state(false, true))))
        }),
{
    let (a, b, c) = (f.extent[0], f.extent[1], f.extent[2]);
    let (p, d, r, w) = (f.palette_from_file, f.palette_default, f.recent, f.failed);
    lemma_shown_faceted(lib, f, now, x);
    lemma_shown_faceted(lib, Facets { extent: [a, b, c], ..none }, now, x);
    lemma_shown_faceted(lib, Facets { extent: [true, false, false], ..none }, now, x);
    lemma_shown_faceted(lib, Facets { extent: [false, true, false], ..none }, now, x);
    lemma_shown_faceted(lib, Facets { extent: [false, false, true], ..none }, now, x);
    lemma_shown_faceted(lib, Facets { palette_from_file: p, palette_default: d, ..none }, now, x);
    lemma_shown_faceted(
        lib,
        Facets { palette_from_file: true, palette_default: false, ..none },
        now,
        x,
    );
    lemma_shown_faceted(
        lib,
        Facets { palette_from_file: false, palette_default: true, ..none },
        now,
        x,
    );
    lemma_shown_faceted(lib, Facets { recent: r, failed: w, ..none }, now, x);
    lemma_shown_faceted(lib, Facets { recent: true, failed: false, ..none }, now, x);
    lemma_shown_faceted(lib, Facets { recent: false, failed: true, ..none }, now, x);
}

/// The number beside a box is how many files would be listed if it were the only
/// one ticked in its group; the total is how many are in scope.
pub proof fn lemma_a_count_is_what_a_click_would_list(lib: Library, c: FacetCounts, now: i64)
    requires
        counts_are(c, lib, now, scope_of(lib)),
    ensures
        ({
            let f = lib.facets;
            let count = |g: Facets| shown(faceted(lib, g), now).len();
            &&& c.extent[0].matching == count(Facets { extent: [true, false, false], ..f })
            &&& c.extent[1].matching == count(Facets { extent: [false, true, false], ..f })
            &&& c.extent[2].matching == count(Facets { extent: [false, false, true], ..f })
            &&& c.palette_from_file.matching == count(
                Facets { palette_from_file: true, palette_default: false, ..f },
            )
            &&& c.palette_default.matching == count(
                Facets { palette_from_file: false, palette_default: true, ..f },
            )
            &&& c.recent.matching == count(Facets { recent: true, failed: false, ..f })
            &&& c.failed.matching == count(Facets { recent: false, failed: true, ..f })
            &&& c.total == scope_of(lib).len()
            &&& c.pending == scope_of(lib).filter(
                |x: usize| lib.assets@[x as int].load is Pending,
            ).len()
        }),
{
    let f = lib.facets;
    let scope = scope_of(lib);
    assert(f.only_extent(0).extent[0] && !f.only_extent(0).extent[1]);
    lemma_same_extent(lib, f.only_extent(0), Facets { extent: [true, false, false], ..f }, now, scope);
    lemma_same_extent(lib, f.only_extent(1), Facets { extent: [false, true, false], ..f }, now, scope);
    lemma_same_extent(lib, f.only_extent(2), Facets { extent: [false, false, true], ..f }, now, scope);
    lemma_shown_faceted(lib, Facets { extent: [true, false, false], ..f }, now, 0);
    lemma_shown_faceted(lib, Facets { extent: [false, true, false], ..f }, now, 0);
    lemma_shown_faceted(lib, Facets { extent: [false, false, true], ..f }, now, 0);
    lemma_shown_faceted(lib, f.only_palette(true), now, 0);
    lemma_shown_faceted(lib, f.only_palette(false), now, 0);
    lemma_shown_faceted(lib, f.only_state(true), now, 0);
    lemma_shown_faceted(lib, f.only_state(false), now, 0);
    assert(c.extent[0].matching == leaves(lib, f.only_extent(0), now, scope));
    assert(c.extent[1].matching == leaves(lib, f.only_extent(1), now, scope));
    assert(c.extent[2].matching == leaves(lib, f.only_extent(2), now, scope));
    lemma_waiting_is_pending(lib, scope);
}

proof fn lemma_waiting_is_pending(lib: Library, list: Seq<usize>)
    ensures
        waiting(lib, list) == list.filter(|x: usize| lib.assets@[x as int].load is Pending).len(),
    decreases list.len(),
{
    reveal(Seq::filter);
    if list.len() > 0 {
        lemma_waiting_is_pending(lib, list.drop_last());
    }
}

proof fn lemma_same_extent(lib: Library, f: Facets, g: Facets, now: i64, list: Seq<usize>)
    requires
        f.extent[0] == g.extent[0],
        f.extent[1] == g.extent[1],
        f.extent[2] == g.extent[2],
        f.palette_from_file == g.palette_from_file,
        f.palette_default == g.palette_default,
        f.recent == g.recent,
        f.failed == g.failed,
    ensures
        survivors(lib, f, now, list) == survivors(lib, g, now, list),
    decreases list.len(),
{
    if list.len() > 0 {
        lemma_same_extent(lib, f, g, now, list.drop_last());
    }
}

/// Of two listed files, the one that comes first in ascending order is the
/// smaller by what the list is sorted by: the longest side, the number of voxels
/// or the time of the last change. A file that was not read counts as nothing,
/// and files that are alike in this come by name. Descending is the other way
/// round.
pub proof fn lemma_the_listing_is_sorted(lib: Library, now: i64, i: int, j: int)
    requires
        0 <= i < j < shown(lib, now).len(),
    ensures
        ({
            let list = shown(lib, now);
            let (a, b) = if lib.descending {
                (lib.assets@[list[j] as int], lib.assets@[list[i] as int])
            } else {
                (lib.assets@[list[i] as int], lib.assets@[list[j] as int])
            };
            let by_name = order::lex_le(name_key(a.name@), name_key(b.name@));
            match lib.sort {
                Sort::Name => by_name,
                Sort::Extent => match (a.load, b.load) {
                    (Load::Ready(s), Load::Ready(t)) => {
                        let sides = |n: int| s.dims[0] <= n && s.dims[1] <= n && s.dims[2] <= n;
                        &&& sides(t.dims[0] as int) || sides(t.dims[1] as int) || sides(
                            t.dims[2] as int,
                        )
                        &&& s.dims == t.dims ==> by_name
                    },
                    (Load::Ready(s), _) => s.dims[0] <= 0 && s.dims[1] <= 0 && s.dims[2] <= 0,
                    (_, Load::Ready(t)) => t.dims[0] >= 0 || t.dims[1] >= 0 || t.dims[2] >= 0,
                    _ => by_name,
                },
                Sort::Voxels => match (a.load, b.load) {
                    (Load::Ready(s), Load::Ready(t)) => s.voxels <= i64::MAX && t.voxels <= i64::MAX
                        ==> s.voxels <= t.voxels && (s.voxels == t.voxels ==> by_name),
                    (Load::Ready(s), _) => s.voxels <= i64::MAX ==> s.voxels == 0,
                    (_, Load::Ready(t)) => true,
                    _ => by_name,
                },
                Sort::Modified => {
                    let time = |l: Load| match l {
                        Load::Ready(s) => s.modified,
                        _ => None,
                    };
                    match (time(a.load), time(b.load)) {
                        (Some(m), Some(n)) => m >= 0 && n >= 0 ==> m <= n && (m == n ==> by_name),
                        (Some(m), None) => m <= 0,
                        (None, Some(_)) => true,
                        (None, None) => by_name,
                    }
                },
            }
        }),
{
    lemma_shown(lib, now);
    let list = shown(lib, now);
    let n = list.len() as int;
    let (u, v) = if lib.descending {
        assert(list.reverse()[n - 1 - j] == list[j] && list.reverse()[n - 1 - i] == list[i]);
        (list[j], list[i])
    } else {
        (list[i], list[j])
    };
    assert(order::lex_le(lib.key(u), lib.key(v)));
    let (a, b) = (lib.assets@[u as int], lib.assets@[v as int]);
    let (f, g) = (lib.key(u), lib.key(v));
    let (s, t) = (name_key(a.name@), name_key(b.name@));
    let (p, q) = (paths::path_key(a.path@), paths::path_key(b.path@));
    assert(f.subrange(1, f.len() as int) =~= s + seq![-1int] + p);
    assert(g.subrange(1, g.len() as int) =~= t + seq![-1int] + q);
    assert(f[0] == sort_rank(a, lib.sort) && g[0] == sort_rank(b, lib.sort));
    names::lemma_natural_key_nonnegative(vstd::utf8::encode_utf8(a.name@));
    names::lemma_natural_key_nonnegative(vstd::utf8::encode_utf8(b.name@));
    order::lemma_lex_pair(s, t, p, q, -1);
    order::lemma_lex_reflexive(s);
}

/// What is in scope when the library is somewhere else.
pub open spec fn scope_at(lib: Library, scope: Scope) -> Seq<usize> {
    scope_of(Library { scope, ..lib })
}

/// A folder lists the files that lie in it and what each of the folders in it
/// lists, and nothing else; a collection lists its members, each as often as it
/// holds them.
pub proof fn lemma_a_folder_lists_what_is_under_it(lib: Library, top: usize, x: usize)
    requires
        lib.wf(),
        top < lib.folders@.len(),
    ensures
        scope_at(lib, Scope::Folder(top)).contains(x) <==> x < lib.assets@.len() && (
        lib.assets@[x as int].folder == top || exists|child: usize|
            {
                &&& child < lib.folders@.len()
                &&& lib.folders@[child as int].parent == Some(top)
                &&& #[trigger] scope_at(lib, Scope::Folder(child)).contains(x)
            }),
        scope_at(lib, Scope::Folder(top)).no_duplicates(),
        forall|c: usize|
            c < lib.collections@.len() ==> #[trigger] scope_at(lib, Scope::Collection(c))
                == lib.collections@[c as int].members@,
{
    let n = lib.assets@.len() as int;
    assert(lib.assets.len() == n);
    assert forall|f: usize| #[trigger]
        scope_at(lib, Scope::Folder(f)).contains(x) == (x < n && library::beneath(
            lib.folders@,
            lib.assets@[x as int].folder as int,
            f as int,
        )) by {
        lemma_under_holds(Library { scope: Scope::Folder(f), ..lib }, f, n, x);
    }
    lemma_under_holds(Library { scope: Scope::Folder(top), ..lib }, top, n, x);
    if x < n {
        let f = lib.assets@[x as int].folder as int;
        assert(f < lib.folders@.len());
        lemma_beneath_child(lib.folders@, f, top as int);
        if library::beneath(lib.folders@, f, top as int) && f != top {
            let c = choose|c: int|
                top < c <= f && (#[trigger] lib.folders@[c]).parent == Some(top)
                    && library::beneath(lib.folders@, f, c);
            assert(scope_at(lib, Scope::Folder(c as usize)).contains(x));
        }
        if exists|child: usize|
            {
                &&& child < lib.folders@.len()
                &&& lib.folders@[child as int].parent == Some(top)
                &&& #[trigger] scope_at(lib, Scope::Folder(child)).contains(x)
            } {
            let child = choose|child: usize|
                {
                    &&& child < lib.folders@.len()
                    &&& lib.folders@[child as int].parent == Some(top)
                    &&& #[trigger] scope_at(lib, Scope::Folder(child)).contains(x)
                };
            lemma_beneath_parent(lib.folders@, f, child as int, top);
        }
    }
}

proof fn lemma_under_holds(lib: Library, top: usize, n: int, x: usize)
    requires
        0 <= n <= lib.assets@.len() <= usize::MAX,
    ensures
        assets_under(lib, top, n).contains(x) <==> x < n && library::beneath(
            lib.folders@,
            lib.assets@[x as int].folder as int,
            top as int,
        ),
        assets_under(lib, top, n).no_duplicates(),
        forall|k: int|
            0 <= k < assets_under(lib, top, n).len() ==> (#[trigger] assets_under(lib, top, n)[k])
                < n,
    decreases n,
{
    if n > 0 {
        lemma_under_holds(lib, top, n - 1, x);
        let (before, all) = (assets_under(lib, top, n - 1), assets_under(lib, top, n));
        if before.contains(x) {
            let k = choose|k: int| 0 <= k < before.len() && before[k] == x;
            assert(all[k] == x);
        }
        if all.contains(x) {
            let k = choose|k: int| 0 <= k < all.len() && all[k] == x;
            if k < before.len() {
                assert(before[k] == x);
            }
        }
        if library::beneath(lib.folders@, lib.assets@[n - 1].folder as int, top as int) {
            assert(all[before.len() as int] == (n - 1) as usize);
        }
        assert forall|k: int| 0 <= k < all.len() implies (#[trigger] all[k]) < n by {
            if k < before.len() {
                assert(all[k] == before[k]);
            }
        }
    }
}

proof fn lemma_beneath_child(folders: Seq<library::Folder>, i: int, top: int)
    requires
        library::is_tree(folders),
        0 <= i < folders.len(),
        0 <= top < folders.len(),
    ensures
        library::beneath(folders, i, top) && i != top ==> exists|c: int|
            top < c <= i && (#[trigger] folders[c]).parent == Some(top as usize)
                && library::beneath(folders, i, c),
    decreases i,
{
    if library::beneath(folders, i, top) && i != top {
        let p = folders[i].parent->0 as int;
        lemma_beneath_child(folders, p, top);
        if p == top {
            assert(library::beneath(folders, i, i));
            assert(folders[i].parent == Some(top as usize));
        } else {
            let c = choose|c: int|
                top < c <= p && (#[trigger] folders[c]).parent == Some(top as usize)
                    && library::beneath(folders, p, c);
            assert(library::beneath(folders, i, c));
        }
    }
}

proof fn lemma_beneath_parent(folders: Seq<library::Folder>, i: int, c: int, top: usize)
    requires
        library::is_tree(folders),
        0 <= i < folders.len(),
        0 <= c < folders.len(),
        folders[c].parent == Some(top),
        library::beneath(folders, i, c),
    ensures
        library::beneath(folders, i, top as int),
    decreases i,
{
    if i == c {
        assert(1 <= c);
        assert(folders[c].parent->0 < c);
        assert(library::beneath(folders, top as int, top as int));
    } else {
        lemma_beneath_parent(folders, folders[i].parent->0 as int, c, top);
    }
}

/// A find without a slash looks for its text anywhere in the name, one with a
/// slash in the directory and the name behind it, both without regard to case;
/// an empty find leaves everything.
pub proof fn lemma_a_find_looks_for_its_text(lib: Library, none: Facets, now: i64, x: usize)
    requires
        none.none(),
    ensures
        ({
            let wanted = text::lowercase(lib.find@);
            let a = lib.assets@[x as int];
            let name = text::lowercase(a.name@);
            let at_home = text::lowercase(directory_of(lib, x as int) + seq!['/'] + a.name@);
            let listed = shown(faceted(lib, none), now).contains(x);
            let in_scope = scope_of(lib).contains(x);
            &&& lib.find@.len() == 0 ==> listed == in_scope
            &&& lib.find@.len() > 0 && !wanted.contains('/') ==> (listed <==> in_scope && exists|
                k: int,
            |
                0 <= k <= name.len() - wanted.len() && #[trigger] name.subrange(
                    k,
                    k + wanted.len(),
                ) == wanted)
            &&& lib.find@.len() > 0 && wanted.contains('/') ==> (listed <==> in_scope && exists|
                k: int,
            |
                0 <= k <= at_home.len() - wanted.len() && #[trigger] at_home.subrange(
                    k,
                    k + wanted.len(),
                ) == wanted)
        }),
{
    lemma_shown_faceted(lib, none, now, x);
    let wanted = text::lowercase(lib.find@);
    let hay = text::lowercase(haystack_of(lib, x as int, wanted));
    lemma_holds(hay, wanted);
}

proof fn lemma_holds(s: Seq<char>, part: Seq<char>)
    ensures
        text::holds(s, part) <==> exists|k: int|
            0 <= k <= s.len() - part.len() && #[trigger] s.subrange(k, k + part.len()) == part,
{
    if text::holds(s, part) {
        let k = choose|k: int| text::stands_at(s, part, k);
        assert(s.subrange(k, k + part.len()) =~= part);
    }
    if exists|k: int|
        0 <= k <= s.len() - part.len() && #[trigger] s.subrange(k, k + part.len()) == part {
        let k = choose|k: int|
            0 <= k <= s.len() - part.len() && #[trigger] s.subrange(k, k + part.len()) == part;
        assert(text::stands_at(s, part, k));
    }
}

/// What is still being read of a list is what the scan has not come to: none of
/// it once every file was read or failed, all of it before the first was.
pub proof fn lemma_what_is_still_being_read(lib: Library, list: Seq<usize>)
    ensures
        waiting(lib, list) <= list.len(),
        waiting(lib, list) == 0 <==> forall|i: int|
            0 <= i < list.len() ==> !((#[trigger] lib.assets@[list[i] as int]).load is Pending),
        waiting(lib, list) == list.len() <==> forall|i: int|
            0 <= i < list.len() ==> (#[trigger] lib.assets@[list[i] as int]).load is Pending,
    decreases list.len(),
{
    if list.len() > 0 {
        let rest = list.drop_last();
        lemma_what_is_still_being_read(lib, rest);
        let n = list.len() - 1;
        if waiting(lib, list) == 0 {
            assert forall|i: int| 0 <= i < list.len() implies !((
            #[trigger] lib.assets@[list[i] as int]).load is Pending) by {
                if i < n {
                    assert(rest[i] == list[i]);
                    assert(!(lib.assets@[rest[i] as int].load is Pending));
                }
            }
        } else if forall|i: int|
            0 <= i < list.len() ==> !((#[trigger] lib.assets@[list[i] as int]).load is Pending) {
            assert(!(lib.assets@[list[n] as int].load is Pending));
            assert forall|i: int| 0 <= i < rest.len() implies !((
            #[trigger] lib.assets@[rest[i] as int]).load is Pending) by {
                assert(rest[i] == list[i]);
                assert(!(lib.assets@[list[i] as int].load is Pending));
            }
        }
        if waiting(lib, list) == list.len() {
            assert forall|i: int| 0 <= i < list.len() implies (
            #[trigger] lib.assets@[list[i] as int]).load is Pending by {
                if i < n {
                    assert(rest[i] == list[i]);
                    assert(lib.assets@[rest[i] as int].load is Pending);
                }
            }
        } else if forall|i: int|
            0 <= i < list.len() ==> (#[trigger] lib.assets@[list[i] as int]).load is Pending {
            assert(lib.assets@[list[n] as int].load is Pending);
            assert forall|i: int| 0 <= i < rest.len() implies (
            #[trigger] lib.assets@[rest[i] as int]).load is Pending by {
                assert(rest[i] == list[i]);
                assert(lib.assets@[list[i] as int].load is Pending);
            }
        }
    }
}

} // verus!
