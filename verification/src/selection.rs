//! What is selected, and the hand-made sets that assets are put in.

use vstd::prelude::*;

use crate::browse;
use crate::library::{Collection, Library, Scope};
use crate::names;
use crate::order;
use crate::order::Keyed;
use crate::rows;
use crate::text;
use vstd::view::View as _;

verus! {

/// A list with the items of another that it lacks added at its end.
pub open spec fn with_missing(list: Seq<usize>, more: Seq<usize>) -> Seq<usize>
    decreases more.len(),
{
    if more.len() == 0 {
        list
    } else {
        let before = with_missing(list, more.drop_last());
        if before.contains(more.last()) {
            before
        } else {
            before.push(more.last())
        }
    }
}

/// A list without an item, wherever it stands.
pub open spec fn without(list: Seq<usize>, x: usize) -> Seq<usize>
    decreases list.len(),
{
    if list.len() == 0 {
        list
    } else {
        let before = without(list.drop_last(), x);
        if list.last() == x {
            before
        } else {
            before.push(list.last())
        }
    }
}

/// The stretch of a list between two of its items, both of them in it.
pub open spec fn stretch(list: Seq<usize>, a: int, b: int) -> Seq<usize> {
    if a <= b {
        list.subrange(a, b + 1)
    } else {
        list.subrange(b, a + 1)
    }
}

/// The selection and its anchor after a click on an asset. With shift, what
/// lies between the anchor and the asset in the order on screen is selected,
/// the asset last; with control the asset is turned on or off by itself.
pub open spec fn clicked(
    selection: Seq<usize>,
    anchor: Option<usize>,
    shown: Seq<usize>,
    asset: usize,
    ctrl: bool,
    shift: bool,
) -> (Seq<usize>, Option<usize>) {
    if shift && anchor is Some {
        match (shown.index_of_first(anchor->0), shown.index_of_first(asset)) {
            (Some(a), Some(b)) => {
                let kept = if ctrl {
                    selection
                } else {
                    Seq::empty()
                };
                let all = with_missing(kept, stretch(shown, a, b));
                (without(all, asset).push(asset), anchor)
            },
            _ => (selection, anchor),
        }
    } else if ctrl {
        if selection.contains(asset) {
            (selection.remove_value(asset), Some(asset))
        } else {
            (selection.push(asset), Some(asset))
        }
    } else {
        (seq![asset], Some(asset))
    }
}

proof fn lemma_with_missing(list: Seq<usize>, more: Seq<usize>)
    ensures
        list.no_duplicates() ==> with_missing(list, more).no_duplicates(),
        forall|x: usize| #[trigger]
            with_missing(list, more).contains(x) <==> list.contains(x) || more.contains(x),
        list.len() <= with_missing(list, more).len() <= list.len() + more.len(),
    decreases more.len(),
{
    if more.len() > 0 {
        let rest = more.drop_last();
        let last = more.last();
        lemma_with_missing(list, rest);
        let before = with_missing(list, rest);
        let out = with_missing(list, more);
        assert forall|x: usize| #[trigger] out.contains(x) <==> list.contains(x) || more.contains(x)
            by {
            if out.contains(x) {
                let k = choose|k: int| 0 <= k < out.len() && out[k] == x;
                if k < before.len() {
                    assert(before[k] == x);
                    assert(before.contains(x));
                    if rest.contains(x) {
                        let j = choose|j: int| 0 <= j < rest.len() && rest[j] == x;
                        assert(more[j] == x);
                    }
                } else {
                    assert(more[more.len() - 1] == x);
                }
            }
            if list.contains(x) || more.contains(x) {
                if !before.contains(x) {
                    let j = choose|j: int| 0 <= j < more.len() && more[j] == x;
                    if j < rest.len() {
                        assert(rest[j] == x);
                        assert(rest.contains(x));
                    }
                    assert(x == last);
                    assert(out[out.len() - 1] == x);
                } else {
                    let j = choose|j: int| 0 <= j < before.len() && before[j] == x;
                    assert(out[j] == x);
                }
            }
        }
    } else {
        assert(forall|x: usize| !more.contains(x));
    }
}

proof fn lemma_without(list: Seq<usize>, x: usize)
    ensures
        list.no_duplicates() ==> without(list, x).no_duplicates(),
        forall|y: usize| #[trigger]
            without(list, x).contains(y) <==> list.contains(y) && y != x,
        without(list, x).len() <= list.len(),
    decreases list.len(),
{
    if list.len() > 0 {
        let rest = list.drop_last();
        lemma_without(rest, x);
        let before = without(rest, x);
        let out = without(list, x);
        assert forall|y: usize| #[trigger] out.contains(y) <==> list.contains(y) && y != x by {
            if out.contains(y) {
                let k = choose|k: int| 0 <= k < out.len() && out[k] == y;
                if k < before.len() {
                    assert(before[k] == y);
                    assert(before.contains(y));
                    let j = choose|j: int| 0 <= j < rest.len() && rest[j] == y;
                    assert(list[j] == y);
                } else {
                    assert(list[list.len() - 1] == y);
                }
            }
            if list.contains(y) && y != x {
                let j = choose|j: int| 0 <= j < list.len() && list[j] == y;
                if j < rest.len() {
                    assert(rest[j] == y);
                    assert(rest.contains(y));
                    assert(before.contains(y));
                    let k = choose|k: int| 0 <= k < before.len() && before[k] == y;
                    assert(out[k] == y);
                } else {
                    assert(out[out.len() - 1] == y);
                }
            }
        }
        if list.no_duplicates() {
            assert(rest.no_duplicates());
            if list.last() != x {
                assert forall|k: int| 0 <= k < before.len() implies before[k] != list.last() by {
                    assert(before.contains(before[k]));
                    if before[k] == list.last() {
                        let j = choose|j: int| 0 <= j < rest.len() && rest[j] == list.last();
                        assert(list[j] == list[list.len() - 1]);
                    }
                }
            }
        }
    }
}

/// Nothing is ever selected twice, however it is clicked.
pub proof fn lemma_nothing_is_selected_twice(
    selection: Seq<usize>,
    anchor: Option<usize>,
    shown: Seq<usize>,
    asset: usize,
    ctrl: bool,
    shift: bool,
)
    requires
        selection.no_duplicates(),
    ensures
        clicked(selection, anchor, shown, asset, ctrl, shift).0.no_duplicates(),
{
    if shift && anchor is Some {
        match (shown.index_of_first(anchor->0), shown.index_of_first(asset)) {
            (Some(a), Some(b)) => {
                let kept = if ctrl {
                    selection
                } else {
                    Seq::empty()
                };
                let all = with_missing(kept, stretch(shown, a, b));
                lemma_with_missing(kept, stretch(shown, a, b));
                lemma_without(all, asset);
                let rest = without(all, asset);
                assert(!rest.contains(asset));
                assert forall|k: int| 0 <= k < rest.len() implies rest[k] != asset by {
                    assert(rest.contains(rest[k]));
                }
            },
            _ => {},
        }
    } else if ctrl {
        selection.index_of_first_ensures(asset);
    }
}

/// The inspector follows the click: an asset that is selected by a click is
/// the last one selected.
pub proof fn lemma_the_inspector_follows_the_click(
    selection: Seq<usize>,
    anchor: Option<usize>,
    shown: Seq<usize>,
    asset: usize,
    ctrl: bool,
    shift: bool,
)
    requires
        shift && anchor is Some ==> shown.contains(anchor->0) && shown.contains(asset),
        ctrl && !(shift && anchor is Some) ==> !selection.contains(asset),
    ensures
        clicked(selection, anchor, shown, asset, ctrl, shift).0.len() > 0,
        clicked(selection, anchor, shown, asset, ctrl, shift).0.last() == asset,
{
    if shift && anchor is Some {
        shown.index_of_first_ensures(anchor->0);
        shown.index_of_first_ensures(asset);
    }
}

/// A shift click without control selects exactly what lies between the anchor
/// and the asset.
pub proof fn lemma_shift_selects_the_stretch(
    selection: Seq<usize>,
    anchor: usize,
    shown: Seq<usize>,
    asset: usize,
    x: usize,
)
    requires
        shown.contains(anchor),
        shown.contains(asset),
    ensures
        clicked(selection, Some(anchor), shown, asset, false, true).0.contains(x) <==> stretch(
            shown,
            shown.index_of_first(anchor)->0,
            shown.index_of_first(asset)->0,
        ).contains(x),
{
    shown.index_of_first_ensures(anchor);
    shown.index_of_first_ensures(asset);
    let (a, b) = (shown.index_of_first(anchor)->0, shown.index_of_first(asset)->0);
    let between = stretch(shown, a, b);
    let all = with_missing(Seq::empty(), between);
    lemma_with_missing(Seq::empty(), between);
    lemma_without(all, asset);
    let rest = without(all, asset);
    let out = rest.push(asset);
    assert(between.contains(asset)) by {
        if a <= b {
            assert(between[b - a] == asset);
        } else {
            assert(between[0] == asset);
        }
    }
    if out.contains(x) {
        let k = choose|k: int| 0 <= k < out.len() && out[k] == x;
        if k < rest.len() {
            assert(rest[k] == x);
            assert(rest.contains(x));
            assert(all.contains(x));
        }
    }
    if between.contains(x) {
        assert(all.contains(x));
        if x != asset {
            assert(rest.contains(x));
            let k = choose|k: int| 0 <= k < rest.len() && rest[k] == x;
            assert(out[k] == x);
        } else {
            assert(out[rest.len() as int] == x);
        }
    }
}

pub(crate) fn position(list: &Vec<usize>, x: usize) -> (r: Option<usize>)
    ensures
        match r {
            Some(i) => i < list@.len() && list@.index_of_first(x) == Some(i as int),
            None => list@.index_of_first(x) is None,
        },
{
    proof {
        list@.index_of_first_ensures(x);
    }
    let mut i: usize = 0;
    while i < list.len()
        invariant
            i <= list@.len(),
            forall|k: int| 0 <= k < i ==> #[trigger] list@[k] != x,
        decreases list@.len() - i,
    {
        if list[i] == x {
            proof {
                list@.index_of_first_ensures(x);
                assert(list@[i as int] == x);
                let j = list@.index_of_first(x)->0;
                assert(list@[j] == x);
            }
            return Some(i);
        }
        i += 1;
    }
    None
}

fn add_missing(list: &mut Vec<usize>, more: &[usize], from: usize, to: usize)
    requires
        from <= to <= more@.len(),
    ensures
        final(list)@ == with_missing(old(list)@, more@.subrange(from as int, to as int)),
{
    let ghost start = list@;
    let mut i: usize = from;
    while i < to
        invariant
            from <= i <= to <= more@.len(),
            list@ == with_missing(start, more@.subrange(from as int, i as int)),
        decreases to - i,
    {
        let ghost part = more@.subrange(from as int, i as int + 1);
        assert(part.drop_last() =~= more@.subrange(from as int, i as int));
        if !rows::is_in(list, more[i]) {
            list.push(more[i]);
        }
        i += 1;
    }
}

fn drop_item(list: &Vec<usize>, x: usize) -> (r: Vec<usize>)
    ensures
        r@ == without(list@, x),
{
    let mut out: Vec<usize> = Vec::new();
    let mut i: usize = 0;
    assert(list@.subrange(0, 0) =~= Seq::empty());
    while i < list.len()
        invariant
            i <= list@.len(),
            out@ == without(list@.subrange(0, i as int), x),
        decreases list@.len() - i,
    {
        assert(list@.subrange(0, i as int + 1).drop_last() =~= list@.subrange(0, i as int));
        if list[i] != x {
            out.push(list[i]);
        }
        i += 1;
    }
    assert(list@.subrange(0, i as int) =~= list@);
    out
}

impl Library {
    /// The asset the inspector describes.
    pub fn focused(&self) -> (r: Option<usize>)
        ensures
            r == (if self.selection@.len() == 0 {
                None
            } else {
                Some(self.selection@.last())
            }),
    {
        let n: usize = self.selection.len();
        if n == 0 {
            None
        } else {
            Some(self.selection[n - 1])
        }
    }

    /// The folder worth naming beside an asset, or `None` when everything on
    /// screen shares one.
    ///
    /// Packs name a whole family of sprites `0.vox` .. `6.vox` inside a folder
    /// called `crate`, so browsing a subtree without this shows a grid of
    /// cells labelled `0`, `1`, `1`, `1`.
    pub fn folder_hint(&self, asset: usize) -> (r: Option<&str>)
        requires
            asset < self.assets@.len(),
            self.assets@[asset as int].folder < self.folders@.len(),
        ensures
            ({
                let folder = self.assets@[asset as int].folder;
                match r {
                    None => self.scope == Scope::Folder(folder),
                    Some(name) => self.scope != Scope::Folder(folder) && name@
                        == self.folders@[folder as int].name@,
                }
            }),
    {
        let folder: usize = self.assets[asset].folder;
        match self.scope {
            Scope::Folder(scope) => if scope == folder {
                None
            } else {
                Some(self.folders[folder].name.as_str())
            },
            Scope::Collection(_) => Some(self.folders[folder].name.as_str()),
        }
    }

    pub fn is_selected(&self, asset: usize) -> (r: bool)
        ensures
            r == self.selection@.contains(asset),
    {
        rows::is_in(&self.selection, asset)
    }

    /// Click handling for one asset, with the usual modifier conventions.
    pub fn click(&mut self, asset: usize, ctrl: bool, shift: bool, now: i64)
        requires
            old(self).wf(),
        ensures
            (final(self).selection@, final(self).anchor) == clicked(
                old(self).selection@,
                old(self).anchor,
                browse::shown(*old(self), now),
                asset,
                ctrl,
                shift,
            ),
            *final(self) == (Library {
                selection: final(self).selection,
                anchor: final(self).anchor,
                ..*old(self)
            }),
            final(self).wf(),
    {
        if shift {
            if let Some(anchor) = self.anchor {
                let order = self.filtered(now);
                let at = position(&order, anchor);
                let to = position(&order, asset);
                if let Some(a) = at {
                    if let Some(b) = to {
                        let (lo, hi): (usize, usize) = if a <= b {
                            (a, b)
                        } else {
                            (b, a)
                        };
                        if !ctrl {
                            self.selection.clear();
                        }
                        let count: usize = order.len();
                        assert(hi < count);
                        add_missing(&mut self.selection, order.as_slice(), lo, hi + 1);
                        // Keep the clicked asset last so the inspector follows the click.
                        self.selection = drop_item(&self.selection, asset);
                        self.selection.push(asset);
                    }
                }
                return;
            }
        }
        if ctrl {
            proof {
                self.selection@.index_of_first_ensures(asset);
            }
            match position(&self.selection, asset) {
                Some(i) => {
                    self.selection.remove(i);
                },
                None => self.selection.push(asset),
            }
        } else {
            self.selection.clear();
            self.selection.push(asset);
            assert(self.selection@ =~= seq![asset]);
        }
        self.anchor = Some(asset);
    }

    pub fn select_all(&mut self, now: i64)
        requires
            old(self).wf(),
        ensures
            final(self).selection@ == browse::shown(*old(self), now),
            final(self).anchor == (if final(self).selection@.len() == 0 {
                None
            } else {
                Some(final(self).selection@[0])
            }),
            *final(self) == (Library {
                selection: final(self).selection,
                anchor: final(self).anchor,
                ..*old(self)
            }),
            final(self).wf(),
    {
        self.selection = self.filtered(now);
        self.anchor = if self.selection.len() == 0 {
            None
        } else {
            Some(self.selection[0])
        };
    }

    pub fn clear_filters(&mut self)
        ensures
            final(self).facets.none(),
            final(self).find@.len() == 0,
            *final(self) == (Library {
                facets: final(self).facets,
                find: final(self).find,
                cache: None,
                ..*old(self)
            }),
            old(self).wf() ==> final(self).wf(),
    {
        self.facets.clear();
        self.find = String::new();
        self.cache = None;
    }

    pub fn new_collection(&mut self, name: String) -> (r: usize)
        ensures
            r == old(self).collections@.len(),
            final(self).collections@.len() == r + 1,
            final(self).collections@.drop_last() == old(self).collections@,
            final(self).collections@.last().name == name,
            final(self).collections@.last().members@.len() == 0,
            *final(self) == (Library { collections: final(self).collections, ..*old(self) }),
            old(self).wf() ==> final(self).wf(),
    {
        let r: usize = self.collections.len();
        self.collections.push(Collection { name, members: Vec::new() });
        proof {
            assert(self.collections@.drop_last() =~= old(self).collections@);
            if old(self).wf() {
                let (was, now) = (old(self).collections@, self.collections@);
                assert forall|c: int, k: int|
                    #![trigger now[c].members@[k]]
                    0 <= c < now.len() && 0 <= k < now[c].members@.len() implies now[c].members@[k]
                    < self.assets@.len() by {
                    assert(now[c] == was[c]);
                    assert(was[c].members@[k] < self.assets@.len());
                }
            }
        }
        r
    }

    /// Add assets to a collection, skipping ones already in it.
    pub fn add_to_collection(&mut self, collection: usize, assets: &[usize]) -> (r: usize)
        ensures
            ({
                let (was, now) = (old(self).collections@, final(self).collections@);
                if collection < was.len() {
                    let c = collection as int;
                    &&& now.len() == was.len()
                    &&& forall|i: int| 0 <= i < now.len() && i != c ==> #[trigger] now[i] == was[i]
                    &&& now[c].name == was[c].name
                    &&& now[c].members@ == with_missing(was[c].members@, assets@)
                    &&& r == now[c].members@.len() - was[c].members@.len()
                    &&& *final(self) == (Library {
                        collections: final(self).collections,
                        cache: None,
                        ..*old(self)
                    })
                } else {
                    r == 0 && *final(self) == *old(self)
                }
            }),
            old(self).wf() && browse::are_assets(*old(self), assets@) ==> final(self).wf(),
    {
        if collection >= self.collections.len() {
            return 0;
        }
        let ghost was = self.collections@;
        let ghost c = collection as int;
        let before: usize = self.collections[collection].members.len();
        let mut members = browse::copy_list(&self.collections[collection].members);
        add_missing(&mut members, assets, 0, assets.len());
        proof {
            assert(assets@.subrange(0, assets@.len() as int) =~= assets@);
            lemma_with_missing(was[c].members@, assets@);
        }
        let after: usize = members.len();
        let ghost list = members@;
        self.collections[collection].members = members;
        self.cache = None;
        proof {
            if old(self).wf() && browse::are_assets(*old(self), assets@) {
                let now = self.collections@;
                assert forall|i: int, k: int|
                    #![trigger now[i].members@[k]]
                    0 <= i < now.len() && 0 <= k < now[i].members@.len() implies now[i].members@[k]
                    < self.assets@.len() by {
                    if i == c {
                        let x = now[c].members@[k];
                        assert(list.contains(x));
                        if was[c].members@.contains(x) {
                            let j = choose|j: int|
                                0 <= j < was[c].members@.len() && was[c].members@[j] == x;
                            assert(was[c].members@[j] < self.assets@.len());
                        } else {
                            let j = choose|j: int| 0 <= j < assets@.len() && assets@[j] == x;
                            assert(assets@[j] < self.assets@.len());
                        }
                    } else {
                        assert(now[i] == was[i]);
                        assert(was[i].members@[k] < self.assets@.len());
                    }
                }
            }
        }
        after - before
    }

    pub fn remove_from_collection(&mut self, collection: usize, asset: usize)
        ensures
            ({
                let (was, now) = (old(self).collections@, final(self).collections@);
                if collection < was.len() {
                    let c = collection as int;
                    &&& now.len() == was.len()
                    &&& forall|i: int| 0 <= i < now.len() && i != c ==> #[trigger] now[i] == was[i]
                    &&& now[c].name == was[c].name
                    &&& now[c].members@ == without(was[c].members@, asset)
                    &&& *final(self) == (Library {
                        collections: final(self).collections,
                        cache: None,
                        ..*old(self)
                    })
                } else {
                    *final(self) == *old(self)
                }
            }),
            old(self).wf() ==> final(self).wf(),
    {
        if collection >= self.collections.len() {
            return;
        }
        let ghost was = self.collections@;
        let ghost c = collection as int;
        let members = drop_item(&self.collections[collection].members, asset);
        let ghost list = members@;
        self.collections[collection].members = members;
        self.cache = None;
        proof {
            if old(self).wf() {
                lemma_without(was[c].members@, asset);
                let now = self.collections@;
                assert forall|i: int, k: int|
                    #![trigger now[i].members@[k]]
                    0 <= i < now.len() && 0 <= k < now[i].members@.len() implies now[i].members@[k]
                    < self.assets@.len() by {
                    if i == c {
                        let x = now[c].members@[k];
                        assert(list.contains(x));
                        let j = choose|j: int|
                            0 <= j < was[c].members@.len() && was[c].members@[j] == x;
                        assert(was[c].members@[j] < self.assets@.len());
                    } else {
                        assert(now[i] == was[i]);
                        assert(was[i].members@[k] < self.assets@.len());
                    }
                }
            }
        }
    }
}

// ---- what is known of an asset ----------------------------------------------
/// Assets by name alone.
pub struct ByName<'a> {
    pub lib: &'a Library,
}

impl Keyed for ByName<'_> {
    open spec fn valid(&self, i: usize) -> bool {
        i < self.lib.assets@.len()
    }

    open spec fn key(&self, i: usize) -> Seq<int> {
        browse::name_key(self.lib.assets@[i as int].name@)
    }

    fn le(&self, a: usize, b: usize) -> (r: bool) {
        let c: i8 = names::compare_names(
            self.lib.assets[a].name.as_str(),
            self.lib.assets[b].name.as_str(),
        );
        proof {
            order::lemma_lex_reflexive(self.key(a));
        }
        c <= 0
    }
}

/// Each index below a number.
pub open spec fn upto(n: nat) -> Seq<usize> {
    Seq::new(n, |i: int| i as usize)
}

/// The variants of an asset in its folder, itself among them.
pub open spec fn family_members(lib: Library, asset: usize) -> Seq<usize> {
    rows::kin_of(lib, upto(lib.assets@.len()), asset)
}

/// The names of the first `n` collections that hold an asset.
pub open spec fn holding(lib: Library, asset: usize, n: int) -> Seq<Seq<char>>
    decreases n,
{
    if n <= 0 {
        Seq::empty()
    } else {
        let before = holding(lib, asset, n - 1);
        if lib.collections@[n - 1].members@.contains(asset) {
            before.push(lib.collections@[n - 1].name@)
        } else {
            before
        }
    }
}

/// How many of the first `n` assets would not load.
pub open spec fn broken(lib: Library, n: int) -> nat
    decreases n,
{
    if n <= 0 {
        0
    } else {
        broken(lib, n - 1) + if lib.assets@[n - 1].load is Failed {
            1nat
        } else {
            0nat
        }
    }
}

impl Library {
    /// Names of the collections holding `asset`.
    pub fn collections_of(&self, asset: usize) -> (r: Vec<&str>)
        ensures
            text::labels(r@) == holding(*self, asset, self.collections@.len() as int),
    {
        let mut out: Vec<&str> = Vec::new();
        let mut i: usize = 0;
        assert(text::labels(out@) =~= Seq::empty());
        while i < self.collections.len()
            invariant
                i <= self.collections@.len(),
                text::labels(out@) == holding(*self, asset, i as int),
            decreases self.collections@.len() - i,
        {
            if rows::is_in(&self.collections[i].members, asset) {
                let ghost had = out@;
                out.push(self.collections[i].name.as_str());
                assert(text::labels(out@) =~= text::labels(had).push(self.collections@[i as int].name@));
            }
            i += 1;
        }
        out
    }

    /// The whole of `asset`'s variant family, itself among them, in name order.
    pub fn variants_of(&self, asset: usize) -> (r: Vec<usize>)
        requires
            asset < self.assets@.len(),
        ensures
            order::is_sorted_from((ByName { lib: self }), r@, family_members(*self, asset)),
    {
        let mut all: Vec<usize> = Vec::new();
        let mut i: usize = 0;
        while i < self.assets.len()
            invariant
                i <= self.assets@.len(),
                all@ == upto(i as nat),
            decreases self.assets@.len() - i,
        {
            all.push(i);
            i += 1;
            assert(all@ =~= upto(i as nat));
        }
        let members = self.members(&all, asset);
        let by = ByName { lib: self };
        proof {
            rows::lemma_kin(*self, all@, asset);
            assert forall|k: int| 0 <= k < members@.len() implies by.valid(
                #[trigger] members@[k],
            ) by {
                assert(members@.contains(members@[k]));
                let j = choose|j: int| 0 <= j < all@.len() && all@[j] == members@[k];
            }
            assert(members@.subrange(0, members@.len() as int) =~= members@);
        }
        order::sort(&by, &members, 0, members.len())
    }

    /// Other members of `asset`'s variant family, in name order.
    pub fn family_of(&self, asset: usize) -> (r: Vec<usize>)
        requires
            asset < self.assets@.len(),
        ensures
            exists|all: Seq<usize>|
                r@ == without(all, asset) && #[trigger] order::is_sorted_from(
                    (ByName { lib: self }),
                    all,
                    family_members(*self, asset),
                ),
    {
        let all = self.variants_of(asset);
        drop_item(&all, asset)
    }

    pub fn failures(&self) -> (r: usize)
        ensures
            r == broken(*self, self.assets@.len() as int),
    {
        let mut n: usize = 0;
        let mut i: usize = 0;
        while i < self.assets.len()
            invariant
                n <= i <= self.assets@.len(),
                n == broken(*self, i as int),
            decreases self.assets@.len() - i,
        {
            if self.assets[i].failed() {
                n += 1;
            }
            i += 1;
        }
        n
    }
}

/// A collection holds nothing twice, and holds what it held and what was added.
pub proof fn lemma_adding_keeps_each_once(members: Seq<usize>, assets: Seq<usize>, x: usize)
    requires
        members.no_duplicates(),
    ensures
        with_missing(members, assets).no_duplicates(),
        with_missing(members, assets).contains(x) <==> members.contains(x) || assets.contains(x),
{
    lemma_with_missing(members, assets);
}

/// Adding what a collection holds adds nothing.
pub proof fn lemma_adding_again_adds_nothing(members: Seq<usize>, assets: Seq<usize>)
    requires
        forall|i: int| 0 <= i < assets.len() ==> members.contains(#[trigger] assets[i]),
    ensures
        with_missing(members, assets) == members,
    decreases assets.len(),
{
    if assets.len() > 0 {
        let rest = assets.drop_last();
        assert forall|i: int| 0 <= i < rest.len() implies members.contains(#[trigger] rest[i]) by {
            assert(rest[i] == assets[i]);
        }
        lemma_adding_again_adds_nothing(members, rest);
        assert(members.contains(assets[assets.len() - 1]));
    }
}

/// What is taken out of a collection is not in it any more, and the rest is.
pub proof fn lemma_removing_takes_one_out(members: Seq<usize>, asset: usize, x: usize)
    ensures
        without(members, asset).contains(x) <==> members.contains(x) && x != asset,
        members.no_duplicates() ==> without(members, asset).no_duplicates(),
{
    lemma_without(members, asset);
}

// ---- what a click does ------------------------------------------------------
/// A click alone selects the asset and nothing else. With control it turns that
/// asset on or off and leaves the others. Either way the next stretch starts at
/// the asset.
pub proof fn lemma_a_click_turns_one(
    selection: Seq<usize>,
    anchor: Option<usize>,
    shown: Seq<usize>,
    asset: usize,
    x: usize,
)
    requires
        selection.no_duplicates(),
    ensures
        clicked(selection, anchor, shown, asset, false, false).0.contains(x) <==> x == asset,
        clicked(selection, anchor, shown, asset, false, false).1 == Some(asset),
        clicked(selection, anchor, shown, asset, true, false).0.contains(x) <==> (
        selection.contains(x) != (x == asset)),
        clicked(selection, anchor, shown, asset, true, false).1 == Some(asset),
        forall|shift: bool, ctrl: bool|
            shift && anchor is None ==> #[trigger] clicked(
                selection,
                anchor,
                shown,
                asset,
                ctrl,
                shift,
            ) == clicked(selection, anchor, shown, asset, ctrl, false),
{
    let alone = seq![asset];
    if x == asset {
        assert(alone[0] == x);
    }
    if selection.contains(asset) {
        selection.index_of_first_ensures(asset);
        let at = selection.index_of_first(asset)->0;
        let left = selection.remove(at);
        assert(clicked(selection, anchor, shown, asset, true, false).0 == left);
        if selection.contains(x) && x != asset {
            let k = choose|k: int| 0 <= k < selection.len() && selection[k] == x;
            assert(left[if k < at {
                k
            } else {
                k - 1
            }] == x);
        }
        if left.contains(x) {
            let k = choose|k: int| 0 <= k < left.len() && left[k] == x;
            assert(selection[if k < at {
                k
            } else {
                k + 1
            }] == x);
        }
    } else {
        let more = selection.push(asset);
        assert(more[selection.len() as int] == asset);
        if selection.contains(x) {
            let k = choose|k: int| 0 <= k < selection.len() && selection[k] == x;
            assert(more[k] == x);
        }
    }
}

/// With shift, what is selected is what stands on screen from the anchor to the
/// asset, both of them in it, whichever comes first; with control too, what was
/// selected stays. The anchor stays where it is.
pub proof fn lemma_shift_reaches_from_the_anchor(
    selection: Seq<usize>,
    shown: Seq<usize>,
    a: int,
    b: int,
    ctrl: bool,
    x: usize,
)
    requires
        shown.no_duplicates(),
        0 <= a < shown.len(),
        0 <= b < shown.len(),
    ensures
        ({
            let now = clicked(selection, Some(shown[a]), shown, shown[b], ctrl, true);
            &&& now.1 == Some(shown[a])
            &&& now.0.last() == shown[b]
            &&& now.0.contains(x) <==> (exists|k: int|
                0 <= k < shown.len() && (a <= k <= b || b <= k <= a) && #[trigger] shown[k] == x)
                || (ctrl && selection.contains(x))
        }),
{
    let (from, to) = (shown[a], shown[b]);
    shown.index_of_first_ensures(from);
    shown.index_of_first_ensures(to);
    let part = stretch(shown, a, b);
    let kept = if ctrl {
        selection
    } else {
        Seq::<usize>::empty()
    };
    let all = with_missing(kept, part);
    lemma_with_missing(kept, part);
    lemma_without(all, to);
    let low = if a <= b {
        a
    } else {
        b
    };
    let now = without(all, to).push(to);
    assert(now[now.len() - 1] == to);
    if part.contains(x) {
        let k = choose|k: int| 0 <= k < part.len() && part[k] == x;
        assert(shown[low + k] == x);
    }
    if exists|k: int| 0 <= k < shown.len() && (a <= k <= b || b <= k <= a) && #[trigger] shown[k] == x {
        let k = choose|k: int|
            0 <= k < shown.len() && (a <= k <= b || b <= k <= a) && #[trigger] shown[k] == x;
        assert(part[k - low] == x);
    }
    if now.contains(x) && x != to {
        let k = choose|k: int| 0 <= k < now.len() && now[k] == x;
        assert(without(all, to)[k] == x);
        assert(without(all, to).contains(x));
    }
    if all.contains(x) && x != to {
        assert(without(all, to).contains(x));
        let k = choose|k: int| 0 <= k < without(all, to).len() && without(all, to)[k] == x;
        assert(now[k] == x);
    }
}

/// The variants of an asset are the assets of its folder whose names are of its
/// family.
pub proof fn lemma_variants_share_folder_and_family(lib: Library, asset: usize, x: usize)
    requires
        asset < lib.assets@.len(),
    ensures
        family_members(lib, asset).contains(x) <==> x < lib.assets@.len()
            && lib.assets@[x as int].folder == lib.assets@[asset as int].folder && (
        lib.assets@[asset as int].family matches Some(k) && (
        lib.assets@[x as int].family matches Some(l) && k@ == l@)),
{
    let all = upto(lib.assets@.len());
    assert(lib.assets.len() == lib.assets@.len());
    rows::lemma_kin(lib, all, asset);
    if x < lib.assets@.len() {
        assert(all[x as int] == x);
    }
}

/// An asset's collections are named in their order, each that holds it and no
/// other: adding one to the end adds its name just where it holds the asset.
pub proof fn lemma_what_holds_an_asset(lib: Library, asset: usize, n: int, name: Seq<char>)
    requires
        0 <= n <= lib.collections@.len(),
    ensures
        holding(lib, asset, n).contains(name) <==> exists|c: int|
            0 <= c < n && (#[trigger] lib.collections@[c]).name@ == name
                && lib.collections@[c].members@.contains(asset),
        holding(lib, asset, n).len() <= n,
    decreases n,
{
    if n > 0 {
        lemma_what_holds_an_asset(lib, asset, n - 1, name);
        let before = holding(lib, asset, n - 1);
        let now = holding(lib, asset, n);
        let last = lib.collections@[n - 1];
        if last.members@.contains(asset) {
            assert(now == before.push(last.name@));
            assert(now[before.len() as int] == last.name@);
            if before.contains(name) {
                let k = choose|k: int| 0 <= k < before.len() && before[k] == name;
                assert(now[k] == name);
            }
            if now.contains(name) && last.name@ != name {
                let k = choose|k: int| 0 <= k < now.len() && now[k] == name;
                assert(before[k] == name);
            }
        }
    }
}

/// The failures are the files that could not be read: none where every file
/// was or will be read, all where none could.
pub proof fn lemma_failures_count_files(lib: Library, n: int)
    requires
        0 <= n <= lib.assets@.len(),
    ensures
        broken(lib, n) == Set::new(|i: int| 0 <= i < n && lib.assets@[i].load is Failed).len(),
        Set::new(|i: int| 0 <= i < n && lib.assets@[i].load is Failed).finite(),
    decreases n,
{
    let now = Set::new(|i: int| 0 <= i < n && lib.assets@[i].load is Failed);
    if n <= 0 {
        assert(now =~= Set::empty());
    } else {
        lemma_failures_count_files(lib, n - 1);
        let before = Set::new(|i: int| 0 <= i < n - 1 && lib.assets@[i].load is Failed);
        if lib.assets@[n - 1].load is Failed {
            assert(now =~= before.insert(n - 1));
        } else {
            assert(now =~= before);
        }
    }
}

/// What is added to a list comes behind what was in it, which stays in its
/// order.
pub proof fn lemma_what_is_added_comes_last(list: Seq<usize>, more: Seq<usize>)
    ensures
        with_missing(list, more).len() >= list.len(),
        with_missing(list, more).subrange(0, list.len() as int) == list,
        list.len() == 0 && more.no_duplicates() ==> with_missing(list, more) == more,
        forall|i: int|
            list.len() <= i < with_missing(list, more).len() ==> more.contains(
                #[trigger] with_missing(list, more)[i],
            ),
    decreases more.len(),
{
    let now = with_missing(list, more);
    if more.len() > 0 {
        let rest = more.drop_last();
        lemma_what_is_added_comes_last(list, rest);
        lemma_with_missing(list, rest);
        let before = with_missing(list, rest);
        assert(now.subrange(0, list.len() as int) =~= before.subrange(0, list.len() as int));
        if list.len() == 0 && more.no_duplicates() {
            assert(rest.no_duplicates());
            if before.contains(more.last()) {
                let k = choose|k: int| 0 <= k < rest.len() && rest[k] == more.last();
                assert(more[k] == more[more.len() - 1]);
            }
            assert(rest.push(more.last()) =~= more);
        }
        assert forall|i: int| list.len() <= i < now.len() implies more.contains(
            #[trigger] now[i],
        ) by {
            if i < before.len() {
                assert(now[i] == before[i]);
                assert(rest.contains(before[i]));
                let k = choose|k: int| 0 <= k < rest.len() && rest[k] == before[i];
                assert(more[k] == now[i]);
            } else {
                assert(more[more.len() - 1] == now[i]);
            }
        }
    } else {
        assert(now.subrange(0, list.len() as int) =~= list);
        if list.len() == 0 {
            assert(list =~= more);
        }
    }
}

} // verus!
