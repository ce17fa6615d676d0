//! The centre pane's contents: assets, stacked into variant families.

use vstd::prelude::*;

use crate::browse;
use crate::library::{Library, Row, RowView};
use crate::scene;
use vstd::view::View as _;

verus! {

/// Whether two assets are variants of one thing: they lie in one folder and
/// belong to the family of one name.
pub open spec fn are_kin(lib: Library, a: usize, b: usize) -> bool {
    let (x, y) = (lib.assets@[a as int], lib.assets@[b as int]);
    &&& x.folder == y.folder
    &&& x.family is Some
    &&& scene::opt_text(x.family) == scene::opt_text(y.family)
}

/// The kin of an asset in a list, itself included.
pub open spec fn kin_of(lib: Library, list: Seq<usize>, asset: usize) -> Seq<usize>
    decreases list.len(),
{
    if list.len() == 0 {
        Seq::empty()
    } else {
        let before = kin_of(lib, list.drop_last(), asset);
        if are_kin(lib, asset, list.last()) {
            before.push(list.last())
        } else {
            before
        }
    }
}

/// Whether a family is open.
pub open spec fn is_open(lib: Library, folder: usize, key: Seq<char>) -> bool {
    exists|i: int|
        0 <= i < lib.expanded_families@.len() && is_family(
            #[trigger] lib.expanded_families@[i],
            folder,
            key,
        )
}

/// Whether an entry of the open families is a certain one.
pub open spec fn is_family(entry: (usize, String), folder: usize, key: Seq<char>) -> bool {
    entry.0 == folder && entry.1@ == key
}

/// Each asset of a list as a row.
pub open spec fn singles(list: Seq<usize>) -> Seq<RowView> {
    Seq::new(list.len(), |i: int| RowView::One(list[i]))
}

/// Whether a variant of the asset at a place came before it.
pub open spec fn was_seen(lib: Library, list: Seq<usize>, at: int) -> bool {
    exists|j: int| 0 <= j < at && are_kin(lib, list[at], #[trigger] list[j])
}

/// The rows that the asset at one place of a list brings: itself where it has
/// no variants there, nothing where they were shown, else the stack of them,
/// and after that each of them where the stack is open.
pub open spec fn rows_at(lib: Library, list: Seq<usize>, at: int) -> Seq<RowView> {
    let a = lib.assets@[list[at] as int];
    match a.family {
        None => seq![RowView::One(list[at])],
        Some(key) => {
            let members = kin_of(lib, list, list[at]);
            if was_seen(lib, list, at) {
                Seq::empty()
            } else if members.len() < 2 {
                seq![RowView::One(list[at])]
            } else if is_open(lib, a.folder, key@) {
                seq![RowView::Family { key: key@, members }] + singles(members)
            } else {
                seq![RowView::Family { key: key@, members }]
            }
        },
    }
}

/// The rows of the first `n` assets of a list.
pub open spec fn rows_upto(lib: Library, list: Seq<usize>, n: int) -> Seq<RowView>
    decreases n,
{
    if n <= 0 {
        Seq::empty()
    } else {
        rows_upto(lib, list, n - 1) + rows_at(lib, list, n - 1)
    }
}

/// The rows of a list, stacked or not.
pub open spec fn rows_of(lib: Library, list: Seq<usize>) -> Seq<RowView> {
    if lib.stack_variants {
        rows_upto(lib, list, list.len() as int)
    } else {
        singles(list)
    }
}

/// Rows as mathematical values.
pub open spec fn views(rows: Seq<Row>) -> Seq<RowView> {
    Seq::new(rows.len(), |i: int| rows[i]@)
}

/// The rows on screen: those kept since the last change, or else new ones.
pub open spec fn rows_now(lib: Library, now: i64) -> Seq<RowView> {
    match lib.cache {
        Some(rows) => views(rows@),
        None => rows_of(lib, browse::shown(lib, now)),
    }
}

pub proof fn lemma_kin(lib: Library, list: Seq<usize>, asset: usize)
    ensures
        forall|x: usize| #[trigger]
            kin_of(lib, list, asset).contains(x) <==> list.contains(x) && are_kin(lib, asset, x),
    decreases list.len(),
{
    let out = kin_of(lib, list, asset);
    if list.len() > 0 {
        let rest = list.drop_last();
        let before = kin_of(lib, rest, asset);
        lemma_kin(lib, rest, asset);
        assert forall|x: usize| #[trigger] out.contains(x) <==> list.contains(x) && are_kin(
            lib,
            asset,
            x,
        ) by {
            if out.contains(x) {
                let k = choose|k: int| 0 <= k < out.len() && out[k] == x;
                if k < before.len() {
                    assert(before[k] == x);
                    assert(before.contains(x));
                    let j = choose|j: int| 0 <= j < rest.len() && rest[j] == x;
                    assert(list[j] == x);
                } else {
                    assert(list[list.len() - 1] == x);
                }
            }
            if list.contains(x) && are_kin(lib, asset, x) {
                let k = choose|k: int| 0 <= k < list.len() && list[k] == x;
                if k < rest.len() {
                    assert(list[k] == rest[k]);
                    assert(rest.contains(x));
                    assert(before.contains(x));
                    let j = choose|j: int| 0 <= j < before.len() && before[j] == x;
                    assert(out[j] == x);
                } else {
                    assert(out[out.len() - 1] == x);
                }
            }
        }
    }
}

fn push_singles(out: &mut Vec<Row>, list: &Vec<usize>)
    ensures
        views(final(out)@) == views(old(out)@) + singles(list@),
{
    let ghost start = out@;
    let mut i: usize = 0;
    assert(views(out@) =~= views(start) + singles(list@.subrange(0, 0)));
    while i < list.len()
        invariant
            i <= list@.len(),
            views(out@) == views(start) + singles(list@.subrange(0, i as int)),
        decreases list@.len() - i,
    {
        let ghost had = out@;
        out.push(Row::One(list[i]));
        i += 1;
        proof {
            assert(views(out@) =~= views(had).push(RowView::One(list@[i - 1])));
            assert(singles(list@.subrange(0, i as int)) =~= singles(
                list@.subrange(0, i - 1),
            ).push(RowView::One(list@[i - 1])));
            assert(views(out@) =~= views(start) + singles(list@.subrange(0, i as int)));
        }
    }
    assert(list@.subrange(0, i as int) =~= list@);
}

proof fn lemma_push_row(rows: Seq<Row>, row: Row)
    ensures
        views(rows.push(row)) == views(rows) + seq![row@],
{
    assert(views(rows.push(row)) =~= views(rows) + seq![row@]);
}

impl Library {
    /// Whether two assets are variants of one thing.
    fn same_family(&self, a: usize, b: usize) -> (r: bool)
        requires
            a < self.assets@.len(),
            b < self.assets@.len(),
        ensures
            r == are_kin(*self, a, b),
    {
        if self.assets[a].folder != self.assets[b].folder {
            return false;
        }
        match &self.assets[a].family {
            None => false,
            Some(x) => match &self.assets[b].family {
                None => false,
                Some(y) => *x == *y,
            },
        }
    }

    /// The variants of an asset in a list.
    pub(crate) fn members(&self, list: &Vec<usize>, asset: usize) -> (r: Vec<usize>)
        requires
            browse::are_assets(*self, list@),
            asset < self.assets@.len(),
        ensures
            r@ == kin_of(*self, list@, asset),
    {
        let mut out: Vec<usize> = Vec::new();
        let mut i: usize = 0;
        assert(list@.subrange(0, 0) =~= Seq::empty());
        while i < list.len()
            invariant
                i <= list@.len(),
                asset < self.assets@.len(),
                browse::are_assets(*self, list@),
                out@ == kin_of(*self, list@.subrange(0, i as int), asset),
            decreases list@.len() - i,
        {
            assert(list@.subrange(0, i as int + 1).drop_last() =~= list@.subrange(0, i as int));
            if self.same_family(asset, list[i]) {
                out.push(list[i]);
            }
            i += 1;
        }
        assert(list@.subrange(0, i as int) =~= list@);
        out
    }

    /// Where a family stands among the open ones.
    fn open_at(&self, folder: usize, key: &String) -> (r: Option<usize>)
        ensures
            r is Some <==> is_open(*self, folder, key@),
            r matches Some(i) ==> i < self.expanded_families@.len() && is_family(
                self.expanded_families@[i as int],
                folder,
                key@,
            ) && forall|k: int|
                0 <= k < i ==> !is_family(#[trigger] self.expanded_families@[k], folder, key@),
    {
        let mut i: usize = 0;
        while i < self.expanded_families.len()
            invariant
                i <= self.expanded_families@.len(),
                forall|k: int|
                    0 <= k < i ==> !is_family(#[trigger] self.expanded_families@[k], folder, key@),
            decreases self.expanded_families@.len() - i,
        {
            let entry = &self.expanded_families[i];
            if entry.0 == folder && entry.1 == *key {
                return Some(i);
            }
            i += 1;
        }
        None
    }

    /// Whether a variant of an asset came before it in a list.
    fn seen(&self, list: &Vec<usize>, at: usize) -> (r: bool)
        requires
            browse::are_assets(*self, list@),
            at < list@.len(),
        ensures
            r == was_seen(*self, list@, at as int),
    {
        let mut j: usize = 0;
        while j < at
            invariant
                j <= at < list@.len(),
                browse::are_assets(*self, list@),
                forall|k: int| 0 <= k < j ==> !are_kin(*self, list@[at as int], #[trigger] list@[k]),
            decreases at - j,
        {
            if self.same_family(list[at], list[j]) {
                return true;
            }
            j += 1;
        }
        false
    }

    fn push_rows(&self, out: &mut Vec<Row>, list: &Vec<usize>, at: usize)
        requires
            browse::are_assets(*self, list@),
            at < list@.len(),
        ensures
            views(final(out)@) == views(old(out)@) + rows_at(*self, list@, at as int),
    {
        let asset: usize = list[at];
        let ghost start = out@;
        match &self.assets[asset].family {
            None => {
                out.push(Row::One(asset));
                proof {
                    lemma_push_row(start, Row::One(asset));
                }
            },
            Some(key) => {
                if self.seen(list, at) {
                    assert(views(out@) =~= views(start) + Seq::<RowView>::empty());
                    return;
                }
                let members = self.members(list, asset);
                // A family the filter has cut down to one member is just that file.
                if members.len() < 2 {
                    out.push(Row::One(asset));
                    proof {
                        lemma_push_row(start, Row::One(asset));
                    }
                    return;
                }
                let open = self.open_at(self.assets[asset].folder, key);
                let mut title = String::new();
                crate::text::push_str(&mut title, key.as_str());
                let row = Row::Family { key: title, members: browse::copy_list(&members) };
                let ghost shown = row@;
                proof {
                    lemma_push_row(start, row);
                    assert(title@ =~= key@);
                    assert(shown == (RowView::Family { key: key@, members: members@ }));
                }
                out.push(row);
                if open.is_some() {
                    push_singles(out, &members);
                    assert(views(start) + seq![shown] + singles(members@) =~= views(start) + (
                    seq![shown] + singles(members@)));
                }
            },
        }
    }

    /// The rows of what is filtered now.
    fn build_rows(&self, now: i64) -> (r: Vec<Row>)
        requires
            self.wf(),
        ensures
            views(r@) == rows_of(*self, browse::shown(*self, now)),
    {
        let filtered = self.filtered(now);
        let mut rows: Vec<Row> = Vec::new();
        if !self.stack_variants {
            push_singles(&mut rows, &filtered);
            assert(views(rows@) =~= singles(filtered@));
            return rows;
        }
        let mut i: usize = 0;
        assert(views(rows@) =~= Seq::empty());
        while i < filtered.len()
            invariant
                i <= filtered@.len(),
                browse::are_assets(*self, filtered@),
                views(rows@) == rows_upto(*self, filtered@, i as int),
            decreases filtered@.len() - i,
        {
            self.push_rows(&mut rows, &filtered, i);
            i += 1;
        }
        rows
    }
}

proof fn lemma_rows_wf(lib: Library, list: Seq<usize>, n: int)
    requires
        0 <= n <= list.len(),
    ensures
        forall|i: int|
            0 <= i < rows_upto(lib, list, n).len() ==> (#[trigger] rows_upto(lib, list, n)[i]).wf(),
    decreases n,
{
    if n > 0 {
        lemma_rows_wf(lib, list, n - 1);
        let (before, more) = (rows_upto(lib, list, n - 1), rows_at(lib, list, n - 1));
        assert forall|i: int| 0 <= i < rows_upto(lib, list, n).len() implies (
        #[trigger] rows_upto(lib, list, n)[i]).wf() by {
            if i < before.len() {
                assert(rows_upto(lib, list, n)[i] == before[i]);
            } else {
                assert(rows_upto(lib, list, n)[i] == more[i - before.len()]);
            }
        }
    }
}

/// Every stack on screen has something in it.
pub proof fn lemma_stacks_are_never_empty(lib: Library, list: Seq<usize>)
    ensures
        forall|i: int| 0 <= i < rows_of(lib, list).len() ==> (#[trigger] rows_of(lib, list)[i]).wf(),
{
    lemma_rows_wf(lib, list, list.len() as int);
}

/// Whether a list of rows shows an asset.
pub open spec fn is_shown(rows: Seq<RowView>, asset: usize) -> bool {
    exists|i: int| 0 <= i < rows.len() && (#[trigger] rows[i]).shows(asset)
}

proof fn lemma_shown_upto(lib: Library, list: Seq<usize>, n: int, at: int)
    requires
        0 <= at < n <= list.len(),
    ensures
        is_shown(rows_upto(lib, list, n), list[at]),
    decreases n,
{
    let (before, more) = (rows_upto(lib, list, n - 1), rows_at(lib, list, n - 1));
    let all = rows_upto(lib, list, n);
    if at < n - 1 {
        lemma_shown_upto(lib, list, n - 1, at);
        let i = choose|i: int| 0 <= i < before.len() && (#[trigger] before[i]).shows(list[at]);
        assert(all[i] == before[i]);
    } else if was_seen(lib, list, at) && lib.assets@[list[at] as int].family is Some {
        let j = choose|j: int| 0 <= j < at && are_kin(lib, list[at], #[trigger] list[j]);
        lemma_first_shows(lib, list, n - 1, j, list[at], at);
        let i = choose|i: int| 0 <= i < before.len() && (#[trigger] before[i]).shows(list[at]);
        assert(all[i] == before[i]);
    } else {
        lemma_kin(lib, list, list[at]);
        assert(more.len() > 0);
        assert(list.contains(list[at]));
        assert(lib.assets@[list[at] as int].family is Some ==> kin_of(
            lib,
            list,
            list[at],
        ).contains(list[at]));
        assert(more[0].shows(list[at]));
        assert(all[before.len() as int] == more[0]);
    }
}

/// The stack that the first of some variants brings shows all of them.
proof fn lemma_first_shows(
    lib: Library,
    list: Seq<usize>,
    n: int,
    j: int,
    asset: usize,
    at: int,
)
    requires
        0 <= j < n <= at < list.len(),
        list[at] == asset,
        are_kin(lib, asset, list[j]),
    ensures
        is_shown(rows_upto(lib, list, n), asset),
    decreases n,
{
    let (before, more) = (rows_upto(lib, list, n - 1), rows_at(lib, list, n - 1));
    let all = rows_upto(lib, list, n);
    if j < n - 1 {
        lemma_first_shows(lib, list, n - 1, j, asset, at);
        let i = choose|i: int| 0 <= i < before.len() && (#[trigger] before[i]).shows(asset);
        assert(all[i] == before[i]);
    } else if was_seen(lib, list, j) {
        let k = choose|k: int| 0 <= k < j && are_kin(lib, list[j], #[trigger] list[k]);
        assert(are_kin(lib, asset, list[k]));
        lemma_first_shows(lib, list, n - 1, k, asset, at);
        let i = choose|i: int| 0 <= i < before.len() && (#[trigger] before[i]).shows(asset);
        assert(all[i] == before[i]);
    } else {
        lemma_kin(lib, list, list[j]);
        let members = kin_of(lib, list, list[j]);
        assert(list.contains(asset) && list.contains(list[j]));
        assert(members.contains(asset));
        assert(members.contains(list[j]));
        if members.len() < 2 {
            assert(members[0] == asset && members[0] == list[j]);
        }
        assert(more[0].shows(asset));
        assert(all[before.len() as int] == more[0]);
    }
}

/// Stacking hides nothing: every asset that survives the filters is shown by
/// a row, alone or in a stack.
pub proof fn lemma_stacking_hides_nothing(lib: Library, list: Seq<usize>, asset: usize)
    requires
        list.contains(asset),
    ensures
        is_shown(rows_of(lib, list), asset),
{
    let at = choose|at: int| 0 <= at < list.len() && list[at] == asset;
    if lib.stack_variants {
        lemma_shown_upto(lib, list, list.len() as int, at);
    } else {
        assert(singles(list)[at].shows(asset));
    }
}

// ---- what stacking keeps ----------------------------------------------------
/// The assets of a row.
pub open spec fn assets_of(row: RowView) -> Seq<usize> {
    match row {
        RowView::One(i) => seq![i],
        RowView::Family { members, .. } => members,
    }
}

/// The assets of some rows, one after the other.
pub open spec fn flattened(rows: Seq<RowView>) -> Seq<usize>
    decreases rows.len(),
{
    if rows.len() == 0 {
        Seq::empty()
    } else {
        flattened(rows.drop_last()) + assets_of(rows.last())
    }
}

proof fn lemma_index(list: Seq<usize>, at: int)
    requires
        list.no_duplicates(),
        0 <= at < list.len(),
    ensures
        list.index_of(list[at]) == at,
{
    assert(list.contains(list[at]));
}

/// The variants of an asset stand in the order of the list, each once.
proof fn lemma_kin_order(lib: Library, list: Seq<usize>, asset: usize)
    requires
        list.no_duplicates(),
    ensures
        kin_of(lib, list, asset).no_duplicates(),
        in_order_of(list, kin_of(lib, list, asset)),
    decreases list.len(),
{
    let out = kin_of(lib, list, asset);
    if list.len() > 0 {
        let rest = list.drop_last();
        let before = kin_of(lib, rest, asset);
        assert(rest.no_duplicates());
        lemma_kin_order(lib, rest, asset);
        lemma_kin(lib, rest, asset);
        assert forall|a: int| 0 <= a < before.len() implies list.index_of(#[trigger] before[a])
            == rest.index_of(before[a]) && 0 <= rest.index_of(before[a]) < rest.len() by {
            assert(before.contains(before[a]));
            let k = rest.index_of(before[a]);
            assert(rest.contains(before[a]));
            assert(rest[k] == before[a]);
            assert(list[k] == before[a]);
            lemma_index(list, k);
        }
        lemma_index(list, list.len() - 1);
        assert forall|a: int, b: int| 0 <= a < b < out.len() implies list.index_of(
            #[trigger] out[a],
        ) < list.index_of(#[trigger] out[b]) by {
            assert(out[a] == before[a]);
            if b < before.len() {
                assert(out[b] == before[b]);
                assert(rest.index_of(before[a]) < rest.index_of(before[b]));
            }
        }
        assert forall|a: int, b: int| 0 <= a < b < out.len() implies out[a] != out[b] by {
            assert(list.index_of(out[a]) < list.index_of(out[b]));
        }
    }
}

/// Whether some assets stand in the order in which a list has them.
pub open spec fn in_order_of(list: Seq<usize>, some: Seq<usize>) -> bool {
    forall|a: int, b: int|
        0 <= a < b < some.len() ==> list.index_of(#[trigger] some[a]) < list.index_of(
            #[trigger] some[b],
        )
}

/// The first of the variants is the one that no other came before.
proof fn lemma_kin_first(lib: Library, list: Seq<usize>, at: int)
    requires
        0 <= at < list.len(),
        lib.assets@[list[at] as int].family is Some,
        !was_seen(lib, list, at),
    ensures
        kin_of(lib, list, list[at]).len() > 0,
        kin_of(lib, list, list[at])[0] == list[at],
    decreases list.len(),
{
    let rest = list.drop_last();
    let before = kin_of(lib, rest, list[at]);
    if at < rest.len() {
        assert(rest[at] == list[at]);
        assert(!was_seen(lib, rest, at)) by {
            if was_seen(lib, rest, at) {
                let j = choose|j: int| 0 <= j < at && are_kin(lib, rest[at], #[trigger] rest[j]);
                assert(list[j] == rest[j]);
            }
        }
        lemma_kin_first(lib, rest, at);
    } else {
        lemma_kin(lib, rest, list[at]);
        if before.len() > 0 {
            assert(before.contains(before[0]));
            let j = choose|j: int| 0 <= j < rest.len() && rest[j] == before[0];
            assert(list[j] == rest[j]);
            assert(are_kin(lib, list[at], list[j]));
        }
    }
}

/// Whether an asset of a list is in the rows of its first `n` assets: it is one
/// of them, or a variant of one.
spec fn is_reached(lib: Library, list: Seq<usize>, n: int, x: usize) -> bool {
    exists|j: int| 0 <= j < n && reaches(lib, #[trigger] list[j], x)
}

spec fn reaches(lib: Library, from: usize, x: usize) -> bool {
    from == x || are_kin(lib, from, x)
}

/// What the row of the asset at a place is, where it brings one and nothing is
/// open.
proof fn lemma_folded_at(lib: Library, list: Seq<usize>, at: int)
    requires
        lib.expanded_families@.len() == 0,
        list.no_duplicates(),
        0 <= at < list.len(),
    ensures
        rows_at(lib, list, at).len() <= 1,
        rows_at(lib, list, at).len() == 1 ==> ({
            let row = rows_at(lib, list, at)[0];
            &&& row.first() == list[at]
            &&& lib.assets@[list[at] as int].family is Some ==> !was_seen(lib, list, at)
            &&& assets_of(row).no_duplicates()
            &&& assets_of(row).contains(list[at])
            &&& is_whole_stack(lib, list, row)
            &&& forall|x: usize| #[trigger]
                assets_of(row).contains(x) <==> list.contains(x) && reaches(lib, list[at], x)
        }),
        rows_at(lib, list, at).len() == 0 ==> was_seen(lib, list, at),
{
    let x0 = list[at];
    let a = lib.assets@[x0 as int];
    assert(list.contains(x0));
    if a.family is Some && !was_seen(lib, list, at) {
        let members = kin_of(lib, list, x0);
        lemma_kin(lib, list, x0);
        lemma_kin_order(lib, list, x0);
        lemma_kin_first(lib, list, at);
        assert(!is_open(lib, a.folder, a.family->0@));
        assert(members.contains(x0));
        let row = rows_at(lib, list, at)[0];
        if members.len() < 2 {
            assert(members =~= seq![x0]);
        }
        assert(assets_of(row) =~= members);
        if let RowView::Family { key, members: shown } = row {
            assert forall|k: int| 0 <= k < shown.len() implies is_variant(
                lib,
                #[trigger] shown[k],
                a.folder,
                key,
            ) by {
                assert(members.contains(shown[k]));
                assert(are_kin(lib, x0, shown[k]));
            }
        }
    } else if a.family is None {
        let row = rows_at(lib, list, at)[0];
        assert(assets_of(row) =~= seq![x0]);
        assert(seq![x0][0] == x0);
    }
}

/// Whether an asset is a variant of a family: in its folder, and of its name.
pub open spec fn is_variant(lib: Library, asset: usize, folder: usize, key: Seq<char>) -> bool {
    let a = lib.assets@[asset as int];
    a.folder == folder && scene::opt_text(a.family) == Some(key)
}

/// Whether a row, where it is a stack, holds two variants of one family or
/// more, in the order in which a list has them.
pub open spec fn is_whole_stack(lib: Library, list: Seq<usize>, row: RowView) -> bool {
    row matches RowView::Family { key, members } ==> {
        &&& members.len() >= 2
        &&& in_order_of(list, members)
        &&& forall|k: int|
            0 <= k < members.len() ==> is_variant(
                lib,
                #[trigger] members[k],
                lib.assets@[members[0] as int].folder,
                key,
            )
    }
}

proof fn lemma_reaching(lib: Library, a: usize, b: usize, c: usize)
    ensures
        reaches(lib, a, b) && reaches(lib, b, c) ==> reaches(lib, a, c),
        reaches(lib, a, b) <==> reaches(lib, b, a),
{
}

/// What is known of the rows of the first `n` assets, nothing being open.
spec fn folded(lib: Library, list: Seq<usize>, n: int) -> bool {
    let rows = rows_upto(lib, list, n);
    &&& flattened(rows).no_duplicates()
    &&& forall|x: usize| #[trigger]
        flattened(rows).contains(x) <==> list.contains(x) && is_reached(lib, list, n, x)
    &&& forall|i: int|
        0 <= i < rows.len() ==> {
            let p = list.index_of((#[trigger] rows[i]).first());
            0 <= p < n && rows_at(lib, list, p) == seq![rows[i]]
        }
    &&& forall|i: int, j: int|
        0 <= i < j < rows.len() ==> list.index_of((#[trigger] rows[i]).first()) < list.index_of(
            (#[trigger] rows[j]).first(),
        )
}

proof fn lemma_folded(lib: Library, list: Seq<usize>, n: int)
    requires
        lib.expanded_families@.len() == 0,
        list.no_duplicates(),
        0 <= n <= list.len(),
    ensures
        folded(lib, list, n),
    decreases n,
{
    let rows = rows_upto(lib, list, n);
    if n > 0 {
        let at = n - 1;
        let x0 = list[at];
        let before = rows_upto(lib, list, at);
        let more = rows_at(lib, list, at);
        let had = flattened(before);
        let all = flattened(rows);
        lemma_folded(lib, list, at);
        lemma_folded_at(lib, list, at);
        lemma_index(list, at);
        assert(list.contains(x0));
        if more.len() == 0 {
            assert(rows =~= before);
            let j0 = choose|j: int| 0 <= j < at && are_kin(lib, x0, #[trigger] list[j]);
            assert forall|x: usize| #[trigger] all.contains(x) <==> list.contains(x) && is_reached(
                lib,
                list,
                n,
                x,
            ) by {
                if is_reached(lib, list, n, x) {
                    let j = choose|j: int| 0 <= j < n && reaches(lib, #[trigger] list[j], x);
                    if j == at {
                        lemma_reaching(lib, x0, list[j0], x);
                        lemma_reaching(lib, list[j0], x0, x);
                        assert(reaches(lib, list[j0], x));
                    }
                    assert(is_reached(lib, list, at, x));
                }
            }
        } else {
            let row = more[0];
            let fresh = assets_of(row);
            assert(more =~= seq![row]);
            assert(rows.drop_last() =~= before);
            assert(rows.last() == row);
            assert(all == had + fresh);
            assert forall|x: usize| had.contains(x) && fresh.contains(x) implies false by {
                let j = choose|j: int| 0 <= j < at && reaches(lib, #[trigger] list[j], x);
                lemma_reaching(lib, x0, x, list[j]);
                lemma_reaching(lib, list[j], x, x0);
                assert(reaches(lib, x0, list[j]));
                assert(list[j] != x0);
                assert(are_kin(lib, x0, list[j]));
                assert(was_seen(lib, list, at));
            }
            assert forall|i: int, j: int|
                0 <= i < had.len() && 0 <= j < fresh.len() implies had[i] != fresh[j] by {
                assert(had.contains(had[i]) && fresh.contains(fresh[j]));
            }
            vstd::seq_lib::lemma_no_dup_in_concat(had, fresh);
            assert forall|x: usize| #[trigger] all.contains(x) <==> list.contains(x) && is_reached(
                lib,
                list,
                n,
                x,
            ) by {
                if all.contains(x) {
                    let k = choose|k: int| 0 <= k < all.len() && all[k] == x;
                    if k < had.len() {
                        assert(had[k] == x);
                        assert(had.contains(x));
                        let j = choose|j: int| 0 <= j < at && reaches(lib, #[trigger] list[j], x);
                        assert(0 <= j < n && reaches(lib, list[j], x));
                    } else {
                        assert(fresh[k - had.len()] == x);
                        assert(fresh.contains(x));
                        assert(reaches(lib, list[at], x));
                    }
                }
                if list.contains(x) && is_reached(lib, list, n, x) {
                    let j = choose|j: int| 0 <= j < n && reaches(lib, #[trigger] list[j], x);
                    if j < at {
                        assert(is_reached(lib, list, at, x));
                        assert(had.contains(x));
                        let k = choose|k: int| 0 <= k < had.len() && had[k] == x;
                        assert(all[k] == x);
                    } else {
                        assert(fresh.contains(x));
                        let k = choose|k: int| 0 <= k < fresh.len() && fresh[k] == x;
                        assert(all[had.len() + k] == x);
                    }
                }
            }
            assert forall|i: int| 0 <= i < rows.len() implies {
                let p = list.index_of((#[trigger] rows[i]).first());
                0 <= p < n && rows_at(lib, list, p) == seq![rows[i]]
            } by {
                if i < before.len() {
                    assert(rows[i] == before[i]);
                }
            }
            assert forall|i: int, j: int| 0 <= i < j < rows.len() implies list.index_of(
                (#[trigger] rows[i]).first(),
            ) < list.index_of((#[trigger] rows[j]).first()) by {
                assert(rows[i] == before[i]);
                if j < before.len() {
                    assert(rows[j] == before[j]);
                }
            }
        }
    } else {
        assert(rows =~= Seq::empty());
        assert(flattened(rows) =~= Seq::empty());
    }
}

/// With stacking on and nothing opened, the rows hold exactly what is filtered,
/// each asset once. A stack holds two variants of one family or more, in the
/// order of the list; no two stacks are of one folder and name; and the rows
/// stand in the order in which the list has their first assets.
pub proof fn lemma_stacking_only_folds(lib: Library, list: Seq<usize>)
    requires
        lib.stack_variants,
        lib.expanded_families@.len() == 0,
        list.no_duplicates(),
    ensures
        flattened(rows_of(lib, list)).to_multiset() == list.to_multiset(),
        forall|i: int|
            0 <= i < rows_of(lib, list).len() ==> is_whole_stack(
                lib,
                list,
                #[trigger] rows_of(lib, list)[i],
            ),
        forall|i: int, j: int|
            0 <= i < j < rows_of(lib, list).len() ==> !same_stack(
                lib,
                #[trigger] rows_of(lib, list)[i],
                #[trigger] rows_of(lib, list)[j],
            ),
        forall|i: int, j: int|
            0 <= i < j < rows_of(lib, list).len() ==> list.index_of(
                (#[trigger] rows_of(lib, list)[i]).first(),
            ) < list.index_of((#[trigger] rows_of(lib, list)[j]).first()),
{
    let n = list.len() as int;
    let rows = rows_of(lib, list);
    let flat = flattened(rows);
    lemma_folded(lib, list, n);
    assert forall|x: usize| #[trigger] flat.contains(x) <==> list.contains(x) by {
        if list.contains(x) {
            let k = choose|k: int| 0 <= k < list.len() && list[k] == x;
            assert(reaches(lib, list[k], x));
            assert(is_reached(lib, list, n, x));
        }
    }
    flat.to_multiset_ensures();
    list.to_multiset_ensures();
    flat.lemma_multiset_has_no_duplicates();
    list.lemma_multiset_has_no_duplicates();
    assert forall|x: usize| flat.to_multiset().count(x) == list.to_multiset().count(x) by {
        assert(flat.contains(x) <==> list.contains(x));
        if flat.contains(x) {
            assert(flat.to_multiset().contains(x));
            assert(list.to_multiset().contains(x));
        } else {
            assert(!flat.to_multiset().contains(x));
            assert(!list.to_multiset().contains(x));
        }
    }
    assert(flat.to_multiset() =~= list.to_multiset());
    assert forall|i: int| 0 <= i < rows.len() implies is_whole_stack(
        lib,
        list,
        #[trigger] rows[i],
    ) by {
        let p = list.index_of(rows[i].first());
        assert(rows_at(lib, list, p) == seq![rows[i]]);
        lemma_folded_at(lib, list, p);
    }
    assert forall|i: int, j: int| 0 <= i < j < rows.len() implies !same_stack(
        lib,
        #[trigger] rows[i],
        #[trigger] rows[j],
    ) by {
        if same_stack(lib, rows[i], rows[j]) {
            let (p, q) = (list.index_of(rows[i].first()), list.index_of(rows[j].first()));
            assert(rows_at(lib, list, p) == seq![rows[i]]);
            assert(rows_at(lib, list, q) == seq![rows[j]]);
            lemma_folded_at(lib, list, p);
            lemma_folded_at(lib, list, q);
            assert(is_whole_stack(lib, list, rows[i]) && is_whole_stack(lib, list, rows[j]));
            assert(is_variant(
                lib,
                rows[i]->members[0],
                lib.assets@[rows[i].first() as int].folder,
                rows[i]->key,
            ));
            assert(is_variant(
                lib,
                rows[j]->members[0],
                lib.assets@[rows[j].first() as int].folder,
                rows[j]->key,
            ));
            assert(are_kin(lib, list[q], list[p]));
            assert(was_seen(lib, list, q));
        }
    }
}

/// Whether two rows are stacks of one folder and name.
pub open spec fn same_stack(lib: Library, a: RowView, b: RowView) -> bool {
    &&& a matches RowView::Family { key: k, .. }
    &&& b matches RowView::Family { key: l, .. }
    &&& k == l
    &&& lib.assets@[a.first() as int].folder == lib.assets@[b.first() as int].folder
}

// ---- using the rows ---------------------------------------------------------
/// The families that are open.
pub open spec fn open_families(lib: Library) -> Seq<(usize, Seq<char>)> {
    Seq::new(
        lib.expanded_families@.len(),
        |i: int| (lib.expanded_families@[i].0, lib.expanded_families@[i].1@),
    )
}

/// Open families after one was opened, or closed where it was open.
pub open spec fn toggled(
    open: Seq<(usize, Seq<char>)>,
    family: (usize, Seq<char>),
) -> Seq<(usize, Seq<char>)> {
    if open.contains(family) {
        open.remove_value(family)
    } else {
        open.push(family)
    }
}

/// Which family a row stands for.
pub open spec fn family_id(lib: Library, row: RowView) -> Option<(usize, Seq<char>)> {
    match row {
        RowView::One(_) => None,
        RowView::Family { key, members } => Some((lib.assets@[members[0] as int].folder, key)),
    }
}

/// Whether what represents a row is an asset of the library.
pub open spec fn is_row(lib: Library, row: RowView) -> bool {
    row matches RowView::Family { members, .. } ==> members.len() > 0 && members[0]
        < lib.assets@.len()
}

/// Opening or closing a family changes that one and no other, and no family
/// is listed twice.
pub proof fn lemma_toggling_turns_one(
    open: Seq<(usize, Seq<char>)>,
    family: (usize, Seq<char>),
    other: (usize, Seq<char>),
)
    requires
        open.no_duplicates(),
    ensures
        toggled(open, family).no_duplicates(),
        toggled(open, family).contains(other) <==> (open.contains(other) != (other == family)),
{
    let out = toggled(open, family);
    open.index_of_first_ensures(family);
    if open.contains(family) {
        let i = open.index_of_first(family).unwrap();
        assert(out == open.remove(i));
        if out.contains(other) {
            let k = choose|k: int| 0 <= k < out.len() && out[k] == other;
            assert(other == open[if k < i {
                k
            } else {
                k + 1
            }]);
        }
        if open.contains(other) && other != family {
            let k = choose|k: int| 0 <= k < open.len() && open[k] == other;
            assert(out[if k < i {
                k
            } else {
                k - 1
            }] == other);
        }
    } else {
        if open.contains(other) {
            let k = choose|k: int| 0 <= k < open.len() && open[k] == other;
            assert(out[k] == other);
        }
        assert(out[open.len() as int] == family);
    }
}

/// The row a step of the cursor ends on: never beyond the first or the last.
pub open spec fn stepped(cursor: usize, delta: isize, len: nat) -> int {
    let next = cursor + delta;
    if next < 0 {
        0
    } else if next >= len {
        len - 1
    } else {
        next
    }
}

/// The row the cursor of a library lands on; none where there are no rows.
pub open spec fn landed(lib: Library, delta: isize, time: i64) -> Option<usize> {
    let rows = rows_now(lib, time);
    if rows.len() == 0 {
        None
    } else {
        Some(stepped(lib.cursor, delta, rows.len()) as usize)
    }
}

/// Whether one library is another after its cursor moved: what the row it
/// lands on shows first is selected.
pub open spec fn moved(now: Library, was: Library, delta: isize, time: i64) -> bool {
    let rows = rows_now(was, time);
    &&& now.cache matches Some(c) && views(c@) == rows
    &&& now == (Library {
        cache: now.cache,
        cursor: now.cursor,
        selection: now.selection,
        anchor: now.anchor,
        ..was
    })
    &&& if rows.len() == 0 {
        &&& now.cursor == 0
        &&& now.selection == was.selection
        &&& now.anchor == was.anchor
    } else {
        let next = stepped(was.cursor, delta, rows.len());
        &&& now.cursor == next
        &&& now.selection@ == seq![rows[next].first()]
        &&& now.anchor == Some(rows[next].first())
    }
}

/// The first row that shows an asset.
pub open spec fn row_of(rows: Seq<RowView>, asset: usize, from: int) -> Option<int>
    decreases rows.len() - from,
{
    if from < 0 || from >= rows.len() {
        None
    } else if rows[from].shows(asset) {
        Some(from)
    } else {
        row_of(rows, asset, from + 1)
    }
}

pub(crate) fn is_in(list: &Vec<usize>, x: usize) -> (r: bool)
    ensures
        r == list@.contains(x),
{
    let mut i: usize = 0;
    while i < list.len()
        invariant
            i <= list@.len(),
            forall|k: int| 0 <= k < i ==> #[trigger] list@[k] != x,
        decreases list@.len() - i,
    {
        if list[i] == x {
            assert(list@[i as int] == x);
            return true;
        }
        i += 1;
    }
    false
}

impl Library {
    /// The centre pane's contents, stacked into variant families if asked.
    pub fn rows(&mut self, now: i64) -> (r: &Vec<Row>)
        requires
            old(self).wf(),
        ensures
            views(r@) == rows_now(*old(self), now),
            final(self).cache == Some(*r),
            *final(self) == (Library { cache: final(self).cache, ..*old(self) }),
            final(self).wf(),
    {
        if self.cache.is_none() {
            let rows = self.build_rows(now);
            proof {
                lemma_stacks_are_never_empty(*self, browse::shown(*self, now));
                assert forall|i: int| 0 <= i < rows@.len() implies (#[trigger] rows@[i])@.wf() by {
                    assert(views(rows@)[i] == rows@[i]@);
                }
            }
            self.cache = Some(rows);
        }
        self.cache.as_ref().unwrap()
    }

    pub fn family_expanded(&self, row: &Row) -> (r: bool)
        requires
            is_row(*self, row@),
        ensures
            r == (family_id(*self, row@) matches Some(id) && is_open(*self, id.0, id.1)),
    {
        match row {
            Row::One(_) => false,
            Row::Family { key, members } => {
                self.open_at(self.assets[members[0]].folder, key).is_some()
            },
        }
    }

    pub fn toggle_family(&mut self, row: &Row)
        requires
            is_row(*old(self), row@),
        ensures
            open_families(*final(self)) == (match family_id(*old(self), row@) {
                Some(id) => toggled(open_families(*old(self)), id),
                None => open_families(*old(self)),
            }),
            final(self).cache == (match family_id(*old(self), row@) {
                Some(_) => None,
                None => old(self).cache,
            }),
            *final(self) == (Library {
                cache: final(self).cache,
                expanded_families: final(self).expanded_families,
                ..*old(self)
            }),
            old(self).wf() ==> final(self).wf(),
    {
        match row {
            Row::One(_) => {},
            Row::Family { key, members } => {
                let folder: usize = self.assets[members[0]].folder;
                let ghost open = open_families(*self);
                let ghost id = (folder, key@);
                match self.open_at(folder, key) {
                    Some(i) => {
                        proof {
                            open.index_of_first_ensures(id);
                            assert(open[i as int] == id);
                            let j = open.index_of_first(id).unwrap();
                            if j < i {
                                assert(!is_family(self.expanded_families@[j], folder, key@));
                            }
                        }
                        self.expanded_families.remove(i);
                        assert(open_families(*self) =~= open.remove(i as int));
                    },
                    None => {
                        proof {
                            if open.contains(id) {
                                let j = choose|j: int| 0 <= j < open.len() && open[j] == id;
                                assert(is_family(self.expanded_families@[j], folder, key@));
                            }
                        }
                        let mut name = String::new();
                        crate::text::push_str(&mut name, key.as_str());
                        assert(name@ =~= key@);
                        self.expanded_families.push((folder, name));
                        assert(open_families(*self) =~= open.push(id));
                    },
                }
                self.cache = None;
            },
        }
    }

    /// Mark the derived row list stale. Call after changing any filter.
    pub fn invalidate(&mut self)
        ensures
            *final(self) == (Library { cache: None, ..*old(self) }),
            old(self).wf() ==> final(self).wf(),
    {
        self.cache = None;
    }

    /// Move the keyboard cursor `delta` rows and select what it lands on.
    ///
    /// Clamped rather than wrapped: arrowing off the end of a folder should
    /// stop there, not jump you back to the top of a list you just left.
    pub fn move_cursor(&mut self, delta: isize, now: i64) -> (r: Option<usize>)
        requires
            old(self).wf(),
        ensures
            final(self).wf(),
            moved(*final(self), *old(self), delta, now),
            r == landed(*old(self), delta, now),
    {
        let ghost start = *self;
        let cursor: usize = self.cursor;
        let rows = self.rows(now);
        let ghost shown = views(rows@);
        let len: usize = rows.len();
        if len == 0 {
            self.cursor = 0;
            return None;
        }
        let wide: i128 = cursor as i128 + delta as i128;
        let next: usize = if wide < 0 {
            0
        } else if wide >= len as i128 {
            len - 1
        } else {
            wide as usize
        };
        assert(next == stepped(cursor, delta, len as nat));
        assert(shown[next as int] == rows@[next as int]@);
        let rows = self.rows(now);
        assert(views(rows@) == shown);
        assert(shown[next as int] == rows@[next as int]@);
        let asset: usize = rows[next].lead();
        self.cursor = next;
        self.select_only(asset);
        Some(next)
    }

    /// Put the cursor on the row holding `asset`, so the keyboard picks up
    /// where the mouse left off.
    pub fn focus_row(&mut self, asset: usize, now: i64)
        requires
            old(self).wf(),
        ensures
            final(self).wf(),
            final(self).cache matches Some(c) && views(c@) == rows_now(*old(self), now),
            *final(self) == (Library {
                cache: final(self).cache,
                cursor: final(self).cursor,
                ..*old(self)
            }),
            final(self).cursor == (match row_of(rows_now(*old(self), now), asset, 0) {
                Some(i) => i,
                None => old(self).cursor as int,
            }),
    {
        let mut found: Option<usize> = None;
        let rows = self.rows(now);
        let ghost shown = views(rows@);
        let mut i: usize = 0;
        while i < rows.len() && found.is_none()
            invariant
                i <= rows@.len(),
                shown == views(rows@),
                match found {
                    Some(at) => row_of(shown, asset, 0) == Some(at as int),
                    None => row_of(shown, asset, 0) == row_of(shown, asset, i as int),
                },
            decreases rows@.len() - i,
        {
            assert(shown[i as int] == rows@[i as int]@);
            let here = match &rows[i] {
                Row::One(a) => *a == asset,
                Row::Family { members, .. } => is_in(members, asset),
            };
            if here {
                found = Some(i);
            }
            i += 1;
        }
        if let Some(at) = found {
            self.cursor = at;
        }
    }

    pub fn select_only(&mut self, asset: usize)
        ensures
            final(self).selection@ == seq![asset],
            *final(self) == (Library {
                selection: final(self).selection,
                anchor: Some(asset),
                ..*old(self)
            }),
            old(self).wf() ==> final(self).wf(),
    {
        self.selection.clear();
        self.selection.push(asset);
        self.anchor = Some(asset);
        assert(self.selection@ =~= seq![asset]);
    }
}

// ---- stacks and the cursor --------------------------------------------------
/// Without stacking every asset is a row, in the order of the list.
pub proof fn lemma_without_stacking_all_are_rows(lib: Library, list: Seq<usize>)
    requires
        !lib.stack_variants,
    ensures
        rows_of(lib, list).len() == list.len(),
        forall|i: int| 0 <= i < list.len() ==> #[trigger] rows_of(lib, list)[i] == RowView::One(list[i]),
{
}

/// Whether two assets are of one folder and one family.
pub open spec fn are_variants(lib: Library, a: usize, b: usize) -> bool {
    let (x, y) = (lib.assets@[a as int], lib.assets@[b as int]);
    x.folder == y.folder && (x.family matches Some(k) && (y.family matches Some(l) && k@ == l@))
}

spec fn stands(lib: Library, list: Seq<usize>, n: int, at: int, from: int) -> bool {
    let (rows, mine) = (rows_upto(lib, list, n), rows_at(lib, list, at));
    0 <= at < n && 0 <= from && from + mine.len() <= rows.len() && rows.subrange(
        from,
        from + mine.len(),
    ) == mine
}

proof fn lemma_row_place(lib: Library, list: Seq<usize>, n: int, i: int) -> (r: (int, int))
    requires
        0 <= n <= list.len(),
        0 <= i < rows_upto(lib, list, n).len(),
    ensures
        stands(lib, list, n, r.0, r.1),
        r.1 <= i < r.1 + rows_at(lib, list, r.0).len(),
    decreases n,
{
    let (before, more) = (rows_upto(lib, list, n - 1), rows_at(lib, list, n - 1));
    let rows = rows_upto(lib, list, n);
    assert(rows == before + more);
    if i < before.len() {
        let r = lemma_row_place(lib, list, n - 1, i);
        let mine = rows_at(lib, list, r.0);
        assert(rows.subrange(r.1, r.1 + mine.len()) =~= before.subrange(r.1, r.1 + mine.len()));
        r
    } else {
        assert(rows.subrange(before.len() as int, (before.len() + more.len()) as int) =~= more);
        (n - 1, before.len() as int)
    }
}

/// Whether a row is that of a family that is open.
pub open spec fn is_unfolded(lib: Library, row: RowView) -> bool {
    row matches RowView::Family { key, members } && exists|e: int|
        0 <= e < lib.expanded_families@.len() && (#[trigger] lib.expanded_families@[e]).0
            == lib.assets@[members[0] as int].folder && lib.expanded_families@[e].1@ == key
}

/// With stacking, two variants in a list make a stack: a row of its own for an
/// asset that has a variant in the list stands only behind the row of its open
/// family. The row of an open family is followed by its members, each in a row
/// of its own.
pub proof fn lemma_variants_are_stacked(lib: Library, list: Seq<usize>, i: int)
    requires
        lib.stack_variants,
        0 <= i < rows_of(lib, list).len(),
    ensures
        rows_of(lib, list)[i] matches RowView::One(a) ==> (forall|j: int, k: int|
            0 <= j < k < list.len() && are_variants(lib, a, #[trigger] list[j]) && are_variants(
                lib,
                a,
                #[trigger] list[k],
            ) ==> exists|h: int|
                0 <= h < i && is_unfolded(lib, #[trigger] rows_of(lib, list)[h]) && rows_of(
                    lib,
                    list,
                )[h]->members.contains(a)),
        rows_of(lib, list)[i] matches RowView::Family { key, members } ==> {
            &&& forall|x: usize| #[trigger]
                members.contains(x) <==> list.contains(x) && are_variants(lib, members[0], x)
            &&& scene::opt_text(lib.assets@[members[0] as int].family) == Some(key)
            &&& is_unfolded(lib, rows_of(lib, list)[i]) ==> forall|m: int|
                0 <= m < members.len() ==> i + 1 + m < rows_of(lib, list).len() && rows_of(
                    lib,
                    list,
                )[i + 1 + m] == RowView::One(#[trigger] members[m])
        },
{
    let n = list.len() as int;
    let rows = rows_of(lib, list);
    let r = lemma_row_place(lib, list, n, i);
    let (at, from) = r;
    let off = i - from;
    let mine = rows_at(lib, list, at);
    assert forall|k: int| 0 <= k < mine.len() implies #[trigger] mine[k] == rows[from + k] by {
        assert(rows.subrange(from, from + mine.len())[k] == rows[from + k]);
    }
    assert(mine[off] == rows[i]);
    let a = lib.assets@[list[at] as int];
    let members = kin_of(lib, list, list[at]);
    lemma_kin(lib, list, list[at]);
    if let RowView::One(x) = rows[i] {
        if off == 0 {
            assert(x == list[at]);
            assert forall|j: int, k: int|
                0 <= j < k < list.len() && are_variants(lib, x, #[trigger] list[j]) && are_variants(
                    lib,
                    x,
                    #[trigger] list[k],
                ) implies false by {
                lemma_kin_two(lib, list, x, j, k);
            }
        } else {
            assert(mine == seq![RowView::Family { key: a.family->0@, members }] + singles(members));
            assert(mine[off] == singles(members)[off - 1]);
            assert(members[off - 1] == x);
            assert(mine[0] == rows[from]);
            lemma_kin_first(lib, list, at);
            let e = choose|e: int|
                0 <= e < lib.expanded_families@.len() && is_family(
                    #[trigger] lib.expanded_families@[e],
                    a.folder,
                    a.family->0@,
                );
            assert(lib.expanded_families@[e].0 == a.folder);
            assert(is_unfolded(lib, rows[from]));
            assert(rows[from]->members.contains(x));
        }
    } else {
        assert(off == 0) by {
            if off > 0 {
                assert(mine[off] == singles(members)[off - 1]);
            }
        }
        lemma_kin_first(lib, list, at);
        if is_open(lib, a.folder, a.family->0@) {
            assert forall|m: int| 0 <= m < members.len() implies i + 1 + m < rows.len() && rows[i
                + 1 + m] == RowView::One(#[trigger] members[m]) by {
                assert(mine[1 + m] == singles(members)[m]);
                assert(mine[1 + m] == rows[from + (1 + m)]);
            }
        }
        assert(rows[i] == RowView::Family { key: a.family->0@, members });
        assert forall|x: usize| #[trigger] members.contains(x) <==> list.contains(x)
            && are_variants(lib, members[0], x) by {
            assert(are_kin(lib, list[at], x) == are_variants(lib, members[0], x));
        }
        if is_unfolded(lib, rows[i]) {
            let e = choose|e: int|
                0 <= e < lib.expanded_families@.len() && (#[trigger] lib.expanded_families@[e]).0
                    == a.folder && lib.expanded_families@[e].1@ == a.family->0@;
            assert(is_family(lib.expanded_families@[e], a.folder, a.family->0@));
        }
    }
}

proof fn lemma_kin_two(lib: Library, list: Seq<usize>, asset: usize, j: int, k: int)
    requires
        0 <= j < k < list.len(),
        are_kin(lib, asset, list[j]),
        are_kin(lib, asset, list[k]),
    ensures
        kin_of(lib, list, asset).len() >= 2,
    decreases list.len(),
{
    let before = list.drop_last();
    if k < before.len() {
        lemma_kin_two(lib, before, asset, j, k);
    } else {
        lemma_kin(lib, before, asset);
        assert(before[j] == list[j]);
        assert(before.contains(list[j]));
        assert(kin_of(lib, before, asset).contains(list[j]));
    }
}

/// The cursor goes as far as it is told, and stops at the first row and the
/// last.
pub proof fn lemma_the_cursor_stays_on_the_list(cursor: usize, delta: isize, len: nat)
    requires
        len > 0,
    ensures
        0 <= stepped(cursor, delta, len) < len,
        0 <= cursor + delta < len ==> stepped(cursor, delta, len) == cursor + delta,
        cursor + delta < 0 ==> stepped(cursor, delta, len) == 0,
        cursor + delta >= len ==> stepped(cursor, delta, len) == len - 1,
{
}

/// The row of an asset is the first that is the asset or a stack with it inside,
/// and there is none only where no row shows it.
pub proof fn lemma_the_first_row_of_an_asset(rows: Seq<RowView>, asset: usize, from: int)
    requires
        0 <= from <= rows.len(),
    ensures
        match row_of(rows, asset, from) {
            Some(i) => from <= i < rows.len() && assets_of(rows[i]).contains(asset) && forall|j: int|
                from <= j < i ==> !assets_of(#[trigger] rows[j]).contains(asset),
            None => forall|j: int|
                from <= j < rows.len() ==> !assets_of(#[trigger] rows[j]).contains(asset),
        },
    decreases rows.len() - from,
{
    if from < rows.len() {
        assert(assets_of(rows[from]).contains(asset) == rows[from].shows(asset)) by {
            if let RowView::One(i) = rows[from] {
                assert(seq![i][0] == i);
            }
        }
        if !rows[from].shows(asset) {
            lemma_the_first_row_of_an_asset(rows, asset, from + 1);
        }
    }
}

} // verus!
