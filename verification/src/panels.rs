//! The words in the browser's panels and in the viewer's chrome.

use vstd::prelude::*;

use crate::browse;
use crate::library;
use crate::library::{Library, Load, Row, RowView, Scope};
use crate::names;
use crate::selection;
use crate::text;
use crate::ui;
use crate::ui::{ScanStatus, Toggle, Tone, ViewerChrome};
use vstd::view::View as _;

verus! {

/// Something said, and how loudly.
pub struct Remark {
    pub text: String,
    pub tone: Tone,
}

/// What the panels see of a remark.
#[verifier::ext_equal]
pub struct RemarkView {
    pub text: Seq<char>,
    pub tone: Tone,
}

impl vstd::view::View for Remark {
    type V = RemarkView;

    open spec fn view(&self) -> RemarkView {
        RemarkView { text: self.text@, tone: self.tone }
    }
}

pub open spec fn remark(text: Seq<char>, tone: Tone) -> RemarkView {
    RemarkView { text, tone }
}

pub open spec fn remarks(list: Seq<Remark>) -> Seq<RemarkView> {
    Seq::new(list.len(), |i: int| list[i]@)
}

fn push_remark(out: &mut Vec<Remark>, text: String, tone: Tone)
    ensures
        remarks(final(out)@) == remarks(old(out)@).push(remark(text@, tone)),
{
    let ghost had = out@;
    let ghost said = text@;
    out.push(Remark { text, tone });
    assert(remarks(out@) =~= remarks(had).push(remark(said, tone)));
}

// ---- the bars ---------------------------------------------------------------
/// What is being browsed.
pub open spec fn scope_text(lib: Library) -> Seq<char> {
    match lib.scope {
        Scope::Folder(f) => lib.folders@[f as int].name@,
        Scope::Collection(c) => if c < lib.collections@.len() {
            lib.collections@[c as int].name@
        } else {
            ""@
        },
    }
}

/// The name of the folder or the collection being browsed.
pub fn scope_name(lib: &Library) -> (r: String)
    requires
        lib.wf(),
    ensures
        r@ == scope_text(*lib),
{
    match lib.scope {
        Scope::Folder(f) => text::copied(lib.folders[f].name.as_str()),
        Scope::Collection(c) => if c < lib.collections.len() {
            text::copied(lib.collections[c].name.as_str())
        } else {
            text::copied("")
        },
    }
}

/// How far the scan has got, for the title bar.
pub fn scan_progress(status: ScanStatus) -> (r: Remark)
    ensures
        r@ == (if status.scanning {
            remark(
                "reading "@ + names::grouped(status.parsed as nat) + " of "@ + names::grouped(
                    status.found as nat,
                ),
                Tone::Warn,
            )
        } else {
            remark("watching "@ + names::grouped(status.found as nat) + " files"@, Tone::Good)
        }),
{
    let found = names::thousands(status.found);
    if status.scanning {
        let mut s = text::cat3("reading ", names::thousands(status.parsed).as_str(), " of ");
        text::push_str(&mut s, found.as_str());
        Remark { text: s, tone: Tone::Warn }
    } else {
        Remark { text: text::cat3("watching ", found.as_str(), " files"), tone: Tone::Good }
    }
}

/// How far the scan has got, for the status bar.
pub fn scan_note(status: ScanStatus) -> (r: Remark)
    ensures
        r@ == (if status.scanning {
            remark(
                "read "@ + names::grouped(status.parsed as nat) + " / "@ + names::grouped(
                    status.found as nat,
                ),
                Tone::Warn,
            )
        } else {
            remark("scan complete"@, Tone::Good)
        }),
{
    if status.scanning {
        let mut s = text::cat3("read ", names::thousands(status.parsed).as_str(), " / ");
        text::push_str(&mut s, names::thousands(status.found).as_str());
        Remark { text: s, tone: Tone::Warn }
    } else {
        Remark { text: text::copied("scan complete"), tone: Tone::Good }
    }
}

/// How many are selected.
pub open spec fn selected_text(n: nat) -> Seq<char> {
    text::decimal(n) + " selected"@
}

pub fn selected_note(lib: &Library) -> (r: String)
    ensures
        r@ == selected_text(lib.selection@.len()),
{
    text::cat(text::number(lib.selection.len() as u64).as_str(), " selected")
}

/// The status bar: what is browsed, what is selected, and what went wrong. A
/// walk that stopped early and a directory that could not be read are said.
pub open spec fn status_remarks(lib: Library, found: usize) -> Seq<RemarkView> {
    let broken = selection::broken(lib, lib.assets@.len() as int);
    let head = seq![
        remark(names::grouped(found as nat) + " in "@ + scope_text(lib), Tone::Faint),
        remark(selected_text(lib.selection@.len()), Tone::Faint),
        remark(
            text::decimal(broken) + " failed to parse"@,
            if broken > 0 {
                Tone::Bad
            } else {
                Tone::Faint
            },
        ),
    ];
    let cut = if lib.truncated {
        head.push(remark("listing truncated"@, Tone::Warn))
    } else {
        head
    };
    if lib.skipped@.len() > 0 {
        cut.push(
            remark(text::decimal(lib.skipped@.len()) + " folders unreadable"@, Tone::Warn),
        )
    } else {
        cut
    }
}

pub fn status_line(lib: &Library, status: ScanStatus) -> (r: Vec<Remark>)
    requires
        lib.wf(),
    ensures
        remarks(r@) == status_remarks(*lib, status.found),
{
    let mut out: Vec<Remark> = Vec::new();
    assert(remarks(out@) =~= Seq::empty());
    let scope = scope_name(lib);
    let place = text::cat3(names::thousands(status.found).as_str(), " in ", scope.as_str());
    push_remark(&mut out, place, Tone::Faint);
    push_remark(&mut out, selected_note(lib), Tone::Faint);
    let failures: usize = lib.failures();
    let broken = text::cat(text::number(failures as u64).as_str(), " failed to parse");
    push_remark(
        &mut out,
        broken,
        if failures > 0 {
            Tone::Bad
        } else {
            Tone::Faint
        },
    );
    if lib.truncated {
        push_remark(&mut out, text::copied("listing truncated"), Tone::Warn);
    }
    if lib.skipped.len() > 0 {
        let n = text::number(lib.skipped.len() as u64);
        push_remark(&mut out, text::cat(n.as_str(), " folders unreadable"), Tone::Warn);
    }
    assert(remarks(out@) =~= status_remarks(*lib, status.found));
    out
}

/// Whether anything narrows the listing down.
pub fn is_narrowed(lib: &Library) -> (r: bool)
    ensures
        r == (!lib.facets.none() || lib.find@.len() > 0),
{
    lib.facets.any() || text::chars_of(lib.find.as_str()).len() > 0
}

/// What an empty listing says.
pub fn empty_text(lib: &Library) -> (r: &'static str)
    ensures
        r@ == (if lib.assets@.len() == 0 {
            "Nothing found under this root."@
        } else if !lib.facets.none() || lib.find@.len() > 0 {
            "No asset matches these filters."@
        } else {
            "This folder holds no .vox files. Open one of its children."@
        }),
{
    if lib.assets.len() == 0 {
        "Nothing found under this root."
    } else if is_narrowed(lib) {
        "No asset matches these filters."
    } else {
        "This folder holds no .vox files. Open one of its children."
    }
}

/// How many assets are listed.
pub fn assets_note(filtered: usize) -> (r: String)
    ensures
        r@ == names::grouped(filtered as nat) + " assets"@,
{
    text::cat(names::thousands(filtered).as_str(), " assets")
}

/// How many rows they make, where stacking makes that another number.
pub fn rows_note(lib: &Library, shown: usize, filtered: usize) -> (r: Option<String>)
    ensures
        ui::opt_text(r) == (if lib.stack_variants && shown != filtered {
            Some(names::grouped(shown as nat) + " rows"@)
        } else {
            None
        }),
{
    if lib.stack_variants && shown != filtered {
        Some(text::cat(names::thousands(shown).as_str(), " rows"))
    } else {
        None
    }
}

/// How many files the filters cannot judge yet.
pub fn pending_note(pending: usize) -> (r: Option<String>)
    ensures
        ui::opt_text(r) == (if pending > 0 {
            Some("  "@ + names::grouped(pending as nat) + " still being read"@)
        } else {
            None
        }),
{
    if pending > 0 {
        Some(text::cat3("  ", names::thousands(pending).as_str(), " still being read"))
    } else {
        None
    }
}

/// A collection in the rail: its name and its size.
pub fn collection_label(collection: &library::Collection) -> (r: String)
    ensures
        r@ == collection.name@ + "   "@ + text::decimal(collection.members@.len()),
{
    text::cat3(
        collection.name.as_str(),
        "   ",
        text::number(collection.members.len() as u64).as_str(),
    )
}

/// What the collection prompt asks.
pub fn prompt_title(targets: usize) -> (r: String)
    ensures
        r@ == "Add "@ + text::decimal(targets as nat) + " asset"@ + ui::plural(targets as int)
            + " to"@,
{
    let mut s = text::cat3("Add ", text::number(targets as u64).as_str(), " asset");
    text::push_str(&mut s, ui::plural_of(targets));
    text::push_str(&mut s, " to");
    s
}

// ---- one asset --------------------------------------------------------------
/// What is known of a file, under its large picture.
pub open spec fn peek_of(load: Load) -> Seq<char> {
    match load {
        Load::Ready(s) => ui::sides(s.dims@) + "   "@ + names::grouped(s.voxels as nat)
            + " voxels"@,
        Load::Pending => "reading\u{2026}"@,
        Load::Failed(why) => why@,
    }
}

pub fn peek_detail(load: &Load) -> (r: String)
    ensures
        r@ == peek_of(*load),
{
    match load {
        Load::Ready(s) => {
            let mut out = ui::sides_text(&s.dims);
            text::push_str(&mut out, "   ");
            text::push_str(&mut out, names::thousands(s.voxels).as_str());
            text::push_str(&mut out, " voxels");
            out
        },
        Load::Pending => text::copied("reading\u{2026}"),
        Load::Failed(why) => text::copied(why.as_str()),
    }
}

/// What a cell is called: a stack by what its members share, a file by its
/// name, and either after its folder where that is not the one being browsed.
pub open spec fn caption_of(lib: Library, row: RowView) -> Seq<char> {
    let folder = lib.assets@[row.first() as int].folder;
    let label = match row {
        RowView::Family { key, members } => key + "-*  ("@ + text::decimal(members.len()) + ")"@,
        RowView::One(i) => lib.assets@[i as int].name@,
    };
    if lib.scope == Scope::Folder(folder) {
        label
    } else {
        lib.folders@[folder as int].name@ + "/"@ + label
    }
}

pub fn caption(lib: &Library, row: &Row) -> (r: String)
    requires
        lib.wf(),
        row@.wf(),
        row@.first() < lib.assets@.len(),
    ensures
        r@ == caption_of(*lib, row@),
{
    let asset: usize = row.lead();
    assert(lib.assets@[asset as int].folder < lib.folders@.len());
    let label = match row {
        Row::Family { key, members } => {
            let n = text::number(members.len() as u64);
            let mut s = text::cat3(key.as_str(), "-*  (", n.as_str());
            text::push_str(&mut s, ")");
            s
        },
        Row::One(i) => text::copied(lib.assets[*i].name.as_str()),
    };
    match lib.folder_hint(asset) {
        Some(folder) => text::cat3(folder, "/", label.as_str()),
        None => label,
    }
}

/// The line under a cell's name.
pub open spec fn detail_of(lib: Library, row: RowView) -> RemarkView {
    match lib.assets@[row.first() as int].load {
        Load::Ready(s) => remark(
            match ui::extent_text(lib, row) {
                Some(t) => t,
                None => ui::sides(s.dims@),
            },
            Tone::Faint,
        ),
        Load::Pending => remark("reading\u{2026}"@, Tone::Faint),
        Load::Failed(_) => remark("would not parse"@, Tone::Bad),
    }
}

pub fn detail(lib: &Library, row: &Row) -> (r: Remark)
    requires
        row@.wf(),
        ui::row_fits(*lib, row@),
    ensures
        r@ == detail_of(*lib, row@),
{
    assert(ui::members_of(row@)[0] == row@.first());
    match &lib.assets[row.lead()].load {
        Load::Ready(s) => {
            let t = match ui::extent_of(lib, row) {
                Some(t) => t,
                None => ui::sides_text(&s.dims),
            };
            Remark { text: t, tone: Tone::Faint }
        },
        Load::Pending => Remark { text: text::copied("reading\u{2026}"), tone: Tone::Faint },
        Load::Failed(_) => Remark { text: text::copied("would not parse"), tone: Tone::Bad },
    }
}

/// The extent column of the list.
pub open spec fn column_of(lib: Library, row: RowView) -> RemarkView {
    match ui::extent_text(lib, row) {
        Some(t) => remark(
            t,
            if t == "varies"@ {
                Tone::Warn
            } else {
                Tone::Dim
            },
        ),
        None => if lib.assets@[row.first() as int].load is Failed {
            remark("--"@, Tone::Bad)
        } else {
            remark("\u{2026}"@, Tone::Faint)
        },
    }
}

pub fn extent_column(lib: &Library, row: &Row) -> (r: Remark)
    requires
        row@.wf(),
        ui::row_fits(*lib, row@),
    ensures
        r@ == column_of(*lib, row@),
{
    assert(ui::members_of(row@)[0] == row@.first());
    match ui::extent_of(lib, row) {
        Some(t) => {
            let varies = text::is_text(&text::chars_of(t.as_str()), "varies");
            Remark {
                text: t,
                tone: if varies {
                    Tone::Warn
                } else {
                    Tone::Dim
                },
            }
        },
        None => if lib.assets[row.lead()].failed() {
            Remark { text: text::copied("--"), tone: Tone::Bad }
        } else {
            Remark { text: text::copied("\u{2026}"), tone: Tone::Faint }
        },
    }
}

/// How a name is drawn in the list: what it shares with its family, dimmed,
/// and the tail, which is the only part that tells two siblings apart.
pub open spec fn name_parts(lib: Library, asset: int) -> (Seq<char>, Seq<char>) {
    let name = lib.assets@[asset].name@;
    match lib.assets@[asset].family {
        Some(key) if lib.stack_variants => {
            let tail = names::tail_of(name, key@);
            (name.subrange(0, name.len() - tail.len()), tail)
        },
        _ => (Seq::empty(), name),
    }
}

proof fn lemma_separators_only_shorten(s: Seq<char>)
    ensures
        names::without_separators(s).len() <= s.len(),
    decreases s.len(),
{
    if s.len() > 0 {
        lemma_separators_only_shorten(s.subrange(1, s.len() as int));
    }
}

proof fn lemma_tail_is_no_longer(name: Seq<char>, key: Seq<char>)
    ensures
        names::tail_of(name, key).len() <= name.len(),
{
    if key.len() <= name.len() {
        lemma_separators_only_shorten(name.subrange(key.len() as int, name.len() as int));
    }
}

pub fn split_name(lib: &Library, asset: usize) -> (r: (String, String))
    requires
        asset < lib.assets@.len(),
    ensures
        (r.0@, r.1@) == name_parts(*lib, asset as int),
{
    let name = lib.assets[asset].name.as_str();
    if lib.stack_variants {
        if let Some(key) = &lib.assets[asset].family {
            proof {
                lemma_tail_is_no_longer(name@, key@);
            }
            let tail = names::family_tail(name, key.as_str());
            let chars = text::chars_of(name);
            let n: usize = text::chars_of(tail).len();
            let head = text::string_of(&text::slice(&chars, 0, chars.len() - n));
            return (head, text::copied(tail));
        }
    }
    let none = text::copied("");
    assert(none@ =~= Seq::empty()) by {
        reveal_strlit("");
    }
    (none, text::copied(name))
}

/// The badge of a stack: how many files it holds.
pub fn stack_badge(files: usize) -> (r: String)
    ensures
        r@ == "\u{d7}"@ + text::decimal(files as nat),
{
    text::cat("\u{d7}", text::number(files as u64).as_str())
}

/// How a stack is named in the list.
pub fn stack_name(key: &str) -> (r: String)
    ensures
        r@ == key@ + "-*"@,
{
    text::cat(key, "-*")
}

/// How many files a stack holds, in the list.
pub fn files_label(files: usize) -> (r: String)
    ensures
        r@ == text::decimal(files as nat) + " files"@,
{
    text::cat(text::number(files as u64).as_str(), " files")
}

/// The button that puts some assets into a collection.
pub fn collect_label(assets: usize) -> (r: String)
    ensures
        r@ == "+ Collection ("@ + text::decimal(assets as nat) + ")"@,
{
    text::cat3("+ Collection (", text::number(assets as u64).as_str(), ")")
}

/// One line of the inspector.
pub struct Stat {
    pub key: &'static str,
    pub value: String,
}

pub open spec fn stat_views(list: Seq<Stat>) -> Seq<(Seq<char>, Seq<char>)> {
    Seq::new(list.len(), |i: int| (list[i].key@, list[i].value@))
}

/// What the inspector says of a file that was read.
pub open spec fn inspected(s: library::AssetStats) -> Seq<(Seq<char>, Seq<char>)> {
    seq![
        ("Extent"@, ui::sides(s.dims@)),
        ("Voxels"@, names::grouped(s.voxels as nat)),
        ("Triangles"@, names::grouped(s.triangles as nat)),
        ("Models"@, text::decimal(s.models as nat)),
        ("Instances"@, text::decimal(s.instances as nat)),
        (
            "Palette"@,
            if s.palette_from_file {
                "from file"@
            } else {
                "MagicaVoxel default"@
            },
        ),
        ("On disk"@, ui::size_text(s.bytes)),
    ]
}

pub fn inspect(s: &library::AssetStats) -> (r: Vec<Stat>)
    ensures
        stat_views(r@) == inspected(*s),
{
    let mut out: Vec<Stat> = Vec::new();
    out.push(Stat { key: "Extent", value: ui::sides_text(&s.dims) });
    out.push(Stat { key: "Voxels", value: names::thousands(s.voxels) });
    out.push(Stat { key: "Triangles", value: names::thousands(s.triangles) });
    out.push(Stat { key: "Models", value: text::number(s.models as u64) });
    out.push(Stat { key: "Instances", value: text::number(s.instances as u64) });
    let palette = if s.palette_from_file {
        "from file"
    } else {
        "MagicaVoxel default"
    };
    out.push(Stat { key: "Palette", value: text::copied(palette) });
    out.push(Stat { key: "On disk", value: ui::bytes(s.bytes) });
    assert(stat_views(out@) =~= inspected(*s));
    out
}

// ---- the viewer's chrome ----------------------------------------------------
/// Where the file on screen lies: below its folder, or by its name alone where
/// it lies directly under the root.
pub fn where_it_is(lib: &Library, chrome: &ViewerChrome) -> (r: String)
    requires
        chrome.current matches Some(a) ==> a < lib.assets@.len(),
    ensures
        r@ == (match chrome.current {
            Some(a) if browse::directory_of(*lib, a as int).len() > 0 => browse::directory_of(
                *lib,
                a as int,
            ) + "/"@ + chrome.name@,
            _ => chrome.name@,
        }),
{
    if let Some(a) = chrome.current {
        let folder = lib.directory(a);
        if text::chars_of(folder.as_str()).len() > 0 {
            return text::cat3(folder.as_str(), "/", chrome.name);
        }
    }
    text::copied(chrome.name)
}

/// A switch in the viewer's corner.
#[derive(Clone, Copy)]
pub struct Pill {
    pub label: &'static str,
    pub on: bool,
    pub toggle: Toggle,
}

/// Overlay switches, in the order the keys are laid out.
pub fn pills(chrome: &ViewerChrome) -> (r: [Pill; 5])
    ensures
        r@.len() == 5,
        r@[0].label@ == "Grid  G"@ && r@[0].on == chrome.show_grid && r@[0].toggle == Toggle::Grid,
        r@[1].label@ == "Box  B"@ && r@[1].on == chrome.show_bbox && r@[1].toggle == Toggle::Bbox,
        r@[2].label@ == "Axes  A"@ && r@[2].on == chrome.show_axes && r@[2].toggle == Toggle::Axes,
        r@[3].label@ == "AO  O"@ && r@[3].on == chrome.occlusion && r@[3].toggle
            == Toggle::Occlusion,
        r@[4].label@ == "Ortho  5"@ && r@[4].on == chrome.orthographic && r@[4].toggle
            == Toggle::Orthographic,
{
    [
        Pill { label: "Grid  G", on: chrome.show_grid, toggle: Toggle::Grid },
        Pill { label: "Box  B", on: chrome.show_bbox, toggle: Toggle::Bbox },
        Pill { label: "Axes  A", on: chrome.show_axes, toggle: Toggle::Axes },
        Pill { label: "AO  O", on: chrome.occlusion, toggle: Toggle::Occlusion },
        Pill { label: "Ortho  5", on: chrome.orthographic, toggle: Toggle::Orthographic },
    ]
}

/// The pill that cycles the sample count.
pub fn samples_label(samples: u32) -> (r: String)
    ensures
        r@ == (if samples == 1 {
            "MSAA off  S"@
        } else {
            "MSAA "@ + text::decimal(samples as nat) + "x  S"@
        }),
{
    if samples == 1 {
        text::copied("MSAA off  S")
    } else {
        text::cat3("MSAA ", text::number(samples as u64).as_str(), "x  S")
    }
}

/// Where the file on screen stands in the set being walked.
pub open spec fn place_in(order: Seq<usize>, current: Option<usize>) -> Option<int> {
    match current {
        Some(a) => order.index_of_first(a),
        None => None,
    }
}

/// The filmstrip's counter.
pub fn counter(order: &Vec<usize>, current: Option<usize>) -> (r: String)
    ensures
        r@ == (match place_in(order@, current) {
            Some(i) => text::decimal((i + 1) as nat) + " / "@ + text::decimal(order@.len()),
            None => "\u{2013} / "@ + text::decimal(order@.len()),
        }),
{
    let of = text::number(order.len() as u64);
    let at = match current {
        Some(a) => selection::position(order, a),
        None => None,
    };
    proof {
        if let Some(a) = current {
            order@.index_of_first_ensures(a);
        }
    }
    match at {
        Some(i) => text::cat3(text::number(i as u64 + 1).as_str(), " / ", of.as_str()),
        None => text::cat("\u{2013} / ", of.as_str()),
    }
}

proof fn lemma_separators_stand_first(s: Seq<char>)
    ensures
        names::without_separators(s) == s.subrange(
            s.len() - names::without_separators(s).len(),
            s.len() as int,
        ),
    decreases s.len(),
{
    lemma_separators_only_shorten(s);
    if s.len() > 0 {
        let rest = s.subrange(1, s.len() as int);
        lemma_separators_stand_first(rest);
        lemma_separators_only_shorten(rest);
    }
}

/// A name on screen is the two parts it is shown in, one after the other.
pub proof fn lemma_a_name_is_shown_whole(lib: Library, asset: int)
    requires
        0 <= asset < lib.assets@.len(),
    ensures
        name_parts(lib, asset).0 + name_parts(lib, asset).1 == lib.assets@[asset].name@,
        !lib.stack_variants ==> name_parts(lib, asset).0.len() == 0,
        lib.assets@[asset].family is None ==> name_parts(lib, asset).0.len() == 0,
{
    let name = lib.assets@[asset].name@;
    if let Some(key) = lib.assets@[asset].family {
        lemma_tail_is_no_longer(name, key@);
        if names::starts_with(name, key@) {
            let rest = name.subrange(key@.len() as int, name.len() as int);
            lemma_separators_stand_first(rest);
            lemma_separators_only_shorten(rest);
        }
        let tail = names::tail_of(name, key@);
        assert(tail =~= name.subrange(name.len() - tail.len(), name.len() as int));
    }
    assert(name_parts(lib, asset).0 + name_parts(lib, asset).1 =~= name);
}

/// A row is captioned with the name of its asset, or of its stack with how many
/// are in it, and with the folder before it unless that folder is open.
pub proof fn lemma_a_caption_names_the_folder_elsewhere(lib: Library, i: usize)
    requires
        i < lib.assets@.len(),
    ensures
        ({
            let a = lib.assets@[i as int];
            let here = lib.scope matches Scope::Folder(f) && f == a.folder;
            &&& here ==> caption_of(lib, RowView::One(i)) == a.name@
            &&& !here ==> caption_of(lib, RowView::One(i)) == lib.folders@[a.folder as int].name@
                + "/"@ + a.name@
        }),
        forall|key: Seq<char>, members: Seq<usize>|
            members.len() > 0 && members[0] == i ==> {
                let f = lib.assets@[i as int].folder;
                let here = lib.scope matches Scope::Folder(g) && g == f;
                let label = key + "-*  ("@ + text::decimal(members.len()) + ")"@;
                #[trigger] caption_of(lib, family_row(key, members)) == (if here {
                    label
                } else {
                    lib.folders@[f as int].name@ + "/"@ + label
                })
            },
{
}

/// The row of a family.
pub open spec fn family_row(key: Seq<char>, members: Seq<usize>) -> RowView {
    RowView::Family { key, members }
}

/// What the status bar says: how many files there are and where, how many are
/// selected, how many could not be read, and a warning where the listing was cut
/// short or folders could not be opened.
pub proof fn lemma_the_status_bar_warns(lib: Library, found: usize)
    ensures
        ({
            let said = status_remarks(lib, found);
            let (cut, shut) = (lib.truncated, lib.skipped@.len() > 0);
            &&& said.len() == 3 + (if cut {
                1int
            } else {
                0int
            }) + (if shut {
                1int
            } else {
                0int
            })
            &&& said[0].text == names::grouped(found as nat) + " in "@ + scope_text(lib)
            &&& said[1].text == text::decimal(lib.selection@.len()) + " selected"@
            &&& said[2].tone == Tone::Bad <==> exists|i: int|
                0 <= i < lib.assets@.len() && (#[trigger] lib.assets@[i]).load is Failed
            &&& cut ==> said[3] == remark("listing truncated"@, Tone::Warn)
            &&& shut ==> said.last() == remark(
                text::decimal(lib.skipped@.len()) + " folders unreadable"@,
                Tone::Warn,
            )
        }),
{
    lemma_something_broke(lib, lib.assets@.len() as int);
}

proof fn lemma_something_broke(lib: Library, n: int)
    requires
        0 <= n <= lib.assets@.len(),
    ensures
        selection::broken(lib, n) > 0 <==> exists|i: int|
            0 <= i < n && (#[trigger] lib.assets@[i]).load is Failed,
    decreases n,
{
    if n > 0 {
        lemma_something_broke(lib, n - 1);
        if lib.assets@[n - 1].load is Failed {
            assert(lib.assets@[n - 1].load is Failed);
        }
    }
}

} // verus!
