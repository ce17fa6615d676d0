//! The file menu: a scrolling, filterable list of the `.vox` files on offer.
//!
//! `[` and `]` page blindly through a directory, which is fine for a handful
//! of files and useless for the 1,886 in a single npc folder. The menu shows
//! the listing, marks where you are in it, and lets you type to narrow it
//! down.
//!
//! State only: the drawing is [`crate::hud::layout`] on the lines this
//! produces. The one thing that has to be kept honest is that clicking a row
//! selects the row that was drawn, so the hit box is recorded during layout
//! from the same [`crate::hud::Metrics`] the renderer uses.

use vstd::prelude::*;

use crate::hud;
use crate::hud::{Anchor, Color, HudLine, LineView, Metrics};
use crate::paths;
use crate::selection::position;
use crate::text;

verus! {

/// Longest file name shown before it is elided. The panel is sized from this
/// rather than from whatever happens to be on screen, so it does not jitter
/// as the list scrolls.
pub const NAME_WIDTH: usize = 34;

/// How wide every line of the menu is.
pub const LINE_WIDTH: usize = 36;

/// Rows reserved for the title, the filter line, the footer and the two
/// "more above/below" markers. Fixed rather than computed, because the
/// visible-row count feeds back into whether the markers are needed at all.
pub const CHROME_ROWS: usize = 5;

/// Lines above the first file row.
pub const HEADER_ROWS: usize = 3;

/// What lies under a point on screen.
#[derive(Clone, Copy, Debug, PartialEq, Eq, Structural)]
pub enum Hit {
    /// A file row, carrying its index into the path list.
    Row(usize),
    /// Inside the panel but not on a row: the title, filter or footer.
    Panel,
}

/// The pixel rectangle the menu last occupied.
#[derive(Clone, Copy, Debug)]
pub struct HitBox {
    pub x0: i64,
    pub y0: i64,
    pub x1: i64,
    pub y1: i64,
    pub first_row_top: i64,
    pub line_h: i64,
    pub visible: usize,
}

pub struct Menu {
    pub open: bool,
    /// Index into `filtered`, not into the path list.
    pub cursor: usize,
    /// First row of `filtered` on screen.
    pub scroll: usize,
    pub filter: String,
    /// Indices into the path list that match `filter`, in listing order.
    pub filtered: Vec<usize>,
    pub hit: Option<HitBox>,
}

// ---- what the menu is about -------------------------------------------------
/// A text with its ASCII letters in lower case.
pub open spec fn lowered(s: Seq<char>) -> Seq<char> {
    Seq::new(s.len(), |i: int| paths::lower_char(s[i]))
}

/// Whether a name is admitted by a filter.
pub open spec fn admits(filter: Seq<char>, name: Seq<char>) -> bool {
    filter.len() == 0 || text::holds(lowered(name), filter)
}

/// Which of the first `n` names a filter admits, in listing order.
pub open spec fn matching(filter: Seq<char>, names: Seq<String>, n: int) -> Seq<usize>
    decreases n,
{
    if n <= 0 {
        Seq::empty()
    } else {
        let before = matching(filter, names, n - 1);
        if admits(filter, names[n - 1]@) {
            before.push((n - 1) as usize)
        } else {
            before
        }
    }
}

/// A number no less than the first bound and no greater than the second.
pub open spec fn clamped(n: int, lo: int, hi: int) -> int {
    if n < lo {
        lo
    } else if n > hi {
        hi
    } else {
        n
    }
}

/// The smaller of two numbers.
pub open spec fn least(a: int, b: int) -> int {
    if a <= b {
        a
    } else {
        b
    }
}

/// What one number is over another, and nothing where it is not.
pub open spec fn over(a: int, b: int) -> int {
    if a > b {
        a - b
    } else {
        0
    }
}

fn same_list(a: &Vec<usize>, b: &Vec<usize>) -> (r: bool)
    ensures
        r == (a@ == b@),
{
    if a.len() != b.len() {
        return false;
    }
    let mut i: usize = 0;
    while i < a.len()
        invariant
            a@.len() == b@.len(),
            i <= a@.len(),
            forall|k: int| 0 <= k < i ==> a@[k] == b@[k],
        decreases a@.len() - i,
    {
        if a[i] != b[i] {
            return false;
        }
        i += 1;
    }
    assert(a@ =~= b@);
    true
}

/// The place of a file in the list, or the first place.
pub open spec fn place_of(filtered: Seq<usize>, file: Option<usize>) -> int {
    match file {
        Some(f) => match filtered.index_of_first(f) {
            Some(at) => at,
            None => 0,
        },
        None => 0,
    }
}

impl Menu {
    /// The path index under the cursor.
    pub open spec fn chosen(self) -> Option<usize> {
        if self.cursor < self.filtered@.len() {
            Some(self.filtered@[self.cursor as int])
        } else {
            None
        }
    }

    /// How many file rows are on screen.
    pub open spec fn rows(self) -> int {
        match self.hit {
            Some(b) => b.visible as int,
            None => 1,
        }
    }

    /// How far the list can be scrolled.
    pub open spec fn farthest(self) -> int {
        over(self.filtered@.len() as int, self.rows())
    }

    /// Whether every entry is one of so many names.
    pub open spec fn lists(self, names: nat) -> bool {
        forall|i: int| 0 <= i < self.filtered@.len() ==> (#[trigger] self.filtered@[i]) < names
    }

    /// Whether this is another menu with a new filter: the matches are those
    /// of the filter, the cursor is on the same file if it survived and on the
    /// first match if it did not, and the view is still on the list.
    pub open spec fn refiltered(self, was: Menu, filter: Seq<char>, names: Seq<String>) -> bool {
        &&& self.filter@ == filter
        &&& self.filtered@ == matching(filter, names, names.len() as int)
        &&& self.cursor == place_of(self.filtered@, was.chosen())
        &&& self.scroll == least(was.scroll as int, self.farthest())
        &&& self.hit == was.hit
        &&& self.lists(names.len())
    }

    /// Whether this is another menu opened on the file that is on screen: the
    /// whole directory is listed.
    pub open spec fn opened_on(self, was: Menu, names: Seq<String>, current: usize) -> bool {
        &&& self.open
        &&& self.filter@.len() == 0
        &&& self.filtered@ == matching(Seq::empty(), names, names.len() as int)
        &&& self.cursor == (match self.filtered@.index_of_first(current) {
            Some(at) => at,
            None => place_of(self.filtered@, was.chosen()),
        })
        &&& self.scroll == least(was.scroll as int, self.farthest())
        &&& self.hit == was.hit
        &&& self.lists(names.len())
    }

    /// Whether this is another menu with the cursor put on a file, where the
    /// filter admits it.
    pub open spec fn followed(self, was: Menu, current: usize) -> bool {
        &&& self.cursor == (match was.filtered@.index_of_first(current) {
            Some(at) => at,
            None => was.cursor as int,
        })
        &&& self == (Menu { cursor: self.cursor, ..was })
    }

    /// Whether this is another menu with the cursor moved by some rows: clamped
    /// rather than wrapped, and not at all where nothing is listed.
    pub open spec fn stepped(self, was: Menu, step: int) -> bool {
        if was.filtered@.len() == 0 {
            self == was
        } else {
            self == (Menu {
                cursor: clamped(was.cursor + step, 0, was.filtered@.len() - 1) as usize,
                ..was
            })
        }
    }

    /// Whether this is another menu with the view moved by some rows.
    pub open spec fn scrolled(self, was: Menu, rows: int) -> bool {
        &&& self.scroll == clamped(was.scroll + rows, 0, was.farthest())
        &&& self == (Menu { scroll: self.scroll, ..was })
    }

    /// Whether this is another menu after it was drawn: the cursor is on the
    /// list, and the view moved so that it shows.
    pub open spec fn redrawn(self, was: Menu, m: Metrics, height: u32, names: int) -> bool {
        let len = was.filtered@.len() as int;
        let visible = room(m, height, names);
        let cursor = least(was.cursor as int, over(len, 1));
        &&& self.cursor == cursor
        &&& self.scroll == settled(cursor, was.scroll as int, visible, len)
        &&& self.hit matches Some(b) && b.visible == visible
        &&& self == (Menu { cursor: self.cursor, scroll: self.scroll, hit: self.hit, ..was })
    }

    pub fn new() -> (r: Menu)
        ensures
            !r.open,
            r.cursor == 0,
            r.scroll == 0,
            r.filter@.len() == 0,
            r.filtered@.len() == 0,
            r.hit is None,
    {
        Menu {
            open: false,
            cursor: 0,
            scroll: 0,
            filter: String::new(),
            filtered: Vec::new(),
            hit: None,
        }
    }

    pub fn is_open(&self) -> (r: bool)
        ensures
            r == self.open,
    {
        self.open
    }

    /// Open on `current`, or close if already open.
    pub fn toggle(&mut self, names: &[String], current: usize)
        ensures
            final(self).open == !old(self).open,
            old(self).open ==> *final(self) == (Menu { open: false, hit: None, ..*old(self) }),
            !old(self).open ==> final(self).opened_on(*old(self), names@, current),
    {
        if self.open {
            self.close();
        } else {
            self.open = true;
            // Open on the whole directory. A filter left over from the last
            // time the menu was up would silently hide files, and the only
            // clue would be one line of chrome.
            self.filter = String::new();
            self.refilter(names);
            self.follow(current);
            assert(self.filter@ =~= Seq::empty());
        }
    }

    pub fn close(&mut self)
        ensures
            *final(self) == (Menu { open: false, hit: None, ..*old(self) }),
    {
        self.open = false;
        self.hit = None;
    }

    /// Put the cursor on `current` if the filter admits it.
    ///
    /// Called whenever the file changes by some other route, so paging with
    /// `[` and `]` keeps the open menu in step.
    pub fn follow(&mut self, current: usize)
        ensures
            final(self).followed(*old(self), current),
    {
        if let Some(at) = position(&self.filtered, current) {
            self.cursor = at;
        }
    }

    /// The path index under the cursor.
    pub fn selection(&self) -> (r: Option<usize>)
        ensures
            r == self.chosen(),
    {
        if self.cursor < self.filtered.len() {
            Some(self.filtered[self.cursor])
        } else {
            None
        }
    }

    /// Move the cursor `step` rows and report the file to show.
    ///
    /// Returns `None` only when the filter matches nothing; otherwise the
    /// cursor always lands somewhere, so moving is always a live preview.
    pub fn step(&mut self, step: isize) -> (r: Option<usize>)
        ensures
            final(self).stepped(*old(self), step as int),
            r == (if old(self).filtered@.len() == 0 {
                None
            } else {
                Some(
                    old(self).filtered@[clamped(
                        old(self).cursor + step,
                        0,
                        old(self).filtered@.len() - 1,
                    )],
                )
            }),
    {
        let len: usize = self.filtered.len();
        if len == 0 {
            return None;
        }
        // Clamped rather than wrapped: a page down near the end should stop at
        // the end, not jump back to the top.
        self.cursor = clamp(self.cursor, step, len - 1);
        self.selection()
    }

    /// How many file rows a page-sized jump covers: a screenful, or ten where
    /// the menu has not been drawn yet.
    pub open spec fn page_size(self) -> int {
        match self.hit {
            Some(b) => if b.visible >= 1 {
                b.visible as int
            } else {
                1
            },
            None => 10,
        }
    }

    /// How many file rows a page-sized jump covers.
    pub fn page(&self) -> (r: isize)
        requires
            self.rows() <= isize::MAX,
        ensures
            r == self.page_size(),
    {
        match self.hit {
            Some(b) => if b.visible >= 1 {
                b.visible as isize
            } else {
                1
            },
            None => 10,
        }
    }

    /// Scroll the view without moving the cursor, for the mouse wheel.
    pub fn scroll_by(&mut self, rows: isize)
        ensures
            final(self).scrolled(*old(self), rows as int),
    {
        let max: usize = self.max_scroll();
        self.scroll = clamp(self.scroll, rows, max);
    }

    /// How many file rows are on screen.
    pub fn visible(&self) -> (r: usize)
        ensures
            r == self.rows(),
    {
        match self.hit {
            Some(b) => b.visible,
            None => 1,
        }
    }

    fn max_scroll(&self) -> (r: usize)
        ensures
            r == self.farthest(),
    {
        excess(self.filtered.len(), self.visible())
    }

    /// Add a character to the filter. Returns true if the list changed.
    pub fn filter_push(&mut self, c: char, names: &[String]) -> (r: bool)
        ensures
            r <==> final(self).filtered@ != old(self).filtered@,
            final(self).open == old(self).open,
            final(self).refiltered(
                *old(self),
                old(self).filter@.push(paths::lower_char(c)),
                names@,
            ),
    {
        let before = self.filtered.clone();
        self.filter.push(paths::ascii_lower(c));
        self.refilter(names);
        !same_list(&before, &self.filtered)
    }

    /// Remove the last character. Returns true if there was one.
    pub fn filter_pop(&mut self, names: &[String]) -> (r: bool)
        ensures
            r == (old(self).filter@.len() > 0),
            !r ==> *final(self) == *old(self),
            r ==> final(self).open == old(self).open && final(self).refiltered(
                *old(self),
                old(self).filter@.drop_last(),
                names@,
            ),
    {
        let chars = text::chars_of(self.filter.as_str());
        if chars.len() == 0 {
            return false;
        }
        self.filter = text::string_of(&text::slice(&chars, 0, chars.len() - 1));
        assert(self.filter@ =~= old(self).filter@.drop_last());
        self.refilter(names);
        true
    }

    /// Drop the filter entirely. Returns true if there was one.
    pub fn filter_clear(&mut self, names: &[String]) -> (r: bool)
        ensures
            r == (old(self).filter@.len() > 0),
            !r ==> *final(self) == *old(self),
            r ==> final(self).open == old(self).open && final(self).refiltered(
                *old(self),
                Seq::empty(),
                names@,
            ),
    {
        if text::chars_of(self.filter.as_str()).len() == 0 {
            return false;
        }
        self.filter = String::new();
        assert(self.filter@ =~= Seq::empty());
        self.refilter(names);
        true
    }

    /// Rebuild the match list, keeping the cursor on the same file if it
    /// survived and parking it on the first match if it did not.
    fn refilter(&mut self, names: &[String])
        ensures
            final(self).open == old(self).open,
            final(self).refiltered(*old(self), old(self).filter@, names@),
    {
        let previous = self.selection();
        let filter = text::chars_of(self.filter.as_str());
        let mut filtered: Vec<usize> = Vec::new();
        let mut i: usize = 0;
        while i < names.len()
            invariant
                i <= names@.len(),
                filtered@ == matching(filter@, names@, i as int),
                forall|k: int| 0 <= k < filtered@.len() ==> (#[trigger] filtered@[k]) < i,
            decreases names@.len() - i,
        {
            if filter.len() == 0 || text::contains(&lower(&names[i]), &filter) {
                filtered.push(i);
            }
            i += 1;
        }
        self.filtered = filtered;
        self.cursor = match previous {
            // Narrowing the filter usually drops the current file; landing on
            // the first match is more useful than landing on nothing.
            Some(p) => match position(&self.filtered, p) {
                Some(at) => at,
                None => 0,
            },
            None => 0,
        };
        let max: usize = self.max_scroll();
        if self.scroll > max {
            self.scroll = max;
        }
    }
}

/// A name in lower case.
pub(crate) fn lower(name: &String) -> (r: Vec<char>)
    ensures
        r@ == lowered(name@),
{
    let chars = text::chars_of(name.as_str());
    let mut out: Vec<char> = Vec::new();
    let mut i: usize = 0;
    while i < chars.len()
        invariant
            i <= chars@.len(),
            out@ == lowered(chars@.subrange(0, i as int)),
        decreases chars@.len() - i,
    {
        out.push(paths::ascii_lower(chars[i]));
        i += 1;
        assert(out@ =~= lowered(chars@.subrange(0, i as int)));
    }
    assert(chars@.subrange(0, i as int) =~= chars@);
    out
}

/// Move along by some steps, staying between the start and `max`.
fn clamp(from: usize, step: isize, max: usize) -> (r: usize)
    ensures
        r == clamped(from + step, 0, max as int),
{
    let wide: i128 = from as i128 + step as i128;
    if wide < 0 {
        0
    } else if wide > max as i128 {
        max
    } else {
        wide as usize
    }
}

/// What one count is over another.
fn excess(a: usize, b: usize) -> (r: usize)
    ensures
        r == over(a as int, b as int),
{
    if a > b {
        a - b
    } else {
        0
    }
}

// ---- drawing ----------------------------------------------------------------
/// A row of spaces.
pub open spec fn spaces(n: int) -> Seq<char> {
    Seq::new(
        if n > 0 {
            n as nat
        } else {
            0
        },
        |i: int| ' ',
    )
}

/// A text filled up with spaces to the width of the menu.
pub open spec fn padded(s: Seq<char>) -> Seq<char> {
    s + spaces(LINE_WIDTH - s.len())
}

/// A name shortened to fit, its tail kept.
pub open spec fn elided(name: Seq<char>) -> Seq<char> {
    if name.len() <= NAME_WIDTH {
        name
    } else {
        seq!['.', '.'] + name.subrange(name.len() - (NAME_WIDTH - 2), name.len() as int)
    }
}

/// How many file rows there is room for.
pub open spec fn room(m: Metrics, height: u32, names: int) -> int {
    let fit = over(m.fitting(height), CHROME_ROWS as int);
    least(
        if fit < 1 {
            1
        } else {
            fit
        },
        if names < 1 {
            1
        } else {
            names
        },
    )
}

/// The first row on screen once the cursor is in view, the view moved as
/// little as possible.
pub open spec fn settled(cursor: int, scroll: int, visible: int, len: int) -> int {
    let near = if cursor < scroll {
        cursor
    } else if cursor >= scroll + visible {
        cursor + 1 - visible
    } else {
        scroll
    };
    least(near, over(len, visible))
}

pub open spec fn dim(s: Seq<char>) -> LineView {
    LineView { text: padded(s), color: Color::Dim }
}

/// "more above" or "more below", where there is more.
pub open spec fn marker(arrow: Seq<char>, n: int, word: Seq<char>) -> Seq<char> {
    if n > 0 {
        arrow + text::decimal(n as nat) + word
    } else {
        Seq::empty()
    }
}

/// A file row: `>` marks the file on screen, the highlight bar the cursor.
pub open spec fn file_row(menu: Menu, names: Seq<String>, current: usize, row: int) -> LineView {
    let at = menu.scroll + row;
    let index = menu.filtered@[at];
    let mark = if index == current {
        seq!['>', ' ']
    } else {
        seq![' ', ' ']
    };
    LineView {
        text: padded(mark + elided(names[index as int]@)),
        color: if at == menu.cursor {
            Color::Selected
        } else {
            Color::Dim
        },
    }
}

/// The file rows on screen.
pub open spec fn file_rows(menu: Menu, names: Seq<String>, current: usize) -> Seq<LineView> {
    Seq::new(
        least(menu.rows(), over(menu.filtered@.len() as int, menu.scroll as int)) as nat,
        |row: int| file_row(menu, names, current, row),
    )
}

/// The lines above the files.
pub open spec fn header(menu: Menu, title: Seq<char>) -> Seq<LineView> {
    seq![
        LineView { text: padded(elided(title)), color: Color::Normal },
        dim("find: "@ + menu.filter@ + seq!['_']),
        dim(marker("  ^ "@, menu.scroll as int, " above"@)),
    ]
}

/// The line in place of files where none match.
pub open spec fn notice(menu: Menu) -> Seq<LineView> {
    if menu.filtered@.len() == 0 {
        seq![dim("  no match"@)]
    } else {
        Seq::empty()
    }
}

/// The lines below the files.
pub open spec fn footer(menu: Menu) -> Seq<LineView> {
    let len = menu.filtered@.len() as int;
    let at = if len == 0 {
        0
    } else {
        menu.cursor + 1
    };
    seq![
        dim(marker("  v "@, over(len, menu.scroll + menu.rows()), " below"@)),
        dim(
            text::decimal(at as nat) + seq!['/'] + text::decimal(len as nat)
                + "  type to find  [Esc] close"@,
        ),
    ]
}

/// The whole panel of a menu that has been settled.
pub open spec fn panel_lines(
    menu: Menu,
    names: Seq<String>,
    title: Seq<char>,
    current: usize,
) -> Seq<LineView> {
    header(menu, title) + notice(menu) + file_rows(menu, names, current) + footer(menu)
}

/// Whether a hit box is where a panel of some lines was drawn.
pub open spec fn boxes(
    b: HitBox,
    m: Metrics,
    lines: Seq<HudLine>,
    visible: int,
    viewport: (u32, u32),
) -> bool {
    let width = m.width(hud::widest_of(lines, lines.len() as int));
    let corner = m.corner(Anchor::TopRight, width, viewport);
    &&& b.x0 == corner.0
    &&& b.y0 == corner.1
    &&& b.x1 == corner.0 + width
    &&& b.y1 == corner.1 + m.height(lines.len() as int)
    &&& b.first_row_top == corner.1 + m.padding() + HEADER_ROWS * m.line()
    &&& b.line_h == m.line()
    &&& b.visible == visible
}

/// Shorten a name that would stretch the panel, keeping the tail visible --
/// packs tell `foot_br` from `foot_fr` at the end, not the start.
pub fn elide(name: &str) -> (r: String)
    ensures
        r@ == elided(name@),
{
    let chars = text::chars_of(name);
    let n: usize = chars.len();
    if n <= NAME_WIDTH {
        let s = text::string_of(&chars);
        assert(s@ =~= name@);
        return s;
    }
    let mut s = String::new();
    s.push('.');
    s.push('.');
    let tail = text::slice(&chars, n - (NAME_WIDTH - 2), n);
    text::push_chars(&mut s, &tail);
    assert(s@ =~= elided(name@));
    s
}

/// Fill a text up with spaces to the width of the menu.
fn pad(text: String) -> (r: String)
    ensures
        r@ == padded(text@),
{
    let mut s = text;
    let ghost start = s@;
    let mut n: usize = text::chars_of(s.as_str()).len();
    let ghost count = n as int;
    assert(s@ =~= start + spaces(0));
    while n < LINE_WIDTH
        invariant
            count <= n,
            count == start.len(),
            n <= LINE_WIDTH || n == count,
            s@ == start + spaces(n - count),
        decreases LINE_WIDTH - n,
    {
        s.push(' ');
        n += 1;
        assert(s@ =~= start + spaces(n - count));
    }
    assert(s@ =~= padded(start));
    s
}

fn marker_line(arrow: &str, n: usize, word: &str) -> (r: HudLine)
    ensures
        (LineView { text: r.text@, color: r.color }) == dim(marker(arrow@, n as int, word@)),
{
    let mut s = String::new();
    if n > 0 {
        text::push_str(&mut s, arrow);
        text::push_decimal(&mut s, n as u64);
        text::push_str(&mut s, word);
        assert(s@ =~= marker(arrow@, n as int, word@));
    } else {
        assert(s@ =~= Seq::empty());
    }
    HudLine::dim(pad(s))
}

/// Whether one menu has the state that another shows.
pub open spec fn same_page(a: Menu, b: Menu) -> bool {
    &&& a.cursor == b.cursor
    &&& a.scroll == b.scroll
    &&& a.filter == b.filter
    &&& a.filtered == b.filtered
    &&& a.rows() == b.rows()
}

proof fn lemma_same_page(a: Menu, b: Menu, names: Seq<String>, title: Seq<char>, current: usize)
    requires
        same_page(a, b),
    ensures
        panel_lines(a, names, title, current) == panel_lines(b, names, title, current),
{
    assert(file_rows(a, names, current) =~= file_rows(b, names, current)) by {
        assert forall|row: int| 0 <= row < file_rows(a, names, current).len() implies file_rows(
            a,
            names,
            current,
        )[row] == file_rows(b, names, current)[row] by {
            assert(file_row(a, names, current, row) == file_row(b, names, current, row));
        }
    }
}

/// What every line of a panel is at most as long as.
pub open spec fn longest_line(filter: Seq<char>) -> int {
    filter.len() as int + 100
}

proof fn lemma_elided(name: Seq<char>)
    ensures
        elided(name).len() <= NAME_WIDTH,
{
}

proof fn lemma_panel_lengths(menu: Menu, names: Seq<String>, title: Seq<char>, current: usize)
    requires
        menu.filtered@.len() <= u64::MAX,
        menu.cursor + 1 <= u64::MAX || menu.filtered@.len() == 0,
        menu.rows() >= 0,
    ensures
        forall|i: int|
            0 <= i < panel_lines(menu, names, title, current).len() ==> (#[trigger] panel_lines(
                menu,
                names,
                title,
                current,
            )[i]).text.len() <= longest_line(menu.filter@),
{
    reveal_strlit("find: ");
    reveal_strlit("  ^ ");
    reveal_strlit("  v ");
    reveal_strlit(" above");
    reveal_strlit(" below");
    reveal_strlit("  no match");
    reveal_strlit("  type to find  [Esc] close");
    let len = menu.filtered@.len() as int;
    text::lemma_decimal_short(menu.scroll as u64);
    text::lemma_decimal_short(over(len, menu.scroll + menu.rows()) as u64);
    text::lemma_decimal_short(len as u64);
    let at = if len == 0 {
        0
    } else {
        menu.cursor + 1
    };
    text::lemma_decimal_short(at as u64);
    lemma_elided(title);
    let (a, b, c, d) = (
        header(menu, title),
        notice(menu),
        file_rows(menu, names, current),
        footer(menu),
    );
    let all = panel_lines(menu, names, title, current);
    let bound = longest_line(menu.filter@);
    assert(forall|i: int| 0 <= i < a.len() ==> (#[trigger] a[i]).text.len() <= bound);
    assert(forall|i: int| 0 <= i < b.len() ==> (#[trigger] b[i]).text.len() <= bound);
    assert forall|i: int| 0 <= i < c.len() implies (#[trigger] c[i]).text.len() <= bound by {
        lemma_elided(names[menu.filtered@[menu.scroll + i] as int]@);
        assert(c[i] == file_row(menu, names, current, i));
    }
    assert(forall|i: int| 0 <= i < d.len() ==> (#[trigger] d[i]).text.len() <= bound);
    assert forall|i: int| 0 <= i < all.len() implies (#[trigger] all[i]).text.len() <= bound by {
        let (p, q) = (a.len() as int, a.len() + b.len());
        let r = q + c.len();
        if i < p {
            assert(all[i] == a[i]);
        } else if i < q {
            assert(all[i] == b[i - p]);
        } else if i < r {
            assert(all[i] == c[i - q]);
        } else {
            assert(all[i] == d[i - r]);
        }
    }
}

impl Menu {
    /// The point of the menu under a point in physical pixels.
    pub open spec fn under(self, x: i64, y: i64) -> Option<Hit> {
        match self.hit {
            None => None,
            Some(b) => if !self.open || x < b.x0 || x > b.x1 || y < b.y0 || y > b.y1 {
                None
            } else if y < b.first_row_top {
                Some(Hit::Panel)
            } else {
                let row = (y - b.first_row_top) / (b.line_h as int);
                if row < b.visible && self.scroll + row < self.filtered@.len() {
                    Some(Hit::Row(self.filtered@[self.scroll + row]))
                } else {
                    Some(Hit::Panel)
                }
            },
        }
    }

    /// What lies under a point in physical pixels, or `None` if the menu is
    /// closed or the point is outside it.
    pub fn hit(&self, x: i64, y: i64) -> (r: Option<Hit>)
        requires
            self.hit matches Some(b) ==> b.line_h > 0,
        ensures
            r == self.under(x, y),
    {
        if !self.open {
            return None;
        }
        match self.hit {
            None => None,
            Some(b) => {
                if x < b.x0 || x > b.x1 || y < b.y0 || y > b.y1 {
                    return None;
                }
                if y < b.first_row_top {
                    return Some(Hit::Panel);
                }
                let down: i128 = y as i128 - b.first_row_top as i128;
                let row: i128 = down / b.line_h as i128;
                if row >= b.visible as i128 {
                    return Some(Hit::Panel);
                }
                let at: i128 = self.scroll as i128 + row;
                // Past the end of a short list: inside the panel, on nothing.
                if at >= self.filtered.len() as i128 {
                    return Some(Hit::Panel);
                }
                Some(Hit::Row(self.filtered[at as usize]))
            },
        }
    }

    /// The lines of the panel, for a menu that has been settled.
    fn draw(&self, names: &[String], title: &str, current: usize) -> (r: Vec<HudLine>)
        requires
            self.lists(names@.len()),
            self.filtered@.len() == 0 || self.cursor < self.filtered@.len(),
        ensures
            hud::line_views(r@) == panel_lines(*self, names@, title@, current),
    {
        let len: usize = self.filtered.len();
        let visible: usize = self.visible();
        let mut lines: Vec<HudLine> = Vec::new();
        assert(hud::line_views(lines@) =~= Seq::empty());
        let line = HudLine::normal(pad(elide(title)));
        proof {
            hud::lemma_line_push(lines@, line);
        }
        lines.push(line);
        let mut find = text::copied("find: ");
        text::push_str(&mut find, self.filter.as_str());
        find.push('_');
        assert(find@ =~= "find: "@ + self.filter@ + seq!['_']);
        let line = HudLine::dim(pad(find));
        proof {
            hud::lemma_line_push(lines@, line);
        }
        lines.push(line);
        let line = marker_line("  ^ ", self.scroll, " above");
        proof {
            hud::lemma_line_push(lines@, line);
        }
        lines.push(line);
        assert(hud::line_views(lines@) =~= header(*self, title@));
        if len == 0 {
            let line = HudLine::dim(pad(text::copied("  no match")));
            proof {
                hud::lemma_line_push(lines@, line);
            }
            lines.push(line);
        }
        let ghost top = header(*self, title@) + notice(*self);
        assert(hud::line_views(lines@) =~= top);
        let left: usize = excess(len, self.scroll);
        let count: usize = if visible <= left {
            visible
        } else {
            left
        };
        let ghost rows = file_rows(*self, names@, current);
        let mut row: usize = 0;
        assert(hud::line_views(lines@) =~= top + rows.subrange(0, 0));
        while row < count
            invariant
                self.lists(names@.len()),
                len == self.filtered@.len(),
                rows == file_rows(*self, names@, current),
                count == rows.len(),
                count <= over(self.filtered@.len() as int, self.scroll as int),
                row <= count,
                hud::line_views(lines@) == top + rows.subrange(0, row as int),
            decreases count - row,
        {
            let at: usize = self.scroll + row;
            let index: usize = self.filtered[at];
            // `>` marks the file on screen; the highlight bar marks the cursor.
            let mut s = String::new();
            s.push(
                if index == current {
                    '>'
                } else {
                    ' '
                },
            );
            s.push(' ');
            let name = elide(names[index].as_str());
            text::push_str(&mut s, name.as_str());
            let ghost mark = if index == current {
                seq!['>', ' ']
            } else {
                seq![' ', ' ']
            };
            assert(s@ =~= mark + elided(names@[index as int]@));
            let filled = pad(s);
            let line = if at == self.cursor {
                HudLine::selected(filled)
            } else {
                HudLine::dim(filled)
            };
            proof {
                hud::lemma_line_push(lines@, line);
                let view = LineView { text: line.text@, color: line.color };
                assert(view == file_row(*self, names@, current, row as int));
                assert(rows.subrange(0, row + 1) =~= rows.subrange(0, row as int).push(view));
                assert((top + rows.subrange(0, row as int)).push(view) =~= top + rows.subrange(
                    0,
                    row + 1,
                ));
            }
            lines.push(line);
            row += 1;
        }
        assert(rows.subrange(0, row as int) =~= rows);
        let below: usize = excess(left, visible);
        let line = marker_line("  v ", below, " below");
        proof {
            hud::lemma_line_push(lines@, line);
        }
        lines.push(line);
        let mut s = String::new();
        text::push_decimal(
            &mut s,
            if len == 0 {
                0
            } else {
                self.cursor as u64 + 1
            },
        );
        s.push('/');
        text::push_decimal(&mut s, len as u64);
        text::push_str(&mut s, "  type to find  [Esc] close");
        let ghost at = if len == 0 {
            0
        } else {
            self.cursor + 1
        };
        assert(s@ =~= text::decimal(at as nat) + seq!['/'] + text::decimal(len as nat)
            + "  type to find  [Esc] close"@);
        let line = HudLine::dim(pad(s));
        proof {
            hud::lemma_line_push(lines@, line);
        }
        lines.push(line);
        assert(hud::line_views(lines@) =~= panel_lines(*self, names@, title@, current));
        lines
    }

    /// Build the panel, and record where it landed so [`Menu::hit`] can map
    /// clicks back onto rows.
    ///
    /// `current` is the file actually on screen, which is not always the one
    /// under the cursor: typing a filter moves the cursor without loading.
    pub fn lines(
        &mut self,
        names: &[String],
        title: &str,
        current: usize,
        m: &Metrics,
        viewport: (u32, u32),
    ) -> (r: Vec<HudLine>)
        requires
            old(self).lists(names@.len()),
            m.scale > 0,
            old(self).filter@.len() < hud::FAR - 100,
        ensures
            final(self).redrawn(*old(self), *m, viewport.1, names@.len() as int),
            final(self).hit matches Some(b) && boxes(
                b,
                *m,
                r@,
                room(*m, viewport.1, names@.len() as int),
                viewport,
            ),
            hud::line_views(r@) == panel_lines(*final(self), names@, title@, current),
    {
        let len: usize = self.filtered.len();
        let visible: usize = visible_rows(m, viewport.1, names.len());
        proof {
            m.lemma_fitting(viewport.1);
        }
        let last: usize = excess(len, 1);
        if self.cursor > last {
            self.cursor = last;
        }
        // Keep the cursor on screen, moving the view as little as possible.
        if self.cursor < self.scroll {
            self.scroll = self.cursor;
        } else if self.cursor - self.scroll >= visible {
            self.scroll = self.cursor - (visible - 1);
        }
        let max: usize = excess(len, visible);
        if self.scroll > max {
            self.scroll = max;
        }
        self.hit = Some(
            HitBox { x0: 0, y0: 0, x1: 0, y1: 0, first_row_top: 0, line_h: 0, visible },
        );
        let lines = self.draw(names, title, current);
        let ghost settled_to = *self;
        proof {
            let all = panel_lines(*self, names@, title@, current);
            lemma_panel_lengths(*self, names@, title@, current);
            assert(hud::line_views(lines@).len() == lines@.len());
            assert(all.len() <= 6 + visible);
            assert forall|i: int| 0 <= i < lines@.len() implies (#[trigger] lines@[i]).text@.len()
                < hud::FAR by {
                assert(hud::line_views(lines@)[i] == all[i]);
            }
        }
        let size: (i64, i64) = m.panel_size(&lines);
        let origin: (i64, i64) = m.origin(Anchor::TopRight, size, viewport);
        proof {
            m.lemma_bounds();
        }
        self.hit = Some(
            HitBox {
                x0: origin.0,
                y0: origin.1,
                x1: origin.0 + size.0,
                y1: origin.1 + size.1,
                first_row_top: m.row_top(origin, HEADER_ROWS),
                line_h: m.line_h(),
                visible,
            },
        );
        proof {
            lemma_same_page(settled_to, *self, names@, title@, current);
        }
        lines
    }
}

/// How many file rows there is room for.
fn visible_rows(m: &Metrics, height: u32, names: usize) -> (r: usize)
    requires
        m.scale > 0,
    ensures
        r == room(*m, height, names as int),
        1 <= r <= 0x1_0000_0000,
{
    proof {
        m.lemma_fitting(height);
    }
    let fit: usize = excess(m.rows_that_fit(height), CHROME_ROWS);
    let fit: usize = if fit < 1 {
        1
    } else {
        fit
    };
    let most: usize = if names < 1 {
        1
    } else {
        names
    };
    if fit <= most {
        fit
    } else {
        most
    }
}

// ---- what the menu promises -------------------------------------------------
/// The cursor is on screen once the view has settled.
pub proof fn lemma_the_cursor_stays_on_screen(cursor: int, scroll: int, visible: int, len: int)
    requires
        0 <= cursor < len,
        0 <= scroll,
        1 <= visible,
    ensures
        settled(cursor, scroll, visible, len) <= cursor,
        cursor < settled(cursor, scroll, visible, len) + visible,
        0 <= settled(cursor, scroll, visible, len) <= over(len, visible),
{
}

/// The filter admits exactly the matching names, each once, in listing order.
pub proof fn lemma_the_filter_lists_what_matches(
    filter: Seq<char>,
    names: Seq<String>,
    n: int,
)
    requires
        0 <= n <= names.len() <= usize::MAX,
    ensures
        forall|i: int|
            0 <= i < n ==> (#[trigger] matching(filter, names, n).contains(i as usize) <==> admits(
                filter,
                names[i]@,
            )),
        forall|j: int, k: int|
            0 <= j < k < matching(filter, names, n).len() ==> (#[trigger] matching(
                filter,
                names,
                n,
            )[j]) < (#[trigger] matching(filter, names, n)[k]),
        forall|j: int|
            0 <= j < matching(filter, names, n).len() ==> (#[trigger] matching(
                filter,
                names,
                n,
            )[j]) < n,
    decreases n,
{
    if n > 0 {
        lemma_the_filter_lists_what_matches(filter, names, n - 1);
        let (before, all) = (matching(filter, names, n - 1), matching(filter, names, n));
        assert forall|i: int| 0 <= i < n implies (#[trigger] all.contains(i as usize) <==> admits(
            filter,
            names[i]@,
        )) by {
            if i < n - 1 {
                assert(before.contains(i as usize) <==> admits(filter, names[i]@));
                if before.contains(i as usize) {
                    let k = choose|k: int| 0 <= k < before.len() && before[k] == i as usize;
                    assert(all[k] == i as usize);
                }
                if all.contains(i as usize) {
                    let k = choose|k: int| 0 <= k < all.len() && all[k] == i as usize;
                    if k == before.len() {
                        assert(all[k] == (n - 1) as usize);
                    } else {
                        assert(before[k] == i as usize);
                        assert(before.contains(i as usize));
                    }
                }
            } else {
                if admits(filter, names[i]@) {
                    assert(all[before.len() as int] == i as usize);
                } else if all.contains(i as usize) {
                    let k = choose|k: int| 0 <= k < all.len() && all[k] == i as usize;
                    assert(before[k] < n - 1);
                }
            }
        }
    }
}

proof fn lemma_everything_matches(names: Seq<String>, n: int)
    requires
        0 <= n <= names.len(),
    ensures
        matching(Seq::empty(), names, n) == Seq::new(n as nat, |i: int| i as usize),
    decreases n,
{
    if n > 0 {
        lemma_everything_matches(names, n - 1);
    }
    assert(matching(Seq::empty(), names, n) =~= Seq::new(n as nat, |i: int| i as usize));
}

/// Without a filter the whole directory is listed, and a menu that is opened
/// lands on the file that is on screen.
pub proof fn lemma_opening_lists_the_whole_directory(names: Seq<String>, current: usize)
    requires
        names.len() <= usize::MAX,
    ensures
        matching(Seq::empty(), names, names.len() as int).len() == names.len(),
        current < names.len() ==> matching(
            Seq::empty(),
            names,
            names.len() as int,
        ).index_of_first(current) == Some(current as int),
{
    lemma_everything_matches(names, names.len() as int);
    let all = matching(Seq::empty(), names, names.len() as int);
    if current < names.len() {
        all.index_of_first_ensures(current);
        assert(all[current as int] == current);
        let at = all.index_of_first(current)->0;
        assert(all[at] == at as usize);
    }
}

/// Clicking anywhere in a row selects the row that was drawn there: the file
/// whose name stands in it.
pub proof fn lemma_clicking_selects_the_row_drawn(
    menu: Menu,
    names: Seq<String>,
    title: Seq<char>,
    current: usize,
    m: Metrics,
    lines: Seq<HudLine>,
    viewport: (u32, u32),
    row: int,
    x: i64,
    y: i64,
)
    requires
        m.scale > 0,
        menu.open,
        menu.hit matches Some(b) && boxes(b, m, lines, menu.rows(), viewport) && b.x0 <= x <= b.x1
            && b.first_row_top + row * m.line() <= y < b.first_row_top + (row + 1) * m.line(),
        hud::line_views(lines) == panel_lines(menu, names, title, current),
        0 <= row < menu.rows(),
        menu.scroll + row < menu.filtered@.len(),
    ensures
        menu.under(x, y) == Some(Hit::Row(menu.filtered@[menu.scroll + row])),
        hud::line_views(lines)[HEADER_ROWS + row] == file_row(menu, names, current, row),
{
    m.lemma_bounds();
    let b = menu.hit->0;
    let line = m.line();
    let rows = file_rows(menu, names, current);
    let all = panel_lines(menu, names, title, current);
    assert(row < rows.len());
    assert(notice(menu) =~= Seq::empty());
    assert(all[HEADER_ROWS + row] == rows[row]);
    assert(hud::line_views(lines).len() == lines.len());
    assert(lines.len() >= HEADER_ROWS + row + 1);
    let down = y - b.first_row_top;
    assert(down / line == row) by (nonlinear_arith)
        requires
            line > 0,
            row * line <= down < (row + 1) * line,
    ;
    let count = lines.len() as int;
    assert(0 <= row * line && (HEADER_ROWS + row + 1) * line <= count * line && (row + 1) * line
        + HEADER_ROWS * line == (HEADER_ROWS + row + 1) * line) by (nonlinear_arith)
        requires
            0 <= row,
            line > 0,
            HEADER_ROWS + row + 1 <= count,
    ;
    assert(0 <= HEADER_ROWS * line) by (nonlinear_arith)
        requires
            line > 0,
    ;
}

/// Every line has one width, however long the names and the title are, so the
/// panel does not jitter as the list scrolls.
pub proof fn lemma_the_panel_has_a_stable_width(
    menu: Menu,
    names: Seq<String>,
    title: Seq<char>,
    current: usize,
    i: int,
)
    requires
        menu.filter@.len() + 7 <= LINE_WIDTH,
        menu.filtered@.len() < 10_000,
        menu.cursor < menu.filtered@.len() || menu.filtered@.len() == 0,
        menu.rows() >= 0,
        0 <= i < panel_lines(menu, names, title, current).len(),
    ensures
        panel_lines(menu, names, title, current)[i].text.len() == LINE_WIDTH,
{
    reveal_strlit("find: ");
    reveal_strlit("  ^ ");
    reveal_strlit("  v ");
    reveal_strlit(" above");
    reveal_strlit(" below");
    reveal_strlit("  no match");
    reveal_strlit("  type to find  [Esc] close");
    let len = menu.filtered@.len() as int;
    assert(text::pow10(4) == 10_000) by {
        reveal_with_fuel(text::pow10, 5);
    }
    let at = if len == 0 {
        0
    } else {
        menu.cursor + 1
    };
    text::lemma_decimal_short(menu.scroll as u64);
    text::lemma_decimal_short(over(len, menu.scroll + menu.rows()) as u64);
    text::lemma_decimal_length(len as nat, 4);
    text::lemma_decimal_length(at as nat, 4);
    lemma_elided(title);
    let (a, b, c, d) = (
        header(menu, title),
        notice(menu),
        file_rows(menu, names, current),
        footer(menu),
    );
    let all = panel_lines(menu, names, title, current);
    let (p, q) = (a.len() as int, a.len() + b.len());
    let r = q + c.len();
    if i < p {
        assert(all[i] == a[i]);
        assert(a[0].text.len() == LINE_WIDTH && a[1].text.len() == LINE_WIDTH && a[2].text.len()
            == LINE_WIDTH);
    } else if i < q {
        assert(all[i] == b[i - p]);
    } else if i < r {
        assert(all[i] == c[i - q]);
        lemma_elided(names[menu.filtered@[menu.scroll + (i - q)] as int]@);
        assert(c[i - q] == file_row(menu, names, current, i - q));
    } else {
        assert(all[i] == d[i - r]);
        assert(d[0].text.len() == LINE_WIDTH && d[1].text.len() == LINE_WIDTH);
    }
}

/// Whether a menu lists what its filter admits, with the cursor on the list.
pub open spec fn in_step(menu: Menu, names: Seq<String>) -> bool {
    &&& menu.filtered@ == matching(menu.filter@, names, names.len() as int)
    &&& menu.cursor < menu.filtered@.len() || menu.filtered@.len() == 0
}

/// Whether a menu is another one after it was stepped, scrolled, filtered, put
/// on a file or drawn.
pub open spec fn handled(now: Menu, was: Menu, names: Seq<String>) -> bool {
    ||| exists|step: int| now.stepped(was, step)
    ||| exists|rows: int| now.scrolled(was, rows)
    ||| exists|filter: Seq<char>| now.refiltered(was, filter, names)
    ||| exists|current: usize| now.followed(was, current)
    ||| exists|m: Metrics, height: u32| now.redrawn(was, m, height, names.len() as int)
}

/// Whether a menu was opened at the start of a history and only handled since.
pub open spec fn is_history(history: Seq<Menu>, names: Seq<String>, current: usize) -> bool {
    &&& history.len() > 0
    &&& exists|was: Menu| history[0].opened_on(was, names, current)
    &&& forall|i: int, j: int|
        0 <= i < history.len() && j == i + 1 && j < history.len() ==> handled(
            #[trigger] history[j],
            #[trigger] history[i],
            names,
        )
}

proof fn lemma_place(filtered: Seq<usize>, file: Option<usize>)
    ensures
        0 <= place_of(filtered, file),
        place_of(filtered, file) < filtered.len() || filtered.len() == 0,
{
    if let Some(f) = file {
        filtered.index_of_first_ensures(f);
    }
}

proof fn lemma_handled(now: Menu, was: Menu, names: Seq<String>)
    requires
        in_step(was, names),
        handled(now, was, names),
    ensures
        in_step(now, names),
{
    if exists|filter: Seq<char>| now.refiltered(was, filter, names) {
        lemma_place(now.filtered@, was.chosen());
    } else if exists|current: usize| now.followed(was, current) {
        let current = choose|current: usize| now.followed(was, current);
        was.filtered@.index_of_first_ensures(current);
    } else if exists|step: int| now.stepped(was, step) {
        assert(was.filtered.len() == was.filtered@.len());
    }
}

/// However an open menu is stepped, scrolled and filtered, it lists what its
/// filter admits and the cursor stays on the list.
pub proof fn lemma_a_handled_menu_stays_in_step(
    history: Seq<Menu>,
    names: Seq<String>,
    current: usize,
)
    requires
        is_history(history, names, current),
    ensures
        in_step(history.last(), names),
    decreases history.len(),
{
    if history.len() == 1 {
        let was = choose|was: Menu| history[0].opened_on(was, names, current);
        lemma_place(history[0].filtered@, was.chosen());
        history[0].filtered@.index_of_first_ensures(current);
        assert(history[0].filter@ =~= Seq::empty());
    } else {
        let before = history.drop_last();
        assert(before[0] == history[0]);
        assert forall|i: int, j: int|
            0 <= i < before.len() && j == i + 1 && j < before.len() implies handled(
            #[trigger] before[j],
            #[trigger] before[i],
            names,
        ) by {
            assert(handled(history[j], history[i], names));
        }
        lemma_a_handled_menu_stays_in_step(before, names, current);
        lemma_handled(history[history.len() - 1], history[history.len() - 2], names);
    }
}

/// A menu that was opened and only stepped, scrolled and filtered since is
/// drawn as it should be. Every line has the one width; drawing moves the cursor
/// to no other file; where a name matches the filter, the file under the cursor
/// has a line, highlighted, with its name in it; and where none does, the panel
/// says so and counts none of none.
pub proof fn lemma_an_open_menu_is_drawn_whole(
    history: Seq<Menu>,
    names: Seq<String>,
    opened_on: usize,
    drawn: Menu,
    m: Metrics,
    height: u32,
    title: Seq<char>,
    current: usize,
)
    requires
        is_history(history, names, opened_on),
        names.len() < 10_000,
        history.last().filter@.len() + 7 <= LINE_WIDTH,
        drawn.redrawn(history.last(), m, height, names.len() as int),
    ensures
        forall|i: int|
            0 <= i < panel_lines(drawn, names, title, current).len() ==> (#[trigger] panel_lines(
                drawn,
                names,
                title,
                current,
            )[i]).text.len() == LINE_WIDTH,
        drawn.chosen() == history.last().chosen(),
        (exists|k: int| 0 <= k < names.len() && admits(drawn.filter@, (#[trigger] names[k])@))
            ==> ({
            &&& drawn.chosen() is Some
            &&& panel_lines(drawn, names, title, current)[HEADER_ROWS + drawn.cursor
                - drawn.scroll] == (LineView {
                text: padded(
                    (if drawn.chosen() == Some(current) {
                        seq!['>', ' ']
                    } else {
                        seq![' ', ' ']
                    }) + elided(names[drawn.chosen()->0 as int]@),
                ),
                color: Color::Selected,
            })
        }),
        !(exists|k: int| 0 <= k < names.len() && admits(drawn.filter@, (#[trigger] names[k])@))
            ==> ({
            &&& drawn.chosen() is None
            &&& panel_lines(drawn, names, title, current)[HEADER_ROWS as int] == dim(
                "  no match"@,
            )
            &&& panel_lines(drawn, names, title, current).last() == dim(
                "0/0"@ + "  type to find  [Esc] close"@,
            )
        }),
{
    let was = history.last();
    lemma_a_handled_menu_stays_in_step(history, names, opened_on);
    let len = was.filtered@.len() as int;
    let visible = room(m, height, names.len() as int);
    let all = panel_lines(drawn, names, title, current);
    lemma_matching_len(was.filter@, names, names.len() as int);
    assert forall|i: int| 0 <= i < all.len() implies (#[trigger] all[i]).text.len()
        == LINE_WIDTH by {
        lemma_the_panel_has_a_stable_width(drawn, names, title, current, i);
    }
    lemma_the_filter_lists_what_matches(was.filter@, names, names.len() as int);
    if len > 0 {
        lemma_the_cursor_stays_on_screen(was.cursor as int, was.scroll as int, visible, len);
        let row = drawn.cursor - drawn.scroll;
        let rows = file_rows(drawn, names, current);
        assert(rows[row] == file_row(drawn, names, current, row));
        assert(notice(drawn).len() == 0);
        assert(all[HEADER_ROWS + row] == rows[row]);
        let k = was.filtered@[0] as int;
        assert(was.filtered@.contains(k as usize));
        assert(matching(was.filter@, names, names.len() as int).contains(k as usize));
        assert(admits(drawn.filter@, names[k]@));
    } else {
        assert forall|k: int| 0 <= k < names.len() implies !admits(
            drawn.filter@,
            (#[trigger] names[k])@,
        ) by {
            assert(!was.filtered@.contains(k as usize));
        }
        assert(file_rows(drawn, names, current).len() == 0);
        assert(all[HEADER_ROWS as int] == notice(drawn)[0]);
        assert(all.last() == footer(drawn).last());
        reveal_strlit("0/0");
        reveal_with_fuel(text::decimal, 2);
        assert(text::decimal(0) + seq!['/'] + text::decimal(0) =~= "0/0"@);
    }
}

proof fn lemma_matching_len(filter: Seq<char>, names: Seq<String>, n: int)
    requires
        0 <= n,
    ensures
        matching(filter, names, n).len() <= n,
    decreases n,
{
    if n > 0 {
        lemma_matching_len(filter, names, n - 1);
    }
}

// ---- what the menu does -----------------------------------------------------
/// A name of at most thirty-four characters is shown whole. Of a longer one the
/// last thirty-two are shown, behind two dots.
pub proof fn lemma_a_long_name_keeps_its_end(name: Seq<char>)
    ensures
        name.len() <= 34 ==> elided(name) == name,
        name.len() > 34 ==> {
            &&& elided(name).len() == 34
            &&& elided(name)[0] == '.' && elided(name)[1] == '.'
            &&& forall|i: int|
                0 <= i < 32 ==> elided(name)[33 - i] == #[trigger] name[name.len() - 1 - i]
        },
{
}

/// A line is filled up to thirty-six columns with spaces behind its text.
pub proof fn lemma_a_line_is_filled_with_spaces(s: Seq<char>)
    ensures
        padded(s).len() == (if s.len() < 36 {
            36
        } else {
            s.len()
        }),
        padded(s).subrange(0, s.len() as int) == s,
        forall|i: int| s.len() <= i < padded(s).len() ==> #[trigger] padded(s)[i] == ' ',
{
    assert(padded(s).subrange(0, s.len() as int) =~= s);
}

/// A step moves the cursor by what it says, and no further than the first file
/// and the last.
pub proof fn lemma_a_step_stays_on_the_list(now: Menu, was: Menu, step: int)
    requires
        now.stepped(was, step),
        was.cursor < was.filtered@.len(),
    ensures
        now.filtered == was.filtered,
        0 <= was.cursor + step < was.filtered@.len() ==> now.cursor == was.cursor + step,
        was.cursor + step < 0 ==> now.cursor == 0,
        was.cursor + step >= was.filtered@.len() ==> now.cursor == was.filtered@.len() - 1,
        now.chosen() == Some(was.filtered@[now.cursor as int]),
{
    assert(was.filtered.len() == was.filtered@.len());
}

/// The wheel moves the list by what it says, and no further than its first row
/// at the top and its last at the bottom; the cursor stays on its file.
pub proof fn lemma_the_wheel_stays_on_the_list(now: Menu, was: Menu, rows: int)
    requires
        now.scrolled(was, rows),
        was.hit matches Some(b) && b.visible <= was.filtered@.len(),
    ensures
        now.chosen() == was.chosen(),
        was.scroll + rows < 0 ==> now.scroll == 0,
        0 <= was.scroll + rows && was.scroll + rows + was.hit->0.visible <= was.filtered@.len()
            ==> now.scroll == was.scroll + rows,
        0 <= was.scroll + rows && was.scroll + rows + was.hit->0.visible > was.filtered@.len()
            ==> now.scroll + was.hit->0.visible == was.filtered@.len(),
{
}

/// The list scrolls only where it has to: it stays where the cursor is on
/// screen and the list fills it, and else moves just so far that the cursor is
/// on the first row or the last.
pub proof fn lemma_the_list_scrolls_only_when_it_must(
    cursor: int,
    scroll: int,
    visible: int,
    len: int,
)
    requires
        0 <= cursor < len,
        0 <= scroll,
        1 <= visible <= len,
    ensures
        scroll <= cursor < scroll + visible && scroll + visible <= len ==> settled(
            cursor,
            scroll,
            visible,
            len,
        ) == scroll,
        cursor < scroll && cursor + visible <= len ==> settled(cursor, scroll, visible, len)
            == cursor,
        cursor >= scroll + visible ==> settled(cursor, scroll, visible, len) + visible - 1
            == cursor,
        settled(cursor, scroll, visible, len) + visible <= len,
{
}

/// A name answers a filter where the filter stands in it, whatever the case of
/// the letters A to Z; every name answers an empty one.
pub proof fn lemma_what_answers_a_filter(filter: Seq<char>, name: Seq<char>)
    ensures
        filter.len() == 0 ==> admits(filter, name),
        admits(filter, name) <==> exists|at: int|
            0 <= at <= name.len() - filter.len() && #[trigger] text::stands_at(
                lowered(name),
                filter,
                at,
            ),
        forall|i: int|
            0 <= i < name.len() ==> {
                let (c, l) = (name[i], #[trigger] lowered(name)[i]);
                if 'A' <= c && c <= 'Z' {
                    l as u32 == c as u32 + 32
                } else {
                    l == c
                }
            },
{
    if filter.len() == 0 {
        assert(lowered(name).subrange(0, 0) =~= filter);
        assert(text::stands_at(lowered(name), filter, 0));
    }
}

/// Of the files drawn, the one on screen has a mark before its name, and the one
/// under the cursor is in another colour.
pub proof fn lemma_a_row_shows_its_file(menu: Menu, names: Seq<String>, current: usize, row: int)
    requires
        0 <= row < file_rows(menu, names, current).len(),
        menu.rows() >= 0,
    ensures
        ({
            let file = menu.filtered@[menu.scroll + row];
            let line = file_rows(menu, names, current)[row];
            &&& line.text.len() >= 36
            &&& line.text[0] == (if file == current {
                '>'
            } else {
                ' '
            })
            &&& line.text[1] == ' '
            &&& names[file as int]@.len() <= 34 ==> line.text.subrange(
                2,
                2 + names[file as int]@.len() as int,
            ) == names[file as int]@
            &&& line.color == (if Some(file) == menu.chosen() && menu.scroll + row == menu.cursor {
                Color::Selected
            } else {
                Color::Dim
            })
        }),
{
    let file = menu.filtered@[menu.scroll + row];
    let line = file_rows(menu, names, current)[row];
    if names[file as int]@.len() <= 34 {
        assert(line.text.subrange(2, 2 + names[file as int]@.len() as int) =~= names[file as int]@);
    }
}

/// What a point lies on: a row where it is in the panel and on one of the rows
/// that hold a file, the rest of the panel elsewhere in it, and nothing outside.
pub proof fn lemma_what_lies_under_a_point(menu: Menu, x: i64, y: i64)
    requires
        menu.hit matches Some(b) && b.line_h > 0 && b.y0 <= b.first_row_top,
    ensures
        ({
            let b = menu.hit->0;
            let inside = menu.open && b.x0 <= x <= b.x1 && b.y0 <= y <= b.y1;
            &&& menu.under(x, y) is None <==> !inside
            &&& menu.under(x, y) matches Some(Hit::Row(f)) ==> exists|row: int|
                0 <= row < b.visible && b.first_row_top + row * b.line_h <= y < b.first_row_top + (
                row + 1) * b.line_h && menu.scroll + row < menu.filtered@.len() && f
                    == #[trigger] menu.filtered@[menu.scroll + row]
            &&& inside && y < b.first_row_top ==> menu.under(x, y) == Some(Hit::Panel)
        }),
{
    let b = menu.hit->0;
    if let Some(Hit::Row(f)) = menu.under(x, y) {
        let h = b.line_h as int;
        let row = (y - b.first_row_top) / h;
        vstd::arithmetic::div_mod::lemma_fundamental_div_mod(y - b.first_row_top, h);
        assert(row * h <= y - b.first_row_top < (row + 1) * h) by (nonlinear_arith)
            requires
                h > 0,
                y - b.first_row_top == h * row + (y - b.first_row_top) % h,
                0 <= (y - b.first_row_top) % h < h,
        ;
        assert(row >= 0) by (nonlinear_arith)
            requires
                h > 0,
                0 <= y - b.first_row_top < (row + 1) * h,
        ;
        assert(f == menu.filtered@[menu.scroll + row]);
    }
}

/// A page is the rows on screen, ten where none were drawn yet, and never less
/// than one.
pub proof fn lemma_a_page_is_a_screenful(menu: Menu)
    ensures
        menu.hit matches Some(b) ==> menu.page_size() == (if b.visible == 0 {
            1
        } else {
            b.visible as int
        }),
        menu.hit is None ==> menu.page_size() == 10,
{
}

/// Typing and deleting keep the cursor on its file as long as that file is
/// listed, and else put it on the first.
pub proof fn lemma_the_cursor_keeps_its_file(
    now: Menu,
    was: Menu,
    filter: Seq<char>,
    names: Seq<String>,
)
    requires
        now.refiltered(was, filter, names),
        was.cursor < was.filtered@.len(),
        names.len() <= usize::MAX,
    ensures
        now.filtered@.contains(was.filtered@[was.cursor as int]) ==> now.chosen() == was.chosen(),
        !now.filtered@.contains(was.filtered@[was.cursor as int]) ==> now.cursor == 0,
{
    now.filtered@.index_of_first_ensures(was.filtered@[was.cursor as int]);
}

} // verus!
