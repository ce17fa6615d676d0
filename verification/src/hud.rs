//! Laying out the HUD: a panel of text in a corner of the window.
//!
//! Produces screen-space quads in physical pixels, naming the glyph and the
//! ink of each; the renderer looks those up. The pixel scale is an integer, so
//! every edge falls on a whole pixel and glyphs stay crisp on HiDPI displays.

use vstd::prelude::*;

use crate::text;

verus! {

/// Margin between the window edge and the panel, in unscaled pixels.
pub const MARGIN: i64 = 8;

/// Padding inside the panel.
pub const PADDING: i64 = 6;

/// Extra space between baselines, on top of the glyph cell height.
pub const LEADING: i64 = 2;

/// More lines than any panel has, and more characters than any line has.
pub const FAR: u64 = 0x100_0000_0000;

/// The small set of colours the HUD uses.
#[derive(Clone, Copy, Debug, PartialEq, Eq, Structural)]
pub enum Color {
    Normal,
    Dim,
    Error,
    /// A line with a bar behind it.
    Selected,
}

impl Color {
    pub open spec fn bytes(self) -> Seq<u8> {
        match self {
            Color::Normal | Color::Selected => seq![235u8, 238u8, 242u8],
            Color::Dim => seq![150u8, 155u8, 165u8],
            Color::Error => seq![255u8, 120u8, 100u8],
        }
    }

    /// The colour of the letters, in sRGB bytes.
    pub fn srgb(self) -> (r: [u8; 3])
        ensures
            r@ == self.bytes(),
    {
        let r = match self {
            Color::Normal | Color::Selected => [235u8, 238, 242],
            Color::Dim => [150u8, 155, 165],
            Color::Error => [255u8, 120, 100],
        };
        assert(r@ =~= self.bytes());
        r
    }
}

/// One line of HUD text.
#[derive(Clone, Debug, PartialEq)]
pub struct HudLine {
    pub text: String,
    pub color: Color,
}

impl HudLine {
    pub fn normal(text: String) -> (r: HudLine)
        ensures
            r == (HudLine { text, color: Color::Normal }),
    {
        HudLine { text, color: Color::Normal }
    }

    pub fn dim(text: String) -> (r: HudLine)
        ensures
            r == (HudLine { text, color: Color::Dim }),
    {
        HudLine { text, color: Color::Dim }
    }

    pub fn error(text: String) -> (r: HudLine)
        ensures
            r == (HudLine { text, color: Color::Error }),
    {
        HudLine { text, color: Color::Error }
    }

    /// The line the cursor is on.
    pub fn selected(text: String) -> (r: HudLine)
        ensures
            r == (HudLine { text, color: Color::Selected }),
    {
        HudLine { text, color: Color::Selected }
    }
}

/// What a line says, and in what colour.
pub struct LineView {
    pub text: Seq<char>,
    pub color: Color,
}

/// Lines as mathematical values.
pub open spec fn line_views(lines: Seq<HudLine>) -> Seq<LineView> {
    Seq::new(lines.len(), |i: int| LineView { text: lines[i].text@, color: lines[i].color })
}

pub proof fn lemma_line_push(lines: Seq<HudLine>, line: HudLine)
    ensures
        line_views(lines.push(line)) == line_views(lines).push(
            LineView { text: line.text@, color: line.color },
        ),
{
    assert(line_views(lines.push(line)) =~= line_views(lines).push(
        LineView { text: line.text@, color: line.color },
    ));
}

/// Which corner of the window a panel hangs in.
#[derive(Clone, Copy, Debug, PartialEq, Eq, Structural)]
pub enum Anchor {
    TopLeft,
    TopRight,
}

/// Sizes in physical pixels, from the font's cell and the pixel scale.
#[derive(Clone, Copy, Debug, PartialEq, Eq, Structural)]
pub struct Metrics {
    pub cell_w: u8,
    pub cell_h: u8,
    pub scale: u8,
}

/// Characters in the longest of the first `n` lines.
pub open spec fn widest_of(lines: Seq<HudLine>, n: int) -> int
    decreases n,
{
    if n <= 0 {
        0
    } else {
        let before = widest_of(lines, n - 1);
        let here = lines[n - 1].text@.len() as int;
        if here > before {
            here
        } else {
            before
        }
    }
}

/// Whether a panel of these lines is one that can be measured.
pub open spec fn measurable(lines: Seq<HudLine>) -> bool {
    &&& lines.len() < FAR
    &&& forall|i: int| 0 <= i < lines.len() ==> (#[trigger] lines[i]).text@.len() < FAR
}

impl Metrics {
    pub open spec fn glyph_w(self) -> int {
        self.cell_w * self.scale
    }

    pub open spec fn glyph_h(self) -> int {
        self.cell_h * self.scale
    }

    pub open spec fn line(self) -> int {
        (self.cell_h + LEADING) * self.scale
    }

    pub open spec fn margin(self) -> int {
        MARGIN * self.scale
    }

    pub open spec fn padding(self) -> int {
        PADDING * self.scale
    }

    pub open spec fn width(self, columns: int) -> int {
        columns * self.glyph_w() + 2 * self.padding()
    }

    pub open spec fn height(self, rows: int) -> int {
        rows * self.line() + 2 * self.padding()
    }

    pub open spec fn corner(self, anchor: Anchor, width: int, viewport: (u32, u32)) -> (int, int) {
        match anchor {
            Anchor::TopLeft => (self.margin(), self.margin()),
            Anchor::TopRight => (viewport.0 - self.margin() - width, self.margin()),
        }
    }

    /// Whether a panel with so many lines fits in a window, margins and all.
    pub open spec fn room_for(self, rows: int, height: u32) -> bool {
        2 * self.margin() + self.height(rows) <= height
    }

    pub proof fn lemma_bounds(self)
        ensures
            0 <= self.glyph_w() <= 65025,
            0 <= self.glyph_h() <= 65025,
            0 <= self.line() <= 65535,
            self.scale > 0 ==> self.line() >= 2,
            0 <= self.margin() <= 2040,
            0 <= self.padding() <= 1530,
    {
        let (w, h, s) = (self.cell_w as int, self.cell_h as int, self.scale as int);
        assert(0 <= w * s <= 65025) by (nonlinear_arith)
            requires
                0 <= w <= 255,
                0 <= s <= 255,
        ;
        assert(0 <= h * s <= 65025) by (nonlinear_arith)
            requires
                0 <= h <= 255,
                0 <= s <= 255,
        ;
        assert(0 <= (h + 2) * s <= 65535) by (nonlinear_arith)
            requires
                0 <= h <= 255,
                0 <= s <= 255,
        ;
        assert(s > 0 ==> (h + 2) * s >= 2) by (nonlinear_arith)
            requires
                0 <= h <= 255,
                0 <= s <= 255,
        ;
    }

    /// Height of a line.
    pub fn line_h(&self) -> (r: i64)
        ensures
            r == self.line(),
            0 <= r <= 65535,
    {
        proof {
            self.lemma_bounds();
        }
        (self.cell_h as i64 + LEADING) * self.scale as i64
    }

    /// Size of a panel that holds some lines.
    pub fn panel_size(&self, lines: &Vec<HudLine>) -> (r: (i64, i64))
        requires
            measurable(lines@),
        ensures
            r.0 == self.width(widest_of(lines@, lines@.len() as int)),
            r.1 == self.height(lines@.len() as int),
            0 <= r.0 < 0x200_0000_0000_0000,
            0 <= r.1 < 0x200_0000_0000_0000,
    {
        let columns: u64 = widest(lines);
        let rows: u64 = lines.len() as u64;
        proof {
            self.lemma_bounds();
            lemma_product(columns as int, self.glyph_w());
            lemma_product(rows as int, self.line());
        }
        let cell: i64 = self.cell_w as i64 * self.scale as i64;
        let pad: i64 = 2 * (PADDING * self.scale as i64);
        (columns as i64 * cell + pad, rows as i64 * self.line_h() + pad)
    }

    /// Where a panel's top-left corner lies.
    pub fn origin(&self, anchor: Anchor, size: (i64, i64), viewport: (u32, u32)) -> (r: (i64, i64))
        requires
            0 <= size.0 < 0x200_0000_0000_0000,
        ensures
            (r.0 as int, r.1 as int) == self.corner(anchor, size.0 as int, viewport),
    {
        let margin: i64 = MARGIN * self.scale as i64;
        match anchor {
            Anchor::TopLeft => (margin, margin),
            Anchor::TopRight => (viewport.0 as i64 - margin - size.0, margin),
        }
    }

    /// Where a line of a panel starts.
    pub fn row_top(&self, origin: (i64, i64), row: usize) -> (r: i64)
        requires
            row < FAR,
            -0x200_0000_0000_0000 < origin.1 < 0x200_0000_0000_0000,
        ensures
            r == origin.1 + self.padding() + row * self.line(),
    {
        proof {
            self.lemma_bounds();
            lemma_product(row as int, self.line());
        }
        origin.1 + PADDING * self.scale as i64 + row as i64 * self.line_h()
    }

    /// How many lines a panel can have and still fit in a window.
    pub open spec fn fitting(self, height: u32) -> int {
        let left = height - 2 * self.margin() - 2 * self.padding();
        if left < 0 {
            0
        } else {
            left / self.line()
        }
    }

    /// As many lines fit in a window as leave room for its margins, and no more.
    pub proof fn lemma_fitting(self, height: u32)
        requires
            self.scale > 0,
        ensures
            0 <= 2 * self.fitting(height) <= height,
            self.fitting(height) > 0 ==> self.room_for(self.fitting(height), height),
            !self.room_for(self.fitting(height) + 1, height),
    {
        self.lemma_bounds();
        let (l, k) = (height - 2 * self.margin() - 2 * self.padding(), self.line());
        if l >= 0 {
            assert(0 <= (l / k) * k <= l < (l / k + 1) * k && 0 <= 2 * (l / k) <= l) by (nonlinear_arith)
                requires
                    k >= 2,
                    l >= 0,
            ;
        } else {
            assert(1 * k == k);
        }
    }

    /// How many lines a panel can have and still fit in a window.
    pub fn rows_that_fit(&self, height: u32) -> (r: usize)
        requires
            self.scale > 0,
        ensures
            r == self.fitting(height),
    {
        proof {
            self.lemma_bounds();
            self.lemma_fitting(height);
        }
        let line: i64 = self.line_h();
        let taken: i64 = 2 * (MARGIN * self.scale as i64) + 2 * (PADDING * self.scale as i64);
        let left: i64 = height as i64 - taken;
        if left < 0 {
            return 0;
        }
        (left / line) as usize
    }
}

proof fn lemma_product(n: int, size: int)
    requires
        0 <= n < FAR,
        0 <= size <= 65535,
    ensures
        0 <= n * size < 0x100_0000_0000_0000,
{
    assert(0 <= n * size < 0x100_0000_0000_0000) by (nonlinear_arith)
        requires
            0 <= n < 0x100_0000_0000,
            0 <= size <= 65535,
    ;
}

/// Characters in the longest line.
fn widest(lines: &Vec<HudLine>) -> (r: u64)
    requires
        measurable(lines@),
    ensures
        r == widest_of(lines@, lines@.len() as int),
        r < FAR,
{
    let mut best: u64 = 0;
    let mut i: usize = 0;
    while i < lines.len()
        invariant
            measurable(lines@),
            i <= lines@.len(),
            best == widest_of(lines@, i as int),
            best < FAR,
        decreases lines@.len() - i,
    {
        let here: u64 = text::chars_of(lines[i].text.as_str()).len() as u64;
        if here > best {
            best = here;
        }
        i += 1;
    }
    best
}

// ---- geometry ---------------------------------------------------------------
/// What a quad shows: a solid block, or a letter.
#[derive(Clone, Copy, Debug, PartialEq, Eq, Structural)]
pub enum Cell {
    Solid,
    Glyph(char),
}

/// What a quad is drawn with.
#[derive(Clone, Copy, Debug, PartialEq, Eq, Structural)]
pub enum Ink {
    /// The dark translucent backing.
    Backing,
    Letters(Color),
}

#[derive(Clone, Copy, Debug, PartialEq, Eq, Structural)]
pub struct HudVertex {
    /// Physical pixels, origin top-left.
    pub x: i64,
    pub y: i64,
    /// Which corner of the cell this is: right or left, bottom or top.
    pub right: bool,
    pub bottom: bool,
    pub cell: Cell,
    pub ink: Ink,
}

impl Cell {
    /// The code point of the letter.
    pub open spec fn code(self) -> Option<u32> {
        match self {
            Cell::Solid => None,
            Cell::Glyph(c) => Some(c as u32),
        }
    }
}

/// A rectangle of the HUD, and the code point of the letter in it.
pub struct Block {
    pub x: int,
    pub y: int,
    pub w: int,
    pub h: int,
    pub glyph: Option<u32>,
    pub ink: Ink,
}

/// One corner of a rectangle; they go round it from the top left.
pub open spec fn is_corner(v: HudVertex, b: Block, k: int) -> bool {
    &&& v.right == (k == 1 || k == 2)
    &&& v.bottom == (k == 2 || k == 3)
    &&& v.x == b.x + (if v.right {
        b.w
    } else {
        0
    })
    &&& v.y == b.y + (if v.bottom {
        b.h
    } else {
        0
    })
    &&& v.cell.code() == b.glyph
    &&& v.ink == b.ink
}

/// Triangles for the HUD, in the HUD pipeline's vertex format.
#[derive(Clone, Debug)]
pub struct HudMesh {
    pub vertices: Vec<HudVertex>,
    pub indices: Vec<u32>,
}

impl HudMesh {
    /// Whether the triangles are those of some rectangles, each cut along a
    /// diagonal.
    pub open spec fn draws(self, blocks: Seq<Block>) -> bool {
        &&& self.vertices@.len() == 4 * blocks.len()
        &&& self.indices@.len() == 6 * blocks.len()
        &&& forall|b: int, k: int|
            #![trigger is_corner(self.vertices@[4 * b + k], blocks[b], k)]
            0 <= b < blocks.len() && 0 <= k < 4 ==> is_corner(
                self.vertices@[4 * b + k],
                blocks[b],
                k,
            )
        &&& forall|b: int|
            0 <= b < blocks.len() ==> #[trigger] two_triangles(self.indices@, b)
    }

    fn quad(
        &mut self,
        at: (i64, i64),
        size: (i64, i64),
        cell: Cell,
        ink: Ink,
        Ghost(blocks): Ghost<Seq<Block>>,
    )
        requires
            old(self).draws(blocks),
            4 * blocks.len() + 4 <= u32::MAX,
            0 <= at.0 < 0x400_0000_0000_0000,
            0 <= at.1 < 0x400_0000_0000_0000,
            0 <= size.0 < 0x400_0000_0000_0000,
            0 <= size.1 < 0x400_0000_0000_0000,
        ensures
            final(self).draws(
                blocks.push(
                    (Block {
                        x: at.0 as int,
                        y: at.1 as int,
                        w: size.0 as int,
                        h: size.1 as int,
                        glyph: cell.code(),
                        ink,
                    }),
                ),
            ),
    {
        let ghost b = Block {
            x: at.0 as int,
            y: at.1 as int,
            w: size.0 as int,
            h: size.1 as int,
            glyph: cell.code(),
            ink,
        };
        let ghost was = *self;
        let base: u32 = self.vertices.len() as u32;
        let (x, y): (i64, i64) = at;
        let (w, h): (i64, i64) = size;
        self.vertices.push(HudVertex { x, y, right: false, bottom: false, cell, ink });
        self.vertices.push(HudVertex { x: x + w, y, right: true, bottom: false, cell, ink });
        self.vertices.push(HudVertex { x: x + w, y: y + h, right: true, bottom: true, cell, ink });
        self.vertices.push(HudVertex { x, y: y + h, right: false, bottom: true, cell, ink });
        self.indices.push(base);
        self.indices.push(base + 1);
        self.indices.push(base + 2);
        self.indices.push(base);
        self.indices.push(base + 2);
        self.indices.push(base + 3);
        proof {
            let all = blocks.push(b);
            let n = blocks.len() as int;
            assert forall|i: int, k: int|
                #![trigger is_corner(self.vertices@[4 * i + k], all[i], k)]
                0 <= i < all.len() && 0 <= k < 4 implies is_corner(
                self.vertices@[4 * i + k],
                all[i],
                k,
            ) by {
                if i < n {
                    assert(is_corner(was.vertices@[4 * i + k], blocks[i], k));
                    assert(self.vertices@[4 * i + k] == was.vertices@[4 * i + k]);
                }
            }
            assert forall|i: int| 0 <= i < all.len() implies #[trigger] two_triangles(
                self.indices@,
                i,
            ) by {
                if i < n {
                    assert(two_triangles(was.indices@, i));
                    assert(forall|j: int|
                        0 <= j < was.indices@.len() ==> self.indices@[j] == was.indices@[j]);
                }
            }
        }
    }

    pub fn is_empty(&self) -> (r: bool)
        ensures
            r == (self.indices@.len() == 0),
    {
        self.indices.len() == 0
    }
}

/// Whether six indices cut the four corners of a rectangle into two triangles.
pub open spec fn two_triangles(indices: Seq<u32>, b: int) -> bool {
    &&& indices[6 * b] == 4 * b
    &&& indices[6 * b + 1] == 4 * b + 1
    &&& indices[6 * b + 2] == 4 * b + 2
    &&& indices[6 * b + 3] == 4 * b
    &&& indices[6 * b + 4] == 4 * b + 2
    &&& indices[6 * b + 5] == 4 * b + 3
}

/// The letters in the first `n` places of a line, spaces left out.
pub open spec fn letters(m: Metrics, line: HudLine, row: int, n: int) -> Seq<Block>
    decreases n,
{
    if n <= 0 {
        Seq::empty()
    } else {
        let before = letters(m, line, row, n - 1);
        let c = line.text@[n - 1];
        if c == ' ' {
            before
        } else {
            before.push(
                Block {
                    x: m.margin() + m.padding() + (n - 1) * m.glyph_w(),
                    y: m.margin() + m.padding() + row * m.line(),
                    w: m.glyph_w(),
                    h: m.glyph_h(),
                    glyph: Some(c as u32),
                    ink: Ink::Letters(line.color),
                },
            )
        }
    }
}

/// The backing, the size of the panel.
pub open spec fn backing(m: Metrics, lines: Seq<HudLine>) -> Block {
    Block {
        x: m.margin(),
        y: m.margin(),
        w: m.width(widest_of(lines, lines.len() as int)),
        h: m.height(lines.len() as int),
        glyph: None,
        ink: Ink::Backing,
    }
}

/// The backing of a panel and then the letters of its first `n` lines.
pub open spec fn panel(m: Metrics, lines: Seq<HudLine>, n: int) -> Seq<Block>
    decreases n,
{
    if n <= 0 {
        seq![backing(m, lines)]
    } else {
        panel(m, lines, n - 1) + letters(m, lines[n - 1], n - 1, lines[n - 1].text@.len() as int)
    }
}

/// What is drawn for some lines: nothing for none of them.
pub open spec fn blocks_of(m: Metrics, lines: Seq<HudLine>) -> Seq<Block> {
    if lines.len() == 0 {
        Seq::empty()
    } else {
        panel(m, lines, lines.len() as int)
    }
}

proof fn lemma_panel_grows(m: Metrics, lines: Seq<HudLine>, n: int)
    requires
        0 <= n <= lines.len(),
    ensures
        panel(m, lines, n).len() <= panel(m, lines, lines.len() as int).len(),
        panel(m, lines, n).len() >= 1,
    decreases lines.len() - n,
{
    if n < lines.len() {
        lemma_panel_grows(m, lines, n + 1);
        lemma_panel_starts(m, lines, n);
    } else {
        lemma_panel_starts(m, lines, n);
    }
}

proof fn lemma_panel_starts(m: Metrics, lines: Seq<HudLine>, n: int)
    ensures
        panel(m, lines, n).len() >= 1,
    decreases n,
{
    if n > 0 {
        lemma_panel_starts(m, lines, n - 1);
    }
}

proof fn lemma_letters_grow(m: Metrics, line: HudLine, row: int, n: int)
    requires
        0 <= n <= line.text@.len(),
    ensures
        letters(m, line, row, n).len() <= letters(m, line, row, line.text@.len() as int).len(),
    decreases line.text@.len() - n,
{
    if n < line.text@.len() {
        lemma_letters_grow(m, line, row, n + 1);
    }
}

/// Lay out `lines` as a panel anchored to the top-left corner.
///
/// The scale is an integer pixel scale, so glyphs stay crisp on HiDPI displays.
pub fn layout(lines: &Vec<HudLine>, m: &Metrics) -> (r: HudMesh)
    requires
        measurable(lines@),
        4 * blocks_of(*m, lines@).len() <= u32::MAX,
    ensures
        r.draws(blocks_of(*m, lines@)),
{
    let mut mesh = HudMesh { vertices: Vec::new(), indices: Vec::new() };
    if lines.len() == 0 {
        return mesh;
    }
    let size: (i64, i64) = m.panel_size(lines);
    proof {
        m.lemma_bounds();
        lemma_panel_grows(*m, lines@, 0);
    }
    let margin: i64 = MARGIN * m.scale as i64;
    let padding: i64 = PADDING * m.scale as i64;
    // A dark translucent backing so text stays readable over either background
    // colour and over the model itself.
    mesh.quad((margin, margin), size, Cell::Solid, Ink::Backing, Ghost(Seq::empty()));
    assert(Seq::empty().push(backing(*m, lines@)) =~= panel(*m, lines@, 0));
    let glyph_w: i64 = m.cell_w as i64 * m.scale as i64;
    let glyph_h: i64 = m.cell_h as i64 * m.scale as i64;
    let line_h: i64 = m.line_h();
    let mut row: usize = 0;
    while row < lines.len()
        invariant
            measurable(lines@),
            4 * panel(*m, lines@, lines@.len() as int).len() <= u32::MAX,
            row <= lines@.len(),
            mesh.draws(panel(*m, lines@, row as int)),
            margin == m.margin() && padding == m.padding() && line_h == m.line(),
            glyph_w == m.glyph_w() && glyph_h == m.glyph_h(),
        decreases lines@.len() - row,
    {
        let ghost done = panel(*m, lines@, row as int);
        let ghost line = lines@[row as int];
        let chars = text::chars_of(lines[row].text.as_str());
        let color = lines[row].color;
        proof {
            m.lemma_bounds();
            lemma_product(row as int, m.line());
            lemma_panel_grows(*m, lines@, row + 1);
            assert(done + letters(*m, line, row as int, 0) =~= done);
        }
        let y: i64 = margin + padding + row as i64 * line_h;
        let mut col: usize = 0;
        while col < chars.len()
            invariant
                chars@ == line.text@,
                chars@.len() < FAR,
                col <= chars@.len(),
                line == lines@[row as int] && color == line.color,
                0 <= row < lines@.len(),
                done == panel(*m, lines@, row as int),
                panel(*m, lines@, row + 1).len() * 4 <= u32::MAX,
                mesh.draws(done + letters(*m, line, row as int, col as int)),
                margin == m.margin() && padding == m.padding(),
                glyph_w == m.glyph_w() && glyph_h == m.glyph_h(),
                y == m.margin() + m.padding() + row * m.line(),
                0 <= y < 0x200_0000_0000_0000,
            decreases chars@.len() - col,
        {
            let c: char = chars[col];
            let ghost before = letters(*m, line, row as int, col as int);
            let ghost after = letters(*m, line, row as int, col + 1);
            proof {
                m.lemma_bounds();
                lemma_product(col as int, m.glyph_w());
                lemma_letters_grow(*m, line, row as int, col + 1);
            }
            if c != ' ' {
                let x: i64 = margin + padding + col as i64 * glyph_w;
                assert(done + after =~= (done + before).push(after.last()));
                mesh.quad(
                    (x, y),
                    (glyph_w, glyph_h),
                    Cell::Glyph(c),
                    Ink::Letters(color),
                    Ghost(done + before),
                );
            }
            col += 1;
        }
        row += 1;
    }
    mesh
}

// ---- what the layout promises -----------------------------------------------
/// How many characters of the first `n` lines can be seen.
pub open spec fn visible_glyphs(lines: Seq<HudLine>, n: int) -> int
    decreases n,
{
    if n <= 0 {
        0
    } else {
        visible_glyphs(lines, n - 1) + inked(lines[n - 1].text@, lines[n - 1].text@.len() as int)
    }
}

/// How many of the first `n` characters of a text are not spaces.
pub open spec fn inked(s: Seq<char>, n: int) -> int
    decreases n,
{
    if n <= 0 {
        0
    } else {
        inked(s, n - 1) + if s[n - 1] == ' ' {
            0int
        } else {
            1int
        }
    }
}

proof fn lemma_letters_count(m: Metrics, line: HudLine, row: int, n: int)
    requires
        0 <= n <= line.text@.len(),
    ensures
        letters(m, line, row, n).len() == inked(line.text@, n),
    decreases n,
{
    if n > 0 {
        lemma_letters_count(m, line, row, n - 1);
    }
}

proof fn lemma_panel_count(m: Metrics, lines: Seq<HudLine>, n: int)
    requires
        0 <= n <= lines.len(),
    ensures
        panel(m, lines, n).len() == 1 + visible_glyphs(lines, n),
    decreases n,
{
    if n > 0 {
        lemma_panel_count(m, lines, n - 1);
        lemma_letters_count(m, lines[n - 1], n - 1, lines[n - 1].text@.len() as int);
    }
}

/// There is one quad for every visible glyph, and one for the panel.
pub proof fn lemma_one_quad_per_visible_glyph(m: Metrics, lines: Seq<HudLine>)
    requires
        lines.len() > 0,
    ensures
        blocks_of(m, lines).len() == 1 + visible_glyphs(lines, lines.len() as int),
{
    lemma_panel_count(m, lines, lines.len() as int);
}

/// Every triangle names vertices that are there.
pub proof fn lemma_indices_stay_in_range(mesh: HudMesh, blocks: Seq<Block>)
    requires
        mesh.draws(blocks),
    ensures
        forall|i: int|
            0 <= i < mesh.indices@.len() ==> (#[trigger] mesh.indices@[i]) < mesh.vertices@.len(),
{
    assert forall|i: int| 0 <= i < mesh.indices@.len() implies (#[trigger] mesh.indices@[i])
        < mesh.vertices@.len() by {
        let b = i / 6;
        assert(0 <= b < blocks.len() && 0 <= i - 6 * b < 6);
        assert(two_triangles(mesh.indices@, b));
    }
}

/// Whether a rectangle lies within another.
pub open spec fn lies_within(b: Block, outer: Block) -> bool {
    &&& outer.x <= b.x
    &&& outer.y <= b.y
    &&& b.x + b.w <= outer.x + outer.w
    &&& b.y + b.h <= outer.y + outer.h
}

proof fn lemma_widest(lines: Seq<HudLine>, n: int, i: int)
    requires
        0 <= i < n <= lines.len(),
    ensures
        lines[i].text@.len() <= widest_of(lines, n),
    decreases n,
{
    if i < n - 1 {
        lemma_widest(lines, n - 1, i);
    }
}

proof fn lemma_letters_within(m: Metrics, lines: Seq<HudLine>, row: int, n: int)
    requires
        0 <= row < lines.len(),
        0 <= n <= lines[row].text@.len(),
    ensures
        forall|i: int|
            0 <= i < letters(m, lines[row], row, n).len() ==> lies_within(
                #[trigger] letters(m, lines[row], row, n)[i],
                backing(m, lines),
            ),
    decreases n,
{
    if n > 0 {
        lemma_letters_within(m, lines, row, n - 1);
        lemma_widest(lines, lines.len() as int, row);
        m.lemma_bounds();
        let (w, l, k) = (
            m.glyph_w(),
            m.line(),
            widest_of(lines, lines.len() as int),
        );
        let (count, h, s) = (lines.len() as int, m.cell_h as int, m.scale as int);
        assert(n * w <= k * w && (n - 1) * w + w == n * w && 0 <= (n - 1) * w) by (nonlinear_arith)
            requires
                1 <= n <= k,
                0 <= w,
        ;
        assert((row + 1) * l <= count * l && row * l + l == (row + 1) * l && 0 <= row * l)
            by (nonlinear_arith)
            requires
                0 <= row < count,
                0 <= l,
        ;
        assert(h * s <= (h + 2) * s) by (nonlinear_arith)
            requires
                0 <= h,
                0 <= s,
        ;
        let before = letters(m, lines[row], row, n - 1);
        let all = letters(m, lines[row], row, n);
        assert forall|i: int| 0 <= i < all.len() implies lies_within(
            #[trigger] all[i],
            backing(m, lines),
        ) by {
            if i < before.len() {
                assert(all[i] == before[i]);
            }
        }
    }
}

proof fn lemma_panel_within(m: Metrics, lines: Seq<HudLine>, n: int)
    requires
        0 <= n <= lines.len(),
    ensures
        forall|i: int|
            0 <= i < panel(m, lines, n).len() ==> lies_within(
                #[trigger] panel(m, lines, n)[i],
                backing(m, lines),
            ),
    decreases n,
{
    if n > 0 {
        lemma_panel_within(m, lines, n - 1);
        lemma_letters_within(m, lines, n - 1, lines[n - 1].text@.len() as int);
        let before = panel(m, lines, n - 1);
        let more = letters(m, lines[n - 1], n - 1, lines[n - 1].text@.len() as int);
        let all = panel(m, lines, n);
        assert forall|i: int| 0 <= i < all.len() implies lies_within(
            #[trigger] all[i],
            backing(m, lines),
        ) by {
            if i < before.len() {
                assert(all[i] == before[i]);
            } else {
                assert(all[i] == more[i - before.len()]);
            }
        }
    }
}

/// Everything lies on the panel, and the panel below and to the right of the
/// window's top-left corner.
pub proof fn lemma_everything_stays_on_the_panel(m: Metrics, lines: Seq<HudLine>, i: int)
    requires
        0 <= i < blocks_of(m, lines).len(),
    ensures
        lies_within(blocks_of(m, lines)[i], backing(m, lines)),
        blocks_of(m, lines)[i].x >= 0,
        blocks_of(m, lines)[i].y >= 0,
{
    lemma_panel_within(m, lines, lines.len() as int);
    m.lemma_bounds();
}

/// The panel grows with its widest line.
pub proof fn lemma_the_panel_grows(m: Metrics, a: Seq<HudLine>, b: Seq<HudLine>)
    requires
        m.cell_w > 0,
        m.scale > 0,
        widest_of(a, a.len() as int) < widest_of(b, b.len() as int),
    ensures
        backing(m, a).w < backing(m, b).w,
{
    let (x, y, w, s) = (
        widest_of(a, a.len() as int),
        widest_of(b, b.len() as int),
        m.cell_w as int,
        m.scale as int,
    );
    assert(x * (w * s) < y * (w * s)) by (nonlinear_arith)
        requires
            x < y,
            w > 0,
            s > 0,
    ;
}

// ---- more than one panel ----------------------------------------------------
/// A vertex moved across the screen.
pub open spec fn shifted(v: HudVertex, dx: int, dy: int) -> HudVertex {
    HudVertex { x: (v.x + dx) as i64, y: (v.y + dy) as i64, ..v }
}

/// Rectangles moved across the screen.
pub open spec fn moved(blocks: Seq<Block>, dx: int, dy: int) -> Seq<Block> {
    Seq::new(blocks.len(), |i: int| Block { x: blocks[i].x + dx, y: blocks[i].y + dy, ..blocks[i] })
}

/// Whether a mesh can be added to another, moved by so much.
pub open spec fn can_follow(first: HudMesh, other: HudMesh, dx: int, dy: int) -> bool {
    &&& forall|i: int|
        0 <= i < other.vertices@.len() ==> i64::MIN <= (#[trigger] other.vertices@[i]).x + dx
            <= i64::MAX && i64::MIN <= other.vertices@[i].y + dy <= i64::MAX
    &&& forall|i: int|
        0 <= i < other.indices@.len() ==> (#[trigger] other.indices@[i]) + first.vertices@.len()
            <= u32::MAX
}

impl HudMesh {
    /// Add another mesh, moved across the screen.
    pub fn append(&mut self, other: &HudMesh, dx: i64, dy: i64)
        requires
            can_follow(*old(self), *other, dx as int, dy as int),
        ensures
            final(self).vertices@ == old(self).vertices@ + other.vertices@.map_values(
                |v: HudVertex| shifted(v, dx as int, dy as int),
            ),
            final(self).indices@ == old(self).indices@ + other.indices@.map_values(
                |i: u32| (i + old(self).vertices@.len()) as u32,
            ),
    {
        let ghost was = *self;
        let base: usize = self.vertices.len();
        let ghost added = other.vertices@.map_values(
            |v: HudVertex| shifted(v, dx as int, dy as int),
        );
        let mut i: usize = 0;
        assert(was.vertices@ + added.subrange(0, 0) =~= was.vertices@);
        while i < other.vertices.len()
            invariant
                i <= other.vertices@.len(),
                can_follow(was, *other, dx as int, dy as int),
                added == other.vertices@.map_values(
                    |v: HudVertex| shifted(v, dx as int, dy as int),
                ),
                self.vertices@ == was.vertices@ + added.subrange(0, i as int),
                self.indices == was.indices,
            decreases other.vertices@.len() - i,
        {
            let v = other.vertices[i];
            let w = HudVertex {
                x: v.x + dx,
                y: v.y + dy,
                right: v.right,
                bottom: v.bottom,
                cell: v.cell,
                ink: v.ink,
            };
            self.vertices.push(w);
            assert(added[i as int] == w);
            i += 1;
            assert(self.vertices@ =~= was.vertices@ + added.subrange(0, i as int));
        }
        assert(added.subrange(0, i as int) =~= added);
        let ghost follows = other.indices@.map_values(|i: u32| (i + was.vertices@.len()) as u32);
        let mut k: usize = 0;
        assert(was.indices@ + follows.subrange(0, 0) =~= was.indices@);
        while k < other.indices.len()
            invariant
                k <= other.indices@.len(),
                base == was.vertices@.len(),
                can_follow(was, *other, dx as int, dy as int),
                follows == other.indices@.map_values(|i: u32| (i + was.vertices@.len()) as u32),
                self.indices@ == was.indices@ + follows.subrange(0, k as int),
                self.vertices@ == was.vertices@ + added,
            decreases other.indices@.len() - k,
        {
            let at: u32 = other.indices[k];
            assert(at + was.vertices@.len() <= u32::MAX);
            self.indices.push(at + base as u32);
            assert(follows[k as int] == at + base);
            k += 1;
            assert(self.indices@ =~= was.indices@ + follows.subrange(0, k as int));
        }
        assert(follows.subrange(0, k as int) =~= follows);
    }
}

/// A mesh that follows another draws what it drew, moved, and the other still
/// draws what it did.
pub proof fn lemma_appending_draws_both(
    first: HudMesh,
    other: HudMesh,
    both: HudMesh,
    a: Seq<Block>,
    b: Seq<Block>,
    dx: int,
    dy: int,
)
    requires
        first.draws(a),
        other.draws(b),
        can_follow(first, other, dx, dy),
        both.vertices@ == first.vertices@ + other.vertices@.map_values(
            |v: HudVertex| shifted(v, dx, dy),
        ),
        both.indices@ == first.indices@ + other.indices@.map_values(
            |i: u32| (i + first.vertices@.len()) as u32,
        ),
    ensures
        both.draws(a + moved(b, dx, dy)),
{
    let all = a + moved(b, dx, dy);
    let n = a.len() as int;
    assert forall|i: int, k: int|
        #![trigger is_corner(both.vertices@[4 * i + k], all[i], k)]
        0 <= i < all.len() && 0 <= k < 4 implies is_corner(both.vertices@[4 * i + k], all[i], k) by {
        if i < n {
            assert(is_corner(first.vertices@[4 * i + k], a[i], k));
            assert(both.vertices@[4 * i + k] == first.vertices@[4 * i + k]);
        } else {
            let j = i - n;
            let v = other.vertices@[4 * j + k];
            assert(is_corner(v, b[j], k));
            assert(both.vertices@[4 * i + k] == shifted(v, dx, dy));
        }
    }
    assert forall|i: int| 0 <= i < all.len() implies #[trigger] two_triangles(both.indices@, i) by {
        if i < n {
            assert(two_triangles(first.indices@, i));
        } else {
            let j = i - n;
            assert(two_triangles(other.indices@, j));
            assert forall|q: int| 0 <= q < 6 implies #[trigger] both.indices@[6 * i + q]
                == other.indices@[6 * j + q] + 4 * n by {
                assert(other.indices@[6 * j + q] + first.vertices@.len() <= u32::MAX);
            }
            assert(both.indices@[6 * i + 0] == other.indices@[6 * j + 0] + 4 * n);
        }
    }
}

// ---- where letters stand ----------------------------------------------------
/// The block of a letter: fourteen units in from the corner of the screen, and
/// from there one cell to the right for each column and one cell and two units
/// down for each row.
pub open spec fn letter_at(m: Metrics, row: int, column: int, c: char, color: Color) -> Block {
    Block {
        x: 14 * m.scale + column * (m.cell_w * m.scale),
        y: 14 * m.scale + row * ((m.cell_h + 2) * m.scale),
        w: m.cell_w * m.scale,
        h: m.cell_h * m.scale,
        glyph: Some(c as u32),
        ink: Ink::Letters(color),
    }
}

/// Whether a block is that of a letter of a line.
pub open spec fn is_letter(m: Metrics, line: HudLine, row: int, b: Block, column: int) -> bool {
    0 <= column < line.text@.len() && line.text@[column] != ' ' && b == letter_at(
        m,
        row,
        column,
        line.text@[column],
        line.color,
    )
}

proof fn lemma_letters_stand(m: Metrics, line: HudLine, row: int, n: int, b: Block)
    requires
        0 <= n <= line.text@.len(),
    ensures
        letters(m, line, row, n).contains(b) <==> exists|column: int|
            column < n && #[trigger] is_letter(m, line, row, b, column),
    decreases n,
{
    if n > 0 {
        lemma_letters_stand(m, line, row, n - 1, b);
        let (before, now) = (letters(m, line, row, n - 1), letters(m, line, row, n));
        let c = line.text@[n - 1];
        let here = letter_at(m, row, n - 1, c, line.color);
        if c != ' ' {
            assert(now == before.push(here));
            assert(now[before.len() as int] == here);
            if before.contains(b) {
                let k = choose|k: int| 0 <= k < before.len() && before[k] == b;
                assert(now[k] == b);
            }
            if now.contains(b) {
                let k = choose|k: int| 0 <= k < now.len() && now[k] == b;
                if k < before.len() {
                    assert(before[k] == b);
                } else {
                    assert(is_letter(m, line, row, b, n - 1));
                }
            }
        }
    }
}

proof fn lemma_panel_holds(m: Metrics, lines: Seq<HudLine>, n: int, b: Block)
    requires
        0 <= n <= lines.len(),
        b.glyph is Some,
    ensures
        panel(m, lines, n).contains(b) <==> exists|row: int, column: int|
            0 <= row < n && #[trigger] is_letter(m, lines[row], row, b, column),
    decreases n,
{
    let now = panel(m, lines, n);
    if n > 0 {
        lemma_panel_holds(m, lines, n - 1, b);
        let row = n - 1;
        let count = lines[row].text@.len() as int;
        lemma_letters_stand(m, lines[row], row, count, b);
        let (before, more) = (panel(m, lines, n - 1), letters(m, lines[row], row, count));
        if before.contains(b) {
            let k = choose|k: int| 0 <= k < before.len() && before[k] == b;
            assert(now[k] == b);
        }
        if more.contains(b) {
            let k = choose|k: int| 0 <= k < more.len() && more[k] == b;
            assert(now[before.len() + k] == b);
        }
        if now.contains(b) {
            let k = choose|k: int| 0 <= k < now.len() && now[k] == b;
            if k < before.len() {
                assert(before[k] == b);
            } else {
                assert(more[k - before.len()] == b);
            }
        }
        if exists|r: int, column: int|
            0 <= r < n && #[trigger] is_letter(m, lines[r], r, b, column) {
            let (r, column) = choose|r: int, column: int|
                0 <= r < n && #[trigger] is_letter(m, lines[r], r, b, column);
            if r == row {
                assert(is_letter(m, lines[row], row, b, column));
            }
        }
    } else if now.contains(b) {
        let k = choose|k: int| 0 <= k < now.len() && now[k] == b;
        assert(now[k] == backing(m, lines));
    }
}

/// What is written on a panel is its lines: each character but a space stands
/// at its row and column in the colour of its line, and nothing else does.
pub proof fn lemma_letters_stand_in_rows_and_columns(m: Metrics, lines: Seq<HudLine>, b: Block)
    requires
        lines.len() > 0,
        b.glyph is Some,
    ensures
        blocks_of(m, lines).contains(b) <==> exists|row: int, column: int|
            0 <= row < lines.len() && #[trigger] is_letter(m, lines[row], row, b, column),
{
    lemma_panel_holds(m, lines, lines.len() as int, b);
}

proof fn lemma_widest_is_one(lines: Seq<HudLine>, n: int)
    requires
        0 < n <= lines.len(),
    ensures
        exists|i: int| 0 <= i < n && (#[trigger] lines[i]).text@.len() == widest_of(lines, n),
    decreases n,
{
    if n > 1 {
        lemma_widest_is_one(lines, n - 1);
    } else {
        assert(widest_of(lines, 0) == 0);
    }
    assert(lines[n - 1].text@.len() <= widest_of(lines, n));
}

/// A panel is as wide as its longest line and as high as its lines, with six
/// units left free around them, and lies eight units from the edges.
pub proof fn lemma_a_panel_fits_its_lines(m: Metrics, lines: Seq<HudLine>, i: int)
    requires
        0 <= i < lines.len(),
        m.scale > 0,
    ensures
        ({
            let b = blocks_of(m, lines)[0];
            &&& b.glyph is None && b.ink == Ink::Backing
            &&& b.x == 8 * m.scale && b.y == 8 * m.scale
            &&& b.w >= lines[i].text@.len() * (m.cell_w * m.scale) + 12 * m.scale
            &&& exists|j: int|
                0 <= j < lines.len() && b.w == (#[trigger] lines[j]).text@.len() * (m.cell_w
                    * m.scale) + 12 * m.scale
            &&& b.h == lines.len() * ((m.cell_h + 2) * m.scale) + 12 * m.scale
        }),
{
    let n = lines.len() as int;
    lemma_widest_is_one(lines, n);
    lemma_widest(lines, n, i);
    lemma_first_is_backing(m, lines, n);
    let wide = m.cell_w * m.scale;
    assert(lines[i].text@.len() * wide <= widest_of(lines, n) * wide) by (nonlinear_arith)
        requires
            lines[i].text@.len() <= widest_of(lines, n),
            wide == m.cell_w * m.scale,
    ;
    let j = choose|j: int| 0 <= j < n && (#[trigger] lines[j]).text@.len() == widest_of(lines, n);
    assert(blocks_of(m, lines)[0].w == lines[j].text@.len() * wide + 12 * m.scale);
}

proof fn lemma_first_is_backing(m: Metrics, lines: Seq<HudLine>, n: int)
    requires
        0 <= n <= lines.len(),
    ensures
        panel(m, lines, n).len() >= 1,
        panel(m, lines, n)[0] == backing(m, lines),
    decreases n,
{
    if n > 0 {
        lemma_first_is_backing(m, lines, n - 1);
    }
}

/// A panel at the left starts eight units in; one at the right ends eight units
/// before the edge.
pub proof fn lemma_panels_keep_to_their_side(m: Metrics, width: int, viewport: (u32, u32))
    ensures
        m.corner(Anchor::TopLeft, width, viewport) == (8 * m.scale, 8 * m.scale),
        m.corner(Anchor::TopRight, width, viewport).0 + width + 8 * m.scale == viewport.0,
        m.corner(Anchor::TopRight, width, viewport).1 == 8 * m.scale,
{
}

/// The rows that fit are the most that leave eight units above and below the
/// panel.
pub proof fn lemma_no_more_rows_would_fit(m: Metrics, height: u32)
    requires
        m.scale > 0,
    ensures
        ({
            let (n, row) = (m.fitting(height), (m.cell_h + 2) * m.scale);
            &&& n > 0 ==> 28 * m.scale + n * row <= height
            &&& 28 * m.scale + (n + 1) * row > height
        }),
{
    m.lemma_fitting(height);
}

/// Each block is drawn as its rectangle: its corners in turn from the upper
/// left, and two triangles over them.
pub proof fn lemma_a_block_is_its_rectangle(mesh: HudMesh, blocks: Seq<Block>, i: int)
    requires
        mesh.draws(blocks),
        0 <= i < blocks.len(),
    ensures
        ({
            let (b, v) = (blocks[i], mesh.vertices@);
            &&& v[4 * i].x == b.x && v[4 * i].y == b.y
            &&& v[4 * i + 1].x == b.x + b.w && v[4 * i + 1].y == b.y
            &&& v[4 * i + 2].x == b.x + b.w && v[4 * i + 2].y == b.y + b.h
            &&& v[4 * i + 3].x == b.x && v[4 * i + 3].y == b.y + b.h
            &&& mesh.indices@.subrange(6 * i, 6 * i + 6).map_values(|n: u32| n - 4 * i) == seq![
                0,
                1,
                2,
                0,
                2,
                3int,
            ]
        }),
{
    assert(is_corner(mesh.vertices@[4 * i + 0], blocks[i], 0));
    assert(is_corner(mesh.vertices@[4 * i + 1], blocks[i], 1));
    assert(is_corner(mesh.vertices@[4 * i + 2], blocks[i], 2));
    assert(is_corner(mesh.vertices@[4 * i + 3], blocks[i], 3));
    assert(two_triangles(mesh.indices@, i));
    assert(mesh.indices@.subrange(6 * i, 6 * i + 6).map_values(|n: u32| n - 4 * i) =~= seq![
        0,
        1,
        2,
        0,
        2,
        3int,
    ]);
}

} // verus!
