//! Palette handling.
//!
//! MagicaVoxel stores an optional 256-entry `RGBA` chunk. Voxel indices in
//! `XYZI` are 1-based in the file and 0-based once parsed, so
//! `Palette::color(voxel.i)` is a direct lookup.

use vstd::prelude::*;

verus! {

/// A single palette entry, stored as linear-order RGBA bytes.
#[derive(Clone, Copy, Debug, PartialEq, Eq)]
pub struct Rgba(pub [u8; 4]);

impl Rgba {
    /// sRGB-encoded bytes as the renderer wants them (`r, g, b, a`).
    pub fn to_array(self) -> (r: [u8; 4])
        ensures
            r == self.0,
    {
        self.0
    }
}

/// A colour of a file's `RGBA` chunk.
#[derive(Clone, Copy, Debug, PartialEq, Eq, Structural)]
pub struct Color {
    pub r: u8,
    pub g: u8,
    pub b: u8,
    pub a: u8,
}

/// A full 256-entry palette. Always exactly 256 entries so indexing a voxel
/// colour can never be out of bounds, however corrupt the source file is.
#[derive(Clone, Debug, PartialEq, Eq)]
pub struct Palette {
    pub entries: [Rgba; 256],
    /// True when the source file actually carried an `RGBA` chunk.
    pub from_file: bool,
}

/// The bytes of a colour word, lowest first.
pub open spec fn word_bytes(w: u32) -> Seq<u8> {
    seq![w as u8, (w >> 8) as u8, (w >> 16) as u8, (w >> 24) as u8]
}

pub open spec fn color_bytes(c: Color) -> Seq<u8> {
    seq![c.r, c.g, c.b, c.a]
}

/// The built-in palette, used when a file has no `RGBA` chunk.
pub open spec fn default_colors() -> Seq<Seq<u8>> {
    Seq::new(256, |i: int| word_bytes(DEFAULT_PALETTE_ABGR@[i]))
}

/// The colours of a file, then the built-in ones where the file has none.
pub open spec fn padded_colors(colors: Seq<Color>) -> Seq<Seq<u8>> {
    Seq::new(
        256,
        |i: int|
            if i < colors.len() {
                color_bytes(colors[i])
            } else {
                default_colors()[i]
            },
    )
}

impl Palette {
    /// The bytes of each entry.
    pub open spec fn colors(&self) -> Seq<Seq<u8>> {
        Seq::new(256, |i: int| self.entries@[i].0@)
    }

    /// MagicaVoxel's built-in palette, used when a file has no `RGBA` chunk.
    pub fn magicavoxel_default() -> (p: Palette)
        ensures
            p.colors() == default_colors(),
            !p.from_file,
    {
        let mut entries: [Rgba; 256] = [Rgba([0, 0, 0, 255]); 256];
        let mut i: usize = 0;
        while i < 256
            invariant
                i <= 256,
                forall|k: int| 0 <= k < i ==> #[trigger] entries@[k].0@ == word_bytes(DEFAULT_PALETTE_ABGR@[k]),
            decreases 256 - i,
        {
            let v: u32 = DEFAULT_PALETTE_ABGR[i];
            entries[i] = Rgba([v as u8, (v >> 8) as u8, (v >> 16) as u8, (v >> 24) as u8]);
            assert(entries@[i as int].0@ =~= word_bytes(v));
            i += 1;
        }
        let p = Palette { entries, from_file: false };
        assert(p.colors() =~= default_colors());
        p
    }

    /// Build from the colours of an `RGBA` chunk.
    ///
    /// Short palettes are padded from the default palette and long ones are
    /// truncated, so a malformed chunk degrades instead of failing.
    pub fn from_file_colors(colors: &Vec<Color>) -> (p: Palette)
        ensures
            p.colors() == padded_colors(colors@),
            p.from_file <==> colors@.len() > 0,
    {
        let mut pal = Palette::magicavoxel_default();
        let mut i: usize = 0;
        let ghost start = pal.colors();
        while i < 256 && i < colors.len()
            invariant
                i <= 256,
                i <= colors@.len(),
                start == default_colors(),
                forall|k: int| 0 <= k < i ==> #[trigger] pal.colors()[k] == color_bytes(colors@[k]),
                forall|k: int| i <= k < 256 ==> #[trigger] pal.colors()[k] == start[k],
            decreases 256 - i,
        {
            let c: Color = colors[i];
            let ghost before = pal.colors();
            pal.entries[i] = Rgba([c.r, c.g, c.b, c.a]);
            assert(pal.entries@[i as int].0@ =~= color_bytes(c));
            assert forall|k: int| 0 <= k < 256 && k != i implies #[trigger] pal.colors()[k] == before[k] by {}
            i += 1;
        }
        let ghost done = pal.colors();
        pal.from_file = colors.len() > 0;
        assert forall|k: int| 0 <= k < 256 implies pal.colors()[k] == padded_colors(colors@)[k] by {
            assert(pal.colors()[k] == done[k]);
        }
        assert(pal.colors() =~= padded_colors(colors@));
        pal
    }

    /// Colour for a 0-based voxel palette index.
    pub fn color(&self, index: u8) -> (c: Rgba)
        ensures
            c.0@ == self.colors()[index as int],
    {
        self.entries[index as usize]
    }

    /// Flat `r, g, b, a` bytes for all 256 entries, for upload to the GPU.
    pub fn to_rgba_bytes(&self) -> (out: [u8; 1024])
        ensures
            forall|i: int| 0 <= i < 1024 ==> #[trigger] out@[i] == self.colors()[i / 4][i % 4],
    {
        let mut out: [u8; 1024] = [0u8; 1024];
        let mut i: usize = 0;
        while i < 1024
            invariant
                i <= 1024,
                forall|k: int| 0 <= k < i ==> #[trigger] out@[k] == self.colors()[k / 4][k % 4],
            decreases 1024 - i,
        {
            out[i] = self.entries[i / 4].0[i % 4];
            i += 1;
        }
        out
    }
}

impl Default for Palette {
    fn default() -> (p: Palette)
        ensures
            p.colors() == default_colors(),
            !p.from_file,
    {
        Palette::magicavoxel_default()
    }
}

/// MagicaVoxel's default palette, in the file's own `0xAABBGGRR` word order.
pub const DEFAULT_PALETTE_ABGR: [u32; 256] = [
    0xffffffff, 0xffccffff, 0xff99ffff, 0xff66ffff, 0xff33ffff, 0xff00ffff, 0xffffccff, 0xffccccff,
    0xff99ccff, 0xff66ccff, 0xff33ccff, 0xff00ccff, 0xffff99ff, 0xffcc99ff, 0xff9999ff, 0xff6699ff,
    0xff3399ff, 0xff0099ff, 0xffff66ff, 0xffcc66ff, 0xff9966ff, 0xff6666ff, 0xff3366ff, 0xff0066ff,
    0xffff33ff, 0xffcc33ff, 0xff9933ff, 0xff6633ff, 0xff3333ff, 0xff0033ff, 0xffff00ff, 0xffcc00ff,
    0xff9900ff, 0xff6600ff, 0xff3300ff, 0xff0000ff, 0xffffffcc, 0xffccffcc, 0xff99ffcc, 0xff66ffcc,
    0xff33ffcc, 0xff00ffcc, 0xffffcccc, 0xffcccccc, 0xff99cccc, 0xff66cccc, 0xff33cccc, 0xff00cccc,
    0xffff99cc, 0xffcc99cc, 0xff9999cc, 0xff6699cc, 0xff3399cc, 0xff0099cc, 0xffff66cc, 0xffcc66cc,
    0xff9966cc, 0xff6666cc, 0xff3366cc, 0xff0066cc, 0xffff33cc, 0xffcc33cc, 0xff9933cc, 0xff6633cc,
    0xff3333cc, 0xff0033cc, 0xffff00cc, 0xffcc00cc, 0xff9900cc, 0xff6600cc, 0xff3300cc, 0xff0000cc,
    0xffffff99, 0xffccff99, 0xff99ff99, 0xff66ff99, 0xff33ff99, 0xff00ff99, 0xffffcc99, 0xffcccc99,
    0xff99cc99, 0xff66cc99, 0xff33cc99, 0xff00cc99, 0xffff9999, 0xffcc9999, 0xff999999, 0xff669999,
    0xff339999, 0xff009999, 0xffff6699, 0xffcc6699, 0xff996699, 0xff666699, 0xff336699, 0xff006699,
    0xffff3399, 0xffcc3399, 0xff993399, 0xff663399, 0xff333399, 0xff003399, 0xffff0099, 0xffcc0099,
    0xff990099, 0xff660099, 0xff330099, 0xff000099, 0xffffff66, 0xffccff66, 0xff99ff66, 0xff66ff66,
    0xff33ff66, 0xff00ff66, 0xffffcc66, 0xffcccc66, 0xff99cc66, 0xff66cc66, 0xff33cc66, 0xff00cc66,
    0xffff9966, 0xffcc9966, 0xff999966, 0xff669966, 0xff339966, 0xff009966, 0xffff6666, 0xffcc6666,
    0xff996666, 0xff666666, 0xff336666, 0xff006666, 0xffff3366, 0xffcc3366, 0xff993366, 0xff663366,
    0xff333366, 0xff003366, 0xffff0066, 0xffcc0066, 0xff990066, 0xff660066, 0xff330066, 0xff000066,
    0xffffff33, 0xffccff33, 0xff99ff33, 0xff66ff33, 0xff33ff33, 0xff00ff33, 0xffffcc33, 0xffcccc33,
    0xff99cc33, 0xff66cc33, 0xff33cc33, 0xff00cc33, 0xffff9933, 0xffcc9933, 0xff999933, 0xff669933,
    0xff339933, 0xff009933, 0xffff6633, 0xffcc6633, 0xff996633, 0xff666633, 0xff336633, 0xff006633,
    0xffff3333, 0xffcc3333, 0xff993333, 0xff663333, 0xff333333, 0xff003333, 0xffff0033, 0xffcc0033,
    0xff990033, 0xff660033, 0xff330033, 0xff000033, 0xffffff00, 0xffccff00, 0xff99ff00, 0xff66ff00,
    0xff33ff00, 0xff00ff00, 0xffffcc00, 0xffcccc00, 0xff99cc00, 0xff66cc00, 0xff33cc00, 0xff00cc00,
    0xffff9900, 0xffcc9900, 0xff999900, 0xff669900, 0xff339900, 0xff009900, 0xffff6600, 0xffcc6600,
    0xff996600, 0xff666600, 0xff336600, 0xff006600, 0xffff3300, 0xffcc3300, 0xff993300, 0xff663300,
    0xff333300, 0xff003300, 0xffff0000, 0xffcc0000, 0xff990000, 0xff660000, 0xff330000, 0xff0000ee,
    0xff0000dd, 0xff0000bb, 0xff0000aa, 0xff000088, 0xff000077, 0xff000055, 0xff000044, 0xff000022,
    0xff000011, 0xff00ee00, 0xff00dd00, 0xff00bb00, 0xff00aa00, 0xff008800, 0xff007700, 0xff005500,
    0xff004400, 0xff002200, 0xff001100, 0xffee0000, 0xffdd0000, 0xffbb0000, 0xffaa0000, 0xff880000,
    0xff770000, 0xff550000, 0xff440000, 0xff220000, 0xff110000, 0xffeeeeee, 0xffdddddd, 0xffbbbbbb,
    0xffaaaaaa, 0xff888888, 0xff777777, 0xff555555, 0xff444444, 0xff222222, 0xff111111, 0x00000000,
];

/// The bytes of a built-in colour make up its word, the red byte lowest.
pub proof fn lemma_a_word_is_red_first(w: u32)
    ensures
        word_bytes(w).len() == 4,
        w == word_bytes(w)[0] + 256 * word_bytes(w)[1] + 65_536 * word_bytes(w)[2] + 16_777_216
            * word_bytes(w)[3],
{
    let (a, b, c, d) = (w as u8, (w >> 8) as u8, (w >> 16) as u8, (w >> 24) as u8);
    assert(w == a as u32 + 256u32 * (b as u32) + 65_536u32 * (c as u32) + 16_777_216u32 * (
    d as u32)) by (bit_vector)
        requires
            a == w as u8,
            b == (w >> 8) as u8,
            c == (w >> 16) as u8,
            d == (w >> 24) as u8,
    ;
}

/// An entry of a palette is the file's colour of that number, red first, and
/// the built-in one only where the file lists none.
pub proof fn lemma_an_entry_is_the_files_own(colors: Seq<Color>, i: int)
    requires
        0 <= i < 256,
    ensures
        i < colors.len() ==> padded_colors(colors)[i] == seq![
            colors[i].r,
            colors[i].g,
            colors[i].b,
            colors[i].a,
        ],
        i >= colors.len() ==> padded_colors(colors)[i] == word_bytes(DEFAULT_PALETTE_ABGR@[i]),
        default_colors()[i] == word_bytes(DEFAULT_PALETTE_ABGR@[i]),
        padded_colors(colors).len() == 256,
{
}

} // verus!
