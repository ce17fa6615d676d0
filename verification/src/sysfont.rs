//! Borrowing fonts from the operating system, for text the bundled one
//! cannot draw.
//!
//! The UI toolkit ships a font that covers Latin, Greek and Cyrillic and stops
//! there. A file name in another script would render as a row of hollow
//! boxes, with no error anywhere. Bundling a font that covers all of it would
//! add tens of megabytes for something most people never need, so this finds
//! fonts already on the machine.
//!
//! Two things keep the cost down. Nothing is loaded until a name actually
//! needs it; and what is loaded is chosen by [`Script`], so a folder of Hebrew
//! names does not drag in twenty megabytes of Chinese.

use vstd::prelude::*;

use crate::order;
use crate::order::Keyed;
use crate::paths;
use crate::paths::{FilePath, PathView, Platform};
use crate::text;

verus! {

/// A group of scripts that tends to travel together in one font file.
///
/// Not a Unicode classification -- a shopping list. The question each variant
/// answers is "which file on this machine do I need to open", so Chinese,
/// Japanese and Korean are separate despite sharing Han characters (the
/// Japanese font is the one with kana in it), and every Indic script is one
/// entry because Windows and macOS each ship them in a single file.
#[derive(Clone, Copy, PartialEq, Eq, Debug, Structural)]
pub enum Script {
    /// Anything unrecognised: reach for the widest font available.
    Broad,
    /// Arabic, Hebrew, Syriac, Thaana.
    MiddleEast,
    /// Devanagari through Sinhala.
    Indic,
    /// Thai, Lao, Khmer, Myanmar.
    SouthEastAsian,
    /// Han: Chinese, and the kanji in the other two.
    Han,
    /// Hiragana and katakana.
    Kana,
    /// Hangul.
    Hangul,
}

impl Script {
    /// Every script there is, in order.
    pub open spec fn every() -> Seq<Script> {
        seq![
            Script::Broad,
            Script::MiddleEast,
            Script::Indic,
            Script::SouthEastAsian,
            Script::Han,
            Script::Kana,
            Script::Hangul,
        ]
    }

    /// Every script there is, in order.
    pub fn all() -> (r: [Script; 7])
        ensures
            r@ == Script::every(),
    {
        let r = [
            Script::Broad,
            Script::MiddleEast,
            Script::Indic,
            Script::SouthEastAsian,
            Script::Han,
            Script::Kana,
            Script::Hangul,
        ];
        assert(r@ =~= Script::every());
        r
    }

    spec fn mask(self) -> u8 {
        match self {
            Script::Broad => 1,
            Script::MiddleEast => 2,
            Script::Indic => 4,
            Script::SouthEastAsian => 8,
            Script::Han => 16,
            Script::Kana => 32,
            Script::Hangul => 64,
        }
    }

    fn bit(self) -> (r: u8)
        ensures
            r == self.mask(),
    {
        match self {
            Script::Broad => 1,
            Script::MiddleEast => 2,
            Script::Indic => 4,
            Script::SouthEastAsian => 8,
            Script::Han => 16,
            Script::Kana => 32,
            Script::Hangul => 64,
        }
    }
}

/// Which of the [`Script`] groups some text turned out to need.
#[derive(Clone, Copy, PartialEq, Eq, Debug, Structural)]
pub struct Scripts {
    bits: u8,
}

impl Scripts {
    /// Whether a script is in the set.
    pub closed spec fn has(self, script: Script) -> bool {
        self.bits & script.mask() != 0
    }

    /// Whether the set holds nothing but scripts.
    pub closed spec fn wf(self) -> bool {
        self.bits & 128 == 0
    }

    pub fn is_empty(self) -> (r: bool)
        requires
            self.wf(),
        ensures
            r <==> (forall|s: Script| !self.has(s)),
    {
        proof {
            let b = self.bits;
            assert(b & 128 == 0 && b & 1 == 0 && b & 2 == 0 && b & 4 == 0 && b & 8 == 0 && b & 16
                == 0 && b & 32 == 0 && b & 64 == 0 ==> b == 0) by (bit_vector);
            assert(b == 0 ==> b & 1 == 0 && b & 2 == 0 && b & 4 == 0 && b & 8 == 0 && b & 16 == 0
                && b & 32 == 0 && b & 64 == 0) by (bit_vector);
            if forall|s: Script| !self.has(s) {
                assert(!self.has(Script::Broad) && !self.has(Script::MiddleEast) && !self.has(
                    Script::Indic,
                ) && !self.has(Script::SouthEastAsian) && !self.has(Script::Han) && !self.has(
                    Script::Kana,
                ) && !self.has(Script::Hangul));
            }
        }
        self.bits == 0
    }

    pub fn contains(self, script: Script) -> (r: bool)
        ensures
            r == self.has(script),
    {
        self.bits & script.bit() != 0
    }

    pub fn insert(&mut self, script: Script)
        ensures
            forall|s: Script| #[trigger] final(self).has(s) <==> old(self).has(s) || s == script,
            old(self).wf() ==> final(self).wf(),
    {
        let ghost was = self.bits;
        let ghost m = script.mask();
        self.bits = self.bits | script.bit();
        proof {
            assert forall|s: Script| #[trigger] self.has(s) <==> old(self).has(s) || s == script by {
                lemma_masks(s, script);
                let n = s.mask();
                assert((was | m) & n != 0 <==> was & n != 0 || m & n != 0) by (bit_vector);
            }
            assert(m & 128 == 0 && was & 128 == 0 ==> (was | m) & 128 == 0) by (bit_vector);
            lemma_masks(script, script);
        }
    }

    /// Everything in either set.
    pub fn union(self, other: Scripts) -> (r: Scripts)
        ensures
            forall|s: Script| #[trigger] r.has(s) <==> self.has(s) || other.has(s),
            self.wf() && other.wf() ==> r.wf() && is_union(r, self, other),
    {
        let r = Scripts { bits: self.bits | other.bits };
        proof {
            let (a, b) = (self.bits, other.bits);
            assert forall|s: Script| #[trigger] r.has(s) <==> self.has(s) || other.has(s) by {
                let n = s.mask();
                assert((a | b) & n != 0 <==> a & n != 0 || b & n != 0) by (bit_vector);
            }
            assert(a & 128 == 0 && b & 128 == 0 ==> (a | b) & 128 == 0) by (bit_vector);
        }
        r
    }

    /// Those of the first `n` scripts that are in the set.
    pub open spec fn listed(self, n: int) -> Seq<Script>
        decreases n,
    {
        if n <= 0 {
            Seq::empty()
        } else {
            let before = self.listed(n - 1);
            if self.has(Script::every()[n - 1]) {
                before.push(Script::every()[n - 1])
            } else {
                before
            }
        }
    }

    /// The scripts in the set, in order.
    pub fn iter(self) -> (r: Vec<Script>)
        ensures
            r@ == self.listed(7),
    {
        let all = Script::all();
        let mut out: Vec<Script> = Vec::new();
        let mut i: usize = 0;
        while i < 7
            invariant
                i <= 7,
                all@ == Script::every(),
                out@ == self.listed(i as int),
            decreases 7 - i,
        {
            let script = all[i];
            if self.contains(script) {
                out.push(script);
            }
            i += 1;
        }
        out
    }
}

impl Default for Scripts {
    fn default() -> (r: Scripts)
        ensures
            r.wf(),
            forall|s: Script| !#[trigger] r.has(s),
    {
        let r = Scripts { bits: 0 };
        proof {
            assert(0u8 & 128 == 0) by (bit_vector);
            assert forall|s: Script| !#[trigger] r.has(s) by {
                let n = s.mask();
                assert(0u8 & n == 0) by (bit_vector);
            }
        }
        r
    }
}

proof fn lemma_masks(a: Script, b: Script)
    ensures
        b.mask() & a.mask() != 0 <==> a == b,
        a.mask() & 128 == 0,
{
    let (m, n) = (a.mask(), b.mask());
    assert((m == 1 || m == 2 || m == 4 || m == 8 || m == 16 || m == 32 || m == 64) && (n == 1 || n
        == 2 || n == 4 || n == 8 || n == 16 || n == 32 || n == 64) ==> ((n & m != 0 <==> m == n)
        && m & 128 == 0)) by (bit_vector);
}

/// The members make the set: two sets of the same scripts are the same set.
pub proof fn lemma_members_make_the_set(a: Scripts, b: Scripts)
    requires
        a.wf(),
        b.wf(),
        forall|s: Script| a.has(s) == b.has(s),
    ensures
        a == b,
{
    let (x, y) = (a.bits, b.bits);
    assert(a.has(Script::Broad) == b.has(Script::Broad));
    assert(a.has(Script::MiddleEast) == b.has(Script::MiddleEast));
    assert(a.has(Script::Indic) == b.has(Script::Indic));
    assert(a.has(Script::SouthEastAsian) == b.has(Script::SouthEastAsian));
    assert(a.has(Script::Han) == b.has(Script::Han));
    assert(a.has(Script::Kana) == b.has(Script::Kana));
    assert(a.has(Script::Hangul) == b.has(Script::Hangul));
    assert(x & 128 == 0 && y & 128 == 0 && (x & 1 != 0 <==> y & 1 != 0) && (x & 2 != 0 <==> y & 2
        != 0) && (x & 4 != 0 <==> y & 4 != 0) && (x & 8 != 0 <==> y & 8 != 0) && (x & 16 != 0 <==> y
        & 16 != 0) && (x & 32 != 0 <==> y & 32 != 0) && (x & 64 != 0 <==> y & 64 != 0) ==> x == y)
        by (bit_vector);
}

/// Whether a set holds what is in either of two others, and nothing else.
pub open spec fn is_union(r: Scripts, a: Scripts, b: Scripts) -> bool {
    &&& r.wf()
    &&& forall|s: Script| #[trigger] r.has(s) <==> a.has(s) || b.has(s)
}

/// Joining sets of scripts is commutative, associative and idempotent, and the
/// empty set adds nothing: `ab` and `ba` are the two joined either way, `bc`
/// the second with a third, `ab_c` and `a_bc` all three, `aa` a set joined with
/// itself, and `ae` one joined with the empty set `e`.
pub proof fn lemma_joining_is_a_union(
    a: Scripts,
    b: Scripts,
    c: Scripts,
    e: Scripts,
    ab: Scripts,
    ba: Scripts,
    bc: Scripts,
    ab_c: Scripts,
    a_bc: Scripts,
    aa: Scripts,
    ae: Scripts,
)
    requires
        a.wf(),
        is_union(ab, a, b),
        is_union(ba, b, a),
        is_union(bc, b, c),
        is_union(ab_c, ab, c),
        is_union(a_bc, a, bc),
        is_union(aa, a, a),
        is_union(ae, a, e),
        forall|s: Script| !#[trigger] e.has(s),
    ensures
        ab == ba,
        ab_c == a_bc,
        aa == a,
        ae == a,
{
    assert forall|s: Script| ab.has(s) == ba.has(s) by {}
    lemma_members_make_the_set(ab, ba);
    assert forall|s: Script| ab_c.has(s) == a_bc.has(s) by {
        assert(ab.has(s) <==> a.has(s) || b.has(s));
        assert(bc.has(s) <==> b.has(s) || c.has(s));
    }
    lemma_members_make_the_set(ab_c, a_bc);
    assert forall|s: Script| aa.has(s) == a.has(s) by {}
    lemma_members_make_the_set(aa, a);
    assert forall|s: Script| ae.has(s) == a.has(s) by {}
    lemma_members_make_the_set(ae, a);
}

/// Whether a number lies between two others, or is one of them.
pub open spec fn between(u: u32, lo: u32, hi: u32) -> bool {
    lo <= u <= hi
}

/// The script group a code point needs a fallback for.
pub open spec fn script_for(u: u32) -> Option<Script> {
    // Latin, Latin Extended-A and -B, IPA, spacing modifiers.
    if between(u, 0x0000, 0x02FF)
        // Greek and Cyrillic.
        || between(u, 0x0370, 0x04FF)
        // Latin Extended Additional: the accented Vietnamese range.
        || between(u, 0x1E00, 0x1EFF)
        // Punctuation, currency, letterlike symbols, arrows, maths.
        || between(u, 0x2000, 0x22FF)
        // Emoji, which the toolkit bundles a font for.
        || between(u, 0x1F300, 0x1FAFF) {
        None
    } else if between(u, 0x0590, 0x08FF) || between(u, 0xFB1D, 0xFDFF) || between(
        u,
        0xFE70,
        0xFEFF,
    ) {
        // Hebrew, Arabic, Syriac, Thaana, and the Arabic supplements.
        Some(Script::MiddleEast)
    } else if between(u, 0x0900, 0x0DFF) {
        // Devanagari, Bengali, Gurmukhi, Gujarati, Oriya, Tamil, Telugu,
        // Kannada, Malayalam, Sinhala.
        Some(Script::Indic)
    } else if between(u, 0x0E00, 0x0FFF) || between(u, 0x1000, 0x109F) || between(
        u,
        0x1780,
        0x17FF,
    ) {
        // Thai, Lao, Tibetan, Myanmar, Khmer.
        Some(Script::SouthEastAsian)
    } else if between(u, 0x3040, 0x30FF) || between(u, 0x31F0, 0x31FF) || between(
        u,
        0xFF66,
        0xFF9F,
    ) {
        // Kana, and the halfwidth katakana at the top of the BMP.
        Some(Script::Kana)
    } else if between(u, 0x1100, 0x11FF) || between(u, 0x3130, 0x318F) || between(
        u,
        0xA960,
        0xA97F,
    ) || between(u, 0xAC00, 0xD7FF) {
        // Hangul jamo, compatibility jamo, and the syllable block.
        Some(Script::Hangul)
    } else if between(u, 0x2E80, 0x303F) || between(u, 0x3200, 0x9FFF) || between(
        u,
        0xF900,
        0xFAFF,
    ) || between(u, 0x20000, 0x3FFFF) {
        // CJK radicals, symbols and punctuation, and the two big Han blocks,
        // plus the supplementary plane extensions.
        Some(Script::Han)
    } else {
        Some(Script::Broad)
    }
}

/// The script group `c` needs a fallback for, or `None` when the bundled fonts
/// already have it.
pub fn script_of(c: char) -> (r: Option<Script>)
    ensures
        r == script_for(c as u32),
{
    let u: u32 = c as u32;
    if u <= 0x02FF || (0x0370 <= u && u <= 0x04FF) || (0x1E00 <= u && u <= 0x1EFF) || (0x2000 <= u
        && u <= 0x22FF) || (0x1F300 <= u && u <= 0x1FAFF) {
        None
    } else if (0x0590 <= u && u <= 0x08FF) || (0xFB1D <= u && u <= 0xFDFF) || (0xFE70 <= u && u
        <= 0xFEFF) {
        Some(Script::MiddleEast)
    } else if 0x0900 <= u && u <= 0x0DFF {
        Some(Script::Indic)
    } else if (0x0E00 <= u && u <= 0x109F) || (0x1780 <= u && u <= 0x17FF) {
        Some(Script::SouthEastAsian)
    } else if (0x3040 <= u && u <= 0x30FF) || (0x31F0 <= u && u <= 0x31FF) || (0xFF66 <= u && u
        <= 0xFF9F) {
        Some(Script::Kana)
    } else if (0x1100 <= u && u <= 0x11FF) || (0x3130 <= u && u <= 0x318F) || (0xA960 <= u && u
        <= 0xA97F) || (0xAC00 <= u && u <= 0xD7FF) {
        Some(Script::Hangul)
    } else if (0x2E80 <= u && u <= 0x303F) || (0x3200 <= u && u <= 0x9FFF) || (0xF900 <= u && u
        <= 0xFAFF) || (0x20000 <= u && u <= 0x3FFFF) {
        Some(Script::Han)
    } else {
        Some(Script::Broad)
    }
}

/// Whether one of the first `n` characters of a text needs a script.
pub open spec fn asks_for(text: Seq<char>, n: int, script: Script) -> bool {
    exists|i: int| 0 <= i < n && script_for((#[trigger] text[i]) as u32) == Some(script)
}

/// Whether a set is of the scripts a text needs.
pub open spec fn is_beyond(r: Scripts, text: Seq<char>) -> bool {
    &&& r.wf()
    &&& forall|s: Script| #[trigger] r.has(s) <==> asks_for(text, text.len() as int, s)
}

/// What two texts need together is what either needs; and a text needs nothing
/// exactly where the bundled font has every character of it.
pub proof fn lemma_joined_texts_need_both(
    x: Seq<char>,
    y: Seq<char>,
    of_x: Scripts,
    of_y: Scripts,
    of_both: Scripts,
    joined: Scripts,
)
    requires
        is_beyond(of_x, x),
        is_beyond(of_y, y),
        is_beyond(of_both, x + y),
        is_union(joined, of_x, of_y),
    ensures
        of_both == joined,
        (forall|s: Script| !of_x.has(s)) <==> (forall|i: int|
            0 <= i < x.len() ==> script_for((#[trigger] x[i]) as u32) is None),
{
    let all = x + y;
    assert forall|s: Script| of_both.has(s) == joined.has(s) by {
        if of_both.has(s) {
            let i = choose|i: int|
                0 <= i < all.len() && script_for((#[trigger] all[i]) as u32) == Some(s);
            if i < x.len() {
                assert(x[i] == all[i]);
                assert(of_x.has(s));
            } else {
                assert(y[i - x.len()] == all[i]);
                assert(of_y.has(s));
            }
        }
        if of_x.has(s) {
            let i = choose|i: int|
                0 <= i < x.len() && script_for((#[trigger] x[i]) as u32) == Some(s);
            assert(all[i] == x[i]);
        }
        if of_y.has(s) {
            let i = choose|i: int|
                0 <= i < y.len() && script_for((#[trigger] y[i]) as u32) == Some(s);
            assert(all[x.len() + i] == y[i]);
        }
    }
    lemma_members_make_the_set(of_both, joined);
    if forall|s: Script| !of_x.has(s) {
        assert forall|i: int| 0 <= i < x.len() implies script_for((#[trigger] x[i]) as u32) is None by {
            if let Some(s) = script_for(x[i] as u32) {
                assert(of_x.has(s));
            }
        }
    }
}

/// The scripts in `text` that the bundled font cannot draw.
///
/// The ranges are coarse on purpose. This runs over every file name in a scan
/// and its answer only decides which font files to open, so naming a script
/// that was not really needed costs one wasted read, while missing one costs a
/// row of hollow boxes. The line is drawn generously.
pub fn scripts_beyond(text: &str) -> (r: Scripts)
    ensures
        is_beyond(r, text@),
{
    let chars = text::chars_of(text);
    let mut out = Scripts::default();
    let mut i: usize = 0;
    while i < chars.len()
        invariant
            i <= chars@.len(),
            out.wf(),
            forall|s: Script| #[trigger] out.has(s) <==> asks_for(chars@, i as int, s),
        decreases chars@.len() - i,
    {
        let ghost was = out;
        let here = script_of(chars[i]);
        if let Some(script) = here {
            out.insert(script);
        }
        proof {
            assert forall|s: Script| #[trigger] out.has(s) <==> asks_for(chars@, i + 1, s) by {
                assert(was.has(s) <==> asks_for(chars@, i as int, s));
                if out.has(s) {
                    if was.has(s) {
                        let k = choose|k: int|
                            0 <= k < i && script_for((#[trigger] chars@[k]) as u32) == Some(s);
                        assert(script_for(chars@[k] as u32) == Some(s));
                    } else {
                        assert(script_for(chars@[i as int] as u32) == Some(s));
                    }
                }
            }
        }
        i += 1;
    }
    out
}

// ---- where to look ----------------------------------------------------------
/// At most this many font files, however many scripts turn up.
pub const MAX_FONTS: usize = 6;

/// Stop loading once the fallbacks have cost this much memory.
///
/// A full CJK font is 15-25 MB on its own, so this leaves room for one of
/// those plus everything else.
pub const MAX_BYTES: u64 = 67_108_864;

/// Names, each in one directory.
pub open spec fn within(dir: PathView, files: Seq<Seq<char>>) -> Seq<PathView> {
    Seq::new(files.len(), |i: int| dir.join(files[i]))
}

/// Absolute paths from their texts.
pub open spec fn all_rooted(files: Seq<Seq<char>>) -> Seq<PathView> {
    Seq::new(files.len(), |i: int| paths::rooted(files[i]))
}

/// The fonts of Windows for a script, best first.
pub open spec fn windows_fonts(script: Script) -> Seq<Seq<char>> {
    match script {
        Script::Broad => seq!["arialuni.ttf"@, "segoeui.ttf"@],
        Script::MiddleEast => seq!["segoeui.ttf"@, "arialuni.ttf"@],
        Script::Indic => seq!["Nirmala.ttc"@, "Nirmala.ttf"@, "arialuni.ttf"@],
        Script::SouthEastAsian => seq!["LeelawUI.ttf"@, "LeelaUIb.ttf"@, "segoeui.ttf"@],
        Script::Han => seq!["msyh.ttc"@, "msjh.ttc"@, "simsun.ttc"@, "arialuni.ttf"@],
        Script::Kana => seq!["meiryo.ttc"@, "msgothic.ttc"@, "YuGothM.ttc"@, "arialuni.ttf"@],
        Script::Hangul => seq!["malgun.ttf"@, "gulim.ttc"@, "batang.ttc"@, "arialuni.ttf"@],
    }
}

/// The fonts of macOS for a script, best first.
pub open spec fn macos_fonts(script: Script) -> Seq<Seq<char>> {
    let unicode = seq![
        "/System/Library/Fonts/Supplemental/Arial Unicode.ttf"@,
        "/Library/Fonts/Arial Unicode.ttf"@,
    ];
    match script {
        Script::Broad | Script::MiddleEast => unicode.push(
            "/System/Library/Fonts/Supplemental/GeezaPro.ttc"@,
        ),
        Script::Indic => unicode.push(
            "/System/Library/Fonts/Supplemental/DevanagariSangamMN.ttc"@,
        ),
        Script::SouthEastAsian => unicode.push(
            "/System/Library/Fonts/Supplemental/Thonburi.ttc"@,
        ),
        Script::Han => seq!["/System/Library/Fonts/PingFang.ttc"@] + unicode,
        Script::Kana => seq!["/System/Library/Fonts/Hiragino Sans GB.ttc"@] + unicode,
        Script::Hangul => seq!["/System/Library/Fonts/AppleSDGothicNeo.ttc"@] + unicode,
    }
}

/// The one font file that is nearly always present on the other systems.
pub open spec fn dejavu() -> Seq<Seq<char>> {
    seq![
        "/usr/share/fonts/truetype/dejavu/DejaVuSans.ttf"@,
        "/usr/share/fonts/TTF/DejaVuSans.ttf"@,
        "/usr/share/fonts/dejavu/DejaVuSans.ttf"@,
        "/usr/share/fonts/dejavu-sans-fonts/DejaVuSans.ttf"@,
        "/usr/local/share/fonts/dejavu/DejaVuSans.ttf"@,
    ]
}

fn texts_of(v: &Vec<&str>) -> (r: Vec<FilePath>)
    ensures
        paths::views(r@) == all_rooted(text::labels(v@)),
{
    let mut out: Vec<FilePath> = Vec::new();
    let mut i: usize = 0;
    let ghost all = text::labels(v@);
    assert(paths::views(out@) =~= all_rooted(all).subrange(0, 0));
    while i < v.len()
        invariant
            i <= v@.len(),
            all == text::labels(v@),
            paths::views(out@) == all_rooted(all).subrange(0, i as int),
        decreases v@.len() - i,
    {
        let ghost had = out@;
        out.push(FilePath::rooted(v[i]));
        i += 1;
        assert(paths::views(out@) =~= paths::views(had).push(paths::rooted(all[i - 1])));
        assert(paths::views(out@) =~= all_rooted(all).subrange(0, i as int));
    }
    assert(paths::views(out@) =~= all_rooted(all));
    out
}

fn windows_candidates(script: Script, fonts: &FilePath) -> (r: Vec<FilePath>)
    ensures
        paths::views(r@) == within(fonts@, windows_fonts(script)),
{
    // Segoe UI is on every Windows since 7 and carries Arabic, Hebrew,
    // Armenian, Georgian and Thai in under a megabyte, so it is the first
    // answer wherever it is an answer at all. Arial Unicode MS, when Office
    // put it there, covers nearly everything and is the backstop.
    let files: Vec<&str> = match script {
        Script::Broad => vec!["arialuni.ttf", "segoeui.ttf"],
        Script::MiddleEast => vec!["segoeui.ttf", "arialuni.ttf"],
        // Nirmala UI is Windows' single file for every Indic script. It ships
        // as a collection on Windows 10 and later and as a plain TrueType
        // before that.
        Script::Indic => vec!["Nirmala.ttc", "Nirmala.ttf", "arialuni.ttf"],
        // Leelawadee UI is Thai and Lao; Segoe UI has Thai as well. The name
        // ending in "b" is the bold face, so it comes second.
        Script::SouthEastAsian => vec!["LeelawUI.ttf", "LeelaUIb.ttf", "segoeui.ttf"],
        Script::Han => vec!["msyh.ttc", "msjh.ttc", "simsun.ttc", "arialuni.ttf"],
        // Meiryo and MS Gothic have the kana that the Chinese fonts do not.
        Script::Kana => vec!["meiryo.ttc", "msgothic.ttc", "YuGothM.ttc", "arialuni.ttf"],
        Script::Hangul => vec!["malgun.ttf", "gulim.ttc", "batang.ttc", "arialuni.ttf"],
    };
    let ghost all = windows_fonts(script);
    assert(text::labels(files@) =~= all);
    let mut out: Vec<FilePath> = Vec::new();
    let mut i: usize = 0;
    assert(paths::views(out@) =~= within(fonts@, all).subrange(0, 0));
    while i < files.len()
        invariant
            i <= files@.len(),
            all == text::labels(files@),
            paths::views(out@) == within(fonts@, all).subrange(0, i as int),
        decreases files@.len() - i,
    {
        let ghost had = out@;
        out.push(fonts.join(files[i]));
        i += 1;
        assert(paths::views(out@) =~= paths::views(had).push(fonts@.join(all[i - 1])));
        assert(paths::views(out@) =~= within(fonts@, all).subrange(0, i as int));
    }
    assert(paths::views(out@) =~= within(fonts@, all));
    out
}

/// Best effort, and the least certain of the three lists: Apple moves these
/// files between releases, and the Japanese faces live under names written in
/// Japanese. Arial Unicode is listed first everywhere it helps because it is
/// one file that covers almost all of this.
fn macos_candidates(script: Script) -> (r: Vec<FilePath>)
    ensures
        paths::views(r@) == all_rooted(macos_fonts(script)),
{
    let a = "/System/Library/Fonts/Supplemental/Arial Unicode.ttf";
    let b = "/Library/Fonts/Arial Unicode.ttf";
    let files: Vec<&str> = match script {
        Script::Broad | Script::MiddleEast => vec![
            a,
            b,
            "/System/Library/Fonts/Supplemental/GeezaPro.ttc",
        ],
        Script::Indic => vec![a, b, "/System/Library/Fonts/Supplemental/DevanagariSangamMN.ttc"],
        Script::SouthEastAsian => vec![a, b, "/System/Library/Fonts/Supplemental/Thonburi.ttc"],
        Script::Han => vec!["/System/Library/Fonts/PingFang.ttc", a, b],
        Script::Kana => vec!["/System/Library/Fonts/Hiragino Sans GB.ttc", a, b],
        Script::Hangul => vec!["/System/Library/Fonts/AppleSDGothicNeo.ttc", a, b],
    };
    assert(text::labels(files@) =~= macos_fonts(script));
    texts_of(&files)
}

/// The directories that hold fonts on the other systems.
pub open spec fn font_dirs() -> Seq<Seq<char>> {
    seq![
        "/usr/share/fonts/opentype/noto"@,
        "/usr/share/fonts/truetype/noto"@,
        "/usr/share/fonts/noto"@,
        "/usr/share/fonts/noto-cjk"@,
        "/usr/share/fonts/google-noto"@,
        "/usr/share/fonts/google-noto-cjk"@,
        "/usr/share/fonts/truetype/wqy"@,
        "/usr/share/fonts/wqy-zenhei"@,
        "/usr/share/fonts/truetype"@,
        "/usr/share/fonts"@,
    ]
}

/// The usual font directories, to be listed one level deep. A full walk of the
/// font tree would find more and cost more than it is worth for something that
/// runs once.
pub fn usual_dirs() -> (r: Vec<&'static str>)
    ensures
        text::labels(r@) == font_dirs(),
{
    let r: Vec<&'static str> = vec![
        "/usr/share/fonts/opentype/noto",
        "/usr/share/fonts/truetype/noto",
        "/usr/share/fonts/noto",
        "/usr/share/fonts/noto-cjk",
        "/usr/share/fonts/google-noto",
        "/usr/share/fonts/google-noto-cjk",
        "/usr/share/fonts/truetype/wqy",
        "/usr/share/fonts/wqy-zenhei",
        "/usr/share/fonts/truetype",
        "/usr/share/fonts",
    ];
    assert(text::labels(r@) =~= font_dirs());
    r
}

/// Whether one text ends with another.
pub open spec fn ends_with(s: Seq<char>, tail: Seq<char>) -> bool {
    tail.len() <= s.len() && s.subrange(s.len() - tail.len(), s.len() as int) == tail
}

/// Whether a file name is that of a font in regular weight with some word in
/// it. "Regular" keeps this from picking the Bold or Black face that sits
/// beside it; the WenQuanYi fonts have no weight in the name.
pub open spec fn is_font(name: Seq<char>, needle: Seq<char>) -> bool {
    let s = crate::menu::lowered(name);
    &&& ends_with(s, ".ttc"@) || ends_with(s, ".otf"@) || ends_with(s, ".ttf"@)
    &&& text::holds(s, "regular"@) || text::holds(s, "zenhei"@)
    &&& text::holds(s, needle)
}

/// The last name of a path, or nothing.
pub open spec fn name_of(p: PathView) -> Seq<char> {
    match p.file_name() {
        Some(n) => n,
        None => Seq::empty(),
    }
}

/// Whether a list is the fonts among some files: every font once, in the order
/// of their paths.
pub open spec fn are_fonts(
    r: Seq<PathView>,
    files: Seq<PathView>,
    needle: Seq<char>,
) -> bool {
    &&& forall|p: PathView| #[trigger]
        r.contains(p) <==> files.contains(p) && is_font(name_of(p), needle)
    &&& forall|i: int, j: int|
        #![trigger r[i], r[j]]
        0 <= i <= j < r.len() ==> order::lex_le(paths::path_key(r[i]), paths::path_key(r[j]))
    &&& forall|i: int| 0 <= i < r.len() - 1 ==> (#[trigger] r[i]) != r[i + 1]
}

fn text_ends(s: &Vec<char>, tail: &str) -> (r: bool)
    ensures
        r == ends_with(s@, tail@),
{
    let t = text::chars_of(tail);
    if t.len() > s.len() {
        return false;
    }
    text::same(&text::slice(s, s.len() - t.len(), s.len()), &t)
}

fn font_name(name: &String, needle: &str) -> (r: bool)
    ensures
        r == is_font(name@, needle@),
{
    let s = crate::menu::lower(name);
    let shape = text_ends(&s, ".ttc") || text_ends(&s, ".otf") || text_ends(&s, ".ttf");
    let regular = text::contains(&s, &text::chars_of("regular")) || text::contains(
        &s,
        &text::chars_of("zenhei"),
    );
    shape && regular && text::contains(&s, &text::chars_of(needle))
}

/// Files by their paths.
pub struct ByPath<'a> {
    pub files: &'a Vec<FilePath>,
}

impl Keyed for ByPath<'_> {
    open spec fn valid(&self, i: usize) -> bool {
        i < self.files@.len()
    }

    open spec fn key(&self, i: usize) -> Seq<int> {
        paths::path_key(self.files@[i as int]@)
    }

    fn le(&self, a: usize, b: usize) -> (r: bool) {
        let c: i8 = paths::compare_paths(&self.files[a], &self.files[b]);
        proof {
            order::lemma_lex_reflexive(self.key(a));
        }
        c <= 0
    }
}

/// Font files whose names contain `needle`, in a fixed order: a directory is
/// listed in whatever order the filesystem feels like, and this decides which
/// font people see.
fn find_font(files: &Vec<FilePath>, needle: &str) -> (r: Vec<FilePath>)
    ensures
        are_fonts(paths::views(r@), paths::views(files@), needle@),
{
    let mut kept: Vec<usize> = Vec::new();
    let mut i: usize = 0;
    while i < files.len()
        invariant
            i <= files@.len(),
            forall|k: int|
                0 <= k < kept@.len() ==> (#[trigger] kept@[k]) < i && is_font(
                    name_of(files@[kept@[k] as int]@),
                    needle@,
                ),
            forall|j: int|
                0 <= j < i && is_font(name_of((#[trigger] files@[j])@), needle@) ==> kept@.contains(
                    j as usize,
                ),
        decreases files@.len() - i,
    {
        let name = match files[i].file_name() {
            Some(n) => n,
            None => String::new(),
        };
        assert(name@ =~= name_of(files@[i as int]@));
        let ghost had = kept@;
        if font_name(&name, needle) {
            kept.push(i);
        }
        proof {
            assert forall|j: int|
                0 <= j < i + 1 && is_font(name_of((#[trigger] files@[j])@), needle@) implies kept@.contains(
            j as usize) by {
                if j < i {
                    let k = choose|k: int| 0 <= k < had.len() && had[k] == j as usize;
                    assert(kept@[k] == j as usize);
                } else {
                    assert(kept@[had.len() as int] == i);
                }
            }
        }
        i += 1;
    }
    let by = ByPath { files };
    let sorted = order::sort(&by, &kept, 0, kept.len());
    proof {
        assert(kept@.subrange(0, kept@.len() as int) =~= kept@);
        order::lemma_sorting_keeps_the_items(by, sorted@, kept@);
    }
    let mut out: Vec<FilePath> = Vec::new();
    let mut k: usize = 0;
    while k < sorted.len()
        invariant
            k <= sorted@.len(),
            by.files == files,
            order::all_valid(by, sorted@),
            order::in_order(by, sorted@),
            k == 0 <==> out@.len() == 0,
            k > 0 ==> out@.last()@ == files@[sorted@[k - 1] as int]@,
            forall|p: PathView| #[trigger]
                paths::views(out@).contains(p) <==> is_picked(files@, sorted@, k as int, p),
            forall|a: int, b: int|
                #![trigger out@[a], out@[b]]
                0 <= a <= b < out@.len() ==> order::lex_le(
                    paths::path_key(out@[a]@),
                    paths::path_key(out@[b]@),
                ),
            forall|a: int| 0 <= a < out@.len() - 1 ==> (#[trigger] out@[a])@ != out@[a + 1]@,
        decreases sorted@.len() - k,
    {
        let at: usize = sorted[k];
        assert(by.valid(sorted@[k as int]));
        let ghost had = out@;
        let ghost here = files@[at as int]@;
        let repeat = out.len() > 0 && out[out.len() - 1].same(&files[at]);
        if !repeat {
            out.push(files[at].copy());
            proof {
                assert(out@.drop_last() =~= had);
                lemma_push_in_order(by, sorted@, k as int, had, out@);
            }
        }
        proof {
            lemma_picked_step(files@, sorted@, k as int, had, out@);
        }
        k += 1;
    }
    proof {
        lemma_fonts_found(paths::views(out@), files@, kept@, sorted@, needle@);
        let r = paths::views(out@);
        assert forall|a: int, b: int|
            #![trigger r[a], r[b]]
            0 <= a <= b < r.len() implies order::lex_le(
            paths::path_key(r[a]),
            paths::path_key(r[b]),
        ) by {
            assert(r[a] == out@[a]@ && r[b] == out@[b]@);
        }
        assert forall|a: int| 0 <= a < r.len() - 1 implies (#[trigger] r[a]) != r[a + 1] by {
            assert(r[a] == out@[a]@ && r[a + 1] == out@[a + 1]@);
        }
    }
    out
}

/// Whether a path is among the files at the first `n` places of a list.
spec fn is_picked(files: Seq<FilePath>, list: Seq<usize>, n: int, p: PathView) -> bool {
    exists|k: int| 0 <= k < n && files[#[trigger] list[k] as int]@ == p
}

proof fn lemma_push_in_order(
    by: ByPath,
    sorted: Seq<usize>,
    k: int,
    had: Seq<FilePath>,
    now: Seq<FilePath>,
)
    requires
        0 <= k < sorted.len(),
        order::in_order(by, sorted),
        now.len() == had.len() + 1,
        now.drop_last() == had,
        now.last()@ == by.files@[sorted[k] as int]@,
        k == 0 <==> had.len() == 0,
        k > 0 ==> had.last()@ == by.files@[sorted[k - 1] as int]@,
        had.len() > 0 ==> had.last()@ != now.last()@,
        forall|a: int, b: int|
            #![trigger had[a], had[b]]
            0 <= a <= b < had.len() ==> order::lex_le(
                paths::path_key(had[a]@),
                paths::path_key(had[b]@),
            ),
        forall|a: int| 0 <= a < had.len() - 1 ==> (#[trigger] had[a])@ != had[a + 1]@,
    ensures
        forall|a: int, b: int|
            #![trigger now[a], now[b]]
            0 <= a <= b < now.len() ==> order::lex_le(
                paths::path_key(now[a]@),
                paths::path_key(now[b]@),
            ),
        forall|a: int| 0 <= a < now.len() - 1 ==> (#[trigger] now[a])@ != now[a + 1]@,
{
    let n = had.len() as int;
    assert forall|a: int| 0 <= a < n implies now[a] == had[a] by {
        assert(now.drop_last()[a] == now[a]);
    }
    assert forall|a: int, b: int|
        #![trigger now[a], now[b]]
        0 <= a <= b < now.len() implies order::lex_le(
        paths::path_key(now[a]@),
        paths::path_key(now[b]@),
    ) by {
        if b < n {
            assert(order::lex_le(paths::path_key(had[a]@), paths::path_key(had[b]@)));
        } else if a < n {
            assert(order::lex_le(paths::path_key(had[a]@), paths::path_key(had[n - 1]@)));
            assert(order::lex_le(by.key(sorted[k - 1]), by.key(sorted[k])));
            order::lemma_lex_transitive(
                paths::path_key(now[a]@),
                paths::path_key(had[n - 1]@),
                paths::path_key(now[b]@),
            );
        } else {
            order::lemma_lex_reflexive(paths::path_key(now[b]@));
        }
    }
    assert forall|a: int| 0 <= a < now.len() - 1 implies (#[trigger] now[a])@ != now[a + 1]@ by {
        if a < n - 1 {
            assert(had[a]@ != had[a + 1]@);
        }
    }
}

proof fn lemma_picked_step(
    files: Seq<FilePath>,
    sorted: Seq<usize>,
    k: int,
    had: Seq<FilePath>,
    now: Seq<FilePath>,
)
    requires
        0 <= k < sorted.len(),
        forall|p: PathView| #[trigger]
            paths::views(had).contains(p) <==> is_picked(files, sorted, k, p),
        now == had && had.len() > 0 && had.last()@ == files[sorted[k] as int]@ || (now.len()
            == had.len() + 1 && now.drop_last() == had && now.last()@ == files[sorted[k] as int]@),
    ensures
        forall|p: PathView| #[trigger]
            paths::views(now).contains(p) <==> is_picked(files, sorted, k + 1, p),
{
    let here = files[sorted[k] as int]@;
    let (x, y) = (paths::views(had), paths::views(now));
    assert forall|p: PathView| #[trigger] y.contains(p) <==> is_picked(files, sorted, k + 1, p) by {
        assert(x.contains(p) <==> is_picked(files, sorted, k, p));
        if y.contains(p) {
            let a = choose|a: int| 0 <= a < y.len() && y[a] == p;
            if a < had.len() {
                assert(now[a] == had[a]) by {
                    if now.len() == had.len() + 1 {
                        assert(now.drop_last()[a] == now[a]);
                    }
                }
                assert(x[a] == p);
                assert(x.contains(p));
                let j = choose|j: int| 0 <= j < k && files[#[trigger] sorted[j] as int]@ == p;
                assert(files[sorted[j] as int]@ == p);
            } else {
                assert(files[sorted[k] as int]@ == p);
            }
        }
        if is_picked(files, sorted, k + 1, p) {
            let j = choose|j: int| 0 <= j < k + 1 && files[#[trigger] sorted[j] as int]@ == p;
            if j < k {
                assert(is_picked(files, sorted, k, p));
                let a = choose|a: int| 0 <= a < x.len() && x[a] == p;
                assert(now[a] == had[a]) by {
                    if now.len() == had.len() + 1 {
                        assert(now.drop_last()[a] == now[a]);
                    }
                }
                assert(y[a] == p);
            } else {
                assert(y[now.len() - 1] == p);
            }
        }
    }
}

proof fn lemma_fonts_found(
    r: Seq<PathView>,
    files: Seq<FilePath>,
    kept: Seq<usize>,
    sorted: Seq<usize>,
    needle: Seq<char>,
)
    requires
        files.len() <= usize::MAX,
        forall|p: PathView| #[trigger]
            r.contains(p) <==> is_picked(files, sorted, sorted.len() as int, p),
        forall|x: usize| #[trigger] sorted.contains(x) <==> kept.contains(x),
        forall|k: int|
            0 <= k < kept.len() ==> (#[trigger] kept[k]) < files.len() && is_font(
                name_of(files[kept[k] as int]@),
                needle,
            ),
        forall|j: int|
            0 <= j < files.len() && is_font(name_of((#[trigger] files[j])@), needle)
                ==> kept.contains(j as usize),
    ensures
        forall|p: PathView| #[trigger]
            r.contains(p) <==> paths::views(files).contains(p) && is_font(name_of(p), needle),
{
    assert forall|p: PathView| #[trigger] r.contains(p) <==> paths::views(files).contains(p) && is_font(
        name_of(p),
        needle,
    ) by {
        if r.contains(p) {
            let j = choose|j: int|
                0 <= j < sorted.len() && files[#[trigger] sorted[j] as int]@ == p;
            assert(sorted.contains(sorted[j]));
            let k = choose|k: int| 0 <= k < kept.len() && kept[k] == sorted[j];
            assert(paths::views(files)[kept[k] as int] == p);
        }
        if paths::views(files).contains(p) && is_font(name_of(p), needle) {
            let j = choose|j: int| 0 <= j < files.len() && paths::views(files)[j] == p;
            assert(files[j]@ == p);
            assert(kept.contains(j as usize));
            assert(sorted.contains(j as usize));
            let k = choose|k: int| 0 <= k < sorted.len() && sorted[k] == j as usize;
            assert(files[sorted[k] as int]@ == p);
        }
    }
}

/// Whether a list is where to look on the systems with a `/usr/share/fonts`.
///
/// DejaVu has Hebrew, Armenian and Georgian, and enough Arabic to beat a
/// hollow box, so it leads for those two.
pub open spec fn are_unix_fonts(
    r: Seq<PathView>,
    script: Script,
    files: Seq<PathView>,
) -> bool {
    let base = all_rooted(dejavu());
    match script {
        Script::Broad | Script::MiddleEast => exists|a: Seq<PathView>| #[trigger]
            are_fonts(a, files, "arabic"@) && r == base + a,
        Script::Indic => exists|a: Seq<PathView>| #[trigger]
            are_fonts(a, files, "devanagari"@) && r == a + base,
        Script::SouthEastAsian => exists|a: Seq<PathView>| #[trigger]
            are_fonts(a, files, "thai"@) && r == a + base,
        Script::Han | Script::Kana | Script::Hangul => exists|a: Seq<PathView>, b: Seq<PathView>|
            #[trigger] are_fonts(a, files, "cjk"@) && #[trigger] are_fonts(b, files, "zenhei"@) && r
                == a + b + base,
    }
}

fn append(out: &mut Vec<FilePath>, more: Vec<FilePath>)
    ensures
        paths::views(final(out)@) == paths::views(old(out)@) + paths::views(more@),
{
    let ghost start = out@;
    let mut more = more;
    out.append(&mut more);
    assert(paths::views(out@) =~= paths::views(start) + paths::views(out@.subrange(
        start.len() as int,
        out@.len() as int,
    )));
}

/// Linux, the BSDs, and anything else with a `/usr/share/fonts`.
///
/// The Noto families are named consistently enough to find by name, which is
/// what saves this from being a list of every distribution's idea of where
/// fonts live.
fn unix_candidates(script: Script, files: &Vec<FilePath>) -> (r: Vec<FilePath>)
    ensures
        are_unix_fonts(paths::views(r@), script, paths::views(files@)),
{
    let names: Vec<&str> = vec![
        "/usr/share/fonts/truetype/dejavu/DejaVuSans.ttf",
        "/usr/share/fonts/TTF/DejaVuSans.ttf",
        "/usr/share/fonts/dejavu/DejaVuSans.ttf",
        "/usr/share/fonts/dejavu-sans-fonts/DejaVuSans.ttf",
        "/usr/local/share/fonts/dejavu/DejaVuSans.ttf",
    ];
    assert(text::labels(names@) =~= dejavu());
    let base = texts_of(&names);
    match script {
        Script::Broad | Script::MiddleEast => {
            let mut out = base;
            append(&mut out, find_font(files, "arabic"));
            out
        },
        Script::Indic => {
            let mut out = find_font(files, "devanagari");
            append(&mut out, base);
            out
        },
        Script::SouthEastAsian => {
            let mut out = find_font(files, "thai");
            append(&mut out, base);
            out
        },
        Script::Han | Script::Kana | Script::Hangul => {
            let mut out = find_font(files, "cjk");
            append(&mut out, find_font(files, "zenhei"));
            append(&mut out, base);
            out
        },
    }
}

/// What there is to know of a machine's fonts without opening one.
pub struct FontPlaces {
    pub platform: Platform,
    /// Where Windows keeps its fonts.
    pub windows: FilePath,
    /// The files in the [`usual_dirs`] of the other systems.
    pub files: Vec<FilePath>,
}

/// Font files worth trying for `script`, best first; of a collection, the
/// first face.
///
/// These are literal paths rather than a fontconfig query or a platform font
/// API. `fc-match` would be more thorough on Linux and would also mean
/// spawning a process from inside a frame; the platform APIs would mean a
/// dependency and a code path per operating system. This covers the standard
/// install of every desktop that ships these fonts, and where it comes up
/// empty the result is "names appear as boxes, and voxview says so", not a
/// failure to start.
pub fn candidates(script: Script, places: &FontPlaces) -> (r: Vec<FilePath>)
    ensures
        match places.platform {
            Platform::Windows => paths::views(r@) == within(places.windows@, windows_fonts(script)),
            Platform::MacOs => paths::views(r@) == all_rooted(macos_fonts(script)),
            Platform::Unix => are_unix_fonts(paths::views(r@), script, paths::views(places.files@)),
        },
{
    match places.platform {
        Platform::Windows => windows_candidates(script, &places.windows),
        Platform::MacOs => macos_candidates(script),
        Platform::Unix => unix_candidates(script, &places.files),
    }
}

/// Every script has somewhere to look on every system, and what there is to
/// look at is an absolute path wherever the fonts' directory is one.
pub proof fn lemma_every_script_has_somewhere_to_look(
    script: Script,
    places: FontPlaces,
    r: Seq<PathView>,
)
    requires
        places.windows@.anchor.len() > 0,
        forall|i: int|
            0 <= i < places.files@.len() ==> (#[trigger] places.files@[i])@.anchor.len() > 0,
        match places.platform {
            Platform::Windows => r == within(places.windows@, windows_fonts(script)),
            Platform::MacOs => r == all_rooted(macos_fonts(script)),
            Platform::Unix => are_unix_fonts(r, script, paths::views(places.files@)),
        },
    ensures
        r.len() > 0,
        forall|i: int| 0 <= i < r.len() ==> (#[trigger] r[i]).anchor.len() > 0,
{
    if places.platform == Platform::Unix {
        let files = paths::views(places.files@);
        let base = all_rooted(dejavu());
        assert forall|needle: Seq<char>, a: Seq<PathView>, i: int|
            #[trigger] are_fonts(a, files, needle) && 0 <= i < a.len() implies (
        #[trigger] a[i]).anchor.len() > 0 by {
            assert(a.contains(a[i]));
            let j = choose|j: int| 0 <= j < files.len() && files[j] == a[i];
            assert(places.files@[j]@.anchor.len() > 0);
        }
        assert(base.len() == 5);
        match script {
            Script::Broad | Script::MiddleEast => {
                let a = choose|a: Seq<PathView>| #[trigger]
                    are_fonts(a, files, "arabic"@) && r == base + a;
                assert forall|i: int| 0 <= i < r.len() implies (#[trigger] r[i]).anchor.len() > 0 by {
                    if i >= base.len() {
                        assert(r[i] == a[i - base.len()]);
                    }
                }
            },
            Script::Indic => {
                let a = choose|a: Seq<PathView>| #[trigger]
                    are_fonts(a, files, "devanagari"@) && r == a + base;
                lemma_anchored(a, base, r);
            },
            Script::SouthEastAsian => {
                let a = choose|a: Seq<PathView>| #[trigger]
                    are_fonts(a, files, "thai"@) && r == a + base;
                lemma_anchored(a, base, r);
            },
            Script::Han | Script::Kana | Script::Hangul => {
                let (a, b) = choose|a: Seq<PathView>, b: Seq<PathView>| #[trigger]
                    are_fonts(a, files, "cjk"@) && #[trigger] are_fonts(b, files, "zenhei"@) && r
                        == a + b + base;
                lemma_anchored(a, b, a + b);
                lemma_anchored(a + b, base, r);
            },
        }
    }
}

proof fn lemma_anchored(a: Seq<PathView>, b: Seq<PathView>, r: Seq<PathView>)
    requires
        r == a + b,
        forall|i: int| 0 <= i < a.len() ==> (#[trigger] a[i]).anchor.len() > 0,
        forall|i: int| 0 <= i < b.len() ==> (#[trigger] b[i]).anchor.len() > 0,
    ensures
        forall|i: int| 0 <= i < r.len() ==> (#[trigger] r[i]).anchor.len() > 0,
{
    assert forall|i: int| 0 <= i < r.len() implies (#[trigger] r[i]).anchor.len() > 0 by {
        if i < a.len() {
            assert(r[i] == a[i]);
        } else {
            assert(r[i] == b[i - a.len()]);
        }
    }
}

// ---- loading ----------------------------------------------------------------
/// What to do about one candidate.
#[derive(Clone, Copy, Debug, PartialEq, Eq, Structural)]
pub enum Verdict {
    /// The file is loaded already: the script needs nothing further.
    Covered,
    /// Not this one; try the next.
    Skip,
    /// Read it.
    Read,
}

/// The fonts loaded so far, and what they have cost.
pub struct Fallbacks {
    pub opened: Vec<FilePath>,
    pub spent: u64,
}

impl Fallbacks {
    pub open spec fn has_opened(self, path: PathView) -> bool {
        paths::views(self.opened@).contains(path)
    }

    pub fn new() -> (r: Fallbacks)
        ensures
            r.opened@.len() == 0,
            r.spent == 0,
    {
        Fallbacks { opened: Vec::new(), spent: 0 }
    }

    /// Whether there is room for another font.
    pub fn has_room(&self) -> (r: bool)
        ensures
            r == (self.opened@.len() < MAX_FONTS),
            r == (self.opened@.len() < 6),
    {
        self.opened.len() < MAX_FONTS
    }

    /// Whether a file is loaded already. One file often answers for several
    /// scripts -- Segoe UI covers Arabic, Hebrew and Thai between them -- so a
    /// script whose font is loaded needs nothing further.
    pub fn covers(&self, path: &FilePath) -> (r: bool)
        ensures
            r == self.has_opened(path@),
    {
        let mut i: usize = 0;
        while i < self.opened.len()
            invariant
                i <= self.opened@.len(),
                forall|k: int| 0 <= k < i ==> (#[trigger] self.opened@[k])@ != path@,
            decreases self.opened@.len() - i,
        {
            if self.opened[i].same(path) {
                assert(paths::views(self.opened@)[i as int] == path@);
                return true;
            }
            i += 1;
        }
        proof {
            if self.has_opened(path@) {
                let k = choose|k: int|
                    0 <= k < self.opened@.len() && paths::views(self.opened@)[k] == path@;
                assert(self.opened@[k]@ != path@);
            }
        }
        false
    }

    /// What to do about a candidate: `len` is the size of the file, or none
    /// where there is no file.
    pub fn consider(&self, path: &FilePath, len: Option<u64>) -> (r: Verdict)
        ensures
            r is Read ==> (len matches Some(n) && n > 0 && self.spent + n <= 64 * 1024 * 1024),
            r is Skip ==> (len matches Some(n) ==> n == 0 || self.spent + n > 64 * 1024 * 1024),
            r == (if self.has_opened(path@) {
                Verdict::Covered
            } else {
                match len {
                    Some(n) => if n > 0 && self.spent + n <= MAX_BYTES {
                        Verdict::Read
                    } else {
                        Verdict::Skip
                    },
                    None => Verdict::Skip,
                }
            }),
    {
        if self.covers(path) {
            return Verdict::Covered;
        }
        match len {
            Some(n) => if n > 0 && n <= MAX_BYTES && self.spent <= MAX_BYTES - n {
                Verdict::Read
            } else {
                Verdict::Skip
            },
            None => Verdict::Skip,
        }
    }

    /// Count a font that was read.
    pub fn loaded(&mut self, path: FilePath, len: u64)
        requires
            old(self).spent + len <= u64::MAX,
        ensures
            final(self).spent == old(self).spent + len,
            paths::views(final(self).opened@) == paths::views(old(self).opened@).push(path@),
    {
        let ghost was = self.opened@;
        self.opened.push(path);
        self.spent += len;
        assert(paths::views(self.opened@) =~= paths::views(was).push(path@));
    }
}

// ---- which letters need which font ------------------------------------------
/// What the toolkit draws itself needs no font of the system: Latin, Greek and
/// Cyrillic, the marks and signs that go with them, and emoji.
pub proof fn lemma_what_needs_no_font(u: u32)
    ensures
        script_for(u) is None <==> u < 0x300 || 0x370 <= u < 0x500 || 0x1E00 <= u < 0x1F00
            || 0x2000 <= u < 0x2300 || 0x1F300 <= u < 0x1FB00,
{
}

/// Each other script has its own blocks of characters, and what is in none of
/// them asks for the font with the most.
pub proof fn lemma_scripts_have_their_blocks(u: u32)
    ensures
        script_for(u) == Some(Script::MiddleEast) <==> 0x590 <= u < 0x900 || 0xFB1D <= u < 0xFE00
            || 0xFE70 <= u < 0xFF00,
        script_for(u) == Some(Script::Indic) <==> 0x900 <= u < 0xE00,
        script_for(u) == Some(Script::SouthEastAsian) <==> 0xE00 <= u < 0x10A0 || 0x1780 <= u
            < 0x1800,
        script_for(u) == Some(Script::Kana) <==> 0x3040 <= u < 0x3100 || 0x31F0 <= u < 0x3200
            || 0xFF66 <= u < 0xFFA0,
        script_for(u) == Some(Script::Hangul) <==> 0x1100 <= u < 0x1200 || 0x3130 <= u < 0x3190
            || 0xA960 <= u < 0xA980 || 0xAC00 <= u < 0xD800,
        script_for(u) == Some(Script::Han) <==> 0x2E80 <= u < 0x3040 || 0x3200 <= u < 0xA000
            || 0xF900 <= u < 0xFB00 || 0x20000 <= u < 0x40000,
{
}

/// A list of scripts holds each that is in the set, and once.
pub proof fn lemma_a_set_is_listed_whole(set: Scripts, s: Script)
    ensures
        set.listed(7).contains(s) <==> set.has(s),
        set.listed(7).no_duplicates(),
{
    lemma_listed(set, 7);
    let every = Script::every();
    if set.has(s) {
        assert(every[0] == Script::Broad && every[1] == Script::MiddleEast && every[2]
            == Script::Indic && every[3] == Script::SouthEastAsian && every[4] == Script::Han
            && every[5] == Script::Kana && every[6] == Script::Hangul);
        let k = match s {
            Script::Broad => 0int,
            Script::MiddleEast => 1,
            Script::Indic => 2,
            Script::SouthEastAsian => 3,
            Script::Han => 4,
            Script::Kana => 5,
            Script::Hangul => 6,
        };
        assert(every[k] == s);
        assert(set.listed(7).contains(every[k]));
    }
    if set.listed(7).contains(s) {
        let j = choose|j: int| 0 <= j < set.listed(7).len() && set.listed(7)[j] == s;
        assert(set.has(set.listed(7)[j]));
    }
}

proof fn lemma_listed(set: Scripts, n: int)
    requires
        0 <= n <= 7,
    ensures
        forall|k: int| 0 <= k < n && set.has(#[trigger] Script::every()[k]) ==> set.listed(
            n,
        ).contains(Script::every()[k]),
        forall|j: int|
            0 <= j < set.listed(n).len() ==> set.has(#[trigger] set.listed(n)[j])
                && exists|k: int| 0 <= k < n && #[trigger] Script::every()[k] == set.listed(n)[j],
        set.listed(n).no_duplicates(),
    decreases n,
{
    if n > 0 {
        lemma_listed(set, n - 1);
        let (before, now) = (set.listed(n - 1), set.listed(n));
        let here = Script::every()[n - 1];
        assert forall|k: int| 0 <= k < n && set.has(#[trigger] Script::every()[k]) implies now.contains(
            Script::every()[k],
        ) by {
            if k < n - 1 {
                assert(before.contains(Script::every()[k]));
                let j = choose|j: int| 0 <= j < before.len() && before[j] == Script::every()[k];
                assert(now[j] == before[j]);
            } else {
                assert(now[now.len() - 1] == here);
            }
        }
        assert forall|j: int| 0 <= j < now.len() implies set.has(#[trigger] now[j])
            && exists|k: int| 0 <= k < n && #[trigger] Script::every()[k] == now[j] by {
            if j < before.len() {
                assert(now[j] == before[j]);
                assert(set.has(before[j]));
                let k = choose|k: int| 0 <= k < n - 1 && #[trigger] Script::every()[k] == before[j];
                assert(Script::every()[k] == now[j]);
            } else {
                assert(Script::every()[n - 1] == now[j]);
            }
        }
        if set.has(here) {
            assert forall|i: int, j: int| 0 <= i < j < now.len() implies now[i] != now[j] by {
                assert(now[i] == before[i]);
                if j < before.len() {
                    assert(now[j] == before[j]);
                } else {
                    let k = choose|k: int|
                        0 <= k < n - 1 && #[trigger] Script::every()[k] == before[i];
                    assert(Script::every()[k] != Script::every()[n - 1]);
                }
            }
        }
    }
}

/// A file is a font for a script where its name ends as fonts end, says that it
/// is the regular cut, and holds the word looked for, whatever the case.
pub proof fn lemma_what_counts_as_a_font(name: Seq<char>, needle: Seq<char>)
    ensures
        is_font(name, needle) ==> name.len() >= 4,
        is_font(name, needle) ==> crate::menu::lowered(name).last() == 'c' || crate::menu::lowered(
            name,
        ).last() == 'f',
        is_font(name, needle) ==> text::holds(crate::menu::lowered(name), needle),
        is_font(name, needle) ==> text::holds(crate::menu::lowered(name), "regular"@)
            || text::holds(crate::menu::lowered(name), "zenhei"@),
        text::holds(crate::menu::lowered(name), needle) && text::holds(
            crate::menu::lowered(name),
            "regular"@,
        ) && name.len() >= 4 && (crate::menu::lowered(name).subrange(
            name.len() - 4,
            name.len() as int,
        ) == seq!['.', 't', 't', 'f'] || crate::menu::lowered(name).subrange(
            name.len() - 4,
            name.len() as int,
        ) == seq!['.', 'o', 't', 'f'] || crate::menu::lowered(name).subrange(
            name.len() - 4,
            name.len() as int,
        ) == seq!['.', 't', 't', 'c']) ==> is_font(name, needle),
{
    reveal_strlit(".ttc");
    reveal_strlit(".otf");
    reveal_strlit(".ttf");
    assert(".ttc"@ =~= seq!['.', 't', 't', 'c']);
    assert(".otf"@ =~= seq!['.', 'o', 't', 'f']);
    assert(".ttf"@ =~= seq!['.', 't', 't', 'f']);
    let s = crate::menu::lowered(name);
    let n = name.len() as int;
    if is_font(name, needle) {
        let tail = s.subrange(n - 4, n);
        assert(tail[3] == s.last());
    }
}

} // verus!
