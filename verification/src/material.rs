//! MagicaVoxel's `MATL` chunks, and which palette entry each one speaks of.
//!
//! A `.vox` file carries up to 256 materials, one per palette entry, and a
//! voxel's material is decided entirely by its colour. That is a gift for a
//! renderer that already keeps colour as a palette index: the material table
//! is a second 256-entry uniform indexed by the same number, so a model with
//! glowing windows still meshes and draws exactly like one without.
//!
//! MagicaVoxel is a path tracer and this is not, so most of what a material
//! records cannot be honoured. What survives is the part that changes the
//! silhouette of a model in a preview: what glows, what is shiny, and what you
//! can see through. The values themselves are real numbers, and are read
//! where they are used.

use vstd::prelude::*;

use crate::mesh;
use crate::scene;
use crate::text;
use crate::voxfile::MaterialSource;

verus! {

/// Whether one of the first `n` materials has the id 0.
pub open spec fn has_zero(materials: Seq<MaterialSource>, n: int) -> bool {
    exists|i: int| 0 <= i < n && (#[trigger] materials[i]).id == 0
}

/// Whether one of the first `n` materials has an id beyond the palette.
pub open spec fn has_past(materials: Seq<MaterialSource>, n: int) -> bool {
    exists|i: int| 0 <= i < n && (#[trigger] materials[i]).id >= 256
}

/// Whether a file numbers its materials from zero.
pub open spec fn from_zero(materials: Seq<MaterialSource>) -> bool {
    has_zero(materials, materials.len() as int) && !has_past(materials, materials.len() as int)
}

/// Which end of the range the file numbers materials from.
///
/// MagicaVoxel numbers them from 1, matching the palette indices as they
/// appear in the file -- so a full table runs 1 to 256, and the parser, which
/// subtracts one from *voxel* indices but leaves material ids alone, hands
/// them over one too high. Not every writer agrees, so the file is asked:
/// an id of 0 can only come from one that numbered from zero, and an id of
/// 256 only from one that numbered from one. A file that says neither gets
/// MagicaVoxel's own convention.
pub fn zero_based(materials: &Vec<MaterialSource>) -> (r: bool)
    ensures
        r == from_zero(materials@),
{
    let mut zero = false;
    let mut past = false;
    let mut i: usize = 0;
    while i < materials.len()
        invariant
            i <= materials@.len(),
            zero == has_zero(materials@, i as int),
            past == has_past(materials@, i as int),
        decreases materials@.len() - i,
    {
        let id: u32 = materials[i].id;
        let ghost (a, b) = (zero, past);
        if id == 0 {
            zero = true;
        }
        if id >= 256 {
            past = true;
        }
        proof {
            let n = i as int;
            assert(materials@[n].id == id);
            if has_zero(materials@, n) {
                let k = choose|k: int| 0 <= k < n && (#[trigger] materials@[k]).id == 0;
                assert(materials@[k].id == 0);
            }
            if has_past(materials@, n) {
                let k = choose|k: int| 0 <= k < n && (#[trigger] materials@[k]).id >= 256;
                assert(materials@[k].id >= 256);
            }
        }
        i += 1;
    }
    zero && !past
}

/// The palette entry that a material speaks of, if there is such an entry.
pub open spec fn slot_for(id: u32, zero_based: bool) -> Option<int> {
    let index = if zero_based {
        id as int
    } else {
        id - 1
    };
    if 0 <= index < 256 {
        Some(index)
    } else {
        None
    }
}

/// The palette entry that a material speaks of, if there is such an entry: an
/// id beyond the palette is dropped rather than wrapped.
pub fn slot_of(id: u32, zero_based: bool) -> (r: Option<u8>)
    ensures
        match r {
            Some(i) => slot_for(id, zero_based) == Some(i as int),
            None => slot_for(id, zero_based) is None,
        },
{
    let shift: u32 = if zero_based {
        0
    } else {
        1
    };
    if id < shift || id - shift >= 256 {
        None
    } else {
        Some((id - shift) as u8)
    }
}

/// The last of the first `n` materials that speaks of a palette entry.
pub open spec fn governs(
    materials: Seq<MaterialSource>,
    zero_based: bool,
    index: int,
    n: int,
) -> Option<int>
    decreases n,
{
    if n <= 0 {
        None
    } else if slot_for(materials[n - 1].id, zero_based) == Some(index) {
        Some(n - 1)
    } else {
        governs(materials, zero_based, index, n - 1)
    }
}

/// Which material governs each palette entry, or none for a plain surface.
pub fn assign(materials: &Vec<MaterialSource>) -> (r: Vec<Option<usize>>)
    ensures
        r@.len() == 256,
        forall|i: int|
            0 <= i < 256 ==> match #[trigger] r@[i] {
                Some(m) => governs(
                    materials@,
                    from_zero(materials@),
                    i,
                    materials@.len() as int,
                ) == Some(m as int),
                None => governs(
                    materials@,
                    from_zero(materials@),
                    i,
                    materials@.len() as int,
                ) is None,
            },
{
    let zero = zero_based(materials);
    let mut table: Vec<Option<usize>> = Vec::new();
    let mut k: usize = 0;
    while k < 256
        invariant
            k <= 256,
            table@.len() == k,
            forall|i: int| 0 <= i < k ==> (#[trigger] table@[i]) is None,
        decreases 256 - k,
    {
        table.push(None);
        k += 1;
    }
    let mut n: usize = 0;
    while n < materials.len()
        invariant
            n <= materials@.len(),
            table@.len() == 256,
            forall|i: int|
                0 <= i < 256 ==> match #[trigger] table@[i] {
                    Some(m) => governs(materials@, zero, i, n as int) == Some(m as int),
                    None => governs(materials@, zero, i, n as int) is None,
                },
        decreases materials@.len() - n,
    {
        if let Some(slot) = slot_of(materials[n].id, zero) {
            table.set(slot as usize, Some(n));
        }
        n += 1;
    }
    table
}

/// Which of a material's properties its type uses.
#[derive(Clone, Copy, Debug, PartialEq, Eq, Structural)]
pub struct Uses {
    pub emission: bool,
    pub metalness: bool,
    pub roughness: bool,
    pub transparency: bool,
}

/// Which properties a type uses; a material without one is diffuse.
pub open spec fn used_by(kind: Option<Seq<char>>) -> Uses {
    let is = |s: Seq<char>| kind == Some(s);
    Uses {
        emission: is("_emit"@),
        metalness: is("_metal"@),
        roughness: is("_metal"@) || is("_glass"@) || is("_emit"@),
        transparency: is("_glass"@) || is("_media"@),
    }
}

/// Which properties a material's type actually uses.
///
/// MagicaVoxel leaves the values of inactive sliders in the dictionary, so an
/// `_emit` material in a real file will happily carry a `_metal` of 0.77 that
/// its own renderer ignores. Taking every key at face value makes emissive
/// surfaces shiny and glass metallic.
pub fn uses(m: &MaterialSource) -> (r: Uses)
    ensures
        r == used_by(scene::opt_text(m.kind)),
{
    match &m.kind {
        None => Uses {
            emission: false,
            metalness: false,
            roughness: false,
            transparency: false,
        },
        Some(kind) => {
            let k = text::chars_of(kind.as_str());
            let emit = text::is_text(&k, "_emit");
            let metal = text::is_text(&k, "_metal");
            let glass = text::is_text(&k, "_glass");
            let media = text::is_text(&k, "_media");
            Uses {
                emission: emit,
                metalness: metal,
                roughness: metal || glass || emit,
                transparency: glass || media,
            }
        },
    }
}

/// What a table of marks is as words of 64 bits.
pub open spec fn masks(mask: Seq<u64>, flags: Seq<bool>) -> bool {
    forall|i: u8| #[trigger] mesh::marked(mask, i) == flags[i as int]
}

proof fn lemma_set_bit(word: u64, at: u64, other: u64)
    requires
        at < 64,
        other < 64,
    ensures
        ((word | (1u64 << at)) >> other) & 1 == (if at == other {
            1u64
        } else {
            (word >> other) & 1
        }),
{
    assert(((word | (1u64 << at)) >> other) & 1 == (if at == other {
        1u64
    } else {
        (word >> other) & 1
    })) by (bit_vector)
        requires
            at < 64,
            other < 64,
    ;
}

/// A 256-bit mask of the palette entries that are marked, as four words. The
/// mesher takes this rather than the whole table, because which pass a face
/// belongs in is all it needs to know.
pub fn mask_of(flags: &[bool; 256]) -> (r: [u64; 4])
    ensures
        masks(r@, flags@),
{
    let mut mask: [u64; 4] = [0u64; 4];
    let mut i: usize = 0;
    proof {
        assert forall|k: u8| !#[trigger] mesh::marked(mask@, k) by {
            let s = (k % 64) as u64;
            assert(mask@[k as int / 64] == 0);
            assert((0u64 >> s) & 1 == 0) by (bit_vector);
        }
    }
    while i < 256
        invariant
            i <= 256,
            forall|k: u8| #[trigger] mesh::marked(mask@, k) == (k < i && flags@[k as int]),
        decreases 256 - i,
    {
        if flags[i] {
            let ghost before = mask@;
            let at: u64 = (i % 64) as u64;
            let word: usize = i / 64;
            mask[word] = mask[word] | (1u64 << at);
            proof {
                assert forall|k: u8| #[trigger] mesh::marked(mask@, k) == (k < i + 1
                    && flags@[k as int]) by {
                    assert(mesh::marked(before, k) == (k < i && flags@[k as int]));
                    let s = (k % 64) as u64;
                    if k as int / 64 == word {
                        lemma_set_bit(before[word as int], at, s);
                    }
                }
            }
        }
        i += 1;
    }
    mask
}

/// How many of the first `n` palette entries are marked.
pub open spec fn tally(flags: Seq<bool>, n: int) -> int
    decreases n,
{
    if n <= 0 {
        0
    } else {
        tally(flags, n - 1) + if flags[n - 1] {
            1int
        } else {
            0int
        }
    }
}

/// How many palette entries are marked.
pub fn count_of(flags: &[bool; 256]) -> (r: usize)
    ensures
        r == tally(flags@, 256),
{
    let mut n: usize = 0;
    let mut i: usize = 0;
    while i < 256
        invariant
            n <= i <= 256,
            n == tally(flags@, i as int),
        decreases 256 - i,
    {
        if flags[i] {
            n += 1;
        }
        i += 1;
    }
    n
}

/// A number and a word, where the number is not zero.
pub open spec fn counted_word(n: usize, word: Seq<char>) -> Seq<Seq<char>> {
    if n > 0 {
        seq![text::decimal(n as nat) + seq![' '] + word]
    } else {
        Seq::empty()
    }
}

/// Texts with a comma between them.
pub open spec fn listed(parts: Seq<Seq<char>>) -> Seq<char>
    decreases parts.len(),
{
    if parts.len() == 0 {
        Seq::empty()
    } else if parts.len() == 1 {
        parts[0]
    } else {
        listed(parts.drop_last()) + seq![',', ' '] + parts.last()
    }
}

/// What is said of a file's materials: those of each sort that there are.
pub open spec fn description(emissive: usize, metal: usize, transparent: usize) -> Seq<char> {
    let parts = counted_word(emissive, "emissive"@) + counted_word(metal, "metal"@) + counted_word(
        transparent,
        "transparent"@,
    );
    if parts.len() == 0 {
        Seq::empty()
    } else {
        seq![' ', ' ', '('] + listed(parts) + seq![')']
    }
}

fn push_part(
    out: &mut String,
    n: usize,
    word: &str,
    any: bool,
    Ghost(before): Ghost<Seq<Seq<char>>>,
) -> (r: bool)
    requires
        any == (before.len() > 0),
        old(out)@ == seq![' ', ' ', '('] + listed(before),
    ensures
        r == ((before + counted_word(n, word@)).len() > 0),
        final(out)@ == seq![' ', ' ', '('] + listed(before + counted_word(n, word@)),
{
    if n == 0 {
        assert(before + counted_word(n, word@) =~= before);
        return any;
    }
    let ghost part = text::decimal(n as nat) + seq![' '] + word@;
    let ghost all = before + counted_word(n, word@);
    assert(all =~= before.push(part));
    assert(all.drop_last() =~= before);
    if any {
        out.push(',');
        out.push(' ');
    }
    text::push_decimal(out, n as u64);
    out.push(' ');
    text::push_str(out, word);
    proof {
        if any {
            assert(listed(all) == listed(before) + seq![',', ' '] + part);
        } else {
            assert(before =~= Seq::empty());
        }
        assert(out@ =~= seq![' ', ' ', '('] + listed(all));
    }
    true
}

/// The part of a material table worth putting in one line: not how many `MATL`
/// chunks a file has -- MagicaVoxel writes 256 whether they say anything or
/// not -- but how many of them the renderer will act on.
pub fn describe_materials(emissive: usize, metal: usize, transparent: usize) -> (r: String)
    ensures
        r@ == description(emissive, metal, transparent),
{
    let mut s = String::new();
    s.push(' ');
    s.push(' ');
    s.push('(');
    let ghost a = counted_word(emissive, "emissive"@);
    let ghost b = counted_word(metal, "metal"@);
    let ghost c = counted_word(transparent, "transparent"@);
    assert(s@ =~= seq![' ', ' ', '('] + listed(Seq::empty()));
    let any = push_part(&mut s, emissive, "emissive", false, Ghost(Seq::empty()));
    assert(Seq::empty() + a =~= a);
    let any = push_part(&mut s, metal, "metal", any, Ghost(a));
    let any = push_part(&mut s, transparent, "transparent", any, Ghost(a + b));
    if !any {
        let none = String::new();
        assert(none@ =~= Seq::empty());
        return none;
    }
    s.push(')');
    assert(s@ =~= description(emissive, metal, transparent));
    s
}

/// A material that numbers from one lights up the entry one below its id; one
/// that numbers from zero is taken at its word; and no id reaches beyond the
/// palette.
pub proof fn lemma_ids_name_palette_entries(id: u32)
    ensures
        1 <= id <= 256 ==> slot_for(id, false) == Some(id - 1),
        id < 256 ==> slot_for(id, true) == Some(id as int),
        id > 256 ==> slot_for(id, false) is None && slot_for(id, true) is None,
        slot_for(0, false) is None,
{
}

/// A palette entry is governed by the last material whose id names it. Ids name
/// entries one below them, unless the file has an id of 0 and none above 255.
pub proof fn lemma_the_last_material_governs(materials: Seq<MaterialSource>, index: int)
    requires
        0 <= index < 256,
    ensures
        ({
            let n = materials.len() as int;
            let base: int = if (exists|i: int| 0 <= i < n && (#[trigger] materials[i]).id == 0)
                && forall|i: int| 0 <= i < n ==> (#[trigger] materials[i]).id < 256 {
                0
            } else {
                1
            };
            match governs(materials, from_zero(materials), index, n) {
                Some(m) => 0 <= m < n && materials[m].id == index + base && forall|k: int|
                    m < k < n ==> (#[trigger] materials[k]).id != index + base,
                None => forall|k: int| 0 <= k < n ==> (#[trigger] materials[k]).id != index + base,
            }
        }),
{
    let n = materials.len() as int;
    if exists|i: int| 0 <= i < n && (#[trigger] materials[i]).id == 0 {
        let i = choose|i: int| 0 <= i < n && (#[trigger] materials[i]).id == 0;
        assert(has_zero(materials, n));
    }
    if !(forall|i: int| 0 <= i < n ==> (#[trigger] materials[i]).id < 256) {
        let i = choose|i: int| 0 <= i < n && !((#[trigger] materials[i]).id < 256);
        assert(materials[i].id >= 256);
    }
    lemma_governs(materials, from_zero(materials), index, n);
}

proof fn lemma_governs(materials: Seq<MaterialSource>, zero_based: bool, index: int, n: int)
    requires
        0 <= index < 256,
        0 <= n <= materials.len(),
    ensures
        match governs(materials, zero_based, index, n) {
            Some(m) => 0 <= m < n && slot_for(materials[m].id, zero_based) == Some(index) && forall|
                k: int,
            |
                m < k < n ==> slot_for((#[trigger] materials[k]).id, zero_based) != Some(index),
            None => forall|k: int|
                0 <= k < n ==> slot_for((#[trigger] materials[k]).id, zero_based) != Some(index),
        },
    decreases n,
{
    if n > 0 {
        lemma_governs(materials, zero_based, index, n - 1);
    }
}

/// What a material of each type shows: only an emissive one glows, only a
/// metallic one is metal, glass and media let light through, and everything but
/// diffuse and media surfaces can be rough.
pub proof fn lemma_what_each_type_uses(kind: Option<Seq<char>>)
    ensures
        used_by(kind).emission <==> kind == Some("_emit"@),
        used_by(kind).metalness <==> kind == Some("_metal"@),
        used_by(kind).transparency <==> (kind == Some("_glass"@) || kind == Some("_media"@)),
        used_by(kind).roughness <==> (kind == Some("_metal"@) || kind == Some("_glass"@) || kind
            == Some("_emit"@)),
        kind is None || kind == Some("_diffuse"@) ==> !used_by(kind).emission && !used_by(
            kind,
        ).metalness && !used_by(kind).transparency && !used_by(kind).roughness,
{
    reveal_strlit("_diffuse");
    reveal_strlit("_emit");
    reveal_strlit("_metal");
    reveal_strlit("_glass");
    reveal_strlit("_media");
    assert("_diffuse"@.len() == 8);
}

/// A count of marks counts the entries that are marked.
pub proof fn lemma_a_tally_counts_marks(flags: Seq<bool>, n: int)
    requires
        0 <= n <= flags.len(),
    ensures
        tally(flags, n) == flags.subrange(0, n).filter(|b: bool| b).len(),
    decreases n,
{
    reveal(Seq::filter);
    if n > 0 {
        lemma_a_tally_counts_marks(flags, n - 1);
        assert(flags.subrange(0, n).drop_last() =~= flags.subrange(0, n - 1));
    }
}

/// What is said of a file's materials names each sort that there is, with its
/// number, and says nothing where there is none.
pub proof fn lemma_each_sort_of_material_is_named(a: usize, b: usize, c: usize)
    requires
        a > 0,
        b > 0,
        c > 0,
    ensures
        ({
            let (from, to) = (seq![' ', ' ', '('], seq![')']);
            let e = text::decimal(a as nat) + seq![' '] + "emissive"@;
            let m = text::decimal(b as nat) + seq![' '] + "metal"@;
            let t = text::decimal(c as nat) + seq![' '] + "transparent"@;
            let comma = seq![',', ' '];
            &&& description(0, 0, 0).len() == 0
            &&& description(a, 0, 0) == from + e + to
            &&& description(0, b, 0) == from + m + to
            &&& description(0, 0, c) == from + t + to
            &&& description(a, b, c) == from + (e + comma + m + comma + t) + to
        }),
{
    let e = seq![text::decimal(a as nat) + seq![' '] + "emissive"@];
    let m = seq![text::decimal(b as nat) + seq![' '] + "metal"@];
    let t = seq![text::decimal(c as nat) + seq![' '] + "transparent"@];
    let none = Seq::<Seq<char>>::empty();
    assert(none + none + none =~= none);
    assert(e + none + none =~= e);
    assert(none + m + none =~= m);
    assert(none + none + t =~= t);
    let all = e + m + t;
    let two = e + m;
    assert(all.drop_last() =~= two);
    assert(two.drop_last() =~= e);
    assert(all.last() == t[0] && two.last() == m[0]);
    assert(listed(e) == e[0]);
    assert(listed(two) == e[0] + seq![',', ' '] + m[0]);
    assert(listed(all) == listed(two) + seq![',', ' '] + t[0]);
}

/// The mark of a palette entry is one bit of the four words, counted up from
/// the lowest of the first.
pub proof fn lemma_marks_are_counted_from_the_lowest(blended: Seq<u64>, index: u8)
    ensures
        mesh::marked(blended, index) <==> (blended[index as int / 64] as nat / vstd::arithmetic::power2::pow2(
            (index % 64) as nat,
        )) % 2 == 1,
{
    let (w, s) = (blended[index as int / 64], (index % 64) as u64);
    vstd::bits::lemma_u64_shr_is_div(w, s);
    let r = w >> s;
    assert(r & 1 == r % 2) by (bit_vector);
}

} // verus!
