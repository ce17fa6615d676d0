//! The summary that `--stats` prints.

use vstd::prelude::*;

use crate::loader;
use crate::loader::{Bounds, Corner, VoxScene};
use crate::material;
use crate::model;
use crate::model::VoxelGrid;
use crate::paths::FilePath;
use crate::text;

verus! {

/// A corner of a box, as a list of numbers.
pub open spec fn corner_text(c: Corner) -> Seq<char> {
    "["@ + text::signed(c.x as int) + ".0, "@ + text::signed(c.y as int) + ".0, "@ + text::signed(
        c.z as int,
    ) + ".0]"@
}

/// The box of a scene; one cell about the origin where nothing is shown.
pub open spec fn box_text(b: Option<Bounds>) -> Seq<char> {
    match b {
        Some(b) => "min "@ + corner_text(b.min) + " max "@ + corner_text(b.max),
        None => "min [-0.5, -0.5, -0.5] max [0.5, 0.5, 0.5]"@,
    }
}

/// Three whole numbers with crosses between them.
pub open spec fn cross_text(x: int, y: int, z: int) -> Seq<char> {
    text::signed(x) + " x "@ + text::signed(y) + " x "@ + text::signed(z)
}

/// The sides of a scene.
pub open spec fn scene_sides(s: VoxScene) -> Seq<char> {
    match s.bounds {
        Some(b) => cross_text(
            loader::side(b.min.x, b.max.x),
            loader::side(b.min.y, b.max.y),
            loader::side(b.min.z, b.max.z),
        ),
        None => cross_text(1, 1, 1),
    }
}

/// A number with spaces after it up to three places.
pub open spec fn in_three(n: nat) -> Seq<char> {
    let digits = text::decimal(n);
    if digits.len() >= 3 {
        digits
    } else if digits.len() == 2 {
        digits + " "@
    } else {
        digits + "  "@
    }
}

/// What is said of one model.
pub open spec fn model_line(i: int, m: VoxelGrid) -> Seq<char> {
    let size = m@.size;
    "  model "@ + in_three(i as nat) + "     "@ + cross_text(
        size.x as int,
        size.y as int,
        size.z as int,
    ) + "  ("@ + text::decimal(model::count_some(m@.cells) as nat) + " voxels)"@
}

pub open spec fn model_lines(models: Seq<VoxelGrid>, n: int) -> Seq<Seq<char>>
    decreases n,
{
    if n <= 0 {
        Seq::empty()
    } else {
        model_lines(models, n - 1).push(model_line(n - 1, models[n - 1]))
    }
}

/// The summary of a scene.
pub open spec fn summary(
    path: Seq<char>,
    s: VoxScene,
    emissive: usize,
    metal: usize,
    transparent: usize,
) -> Seq<Seq<char>> {
    seq![
        path,
        "  version       "@ + text::decimal(s.version as nat),
        "  models        "@ + text::decimal(s.models@.len()),
        "  instances     "@ + text::decimal(s.instances@.len()),
        "  voxels        "@ + text::decimal(s.voxel_count as nat),
        "  dimensions    "@ + scene_sides(s),
        "  bounds        "@ + box_text(s.bounds),
        "  palette       "@ + (if s.palette.from_file {
            "from file"@
        } else {
            "MagicaVoxel default"@
        }),
        "  materials     "@ + text::decimal(s.material_count as nat) + material::description(
            emissive,
            metal,
            transparent,
        ),
    ] + model_lines(s.models@, s.models@.len() as int)
}

fn push_cross(out: &mut String, x: i64, y: i64, z: i64)
    requires
        x > i64::MIN,
        y > i64::MIN,
        z > i64::MIN,
    ensures
        final(out)@ == old(out)@ + cross_text(x as int, y as int, z as int),
{
    let ghost had = out@;
    text::push_signed(out, x);
    text::push_str(out, " x ");
    text::push_signed(out, y);
    text::push_str(out, " x ");
    text::push_signed(out, z);
    assert(out@ =~= had + cross_text(x as int, y as int, z as int));
}

/// Whether a corner's coordinates can be negated.
pub open spec fn writable(c: Corner) -> bool {
    c.x > i64::MIN && c.y > i64::MIN && c.z > i64::MIN
}

fn push_corner(out: &mut String, c: Corner)
    requires
        writable(c),
    ensures
        final(out)@ == old(out)@ + corner_text(c),
{
    let ghost had = out@;
    text::push_str(out, "[");
    text::push_signed(out, c.x);
    text::push_str(out, ".0, ");
    text::push_signed(out, c.y);
    text::push_str(out, ".0, ");
    text::push_signed(out, c.z);
    text::push_str(out, ".0]");
    assert(out@ =~= had + corner_text(c));
}

fn box_line(b: Option<Bounds>) -> (r: String)
    requires
        b matches Some(b) ==> writable(b.min) && writable(b.max),
    ensures
        r@ == "  bounds        "@ + box_text(b),
{
    let mut s = text::copied("  bounds        ");
    let ghost had = s@;
    match b {
        Some(b) => {
            text::push_str(&mut s, "min ");
            push_corner(&mut s, b.min);
            text::push_str(&mut s, " max ");
            push_corner(&mut s, b.max);
        },
        None => text::push_str(&mut s, "min [-0.5, -0.5, -0.5] max [0.5, 0.5, 0.5]"),
    }
    assert(s@ =~= had + box_text(b));
    s
}

fn push_in_three(out: &mut String, n: u64)
    ensures
        final(out)@ == old(out)@ + in_three(n as nat),
{
    let ghost had = out@;
    let digits = text::decimal_chars(n);
    text::push_chars(out, &digits);
    if digits.len() == 2 {
        text::push_str(out, " ");
    } else if digits.len() < 2 {
        text::push_str(out, "  ");
    }
    assert(out@ =~= had + in_three(n as nat));
}

fn model_text(i: usize, m: &VoxelGrid) -> (r: String)
    requires
        m.wf(),
    ensures
        r@ == model_line(i as int, *m),
{
    let size = m.size();
    let mut s = text::copied("  model ");
    push_in_three(&mut s, i as u64);
    text::push_str(&mut s, "     ");
    push_cross(&mut s, size.x as i64, size.y as i64, size.z as i64);
    text::push_str(&mut s, "  (");
    text::push_decimal(&mut s, m.voxel_count() as u64);
    text::push_str(&mut s, " voxels)");
    assert(s@ =~= model_line(i as int, *m));
    s
}

fn push_text(out: &mut Vec<String>, s: String)
    ensures
        text::texts(final(out)@) == text::texts(old(out)@).push(s@),
{
    let ghost had = out@;
    let ghost said = s@;
    out.push(s);
    assert(text::texts(out@) =~= text::texts(had).push(said));
}

/// A summary of a file, line by line. How many of its materials glow, shine or
/// let light through is worth a line: not how many chunks a file has, which
/// MagicaVoxel writes 256 of whether they say anything or not.
pub fn stats_lines(
    path: &FilePath,
    scene: &VoxScene,
    emissive: usize,
    metal: usize,
    transparent: usize,
) -> (r: Vec<String>)
    requires
        forall|i: int| 0 <= i < scene.models@.len() ==> (#[trigger] scene.models@[i]).wf(),
        scene.bounds matches Some(b) ==> writable(b.min) && writable(b.max),
    ensures
        text::texts(r@) == summary(path@.as_text(), *scene, emissive, metal, transparent),
{
    let mut out: Vec<String> = Vec::new();
    assert(text::texts(out@) =~= Seq::empty());
    push_text(&mut out, path.to_text());
    push_text(
        &mut out,
        text::cat("  version       ", text::number(scene.version as u64).as_str()),
    );
    push_text(
        &mut out,
        text::cat("  models        ", text::number(scene.models.len() as u64).as_str()),
    );
    push_text(
        &mut out,
        text::cat("  instances     ", text::number(scene.instances.len() as u64).as_str()),
    );
    push_text(
        &mut out,
        text::cat("  voxels        ", text::number(scene.voxel_count as u64).as_str()),
    );
    let dims = scene.dimensions();
    let mut s = text::copied("  dimensions    ");
    push_cross(&mut s, dims.x as i64, dims.y as i64, dims.z as i64);
    push_text(&mut out, s);
    push_text(&mut out, box_line(scene.bounds));
    push_text(
        &mut out,
        text::cat(
            "  palette       ",
            if scene.palette.from_file {
                "from file"
            } else {
                "MagicaVoxel default"
            },
        ),
    );
    push_text(
        &mut out,
        text::cat3(
            "  materials     ",
            text::number(scene.material_count as u64).as_str(),
            material::describe_materials(emissive, metal, transparent).as_str(),
        ),
    );
    let ghost head = text::texts(out@);
    let mut i: usize = 0;
    assert(head + model_lines(scene.models@, 0) =~= head);
    while i < scene.models.len()
        invariant
            i <= scene.models@.len(),
            forall|i: int| 0 <= i < scene.models@.len() ==> (#[trigger] scene.models@[i]).wf(),
            text::texts(out@) == head + model_lines(scene.models@, i as int),
        decreases scene.models@.len() - i,
    {
        push_text(&mut out, model_text(i, &scene.models[i]));
        i += 1;
        assert(text::texts(out@) =~= head + model_lines(scene.models@, i as int));
    }
    assert(text::texts(out@) =~= summary(path@.as_text(), *scene, emissive, metal, transparent));
    out
}

/// A number below a thousand takes three columns.
pub proof fn lemma_small_numbers_line_up(n: nat)
    ensures
        n < 1000 ==> in_three(n).len() == 3,
        in_three(n).subrange(0, text::decimal(n).len() as int) == text::decimal(n),
{
    reveal_strlit(" ");
    reveal_strlit("  ");
    if n < 1000 {
        reveal_with_fuel(text::pow10, 4);
        text::lemma_decimal_length(n, 3);
    }
    assert(in_three(n).subrange(0, text::decimal(n).len() as int) =~= text::decimal(n));
}

/// After what it says of the file, a report has one line for each model, in
/// their order.
pub proof fn lemma_each_model_has_a_line(
    path: Seq<char>,
    s: VoxScene,
    emissive: usize,
    metal: usize,
    transparent: usize,
    i: int,
)
    requires
        0 <= i < s.models@.len(),
    ensures
        ({
            let lines = summary(path, s, emissive, metal, transparent);
            &&& lines.len() == 9 + s.models@.len()
            &&& lines[0] == path
            &&& lines[9 + i] == model_line(i, s.models@[i])
        }),
{
    lemma_model_lines(s.models@, s.models@.len() as int, i);
}

proof fn lemma_model_lines(models: Seq<VoxelGrid>, n: int, i: int)
    requires
        0 <= i < n <= models.len(),
    ensures
        model_lines(models, n).len() == n,
        model_lines(models, n)[i] == model_line(i, models[i]),
    decreases n,
{
    if n > 1 {
        if i < n - 1 {
            lemma_model_lines(models, n - 1, i);
        } else {
            lemma_model_lines(models, n - 1, 0);
        }
    } else {
        assert(model_lines(models, 0).len() == 0);
    }
}

} // verus!
