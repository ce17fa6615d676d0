//! Reading a whole asset tree without making the window wait.
//!
//! The library needs two different things from disk, at two different speeds:
//! the *names*, which it must have before it can draw anything at all, and the
//! *stats* -- extent, voxels, triangles, palette -- which are worth a full parse per
//! file and cannot hold up the first frame. So the walk runs first and reports
//! in one message, then a small pool of workers parses the files it found and
//! reports each result as it lands. The UI drains whatever has arrived at the
//! top of each frame and redraws; a cold tree fills in under your eyes.

use vstd::prelude::*;

use crate::library::{AssetStats, Load, PALETTE_HEAD};
use crate::loader;
use crate::loader::VoxScene;
use crate::mesh;
use crate::model::VoxelGrid;
use crate::paths::FilePath;
use crate::scene::ModelInstance;
use crate::voxfile;

verus! {

/// Most workers to put on the parse; more than this is disk-bound anyway.
pub const MAX_WORKERS: usize = 4;

/// News from the scan thread.
pub enum Msg {
    /// The walk finished. Sent once, before any `Stats`.
    Found { files: Vec<FilePath>, skipped: Vec<(FilePath, String)>, truncated: bool },
    Stats { path: FilePath, load: Load },
    /// Every file has been parsed.
    Done,
}

/// How far a scan has got, and the news that nobody has taken in yet.
pub struct Scan {
    /// What the scan thread has sent since the last [`Scan::drain`], in order.
    pub waiting: Vec<Msg>,
    /// Set once the scan thread is gone.
    pub gone: bool,
    pub finished: bool,
}

/// Whether some news says that every file has been parsed.
pub open spec fn says_done(news: Seq<Msg>) -> bool {
    exists|i: int| 0 <= i < news.len() && (#[trigger] news[i]) is Done
}

impl Scan {
    pub fn new() -> (r: Scan)
        ensures
            r.waiting@.len() == 0,
            !r.gone,
            !r.finished,
    {
        Scan { waiting: Vec::new(), gone: false, finished: false }
    }

    /// Put news from the scan thread behind what is waiting.
    pub fn arrive(&mut self, msg: Msg)
        ensures
            final(self).waiting@ == old(self).waiting@.push(msg),
            *final(self) == (Scan { waiting: final(self).waiting, ..*old(self) }),
    {
        self.waiting.push(msg);
    }

    /// Note that the scan thread is gone: nothing more will ever arrive.
    pub fn hang_up(&mut self)
        ensures
            *final(self) == (Scan { gone: true, ..*old(self) }),
    {
        self.gone = true;
    }

    /// Everything that has arrived since the last call, in order.
    pub fn drain(&mut self) -> (r: Vec<Msg>)
        ensures
            r@ == old(self).waiting@,
            final(self).waiting@.len() == 0,
            final(self).finished == (old(self).finished || old(self).gone || says_done(
                old(self).waiting@,
            )),
            final(self).gone == old(self).gone,
    {
        if self.gone {
            self.finished = true;
        }
        let ghost start = self.finished;
        let mut arrived: Vec<Msg> = Vec::new();
        std::mem::swap(&mut arrived, &mut self.waiting);
        let mut i: usize = 0;
        while i < arrived.len()
            invariant
                i <= arrived@.len(),
                arrived@ == old(self).waiting@,
                self.waiting@.len() == 0,
                self.gone == old(self).gone,
                self.finished == (start || exists|k: int|
                    0 <= k < i && (#[trigger] arrived@[k]) is Done),
            decreases arrived@.len() - i,
        {
            if let Msg::Done = &arrived[i] {
                self.finished = true;
                assert(arrived@[i as int] is Done);
            }
            i += 1;
        }
        arrived
    }

    pub fn finished(&self) -> (r: bool)
        ensures
            r == self.finished,
    {
        self.finished
    }
}

/// What has been sent so far, seen from the reader: what earlier calls of
/// [`Scan::drain`] handed out, then what is waiting.
pub open spec fn sent_so_far(handed_out: Seq<Msg>, scan: Scan) -> Seq<Msg> {
    handed_out + scan.waiting@
}

/// No news is lost, repeated or reordered: news that arrives is the last of what
/// has been sent so far, and draining hands out the rest of it without changing
/// it, so that a second drain has nothing to hand out.
pub proof fn lemma_news_comes_once_and_in_order(
    handed_out: Seq<Msg>,
    was: Scan,
    msg: Msg,
    after: Scan,
    drained: Scan,
    news: Seq<Msg>,
)
    requires
        after.waiting@ == was.waiting@.push(msg),
        news == after.waiting@,
        drained.waiting@.len() == 0,
    ensures
        sent_so_far(handed_out, after) == sent_so_far(handed_out, was).push(msg),
        handed_out + news == sent_so_far(handed_out, after),
        sent_so_far(handed_out + news, drained) == sent_so_far(handed_out, after),
{
    assert(sent_so_far(handed_out, after) =~= sent_so_far(handed_out, was).push(msg));
    assert(sent_so_far(handed_out + news, drained) =~= sent_so_far(handed_out, after));
}

/// How many workers to start on a machine that runs so many threads at once:
/// one fewer than that, so the window stays quick, but at least one.
pub fn worker_count(parallelism: Option<usize>) -> (r: usize)
    ensures
        r == (match parallelism {
            Some(n) => if n < 2 {
                1int
            } else if n - 1 > MAX_WORKERS {
                MAX_WORKERS as int
            } else {
                n - 1
            },
            None => 1,
        }),
        1 <= r <= MAX_WORKERS,
        r <= 4,
        parallelism matches Some(n) && 2 <= n <= 5 ==> r == parallelism->0 - 1,
{
    match parallelism {
        Some(n) => if n < 2 {
            1
        } else if n - 1 > MAX_WORKERS {
            MAX_WORKERS
        } else {
            n - 1
        },
        None => 1,
    }
}

/// The first three bytes of a colour.
pub open spec fn rgb(c: Seq<u8>) -> Seq<u8> {
    c.subrange(0, 3)
}

/// How many triangles the first `n` instances are drawn with: two for each
/// rectangle that the mesh of the model is merged into.
pub open spec fn drawn(
    instances: Seq<ModelInstance>,
    models: Seq<VoxelGrid>,
    n: int,
) -> int
    decreases n,
{
    if n <= 0 {
        0
    } else {
        let at = instances[n - 1].model_index as int;
        drawn(instances, models, n - 1) + (if at < models.len() {
            2 * mesh::quads_of(models[at]@).len() as int
        } else {
            0
        })
    }
}

/// Count the triangles of a scene. Models are meshed once even when the scene
/// holds them several times.
fn count_triangles(instances: &Vec<ModelInstance>, models: &Vec<VoxelGrid>) -> (r: usize)
    requires
        forall|i: int| 0 <= i < models@.len() ==> (#[trigger] models@[i]).wf(),
    ensures
        r == loader::least(
            drawn(instances@, models@, instances@.len() as int),
            usize::MAX as int,
        ),
{
    let mut each: Vec<usize> = Vec::new();
    let mut i: usize = 0;
    while i < models.len()
        invariant
            forall|i: int| 0 <= i < models@.len() ==> (#[trigger] models@[i]).wf(),
            i <= models@.len(),
            each@.len() == i,
            forall|k: int|
                0 <= k < i ==> #[trigger] each@[k] == 2 * mesh::quads_of(models@[k]@).len(),
        decreases models@.len() - i,
    {
        let mesh = mesh::greedy_mesh(&models[i]);
        assert(mesh.encodes(mesh::quads_of(models@[i as int]@)));
        each.push(mesh.triangle_count());
        i += 1;
    }
    let mut n: usize = 0;
    let mut k: usize = 0;
    while k < instances.len()
        invariant
            k <= instances@.len(),
            each@.len() == models@.len(),
            forall|k: int|
                0 <= k < models@.len() ==> #[trigger] each@[k] == 2 * mesh::quads_of(
                    models@[k]@,
                ).len(),
            n == loader::least(drawn(instances@, models@, k as int), usize::MAX as int),
        decreases instances@.len() - k,
    {
        let at: usize = instances[k].model_index;
        if at < each.len() {
            n = n.saturating_add(each[at]);
        }
        k += 1;
    }
    n
}

/// Whether some stats are those of a scene, of a file of so many bytes that
/// was changed at some time.
pub open spec fn stats_are(
    a: AssetStats,
    s: VoxScene,
    bytes: u64,
    modified: Option<i64>,
) -> bool {
    &&& match s.bounds {
        Some(b) => a.dims@ == seq![
            loader::side(b.min.x, b.max.x) as i32,
            loader::side(b.min.y, b.max.y) as i32,
            loader::side(b.min.z, b.max.z) as i32,
        ],
        None => a.dims@ == seq![1i32, 1i32, 1i32],
    }
    &&& a.voxels == s.voxel_count
    &&& a.triangles == loader::least(
        drawn(s.instances@, s.models@, s.instances@.len() as int),
        usize::MAX as int,
    )
    &&& a.models == s.models@.len()
    &&& a.instances == s.instances@.len()
    &&& a.palette_from_file == s.palette.from_file
    &&& a.palette_head@.len() == PALETTE_HEAD
    &&& forall|i: int|
        0 <= i < PALETTE_HEAD ==> (#[trigger] a.palette_head@[i])@ == rgb(s.palette.colors()[i])
    &&& a.bytes == bytes
    &&& a.modified == modified
}

/// What the browser shows of a scene.
pub fn stats_of_scene(scene: &VoxScene, bytes: u64, modified: Option<i64>) -> (r: AssetStats)
    requires
        forall|i: int| 0 <= i < scene.models@.len() ==> (#[trigger] scene.models@[i]).wf(),
    ensures
        stats_are(r, *scene, bytes, modified),
{
    let dims = scene.dimensions();
    let mut head: Vec<[u8; 3]> = Vec::new();
    let mut i: usize = 0;
    while i < PALETTE_HEAD
        invariant
            i <= PALETTE_HEAD,
            head@.len() == i,
            forall|k: int|
                0 <= k < i ==> (#[trigger] head@[k])@ == rgb(scene.palette.colors()[k]),
        decreases PALETTE_HEAD - i,
    {
        let c: [u8; 4] = scene.palette.color(i as u8).to_array();
        let first = [c[0], c[1], c[2]];
        assert(first@ =~= rgb(c@));
        head.push(first);
        i += 1;
    }
    let dims = [dims.x, dims.y, dims.z];
    assert(dims@ =~= seq![dims[0], dims[1], dims[2]]);
    AssetStats {
        dims,
        voxels: scene.voxel_count,
        triangles: count_triangles(&scene.instances, &scene.models),
        models: scene.models.len(),
        instances: scene.instances.len(),
        palette_from_file: scene.palette.from_file,
        palette_head: head,
        bytes,
        modified,
    }
}

/// Whether a load is that of a file with some contents: its stats, or why it
/// has none.
pub open spec fn load_is(
    load: Load,
    contents: Seq<u8>,
    bytes: u64,
    modified: Option<i64>,
) -> bool {
    match voxfile::vox_parse(contents) {
        None => load matches Load::Failed(why) && why@ == "Not a valid MagicaVoxel .vox file"@,
        Some(f) => match loader::first_implausible(f.models, 0) {
            Some(model) => load matches Load::Failed(why) && why@ == loader::error_text(
                loader::LoadError::Implausible {
                    model: model as usize,
                    size: f.models[model].size,
                },
            ),
            None => load matches Load::Ready(a) && exists|s: VoxScene| #[trigger]
                loader::scene_of(s, f) && stats_are(a, s, bytes, modified),
        },
    }
}

/// Parse one file for its stats. Errors become a `Failed` load, never a panic:
/// a malformed asset should cost that one cell, not the browser.
///
/// Only the innermost reason is worth a cell's worth of space; the outer
/// context is the file name, which the cell already shows.
pub fn stats_of(contents: Result<Vec<u8>, String>, bytes: u64, modified: Option<i64>) -> (r: Load)
    ensures
        match contents {
            Err(why) => r == Load::Failed(why),
            Ok(c) => load_is(r, c@, bytes, modified),
        },
{
    match contents {
        Err(why) => Load::Failed(why),
        Ok(c) => match loader::load_bytes(c.as_slice()) {
            Ok(scene) => Load::Ready(stats_of_scene(&scene, bytes, modified)),
            Err(e) => Load::Failed(e.message()),
        },
    }
}

/// A file's triangles are two for every face of every model that is placed, as
/// often as it is placed.
pub proof fn lemma_a_face_is_two_triangles(
    instances: Seq<ModelInstance>,
    models: Seq<VoxelGrid>,
    n: int,
    each: int,
)
    requires
        0 <= n <= instances.len(),
        forall|i: int|
            0 <= i < n ==> (#[trigger] instances[i]).model_index < models.len()
                && mesh::quads_of(models[instances[i].model_index as int]@).len() == each,
    ensures
        drawn(instances, models, n) == n * (2 * each),
    decreases n,
{
    if n > 0 {
        lemma_a_face_is_two_triangles(instances, models, n - 1, each);
        assert(instances[n - 1].model_index < models.len());
        assert((n - 1) * (2 * each) + 2 * each == n * (2 * each)) by (nonlinear_arith);
    } else {
        assert(n * (2 * each) == 0) by (nonlinear_arith)
            requires
                n == 0,
        ;
    }
}

/// What is known of a file is what its scene holds: the cells its box reaches
/// over, the voxels, models and placements in it, and the first of its colours
/// as red, green and blue.
pub proof fn lemma_stats_describe_the_scene(
    a: AssetStats,
    s: VoxScene,
    bytes: u64,
    modified: Option<i64>,
    i: int,
)
    requires
        stats_are(a, s, bytes, modified),
        s.bounds matches Some(b) ==> 0 <= b.max.x - b.min.x <= i32::MAX && 0 <= b.max.y - b.min.y
            <= i32::MAX && 0 <= b.max.z - b.min.z <= i32::MAX,
        0 <= i < a.palette_head@.len(),
        s.palette.colors()[i].len() == 4,
    ensures
        s.bounds matches Some(b) ==> a.dims@[0] == b.max.x - b.min.x && a.dims@[1] == b.max.y
            - b.min.y && a.dims@[2] == b.max.z - b.min.z,
        s.bounds is None ==> a.dims@[0] == 1 && a.dims@[1] == 1 && a.dims@[2] == 1,
        a.voxels == s.voxel_count,
        a.models == s.models@.len(),
        a.instances == s.instances@.len(),
        a.bytes == bytes,
        a.modified == modified,
        a.palette_head@[i]@.len() == 3,
        a.palette_head@[i]@[0] == s.palette.colors()[i][0],
        a.palette_head@[i]@[1] == s.palette.colors()[i][1],
        a.palette_head@[i]@[2] == s.palette.colors()[i][2],
{
    if let Some(b) = s.bounds {
        loader::lemma_a_side_counts_cells(b.min.x, b.max.x);
        loader::lemma_a_side_counts_cells(b.min.y, b.max.y);
        loader::lemma_a_side_counts_cells(b.min.z, b.max.z);
    }
    assert(a.palette_head@[i]@ == rgb(s.palette.colors()[i]));
}

} // verus!
