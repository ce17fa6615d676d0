//! Thumbnails for the library grid.
//!
//! Every cell wants a picture of its model, and there can be four thousand
//! cells. Three things keep that affordable:
//!
//! * **Only what you can see.** The grid asks for a thumbnail while it draws a
//!   cell; nothing off-screen is ever requested.
//! * **Off the main thread.** Parsing and meshing happen on workers. Only the
//!   draw itself has to be on the thread that owns the device, and that is
//!   rationed to a couple per frame so scrolling never stalls.
//! * **On disk.** The result is a PNG keyed by the file's path, size and
//!   modification time, so the second visit to a folder is a decode rather
//!   than a parse, a mesh and a render.

use vstd::prelude::*;

use crate::order;
use crate::order::Keyed;
use crate::paths;
use crate::paths::{FilePath, PathView};
use crate::text;

verus! {

/// Edge of a thumbnail in pixels. Two of these fit a 6-column grid on a
/// 1440-wide window with room to spare, and 64 KB of readback is nothing.
pub const SIZE: u32 = 128;

/// Bytes of one picture.
pub const PICTURE_BYTES: usize = 65_536;

/// Thumbnails rendered per frame. Each costs a GPU round trip, so this is the
/// knob that trades fill-in speed against a smooth scroll.
pub const PER_FRAME: usize = 2;

/// Requests outstanding at once. Enough to keep the workers busy through a
/// fast scroll without queueing a folder you have already scrolled past.
pub const IN_FLIGHT: usize = 8;

/// Textures held on the GPU before the least recently drawn are released.
pub const RESIDENT: usize = 1024;

/// Bytes of thumbnails kept on disk between runs.
///
/// A 128-pixel PNG of a voxel model is a few kilobytes, so this is room for
/// something like fifty thousand of them -- more than any real asset tree --
/// while staying small enough that nobody finds it in their cache directory
/// and wonders what has been eating the disk. Without a ceiling the cache
/// grows for the life of the machine, because every edit to a model leaves
/// the thumbnail of the previous version behind for ever.
pub const MAX_CACHE_BYTES: u64 = 268_435_456;

/// How stale a cache file's timestamp has to be before using it rewrites it,
/// in nanoseconds.
///
/// The timestamp is what pruning sorts on, so it has to mean "last used"
/// rather than "first written". Refreshing it on every read would be a write
/// per thumbnail per scroll; a day's granularity is all the ordering needs.
pub const TOUCH_AFTER: i64 = 86_400_000_000_000;

// ---- cache names ------------------------------------------------------------
/// One step of the hash: fold in a byte, then spread it.
pub open spec fn fnv_of(hash: u64, byte: u8) -> u64 {
    (hash ^ (byte as u64)).wrapping_mul(0x0000_0100_0000_01b3)
}

/// A hash with some bytes folded in.
pub open spec fn folded(hash: u64, bytes: Seq<u8>) -> u64
    decreases bytes.len(),
{
    if bytes.len() == 0 {
        hash
    } else {
        fnv_of(folded(hash, bytes.drop_last()), bytes.last())
    }
}

/// The lowest `n` bytes of a number, the lowest first.
pub open spec fn little_endian(v: int, n: nat) -> Seq<u8>
    decreases n,
{
    if n == 0 {
        Seq::empty()
    } else {
        seq![(v % 256) as u8] + little_endian(v / 256, (n - 1) as nat)
    }
}

/// A hexadecimal digit.
pub open spec fn hex_char(d: int) -> char {
    if d < 10 {
        (48 + d) as char
    } else {
        (87 + d) as char
    }
}

/// The lowest `n` hexadecimal digits of a number, the highest first.
pub open spec fn hex(v: int, n: nat) -> Seq<char>
    decreases n,
{
    if n == 0 {
        Seq::empty()
    } else {
        hex(v / 16, (n - 1) as nat).push(hex_char(v % 16))
    }
}

/// The hash a thumbnail is stored under.
pub open spec fn key_of(path: Seq<char>, len: u64, stamp: u128) -> u64 {
    folded(
        folded(
            folded(0xcbf2_9ce4_8422_2325, vstd::utf8::encode_utf8(path)),
            little_endian(len as int, 8),
        ),
        little_endian(stamp as int, 16),
    )
}

/// The file name a thumbnail is stored under.
pub open spec fn name_for(path: Seq<char>, len: u64, stamp: u128) -> Seq<char> {
    hex(key_of(path, len, stamp) as int, 16) + "-128.png"@
}

fn fnv(hash: u64, byte: u8) -> (r: u64)
    ensures
        r == fnv_of(hash, byte),
{
    (hash ^ byte as u64).wrapping_mul(0x0000_0100_0000_01b3)
}

proof fn lemma_folded_step(hash: u64, bytes: Seq<u8>, i: int)
    requires
        0 <= i < bytes.len(),
    ensures
        folded(hash, bytes.subrange(0, i + 1)) == fnv_of(
            folded(hash, bytes.subrange(0, i)),
            bytes[i],
        ),
{
    let part = bytes.subrange(0, i + 1);
    assert(part.drop_last() =~= bytes.subrange(0, i));
}

fn fold(hash: u64, bytes: &[u8]) -> (r: u64)
    ensures
        r == folded(hash, bytes@),
{
    let mut h: u64 = hash;
    let mut i: usize = 0;
    assert(bytes@.subrange(0, 0) =~= Seq::empty());
    while i < bytes.len()
        invariant
            i <= bytes@.len(),
            h == folded(hash, bytes@.subrange(0, i as int)),
        decreases bytes@.len() - i,
    {
        proof {
            lemma_folded_step(hash, bytes@, i as int);
        }
        h = fnv(h, bytes[i]);
        i += 1;
    }
    assert(bytes@.subrange(0, i as int) =~= bytes@);
    h
}

fn le_bytes(v: u128, n: usize) -> (r: Vec<u8>)
    ensures
        r@ == little_endian(v as int, n as nat),
{
    let mut out: Vec<u8> = Vec::new();
    let mut rest: u128 = v;
    let mut i: usize = 0;
    let ghost all = little_endian(v as int, n as nat);
    assert(out@ + all =~= all);
    while i < n
        invariant
            i <= n,
            out@ + little_endian(rest as int, (n - i) as nat) == all,
        decreases n - i,
    {
        let ghost tail = little_endian((rest / 256) as int, (n - i - 1) as nat);
        let ghost had = out@;
        let byte: u8 = (rest % 256) as u8;
        out.push(byte);
        assert(out@ + tail =~= had + (seq![byte] + tail));
        rest = rest / 256;
        i += 1;
    }
    assert(out@ =~= all);
    out
}

fn hex_text(v: u64) -> (r: Vec<char>)
    ensures
        r@ == hex(v as int, 16),
{
    let mut low: Vec<char> = Vec::new();
    let mut rest: u64 = v;
    let mut i: usize = 0;
    // The digits come lowest first; they are turned round at the end.
    while i < 16
        invariant
            i <= 16,
            low@.len() == i,
            hex(v as int, 16) == hex(rest as int, (16 - i) as nat) + low@.reverse(),
        decreases 16 - i,
    {
        let d: u64 = rest % 16;
        let c: char = if d < 10 {
            (48 + d as u8) as char
        } else {
            (87 + d as u8) as char
        };
        assert(c == hex_char(d as int));
        let ghost had = low@;
        low.push(c);
        proof {
            let before = hex((rest / 16) as int, (15 - i) as nat);
            assert(low@.reverse() =~= seq![c] + had.reverse());
            assert(before.push(c) + had.reverse() =~= before + (seq![c] + had.reverse()));
        }
        rest = rest / 16;
        i += 1;
    }
    let mut out: Vec<char> = Vec::new();
    let mut k: usize = 16;
    while k > 0
        invariant
            k <= 16,
            low@.len() == 16,
            out@.len() == 16 - k,
            forall|j: int| 0 <= j < out@.len() ==> #[trigger] out@[j] == low@[15 - j],
        decreases k,
    {
        k -= 1;
        out.push(low[k]);
    }
    assert(out@ =~= low@.reverse());
    assert(hex(rest as int, 0) + low@.reverse() =~= low@.reverse());
    out
}

/// Cache file name for one asset: its path, length and time of change, hashed.
///
/// Length and time are both in the key, so editing a model in MagicaVoxel
/// invalidates its thumbnail without anything having to notice the change.
pub fn cache_name(path: &str, len: u64, stamp: u128) -> (r: String)
    ensures
        r@ == name_for(path@, len, stamp),
{
    let mut hash: u64 = fold(0xcbf2_9ce4_8422_2325, path.as_bytes());
    hash = fold(hash, le_bytes(len as u128, 8).as_slice());
    hash = fold(hash, le_bytes(stamp, 16).as_slice());
    let mut s = text::string_of(&hex_text(hash));
    text::push_str(&mut s, "-128.png");
    assert(s@ =~= name_for(path@, len, stamp));
    s
}

/// Whether a character is a hexadecimal digit.
pub open spec fn is_hex(c: char) -> bool {
    '0' <= c <= '9' || 'a' <= c <= 'f' || 'A' <= c <= 'F'
}

/// Whether a name has the shape of those thumbnails are stored under: sixteen
/// hexadecimal digits, a dash, a number, and `.png`.
pub open spec fn is_own_name(name: Seq<char>) -> bool {
    let dash = text::find(name, '-');
    let end = name.len() - 4;
    &&& dash == 16
    &&& forall|i: int| 0 <= i < 16 ==> is_hex(#[trigger] name[i])
    &&& end > 17
    &&& name.subrange(end, name.len() as int) == ".png"@
    &&& forall|i: int| 17 <= i < end ==> text::is_digit(#[trigger] name[i])
}

/// Does this file name have the shape [`cache_name`] produces?
pub fn is_cache_name(name: &str) -> (r: bool)
    ensures
        r == is_own_name(name@),
{
    let chars = text::chars_of(name);
    let n: usize = chars.len();
    assert(chars@.subrange(0, chars@.len() as int) =~= chars@);
    proof {
        reveal_strlit(".png");
    }
    let dash: usize = text::find_from(&chars, '-', 0);
    if dash != 16 || n < 22 {
        return false;
    }
    let end: usize = n - 4;
    if !text::same(&text::slice(&chars, end, n), &text::chars_of(".png")) {
        return false;
    }
    let mut i: usize = 0;
    while i < 16
        invariant
            i <= 16,
            n == chars@.len(),
            n >= 22,
            chars@ == name@,
            forall|k: int| 0 <= k < i ==> is_hex(#[trigger] chars@[k]),
        decreases 16 - i,
    {
        let c: char = chars[i];
        let digit = ('0' <= c && c <= '9') || ('a' <= c && c <= 'f') || ('A' <= c && c <= 'F');
        if !digit {
            assert(!is_hex(name@[i as int]));
            return false;
        }
        i += 1;
    }
    let mut j: usize = 17;
    while j < end
        invariant
            17 <= j <= end,
            end == n - 4,
            n == chars@.len(),
            chars@ == name@,
            forall|k: int| 17 <= k < j ==> text::is_digit(#[trigger] chars@[k]),
        decreases end - j,
    {
        let c: char = chars[j];
        if !('0' <= c && c <= '9') {
            assert(!text::is_digit(name@[j as int]));
            return false;
        }
        j += 1;
    }
    true
}

proof fn lemma_hex(v: int, n: nat)
    requires
        v >= 0,
    ensures
        hex(v, n).len() == n,
        forall|i: int|
            0 <= i < n ==> is_hex(#[trigger] hex(v, n)[i]) && hex(v, n)[i] != '-',
    decreases n,
{
    if n > 0 {
        lemma_hex(v / 16, (n - 1) as nat);
        let (before, all) = (hex(v / 16, (n - 1) as nat), hex(v, n));
        assert forall|i: int| 0 <= i < n implies is_hex(#[trigger] all[i]) && all[i] != '-' by {
            if i < n - 1 {
                assert(all[i] == before[i]);
            }
        }
    }
}

/// Every thumbnail is stored under a name that is recognised as one.
pub proof fn lemma_own_names_are_recognised(path: Seq<char>, len: u64, stamp: u128)
    ensures
        is_own_name(name_for(path, len, stamp)),
{
    reveal_strlit("-128.png");
    reveal_strlit(".png");
    let digits = hex(key_of(path, len, stamp) as int, 16);
    let name = name_for(path, len, stamp);
    lemma_hex(key_of(path, len, stamp) as int, 16);
    assert forall|i: int| 0 <= i < 16 implies is_hex(#[trigger] name[i]) && name[i] != '-' by {
        assert(name[i] == digits[i]);
    }
    assert(name[16] == '-');
    text::lemma_find_is(name, '-', 16);
    assert(name.subrange(20, 24) =~= ".png"@);
}

/// Whether a file was last used long enough ago for using it to say so.
pub fn needs_touch(now: i64, modified: Option<i64>) -> (r: bool)
    ensures
        r == !(modified matches Some(m) && 0 <= now - m < TOUCH_AFTER),
        r <==> (modified matches Some(m) ==> now < m || now - m >= 24 * 60 * 60 * 1_000_000_000),
{
    match modified {
        Some(m) => {
            let age: i128 = now as i128 - m as i128;
            !(0 <= age && age < TOUCH_AFTER as i128)
        },
        None => true,
    }
}

/// Where thumbnails live between runs, following each platform's convention:
/// what the system names for it, or a directory for temporary files.
pub fn cache_dir(
    windows: bool,
    local: Option<FilePath>,
    xdg: Option<FilePath>,
    home: Option<FilePath>,
    temp: FilePath,
) -> (r: FilePath)
    ensures
        ({
            let base = if windows {
                match local {
                    Some(p) => p@,
                    None => temp@,
                }
            } else {
                match xdg {
                    Some(p) => p@,
                    None => match home {
                        Some(h) => h@.join(".cache"@),
                        None => temp@,
                    },
                }
            };
            r@ == base.join("voxview"@).join("thumbnails"@)
        }),
{
    let base = if windows {
        match local {
            Some(p) => p,
            None => temp,
        }
    } else {
        match xdg {
            Some(p) => p,
            None => match home {
                Some(h) => h.join(".cache"),
                None => temp,
            },
        }
    };
    base.join("voxview").join("thumbnails")
}

// ---- pruning ----------------------------------------------------------------
/// What one sweep of the cache directory did.
#[derive(Clone, Copy, Debug, PartialEq, Eq, Structural)]
pub struct Pruned {
    pub kept_files: usize,
    pub kept_bytes: u64,
    pub removed_files: usize,
    pub removed_bytes: u64,
}

impl Default for Pruned {
    fn default() -> (r: Pruned)
        ensures
            r == (Pruned { kept_files: 0, kept_bytes: 0, removed_files: 0, removed_bytes: 0 }),
    {
        Pruned { kept_files: 0, kept_bytes: 0, removed_files: 0, removed_bytes: 0 }
    }
}

/// A thumbnail on disk: when it was last used, in nanoseconds, and its size.
#[derive(Clone, Copy, Debug, PartialEq, Eq, Structural)]
pub struct Entry {
    pub used: i64,
    pub size: u64,
}

/// Whether something in the cache directory may be deleted.
///
/// Only files this module wrote are considered, matched on the shape of the
/// name: a cache directory is a place users and other programs put things,
/// and a tool that deletes whatever it finds in one is a tool that eventually
/// deletes something it should not have.
pub fn prunable(name: &str, is_file: bool, used: i64, size: u64) -> (r: Option<Entry>)
    ensures
        r == (if is_own_name(name@) && is_file {
            Some(Entry { used, size })
        } else {
            None
        }),
{
    if is_cache_name(name) && is_file {
        Some(Entry { used, size })
    } else {
        None
    }
}

/// A sweep of the cache: the least recently used thumbnails go until what is
/// left fits the budget.
///
/// The sweep says what to delete next and is told how that went. A file that
/// cannot be deleted is counted as kept and not tried again.
pub struct Sweep {
    pub entries: Vec<Entry>,
    /// What may still go, the most recently used first.
    pub queue: Vec<usize>,
    pub budget: u64,
    pub out: Pruned,
}

impl Keyed for Sweep {
    open spec fn valid(&self, i: usize) -> bool {
        i < self.entries@.len()
    }

    open spec fn key(&self, i: usize) -> Seq<int> {
        seq![-(self.entries@[i as int].used as int)]
    }

    fn le(&self, a: usize, b: usize) -> (r: bool) {
        proof {
            let (x, y) = (self.key(a), self.key(b));
            assert(x[0] == -(self.entries@[a as int].used as int));
            assert(order::lex_le(x.subrange(1, 1), y.subrange(1, 1)));
        }
        self.entries[a].used >= self.entries[b].used
    }
}

/// Bytes of the entries that a list names.
pub open spec fn bytes_of(entries: Seq<Entry>, list: Seq<usize>) -> int
    decreases list.len(),
{
    if list.len() == 0 {
        0
    } else {
        bytes_of(entries, list.drop_last()) + entries[list.last() as int].size
    }
}

/// Bytes of all the entries.
pub open spec fn all_bytes(entries: Seq<Entry>) -> int
    decreases entries.len(),
{
    if entries.len() == 0 {
        0
    } else {
        all_bytes(entries.drop_last()) + entries.last().size
    }
}

impl Sweep {
    /// What may still go is counted among what is kept, and is in order.
    pub open spec fn wf(self) -> bool {
        &&& order::all_valid(self, self.queue@)
        &&& order::in_order(self, self.queue@)
        &&& self.out.kept_files >= self.queue@.len()
        &&& self.out.kept_bytes >= bytes_of(self.entries@, self.queue@)
        &&& self.out.kept_files + self.out.removed_files == self.entries@.len()
        &&& self.out.kept_bytes + self.out.removed_bytes == all_bytes(self.entries@)
        &&& all_bytes(self.entries@) <= u64::MAX
    }

    /// Start on a directory's thumbnails.
    pub fn new(entries: Vec<Entry>, budget: u64) -> (r: Sweep)
        requires
            all_bytes(entries@) <= u64::MAX,
        ensures
            r.wf(),
            r.entries@ == entries@,
            r.budget == budget,
            order::is_sorted_from(r, r.queue@, crate::selection::upto(entries@.len())),
            r.out == (Pruned {
                kept_files: entries@.len() as usize,
                kept_bytes: all_bytes(entries@) as u64,
                removed_files: 0,
                removed_bytes: 0,
            }),
    {
        let n: usize = entries.len();
        let mut all: Vec<usize> = Vec::new();
        let mut bytes: u64 = 0;
        let mut i: usize = 0;
        assert(entries@.subrange(0, 0) =~= Seq::empty());
        while i < n
            invariant
                n == entries@.len(),
                i <= n,
                all@ == crate::selection::upto(i as nat),
                bytes == all_bytes(entries@.subrange(0, i as int)),
                all_bytes(entries@) <= u64::MAX,
            decreases n - i,
        {
            proof {
                let part = entries@.subrange(0, i + 1);
                assert(part.drop_last() =~= entries@.subrange(0, i as int));
                lemma_part_of_bytes(entries@, i + 1);
            }
            bytes += entries[i].size;
            all.push(i);
            i += 1;
            assert(all@ =~= crate::selection::upto(i as nat));
        }
        assert(entries@.subrange(0, i as int) =~= entries@);
        let mut sweep = Sweep {
            entries,
            queue: Vec::new(),
            budget,
            out: Pruned { kept_files: n, kept_bytes: bytes, removed_files: 0, removed_bytes: 0 },
        };
        let queue = order::sort(&sweep, &all, 0, n);
        let ghost before = sweep;
        sweep.queue = queue;
        proof {
            let order = crate::selection::upto(n as nat);
            assert(all@.subrange(0, n as int) =~= order);
            lemma_same_keys(before, sweep, queue@, order);
            lemma_bytes_of_all(sweep.entries@);
            lemma_sorted_bytes(sweep, queue@, order);
        }
        sweep
    }

    /// Whether more has to go.
    pub open spec fn is_over(self) -> bool {
        self.out.kept_bytes > self.budget && self.queue@.len() > 0
    }

    /// The thumbnail to delete next, or none when what is left fits or nothing
    /// is left that could go.
    pub fn next(&self) -> (r: Option<usize>)
        ensures
            r == (if self.is_over() {
                Some(self.queue@.last())
            } else {
                None
            }),
    {
        let n: usize = self.queue.len();
        if self.out.kept_bytes > self.budget && n > 0 {
            Some(self.queue[n - 1])
        } else {
            None
        }
    }

    /// What is counted after the next thumbnail was deleted, or could not be.
    pub open spec fn counted(self, deleted: bool) -> Pruned {
        let size = self.entries@[self.queue@.last() as int].size;
        if deleted {
            Pruned {
                kept_files: (self.out.kept_files - 1) as usize,
                kept_bytes: (self.out.kept_bytes - size) as u64,
                removed_files: (self.out.removed_files + 1) as usize,
                removed_bytes: (self.out.removed_bytes + size) as u64,
            }
        } else {
            self.out
        }
    }

    /// Note whether the next thumbnail could be deleted.
    pub fn settle(&mut self, deleted: bool)
        requires
            old(self).wf(),
            old(self).queue@.len() > 0,
        ensures
            final(self).wf(),
            final(self).queue@ == old(self).queue@.drop_last(),
            final(self).out == old(self).counted(deleted),
            *final(self) == (Sweep {
                queue: final(self).queue,
                out: final(self).out,
                ..*old(self)
            }),
    {
        let ghost was = *self;
        let n: usize = self.queue.len();
        let at: usize = self.queue[n - 1];
        assert(was.valid(was.queue@[n - 1]));
        let size: u64 = self.entries[at].size;
        self.queue.pop();
        assert(self.queue@ =~= was.queue@.drop_last());
        proof {
            lemma_bytes_nonnegative(self.entries@, self.queue@);
        }
        let total: usize = self.entries.len();
        assert(self.out.removed_files < total);
        if deleted {
            self.out.kept_files -= 1;
            self.out.kept_bytes -= size;
            self.out.removed_files += 1;
            self.out.removed_bytes += size;
        }
        proof {
            assert forall|i: int| 0 <= i < self.queue@.len() implies self.valid(
                #[trigger] self.queue@[i],
            ) by {
                assert(was.valid(was.queue@[i]));
            }
            assert forall|i: int, j: int|
                #![trigger self.queue@[i], self.queue@[j]]
                0 <= i <= j < self.queue@.len() implies order::lex_le(
                self.key(self.queue@[i]),
                self.key(self.queue@[j]),
            ) by {
                assert(order::lex_le(was.key(was.queue@[i]), was.key(was.queue@[j])));
            }
        }
    }
}

proof fn lemma_part_of_bytes(entries: Seq<Entry>, n: int)
    requires
        0 <= n <= entries.len(),
    ensures
        0 <= all_bytes(entries.subrange(0, n)) <= all_bytes(entries),
    decreases entries.len(),
{
    if n == entries.len() {
        assert(entries.subrange(0, n) =~= entries);
        if n > 0 {
            lemma_part_of_bytes(entries.drop_last(), n - 1);
        }
    } else {
        let rest = entries.drop_last();
        lemma_part_of_bytes(rest, n);
        assert(rest.subrange(0, n) =~= entries.subrange(0, n));
    }
}

proof fn lemma_bytes_nonnegative(entries: Seq<Entry>, list: Seq<usize>)
    ensures
        bytes_of(entries, list) >= 0,
    decreases list.len(),
{
    if list.len() > 0 {
        lemma_bytes_nonnegative(entries, list.drop_last());
    }
}

proof fn lemma_same_keys(a: Sweep, b: Sweep, list: Seq<usize>, source: Seq<usize>)
    requires
        a.entries == b.entries,
        order::is_sorted_from(a, list, source),
        order::all_valid(a, list),
    ensures
        order::is_sorted_from(b, list, source),
        order::all_valid(b, list),
{
    assert forall|i: int| 0 <= i < list.len() implies b.valid(#[trigger] list[i]) by {
        assert(a.valid(list[i]));
    }
    assert forall|i: int, j: int|
        #![trigger list[i], list[j]]
        0 <= i <= j < list.len() implies order::lex_le(b.key(list[i]), b.key(list[j])) by {
        assert(order::lex_le(a.key(list[i]), a.key(list[j])));
    }
    assert forall|key: Seq<int>| #[trigger] order::of_key(b, list, key) == order::of_key(
        b,
        source,
        key,
    ) by {
        assert(order::has_key(a, key) =~= order::has_key(b, key));
        assert(order::of_key(a, list, key) == order::of_key(a, source, key));
    }
}

proof fn lemma_bytes_of_all(entries: Seq<Entry>)
    requires
        entries.len() <= usize::MAX,
    ensures
        bytes_of(entries, crate::selection::upto(entries.len())) == all_bytes(entries),
    decreases entries.len(),
{
    let all = crate::selection::upto(entries.len());
    if entries.len() > 0 {
        let rest = entries.drop_last();
        lemma_bytes_of_all(rest);
        let shorter = crate::selection::upto(rest.len());
        assert(all.drop_last() =~= shorter);
        lemma_bytes_frame(entries, rest, shorter);
    }
}

proof fn lemma_bytes_frame(a: Seq<Entry>, b: Seq<Entry>, list: Seq<usize>)
    requires
        b.len() <= a.len(),
        forall|i: int| 0 <= i < list.len() ==> (#[trigger] list[i]) < b.len(),
        forall|i: int| 0 <= i < b.len() ==> #[trigger] a[i] == b[i],
    ensures
        bytes_of(a, list) == bytes_of(b, list),
    decreases list.len(),
{
    if list.len() > 0 {
        lemma_bytes_frame(a, b, list.drop_last());
        assert(list[list.len() - 1] < b.len());
        assert(a[list.last() as int] == b[list.last() as int]);
    }
}

/// A list put in order names as many bytes as before.
proof fn lemma_sorted_bytes(k: Sweep, list: Seq<usize>, source: Seq<usize>)
    requires
        order::is_sorted_from(k, list, source),
    ensures
        bytes_of(k.entries@, list) == bytes_of(k.entries@, source),
{
    order::lemma_sorting_keeps_the_count(k, list, source);
    lemma_bytes_of_multiset(k.entries@, list, source);
}

proof fn lemma_bytes_of_multiset(entries: Seq<Entry>, a: Seq<usize>, b: Seq<usize>)
    requires
        a.to_multiset() == b.to_multiset(),
    ensures
        bytes_of(entries, a) == bytes_of(entries, b),
    decreases a.len(),
{
    a.to_multiset_ensures();
    b.to_multiset_ensures();
    if a.len() > 0 {
        let x = a.last();
        assert(a.to_multiset().contains(x));
        assert(b.contains(x));
        let j = choose|j: int| 0 <= j < b.len() && b[j] == x;
        let rest = b.remove(j);
        lemma_bytes_remove(entries, b, j);
        assert(a.drop_last() =~= a.remove(a.len() - 1));
        lemma_bytes_of_multiset(entries, a.drop_last(), rest);
    } else {
        assert(b.len() == 0);
    }
}

proof fn lemma_bytes_remove(entries: Seq<Entry>, b: Seq<usize>, j: int)
    requires
        0 <= j < b.len(),
    ensures
        bytes_of(entries, b) == bytes_of(entries, b.remove(j)) + entries[b[j] as int].size,
    decreases b.len(),
{
    if j < b.len() - 1 {
        let rest = b.drop_last();
        lemma_bytes_remove(entries, rest, j);
        assert(b.remove(j).drop_last() =~= rest.remove(j));
        assert(b.remove(j).last() == b.last());
    } else {
        assert(b.remove(j) =~= b.drop_last());
    }
}

/// The next to go is the least recently used of what may still go.
pub proof fn lemma_the_least_recently_used_goes_first(sweep: Sweep, i: int)
    requires
        sweep.wf(),
        0 <= i < sweep.queue@.len(),
    ensures
        sweep.entries@[sweep.queue@.last() as int].used <= sweep.entries@[sweep.queue@[i] as int].used,
{
    let (x, y) = (sweep.key(sweep.queue@[i]), sweep.key(sweep.queue@[sweep.queue@.len() - 1]));
    assert(order::lex_le(x, y));
    assert(x[0] == -(sweep.entries@[sweep.queue@[i] as int].used as int));
}

/// A sweep that is over leaves a cache that fits its budget, or one of which
/// nothing more could go.
pub proof fn lemma_a_finished_sweep_fits(sweep: Sweep)
    requires
        sweep.wf(),
        !sweep.is_over(),
    ensures
        sweep.out.kept_bytes <= sweep.budget || sweep.queue@.len() == 0,
        sweep.out.kept_files + sweep.out.removed_files == sweep.entries@.len(),
        sweep.out.kept_bytes + sweep.out.removed_bytes == all_bytes(sweep.entries@),
{
}

// ---- what is asked for, made and kept ----------------------------------------
/// The pictures that are asked for, on their way, ready or beyond hope.
///
/// The pictures themselves are elsewhere; this says which to make next and
/// which to let go of.
pub struct Thumbs {
    /// Pictures that are ready, and the frame each was last drawn in.
    pub resident: Vec<(FilePath, u64)>,
    pub failed: Vec<FilePath>,
    pub in_flight: Vec<FilePath>,
    pub wanted: Vec<FilePath>,
    pub frame: u64,
}

/// Pictures and when they were drawn, as texts.
pub open spec fn shelf(v: Seq<(FilePath, u64)>) -> Seq<(PathView, u64)> {
    Seq::new(v.len(), |i: int| (v[i].0@, v[i].1))
}

/// A list without a path.
pub open spec fn without(list: Seq<PathView>, p: PathView) -> Seq<PathView>
    decreases list.len(),
{
    if list.len() == 0 {
        list
    } else {
        let before = without(list.drop_last(), p);
        if list.last() == p {
            before
        } else {
            before.push(list.last())
        }
    }
}

/// A list with a path at its end, unless it has it.
pub open spec fn with(list: Seq<PathView>, p: PathView) -> Seq<PathView> {
    if list.contains(p) {
        list
    } else {
        list.push(p)
    }
}

/// A shelf without a picture.
pub open spec fn shelf_without(list: Seq<(PathView, u64)>, p: PathView) -> Seq<(PathView, u64)>
    decreases list.len(),
{
    if list.len() == 0 {
        list
    } else {
        let before = shelf_without(list.drop_last(), p);
        if list.last().0 == p {
            before
        } else {
            before.push(list.last())
        }
    }
}

/// Where a picture stands on the shelf.
pub open spec fn on_shelf(list: Seq<(PathView, u64)>, p: PathView, from: int) -> Option<int>
    decreases list.len() - from,
{
    if from < 0 || from >= list.len() {
        None
    } else if list[from].0 == p {
        Some(from)
    } else {
        on_shelf(list, p, from + 1)
    }
}

/// A shelf on which a picture was drawn in some frame.
pub open spec fn drawn_in(
    list: Seq<(PathView, u64)>,
    p: PathView,
    frame: u64,
) -> Seq<(PathView, u64)> {
    match on_shelf(list, p, 0) {
        Some(i) => list.update(i, (p, frame)),
        None => list.push((p, frame)),
    }
}

fn lists(list: &Vec<FilePath>, path: &FilePath) -> (r: bool)
    ensures
        r == paths::views(list@).contains(path@),
{
    let mut i: usize = 0;
    while i < list.len()
        invariant
            i <= list@.len(),
            forall|k: int| 0 <= k < i ==> (#[trigger] list@[k])@ != path@,
        decreases list@.len() - i,
    {
        if list[i].same(path) {
            assert(paths::views(list@)[i as int] == path@);
            return true;
        }
        i += 1;
    }
    proof {
        if paths::views(list@).contains(path@) {
            let k = choose|k: int| 0 <= k < list@.len() && paths::views(list@)[k] == path@;
            assert(list@[k]@ != path@);
        }
    }
    false
}

fn keep(list: &mut Vec<FilePath>, path: &FilePath)
    ensures
        paths::views(final(list)@) == with(paths::views(old(list)@), path@),
{
    if !lists(list, path) {
        let ghost was = list@;
        list.push(path.copy());
        assert(paths::views(list@) =~= paths::views(was).push(path@));
    }
}

fn remove(list: &Vec<FilePath>, path: &FilePath) -> (r: Vec<FilePath>)
    ensures
        paths::views(r@) == without(paths::views(list@), path@),
{
    let mut out: Vec<FilePath> = Vec::new();
    let mut i: usize = 0;
    let ghost all = paths::views(list@);
    assert(paths::views(out@) =~= without(all.subrange(0, 0), path@));
    while i < list.len()
        invariant
            i <= list@.len(),
            all == paths::views(list@),
            paths::views(out@) == without(all.subrange(0, i as int), path@),
        decreases list@.len() - i,
    {
        assert(all.subrange(0, i as int + 1).drop_last() =~= all.subrange(0, i as int));
        assert(all[i as int] == list@[i as int]@);
        if !list[i].same(path) {
            let ghost had = out@;
            out.push(list[i].copy());
            assert(paths::views(out@) =~= paths::views(had).push(all[i as int]));
        }
        i += 1;
    }
    assert(all.subrange(0, i as int) =~= all);
    out
}

impl Thumbs {
    pub fn new() -> (r: Thumbs)
        ensures
            r.resident@.len() == 0,
            r.failed@.len() == 0,
            r.in_flight@.len() == 0,
            r.wanted@.len() == 0,
            r.frame == 0,
    {
        Thumbs {
            resident: Vec::new(),
            failed: Vec::new(),
            in_flight: Vec::new(),
            wanted: Vec::new(),
            frame: 0,
        }
    }

    fn place(&self, path: &FilePath) -> (r: Option<usize>)
        ensures
            match r {
                Some(i) => i < self.resident@.len() && on_shelf(shelf(self.resident@), path@, 0)
                    == Some(i as int),
                None => on_shelf(shelf(self.resident@), path@, 0) is None,
            },
    {
        let ghost all = shelf(self.resident@);
        let mut i: usize = 0;
        while i < self.resident.len()
            invariant
                i <= self.resident@.len(),
                all == shelf(self.resident@),
                on_shelf(all, path@, 0) == on_shelf(all, path@, i as int),
            decreases self.resident@.len() - i,
        {
            if self.resident[i].0.same(path) {
                return Some(i);
            }
            i += 1;
        }
        None
    }

    /// Whether a picture is asked for, on its way or beyond hope.
    pub open spec fn is_known(self, p: PathView) -> bool {
        paths::views(self.failed@).contains(p) || paths::views(self.in_flight@).contains(p)
            || paths::views(self.wanted@).contains(p)
    }

    /// Ask for a thumbnail, and say whether it is there now.
    ///
    /// Call it while drawing the cell: the request is what marks the asset as
    /// on-screen, and the answer is no until it has been through the worker
    /// and the device.
    pub fn get(&mut self, path: &FilePath) -> (r: bool)
        ensures
            r == (on_shelf(shelf(old(self).resident@), path@, 0) is Some),
            r ==> shelf(final(self).resident@) == drawn_in(
                shelf(old(self).resident@),
                path@,
                old(self).frame,
            ) && final(self).wanted == old(self).wanted,
            !r ==> final(self).resident == old(self).resident && paths::views(final(self).wanted@)
                == (if old(self).is_known(path@) {
                paths::views(old(self).wanted@)
            } else {
                paths::views(old(self).wanted@).push(path@)
            }),
            *final(self) == (Thumbs {
                resident: final(self).resident,
                wanted: final(self).wanted,
                ..*old(self)
            }),
    {
        let ghost was = shelf(self.resident@);
        match self.place(path) {
            Some(i) => {
                self.resident[i].1 = self.frame;
                assert(shelf(self.resident@) =~= was.update(i as int, (path@, self.frame))) by {
                    lemma_on_shelf(was, path@, 0);
                }
                true
            },
            None => {
                if !lists(&self.failed, path) && !lists(&self.in_flight, path) && !lists(
                    &self.wanted,
                    path,
                ) {
                    let ghost had = self.wanted@;
                    self.wanted.push(path.copy());
                    assert(paths::views(self.wanted@) =~= paths::views(had).push(path@));
                }
                false
            },
        }
    }

    /// True once a file has been tried and could not be drawn.
    pub fn is_failed(&self, path: &FilePath) -> (r: bool)
        ensures
            r == paths::views(self.failed@).contains(path@),
    {
        lists(&self.failed, path)
    }

    /// Drop what we know about one file, so a hot reload redraws it.
    pub fn forget(&mut self, path: &FilePath)
        ensures
            shelf(final(self).resident@) == shelf_without(shelf(old(self).resident@), path@),
            paths::views(final(self).failed@) == without(paths::views(old(self).failed@), path@),
            *final(self) == (Thumbs {
                resident: final(self).resident,
                failed: final(self).failed,
                ..*old(self)
            }),
    {
        let mut kept: Vec<(FilePath, u64)> = Vec::new();
        let ghost all = shelf(self.resident@);
        let mut i: usize = 0;
        assert(shelf(kept@) =~= shelf_without(all.subrange(0, 0), path@));
        while i < self.resident.len()
            invariant
                *self == *old(self),
                i <= self.resident@.len(),
                all == shelf(self.resident@),
                shelf(kept@) == shelf_without(all.subrange(0, i as int), path@),
            decreases self.resident@.len() - i,
        {
            assert(all.subrange(0, i as int + 1).drop_last() =~= all.subrange(0, i as int));
            let entry = &self.resident[i];
            assert(all[i as int] == (entry.0@, entry.1));
            if !entry.0.same(path) {
                let ghost had = kept@;
                kept.push((entry.0.copy(), entry.1));
                assert(shelf(kept@) =~= shelf(had).push(all[i as int]));
            }
            i += 1;
        }
        assert(all.subrange(0, i as int) =~= all);
        self.resident = kept;
        self.failed = remove(&self.failed, path);
    }

    /// Start a frame.
    pub fn begin_frame(&mut self)
        requires
            old(self).frame < u64::MAX,
        ensures
            *final(self) == (Thumbs { frame: (old(self).frame + 1) as u64, ..*old(self) }),
    {
        self.frame += 1;
    }

    /// Note that the worker is done with a file.
    pub fn arrived(&mut self, path: &FilePath)
        ensures
            paths::views(final(self).in_flight@) == without(
                paths::views(old(self).in_flight@),
                path@,
            ),
            *final(self) == (Thumbs { in_flight: final(self).in_flight, ..*old(self) }),
    {
        self.in_flight = remove(&self.in_flight, path);
    }

    /// Whether a meshed model may be drawn in this frame, after so many
    /// others. Out of budget it goes back to the front of the queue, so the
    /// next frame picks it up.
    pub fn may_draw(&mut self, path: &FilePath, drawn: usize) -> (r: bool)
        ensures
            r == (drawn < PER_FRAME),
            paths::views(final(self).wanted@) == (if r || paths::views(
                old(self).wanted@,
            ).contains(path@) {
                paths::views(old(self).wanted@)
            } else {
                seq![path@] + paths::views(old(self).wanted@)
            }),
            *final(self) == (Thumbs { wanted: final(self).wanted, ..*old(self) }),
    {
        if drawn < PER_FRAME {
            return true;
        }
        if !lists(&self.wanted, path) {
            let ghost was = self.wanted@;
            self.wanted.insert(0, path.copy());
            assert(paths::views(self.wanted@) =~= seq![path@] + paths::views(was));
        }
        false
    }

    /// Note that a file could not be drawn.
    pub fn fail(&mut self, path: &FilePath)
        ensures
            paths::views(final(self).failed@) == with(paths::views(old(self).failed@), path@),
            *final(self) == (Thumbs { failed: final(self).failed, ..*old(self) }),
    {
        keep(&mut self.failed, path);
    }

    /// Whether a picture of so many bytes is one to keep. Of the wrong size it
    /// is a failure.
    pub fn upload(&mut self, path: &FilePath, bytes: usize) -> (r: bool)
        ensures
            r == (bytes == PICTURE_BYTES),
            shelf(final(self).resident@) == (if r {
                drawn_in(shelf(old(self).resident@), path@, old(self).frame)
            } else {
                shelf(old(self).resident@)
            }),
            paths::views(final(self).failed@) == (if r {
                paths::views(old(self).failed@)
            } else {
                with(paths::views(old(self).failed@), path@)
            }),
            *final(self) == (Thumbs {
                resident: final(self).resident,
                failed: final(self).failed,
                ..*old(self)
            }),
    {
        if bytes != PICTURE_BYTES {
            self.fail(path);
            return false;
        }
        let ghost was = shelf(self.resident@);
        match self.place(path) {
            Some(i) => {
                self.resident[i].1 = self.frame;
                assert(shelf(self.resident@) =~= was.update(i as int, (path@, self.frame))) by {
                    lemma_on_shelf(was, path@, 0);
                }
            },
            None => {
                self.resident.push((path.copy(), self.frame));
                assert(shelf(self.resident@) =~= was.push((path@, self.frame)));
            },
        }
        true
    }

    /// The next file for the worker, while it has room for one.
    pub fn next_job(&mut self) -> (r: Option<FilePath>)
        ensures
            r is Some <==> old(self).in_flight@.len() < IN_FLIGHT && old(self).wanted@.len() > 0,
            match r {
                Some(p) => p == old(self).wanted@[0] && final(self).wanted@ == old(
                    self,
                ).wanted@.remove(0),
                None => final(self).wanted == old(self).wanted,
            },
            *final(self) == (Thumbs { wanted: final(self).wanted, ..*old(self) }),
    {
        if self.in_flight.len() < IN_FLIGHT && self.wanted.len() > 0 {
            Some(self.wanted.remove(0))
        } else {
            None
        }
    }

    /// Note that a file went to the worker.
    pub fn sent(&mut self, path: FilePath)
        ensures
            final(self).in_flight@ == old(self).in_flight@.push(path),
            *final(self) == (Thumbs { in_flight: final(self).in_flight, ..*old(self) }),
    {
        self.in_flight.push(path);
    }

    /// Drop what is still wanted: it was beyond this frame's budget. The cell
    /// will ask again next frame if it is still on screen, and if it is not,
    /// we have saved the work.
    pub fn end_frame(&mut self)
        ensures
            final(self).wanted@.len() == 0,
            *final(self) == (Thumbs { wanted: final(self).wanted, ..*old(self) }),
    {
        self.wanted.clear();
    }
}

proof fn lemma_on_shelf(list: Seq<(PathView, u64)>, p: PathView, from: int)
    ensures
        on_shelf(list, p, from) matches Some(i) ==> 0 <= i < list.len() && list[i].0 == p,
    decreases list.len() - from,
{
    if !(from < 0 || from >= list.len()) && list[from].0 != p {
        lemma_on_shelf(list, p, from + 1);
    }
}

/// Pictures by when they were last drawn, and then by path.
pub struct ByAge<'a> {
    pub resident: &'a Vec<(FilePath, u64)>,
}

impl Keyed for ByAge<'_> {
    open spec fn valid(&self, i: usize) -> bool {
        i < self.resident@.len()
    }

    open spec fn key(&self, i: usize) -> Seq<int> {
        seq![self.resident@[i as int].1 as int] + paths::path_key(self.resident@[i as int].0@)
    }

    fn le(&self, a: usize, b: usize) -> (r: bool) {
        let (x, y) = (&self.resident[a], &self.resident[b]);
        proof {
            let (f, g) = (self.key(a), self.key(b));
            assert(f.subrange(1, f.len() as int) =~= paths::path_key(x.0@));
            assert(g.subrange(1, g.len() as int) =~= paths::path_key(y.0@));
            order::lemma_lex_reflexive(paths::path_key(x.0@));
        }
        if x.1 != y.1 {
            return x.1 < y.1;
        }
        let c: i8 = paths::compare_paths(&x.0, &y.0);
        c <= 0
    }
}

/// The pictures at some places of a shelf.
pub open spec fn picked(list: Seq<(PathView, u64)>, at: Seq<usize>) -> Seq<(PathView, u64)> {
    Seq::new(at.len(), |i: int| list[at[i] as int])
}

/// The paths of some pictures.
pub open spec fn paths_on(list: Seq<(PathView, u64)>) -> Seq<PathView> {
    Seq::new(list.len(), |i: int| list[i].0)
}

/// Whether the pictures that went longest without being drawn were released,
/// as many as there were too many, and the rest kept.
pub open spec fn is_evicted(
    was: &Vec<(FilePath, u64)>,
    now: Seq<(PathView, u64)>,
    released: Seq<PathView>,
    by_age: Seq<usize>,
) -> bool {
    let n = was@.len() as int;
    let k = if n <= RESIDENT {
        0
    } else {
        n - RESIDENT
    };
    &&& order::is_sorted_from((ByAge { resident: was }), by_age, crate::selection::upto(n as nat))
    &&& released == paths_on(picked(shelf(was@), by_age.subrange(0, k)))
    &&& now == (if k == 0 {
        shelf(was@)
    } else {
        picked(shelf(was@), by_age.subrange(k, n))
    })
}

impl Thumbs {
    /// Release the textures that have gone longest without being drawn.
    pub fn evict(&mut self) -> (r: Vec<FilePath>)
        ensures
            exists|by_age: Seq<usize>| #[trigger]
                is_evicted(
                    &old(self).resident,
                    shelf(final(self).resident@),
                    paths::views(r@),
                    by_age,
                ),
            final(self).resident@.len() <= RESIDENT,
            *final(self) == (Thumbs { resident: final(self).resident, ..*old(self) }),
    {
        let n: usize = self.resident.len();
        let mut all: Vec<usize> = Vec::new();
        let mut i: usize = 0;
        while i < n
            invariant
                n == self.resident@.len(),
                i <= n,
                all@ == crate::selection::upto(i as nat),
            decreases n - i,
        {
            all.push(i);
            i += 1;
            assert(all@ =~= crate::selection::upto(i as nat));
        }
        let by = ByAge { resident: &self.resident };
        let sorted = order::sort(&by, &all, 0, n);
        assert(all@.subrange(0, n as int) =~= all@);
        let ghost was = shelf(self.resident@);
        let mut released: Vec<FilePath> = Vec::new();
        if n <= RESIDENT {
            assert(paths::views(released@) =~= paths_on(picked(was, sorted@.subrange(0, 0))));
            assert(is_evicted(
                &old(self).resident,
                shelf(self.resident@),
                paths::views(released@),
                sorted@,
            ));
            return released;
        }
        let k: usize = n - RESIDENT;
        let mut kept: Vec<(FilePath, u64)> = Vec::new();
        let mut j: usize = 0;
        assert(paths::views(released@) =~= paths_on(picked(was, sorted@.subrange(0, 0))));
        while j < k
            invariant
                *self == *old(self),
                k <= n,
                n == sorted@.len(),
                order::all_valid((ByAge { resident: &self.resident }), sorted@),
                was == shelf(self.resident@),
                j <= k,
                paths::views(released@) == paths_on(picked(was, sorted@.subrange(0, j as int))),
            decreases k - j,
        {
            let ghost had = released@;
            let by = ByAge { resident: &self.resident };
            assert(by.valid(sorted@[j as int]));
            released.push(self.resident[sorted[j]].0.copy());
            proof {
                assert(paths::views(released@) =~= paths::views(had).push(
                    was[sorted@[j as int] as int].0,
                ));
                assert(paths_on(picked(was, sorted@.subrange(0, j + 1))) =~= paths_on(
                    picked(was, sorted@.subrange(0, j as int)),
                ).push(was[sorted@[j as int] as int].0));
            }
            j += 1;
        }
        assert(shelf(kept@) =~= picked(was, sorted@.subrange(k as int, k as int)));
        while j < n
            invariant
                *self == *old(self),
                k <= j <= n,
                n == sorted@.len(),
                order::all_valid((ByAge { resident: &self.resident }), sorted@),
                was == shelf(self.resident@),
                kept@.len() == j - k,
                shelf(kept@) == picked(was, sorted@.subrange(k as int, j as int)),
            decreases n - j,
        {
            let ghost had = kept@;
            let by = ByAge { resident: &self.resident };
            assert(by.valid(sorted@[j as int]));
            let entry = &self.resident[sorted[j]];
            kept.push((entry.0.copy(), entry.1));
            proof {
                assert(shelf(kept@) =~= shelf(had).push(was[sorted@[j as int] as int]));
                assert(picked(was, sorted@.subrange(k as int, j + 1)) =~= picked(
                    was,
                    sorted@.subrange(k as int, j as int),
                ).push(was[sorted@[j as int] as int]));
            }
            j += 1;
        }
        self.resident = kept;
        assert(is_evicted(
            &old(self).resident,
            shelf(self.resident@),
            paths::views(released@),
            sorted@,
        ));
        released
    }
}

// ---- what the cache promises ------------------------------------------------
proof fn lemma_folded_joined(hash: u64, a: Seq<u8>, b: Seq<u8>)
    ensures
        folded(hash, a + b) == folded(folded(hash, a), b),
    decreases b.len(),
{
    if b.len() == 0 {
        assert(a + b =~= a);
    } else {
        lemma_folded_joined(hash, a, b.drop_last());
        assert((a + b).drop_last() =~= a + b.drop_last());
    }
}

/// The number that little-endian bytes stand for.
pub open spec fn number_in(bytes: Seq<u8>) -> int
    decreases bytes.len(),
{
    if bytes.len() == 0 {
        0
    } else {
        bytes[0] + 256 * number_in(bytes.subrange(1, bytes.len() as int))
    }
}

/// 256 to a power.
pub open spec fn byte_room(n: nat) -> int
    decreases n,
{
    if n == 0 {
        1
    } else {
        256 * byte_room((n - 1) as nat)
    }
}

proof fn lemma_bytes_hold_the_number(v: int, n: nat)
    requires
        0 <= v < byte_room(n),
    ensures
        little_endian(v, n).len() == n,
        number_in(little_endian(v, n)) == v,
    decreases n,
{
    if n > 0 {
        lemma_bytes_hold_the_number(v / 256, (n - 1) as nat);
        let all = little_endian(v, n);
        assert(all.subrange(1, all.len() as int) =~= little_endian(v / 256, (n - 1) as nat));
    }
}

/// The number that hexadecimal digits stand for, the highest first.
pub open spec fn hex_value(s: Seq<char>) -> int
    decreases s.len(),
{
    if s.len() == 0 {
        0
    } else {
        let c = s.last() as u32;
        16 * hex_value(s.drop_last()) + if 48 <= c <= 57 {
            c - 48
        } else {
            c - 87
        }
    }
}

/// 16 to a power.
pub open spec fn hex_room(n: nat) -> int
    decreases n,
{
    if n == 0 {
        1
    } else {
        16 * hex_room((n - 1) as nat)
    }
}

proof fn lemma_digits_hold_the_number(v: int, n: nat)
    requires
        0 <= v < hex_room(n),
    ensures
        hex(v, n).len() == n,
        hex_value(hex(v, n)) == v,
        forall|i: int| 0 <= i < n ==> '0' <= #[trigger] hex(v, n)[i] <= '9' || 'a' <= hex(v, n)[i]
            <= 'f',
    decreases n,
{
    if n > 0 {
        lemma_digits_hold_the_number(v / 16, (n - 1) as nat);
        let all = hex(v, n);
        assert(all.drop_last() =~= hex(v / 16, (n - 1) as nat));
        assert forall|i: int| 0 <= i < n implies '0' <= #[trigger] all[i] <= '9' || 'a' <= all[i]
            <= 'f' by {
            if i < n - 1 {
                assert(all[i] == hex(v / 16, (n - 1) as nat)[i]);
            }
        }
    }
}

/// A picture is kept under a name that its file's path, length and time decide:
/// sixteen hexadecimal digits for the bytes of all three, one after another,
/// then the size it was drawn at.
pub proof fn lemma_a_name_is_made_of_all_three(path: Seq<char>, len: u64, stamp: u128)
    ensures
        ({
            let name = name_for(path, len, stamp);
            exists|bytes: Seq<u8>|
                {
                    let at = vstd::utf8::encode_utf8(path).len() as int;
                    &&& bytes.len() == at + 24
                    &&& bytes.subrange(0, at) == vstd::utf8::encode_utf8(path)
                    &&& number_in(bytes.subrange(at, at + 8)) == len
                    &&& number_in(bytes.subrange(at + 8, at + 24)) == stamp
                    &&& hex_value(name.subrange(0, 16)) == #[trigger] folded(
                        0xcbf2_9ce4_8422_2325,
                        bytes,
                    )
                }
        }),
        name_for(path, len, stamp).subrange(16, name_for(path, len, stamp).len() as int)
            == "-128.png"@,
{
    reveal_with_fuel(byte_room, 17);
    reveal_with_fuel(hex_room, 17);
    let (p, l, s) = (
        vstd::utf8::encode_utf8(path),
        little_endian(len as int, 8),
        little_endian(stamp as int, 16),
    );
    lemma_bytes_hold_the_number(len as int, 8);
    lemma_bytes_hold_the_number(stamp as int, 16);
    let start = 0xcbf2_9ce4_8422_2325u64;
    lemma_folded_joined(start, p, l);
    lemma_folded_joined(start, p + l, s);
    let bytes = p + l + s;
    let key = key_of(path, len, stamp);
    assert(key == folded(start, bytes));
    let at = p.len() as int;
    assert(bytes.subrange(0, at) =~= p);
    assert(bytes.subrange(at, at + 8) =~= l);
    assert(bytes.subrange(at + 8, at + 24) =~= s);
    lemma_digits_hold_the_number(key as int, 16);
    let name = name_for(path, len, stamp);
    assert(name.subrange(0, 16) =~= hex(key as int, 16));
    assert(name.subrange(16, name.len() as int) =~= "-128.png"@);
}

/// One byte is mixed in by flipping with it and then multiplying, the excess
/// over 64 bits dropped.
pub proof fn lemma_a_byte_is_mixed_in(hash: u64, bytes: Seq<u8>, byte: u8)
    ensures
        folded(hash, Seq::empty()) == hash,
        folded(hash, bytes.push(byte)) == ((folded(hash, bytes) ^ (byte as u64))
            * 0x100_0000_01b3) % 0x1_0000_0000_0000_0000,
{
    assert(bytes.push(byte).drop_last() =~= bytes);
}

/// What counts as a picture of the cache: sixteen hexadecimal digits, a dash, a
/// number and the extension, and nothing else.
pub proof fn lemma_only_own_names_are_swept(head: Seq<char>, tail: Seq<char>, name: Seq<char>)
    requires
        name == head + seq!['-'] + tail + seq!['.', 'p', 'n', 'g'],
        !head.contains('-'),
    ensures
        is_own_name(name) <==> {
            &&& head.len() == 16
            &&& tail.len() > 0
            &&& forall|i: int|
                0 <= i < head.len() ==> '0' <= #[trigger] head[i] <= '9' || 'a' <= head[i] <= 'f'
                    || 'A' <= head[i] <= 'F'
            &&& forall|i: int| 0 <= i < tail.len() ==> '0' <= #[trigger] tail[i] <= '9'
        },
{
    reveal_strlit(".png");
    assert(seq!['.', 'p', 'n', 'g'] =~= ".png"@);
    let n = name.len() as int;
    assert(name.subrange(n - 4, n) =~= ".png"@);
    text::lemma_find(name, '-');
    let dash = text::find(name, '-');
    assert(name[head.len() as int] == '-');
    assert(dash == head.len()) by {
        if dash < head.len() {
            assert(name[dash] == head[dash]);
            assert(head.contains('-'));
        }
    }
    assert forall|i: int| 0 <= i < head.len() implies name[i] == head[i] by {}
    assert forall|i: int| 0 <= i < tail.len() implies name[head.len() + 1 + i] == tail[i] by {}
    if is_own_name(name) {
        assert forall|i: int| 0 <= i < head.len() implies '0' <= #[trigger] head[i] <= '9' || 'a'
            <= head[i] <= 'f' || 'A' <= head[i] <= 'F' by {
            assert(is_hex(name[i]));
        }
        assert forall|i: int| 0 <= i < tail.len() implies '0' <= #[trigger] tail[i] <= '9' by {
            assert(text::is_digit(name[17 + i]));
        }
    }
    if head.len() == 16 && (forall|i: int| 0 <= i < tail.len() ==> '0' <= #[trigger] tail[i] <= '9') {
        assert forall|i: int| 17 <= i < n - 4 implies text::is_digit(#[trigger] name[i]) by {
            assert(name[i] == tail[i - 17]);
        }
    }
}

/// A sweep goes on as long as more is kept than the budget and something is
/// left that may go, and no longer.
pub proof fn lemma_a_sweep_goes_on_while_over_budget(sweep: Sweep)
    ensures
        sweep.out.kept_bytes <= sweep.budget ==> !sweep.is_over(),
        sweep.queue@.len() == 0 ==> !sweep.is_over(),
        sweep.out.kept_bytes > sweep.budget && sweep.queue@.len() > 0 ==> sweep.is_over(),
{
}

/// Keeping a path adds that path alone, and once; taking it out takes it alone.
pub proof fn lemma_lists_hold_each_path_once(list: Seq<PathView>, p: PathView, x: PathView)
    requires
        list.no_duplicates(),
    ensures
        with(list, p).contains(x) <==> list.contains(x) || x == p,
        with(list, p).no_duplicates(),
        without(list, p).contains(x) <==> list.contains(x) && x != p,
        without(list, p).no_duplicates(),
    decreases list.len(),
{
    if !list.contains(p) {
        let more = list.push(p);
        assert(more[list.len() as int] == p);
        if list.contains(x) {
            let k = choose|k: int| 0 <= k < list.len() && list[k] == x;
            assert(more[k] == x);
        }
    }
    lemma_taking_out(list, p);
}

proof fn lemma_taking_out(list: Seq<PathView>, p: PathView)
    ensures
        forall|x: PathView| #[trigger]
            without(list, p).contains(x) <==> list.contains(x) && x != p,
        list.no_duplicates() ==> without(list, p).no_duplicates(),
    decreases list.len(),
{
    if list.len() > 0 {
        let rest = list.drop_last();
        lemma_taking_out(rest, p);
        let before = without(rest, p);
        let out = without(list, p);
        assert forall|x: PathView| #[trigger] out.contains(x) <==> list.contains(x) && x != p by {
            if list.contains(x) && x != p {
                let k = choose|k: int| 0 <= k < list.len() && list[k] == x;
                if k < rest.len() {
                    assert(rest[k] == x);
                    assert(before.contains(x));
                    let j = choose|j: int| 0 <= j < before.len() && before[j] == x;
                    assert(out[j] == x);
                } else {
                    assert(out[out.len() - 1] == x);
                }
            }
            if out.contains(x) {
                let j = choose|j: int| 0 <= j < out.len() && out[j] == x;
                if j < before.len() {
                    assert(before[j] == x);
                    assert(before.contains(x));
                    let k = choose|k: int| 0 <= k < rest.len() && rest[k] == x;
                    assert(list[k] == x);
                } else {
                    assert(list[list.len() - 1] == x);
                }
            }
        }
        if list.no_duplicates() {
            assert(rest.no_duplicates());
            if list.last() != p {
                if before.contains(list.last()) {
                    assert(rest.contains(list.last()));
                    let k = choose|k: int| 0 <= k < rest.len() && rest[k] == list.last();
                    assert(list[k] == list[list.len() - 1]);
                }
                assert(out.no_duplicates());
            }
        }
    }
}

/// Drawing a picture marks it with the frame and leaves the others; one that
/// was not there is added.
pub proof fn lemma_drawing_marks_one_picture(
    list: Seq<(PathView, u64)>,
    p: PathView,
    frame: u64,
    i: int,
)
    requires
        0 <= i < drawn_in(list, p, frame).len(),
    ensures
        drawn_in(list, p, frame)[i].0 != p ==> i < list.len() && drawn_in(list, p, frame)[i]
            == list[i],
        i < list.len() ==> drawn_in(list, p, frame)[i].0 == list[i].0,
        drawn_in(list, p, frame).contains((p, frame)),
        (forall|k: int| 0 <= k < list.len() ==> (#[trigger] list[k]).0 != p) ==> drawn_in(
            list,
            p,
            frame,
        ).len() == list.len() + 1,
        (exists|k: int| 0 <= k < list.len() && (#[trigger] list[k]).0 == p) ==> drawn_in(
            list,
            p,
            frame,
        ).len() == list.len(),
{
    lemma_first_on_shelf(list, p, 0);
    match on_shelf(list, p, 0) {
        Some(k) => {
            assert(drawn_in(list, p, frame)[k] == (p, frame));
        },
        None => {
            assert(drawn_in(list, p, frame)[list.len() as int] == (p, frame));
        },
    }
}

proof fn lemma_first_on_shelf(list: Seq<(PathView, u64)>, p: PathView, from: int)
    requires
        0 <= from <= list.len(),
    ensures
        match on_shelf(list, p, from) {
            Some(i) => from <= i < list.len() && list[i].0 == p,
            None => forall|k: int| from <= k < list.len() ==> (#[trigger] list[k]).0 != p,
        },
    decreases list.len() - from,
{
    if from < list.len() && list[from].0 != p {
        lemma_first_on_shelf(list, p, from + 1);
    }
}

/// Forgetting a path takes every picture of it and no other.
pub proof fn lemma_forgetting_takes_one_path(
    list: Seq<(PathView, u64)>,
    p: PathView,
    x: (PathView, u64),
)
    ensures
        shelf_without(list, p).contains(x) <==> list.contains(x) && x.0 != p,
    decreases list.len(),
{
    if list.len() > 0 {
        let rest = list.drop_last();
        lemma_forgetting_takes_one_path(rest, p, x);
        let (before, out) = (shelf_without(rest, p), shelf_without(list, p));
        if list.contains(x) && x.0 != p {
            let k = choose|k: int| 0 <= k < list.len() && list[k] == x;
            if k < rest.len() {
                assert(rest[k] == x);
                let j = choose|j: int| 0 <= j < before.len() && before[j] == x;
                assert(out[j] == x);
            } else {
                assert(out[out.len() - 1] == x);
            }
        }
        if out.contains(x) {
            let j = choose|j: int| 0 <= j < out.len() && out[j] == x;
            if j < before.len() {
                assert(before[j] == x);
                let k = choose|k: int| 0 <= k < rest.len() && rest[k] == x;
                assert(list[k] == x);
            } else {
                assert(list[list.len() - 1] == x);
            }
        }
    }
}

/// At most 1024 pictures are held. Where there are more, just so many go, and
/// none that goes was drawn after one that stays.
pub proof fn lemma_the_longest_unseen_go(
    was: &Vec<(FilePath, u64)>,
    now: Seq<(PathView, u64)>,
    released: Seq<PathView>,
    by_age: Seq<usize>,
)
    requires
        is_evicted(was, now, released, by_age),
    ensures
        was@.len() <= 1024 ==> released.len() == 0 && now == shelf(was@),
        was@.len() > 1024 ==> now.len() == 1024 && released.len() == was@.len() - 1024,
        was@.len() > 1024 ==> forall|i: int, j: int|
            0 <= i < released.len() && 0 <= j < now.len() ==> #[trigger] was@[by_age[i] as int].1
                <= (#[trigger] now[j]).1 && released[i] == was@[by_age[i] as int].0@,
{
    let n = was@.len() as int;
    let k = n - 1024;
    let age = ByAge { resident: was };
    if n > 1024 {
        let all = crate::selection::upto(n as nat);
        order::lemma_sorting_keeps_the_items(age, by_age, all);
        assert(was.len() == n);
        assert forall|i: int| 0 <= i < n implies (#[trigger] by_age[i]) < n by {
            assert(by_age.contains(by_age[i]));
            assert(all.contains(by_age[i]));
        }
        assert forall|i: int, j: int|
            0 <= i < released.len() && 0 <= j < now.len() implies #[trigger] was@[by_age[i] as int].1
            <= (#[trigger] now[j]).1 && released[i] == was@[by_age[i] as int].0@ by {
            assert(by_age.subrange(0, k)[i] == by_age[i]);
            assert(by_age.subrange(k, n)[j] == by_age[k + j]);
            assert(order::lex_le(age.key(by_age[i]), age.key(by_age[k + j])));
            assert(age.key(by_age[i])[0] == was@[by_age[i] as int].1);
            assert(age.key(by_age[k + j])[0] == was@[by_age[k + j] as int].1);
        }
    }
}

} // verus!
