//! Watching the open file so edits show up without a reload.

use vstd::prelude::*;

use crate::paths;
use crate::paths::{FilePath, PathView};

verus! {

/// How long the file has to stay quiet before we re-read it, in milliseconds.
/// Editors and exporters write in several bursts; 100 ms is long enough to
/// coalesce those and short enough to feel immediate.
pub const DEBOUNCE: u64 = 100;

/// What a notification from the file system is about.
#[derive(Clone, Copy, Debug, PartialEq, Eq, Structural)]
pub enum Change {
    Create,
    Modify,
    Remove,
    Other,
}

/// The debouncing of a single file's changes.
pub struct FileWatcher {
    pub path: FilePath,
    /// When the most recent event arrived, if one is still settling.
    pub pending: Option<u64>,
}

impl FileWatcher {
    pub fn new(path: FilePath) -> (r: FileWatcher)
        ensures
            r == (FileWatcher { path, pending: None }),
    {
        FileWatcher { path, pending: None }
    }

    /// The directory to watch.
    ///
    /// The *directory* is watched rather than the file, because a great many
    /// tools save by writing a temporary file and renaming it over the
    /// original. That replaces the inode, and a watch on the file itself would
    /// be left pointing at the old one.
    pub fn dir(&self) -> (r: FilePath)
        ensures
            r@ == paths::root_of(self.path@, false),
    {
        paths::browse_root(&self.path, false)
    }

    pub fn path(&self) -> (r: &FilePath)
        ensures
            *r == self.path,
    {
        &self.path
    }

    /// When the last event that is still settling arrived, once some more may
    /// have arrived now.
    pub open spec fn settling(self, arrived: bool, now: u64) -> Option<u64> {
        if arrived {
            Some(now)
        } else {
            self.pending
        }
    }

    /// Call once a frame, with whether anything arrived since the last one and
    /// the time in milliseconds. Returns true when the file has changed and
    /// then stayed still for [`DEBOUNCE`].
    pub fn poll(&mut self, arrived: bool, now: u64) -> (r: bool)
        ensures
            r == (old(self).settling(arrived, now) matches Some(at) && now - at >= DEBOUNCE),
            arrived ==> !r,
            !arrived ==> (r <==> (old(self).pending matches Some(at) && now - at >= 100)),
            final(self).path == old(self).path,
            final(self).pending == (if r {
                None
            } else {
                old(self).settling(arrived, now)
            }),
    {
        if arrived {
            self.pending = Some(now);
        }
        match self.pending {
            Some(at) => if now >= at && now - at >= DEBOUNCE {
                self.pending = None;
                true
            } else {
                false
            },
            None => false,
        }
    }
}

/// While events keep arriving nothing is re-read.
pub proof fn lemma_a_busy_file_is_left_alone(w: FileWatcher, now: u64)
    ensures
        !(w.settling(true, now) matches Some(at) && now - at >= DEBOUNCE),
{
}

/// A change is reported once: after that nothing is pending until the next.
pub proof fn lemma_a_change_is_reported_once(w: FileWatcher, later: u64)
    requires
        w.pending is None,
    ensures
        w.settling(false, later) is None,
{
}

/// Whether two file names are the same without regard to ASCII case.
pub open spec fn same_name(a: Option<Seq<char>>, b: Option<Seq<char>>) -> bool {
    a matches Some(x) && b matches Some(y) && paths::same_ignoring_case(x, y)
}

/// Whether two paths are taken for one file.
pub open spec fn is_same(
    a: PathView,
    b: PathView,
    canonical_a: PathView,
    canonical_b: PathView,
) -> bool {
    a == b || canonical_a == canonical_b || same_name(a.file_name(), b.file_name())
}

/// Compare paths tolerantly: events may or may not arrive canonicalised, and
/// on Windows they may differ in case or in the `\\?\` prefix.
pub fn same_file(
    a: &FilePath,
    b: &FilePath,
    canonical_a: &FilePath,
    canonical_b: &FilePath,
) -> (r: bool)
    ensures
        r == is_same(a@, b@, canonical_a@, canonical_b@),
{
    if a.same(b) {
        return true;
    }
    if canonical_a.same(canonical_b) {
        return true;
    }
    // A rename-into-place may report the temporary name; fall back to the
    // final component so those still trigger a reload.
    match a.file_name() {
        Some(x) => match b.file_name() {
            Some(y) => paths::equal_ignoring_case(x.as_str(), y.as_str()),
            None => false,
        },
        None => false,
    }
}

/// A path in a notification, as it is named and as the system resolves it.
pub struct Named {
    pub path: FilePath,
    pub canonical: FilePath,
}

/// Whether a notification is about a file: something was created, changed or
/// removed, and one of the paths is taken for it.
pub fn concerns(change: Change, named: &Vec<Named>, target: &Named) -> (r: bool)
    ensures
        r == (change != Change::Other && exists|i: int|
            0 <= i < named@.len() && is_same(
                (#[trigger] named@[i]).path@,
                target.path@,
                named@[i].canonical@,
                target.canonical@,
            )),
{
    if let Change::Other = change {
        return false;
    }
    let mut i: usize = 0;
    while i < named.len()
        invariant
            change != Change::Other,
            i <= named@.len(),
            forall|k: int|
                0 <= k < i ==> !is_same(
                    (#[trigger] named@[k]).path@,
                    target.path@,
                    named@[k].canonical@,
                    target.canonical@,
                ),
        decreases named@.len() - i,
    {
        if same_file(&named[i].path, &target.path, &named[i].canonical, &target.canonical) {
            return true;
        }
        i += 1;
    }
    false
}

} // verus!
