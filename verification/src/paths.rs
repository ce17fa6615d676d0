//! Paths as lists of components.
//!
//! What the operating system calls a path is taken apart outside; here a path
//! is the components that an absolute path begins with, then the names.

use vstd::prelude::*;

use crate::names;
use crate::order;
use crate::text;

verus! {

/// A path: its anchor (the root directory and, on some systems, a drive; empty
/// for a relative path) and the names below it.
#[derive(Clone, Debug, PartialEq, Eq)]
pub struct FilePath {
    pub anchor: Vec<String>,
    pub names: Vec<String>,
}

/// A path, as texts.
#[verifier::ext_equal]
pub struct PathView {
    pub anchor: Seq<Seq<char>>,
    pub names: Seq<Seq<char>>,
}

impl View for FilePath {
    type V = PathView;

    open spec fn view(&self) -> PathView {
        PathView { anchor: text::texts(self.anchor@), names: text::texts(self.names@) }
    }
}

/// Paths as texts.
pub open spec fn views(v: Seq<FilePath>) -> Seq<PathView> {
    Seq::new(v.len(), |i: int| v[i]@)
}

/// Whether a name stands for a directory rather than naming one.
pub open spec fn is_dots(s: Seq<char>) -> bool {
    s == seq!['.'] || s == seq!['.', '.']
}

fn dots(s: &String) -> (r: bool)
    ensures
        r == is_dots(s@),
{
    let c = text::chars_of(s.as_str());
    let one = c.len() == 1 && c[0] == '.';
    let two = c.len() == 2 && c[0] == '.' && c[1] == '.';
    proof {
        if one {
            assert(s@ =~= seq!['.']);
        }
        if two {
            assert(s@ =~= seq!['.', '.']);
        }
    }
    one || two
}

/// Where the last dot of a name stands, or -1 where there is none.
pub open spec fn last_dot(s: Seq<char>) -> int
    decreases s.len(),
{
    if s.len() == 0 {
        -1
    } else if s.last() == '.' {
        s.len() - 1
    } else {
        last_dot(s.drop_last())
    }
}

/// A file name without its extension. A name that only begins with a dot has none.
pub open spec fn stem_of(s: Seq<char>) -> Seq<char> {
    let dot = last_dot(s);
    if dot >= 1 {
        s.subrange(0, dot)
    } else {
        s
    }
}

/// The extension of a file name, if it has one.
pub open spec fn extension_of(s: Seq<char>) -> Option<Seq<char>> {
    let dot = last_dot(s);
    if dot >= 1 {
        Some(s.subrange(dot + 1, s.len() as int))
    } else {
        None
    }
}

/// Texts with a slash between them.
pub open spec fn slashed(parts: Seq<Seq<char>>) -> Seq<char>
    decreases parts.len(),
{
    if parts.len() == 0 {
        Seq::empty()
    } else if parts.len() == 1 {
        parts[0]
    } else {
        slashed(parts.drop_last()) + seq!['/'] + parts.last()
    }
}

pub open spec fn joined(parts: Seq<Seq<char>>) -> Seq<char>
    decreases parts.len(),
{
    if parts.len() == 0 {
        Seq::empty()
    } else {
        joined(parts.drop_last()) + parts.last()
    }
}

impl PathView {
    /// The directory a path lies in: none where there is no name to take off.
    pub open spec fn parent(self) -> Option<PathView> {
        if self.names.len() == 0 {
            None
        } else {
            Some(PathView { anchor: self.anchor, names: self.names.drop_last() })
        }
    }

    /// The last name, unless it only stands for a directory.
    pub open spec fn file_name(self) -> Option<Seq<char>> {
        if self.names.len() == 0 || is_dots(self.names.last()) {
            None
        } else {
            Some(self.names.last())
        }
    }

    /// The last name without its extension.
    pub open spec fn stem(self) -> Option<Seq<char>> {
        match self.file_name() {
            Some(n) => Some(stem_of(n)),
            None => None,
        }
    }

    /// Whether this path begins with all of another.
    pub open spec fn under(self, root: PathView) -> bool {
        &&& self.anchor == root.anchor
        &&& root.names.len() <= self.names.len()
        &&& self.names.subrange(0, root.names.len() as int) == root.names
    }

    /// The path below a root with slashes between its names, or the whole path
    /// where it is not below it.
    pub open spec fn relative_to(self, root: PathView) -> Seq<char> {
        if self.under(root) {
            slashed(self.names.subrange(root.names.len() as int, self.names.len() as int))
        } else {
            slashed(self.anchor + self.names)
        }
    }

    /// The path as text.
    pub open spec fn as_text(self) -> Seq<char> {
        joined(self.anchor) + slashed(self.names)
    }

    /// What a directory is called: its last name, or all of it where that names nothing.
    pub open spec fn title(self) -> Seq<char> {
        match self.file_name() {
            Some(n) => n,
            None => self.as_text(),
        }
    }

    pub open spec fn is_nothing(self) -> bool {
        self.anchor.len() == 0 && self.names.len() == 0
    }
}

fn push_joined(out: &mut String, parts: &Vec<String>)
    ensures
        final(out)@ == old(out)@ + joined(text::texts(parts@)),
{
    let ghost all = text::texts(parts@);
    let ghost before = out@;
    let mut i: usize = 0;
    assert(all.subrange(0, 0) =~= Seq::empty());
    assert(before + joined(all.subrange(0, 0)) =~= before);
    while i < parts.len()
        invariant
            i <= parts@.len(),
            all == text::texts(parts@),
            out@ == before + joined(all.subrange(0, i as int)),
        decreases parts@.len() - i,
    {
        let ghost upto = all.subrange(0, i as int + 1);
        text::push_str(out, parts[i].as_str());
        assert(upto.drop_last() =~= all.subrange(0, i as int));
        assert(out@ =~= before + joined(upto));
        i += 1;
    }
    assert(all.subrange(0, i as int) =~= all);
}

fn push_slashed(out: &mut String, parts: &Vec<String>, from: usize)
    requires
        from <= parts@.len(),
    ensures
        final(out)@ == old(out)@ + slashed(
            text::texts(parts@).subrange(from as int, parts@.len() as int),
        ),
{
    let ghost all = text::texts(parts@);
    let ghost before = out@;
    let mut i: usize = from;
    assert(all.subrange(from as int, from as int) =~= Seq::empty());
    assert(before + slashed(all.subrange(from as int, from as int)) =~= before);
    while i < parts.len()
        invariant
            from <= i <= parts@.len(),
            all == text::texts(parts@),
            out@ == before + slashed(all.subrange(from as int, i as int)),
        decreases parts@.len() - i,
    {
        let ghost upto = all.subrange(from as int, i as int + 1);
        if i > from {
            out.push('/');
        }
        text::push_str(out, parts[i].as_str());
        proof {
            assert(upto.drop_last() =~= all.subrange(from as int, i as int));
            assert(out@ =~= before + slashed(upto));
        }
        i += 1;
    }
    assert(all.subrange(from as int, i as int) =~= all.subrange(from as int, all.len() as int));
}

impl FilePath {
    pub fn copy(&self) -> (r: FilePath)
        ensures
            r@ == self@,
    {
        FilePath {
            anchor: text::copy_strings(&self.anchor),
            names: text::copy_strings(&self.names),
        }
    }

    pub fn same(&self, other: &FilePath) -> (r: bool)
        ensures
            r <==> self@ == other@,
    {
        text::same_strings(&self.names, &other.names) && text::same_strings(
            &self.anchor,
            &other.anchor,
        )
    }

    /// The directory a path lies in.
    pub fn parent(&self) -> (r: Option<FilePath>)
        ensures
            match r {
                Some(p) => self@.parent() == Some(p@),
                None => self@.parent() is None,
            },
    {
        if self.names.len() == 0 {
            return None;
        }
        let mut p = self.copy();
        let ghost before = p.names@;
        p.names.pop();
        assert(text::texts(p.names@) =~= text::texts(before).drop_last());
        Some(p)
    }

    /// The last name, unless it only stands for a directory.
    pub fn file_name(&self) -> (r: Option<String>)
        ensures
            match r {
                Some(n) => self@.file_name() == Some(n@),
                None => self@.file_name() is None,
            },
    {
        if self.names.len() == 0 {
            return None;
        }
        let last = &self.names[self.names.len() - 1];
        assert(self@.names.last() == last@);
        if dots(last) {
            None
        } else {
            Some(last.clone())
        }
    }

    /// The last name without its extension.
    pub fn stem(&self) -> (r: Option<String>)
        ensures
            match r {
                Some(n) => self@.stem() == Some(n@),
                None => self@.stem() is None,
            },
    {
        match self.file_name() {
            Some(n) => {
                let s = text::chars_of(n.as_str());
                let dot: usize = dot_before(&s);
                if dot >= 2 {
                    Some(text::string_of(&text::slice(&s, 0, dot - 1)))
                } else {
                    Some(n)
                }
            },
            None => None,
        }
    }

    /// The path below a root with slashes between its names, or the whole path
    /// where it is not below it.
    pub fn relative_to(&self, root: &FilePath) -> (r: String)
        ensures
            r@ == self@.relative_to(root@),
    {
        let mut out = String::new();
        let n: usize = root.names.len();
        if n <= self.names.len() && text::same_strings(&self.anchor, &root.anchor) && begins_with(
            &self.names,
            &root.names,
        ) {
            push_slashed(&mut out, &self.names, n);
            assert(out@ =~= self@.relative_to(root@));
        } else {
            let mut parts = text::copy_strings(&self.anchor);
            let mut names = text::copy_strings(&self.names);
            parts.append(&mut names);
            push_slashed(&mut out, &parts, 0);
            proof {
                let all = text::texts(parts@);
                assert(all =~= self@.anchor + self@.names);
                assert(all.subrange(0, all.len() as int) =~= all);
                assert(out@ =~= slashed(all));
            }
        }
        out
    }

    /// What a directory is called: its last name, or all of it where that names nothing.
    pub fn title(&self) -> (r: String)
        ensures
            r@ == self@.title(),
    {
        match self.file_name() {
            Some(n) => n,
            None => self.to_text(),
        }
    }

    /// The path as text.
    pub fn to_text(&self) -> (r: String)
        ensures
            r@ == self@.as_text(),
    {
        let mut out = String::new();
        push_joined(&mut out, &self.anchor);
        push_slashed(&mut out, &self.names, 0);
        proof {
            let all = self@.names;
            assert(all.subrange(0, all.len() as int) =~= all);
            assert(out@ =~= self@.as_text());
        }
        out
    }
}

/// One past the last dot of a name; nothing where there is none.
fn dot_before(s: &Vec<char>) -> (r: usize)
    ensures
        r == last_dot(s@) + 1,
        r <= s@.len(),
{
    let mut i: usize = s.len();
    assert(s@.subrange(0, i as int) =~= s@);
    while i > 0 && s[i - 1] != '.'
        invariant
            i <= s@.len(),
            last_dot(s@.subrange(0, i as int)) == last_dot(s@),
        decreases i,
    {
        assert(s@.subrange(0, i as int).drop_last() =~= s@.subrange(0, i as int - 1));
        i -= 1;
    }
    i
}

fn begins_with(a: &Vec<String>, b: &Vec<String>) -> (r: bool)
    requires
        b@.len() <= a@.len(),
    ensures
        r <==> text::texts(a@).subrange(0, b@.len() as int) == text::texts(b@),
{
    let mut i: usize = 0;
    let ghost (s, t) = (text::texts(a@).subrange(0, b@.len() as int), text::texts(b@));
    while i < b.len()
        invariant
            b@.len() <= a@.len(),
            i <= b@.len(),
            s == text::texts(a@).subrange(0, b@.len() as int),
            t == text::texts(b@),
            forall|k: int| 0 <= k < i ==> s[k] == t[k],
        decreases b@.len() - i,
    {
        assert(s[i as int] == a@[i as int]@ && t[i as int] == b@[i as int]@);
        if a[i] != b[i] {
            return false;
        }
        i += 1;
    }
    assert(s =~= t);
    true
}

/// Whether two texts are the same without regard to ASCII case.
pub open spec fn same_ignoring_case(a: Seq<char>, b: Seq<char>) -> bool {
    a.len() == b.len() && forall|i: int|
        0 <= i < a.len() ==> lower_char(#[trigger] a[i]) == lower_char(b[i])
}

/// A character in lower case, where it is an ASCII letter.
pub open spec fn lower_char(c: char) -> char {
    if 'A' <= c <= 'Z' {
        (c as u32 + 32) as char
    } else {
        c
    }
}

pub fn ascii_lower(c: char) -> (r: char)
    ensures
        r == lower_char(c),
{
    if 'A' <= c && c <= 'Z' {
        (c as u8 + 32) as char
    } else {
        c
    }
}

/// Whether two texts are the same without regard to ASCII case.
pub fn equal_ignoring_case(a: &str, b: &str) -> (r: bool)
    ensures
        r == same_ignoring_case(a@, b@),
{
    let (s, t) = (text::chars_of(a), text::chars_of(b));
    if s.len() != t.len() {
        return false;
    }
    let mut i: usize = 0;
    while i < s.len()
        invariant
            s@ == a@,
            t@ == b@,
            s@.len() == t@.len(),
            i <= s@.len(),
            forall|k: int| 0 <= k < i ==> lower_char(#[trigger] a@[k]) == lower_char(b@[k]),
        decreases s@.len() - i,
    {
        if ascii_lower(s[i]) != ascii_lower(t[i]) {
            assert(lower_char(a@[i as int]) != lower_char(b@[i as int]));
            return false;
        }
        i += 1;
    }
    true
}

/// Whether a path has the extension `vox`, in any case.
pub open spec fn has_vox_extension(p: PathView) -> bool {
    p.file_name() matches Some(n) && extension_of(n) matches Some(e) && same_ignoring_case(
        e,
        seq!['v', 'o', 'x'],
    )
}

/// Whether a path has the extension `vox`, in any case.
pub fn is_vox(path: &FilePath) -> (r: bool)
    ensures
        r == has_vox_extension(path@),
{
    match path.file_name() {
        Some(n) => {
            let s = text::chars_of(n.as_str());
            let dot: usize = dot_before(&s);
            if dot < 2 {
                return false;
            }
            let ghost e = s@.subrange(dot as int, s@.len() as int);
            if s.len() - dot != 3 {
                return false;
            }
            let r = ascii_lower(s[dot]) == 'v' && ascii_lower(s[dot + 1]) == 'o' && ascii_lower(
                s[dot + 2],
            ) == 'x';
            proof {
                assert(e[0] == s@[dot as int] && e[1] == s@[dot + 1] && e[2] == s@[dot + 2]);
                let v = seq!['v', 'o', 'x'];
                assert(lower_char(v[0]) == 'v' && lower_char(v[1]) == 'o' && lower_char(v[2])
                    == 'x');
                if same_ignoring_case(e, v) {
                    assert(lower_char(e[0]) == lower_char(v[0]));
                    assert(lower_char(e[1]) == lower_char(v[1]));
                    assert(lower_char(e[2]) == lower_char(v[2]));
                }
                if r {
                    assert forall|i: int| 0 <= i < 3 implies lower_char(#[trigger] e[i])
                        == lower_char(v[i]) by {
                        assert(i == 0 || i == 1 || i == 2);
                    }
                }
            }
            r
        },
        None => false,
    }
}

/// The directory a command-line argument is browsed from: itself, or the
/// directory the file lies in, which is `.` where nothing else is said.
pub open spec fn root_of(arg: PathView, is_dir: bool) -> PathView {
    let here = PathView { anchor: Seq::empty(), names: seq![seq!['.']] };
    if is_dir {
        arg
    } else {
        match arg.parent() {
            Some(p) => if p.is_nothing() {
                here
            } else {
                p
            },
            None => here,
        }
    }
}

/// The directory a command-line argument should be browsed from: itself, or
/// the file's parent. Used as the root of the library's recursive scan.
pub fn browse_root(arg: &FilePath, is_dir: bool) -> (r: FilePath)
    ensures
        r@ == root_of(arg@, is_dir),
{
    if is_dir {
        return arg.copy();
    }
    if let Some(p) = arg.parent() {
        if p.anchor.len() > 0 || p.names.len() > 0 {
            return p;
        }
    }
    let mut dot = String::new();
    dot.push('.');
    let mut names: Vec<String> = Vec::new();
    names.push(dot);
    let r = FilePath { anchor: Vec::new(), names };
    assert(r@.anchor =~= Seq::empty());
    assert(dot@ =~= seq!['.']);
    assert(r@.names =~= seq![seq!['.']]);
    r
}

// ---- order ----------------------------------------------------------------
/// Where a component sorts among others of another kind.
pub open spec fn rank(s: Seq<char>, anchor: bool) -> int {
    if anchor {
        1
    } else if s == seq!['.'] {
        2
    } else if s == seq!['.', '.'] {
        3
    } else {
        4
    }
}

pub open spec fn char_keys(s: Seq<char>) -> Seq<int> {
    s.map_values(|c: char| c as u32 + 1)
}

/// What one component sorts by: its kind, then its characters.
pub open spec fn part_key(s: Seq<char>, anchor: bool) -> Seq<int> {
    seq![rank(s, anchor)] + char_keys(s)
}

/// What the components from `from` on sort by.
pub open spec fn parts_key(p: PathView, from: int) -> Seq<int>
    decreases p.anchor.len() + p.names.len() - from,
{
    let n = p.anchor.len() as int;
    if from < 0 || from >= n + p.names.len() {
        Seq::empty()
    } else {
        part_key(part(p, from), from < n) + seq![0] + parts_key(p, from + 1)
    }
}

/// The components of a path, the anchor's first.
pub open spec fn part(p: PathView, i: int) -> Seq<char> {
    if i < p.anchor.len() {
        p.anchor[i]
    } else {
        p.names[i - p.anchor.len()]
    }
}

/// What a path sorts by: component after component.
pub open spec fn path_key(p: PathView) -> Seq<int> {
    parts_key(p, 0)
}

pub(crate) fn compare_texts(a: &String, b: &String) -> (r: i8)
    ensures
        r == names::three_way(char_keys(a@), char_keys(b@)),
{
    let (s, t) = (text::chars_of(a.as_str()), text::chars_of(b.as_str()));
    let ghost (x, y) = (char_keys(a@), char_keys(b@));
    let mut i: usize = 0;
    assert(x.subrange(0, x.len() as int) =~= x);
    assert(y.subrange(0, y.len() as int) =~= y);
    while i < s.len() && i < t.len()
        invariant
            i <= s@.len(),
            i <= t@.len(),
            s@ == a@,
            t@ == b@,
            x == char_keys(a@),
            y == char_keys(b@),
            names::three_way(
                x.subrange(i as int, x.len() as int),
                y.subrange(i as int, y.len() as int),
            ) == names::three_way(x, y),
        decreases s@.len() - i,
    {
        proof {
            let (p, q) = (x.subrange(i as int, x.len() as int), y.subrange(i as int, y.len() as int));
            let (p1, q1) = (
                x.subrange(i as int + 1, x.len() as int),
                y.subrange(i as int + 1, y.len() as int),
            );
            assert(p =~= seq![x[i as int]] + p1);
            assert(q =~= seq![y[i as int]] + q1);
            names::lemma_three_way_step(x[i as int], p1, y[i as int], q1);
        }
        let (c, d): (u32, u32) = (s[i] as u32, t[i] as u32);
        if c < d {
            return -1;
        } else if c > d {
            return 1;
        }
        i += 1;
    }
    proof {
        let (p, q) = (x.subrange(i as int, x.len() as int), y.subrange(i as int, y.len() as int));
        if p.len() == 0 && q.len() == 0 {
            assert(p =~= q);
        }
    }
    if i < s.len() {
        1
    } else if i < t.len() {
        -1
    } else {
        0
    }
}

fn rank_of(s: &String, anchor: bool) -> (r: u8)
    ensures
        r == rank(s@, anchor),
{
    if anchor {
        return 1;
    }
    let c = text::chars_of(s.as_str());
    let one = c.len() == 1 && c[0] == '.';
    let two = c.len() == 2 && c[0] == '.' && c[1] == '.';
    proof {
        if one {
            assert(s@ =~= seq!['.']);
        }
        if two {
            assert(s@ =~= seq!['.', '.']);
        }
    }
    if one {
        2
    } else if two {
        3
    } else {
        4
    }
}

fn part_at(p: &FilePath, i: u128) -> (r: &String)
    requires
        i < p@.anchor.len() + p@.names.len(),
    ensures
        r@ == part(p@, i as int),
{
    let n: u128 = p.anchor.len() as u128;
    let names: usize = p.names.len();
    assert(i < n + names);
    if i < n {
        &p.anchor[i as usize]
    } else {
        &p.names[(i - n) as usize]
    }
}

/// Compare two paths component by component: -1, 0 or 1.
pub fn compare_paths(a: &FilePath, b: &FilePath) -> (r: i8)
    ensures
        r == names::three_way(path_key(a@), path_key(b@)),
{
    let (na, nb): (u128, u128) = (a.anchor.len() as u128, b.anchor.len() as u128);
    let (n, m): (u128, u128) = (na + a.names.len() as u128, nb + b.names.len() as u128);
    let mut i: u128 = 0;
    while i < n && i < m
        invariant
            na == a@.anchor.len(),
            nb == b@.anchor.len(),
            n == a@.anchor.len() + a@.names.len(),
            m == b@.anchor.len() + b@.names.len(),
            i <= n,
            i <= m,
            names::three_way(parts_key(a@, i as int), parts_key(b@, i as int)) == names::three_way(
                path_key(a@),
                path_key(b@),
            ),
        decreases n - i,
    {
        let (s, t) = (part_at(a, i), part_at(b, i));
        let (ra, rb): (u8, u8) = (rank_of(s, i < na), rank_of(t, i < nb));
        let c: i8 = if ra < rb {
            -1
        } else if ra > rb {
            1
        } else {
            compare_texts(s, t)
        };
        proof {
            let (p, q) = (
                part_key(s@, i < a@.anchor.len()),
                part_key(t@, i < b@.anchor.len()),
            );
            names::lemma_three_way_step(ra as int, char_keys(s@), rb as int, char_keys(t@));
            assert(c == names::three_way(p, q));
            let (x, y) = (parts_key(a@, i + 1), parts_key(b@, i + 1));
            lemma_part_key_positive(s@, i < a@.anchor.len());
            lemma_part_key_positive(t@, i < b@.anchor.len());
            order::lemma_lex_pair(p, q, x, y, 0);
            lemma_marked_equal(p, q, x, y);
        }
        if c != 0 {
            return c;
        }
        i += 1;
    }
    proof {
        let (p, q) = (parts_key(a@, i as int), parts_key(b@, i as int));
        if p.len() == 0 && q.len() == 0 {
            assert(p =~= q);
        }
    }
    if i < n {
        1
    } else if i < m {
        -1
    } else {
        0
    }
}

/// Two keys in a row with a mark between them are the same where both are.
pub proof fn lemma_marked_equal(p: Seq<int>, q: Seq<int>, x: Seq<int>, y: Seq<int>)
    requires
        order::at_least(p, 1),
        order::at_least(q, 1),
    ensures
        (p + seq![0int] + x == q + seq![0int] + y) <==> (p == q && x == y),
{
    let (s, t) = (p + seq![0int] + x, q + seq![0int] + y);
    if s == t {
        if p.len() < q.len() {
            assert(s[p.len() as int] == 0);
            assert(t[p.len() as int] == q[p.len() as int]);
        } else if q.len() < p.len() {
            assert(t[q.len() as int] == 0);
            assert(s[q.len() as int] == p[q.len() as int]);
        } else {
            assert forall|i: int| 0 <= i < p.len() implies p[i] == q[i] by {
                assert(s[i] == t[i]);
            }
            assert(p =~= q);
            assert(s.len() == p.len() + 1 + x.len());
            assert(t.len() == q.len() + 1 + y.len());
            assert(x.len() == y.len());
            assert forall|i: int| 0 <= i < x.len() implies x[i] == y[i] by {
                assert(s[p.len() + 1 + i] == x[i]);
                assert(t[p.len() + 1 + i] == y[i]);
            }
            assert(x =~= y);
        }
    }
}

proof fn lemma_part_key_positive(s: Seq<char>, anchor: bool)
    ensures
        order::at_least(part_key(s, anchor), 1),
{
    let k = part_key(s, anchor);
    assert forall|i: int| 0 <= i < k.len() implies 1 <= #[trigger] k[i] by {
        if i > 0 {
            let c: char = s[i - 1];
            assert(k[i] == char_keys(s)[i - 1]);
            assert(char_keys(s)[i - 1] == c as u32 + 1);
            assert(c as u32 >= 0);
        } else {
            assert(k[0] == rank(s, anchor));
        }
    }
}

/// What a path sorts by is never negative.
pub proof fn lemma_path_key_nonnegative(p: PathView, from: int)
    ensures
        order::at_least(parts_key(p, from), 0),
    decreases p.anchor.len() + p.names.len() - from,
{
    let n = p.anchor.len() as int;
    if !(from < 0 || from >= n + p.names.len()) {
        lemma_path_key_nonnegative(p, from + 1);
        let a = part_key(part(p, from), from < n);
        lemma_part_key_positive(part(p, from), from < n);
        let b = parts_key(p, from + 1);
        let k = parts_key(p, from);
        assert forall|i: int| 0 <= i < k.len() implies 0 <= #[trigger] k[i] by {
            if i < a.len() {
                assert(k[i] == a[i]);
            } else if i > a.len() {
                assert(k[i] == b[i - a.len() - 1]);
            }
        }
    }
}

/// The operating systems that keep things in places of their own.
#[derive(Clone, Copy, Debug, PartialEq, Eq, Structural)]
pub enum Platform {
    Windows,
    MacOs,
    Unix,
}

impl PathView {
    /// A path with a name after it.
    pub open spec fn join(self, name: Seq<char>) -> PathView {
        PathView { anchor: self.anchor, names: self.names.push(name) }
    }
}

/// The absolute path a text with slashes names.
pub open spec fn rooted(s: Seq<char>) -> PathView {
    let pieces = text::split(s, '/');
    PathView { anchor: seq![seq!['/']], names: pieces.subrange(1, pieces.len() as int) }
}

impl FilePath {
    /// The path of something in the directory that this path names.
    pub fn join(&self, name: &str) -> (r: FilePath)
        ensures
            r@ == self@.join(name@),
    {
        let mut p = self.copy();
        let mut last = String::new();
        text::push_str(&mut last, name);
        assert(last@ =~= name@);
        let ghost before = p.names@;
        p.names.push(last);
        assert(text::texts(p.names@) =~= text::texts(before).push(name@));
        p
    }

    /// The absolute path that a text with slashes names; the text begins with one.
    pub fn rooted(s: &str) -> (r: FilePath)
        ensures
            r@ == rooted(s@),
    {
        let pieces = text::split_on(&text::chars_of(s), '/');
        let ghost all = text::split(s@, '/');
        proof {
            text::lemma_split_some(s@, '/');
        }
        let mut slash = String::new();
        slash.push('/');
        assert(slash@ =~= seq!['/']);
        let mut anchor: Vec<String> = Vec::new();
        anchor.push(slash);
        assert(text::texts(anchor@) =~= seq![seq!['/']]);
        let mut names: Vec<String> = Vec::new();
        let mut i: usize = 1;
        assert(text::texts(names@) =~= all.subrange(1, 1));
        while i < pieces.len()
            invariant
                1 <= i <= pieces@.len(),
                text::runs(pieces@) == all,
                text::texts(names@) == all.subrange(1, i as int),
            decreases pieces@.len() - i,
        {
            let ghost had = names@;
            names.push(text::string_of(&pieces[i]));
            assert(text::runs(pieces@)[i as int] == pieces@[i as int]@);
            i += 1;
            assert(text::texts(names@) =~= text::texts(had).push(all[i - 1]));
            assert(text::texts(names@) =~= all.subrange(1, i as int));
        }
        assert(all.len() == pieces@.len());
        FilePath { anchor, names }
    }
}

// ---- what paths promise -----------------------------------------------------
/// A file name is its stem, a dot and its extension; the extension is what
/// comes after the last dot, and a name that has no dot past its first
/// character has none and is all stem.
pub proof fn lemma_a_name_is_stem_and_extension(s: Seq<char>)
    ensures
        match extension_of(s) {
            Some(e) => s == stem_of(s) + seq!['.'] + e && stem_of(s).len() > 0 && !e.contains('.'),
            None => stem_of(s) == s && forall|i: int| 1 <= i < s.len() ==> s[i] != '.',
        },
{
    lemma_last_dot_is(s);
    if let Some(e) = extension_of(s) {
        assert(s =~= stem_of(s) + seq!['.'] + e);
        if e.contains('.') {
            let k = choose|k: int| 0 <= k < e.len() && e[k] == '.';
            assert(s[last_dot(s) + 1 + k] == '.');
        }
    }
}

proof fn lemma_last_dot_is(s: Seq<char>)
    ensures
        -1 <= last_dot(s) < s.len(),
        last_dot(s) >= 0 ==> s[last_dot(s)] == '.',
        forall|i: int| last_dot(s) < i < s.len() ==> s[i] != '.',
    decreases s.len(),
{
    if s.len() > 0 && s.last() != '.' {
        lemma_last_dot_is(s.drop_last());
        assert forall|i: int| last_dot(s) < i < s.len() implies s[i] != '.' by {
            if i < s.len() - 1 {
                assert(s.drop_last()[i] == s[i]);
            }
        }
    }
}

/// A model is a file whose name goes on, after at least one character, with
/// `.vox` in letters of either case.
pub proof fn lemma_what_counts_as_a_model(p: PathView, name: Seq<char>)
    requires
        p.names.len() > 0,
        name == p.names.last(),
    ensures
        has_vox_extension(p) <==> {
            let n = name.len() as int;
            &&& n >= 5
            &&& name[n - 4] == '.'
            &&& name[n - 3] == 'v' || name[n - 3] == 'V'
            &&& name[n - 2] == 'o' || name[n - 2] == 'O'
            &&& name[n - 1] == 'x' || name[n - 1] == 'X'
        },
{
    let n = name.len() as int;
    let vox = seq!['v', 'o', 'x'];
    lemma_last_dot_is(name);
    assert(lower_char(vox[0]) == 'v' && lower_char(vox[1]) == 'o' && lower_char(vox[2]) == 'x');
    if has_vox_extension(p) {
        let e = extension_of(name)->0;
        assert(lower_char(e[0]) == lower_char(vox[0]));
        assert(lower_char(e[1]) == lower_char(vox[1]));
        assert(lower_char(e[2]) == lower_char(vox[2]));
        assert(e[0] == name[n - 3] && e[1] == name[n - 2] && e[2] == name[n - 1]);
    }
    if n >= 5 && name[n - 4] == '.' && (name[n - 3] == 'v' || name[n - 3] == 'V') && (name[n - 2]
        == 'o' || name[n - 2] == 'O') && (name[n - 1] == 'x' || name[n - 1] == 'X') {
        assert(name[n - 3] != '.' && name[n - 2] != '.' && name[n - 1] != '.');
        assert(last_dot(name) == n - 4);
        let e = name.subrange(n - 3, n);
        assert(!is_dots(name));
        assert forall|i: int| 0 <= i < 3 implies lower_char(#[trigger] e[i]) == lower_char(
            vox[i],
        ) by {
            assert(i == 0 || i == 1 || i == 2);
        }
    }
}

proof fn lemma_slashed_front(first: Seq<char>, rest: Seq<Seq<char>>)
    ensures
        slashed(seq![first] + rest) == (if rest.len() == 0 {
            first
        } else {
            first + seq!['/'] + slashed(rest)
        }),
    decreases rest.len(),
{
    let all = seq![first] + rest;
    if rest.len() == 0 {
        assert(all =~= seq![first]);
    } else if rest.len() == 1 {
        assert(all.drop_last() =~= seq![first]);
        assert(slashed(seq![first]) == first);
        assert(slashed(rest) == rest[0]);
        assert(slashed(all) =~= first + seq!['/'] + rest[0]);
    } else {
        lemma_slashed_front(first, rest.drop_last());
        assert(all.drop_last() =~= seq![first] + rest.drop_last());
        assert(slashed(all) =~= first + seq!['/'] + slashed(rest));
    }
}

/// Names with slashes between them come apart again at the slashes.
pub proof fn lemma_slashes_come_apart(parts: Seq<Seq<char>>)
    requires
        parts.len() > 0,
        forall|i: int| 0 <= i < parts.len() ==> !(#[trigger] parts[i]).contains('/'),
    ensures
        text::split(slashed(parts), '/') == parts,
    decreases parts.len(),
{
    let first = parts[0];
    let rest = parts.subrange(1, parts.len() as int);
    let s = slashed(parts);
    assert(parts =~= seq![first] + rest);
    lemma_slashed_front(first, rest);
    assert(!parts[0].contains('/'));
    assert forall|i: int| 0 <= i < first.len() implies first[i] != '/' by {
        if first[i] == '/' {
            assert(first.contains('/'));
        }
    }
    if rest.len() == 0 {
        text::lemma_find_is(s, '/', s.len() as int);
        assert(text::split(s, '/') =~= parts);
    } else {
        assert forall|i: int| 0 <= i < rest.len() implies !(#[trigger] rest[i]).contains('/') by {
            assert(rest[i] == parts[i + 1]);
        }
        lemma_slashes_come_apart(rest);
        let at = first.len() as int;
        assert(s[at] == '/');
        assert forall|i: int| 0 <= i < at implies s[i] != '/' by {
            assert(s[i] == first[i]);
        }
        text::lemma_find_is(s, '/', at);
        assert(s.subrange(0, at) =~= first);
        assert(s.subrange(at + 1, s.len() as int) =~= slashed(rest));
        assert(text::split(s, '/') =~= parts);
    }
}

/// The path of something below a root, relative to that root, is the names that
/// lead there; a path that is not below it keeps all its names.
pub proof fn lemma_a_relative_path_leads_from_the_root(root: PathView, names: Seq<Seq<char>>)
    ensures
        ({
            let p = PathView { anchor: root.anchor, names: root.names + names };
            &&& p.under(root)
            &&& p.relative_to(root) == slashed(names)
            &&& names.len() > 0 ==> p.parent() == Some(
                PathView { anchor: root.anchor, names: root.names + names.drop_last() },
            )
        }),
        forall|q: PathView|
            #![trigger q.under(root)]
            q.under(root) ==> exists|below: Seq<Seq<char>>| q.names == root.names + below,
{
    let p = PathView { anchor: root.anchor, names: root.names + names };
    let n = root.names.len() as int;
    assert(p.names.subrange(0, n) =~= root.names);
    assert(p.names.subrange(n, p.names.len() as int) =~= names);
    if names.len() > 0 {
        assert(p.names.drop_last() =~= root.names + names.drop_last());
    }
    assert forall|q: PathView| #![trigger q.under(root)] q.under(root) implies exists|
        below: Seq<Seq<char>>,
    |
        q.names == root.names + below by {
        let below = q.names.subrange(n, q.names.len() as int);
        assert(q.names =~= root.names + below);
    }
}

/// Whether one text comes before another: by the first character that differs,
/// or by being all that the other begins with.
pub open spec fn comes_before(a: Seq<char>, b: Seq<char>, k: int) -> bool {
    &&& 0 <= k <= a.len()
    &&& k < b.len()
    &&& a.subrange(0, k) == b.subrange(0, k)
    &&& k == a.len() || (a[k] as u32) < (b[k] as u32)
}

proof fn lemma_char_keys_order(a: Seq<char>, b: Seq<char>, k: int)
    requires
        comes_before(a, b, k),
    ensures
        order::lex_le(char_keys(a), char_keys(b)),
        char_keys(a) != char_keys(b),
    decreases k,
{
    let (x, y) = (char_keys(a), char_keys(b));
    assert(x.len() == a.len() && y.len() == b.len());
    if k == 0 {
        assert(y[0] == b[0] as u32 + 1);
        if a.len() > 0 {
            assert(x[0] == a[0] as u32 + 1);
            assert((a[k] as u32) < (b[k] as u32));
        }
    } else {
        assert(a.subrange(0, k)[0] == b.subrange(0, k)[0]);
        assert(x[0] == y[0]);
        let (s, t) = (a.subrange(1, a.len() as int), b.subrange(1, b.len() as int));
        assert(s.subrange(0, k - 1) =~= a.subrange(0, k).subrange(1, k));
        assert(t.subrange(0, k - 1) =~= b.subrange(0, k).subrange(1, k));
        lemma_char_keys_order(s, t, k - 1);
        assert(x.subrange(1, x.len() as int) =~= char_keys(s));
        assert(y.subrange(1, y.len() as int) =~= char_keys(t));
        assert(x != y);
    }
}

proof fn lemma_parts_in_common(p: PathView, q: PathView, from: int, n: int)
    requires
        p.anchor == q.anchor,
        0 <= from <= n,
        n <= p.anchor.len() + p.names.len(),
        n <= q.anchor.len() + q.names.len(),
        forall|i: int| 0 <= i < n ==> part(p, i) == part(q, i),
    ensures
        order::lex_le(parts_key(p, from), parts_key(q, from)) == order::lex_le(
            parts_key(p, n),
            parts_key(q, n),
        ),
    decreases n - from,
{
    if from < n {
        lemma_parts_in_common(p, q, from + 1, n);
        assert(part(p, from) == part(q, from));
        let k = part_key(part(p, from), from < p.anchor.len());
        lemma_part_key_positive(part(p, from), from < p.anchor.len());
        order::lemma_lex_pair(k, k, parts_key(p, from + 1), parts_key(q, from + 1), 0);
    }
}

/// Paths come name by name: a directory before what is in it, and of two things
/// in one directory, with all that is in them, the one whose name comes first.
pub proof fn lemma_paths_come_name_by_name(
    dir: PathView,
    a: Seq<char>,
    below_a: Seq<Seq<char>>,
    b: Seq<char>,
    below_b: Seq<Seq<char>>,
    k: int,
)
    requires
        comes_before(a, b, k),
        !is_dots(a),
        !is_dots(b),
    ensures
        order::lex_le(
            path_key(PathView { anchor: dir.anchor, names: dir.names.push(a) + below_a }),
            path_key(PathView { anchor: dir.anchor, names: dir.names.push(b) + below_b }),
        ),
        order::lex_le(
            path_key(dir),
            path_key(PathView { anchor: dir.anchor, names: dir.names.push(a) + below_a }),
        ),
{
    let p = PathView { anchor: dir.anchor, names: dir.names.push(a) + below_a };
    let q = PathView { anchor: dir.anchor, names: dir.names.push(b) + below_b };
    let n = (dir.anchor.len() + dir.names.len()) as int;
    assert forall|i: int| 0 <= i < n implies part(p, i) == part(q, i) && part(p, i) == part(
        dir,
        i,
    ) by {
        if i >= dir.anchor.len() {
            let j = i - dir.anchor.len();
            assert(p.names[j] == dir.names[j] && q.names[j] == dir.names[j]);
        }
    }
    lemma_parts_in_common(p, q, 0, n);
    lemma_parts_in_common(dir, p, 0, n);
    assert(part(p, n) == a && part(q, n) == b);
    let (x, y) = (part_key(a, false), part_key(b, false));
    lemma_part_key_positive(a, false);
    lemma_part_key_positive(b, false);
    lemma_char_keys_order(a, b, k);
    assert(x.subrange(1, x.len() as int) =~= char_keys(a));
    assert(y.subrange(1, y.len() as int) =~= char_keys(b));
    assert(x != y);
    order::lemma_lex_pair(x, y, parts_key(p, n + 1), parts_key(q, n + 1), 0);
}

/// A path is written with slashes between its names, behind what it starts from.
pub proof fn lemma_a_path_is_written_with_slashes(p: PathView, name: Seq<char>)
    ensures
        p.names.len() > 0 ==> p.join(name).as_text() == p.as_text() + seq!['/'] + name,
        p.names.len() == 0 && p.anchor == seq![seq!['/']] ==> p.join(name).as_text() == seq!['/']
            + name,
        p.names.len() == 0 && p.anchor.len() == 0 ==> p.join(name).as_text() == name,
        p.join(name).file_name() == (if name == seq!['.'] || name == seq!['.', '.'] {
            None
        } else {
            Some(name)
        }),
        p.join(name).parent() == Some(p),
{
    let q = p.join(name);
    assert(q.names.drop_last() =~= p.names);
    if p.names.len() > 0 {
        assert(q.as_text() =~= p.as_text() + seq!['/'] + name);
    } else {
        assert(slashed(q.names) == name);
        if p.anchor == seq![seq!['/']] {
            assert(p.anchor.drop_last() =~= Seq::empty());
            assert(joined(p.anchor.drop_last()) =~= Seq::empty());
            assert(joined(p.anchor) =~= seq!['/']);
        } else if p.anchor.len() == 0 {
            assert(joined(p.anchor) =~= Seq::empty());
            assert(q.as_text() =~= name);
        }
    }
}

} // verus!
