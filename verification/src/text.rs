//! Text as sequences of characters: trimming, splitting, numbers in and out.

use vstd::prelude::*;

verus! {

/// `String::push` of the standard library: the character goes to the end.
pub assume_specification[ String::push ](s: &mut String, c: char)
    ensures
        final(s)@ == old(s)@.push(c),
;

// ---- strings and their characters ------------------------------------------
/// The characters of a string.
pub fn chars_of(s: &str) -> (r: Vec<char>)
    ensures
        r@ == s@,
{
    let mut out: Vec<char> = Vec::new();
    for c in it: s.chars()
        invariant
            it.seq() == s@,
            0 <= it.index() <= it.seq().len(),
            out@ == it.seq().subrange(0, it.index() as int),
    {
        out.push(c);
        assert(out@ =~= it.seq().subrange(0, it.index() as int + 1));
    }
    assert(out@ =~= s@);
    out
}

/// The string made of these characters.
pub fn string_of(s: &Vec<char>) -> (r: String)
    ensures
        r@ == s@,
{
    let mut out = String::new();
    push_chars(&mut out, s);
    assert(out@ =~= s@);
    out
}

/// Append characters to a string.
pub fn push_chars(out: &mut String, s: &Vec<char>)
    ensures
        final(out)@ == old(out)@ + s@,
{
    let mut i: usize = 0;
    let ghost before = out@;
    while i < s.len()
        invariant
            i <= s@.len(),
            out@ == before + s@.subrange(0, i as int),
        decreases s@.len() - i,
    {
        out.push(s[i]);
        assert(s@.subrange(0, i as int + 1) =~= s@.subrange(0, i as int).push(s@[i as int]));
        assert(out@ =~= before + s@.subrange(0, i as int + 1));
        i += 1;
    }
    assert(s@.subrange(0, i as int) =~= s@);
}

/// The characters from `from` up to `to`.
pub fn slice(s: &Vec<char>, from: usize, to: usize) -> (r: Vec<char>)
    requires
        from <= to <= s@.len(),
    ensures
        r@ == s@.subrange(from as int, to as int),
{
    let mut out: Vec<char> = Vec::new();
    let mut i: usize = from;
    while i < to
        invariant
            from <= i <= to <= s@.len(),
            out@ == s@.subrange(from as int, i as int),
        decreases to - i,
    {
        out.push(s[i]);
        assert(out@ =~= s@.subrange(from as int, i as int + 1));
        i += 1;
    }
    out
}

/// Whether two runs of characters are the same.
pub fn same(a: &Vec<char>, b: &Vec<char>) -> (r: bool)
    ensures
        r <==> a@ == b@,
{
    if a.len() != b.len() {
        return false;
    }
    let mut i: usize = 0;
    while i < a.len()
        invariant
            a@.len() == b@.len(),
            i <= a@.len(),
            forall|k: int| 0 <= k < i ==> a@[k] == b@[k],
        decreases a@.len() - i,
    {
        if a[i] != b[i] {
            return false;
        }
        i += 1;
    }
    assert(a@ =~= b@);
    true
}

/// Whether the characters are those of a string.
pub fn is_text(a: &Vec<char>, b: &str) -> (r: bool)
    ensures
        r <==> a@ == b@,
{
    same(a, &chars_of(b))
}

/// The texts of a list of strings.
pub open spec fn texts(v: Seq<String>) -> Seq<Seq<char>> {
    v.map_values(|s: String| s@)
}

/// The texts of a list of character runs.
pub open spec fn runs(v: Seq<Vec<char>>) -> Seq<Seq<char>> {
    v.map_values(|s: Vec<char>| s@)
}

/// The texts of some names.
pub open spec fn labels(v: Seq<&str>) -> Seq<Seq<char>> {
    Seq::new(v.len(), |i: int| v[i]@)
}

/// A copy of a list of strings.
pub fn copy_strings(v: &Vec<String>) -> (r: Vec<String>)
    ensures
        r@ == v@,
{
    let mut out: Vec<String> = Vec::new();
    let mut i: usize = 0;
    while i < v.len()
        invariant
            i <= v@.len(),
            out@ == v@.subrange(0, i as int),
        decreases v@.len() - i,
    {
        out.push(v[i].clone());
        assert(out@ =~= v@.subrange(0, i as int + 1));
        i += 1;
    }
    assert(out@ =~= v@);
    out
}

/// Whether two lists of strings hold the same texts.
pub fn same_strings(a: &Vec<String>, b: &Vec<String>) -> (r: bool)
    ensures
        r <==> texts(a@) == texts(b@),
{
    if a.len() != b.len() {
        assert(texts(a@).len() != texts(b@).len());
        return false;
    }
    let mut i: usize = 0;
    while i < a.len()
        invariant
            a@.len() == b@.len(),
            i <= a@.len(),
            forall|k: int| 0 <= k < i ==> (#[trigger] a@[k])@ == b@[k]@,
        decreases a@.len() - i,
    {
        if a[i] != b[i] {
            assert(texts(a@)[i as int] != texts(b@)[i as int]);
            return false;
        }
        i += 1;
    }
    assert(texts(a@) =~= texts(b@));
    true
}

// ---- white space ----------------------------------------------------------
/// Unicode's `White_Space` property.
pub open spec fn is_space(c: char) -> bool {
    ||| '\u{9}' <= c <= '\u{d}'
    ||| c == ' '
    ||| c == '\u{85}'
    ||| c == '\u{a0}'
    ||| c == '\u{1680}'
    ||| '\u{2000}' <= c <= '\u{200a}'
    ||| c == '\u{2028}'
    ||| c == '\u{2029}'
    ||| c == '\u{202f}'
    ||| c == '\u{205f}'
    ||| c == '\u{3000}'
}

pub fn is_whitespace(c: char) -> (r: bool)
    ensures
        r == is_space(c),
{
    ('\u{9}' <= c && c <= '\u{d}') || c == ' ' || c == '\u{85}' || c == '\u{a0}' || c == '\u{1680}'
        || ('\u{2000}' <= c && c <= '\u{200a}') || c == '\u{2028}' || c == '\u{2029}' || c
        == '\u{202f}' || c == '\u{205f}' || c == '\u{3000}'
}

/// The text without the white space it begins with.
pub open spec fn trim_start(s: Seq<char>) -> Seq<char>
    decreases s.len(),
{
    if s.len() > 0 && is_space(s[0]) {
        trim_start(s.subrange(1, s.len() as int))
    } else {
        s
    }
}

/// The text without the white space it ends with.
pub open spec fn trim_end(s: Seq<char>) -> Seq<char>
    decreases s.len(),
{
    if s.len() > 0 && is_space(s.last()) {
        trim_end(s.drop_last())
    } else {
        s
    }
}

/// The text without the white space around it.
pub open spec fn trim(s: Seq<char>) -> Seq<char> {
    trim_end(trim_start(s))
}

/// Whether a text neither begins nor ends with white space.
pub open spec fn is_trim(s: Seq<char>) -> bool {
    s.len() > 0 ==> !is_space(s[0]) && !is_space(s.last())
}

/// Trimming leaves a text alone that has no white space around it.
pub proof fn lemma_trim_idle(s: Seq<char>)
    requires
        is_trim(s),
    ensures
        trim(s) == s,
{
}

proof fn lemma_trim_start(s: Seq<char>)
    ensures
        trim_start(s).len() > 0 ==> !is_space(trim_start(s)[0]),
        forall|c: char| #[trigger] trim_start(s).contains(c) ==> s.contains(c),
    decreases s.len(),
{
    if s.len() > 0 && is_space(s[0]) {
        let rest = s.subrange(1, s.len() as int);
        lemma_trim_start(rest);
        assert forall|c: char| #[trigger] trim_start(s).contains(c) implies s.contains(c) by {
            let k = choose|k: int| 0 <= k < rest.len() && rest[k] == c;
            assert(s[k + 1] == c);
        }
    }
}

proof fn lemma_trim_end(s: Seq<char>)
    ensures
        trim_end(s).len() > 0 ==> !is_space(trim_end(s).last()) && trim_end(s)[0] == s[0],
        forall|c: char| #[trigger] trim_end(s).contains(c) ==> s.contains(c),
    decreases s.len(),
{
    if s.len() > 0 && is_space(s.last()) {
        let rest = s.drop_last();
        lemma_trim_end(rest);
        assert forall|c: char| #[trigger] trim_end(s).contains(c) implies s.contains(c) by {
            let k = choose|k: int| 0 <= k < rest.len() && rest[k] == c;
            assert(s[k] == c);
        }
    }
}

/// Trimming leaves no white space around a text, and puts nothing into it.
pub proof fn lemma_trim_trims(s: Seq<char>)
    ensures
        is_trim(trim(s)),
        forall|c: char| #[trigger] trim(s).contains(c) ==> s.contains(c),
{
    lemma_trim_start(s);
    lemma_trim_end(trim_start(s));
}

/// A space before a text, or none after it, is trimmed away.
pub proof fn lemma_trim_space_before(s: Seq<char>)
    requires
        is_trim(s),
    ensures
        trim(seq![' '] + s) == s,
{
    reveal_with_fuel(trim_start, 2);
    let t = seq![' '] + s;
    assert(t.subrange(1, t.len() as int) =~= s);
}

pub proof fn lemma_trim_space_after(s: Seq<char>)
    requires
        is_trim(s),
    ensures
        trim(s + seq![' ']) == s,
{
    reveal_with_fuel(trim_start, 2);
    reveal_with_fuel(trim_end, 2);
    let t = s + seq![' '];
    if s.len() > 0 {
        assert(t[0] == s[0]);
        assert(t.drop_last() =~= s);
    } else {
        assert(t.subrange(1, 1) =~= s);
    }
}

/// The text without the white space around it.
pub fn trimmed(s: &Vec<char>) -> (r: Vec<char>)
    ensures
        r@ == trim(s@),
{
    let mut from: usize = 0;
    assert(s@.subrange(0, s@.len() as int) =~= s@);
    while from < s.len() && is_whitespace(s[from])
        invariant
            from <= s@.len(),
            trim_start(s@.subrange(from as int, s@.len() as int)) == trim_start(s@),
        decreases s@.len() - from,
    {
        proof {
            let t = s@.subrange(from as int, s@.len() as int);
            assert(t.subrange(1, t.len() as int) =~= s@.subrange(from as int + 1, s@.len() as int));
        }
        from += 1;
    }
    let ghost start = s@.subrange(from as int, s@.len() as int);
    assert(trim_start(s@) == start);
    let mut to: usize = s.len();
    while to > from && is_whitespace(s[to - 1])
        invariant
            from <= to <= s@.len(),
            trim_end(s@.subrange(from as int, to as int)) == trim_end(start),
        decreases to,
    {
        proof {
            let t = s@.subrange(from as int, to as int);
            assert(t.drop_last() =~= s@.subrange(from as int, to as int - 1));
        }
        to -= 1;
    }
    assert(trim_end(s@.subrange(from as int, to as int)) == s@.subrange(from as int, to as int));
    slice(s, from, to)
}

// ---- splitting ------------------------------------------------------------
/// Where a character first stands, or the length where it does not.
pub open spec fn find(s: Seq<char>, c: char) -> int
    decreases s.len(),
{
    if s.len() == 0 || s[0] == c {
        0
    } else {
        1 + find(s.subrange(1, s.len() as int), c)
    }
}

pub proof fn lemma_find(s: Seq<char>, c: char)
    ensures
        0 <= find(s, c) <= s.len(),
        forall|i: int| 0 <= i < find(s, c) ==> s[i] != c,
        find(s, c) < s.len() ==> s[find(s, c)] == c,
    decreases s.len(),
{
    if s.len() > 0 && s[0] != c {
        let t = s.subrange(1, s.len() as int);
        lemma_find(t, c);
        assert forall|i: int| 0 <= i < find(s, c) implies s[i] != c by {
            if i > 0 {
                assert(t[i - 1] == s[i]);
            }
        }
    }
}

/// The first place that holds the character is the one that `find` names.
pub proof fn lemma_find_is(s: Seq<char>, c: char, at: int)
    requires
        0 <= at <= s.len(),
        forall|i: int| 0 <= i < at ==> s[i] != c,
        at < s.len() ==> s[at] == c,
    ensures
        find(s, c) == at,
    decreases s.len(),
{
    if s.len() > 0 && s[0] != c {
        lemma_find_is(s.subrange(1, s.len() as int), c, at - 1);
    }
}

/// Where a character first stands at or after a position, or the length.
pub fn find_from(s: &Vec<char>, c: char, from: usize) -> (at: usize)
    requires
        from <= s@.len(),
    ensures
        at == from + find(s@.subrange(from as int, s@.len() as int), c),
        from <= at <= s@.len(),
{
    let mut i: usize = from;
    while i < s.len() && s[i] != c
        invariant
            from <= i <= s@.len(),
            forall|k: int| from <= k < i ==> s@[k] != c,
        decreases s@.len() - i,
    {
        i += 1;
    }
    proof {
        lemma_find_is(s@.subrange(from as int, s@.len() as int), c, i - from);
    }
    i
}

/// The pieces of a text between occurrences of a character.
pub open spec fn split(s: Seq<char>, c: char) -> Seq<Seq<char>>
    decreases s.len(),
    via split_decreases
{
    let at = find(s, c);
    if at < s.len() {
        seq![s.subrange(0, at)] + split(s.subrange(at + 1, s.len() as int), c)
    } else {
        seq![s]
    }
}

#[via_fn]
proof fn split_decreases(s: Seq<char>, c: char) {
    lemma_find(s, c);
}

/// The pieces of a text between occurrences of a character.
pub fn split_on(s: &Vec<char>, c: char) -> (r: Vec<Vec<char>>)
    ensures
        runs(r@) == split(s@, c),
{
    let mut out: Vec<Vec<char>> = Vec::new();
    let mut from: usize = 0;
    let mut more = true;
    let ghost whole = split(s@, c);
    assert(s@.subrange(0, s@.len() as int) =~= s@);
    assert(runs(out@) + whole =~= whole);
    while more
        invariant
            from <= s@.len(),
            more ==> runs(out@) + split(s@.subrange(from as int, s@.len() as int), c) == whole,
            !more ==> runs(out@) == whole,
        decreases s@.len() - from + if more { 1int } else { 0int },
    {
        let at: usize = find_from(s, c, from);
        let piece = slice(s, from, at);
        let ghost rest = s@.subrange(from as int, s@.len() as int);
        let ghost before = runs(out@);
        assert(piece@ =~= rest.subrange(0, at - from));
        out.push(piece);
        assert(runs(out@) =~= before.push(piece@));
        if at < s.len() {
            assert(rest.subrange(at - from + 1, rest.len() as int) =~= s@.subrange(
                at as int + 1,
                s@.len() as int,
            ));
            assert(runs(out@) + split(s@.subrange(at as int + 1, s@.len() as int), c) =~= before
                + split(rest, c));
            from = at + 1;
        } else {
            assert(piece@ =~= rest);
            assert(runs(out@) =~= before + split(rest, c));
            more = false;
        }
    }
    out
}

/// The words of a text: its longest runs without white space.
pub open spec fn words(s: Seq<char>) -> Seq<Seq<char>>
    decreases s.len(),
{
    if s.len() == 0 {
        Seq::empty()
    } else {
        let before = words(s.drop_last());
        if is_space(s.last()) {
            before
        } else if s.len() > 1 && !is_space(s[s.len() - 2]) && before.len() > 0 {
            before.drop_last().push(before.last().push(s.last()))
        } else {
            before.push(seq![s.last()])
        }
    }
}

/// Whether a text is a word: characters, none of them white space.
pub open spec fn is_word(s: Seq<char>) -> bool {
    s.len() > 0 && forall|i: int| 0 <= i < s.len() ==> !is_space(#[trigger] s[i])
}

/// A word is its own only word.
pub proof fn lemma_words_one(w: Seq<char>)
    requires
        is_word(w),
    ensures
        words(w) == seq![w],
    decreases w.len(),
{
    let t = w.drop_last();
    if t.len() == 0 {
        assert(words(t) =~= Seq::empty());
        assert(seq![w.last()] =~= w);
        assert(words(w) =~= seq![w]);
    } else {
        assert forall|i: int| 0 <= i < t.len() implies !is_space(#[trigger] t[i]) by {
            assert(!is_space(w[i]));
        }
        lemma_words_one(t);
        assert(!is_space(w[w.len() - 2]));
        assert(!is_space(w.last()));
        assert(t.push(w.last()) =~= w);
        assert(words(w) =~= seq![w]);
    }
}

/// A word after a space is one more word.
pub proof fn lemma_words_push(s: Seq<char>, w: Seq<char>)
    requires
        is_word(w),
    ensures
        words(s + seq![' '] + w) == words(s).push(w),
    decreases w.len(),
{
    let gap = s + seq![' '];
    assert(gap.drop_last() =~= s);
    let all = gap + w;
    let t = w.drop_last();
    assert(all.drop_last() =~= gap + t);
    assert(!is_space(w.last()));
    if t.len() == 0 {
        assert(gap + t =~= gap);
        assert(words(gap) == words(s));
        assert(all[all.len() - 2] == ' ');
        assert(seq![w.last()] =~= w);
    } else {
        assert forall|i: int| 0 <= i < t.len() implies !is_space(#[trigger] t[i]) by {
            assert(!is_space(w[i]));
        }
        lemma_words_push(s, t);
        assert(all[all.len() - 2] == w[w.len() - 2]);
        assert(!is_space(w[w.len() - 2]));
        assert(t.push(w.last()) =~= w);
        assert(words(s).push(t).drop_last() =~= words(s));
    }
}

/// A number in decimal is a word.
pub proof fn lemma_signed_is_a_word(n: int)
    ensures
        is_word(signed(n)),
{
    let d = if n < 0 {
        decimal((-n) as nat)
    } else {
        decimal(n as nat)
    };
    lemma_decimal(if n < 0 {
        (-n) as nat
    } else {
        n as nat
    });
    assert forall|i: int| 0 <= i < signed(n).len() implies !is_space(#[trigger] signed(n)[i]) by {
        if n < 0 && i > 0 {
            assert(signed(n)[i] == d[i - 1]);
            assert(is_digit(d[i - 1]));
        } else if n >= 0 {
            assert(is_digit(d[i]));
        }
    }
}

/// The words of a text.
pub fn split_words(s: &Vec<char>) -> (r: Vec<Vec<char>>)
    ensures
        runs(r@) == words(s@),
{
    let mut out: Vec<Vec<char>> = Vec::new();
    let mut word: Vec<char> = Vec::new();
    let mut i: usize = 0;
    assert(s@.subrange(0, 0) =~= Seq::empty());
    assert(runs(out@) =~= words(s@.subrange(0, 0)));
    while i < s.len()
        invariant
            i <= s@.len(),
            word@.len() == 0 ==> runs(out@) == words(s@.subrange(0, i as int)),
            word@.len() > 0 ==> runs(out@).push(word@) == words(s@.subrange(0, i as int)),
            word@.len() > 0 <==> i > 0 && !is_space(s@[i - 1]),
        decreases s@.len() - i,
    {
        let c: char = s[i];
        let ghost t = s@.subrange(0, i as int + 1);
        assert(t.drop_last() =~= s@.subrange(0, i as int));
        if is_whitespace(c) {
            if word.len() > 0 {
                let ghost before = runs(out@);
                out.push(word);
                assert(runs(out@) =~= before.push(out@.last()@));
                word = Vec::new();
            }
        } else {
            let ghost before = word@;
            word.push(c);
            proof {
                if before.len() > 0 {
                    let w = words(t.drop_last());
                    assert(w.drop_last() =~= runs(out@));
                    assert(w.last() == before);
                    assert(t[t.len() - 2] == s@[i - 1]);
                } else {
                    assert(word@ =~= seq![c]);
                    if t.len() > 1 {
                        assert(t[t.len() - 2] == s@[i - 1]);
                    }
                }
            }
        }
        i += 1;
    }
    assert(s@.subrange(0, i as int) =~= s@);
    if word.len() > 0 {
        let ghost before = runs(out@);
        out.push(word);
        assert(runs(out@) =~= before.push(out@.last()@));
    }
    out
}

// ---- numbers --------------------------------------------------------------
pub open spec fn is_digit(c: char) -> bool {
    '0' <= c <= '9'
}

pub open spec fn all_digits(s: Seq<char>) -> bool {
    forall|i: int| 0 <= i < s.len() ==> is_digit(#[trigger] s[i])
}

/// The number that decimal digits name.
pub open spec fn value(s: Seq<char>) -> int
    decreases s.len(),
{
    if s.len() == 0 {
        0
    } else {
        10 * value(s.drop_last()) + (s.last() as int - '0' as int)
    }
}

/// The digits of a number.
pub open spec fn decimal(n: nat) -> Seq<char>
    decreases n,
{
    if n < 10 {
        seq![('0' as u32 + n) as char]
    } else {
        decimal(n / 10).push(('0' as u32 + n % 10) as char)
    }
}

/// The digits of a number name it, and there is no leading zero to spare.
pub proof fn lemma_decimal(n: nat)
    ensures
        decimal(n).len() > 0,
        all_digits(decimal(n)),
        value(decimal(n)) == n,
        n > 0 ==> decimal(n)[0] != '0',
    decreases n,
{
    if n < 10 {
        let s = decimal(n);
        assert(s.drop_last() =~= Seq::empty());
        assert(value(s.drop_last()) == 0);
    } else {
        lemma_decimal(n / 10);
        let s = decimal(n);
        assert(s.drop_last() =~= decimal(n / 10));
        assert(s[0] == decimal(n / 10)[0]);
    }
}

/// The text of a signed number.
pub open spec fn signed(n: int) -> Seq<char> {
    if n < 0 {
        seq!['-'] + decimal((-n) as nat)
    } else {
        decimal(n as nat)
    }
}

/// The number a text names where it is digits, after a plus sign or none.
pub open spec fn parse_nat(s: Seq<char>) -> Option<int> {
    let digits = if s.len() > 0 && s[0] == '+' {
        s.subrange(1, s.len() as int)
    } else {
        s
    };
    if digits.len() > 0 && all_digits(digits) {
        Some(value(digits))
    } else {
        None
    }
}

/// The number a text names where it is digits, after a sign or none.
pub open spec fn parse_int(s: Seq<char>) -> Option<int> {
    if s.len() > 0 && s[0] == '-' {
        let digits = s.subrange(1, s.len() as int);
        if digits.len() > 0 && all_digits(digits) {
            Some(-value(digits))
        } else {
            None
        }
    } else {
        parse_nat(s)
    }
}

/// A number, where it lies in a range.
pub open spec fn within(n: Option<int>, lo: int, hi: int) -> Option<int> {
    match n {
        Some(n) => if lo <= n <= hi {
            Some(n)
        } else {
            None
        },
        None => None,
    }
}

/// Writing a number and reading it again gives the number.
pub proof fn lemma_number_round_trip(n: int)
    ensures
        parse_int(signed(n)) == Some(n),
        n >= 0 ==> parse_nat(signed(n)) == Some(n),
        is_trim(signed(n)),
        signed(n).len() > 0,
{
    if n < 0 {
        lemma_decimal((-n) as nat);
        let s = signed(n);
        assert(s.subrange(1, s.len() as int) =~= decimal((-n) as nat));
        assert(s.last() == decimal((-n) as nat).last());
    } else {
        lemma_decimal(n as nat);
        let s = signed(n);
        assert(is_digit(s[0]));
        assert(is_digit(s.last()));
    }
}

pub proof fn lemma_value_monotone(s: Seq<char>, k: int)
    requires
        all_digits(s),
        0 <= k <= s.len(),
    ensures
        0 <= value(s.subrange(0, k)) <= value(s),
    decreases s.len() - k,
{
    if k < s.len() {
        lemma_value_monotone(s, k + 1);
        let t = s.subrange(0, k + 1);
        assert(t.drop_last() =~= s.subrange(0, k));
        lemma_value_nonneg(s.subrange(0, k));
        assert(is_digit(s[k]));
    } else {
        assert(s.subrange(0, k) =~= s);
        lemma_value_nonneg(s);
    }
}

pub proof fn lemma_value_nonneg(s: Seq<char>)
    requires
        all_digits(s),
    ensures
        0 <= value(s),
    decreases s.len(),
{
    if s.len() > 0 {
        assert(all_digits(s.drop_last())) by {
            assert forall|i: int| 0 <= i < s.drop_last().len() implies is_digit(
                #[trigger] s.drop_last()[i],
            ) by {
                assert(is_digit(s[i]));
            }
        }
        lemma_value_nonneg(s.drop_last());
        assert(is_digit(s.last()));
    }
}

/// The number that the characters from `from` on name, where they are digits
/// and the number is at most `max`.
fn read_digits(s: &Vec<char>, from: usize, max: u32) -> (r: Option<u32>)
    requires
        from <= s@.len(),
    ensures
        ({
            let t = s@.subrange(from as int, s@.len() as int);
            match r {
                Some(n) => t.len() > 0 && all_digits(t) && value(t) == n && n <= max,
                None => !(t.len() > 0 && all_digits(t) && value(t) <= max),
            }
        }),
{
    let ghost t = s@.subrange(from as int, s@.len() as int);
    if from == s.len() {
        return None;
    }
    let mut n: u64 = 0;
    let mut i: usize = from;
    assert(t.subrange(0, 0) =~= Seq::empty());
    while i < s.len()
        invariant
            from <= i <= s@.len(),
            t == s@.subrange(from as int, s@.len() as int),
            forall|k: int| 0 <= k < i - from ==> is_digit(#[trigger] t[k]),
            n == value(t.subrange(0, i - from)),
            n <= max,
        decreases s@.len() - i,
    {
        let c: char = s[i];
        if c < '0' || c > '9' {
            assert(!is_digit(t[i - from]));
            return None;
        }
        let d: u64 = c as u64 - '0' as u64;
        proof {
            let u = t.subrange(0, i - from + 1);
            assert(u.drop_last() =~= t.subrange(0, i - from));
        }
        n = 10 * n + d;
        if n > max as u64 {
            proof {
                if all_digits(t) {
                    lemma_value_monotone(t, i - from + 1);
                }
            }
            return None;
        }
        i += 1;
    }
    assert(t.subrange(0, i - from) =~= t);
    Some(n as u32)
}

/// A number as the standard library reads a `u32`.
pub fn parse_u32(s: &Vec<char>) -> (r: Option<u32>)
    ensures
        r is Some <==> within(parse_nat(s@), 0, u32::MAX as int) is Some,
        r matches Some(n) ==> within(parse_nat(s@), 0, u32::MAX as int) == Some(n as int),
{
    parse_upto(s, u32::MAX)
}

/// A number as the standard library reads a `u8`.
pub fn parse_u8(s: &Vec<char>) -> (r: Option<u8>)
    ensures
        r is Some <==> within(parse_nat(s@), 0, 255) is Some,
        r matches Some(n) ==> within(parse_nat(s@), 0, 255) == Some(n as int),
{
    match parse_upto(s, 255) {
        Some(n) => Some(n as u8),
        None => None,
    }
}

fn parse_upto(s: &Vec<char>, max: u32) -> (r: Option<u32>)
    ensures
        r is Some <==> within(parse_nat(s@), 0, max as int) is Some,
        r matches Some(n) ==> within(parse_nat(s@), 0, max as int) == Some(n as int),
{
    let from: usize = if s.len() > 0 && s[0] == '+' { 1 } else { 0 };
    proof {
        assert(s@.subrange(0, s@.len() as int) =~= s@);
        let t = s@.subrange(from as int, s@.len() as int);
        if all_digits(t) {
            lemma_value_nonneg(t);
        }
    }
    read_digits(s, from, max)
}

/// A number as the standard library reads an `i32`.
pub fn parse_i32(s: &Vec<char>) -> (r: Option<i32>)
    ensures
        r is Some <==> within(parse_int(s@), i32::MIN as int, i32::MAX as int) is Some,
        r matches Some(n) ==> within(parse_int(s@), i32::MIN as int, i32::MAX as int) == Some(
            n as int,
        ),
{
    if s.len() > 0 && s[0] == '-' {
        proof {
            let t = s@.subrange(1, s@.len() as int);
            if all_digits(t) {
                lemma_value_nonneg(t);
            }
        }
        match read_digits(s, 1, 0x8000_0000) {
            Some(n) => Some((-(n as i64)) as i32),
            None => None,
        }
    } else {
        proof {
            let from: int = if s@.len() > 0 && s@[0] == '+' { 1 } else { 0 };
            let t = s@.subrange(from, s@.len() as int);
            assert(s@.subrange(0, s@.len() as int) =~= s@);
            if all_digits(t) {
                lemma_value_nonneg(t);
            }
        }
        match parse_upto(s, 0x7fff_ffff) {
            Some(n) => Some(n as i32),
            None => None,
        }
    }
}

/// There is always a piece, if only an empty one.
pub proof fn lemma_split_some(s: Seq<char>, c: char)
    ensures
        split(s, c).len() >= 1,
{
}

/// No piece of a text holds the character that it was split at.
pub proof fn lemma_split_apart(s: Seq<char>, c: char)
    ensures
        forall|i: int| 0 <= i < split(s, c).len() ==> !(#[trigger] split(s, c)[i]).contains(c),
    decreases s.len(),
{
    lemma_find(s, c);
    let at = find(s, c);
    if at < s.len() {
        let rest = s.subrange(at + 1, s.len() as int);
        lemma_split_apart(rest, c);
        let first = s.subrange(0, at);
        assert(!first.contains(c)) by {
            if first.contains(c) {
                let k = choose|k: int| 0 <= k < first.len() && first[k] == c;
                assert(s[k] == c);
            }
        }
        assert forall|i: int| 0 <= i < split(s, c).len() implies !(#[trigger] split(
            s,
            c,
        )[i]).contains(c) by {
            if i > 0 {
                assert(split(s, c)[i] == split(rest, c)[i - 1]);
            }
        }
    } else {
        assert(split(s, c) =~= seq![s]);
    }
}

/// Append a number in decimal.
pub fn push_decimal(out: &mut String, n: u64)
    ensures
        final(out)@ == old(out)@ + decimal(n as nat),
{
    let digits = decimal_chars(n);
    push_chars(out, &digits);
}

/// The digits of a number.
pub fn decimal_chars(n: u64) -> (r: Vec<char>)
    ensures
        r@ == decimal(n as nat),
    decreases n,
{
    if n < 10 {
        let mut out: Vec<char> = Vec::new();
        out.push(digit_char(n as u8));
        assert(out@ =~= decimal(n as nat));
        out
    } else {
        let mut out = decimal_chars(n / 10);
        out.push(digit_char((n % 10) as u8));
        out
    }
}

fn digit_char(d: u8) -> (c: char)
    requires
        d < 10,
    ensures
        c == ('0' as u32 + d) as char,
{
    ('0' as u8 + d) as char
}

/// Append a signed number.
pub fn push_signed(out: &mut String, n: i64)
    requires
        n > i64::MIN,
    ensures
        final(out)@ == old(out)@ + signed(n as int),
{
    if n < 0 {
        let ghost before = out@;
        out.push('-');
        push_decimal(out, (-n) as u64);
        assert(out@ =~= before + signed(n as int));
    } else {
        push_decimal(out, n as u64);
    }
}

/// Append a string.
pub fn push_str(out: &mut String, s: &str)
    ensures
        final(out)@ == old(out)@ + s@,
{
    out.append(s);
}

/// Whether one text stands somewhere in another.
pub open spec fn holds(s: Seq<char>, part: Seq<char>) -> bool {
    exists|at: int| #[trigger] stands_at(s, part, at)
}

pub open spec fn stands_at(s: Seq<char>, part: Seq<char>, at: int) -> bool {
    0 <= at <= s.len() - part.len() && s.subrange(at, at + part.len()) == part
}

/// Whether `part` stands somewhere in `s`.
pub fn contains(s: &Vec<char>, part: &Vec<char>) -> (r: bool)
    ensures
        r == holds(s@, part@),
{
    if part.len() > s.len() {
        return false;
    }
    let mut at: usize = 0;
    while at <= s.len() - part.len()
        invariant
            part@.len() <= s@.len(),
            at <= s@.len() - part@.len() + 1,
            forall|k: int| 0 <= k < at ==> !stands_at(s@, part@, k),
        decreases s@.len() - at + 1,
    {
        let piece = slice(s, at, at + part.len());
        if same(&piece, part) {
            assert(stands_at(s@, part@, at as int));
            return true;
        }
        assert(!stands_at(s@, part@, at as int));
        if at == s.len() - part.len() {
            return false;
        }
        at += 1;
    }
    false
}

/// The text `str::to_lowercase` gives for a text.
pub uninterp spec fn lowercase(s: Seq<char>) -> Seq<char>;

/// `str::to_lowercase`: the text with each upper-case letter replaced by its
/// lower-case equivalent as Unicode has it. What that is depends on the text
/// alone, and only that is claimed.
pub assume_specification[ str::to_lowercase ](s: &str) -> (r: String)
    ensures
        r@ == lowercase(s@),
;

/// A power of ten.
pub open spec fn pow10(k: nat) -> nat
    decreases k,
{
    if k == 0 {
        1
    } else {
        10 * pow10((k - 1) as nat)
    }
}

/// A number below a power of ten has at most so many digits.
pub proof fn lemma_decimal_length(n: nat, k: nat)
    requires
        n < pow10(k),
        k >= 1,
    ensures
        1 <= decimal(n).len() <= k,
    decreases k,
{
    if n >= 10 {
        assert(k > 1) by {
            if k == 1 {
                assert(pow10(0) == 1);
            }
        }
        lemma_decimal_length(n / 10, (k - 1) as nat);
    }
}

/// No 64-bit number has more than twenty digits.
pub proof fn lemma_decimal_short(n: u64)
    ensures
        1 <= decimal(n as nat).len() <= 20,
{
    assert(pow10(20) == 100_000_000_000_000_000_000) by {
        reveal_with_fuel(pow10, 21);
    }
    lemma_decimal_length(n as nat, 20);
}

/// A text as a string of its own.
pub fn copied(s: &str) -> (r: String)
    ensures
        r@ == s@,
{
    let mut out = String::new();
    push_str(&mut out, s);
    assert(out@ =~= s@);
    out
}

/// Two texts, one after the other.
pub fn cat(a: &str, b: &str) -> (r: String)
    ensures
        r@ == a@ + b@,
{
    let mut out = copied(a);
    push_str(&mut out, b);
    out
}

/// Three texts in a row.
pub fn cat3(a: &str, b: &str, c: &str) -> (r: String)
    ensures
        r@ == a@ + b@ + c@,
{
    let mut out = cat(a, b);
    push_str(&mut out, c);
    out
}

/// A number in decimal.
pub fn number(n: u64) -> (r: String)
    ensures
        r@ == decimal(n as nat),
{
    let mut out = String::new();
    push_decimal(&mut out, n);
    assert(out@ =~= decimal(n as nat));
    out
}

// ---- taking texts apart -----------------------------------------------------
/// What counts as white space among the characters that keyboards have: the
/// space, and tabulators and line breaks.
pub proof fn lemma_plain_white_space(c: char)
    requires
        (c as u32) < 128,
    ensures
        is_space(c) <==> c as u32 == 32 || 9 <= c as u32 <= 13,
{
}

/// Pieces with a character between each two of them.
pub open spec fn joined_by(pieces: Seq<Seq<char>>, c: char) -> Seq<char>
    decreases pieces.len(),
{
    if pieces.len() == 0 {
        Seq::empty()
    } else if pieces.len() == 1 {
        pieces[0]
    } else {
        pieces[0] + seq![c] + joined_by(pieces.subrange(1, pieces.len() as int), c)
    }
}

/// The pieces of a text, put together again, are the text.
pub proof fn lemma_pieces_make_the_text(s: Seq<char>, c: char)
    ensures
        joined_by(split(s, c), c) == s,
        forall|i: int| 0 <= i < split(s, c).len() ==> !(#[trigger] split(s, c)[i]).contains(c),
    decreases s.len(),
{
    lemma_split_apart(s, c);
    lemma_find(s, c);
    let at = find(s, c);
    let pieces = split(s, c);
    if at < s.len() {
        let rest = s.subrange(at + 1, s.len() as int);
        lemma_pieces_make_the_text(rest, c);
        lemma_split_some(rest, c);
        assert(pieces.subrange(1, pieces.len() as int) =~= split(rest, c));
        assert(s.subrange(0, at) + seq![c] + rest =~= s);
    }
}

/// Whether a text is white space alone.
pub open spec fn is_blank(s: Seq<char>) -> bool {
    forall|i: int| 0 <= i < s.len() ==> is_space(#[trigger] s[i])
}

proof fn lemma_start_comes_off(s: Seq<char>)
    ensures
        trim_start(s).len() <= s.len(),
        trim_start(s) == s.subrange(s.len() - trim_start(s).len(), s.len() as int),
        is_blank(s.subrange(0, s.len() - trim_start(s).len())),
    decreases s.len(),
{
    if s.len() > 0 && is_space(s[0]) {
        let rest = s.subrange(1, s.len() as int);
        lemma_start_comes_off(rest);
        let off = s.len() - trim_start(s).len();
        assert(trim_start(s) =~= s.subrange(off, s.len() as int));
        assert forall|i: int| 0 <= i < off implies is_space(#[trigger] s.subrange(0, off)[i]) by {
            if i > 0 {
                assert(rest.subrange(0, off - 1)[i - 1] == s[i]);
            }
        }
    } else {
        assert(s.subrange(0, s.len() as int) =~= s);
    }
}

proof fn lemma_end_comes_off(s: Seq<char>)
    ensures
        trim_end(s).len() <= s.len(),
        trim_end(s) == s.subrange(0, trim_end(s).len() as int),
        is_blank(s.subrange(trim_end(s).len() as int, s.len() as int)),
    decreases s.len(),
{
    if s.len() > 0 && is_space(s.last()) {
        let rest = s.drop_last();
        lemma_end_comes_off(rest);
        let n = trim_end(s).len() as int;
        assert(trim_end(s) =~= s.subrange(0, n));
        assert forall|i: int| 0 <= i < s.len() - n implies is_space(
            #[trigger] s.subrange(n, s.len() as int)[i],
        ) by {
            if i < rest.len() - n {
                assert(rest.subrange(n, rest.len() as int)[i] == s[n + i]);
            }
        }
    } else {
        assert(s.subrange(0, s.len() as int) =~= s);
    }
}

/// Trimming takes white space off both ends and nothing else: what is left
/// stands in the text between two blank stretches, and neither begins nor ends
/// with white space.
pub proof fn lemma_only_white_space_comes_off(s: Seq<char>) -> (r: (Seq<char>, Seq<char>))
    ensures
        s == r.0 + trim(s) + r.1,
        is_blank(r.0),
        is_blank(r.1),
        trim(s).len() > 0 ==> !is_space(trim(s)[0]) && !is_space(trim(s).last()),
{
    let t = trim_start(s);
    lemma_trim_trims(s);
    lemma_start_comes_off(s);
    lemma_end_comes_off(t);
    let before = s.subrange(0, s.len() - t.len());
    let after = t.subrange(trim(s).len() as int, t.len() as int);
    assert(s =~= before + trim(s) + after);
    (before, after)
}

/// Words are runs without white space: white space ends one, whichever it is,
/// and the next begins with the next character that is none.
pub proof fn lemma_white_space_parts_words(s: Seq<char>, c: char, w: Seq<char>)
    requires
        is_space(c),
        is_word(w),
    ensures
        words(s.push(c)) == words(s),
        words(s.push(c) + w) == words(s).push(w),
        words(w) == seq![w],
    decreases w.len(),
{
    lemma_words_one(w);
    let gap = s.push(c);
    assert(gap.drop_last() =~= s);
    let all = gap + w;
    let t = w.drop_last();
    assert(all.drop_last() =~= gap + t);
    assert(!is_space(w[w.len() - 1]));
    if t.len() == 0 {
        assert(gap + t =~= gap);
        assert(all[all.len() - 2] == c);
        assert(seq![w.last()] =~= w);
        assert(all.last() == w.last());
    } else {
        assert forall|i: int| 0 <= i < t.len() implies !is_space(#[trigger] t[i]) by {
            assert(!is_space(w[i]));
        }
        lemma_white_space_parts_words(s, c, t);
        assert(all[all.len() - 2] == w[w.len() - 2]);
        assert(!is_space(w[w.len() - 2]));
        assert(t.push(w.last()) =~= w);
        let before = words(gap + t);
        assert(before == words(s).push(t));
        assert(before.drop_last() =~= words(s));
        assert(before.last() == t);
    }
}

/// A text names a number only where it is digits behind a sign or none; a plus
/// sign and zeros before them change nothing.
pub proof fn lemma_what_is_a_number(s: Seq<char>, n: nat)
    ensures
        s.len() == 0 ==> parse_int(s) is None,
        (exists|i: int| 1 <= i < s.len() && !('0' <= #[trigger] s[i] <= '9')) ==> parse_int(s)
            is None && parse_nat(s) is None,
        s.len() > 0 && s[0] != '+' && s[0] != '-' && !('0' <= s[0] <= '9') ==> parse_int(s) is None,
        s.len() > 0 && s[0] == '-' ==> parse_nat(s) is None,
        parse_nat(seq!['+'] + decimal(n)) == Some(n as int),
        parse_nat(seq!['0'] + decimal(n)) == Some(n as int),
        parse_nat(decimal(n)) == Some(n as int),
        parse_int(seq!['-'] + decimal(n)) == Some(-(n as int)),
{
    lemma_decimal(n);
    let d = decimal(n);
    if exists|i: int| 1 <= i < s.len() && !('0' <= #[trigger] s[i] <= '9') {
        let i = choose|i: int| 1 <= i < s.len() && !('0' <= #[trigger] s[i] <= '9');
        let rest = s.subrange(1, s.len() as int);
        assert(!is_digit(rest[i - 1]));
        assert(!is_digit(s[i]));
    }
    if s.len() > 0 {
        assert(!is_digit('-'));
        if !('0' <= s[0] <= '9') {
            assert(!is_digit(s[0]));
        }
    }
    let (p, m, z) = (seq!['+'] + d, seq!['-'] + d, seq!['0'] + d);
    assert(p.subrange(1, p.len() as int) =~= d);
    assert(m.subrange(1, m.len() as int) =~= d);
    lemma_zeros_add_nothing(d);
    assert forall|i: int| 0 <= i < z.len() implies is_digit(#[trigger] z[i]) by {
        if i > 0 {
            assert(is_digit(d[i - 1]));
        }
    }
    assert(is_digit(d[0]));
}

proof fn lemma_zeros_add_nothing(d: Seq<char>)
    ensures
        value(seq!['0'] + d) == value(d),
    decreases d.len(),
{
    let z = seq!['0'] + d;
    if d.len() == 0 {
        assert(z.drop_last() =~= Seq::empty());
        assert(value(z.drop_last()) == 0);
    } else {
        lemma_zeros_add_nothing(d.drop_last());
        assert(z.drop_last() =~= seq!['0'] + d.drop_last());
    }
}

} // verus!
