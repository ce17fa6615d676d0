//! Names of assets: what they share, how they sort, and numbers people read.

use std::cmp::Ordering;
use vstd::prelude::*;
use vstd::string::StrSliceExecFns;

use crate::order;
use crate::text;

verus! {

// ---- variant families -----------------------------------------------------
pub open spec fn is_separator(c: char) -> bool {
    c == '_' || c == '-'
}

/// Where the last separator stands, or -1 where there is none.
pub open spec fn last_separator(s: Seq<char>) -> int
    decreases s.len(),
{
    if s.len() == 0 {
        -1
    } else if is_separator(s.last()) {
        s.len() - 1
    } else {
        last_separator(s.drop_last())
    }
}

/// The part of a name before its last separator, unless the name begins there.
pub open spec fn family_of_name(name: Seq<char>) -> Option<Seq<char>> {
    let cut = last_separator(name);
    if cut >= 1 {
        Some(name.subrange(0, cut))
    } else {
        None
    }
}

/// The prefix an asset shares with its variants, if it has any.
///
/// Two shapes cover what asset packs ship: a numeric tail after a separator
/// (`crate-0`, `bench_coastal-1`), and a descriptive tail after the last
/// separator (`bed_cliff_head`, `barrel_wood_coal`). Whether a prefix is
/// really a family is decided later, by counting how many files share it.
pub fn family_key(name: &str) -> (r: Option<String>)
    ensures
        match r {
            Some(k) => family_of_name(name@) == Some(k@),
            None => family_of_name(name@) is None,
        },
{
    let s = text::chars_of(name);
    let mut i: usize = s.len();
    assert(s@.subrange(0, i as int) =~= s@);
    while i > 0 && s[i - 1] != '_' && s[i - 1] != '-'
        invariant
            i <= s@.len(),
            last_separator(s@.subrange(0, i as int)) == last_separator(s@),
        decreases i,
    {
        assert(s@.subrange(0, i as int).drop_last() =~= s@.subrange(0, i as int - 1));
        i -= 1;
    }
    if i <= 1 {
        None
    } else {
        Some(text::string_of(&text::slice(&s, 0, i - 1)))
    }
}

pub open spec fn starts_with(s: Seq<char>, p: Seq<char>) -> bool {
    p.len() <= s.len() && s.subrange(0, p.len() as int) == p
}

/// A text without the separators it begins with.
pub open spec fn without_separators(s: Seq<char>) -> Seq<char>
    decreases s.len(),
{
    if s.len() > 0 && is_separator(s[0]) {
        without_separators(s.subrange(1, s.len() as int))
    } else {
        s
    }
}

/// What is left of a name after its family's prefix and the separators behind it.
pub open spec fn tail_of(name: Seq<char>, key: Seq<char>) -> Seq<char> {
    if starts_with(name, key) {
        without_separators(name.subrange(key.len() as int, name.len() as int))
    } else {
        name
    }
}

/// The part of `name` that distinguishes it inside its family.
pub fn family_tail<'a>(name: &'a str, key: &str) -> (r: &'a str)
    ensures
        r@ == tail_of(name@, key@),
{
    let s = text::chars_of(name);
    let k = text::chars_of(key);
    if k.len() > s.len() {
        return name;
    }
    if !text::same(&text::slice(&s, 0, k.len()), &k) {
        return name;
    }
    let mut i: usize = k.len();
    let ghost start = s@.subrange(k@.len() as int, s@.len() as int);
    while i < s.len() && (s[i] == '_' || s[i] == '-')
        invariant
            k@.len() <= i <= s@.len(),
            without_separators(s@.subrange(i as int, s@.len() as int)) == without_separators(start),
        decreases s@.len() - i,
    {
        let ghost rest = s@.subrange(i as int, s@.len() as int);
        assert(rest.subrange(1, rest.len() as int) =~= s@.subrange(i as int + 1, s@.len() as int));
        i += 1;
    }
    name.substring_char(i, s.len())
}

// ---- natural order --------------------------------------------------------
pub open spec fn digit(b: u8) -> bool {
    48 <= b <= 57
}

/// How many digits a name begins with.
pub open spec fn digits(s: Seq<u8>) -> int
    decreases s.len(),
{
    if s.len() > 0 && digit(s[0]) {
        1 + digits(s.subrange(1, s.len() as int))
    } else {
        0
    }
}

/// The number that decimal digits name.
pub open spec fn number(s: Seq<u8>) -> int
    decreases s.len(),
{
    if s.len() == 0 {
        0
    } else {
        10 * number(s.drop_last()) + (s.last() - 48)
    }
}

/// A number, cut off at what 64 bits can hold. A run of digits longer than
/// that is not a number anyone meant.
pub open spec fn cut_off(n: int) -> int {
    if n > u64::MAX {
        u64::MAX as int
    } else {
        n
    }
}

pub open spec fn lower(b: u8) -> int {
    if 65 <= b <= 90 {
        b + 32
    } else {
        b as int
    }
}

/// Where a byte that is no digit sorts: below all numbers or above them, as
/// the digits themselves would have it, and without regard to case.
pub open spec fn byte_rank(b: u8) -> int {
    if lower(b) < 48 {
        lower(b)
    } else {
        lower(b) + 0x1_0000_0000_0000_0000
    }
}

/// What a name sorts by: its digit runs as numbers, its other bytes as themselves.
pub open spec fn natural_key(s: Seq<u8>) -> Seq<int>
    decreases s.len(),
    via natural_key_decreases
{
    if s.len() == 0 {
        Seq::empty()
    } else if digit(s[0]) {
        let n = digits(s);
        seq![48 + cut_off(number(s.subrange(0, n)))] + natural_key(s.subrange(n, s.len() as int))
    } else {
        seq![byte_rank(s[0])] + natural_key(s.subrange(1, s.len() as int))
    }
}

#[via_fn]
proof fn natural_key_decreases(s: Seq<u8>) {
    lemma_digits(s);
    if s.len() > 0 && digit(s[0]) {
        lemma_digits(s.subrange(1, s.len() as int));
    }
}

proof fn lemma_digits(s: Seq<u8>)
    ensures
        0 <= digits(s) <= s.len(),
        forall|i: int| 0 <= i < digits(s) ==> digit(#[trigger] s[i]),
        digits(s) < s.len() ==> !digit(s[digits(s)]),
    decreases s.len(),
{
    if s.len() > 0 && digit(s[0]) {
        let t = s.subrange(1, s.len() as int);
        lemma_digits(t);
        assert forall|i: int| 0 <= i < digits(s) implies digit(#[trigger] s[i]) by {
            if i > 0 {
                assert(digit(t[i - 1]));
            }
        }
    }
}

proof fn lemma_digits_is(s: Seq<u8>, n: int)
    requires
        0 <= n <= s.len(),
        forall|i: int| 0 <= i < n ==> digit(#[trigger] s[i]),
        n < s.len() ==> !digit(s[n]),
    ensures
        digits(s) == n,
    decreases s.len(),
{
    if n > 0 {
        let t = s.subrange(1, s.len() as int);
        assert(digit(s[0]));
        assert forall|i: int| 0 <= i < n - 1 implies digit(#[trigger] t[i]) by {
            assert(digit(s[i + 1]));
        }
        lemma_digits_is(t, n - 1);
    }
}

/// The bytes that names compare by are all at least nothing.
pub proof fn lemma_natural_key_nonnegative(s: Seq<u8>)
    ensures
        order::at_least(natural_key(s), 0),
    decreases s.len(),
{
    if s.len() > 0 {
        lemma_digits(s);
        let k = natural_key(s);
        if digit(s[0]) {
            lemma_digits(s.subrange(1, s.len() as int));
            let n = digits(s);
            let rest = s.subrange(n, s.len() as int);
            lemma_natural_key_nonnegative(rest);
            lemma_number_nonnegative(s.subrange(0, n));
            assert forall|i: int| 0 <= i < k.len() implies 0 <= #[trigger] k[i] by {
                if i > 0 {
                    assert(k[i] == natural_key(rest)[i - 1]);
                }
            }
        } else {
            let rest = s.subrange(1, s.len() as int);
            lemma_natural_key_nonnegative(rest);
            assert forall|i: int| 0 <= i < k.len() implies 0 <= #[trigger] k[i] by {
                if i > 0 {
                    assert(k[i] == natural_key(rest)[i - 1]);
                }
            }
        }
    }
}

proof fn lemma_number_nonnegative(s: Seq<u8>)
    requires
        forall|i: int| 0 <= i < s.len() ==> digit(#[trigger] s[i]),
    ensures
        0 <= number(s),
    decreases s.len(),
{
    if s.len() > 0 {
        let t = s.drop_last();
        assert forall|i: int| 0 <= i < t.len() implies digit(#[trigger] t[i]) by {
            assert(digit(s[i]));
        }
        lemma_number_nonnegative(t);
        assert(digit(s[s.len() - 1]));
    }
}

/// The number a run of digits names, and where the run ends.
fn take_number(s: &[u8], from: usize) -> (r: (u64, usize))
    requires
        from < s@.len(),
        digit(s@[from as int]),
    ensures
        ({
            let t = s@.subrange(from as int, s@.len() as int);
            &&& r.1 == from + digits(t)
            &&& r.0 == cut_off(number(t.subrange(0, digits(t))))
        }),
        from < r.1 <= s@.len(),
{
    let ghost t = s@.subrange(from as int, s@.len() as int);
    let mut value: u64 = 0;
    let mut i: usize = from;
    assert(t.subrange(0, 0) =~= Seq::empty());
    while i < s.len() && 48 <= s[i] && s[i] <= 57
        invariant
            from <= i <= s@.len(),
            t == s@.subrange(from as int, s@.len() as int),
            forall|k: int| 0 <= k < i - from ==> digit(#[trigger] t[k]),
            number(t.subrange(0, i - from)) >= 0,
            value == cut_off(number(t.subrange(0, i - from))),
        decreases s@.len() - i,
    {
        let d: u64 = (s[i] - 48) as u64;
        proof {
            let u = t.subrange(0, i - from + 1);
            assert(u.drop_last() =~= t.subrange(0, i - from));
            assert(t[i - from] == s@[i as int]);
        }
        // A run longer than a u64 can hold is clamped rather than wrapped.
        value = if value > (u64::MAX - d) / 10 {
            u64::MAX
        } else {
            10 * value + d
        };
        i += 1;
    }
    proof {
        lemma_digits_is(t, i - from);
    }
    (value, i)
}

fn rank_of(b: u8) -> (r: u32)
    requires
        !digit(b),
    ensures
        r == lower(b),
{
    if 65 <= b && b <= 90 {
        b as u32 + 32
    } else {
        b as u32
    }
}

/// -1, 0 or 1 as one key comes before another, is the same, or comes after it.
pub open spec fn three_way(a: Seq<int>, b: Seq<int>) -> int {
    if a == b {
        0
    } else if order::lex_le(a, b) {
        -1
    } else {
        1
    }
}

pub proof fn lemma_three_way_step(x: int, a: Seq<int>, y: int, b: Seq<int>)
    ensures
        three_way(seq![x] + a, seq![y] + b) == (if x < y {
            -1
        } else if x > y {
            1
        } else {
            three_way(a, b)
        }),
{
    let (p, q) = (seq![x] + a, seq![y] + b);
    assert(p.subrange(1, p.len() as int) =~= a);
    assert(q.subrange(1, q.len() as int) =~= b);
    assert(p[0] == x && q[0] == y);
    if a == b && x == y {
        assert(p =~= q);
    }
}

/// Compare two names the way a person reads them: -1, 0 or 1.
pub fn compare_names(a: &str, b: &str) -> (r: i8)
    ensures
        r == three_way(
            natural_key(vstd::utf8::encode_utf8(a@)),
            natural_key(vstd::utf8::encode_utf8(b@)),
        ),
{
    let (x, y): (&[u8], &[u8]) = (a.as_bytes(), b.as_bytes());
    let ghost (kx, ky) = (natural_key(x@), natural_key(y@));
    let (mut i, mut j): (usize, usize) = (0, 0);
    assert(x@.subrange(0, x@.len() as int) =~= x@);
    assert(y@.subrange(0, y@.len() as int) =~= y@);
    loop
        invariant
            i <= x@.len(),
            j <= y@.len(),
            kx == natural_key(x@),
            ky == natural_key(y@),
            three_way(
                natural_key(x@.subrange(i as int, x@.len() as int)),
                natural_key(y@.subrange(j as int, y@.len() as int)),
            ) == three_way(kx, ky),
            x@ == vstd::utf8::encode_utf8(a@),
            y@ == vstd::utf8::encode_utf8(b@),
        decreases x@.len() - i,
    {
        let ghost s = x@.subrange(i as int, x@.len() as int);
        let ghost t = y@.subrange(j as int, y@.len() as int);
        if i == x.len() || j == y.len() {
            let ends: i8 = if i < x.len() {
                1
            } else if j < y.len() {
                -1
            } else {
                0
            };
            proof {
                lemma_key_of_something(s);
                lemma_key_of_something(t);
                if s.len() == 0 && t.len() == 0 {
                    assert(natural_key(s) =~= natural_key(t));
                }
            }
            return ends;
        }
        let (p, q): (u8, u8) = (x[i], y[j]);
        assert(s[0] == p && t[0] == q);
        let dp = 48 <= p && p <= 57;
        let dq = 48 <= q && q <= 57;
        if dp && dq {
            let (n, next_i): (u64, usize) = take_number(x, i);
            let (m, next_j): (u64, usize) = take_number(y, j);
            proof {
                assert(s.subrange(digits(s), s.len() as int) =~= x@.subrange(
                    next_i as int,
                    x@.len() as int,
                ));
                assert(t.subrange(digits(t), t.len() as int) =~= y@.subrange(
                    next_j as int,
                    y@.len() as int,
                ));
                lemma_three_way_step(
                    48 + n as int,
                    natural_key(s.subrange(digits(s), s.len() as int)),
                    48 + m as int,
                    natural_key(t.subrange(digits(t), t.len() as int)),
                );
            }
            if n < m {
                return -1;
            } else if n > m {
                return 1;
            }
            i = next_i;
            j = next_j;
        } else {
            let rest_s = Ghost(s.subrange(1, s.len() as int));
            let rest_t = Ghost(t.subrange(1, t.len() as int));
            if dp || dq {
                // A digit against something else: the bytes decide.
                proof {
                    lemma_mixed(s, t);
                }
                return if p < q { -1 } else { 1 };
            }
            let (n, m): (u32, u32) = (rank_of(p), rank_of(q));
            proof {
                assert(rest_s@ =~= x@.subrange(i as int + 1, x@.len() as int));
                assert(rest_t@ =~= y@.subrange(j as int + 1, y@.len() as int));
                lemma_three_way_step(
                    byte_rank(p),
                    natural_key(rest_s@),
                    byte_rank(q),
                    natural_key(rest_t@),
                );
            }
            if n < m {
                return -1;
            } else if n > m {
                return 1;
            }
            i += 1;
            j += 1;
        }
    }
}

proof fn lemma_key_of_something(s: Seq<u8>)
    ensures
        s.len() > 0 <==> natural_key(s).len() > 0,
{
    lemma_digits(s);
}

/// Where one name goes on with a digit and another with something else, the
/// two bytes themselves say which comes first.
proof fn lemma_mixed(s: Seq<u8>, t: Seq<u8>)
    requires
        s.len() > 0,
        t.len() > 0,
        digit(s[0]) != digit(t[0]),
    ensures
        three_way(natural_key(s), natural_key(t)) == (if s[0] < t[0] {
            -1int
        } else {
            1
        }),
{
    lemma_digits(s);
    lemma_digits(t);
    let (n, m) = (digits(s), digits(t));
    if digit(s[0]) {
        lemma_number_nonnegative(s.subrange(0, n));
        lemma_three_way_step(
            48 + cut_off(number(s.subrange(0, n))),
            natural_key(s.subrange(n, s.len() as int)),
            byte_rank(t[0]),
            natural_key(t.subrange(1, t.len() as int)),
        );
    } else {
        lemma_number_nonnegative(t.subrange(0, m));
        lemma_three_way_step(
            byte_rank(s[0]),
            natural_key(s.subrange(1, s.len() as int)),
            48 + cut_off(number(t.subrange(0, m))),
            natural_key(t.subrange(m, t.len() as int)),
        );
    }
}

/// Compare names the way a person reads them, so `crate-10` sorts after
/// `crate-9` instead of between `crate-1` and `crate-2`.
pub fn natural_cmp(a: &str, b: &str) -> (r: Ordering)
    ensures
        match r {
            Ordering::Less => three_way(name_key(a@), name_key(b@)) == -1,
            Ordering::Equal => three_way(name_key(a@), name_key(b@)) == 0,
            Ordering::Greater => three_way(name_key(a@), name_key(b@)) == 1,
        },
{
    let r: i8 = compare_names(a, b);
    if r < 0 {
        Ordering::Less
    } else if r == 0 {
        Ordering::Equal
    } else {
        Ordering::Greater
    }
}

/// What a name sorts by.
pub open spec fn name_key(name: Seq<char>) -> Seq<int> {
    natural_key(vstd::utf8::encode_utf8(name))
}

// ---- numbers people read --------------------------------------------------
/// Three digits, with leading zeros.
pub open spec fn three_digits(n: nat) -> Seq<char> {
    seq![
        ('0' as u32 + n / 100 % 10) as char,
        ('0' as u32 + n / 10 % 10) as char,
        ('0' as u32 + n % 10) as char,
    ]
}

/// A number with its digits in groups of three.
pub open spec fn grouped(n: nat) -> Seq<char>
    decreases n,
{
    if n < 1000 {
        text::decimal(n)
    } else {
        grouped(n / 1000) + seq![','] + three_digits(n % 1000)
    }
}

/// `1234567` as `1,234,567`.
pub fn thousands(n: usize) -> (r: String)
    ensures
        r@ == grouped(n as nat),
    decreases n,
{
    if n < 1000 {
        let mut out = String::new();
        text::push_decimal(&mut out, n as u64);
        assert(out@ =~= grouped(n as nat));
        out
    } else {
        let mut out = thousands(n / 1000);
        let ghost before = out@;
        let m: usize = n % 1000;
        out.push(',');
        out.push(digit_char(m / 100 % 10));
        out.push(digit_char(m / 10 % 10));
        out.push(digit_char(m % 10));
        assert(out@ =~= before + seq![','] + three_digits(m as nat));
        out
    }
}

/// The character of a digit.
pub fn digit_char(d: usize) -> (c: char)
    requires
        d < 10,
    ensures
        c == ('0' as u32 + d) as char,
{
    (48u8 + d as u8) as char
}

/// Taking the commas out of a grouped number leaves its digits.
pub proof fn lemma_grouping_only_adds_commas(n: nat)
    ensures
        grouped(n).filter(|c: char| c != ',') == text::decimal(n),
    decreases n,
{
    let p = |c: char| c != ',';
    if n < 1000 {
        text::lemma_decimal(n);
        lemma_filter_all(text::decimal(n), p);
    } else {
        lemma_grouping_only_adds_commas(n / 1000);
        let (a, b) = (grouped(n / 1000), three_digits(n % 1000));
        Seq::filter_distributes_over_add(a, seq![','], p);
        Seq::filter_distributes_over_add(a + seq![','], b, p);
        lemma_comma_goes(p);
        lemma_filter_all(b, p);
        assert(grouped(n).filter(p) =~= text::decimal(n / 1000) + b);
        lemma_decimal_by_thousand(n);
    }
}

proof fn lemma_decimal_by_thousand(n: nat)
    requires
        n >= 1000,
    ensures
        text::decimal(n) == text::decimal(n / 1000) + three_digits(n % 1000),
{
    let (a, b) = (n / 10, n / 100);
    assert(text::decimal(n) == text::decimal(a).push(('0' as u32 + n % 10) as char));
    assert(text::decimal(a) == text::decimal(a / 10).push(('0' as u32 + a % 10) as char));
    assert(a / 10 == b);
    assert(text::decimal(b) == text::decimal(b / 10).push(('0' as u32 + b % 10) as char));
    assert(b / 10 == n / 1000);
    assert(n % 1000 / 100 % 10 == b % 10);
    assert(n % 1000 / 10 % 10 == a % 10);
    assert(n % 1000 % 10 == n % 10);
    assert(text::decimal(n) =~= text::decimal(n / 1000) + three_digits(n % 1000));
}

proof fn lemma_comma_goes(p: spec_fn(char) -> bool)
    requires
        !p(','),
    ensures
        seq![','].filter(p) == Seq::<char>::empty(),
{
    reveal_with_fuel(Seq::filter, 2);
    let one = seq![','];
    assert(one.drop_last() =~= Seq::<char>::empty());
    assert(one.filter(p) =~= Seq::<char>::empty());
}

proof fn lemma_filter_all(s: Seq<char>, p: spec_fn(char) -> bool)
    requires
        forall|i: int| 0 <= i < s.len() ==> p(#[trigger] s[i]),
    ensures
        s.filter(p) == s,
    decreases s.len(),
{
    reveal(Seq::filter);
    if s.len() > 0 {
        let t = s.drop_last();
        assert forall|i: int| 0 <= i < t.len() implies p(#[trigger] t[i]) by {
            assert(p(s[i]));
        }
        lemma_filter_all(t, p);
        assert(p(s[s.len() - 1]));
        assert(t.push(s.last()) =~= s);
    }
}

// ---- what names promise -----------------------------------------------------
proof fn lemma_last_separator(s: Seq<char>)
    ensures
        -1 <= last_separator(s) < s.len(),
        last_separator(s) >= 0 ==> is_separator(s[last_separator(s)]),
        forall|i: int| last_separator(s) < i < s.len() ==> !is_separator(#[trigger] s[i]),
    decreases s.len(),
{
    if s.len() > 0 && !is_separator(s.last()) {
        let rest = s.drop_last();
        lemma_last_separator(rest);
        assert forall|i: int| last_separator(s) < i < s.len() implies !is_separator(
            #[trigger] s[i],
        ) by {
            if i < rest.len() {
                assert(rest[i] == s[i]);
            }
        }
    }
}

/// What a name shares with its variants is all before its last underscore or
/// hyphen. A name without one past its first character shares nothing.
pub proof fn lemma_a_family_ends_at_the_last_separator(name: Seq<char>)
    ensures
        match family_of_name(name) {
            Some(key) => {
                let n = key.len() as int;
                &&& 1 <= n < name.len()
                &&& key == name.subrange(0, n)
                &&& name[n] == '_' || name[n] == '-'
                &&& forall|i: int|
                    n < i < name.len() ==> (#[trigger] name[i]) != '_' && name[i] != '-'
            },
            None => forall|i: int|
                1 <= i < name.len() ==> (#[trigger] name[i]) != '_' && name[i] != '-',
        },
{
    lemma_last_separator(name);
    assert forall|i: int| last_separator(name) < i < name.len() implies (#[trigger] name[i]) != '_'
        && name[i] != '-' by {
        assert(!is_separator(name[i]));
    }
}

/// What tells a name apart in its family is what is left behind the shared
/// beginning and the separators after it; a name that does not begin so is all
/// of it.
pub proof fn lemma_a_tail_is_what_is_left(key: Seq<char>, marks: Seq<char>, tail: Seq<char>)
    requires
        forall|i: int| 0 <= i < marks.len() ==> (#[trigger] marks[i]) == '_' || marks[i] == '-',
        tail.len() > 0 ==> tail[0] != '_' && tail[0] != '-',
    ensures
        tail_of(key + marks + tail, key) == tail,
        forall|name: Seq<char>|
            (forall|rest: Seq<char>| name != #[trigger] (key + rest)) ==> #[trigger] tail_of(
                name,
                key,
            ) == name,
{
    let name = key + marks + tail;
    assert(name.subrange(0, key.len() as int) =~= key);
    assert(name.subrange(key.len() as int, name.len() as int) =~= marks + tail);
    lemma_separators_go(marks, tail);
    assert forall|name: Seq<char>|
        (forall|rest: Seq<char>| name != #[trigger] (key + rest)) implies #[trigger] tail_of(
        name,
        key,
    ) == name by {
        if starts_with(name, key) {
            let rest = name.subrange(key.len() as int, name.len() as int);
            assert(name =~= key + rest);
        }
    }
}

proof fn lemma_separators_go(marks: Seq<char>, tail: Seq<char>)
    requires
        forall|i: int| 0 <= i < marks.len() ==> (#[trigger] marks[i]) == '_' || marks[i] == '-',
        tail.len() > 0 ==> tail[0] != '_' && tail[0] != '-',
    ensures
        without_separators(marks + tail) == tail,
    decreases marks.len(),
{
    if marks.len() == 0 {
        assert(marks + tail =~= tail);
    } else {
        let rest = marks.subrange(1, marks.len() as int);
        assert(marks[0] == '_' || marks[0] == '-');
        assert((marks + tail)[0] == marks[0]);
        assert((marks + tail).subrange(1, (marks + tail).len() as int) =~= rest + tail);
        assert forall|i: int| 0 <= i < rest.len() implies (#[trigger] rest[i]) == '_' || rest[i]
            == '-' by {
            assert(rest[i] == marks[i + 1]);
        }
        lemma_separators_go(rest, tail);
    }
}

/// Whether bytes are all digits.
pub open spec fn only_digits(s: Seq<u8>) -> bool {
    forall|i: int| 0 <= i < s.len() ==> 48 <= (#[trigger] s[i]) <= 57
}

proof fn lemma_key_of_prefix(p: Seq<u8>, s: Seq<u8>)
    requires
        p.len() == 0 || !digit(p.last()) || s.len() == 0 || !digit(s[0]),
    ensures
        natural_key(p + s) == natural_key(p) + natural_key(s),
    decreases p.len(),
{
    if p.len() == 0 {
        assert(p + s =~= s);
        assert(natural_key(p) + natural_key(s) =~= natural_key(s));
    } else {
        let all = p + s;
        assert(all[0] == p[0]);
        lemma_digits(p);
        lemma_digits(all);
        if digit(p[0]) {
            let n = digits(p);
            assert(n >= 1) by {
                lemma_digits(p.subrange(1, p.len() as int));
            }
            assert forall|i: int| 0 <= i < n implies digit(#[trigger] all[i]) by {
                assert(all[i] == p[i]);
            }
            if n < p.len() {
                assert(all[n] == p[n]);
            } else if s.len() > 0 {
                assert(all[n] == s[0]);
                assert(digit(p[p.len() - 1]));
            }
            lemma_digits_is(all, n);
            let rest = p.subrange(n, p.len() as int);
            assert(all.subrange(n, all.len() as int) =~= rest + s);
            assert(all.subrange(0, n) =~= p.subrange(0, n));
            if rest.len() > 0 {
                assert(rest.last() == p.last());
            }
            lemma_key_of_prefix(rest, s);
            let one = seq![48 + cut_off(number(p.subrange(0, n)))];
            assert(one + (natural_key(rest) + natural_key(s)) =~= one + natural_key(rest)
                + natural_key(s));
        } else {
            let rest = p.subrange(1, p.len() as int);
            assert(all.subrange(1, all.len() as int) =~= rest + s);
            if rest.len() > 0 {
                assert(rest.last() == p.last());
            }
            lemma_key_of_prefix(rest, s);
            let one = seq![byte_rank(p[0])];
            assert(one + (natural_key(rest) + natural_key(s)) =~= one + natural_key(rest)
                + natural_key(s));
        }
    }
}

proof fn lemma_three_way_prefix(p: Seq<int>, a: Seq<int>, b: Seq<int>)
    ensures
        three_way(p + a, p + b) == three_way(a, b),
{
    order::lemma_lex_prefix(p, a, b);
    if p + a == p + b {
        assert((p + a).subrange(p.len() as int, (p + a).len() as int) =~= a);
        assert((p + b).subrange(p.len() as int, (p + b).len() as int) =~= b);
    }
}

proof fn lemma_key_of_run(d: Seq<u8>, rest: Seq<u8>)
    requires
        d.len() > 0,
        only_digits(d),
        rest.len() > 0 ==> !digit(rest[0]),
    ensures
        natural_key(d + rest) == seq![48 + cut_off(number(d))] + natural_key(rest),
{
    let all = d + rest;
    assert forall|i: int| 0 <= i < d.len() implies digit(#[trigger] all[i]) by {
        assert(all[i] == d[i]);
    }
    if rest.len() > 0 {
        assert(all[d.len() as int] == rest[0]);
    }
    lemma_digits_is(all, d.len() as int);
    assert(digit(all[0]));
    assert(all.subrange(0, d.len() as int) =~= d);
    assert(all.subrange(d.len() as int, all.len() as int) =~= rest);
}

/// Names that agree up to a number come in the order of the numbers, however
/// many digits those have, as long as 64 bits can hold them.
pub proof fn lemma_numbers_in_names_count(
    p: Seq<u8>,
    d: Seq<u8>,
    x: Seq<u8>,
    e: Seq<u8>,
    y: Seq<u8>,
)
    requires
        p.len() > 0 ==> !digit(p.last()),
        d.len() > 0 && e.len() > 0,
        only_digits(d) && only_digits(e),
        x.len() > 0 ==> !digit(x[0]),
        y.len() > 0 ==> !digit(y[0]),
        number(d) < number(e) <= u64::MAX,
    ensures
        three_way(natural_key(p + (d + x)), natural_key(p + (e + y))) == -1,
        three_way(natural_key(p + (e + y)), natural_key(p + (d + x))) == 1,
{
    lemma_key_of_run(d, x);
    lemma_key_of_run(e, y);
    lemma_key_of_prefix(p, d + x);
    lemma_key_of_prefix(p, e + y);
    lemma_three_way_prefix(natural_key(p), natural_key(d + x), natural_key(e + y));
    lemma_three_way_prefix(natural_key(p), natural_key(e + y), natural_key(d + x));
    lemma_three_way_step(
        48 + cut_off(number(d)),
        natural_key(x),
        48 + cut_off(number(e)),
        natural_key(y),
    );
    lemma_three_way_step(
        48 + cut_off(number(e)),
        natural_key(y),
        48 + cut_off(number(d)),
        natural_key(x),
    );
}

/// A byte in lower case, where it is an ASCII letter.
pub open spec fn small(b: u8) -> int {
    if 65 <= b <= 90 {
        b + 32
    } else {
        b as int
    }
}

/// Names that agree up to some byte come in the order of those bytes, capitals
/// as small letters, where they are not both digits; and a name comes before
/// every longer one that begins with it.
pub proof fn lemma_letters_in_names_count(p: Seq<u8>, b: u8, x: Seq<u8>, c: u8, y: Seq<u8>)
    requires
        p.len() > 0 ==> !digit(p.last()),
        !(48 <= b <= 57 && 48 <= c <= 57),
    ensures
        small(b) < small(c) ==> three_way(
            natural_key(p + (seq![b] + x)),
            natural_key(p + (seq![c] + y)),
        ) == -1,
        small(b) > small(c) ==> three_way(
            natural_key(p + (seq![b] + x)),
            natural_key(p + (seq![c] + y)),
        ) == 1,
        small(b) == small(c) ==> three_way(
            natural_key(p + (seq![b] + x)),
            natural_key(p + (seq![c] + y)),
        ) == three_way(natural_key(x), natural_key(y)),
        three_way(natural_key(p), natural_key(p + (seq![b] + x))) == -1,
{
    let (s, t) = (seq![b] + x, seq![c] + y);
    lemma_key_of_prefix(p, s);
    lemma_key_of_prefix(p, t);
    lemma_three_way_prefix(natural_key(p), natural_key(s), natural_key(t));
    assert(s[0] == b && t[0] == c);
    assert(s.subrange(1, s.len() as int) =~= x);
    assert(t.subrange(1, t.len() as int) =~= y);
    if digit(b) != digit(c) {
        lemma_mixed(s, t);
        lemma_mixed(t, s);
    } else {
        lemma_three_way_step(byte_rank(b), natural_key(x), byte_rank(c), natural_key(y));
    }
    assert(natural_key(p) + Seq::<int>::empty() =~= natural_key(p));
    lemma_three_way_prefix(natural_key(p), Seq::empty(), natural_key(s));
    lemma_key_of_something(s);
}

/// Counted from the end, every fourth character of a grouped number is a comma,
/// and no other is.
pub proof fn lemma_commas_stand_by_threes(n: nat, i: int)
    requires
        0 <= i < grouped(n).len(),
    ensures
        grouped(n)[grouped(n).len() - 1 - i] == ',' <==> i % 4 == 3,
    decreases n,
{
    let s = grouped(n);
    let at = s.len() - 1 - i;
    if n < 1000 {
        text::lemma_decimal(n);
        assert(text::is_digit(s[at]));
        assert(text::pow10(3) == 1000) by {
            reveal_with_fuel(text::pow10, 4);
        }
        text::lemma_decimal_length(n, 3);
    } else {
        let before = grouped(n / 1000);
        let last = three_digits(n % 1000);
        if i < 3 {
            assert(s[at] == last[2 - i]);
        } else if i == 3 {
            assert(s[at] == ',');
        } else {
            assert(s[at] == before[before.len() - 1 - (i - 4)]);
            lemma_commas_stand_by_threes(n / 1000, i - 4);
        }
    }
}

} // verus!
