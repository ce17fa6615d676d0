//! The edge of a grid cell, in points: a single-precision number from 48 to 512.
//!
//! Every such number is a whole number of parts of 1/262144 point, so it is kept
//! as that, exactly. It is read as decimals are read into single precision,
//! to the nearest number with ties to the even one, and written with the fewest
//! decimals that read back the same.

use vstd::prelude::*;

use crate::text;
use crate::text::{all_digits, is_digit, pow10, value};

verus! {

/// Parts to a point.
pub const PARTS: u32 = 262_144;

/// The least edge, 48 points.
pub const LEAST: u32 = 12_582_912;

/// The greatest edge, 512 points.
pub const MOST: u32 = 134_217_728;

/// The edge of a first run, 128 points.
pub const USUAL: u32 = 33_554_432;

/// The number half way from the largest finite single-precision number to the
/// next power of two: from here on a number reads as infinite.
pub const INFINITE: u128 = 340_282_356_779_733_661_637_539_395_458_142_568_448;

/// How far apart single-precision numbers lie around `num / den` parts.
pub open spec fn spacing(num: int, den: int) -> int {
    if num < 0x100_0000 * den {
        1
    } else if num < 0x200_0000 * den {
        2
    } else if num < 0x400_0000 * den {
        4
    } else {
        8
    }
}

/// The single-precision number nearest to `num / den` parts, the one with the
/// even significand where two are.
pub open spec fn nearest(num: int, den: int) -> int {
    let s = spacing(num, den);
    let (q, r) = (num / (den * s), num % (den * s));
    s * (if 2 * r < den * s {
        q
    } else if 2 * r > den * s {
        q + 1
    } else {
        q + q % 2
    })
}

/// The edge nearest to `num / den` parts.
pub open spec fn clamped(num: int, den: int) -> int {
    if num <= LEAST * den {
        LEAST as int
    } else if num >= MOST * den {
        MOST as int
    } else {
        nearest(num, den)
    }
}

/// Whether so many parts are an edge.
pub open spec fn is_edge(parts: int) -> bool {
    LEAST <= parts <= MOST && parts % spacing(parts, 1) == 0
}

// ---- the numbers a text can name --------------------------------------------
/// A number as it is written: digits, and the power of ten they count.
#[verifier::ext_equal]
pub struct Decimal {
    pub negative: bool,
    pub digits: Seq<char>,
    pub scale: int,
}

/// Where the digits that begin at a place end.
pub open spec fn digits_end(s: Seq<char>, from: int) -> int
    decreases s.len() - from,
{
    if 0 <= from < s.len() && is_digit(s[from]) {
        digits_end(s, from + 1)
    } else {
        from
    }
}

/// Where a sign at a place ends; the place itself where there is none.
pub open spec fn sign_end(s: Seq<char>, from: int) -> int {
    if from < s.len() && (s[from] == '+' || s[from] == '-') {
        from + 1
    } else {
        from
    }
}

/// The number a text names where it is digits with or without a point among,
/// before or after them, with or without a sign before and an exponent behind.
pub open spec fn number_of(s: Seq<char>) -> Option<Decimal> {
    let start = sign_end(s, 0);
    let point = digits_end(s, start);
    let more = if point < s.len() && s[point] == '.' {
        point + 1
    } else {
        point
    };
    let end = digits_end(s, more);
    let digits = s.subrange(start, point) + s.subrange(more, end);
    let number = Decimal {
        negative: start == 1 && s[0] == '-',
        digits,
        scale: more - end,
    };
    if digits.len() == 0 {
        None
    } else if end == s.len() {
        Some(number)
    } else if s[end] == 'e' || s[end] == 'E' {
        let first = sign_end(s, end + 1);
        if first < s.len() && digits_end(s, first) == s.len() {
            let e = value(s.subrange(first, s.len() as int));
            Some(
                Decimal {
                    scale: number.scale + (if s[end + 1] == '-' {
                        -e
                    } else {
                        e
                    }),
                    ..number
                },
            )
        } else {
            None
        }
    } else {
        None
    }
}

/// The size of a number is the quotient of this and [`bottom`].
pub open spec fn top(m: int, scale: int) -> int {
    if scale >= 0 {
        m * pow10(scale as nat)
    } else {
        m
    }
}

pub open spec fn bottom(scale: int) -> int {
    if scale >= 0 {
        1
    } else {
        pow10((-scale) as nat) as int
    }
}

/// The edge a number stands for: clamped into the range there is, unless it is
/// too large to be finite.
pub open spec fn edge_for(d: Decimal) -> Option<int> {
    let (num, den) = (top(value(d.digits), d.scale), bottom(d.scale));
    if num >= INFINITE * den {
        None
    } else if d.negative {
        Some(LEAST as int)
    } else {
        Some(clamped(num * PARTS, den))
    }
}

/// The edge a text names, where it names a finite number.
#[verifier::opaque]
pub open spec fn edge_of(s: Seq<char>) -> Option<int> {
    match number_of(s) {
        Some(d) => edge_for(d),
        None => None,
    }
}

// ---- powers of ten and digits -----------------------------------------------
proof fn lemma_pow10_adds(a: nat, b: nat)
    ensures
        pow10(a + b) == pow10(a) * pow10(b),
    decreases a,
{
    if a == 0 {
        assert(pow10(b) == 1 * pow10(b));
    } else {
        lemma_pow10_adds((a - 1) as nat, b);
        assert((a + b - 1) as nat == (a - 1) as nat + b);
        let (x, y) = (pow10((a - 1) as nat) as int, pow10(b) as int);
        assert(10 * (x * y) == (10 * x) * y) by (nonlinear_arith);
    }
}

proof fn lemma_pow10_positive(a: nat)
    ensures
        pow10(a) >= 1,
    decreases a,
{
    if a > 0 {
        lemma_pow10_positive((a - 1) as nat);
    }
}

proof fn lemma_pow10_grows(a: nat, b: nat)
    requires
        a <= b,
    ensures
        pow10(a) <= pow10(b),
{
    lemma_pow10_adds(a, (b - a) as nat);
    lemma_pow10_positive((b - a) as nat);
    lemma_pow10_positive(a);
    let (x, y) = (pow10(a) as int, pow10((b - a) as nat) as int);
    assert(x <= x * y) by (nonlinear_arith)
        requires
            x >= 1,
            y >= 1,
    ;
}

proof fn lemma_value_concat(a: Seq<char>, b: Seq<char>)
    ensures
        value(a + b) == value(a) * pow10(b.len()) + value(b),
    decreases b.len(),
{
    if b.len() == 0 {
        assert(a + b =~= a);
        assert(value(a) * pow10(0) == value(a)) by (nonlinear_arith)
            requires
                pow10(0) == 1,
        ;
    } else {
        let rest = b.drop_last();
        assert((a + b).drop_last() =~= a + rest);
        lemma_value_concat(a, rest);
        let (x, y, z) = (value(a), pow10(rest.len()) as int, value(rest));
        assert(10 * (x * y + z) == x * (10 * y) + 10 * z) by (nonlinear_arith);
    }
}

proof fn lemma_value_bounds(s: Seq<char>)
    requires
        all_digits(s),
    ensures
        0 <= value(s) < pow10(s.len()),
    decreases s.len(),
{
    if s.len() > 0 {
        assert(is_digit(s[s.len() - 1]));
        assert forall|i: int| 0 <= i < s.drop_last().len() implies is_digit(
            #[trigger] s.drop_last()[i],
        ) by {
            assert(is_digit(s[i]));
        }
        lemma_value_bounds(s.drop_last());
    }
}

// ---- scaling ----------------------------------------------------------------
/// The whole part of a number times a power of ten.
spec fn whole(m: int, k: int) -> int {
    top(m, k) / bottom(k)
}

/// Whether nothing but the whole part is there.
spec fn is_whole(m: int, k: int) -> bool {
    top(m, k) % bottom(k) == 0
}

spec fn capped(n: int) -> int {
    if n < INFINITE {
        n
    } else {
        INFINITE as int
    }
}

/// Append a digit, stopping at the size of an infinite number.
fn appended(acc: u128, d: u8) -> (r: u128)
    requires
        acc <= INFINITE,
        d < 10,
    ensures
        r == capped(10 * acc + d),
{
    if acc > (INFINITE - d as u128) / 10 {
        INFINITE
    } else {
        acc * 10 + d as u128
    }
}

fn digit_of(c: char) -> (r: u8)
    requires
        is_digit(c),
    ensures
        r == c as int - '0' as int,
        r < 10,
{
    (c as u32 - '0' as u32) as u8
}

/// The digits as a number times a power of ten: its whole part, as far as it
/// is finite, and whether that is all of it.
fn scaled(digits: &Vec<char>, k: i128) -> (r: (u128, bool))
    requires
        all_digits(digits@),
        -0x1_0000_0000_0000_0000_0000 < k < 100,
    ensures
        r.0 == capped(whole(value(digits@), k as int)),
        r.1 == is_whole(value(digits@), k as int),
{
    let n: usize = digits.len();
    let cut: usize = if k >= 0 {
        n
    } else if -k >= n as i128 {
        0
    } else {
        (n as i128 + k) as usize
    };
    let mut acc: u128 = 0;
    let mut i: usize = 0;
    assert(digits@.subrange(0, 0) =~= Seq::empty());
    while i < cut
        invariant
            i <= cut <= n,
            n == digits@.len(),
            all_digits(digits@),
            acc == capped(value(digits@.subrange(0, i as int))),
        decreases cut - i,
    {
        let ghost upto = digits@.subrange(0, i as int + 1);
        assert(upto.drop_last() =~= digits@.subrange(0, i as int));
        assert(is_digit(digits@[i as int]));
        acc = appended(acc, digit_of(digits[i]));
        i += 1;
    }
    let ghost head = digits@.subrange(0, cut as int);
    let ghost kept = acc;
    let mut nothing = true;
    assert(digits@.subrange(cut as int, cut as int) =~= Seq::empty());
    while i < n
        invariant
            cut <= i <= n,
            n == digits@.len(),
            all_digits(digits@),
            nothing == (value(digits@.subrange(cut as int, i as int)) == 0),
        decreases n - i,
    {
        let ghost upto = digits@.subrange(cut as int, i as int + 1);
        proof {
            assert(upto.drop_last() =~= digits@.subrange(cut as int, i as int));
            assert(is_digit(digits@[i as int]));
            lemma_value_bounds(upto.drop_last());
        }
        if digits[i] != '0' {
            nothing = false;
        }
        i += 1;
    }
    let ghost tail = digits@.subrange(cut as int, n as int);
    let mut j: i128 = 0;
    assert(value(head) * pow10(0) == value(head)) by (nonlinear_arith)
        requires
            pow10(0) == 1,
    ;
    while j < k
        invariant
            0 <= j,
            j <= k || k < 0 && j == 0,
            k < 100,
            kept == capped(value(head)),
            acc == capped(value(head) * pow10(j as nat)),
        decreases k - j,
    {
        proof {
            let (x, y) = (value(head), pow10(j as nat) as int);
            assert(pow10((j + 1) as nat) == 10 * y);
            assert(x * (10 * y) == 10 * (x * y)) by (nonlinear_arith);
        }
        acc = appended(acc, 0);
        j += 1;
    }
    proof {
        let m = value(digits@);
        lemma_value_concat(head, tail);
        assert(head + tail =~= digits@);
        lemma_value_bounds(tail);
        lemma_value_bounds(head);
        if k >= 0 {
            assert(tail =~= Seq::empty());
            assert(j == k);
            assert(head =~= digits@);
        } else {
            let den = pow10((-k) as nat) as int;
            lemma_pow10_positive((-k) as nat);
            if -k <= n {
                assert(tail.len() == -k);
                vstd::arithmetic::div_mod::lemma_fundamental_div_mod_converse(
                    m,
                    den,
                    value(head),
                    value(tail),
                );
            } else {
                assert(head =~= Seq::empty());
                lemma_pow10_grows(n as nat, (-k) as nat);
                vstd::arithmetic::div_mod::lemma_fundamental_div_mod_converse(
                    m,
                    den,
                    0,
                    m,
                );
            }
        }
    }
    (acc, nothing)
}

// ---- rounding ---------------------------------------------------------------
/// How many of the fine scale make a point. Half the distance from one edge to
/// the next is a whole number of them.
const FINE: u128 = 10_000_000_000_000_000_000;

/// How many of the fine scale make half a part.
const HALF: u128 = 19_073_486_328_125;

spec fn fine_spacing(a: int) -> int {
    if a < 64 * FINE {
        1
    } else if a < 128 * FINE {
        2
    } else if a < 256 * FINE {
        4
    } else {
        8
    }
}

/// What [`nearest`] gives for so many of the fine scale and, unless it is exact,
/// a little more.
spec fn round_fine(a: int, exact: bool) -> int {
    let s = fine_spacing(a);
    let h = HALF * s;
    let (q, r) = (a / (2 * h), a % (2 * h));
    s * (if r < h || (r == h && exact && q % 2 == 0) {
        q
    } else {
        q + 1
    })
}

proof fn lemma_below(x: int, den: int, c: int)
    requires
        den > 0,
    ensures
        (x * FINE) / den < c * FINE <==> x < c * den,
{
    let big = x * FINE;
    let a = big / den;
    vstd::arithmetic::div_mod::lemma_fundamental_div_mod(big, den);
    vstd::arithmetic::div_mod::lemma_mod_bound(big, den);
    let r = big % den;
    assert(big == den * a + r);
    if a < c * FINE {
        assert(den * a + den <= den * (c * FINE)) by (nonlinear_arith)
            requires
                a + 1 <= c * FINE,
                den > 0,
        ;
        assert(den * (c * FINE) == (c * den) * FINE) by (nonlinear_arith);
        assert(x * FINE < (c * den) * FINE);
    } else {
        assert(den * a >= den * (c * FINE)) by (nonlinear_arith)
            requires
                a >= c * FINE,
                den > 0,
        ;
        assert(den * (c * FINE) == (c * den) * FINE) by (nonlinear_arith);
        assert(x * FINE >= (c * den) * FINE);
    }
}

proof fn lemma_exactly(x: int, den: int, c: int)
    requires
        den > 0,
    ensures
        (x * FINE) / den == c * FINE && (x * FINE) % den == 0 <==> x == c * den,
{
    let big = x * FINE;
    vstd::arithmetic::div_mod::lemma_fundamental_div_mod(big, den);
    assert(den * (c * FINE) == (c * den) * FINE) by (nonlinear_arith);
    if x == c * den {
        assert(big == (c * FINE) * den) by (nonlinear_arith)
            requires
                big == x * FINE,
                x == c * den,
        ;
        vstd::arithmetic::div_mod::lemma_fundamental_div_mod_converse(big, den, c * FINE, 0);
    }
}

/// Rounding on the fine scale is rounding.
proof fn lemma_fine(x: int, den: int)
    requires
        den > 0,
        x >= 0,
    ensures
        nearest(x * PARTS, den) == round_fine((x * FINE) / den, (x * FINE) % den == 0),
{
    let big = x * FINE;
    let n = x * PARTS;
    let (a, e) = (big / den, big % den);
    lemma_below(x, den, 64);
    lemma_below(x, den, 128);
    lemma_below(x, den, 256);
    let s = spacing(n, den);
    assert(s == fine_spacing(a));
    let h = HALF * s;
    let u = den * s;
    assert(big == n * (2 * HALF)) by {
        assert(FINE == PARTS * (2 * HALF));
        assert(x * (PARTS * (2 * HALF)) == (x * PARTS) * (2 * HALF)) by (nonlinear_arith);
    }
    vstd::arithmetic::div_mod::lemma_fundamental_div_mod(big, den);
    vstd::arithmetic::div_mod::lemma_mod_bound(big, den);
    let (q, r) = (a / (2 * h), a % (2 * h));
    vstd::arithmetic::div_mod::lemma_fundamental_div_mod(a, 2 * h);
    vstd::arithmetic::div_mod::lemma_mod_bound(a, 2 * h);
    assert(u > 0) by (nonlinear_arith)
        requires
            den > 0,
            s > 0,
            u == den * s,
    ;
    // What is left of the parts, on the fine scale.
    let left = n - u * q;
    assert(left * (2 * HALF) == r * den + e) by (nonlinear_arith)
        requires
            left == n - u * q,
            u == den * s,
            h == HALF * s,
            n * (2 * HALF) == den * a + e,
            a == (2 * h) * q + r,
    ;
    assert(0 <= r * den + e < (2 * h) * den) by (nonlinear_arith)
        requires
            0 <= r < 2 * h,
            0 <= e < den,
    ;
    assert((2 * h) * den == u * (2 * HALF)) by (nonlinear_arith)
        requires
            u == den * s,
            h == HALF * s,
    ;
    assert(0 <= left < u);
    assert(n == q * u + left) by (nonlinear_arith)
        requires
            left == n - u * q,
    ;
    vstd::arithmetic::div_mod::lemma_fundamental_div_mod_converse(n, u, q, left);
    assert(h * den == u * HALF) by (nonlinear_arith)
        requires
            u == den * s,
            h == HALF * s,
    ;
    if r < h {
        assert(r * den + e < h * den) by (nonlinear_arith)
            requires
                r + 1 <= h,
                0 <= e < den,
        ;
        assert(2 * left < u);
    } else if r == h {
        assert(left * (2 * HALF) == u * HALF + e);
    } else {
        assert(r * den + e > h * den) by (nonlinear_arith)
            requires
                r >= h + 1,
                0 <= e < den,
        ;
        assert(2 * left > u);
    }
}

fn rounded(a: u128, exact: bool) -> (r: u128)
    requires
        a <= 0x1_0000_0000 * FINE,
    ensures
        r == round_fine(a as int, exact),
{
    let s: u128 = if a < 64 * FINE {
        1
    } else if a < 128 * FINE {
        2
    } else if a < 256 * FINE {
        4
    } else {
        8
    };
    let h: u128 = HALF * s;
    let (q, left): (u128, u128) = (a / (2 * h), a % (2 * h));
    proof {
        vstd::arithmetic::div_mod::lemma_fundamental_div_mod(a as int, 2 * h as int);
    }
    let up = left > h || (left == h && !(exact && q % 2 == 0));
    let n: u128 = if up {
        q + 1
    } else {
        q
    };
    s * n
}

/// How many spacings [`nearest`] makes of a number, and that it is near by.
proof fn lemma_nearest_by(num: int, den: int) -> (n: int)
    requires
        den > 0,
    ensures
        nearest(num, den) == spacing(num, den) * n,
        (den * spacing(num, den)) * (2 * n - 1) <= 2 * num,
        2 * num <= (den * spacing(num, den)) * (2 * n + 1),
{
    let s = spacing(num, den);
    let u = den * s;
    assert(u > 0) by (nonlinear_arith)
        requires
            den > 0,
            s > 0,
            u == den * s,
    ;
    let (q, r) = (num / u, num % u);
    vstd::arithmetic::div_mod::lemma_fundamental_div_mod(num, u);
    vstd::arithmetic::div_mod::lemma_mod_bound(num, u);
    let n = if 2 * r < u {
        q
    } else if 2 * r > u {
        q + 1
    } else {
        q + q % 2
    };
    assert(u * (2 * q - 1) == 2 * (u * q) - u) by (nonlinear_arith);
    assert(u * (2 * q + 1) == 2 * (u * q) + u) by (nonlinear_arith);
    assert(u * (2 * (q + 1) - 1) == 2 * (u * q) + u) by (nonlinear_arith);
    assert(u * (2 * (q + 1) + 1) == 2 * (u * q) + 3 * u) by (nonlinear_arith);
    n
}

/// Rounding does not go past a number that is itself a single-precision one.
proof fn lemma_nearest_stays(num: int, den: int, c: int)
    requires
        den > 0,
        c % 8 == 0,
    ensures
        num <= c * den ==> nearest(num, den) <= c,
        num >= c * den ==> nearest(num, den) >= c,
{
    let s = spacing(num, den);
    let n = lemma_nearest_by(num, den);
    let k = c / s;
    assert(c == s * k);
    let u = den * s;
    assert(u > 0) by (nonlinear_arith)
        requires
            den > 0,
            s > 0,
            u == den * s,
    ;
    assert(c * den == u * k) by (nonlinear_arith)
        requires
            c == s * k,
            u == den * s,
    ;
    if num <= c * den {
        assert(2 * n - 1 <= 2 * k) by (nonlinear_arith)
            requires
                u * (2 * n - 1) <= 2 * (u * k),
                u > 0,
        ;
        assert(s * n <= s * k) by (nonlinear_arith)
            requires
                n <= k,
                s > 0,
        ;
    }
    if num >= c * den {
        assert(2 * n + 1 >= 2 * k) by (nonlinear_arith)
            requires
                u * (2 * n + 1) >= 2 * (u * k),
                u > 0,
        ;
        assert(s * n >= s * k) by (nonlinear_arith)
            requires
                n >= k,
                s > 0,
        ;
    }
}

/// Rounding gives an edge where there is one.
proof fn lemma_nearest_is_edge(num: int, den: int)
    requires
        den > 0,
        LEAST * den <= num <= MOST * den,
    ensures
        is_edge(nearest(num, den)),
{
    lemma_nearest_stays(num, den, LEAST as int);
    lemma_nearest_stays(num, den, MOST as int);
    lemma_nearest_stays(num, den, 0x100_0000);
    lemma_nearest_stays(num, den, 0x200_0000);
    lemma_nearest_stays(num, den, 0x400_0000);
    let s = spacing(num, den);
    let n = lemma_nearest_by(num, den);
    vstd::arithmetic::div_mod::lemma_mod_multiples_basic(n, s);
    assert(n * s == s * n) by (nonlinear_arith);
}

/// Whatever a text names is an edge.
pub proof fn lemma_what_is_read_is_an_edge(s: Seq<char>)
    ensures
        edge_of(s) matches Some(p) ==> is_edge(p),
{
    reveal(edge_of);
    if let Some(d) = number_of(s) {
        let (num, den) = (top(value(d.digits), d.scale), bottom(d.scale));
        if d.scale < 0 {
            lemma_pow10_positive((-d.scale) as nat);
        }
        if LEAST * den <= num * PARTS <= MOST * den {
            lemma_nearest_is_edge(num * PARTS, den);
        }
    }
}

// ---- reading ----------------------------------------------------------------
/// An exponent above this is as good as any other.
const FAR: u128 = 0x1_0000_0000_0000_0000_0000_0000;

/// Whether a scale is another, or both lie too far out for it to matter.
spec fn as_good(k: int, scale: int) -> bool {
    ||| k == scale
    ||| k > FAR / 2 && scale > FAR / 2
    ||| k < -(FAR / 2) && scale < -(FAR / 2)
}

fn digits_from(s: &Vec<char>, from: usize) -> (end: usize)
    requires
        from <= s@.len(),
    ensures
        end == digits_end(s@, from as int),
        from <= end <= s@.len(),
        all_digits(s@.subrange(from as int, end as int)),
{
    let mut i: usize = from;
    while i < s.len() && '0' <= s[i] && s[i] <= '9'
        invariant
            from <= i <= s@.len(),
            digits_end(s@, from as int) == digits_end(s@, i as int),
            all_digits(s@.subrange(from as int, i as int)),
        decreases s@.len() - i,
    {
        proof {
            let upto = s@.subrange(from as int, i as int + 1);
            assert forall|k: int| 0 <= k < upto.len() implies is_digit(#[trigger] upto[k]) by {
                if k < i - from {
                    assert(is_digit(s@.subrange(from as int, i as int)[k]));
                }
            }
        }
        i += 1;
    }
    i
}

fn sign_from(s: &Vec<char>, from: usize) -> (end: usize)
    requires
        from <= s@.len(),
    ensures
        end == sign_end(s@, from as int),
        from <= end <= s@.len(),
{
    if from < s.len() && (s[from] == '+' || s[from] == '-') {
        from + 1
    } else {
        from
    }
}

fn exponent(s: &Vec<char>, from: usize) -> (r: u128)
    requires
        from <= s@.len(),
        all_digits(s@.subrange(from as int, s@.len() as int)),
    ensures
        r <= FAR,
        ({
            let e = value(s@.subrange(from as int, s@.len() as int));
            r == e || r == FAR && e > FAR
        }),
{
    let mut e: u128 = 0;
    let mut i: usize = from;
    assert(s@.subrange(from as int, from as int) =~= Seq::empty());
    while i < s.len()
        invariant
            from <= i <= s@.len(),
            all_digits(s@.subrange(from as int, s@.len() as int)),
            e <= FAR,
            ({
                let v = value(s@.subrange(from as int, i as int));
                e == v || e == FAR && v > FAR
            }),
        decreases s@.len() - i,
    {
        let ghost upto = s@.subrange(from as int, i as int + 1);
        assert(upto.drop_last() =~= s@.subrange(from as int, i as int));
        assert(is_digit(s@.subrange(from as int, s@.len() as int)[i - from]));
        e = 10 * e + digit_of(s[i]) as u128;
        if e > FAR {
            e = FAR;
        }
        i += 1;
    }
    e
}

/// The number a text names: whether it is negative, its digits and their scale.
fn read_number(s: &Vec<char>) -> (r: Option<(bool, Vec<char>, i128)>)
    ensures
        match (r, number_of(s@)) {
            (Some((negative, digits, k)), Some(d)) => {
                &&& negative == d.negative
                &&& digits@ == d.digits
                &&& all_digits(d.digits)
                &&& as_good(k as int, d.scale)
                &&& -2 * FAR < k < 2 * FAR
            },
            (None, None) => true,
            _ => false,
        },
{
    let n: usize = s.len();
    let start: usize = sign_from(s, 0);
    let point: usize = digits_from(s, start);
    let more: usize = if point < n && s[point] == '.' {
        point + 1
    } else {
        point
    };
    let end: usize = digits_from(s, more);
    let mut digits = text::slice(s, start, point);
    let mut rest = text::slice(s, more, end);
    digits.append(&mut rest);
    proof {
        let (a, b) = (
            s@.subrange(start as int, point as int),
            s@.subrange(more as int, end as int),
        );
        assert(digits@ =~= a + b);
        assert forall|i: int| 0 <= i < digits@.len() implies is_digit(#[trigger] digits@[i]) by {
            if i < a.len() {
                assert(is_digit(a[i]));
            } else {
                assert(is_digit(b[i - a.len()]));
            }
        }
    }
    if digits.len() == 0 {
        return None;
    }
    let negative = start == 1 && s[0] == '-';
    let scale: i128 = more as i128 - end as i128;
    if end == n {
        return Some((negative, digits, scale));
    }
    if s[end] != 'e' && s[end] != 'E' {
        return None;
    }
    let first: usize = sign_from(s, end + 1);
    if first >= n || digits_from(s, first) != n {
        return None;
    }
    let e: u128 = exponent(s, first);
    let k: i128 = if s[end + 1] == '-' {
        scale - e as i128
    } else {
        scale + e as i128
    };
    Some((negative, digits, k))
}

proof fn lemma_fine_scale(m: int, k: int)
    requires
        m >= 0,
    ensures
        whole(m, k + 19) == (top(m, k) * FINE) / bottom(k),
        is_whole(m, k + 19) == ((top(m, k) * FINE) % bottom(k) == 0),
{
    assert(pow10(19) == FINE) by {
        reveal_with_fuel(pow10, 20);
    }
    if k >= 0 {
        lemma_pow10_adds(k as nat, 19);
        let p = pow10(k as nat) as int;
        assert(m * (p * FINE) == (m * p) * FINE) by (nonlinear_arith);
        assert((k + 19) as nat == k as nat + 19);
    } else if k >= -19 {
        let (a, b) = ((k + 19) as nat, (-k) as nat);
        lemma_pow10_adds(a, b);
        lemma_pow10_positive(b);
        assert(a + b == 19);
        let (x, y) = (pow10(a) as int, pow10(b) as int);
        assert(m * (x * y) == (m * x) * y) by (nonlinear_arith);
        vstd::arithmetic::div_mod::lemma_fundamental_div_mod_converse(m * FINE, y, m * x, 0);
        assert((m * x) / 1 == m * x);
    } else {
        let a = (-k - 19) as nat;
        lemma_pow10_adds(a, 19);
        lemma_pow10_positive(a);
        assert((-k) as nat == a + 19);
        let d = pow10(a) as int;
        let (q, r) = (m / d, m % d);
        vstd::arithmetic::div_mod::lemma_fundamental_div_mod(m, d);
        vstd::arithmetic::div_mod::lemma_mod_bound(m, d);
        assert(m * FINE == q * (d * FINE) + r * FINE) by (nonlinear_arith)
            requires
                m == d * q + r,
        ;
        assert(0 <= r * FINE < d * FINE);
        vstd::arithmetic::div_mod::lemma_fundamental_div_mod_converse(
            m * FINE,
            d * FINE,
            q,
            r * FINE,
        );
    }
}

proof fn lemma_quotient_reaches(num: int, den: int, c: int)
    requires
        den > 0,
    ensures
        num / den >= c <==> num >= c * den,
{
    vstd::arithmetic::div_mod::lemma_fundamental_div_mod(num, den);
    vstd::arithmetic::div_mod::lemma_mod_bound(num, den);
    let q = num / den;
    if q >= c {
        assert(den * q >= c * den) by (nonlinear_arith)
            requires
                q >= c,
                den > 0,
        ;
    } else {
        assert(den * q + den <= c * den) by (nonlinear_arith)
            requires
                q + 1 <= c,
                den > 0,
        ;
    }
}

/// A number that lies far out is infinite, or too small to count.
proof fn lemma_far(d: Decimal)
    requires
        all_digits(d.digits),
    ensures
        value(d.digits) == 0 ==> edge_for(d) == Some(LEAST as int),
        value(d.digits) > 0 && d.scale >= 40 ==> edge_for(d) is None,
        d.scale < 0 && -d.scale >= d.digits.len() ==> edge_for(d) == Some(LEAST as int),
{
    let m = value(d.digits);
    let (num, den) = (top(m, d.scale), bottom(d.scale));
    lemma_value_bounds(d.digits);
    if d.scale >= 0 {
        let p = pow10(d.scale as nat) as int;
        if m == 0 {
            assert(m * p == 0) by (nonlinear_arith)
                requires
                    m == 0,
            ;
        } else if d.scale >= 40 {
            assert(pow10(40) > INFINITE) by {
                reveal_with_fuel(pow10, 41);
            }
            lemma_pow10_grows(40, d.scale as nat);
            assert(m * p >= p) by (nonlinear_arith)
                requires
                    m >= 1,
                    p >= 0,
            ;
        }
    } else {
        lemma_pow10_positive((-d.scale) as nat);
        if -d.scale >= d.digits.len() {
            lemma_pow10_grows(d.digits.len(), (-d.scale) as nat);
            assert(num < den);
        }
    }
}

/// The edge of a grid cell.
#[derive(Clone, Copy, Debug, PartialEq, Eq, Structural)]
pub struct Edge {
    parts: u32,
}

impl View for Edge {
    type V = int;

    /// How many parts it has.
    closed spec fn view(&self) -> int {
        self.parts as int
    }
}

impl Edge {
    /// The edge of a first run.
    pub fn usual() -> (r: Edge)
        ensures
            r@ == USUAL,
            is_edge(r@),
    {
        Edge { parts: USUAL }
    }

    /// The edge of so many parts, where there is one.
    pub fn from_parts(parts: u32) -> (r: Option<Edge>)
        ensures
            match r {
                Some(e) => e@ == parts && is_edge(parts as int),
                None => !is_edge(parts as int),
            },
    {
        let s: u32 = if parts < 0x100_0000 {
            1
        } else if parts < 0x200_0000 {
            2
        } else if parts < 0x400_0000 {
            4
        } else {
            8
        };
        if LEAST <= parts && parts <= MOST && parts % s == 0 {
            Some(Edge { parts })
        } else {
            None
        }
    }

    /// How many parts it has.
    pub fn parts(self) -> (r: u32)
        ensures
            r == self@,
    {
        self.parts
    }

    /// The edge a text names, where it names a finite number; one that is too
    /// small or too large is brought into the range there is.
    pub fn read(s: &Vec<char>) -> (r: Option<Edge>)
        ensures
            match r {
                Some(e) => edge_of(s@) == Some(e@),
                None => edge_of(s@) is None,
            },
    {
        reveal(edge_of);
        let (negative, digits, k) = match read_number(s) {
            Some(number) => number,
            None => {
                return None;
            },
        };
        let ghost d = number_of(s@)->0;
        let ghost m = value(d.digits);
        let n: usize = digits.len();
        proof {
            lemma_far(d);
            lemma_value_bounds(digits@);
        }
        if k >= 40 {
            let (size, _) = scaled(&digits, 0);
            assert(m * pow10(0) == m) by (nonlinear_arith)
                requires
                    pow10(0) == 1,
            ;
            return if size == 0 {
                Some(Edge { parts: LEAST })
            } else {
                None
            };
        }
        if k < 0 && -k >= n as i128 {
            return Some(Edge { parts: LEAST });
        }
        assert(k == d.scale);
        let ghost (num, den) = (top(m, d.scale), bottom(d.scale));
        let (size, _) = scaled(&digits, k);
        let (a, exact) = scaled(&digits, k + 19);
        proof {
            if k < 0 {
                lemma_pow10_positive((-k) as nat);
            }
            lemma_quotient_reaches(num, den, INFINITE as int);
            lemma_fine_scale(m, k as int);
            if k >= 0 {
                let p = pow10(k as nat) as int;
                assert(m * p >= 0) by (nonlinear_arith)
                    requires
                        m >= 0,
                        p >= 0,
                ;
            }
            lemma_below(num, den, 48);
            lemma_below(num, den, 512);
            lemma_exactly(num, den, 48);
            lemma_fine(num, den);
        }
        if size == INFINITE {
            return None;
        }
        if negative || a < 48 * FINE || (a == 48 * FINE && exact) {
            return Some(Edge { parts: LEAST });
        }
        if a >= 512 * FINE {
            return Some(Edge { parts: MOST });
        }
        let parts: u128 = rounded(a, exact);
        proof {
            lemma_nearest_is_edge(num * PARTS, den);
        }
        Some(Edge { parts: parts as u32 })
    }
}

// ---- writing ----------------------------------------------------------------
/// Parts as points with some decimals, a half rounded up, without the point.
pub open spec fn shown(parts: int, decimals: nat) -> int {
    (2 * parts * pow10(decimals) + PARTS) / (2 * PARTS as int)
}

/// Whether so many decimals read back as the parts they show.
pub open spec fn tells(parts: int, decimals: nat) -> bool {
    nearest(shown(parts, decimals) * PARTS, pow10(decimals) as int) == parts
}

/// The fewest decimals, from some on, that read back. Eighteen show every part
/// as it is.
pub open spec fn decimals_from(parts: int, decimals: nat) -> nat
    decreases 18 - decimals,
{
    if decimals >= 18 || tells(parts, decimals) {
        decimals
    } else {
        decimals_from(parts, decimals + 1)
    }
}

/// The last digits of a number, so many of them.
pub open spec fn last_digits(n: nat, count: nat) -> Seq<char>
    decreases count,
{
    if count == 0 {
        Seq::empty()
    } else {
        last_digits(n / 10, (count - 1) as nat).push(('0' as u32 + n % 10) as char)
    }
}

/// How an edge is written.
pub open spec fn edge_text(parts: int) -> Seq<char> {
    let d = decimals_from(parts, 0);
    let q = shown(parts, d);
    let points = text::decimal((q / pow10(d) as int) as nat);
    if d == 0 {
        points
    } else {
        points + seq!['.'] + last_digits(q as nat, d)
    }
}

fn last_chars(n: u128, count: usize) -> (r: Vec<char>)
    ensures
        r@ == last_digits(n as nat, count as nat),
    decreases count,
{
    if count == 0 {
        let r: Vec<char> = Vec::new();
        assert(r@ =~= last_digits(n as nat, 0));
        r
    } else {
        let mut r = last_chars(n / 10, count - 1);
        let d: u8 = (n % 10) as u8;
        r.push(('0' as u8 + d) as char);
        r
    }
}

proof fn lemma_shown_bounds(parts: int, decimals: nat)
    requires
        parts >= 0,
    ensures
        0 <= shown(parts, decimals),
        shown(parts, decimals) <= (parts + 1) * pow10(decimals),
{
    let p = pow10(decimals) as int;
    lemma_pow10_positive(decimals);
    let x = 2 * parts * p + PARTS;
    assert(x >= 0) by (nonlinear_arith)
        requires
            parts >= 0,
            p >= 1,
            x == 2 * parts * p + PARTS,
    ;
    assert(2 * parts * p + 2 * p == 2 * ((parts + 1) * p)) by (nonlinear_arith);
    assert((parts + 1) * p >= 1) by (nonlinear_arith)
        requires
            parts >= 0,
            p >= 1,
    ;
}

/// With so many decimals the fine scale shows the same number.
proof fn lemma_shown_fine(q: int, d: nat)
    requires
        d <= 19,
        q >= 0,
    ensures
        (q * FINE) / (pow10(d) as int) == q * pow10((19 - d) as nat),
        (q * FINE) % (pow10(d) as int) == 0,
        nearest(q * PARTS, pow10(d) as int) == round_fine(q * pow10((19 - d) as nat), true),
{
    assert(pow10(19) == FINE) by {
        reveal_with_fuel(pow10, 20);
    }
    let e = (19 - d) as nat;
    lemma_pow10_adds(e, d);
    lemma_pow10_positive(d);
    let (x, y) = (pow10(e) as int, pow10(d) as int);
    assert(q * (x * y) == (q * x) * y) by (nonlinear_arith);
    vstd::arithmetic::div_mod::lemma_fundamental_div_mod_converse(q * FINE, y, q * x, 0);
    lemma_fine(q, y);
}

/// How far the numbers go that are met while writing.
proof fn lemma_shown_fits(parts: int, d: nat)
    requires
        0 <= parts <= u32::MAX,
        d <= 18,
    ensures
        1 <= pow10(d) <= 1_000_000_000_000_000_000,
        10 <= pow10((19 - d) as nat) <= FINE,
        0 <= 2 * parts * pow10(d) <= 0x2_0000_0000 * 1_000_000_000_000_000_000,
        0 <= shown(parts, d) * pow10((19 - d) as nat) <= 0x1_0000_0000 * FINE,
        shown(parts, d) <= 0x1_0000_0000 * pow10(d),
{
    assert(pow10(19) == FINE && pow10(18) == 1_000_000_000_000_000_000 && pow10(1) == 10) by {
        reveal_with_fuel(pow10, 20);
    }
    let e = (19 - d) as nat;
    lemma_pow10_positive(d);
    lemma_pow10_grows(d, 18);
    lemma_pow10_grows(1, e);
    lemma_pow10_grows(e, 19);
    lemma_pow10_adds(d, e);
    lemma_shown_bounds(parts, d);
    let (x, y, q) = (pow10(d) as int, pow10(e) as int, shown(parts, d));
    assert(0 <= 2 * parts * x <= 0x2_0000_0000 * 1_000_000_000_000_000_000) by (nonlinear_arith)
        requires
            0 <= parts < 0x1_0000_0000,
            1 <= x <= 1_000_000_000_000_000_000,
    ;
    assert((parts + 1) * x <= 0x1_0000_0000 * x) by (nonlinear_arith)
        requires
            parts + 1 <= 0x1_0000_0000,
            x >= 1,
    ;
    assert(0 <= q * y <= (0x1_0000_0000 * x) * y) by (nonlinear_arith)
        requires
            0 <= q <= 0x1_0000_0000 * x,
            y >= 1,
    ;
    assert((0x1_0000_0000 * x) * y == 0x1_0000_0000 * (x * y)) by (nonlinear_arith);
}

/// Parts as points with the decimals a power of ten stands for.
fn points(parts: u32, p: u128, Ghost(d): Ghost<nat>) -> (q: u128)
    requires
        d <= 18,
        p == pow10(d),
    ensures
        q == shown(parts as int, d),
{
    proof {
        lemma_shown_fits(parts as int, d);
    }
    (2 * parts as u128 * p + PARTS as u128) / (2 * PARTS as u128)
}

impl Edge {
    /// The edge in points, with the fewest decimals that read back the same.
    pub fn to_text(self) -> (r: String)
        ensures
            r@ == edge_text(self@),
    {
        let parts: u32 = self.parts;
        let mut d: usize = 0;
        let mut p: u128 = 1;
        let mut fine: u128 = FINE;
        proof {
            assert(pow10(19) == FINE) by {
                reveal_with_fuel(pow10, 20);
            }
            assert(pow10(0) == 1);
            lemma_shown_fits(parts as int, 0);
        }
        let mut q: u128 = points(parts, p, Ghost(0));
        while d < 18 && rounded(q * fine, true) != parts as u128
            invariant
                d <= 18,
                p == pow10(d as nat),
                fine == pow10((19 - d) as nat),
                q == shown(parts as int, d as nat),
                0 <= q * fine <= 0x1_0000_0000 * FINE,
                decimals_from(parts as int, 0) == decimals_from(parts as int, d as nat),
            decreases 18 - d,
        {
            proof {
                lemma_shown_fine(q as int, d as nat);
                lemma_shown_fits(parts as int, d as nat);
                lemma_shown_fits(parts as int, d as nat + 1);
            }
            d += 1;
            p = p * 10;
            fine = fine / 10;
            q = points(parts, p, Ghost(d as nat));
        }
        proof {
            lemma_shown_fine(q as int, d as nat);
            lemma_shown_fits(parts as int, d as nat);
            lemma_quotient_reaches(q as int, p as int, 0x1_0000_0001);
        }
        let mut out = String::new();
        text::push_decimal(&mut out, (q / p) as u64);
        if d > 0 {
            out.push('.');
            text::push_chars(&mut out, &last_chars(q, d));
        }
        assert(out@ =~= edge_text(self@));
        out
    }
}

// ---- what is written reads back ---------------------------------------------
proof fn lemma_all_decimals_tell(parts: int)
    requires
        is_edge(parts),
    ensures
        tells(parts, 18),
{
    let half: int = 3_814_697_265_625;
    let p = pow10(18) as int;
    assert(p == PARTS * half) by {
        reveal_with_fuel(pow10, 19);
    }
    let q = parts * half;
    assert(2 * parts * p == (2 * PARTS) * q) by (nonlinear_arith)
        requires
            p == PARTS * half,
            q == parts * half,
    ;
    assert(2 * parts * p + PARTS == q * (2 * PARTS) + PARTS) by (nonlinear_arith)
        requires
            2 * parts * p == (2 * PARTS) * q,
    ;
    vstd::arithmetic::div_mod::lemma_fundamental_div_mod_converse(
        2 * parts * p + PARTS,
        2 * PARTS as int,
        q,
        PARTS as int,
    );
    let num = q * PARTS;
    assert(num == parts * p) by (nonlinear_arith)
        requires
            p == PARTS * half,
            q == parts * half,
            num == q * PARTS,
    ;
    let s = spacing(num, p);
    assert(s == spacing(parts, 1));
    let n = parts / s;
    assert(parts == s * n) by {
        vstd::arithmetic::div_mod::lemma_fundamental_div_mod(parts, s);
    }
    assert(num == n * (p * s)) by (nonlinear_arith)
        requires
            num == parts * p,
            parts == s * n,
    ;
    vstd::arithmetic::div_mod::lemma_fundamental_div_mod_converse(num, p * s, n, 0);
}

proof fn lemma_decimals_tell(parts: int, from: nat)
    requires
        is_edge(parts),
        from <= 18,
    ensures
        decimals_from(parts, from) <= 18,
        tells(parts, decimals_from(parts, from)),
    decreases 18 - from,
{
    lemma_all_decimals_tell(parts);
    if from < 18 && !tells(parts, from) {
        lemma_decimals_tell(parts, from + 1);
    }
}

proof fn lemma_last_digits(n: nat, count: nat)
    ensures
        last_digits(n, count).len() == count,
        all_digits(last_digits(n, count)),
        value(last_digits(n, count)) == n as int % pow10(count) as int,
    decreases count,
{
    if count > 0 {
        let before = last_digits(n / 10, (count - 1) as nat);
        lemma_last_digits(n / 10, (count - 1) as nat);
        let all = last_digits(n, count);
        assert(all.drop_last() =~= before);
        assert forall|i: int| 0 <= i < all.len() implies is_digit(#[trigger] all[i]) by {
            if i < before.len() {
                assert(is_digit(before[i]));
            }
        }
        let p = pow10((count - 1) as nat) as int;
        lemma_pow10_positive((count - 1) as nat);
        let (m, d) = ((n / 10) as int, n as int % 10);
        let (q, r) = (m / p, m % p);
        vstd::arithmetic::div_mod::lemma_fundamental_div_mod(m, p);
        vstd::arithmetic::div_mod::lemma_mod_bound(m, p);
        assert(n as int == q * (10 * p) + (10 * r + d)) by (nonlinear_arith)
            requires
                n as int == 10 * m + d,
                m == p * q + r,
        ;
        vstd::arithmetic::div_mod::lemma_fundamental_div_mod_converse(
            n as int,
            10 * p,
            q,
            10 * r + d,
        );
    }
}

proof fn lemma_digits_end(s: Seq<char>, from: int, to: int)
    requires
        0 <= from <= to <= s.len(),
        forall|i: int| from <= i < to ==> is_digit(#[trigger] s[i]),
        to < s.len() ==> !is_digit(s[to]),
    ensures
        digits_end(s, from) == to,
    decreases to - from,
{
    if from < to {
        lemma_digits_end(s, from + 1, to);
    }
}

/// How the text of an edge is taken apart again.
proof fn lemma_text_is_a_number(parts: int)
    requires
        is_edge(parts),
    ensures
        ({
            let d = decimals_from(parts, 0);
            let n = number_of(edge_text(parts));
            &&& n matches Some(n) && !n.negative && n.scale == -d && value(n.digits) == shown(
                parts,
                d,
            )
        }),
        text::is_word(edge_text(parts)),
{
    let d = decimals_from(parts, 0);
    let q = shown(parts, d);
    let p = pow10(d) as int;
    lemma_shown_bounds(parts, d);
    lemma_pow10_positive(d);
    let a = text::decimal((q / p) as nat);
    let b = last_digits(q as nat, d);
    let s = edge_text(parts);
    text::lemma_decimal((q / p) as nat);
    lemma_last_digits(q as nat, d);
    vstd::arithmetic::div_mod::lemma_fundamental_div_mod(q, p);
    vstd::arithmetic::div_mod::lemma_div_pos_is_pos(q, p);
    assert(is_digit(a[0]));
    assert(s[0] == a[0]);
    assert(sign_end(s, 0) == 0);
    assert forall|i: int| 0 <= i < a.len() implies is_digit(#[trigger] s[i]) by {
        assert(s[i] == a[i]);
    }
    lemma_digits_end(s, 0, a.len() as int);
    assert(s.subrange(0, a.len() as int) =~= a);
    if d == 0 {
        lemma_digits_end(s, a.len() as int, a.len() as int);
        let none = s.subrange(a.len() as int, a.len() as int);
        assert(a + none =~= a);
        assert(p == 1);
        assert(q / p == q) by (nonlinear_arith)
            requires
                p == 1,
        ;
        assert(number_of(s) == Some(Decimal { negative: false, digits: a, scale: 0 }));
    } else {
        let more = a.len() + 1;
        assert forall|i: int| more <= i < s.len() implies is_digit(#[trigger] s[i]) by {
            assert(s[i] == b[i - more]);
        }
        lemma_digits_end(s, more as int, s.len() as int);
        assert(s.subrange(more as int, s.len() as int) =~= b);
        assert(s[a.len() as int] == '.');
        assert(number_of(s) == Some(
            Decimal { negative: false, digits: a + b, scale: -(d as int) },
        ));
        lemma_value_concat(a, b);
        let (x, y) = (q / p, q % p);
        assert(x * p + y == q) by (nonlinear_arith)
            requires
                q == p * x + y,
        ;
    }
    assert forall|i: int| 0 <= i < s.len() implies !text::is_space(#[trigger] s[i]) by {
        if i < a.len() {
            assert(is_digit(s[i]));
        } else if i > a.len() {
            assert(s[i] == b[i - a.len() - 1]);
        }
    }
}

/// An edge that is written and read again is the same edge, and what is written
/// is one word.
pub proof fn lemma_edge_reads_back(parts: int)
    requires
        is_edge(parts),
    ensures
        edge_of(edge_text(parts)) == Some(parts),
        text::is_word(edge_text(parts)),
{
    let d = decimals_from(parts, 0);
    let q = shown(parts, d);
    let p = pow10(d) as int;
    reveal(edge_of);
    lemma_text_is_a_number(parts);
    lemma_decimals_tell(parts, 0);
    lemma_shown_fits(parts, d);
    assert(top(q, -(d as int)) == q) by {
        assert(d == 0 ==> q * pow10(0) == q) by (nonlinear_arith)
            requires
                pow10(0) == 1,
        ;
    }
    assert(bottom(-(d as int)) == p) by {
        assert(pow10(0) == 1);
    }
    assert(q < INFINITE * p) by (nonlinear_arith)
        requires
            q <= 0x1_0000_0000 * p,
            p >= 1,
    ;
    lemma_nearest_stays(q * PARTS, p, LEAST as int);
    lemma_nearest_stays(q * PARTS, p, MOST as int);
}

/// A whole number of points from 48 to 512 reads as that many points; one below
/// reads as 48 and one above as 512.
pub proof fn lemma_whole_points_read_as_they_are(n: nat)
    requires
        n <= 1_000_000,
    ensures
        edge_of(text::decimal(n)) == Some(
            (if n < 48 {
                48
            } else if n > 512 {
                512
            } else {
                n as int
            }) * 262_144,
        ),
{
    reveal(edge_of);
    let s = text::decimal(n);
    let len = s.len() as int;
    text::lemma_decimal(n);
    assert(is_digit(s[0]));
    lemma_digits_end(s, 0, len);
    assert(s.subrange(0, len) + s.subrange(len, len) =~= s);
    assert(digits_end(s, len) == len);
    assert(pow10(0) == 1);
    assert(number_of(s) == Some(Decimal { negative: false, digits: s, scale: 0 }));
    assert(n as int * pow10(0) == n) by (nonlinear_arith)
        requires
            pow10(0) == 1,
    ;
    assert(top(n as int, 0) == n);
    let num = n * 262_144;
    if 48 < n < 512 {
        let step = spacing(num as int, 1);
        assert(1 * step == step);
        if step == 8 {
            assert(num % 8 == 0 && num / 8 * 8 == num);
        } else if step == 4 {
            assert(num % 4 == 0 && num / 4 * 4 == num);
        } else if step == 2 {
            assert(num % 2 == 0 && num / 2 * 2 == num);
        }
        assert(nearest(num as int, 1) == num);
    }
}

/// What reads as an edge is the single-precision number nearest to what is
/// written: none lies nearer, and of two that do as near it is the even one.
pub proof fn lemma_the_nearest_is_taken(num: int, den: int)
    requires
        0 <= num,
        0 < den,
    ensures
        ({
            let (s, got) = (spacing(num, den), nearest(num, den));
            &&& got % s == 0
            &&& -(den * s) <= 2 * (got * den - num) <= den * s
            &&& 2 * (got * den - num) == den * s || 2 * (num - got * den) == den * s ==> got / s % 2
                == 0
        }),
{
    let s = spacing(num, den);
    let d = den * s;
    assert(d > 0) by (nonlinear_arith)
        requires
            d == den * s,
            den > 0,
            s >= 1,
    ;
    let (q, r) = (num / d, num % d);
    vstd::arithmetic::div_mod::lemma_fundamental_div_mod(num, d);
    let m = nearest(num, den) / s;
    let pick = if 2 * r < d {
        q
    } else if 2 * r > d {
        q + 1
    } else {
        q + q % 2
    };
    assert(nearest(num, den) == s * pick);
    assert((s * pick) % s == 0 && (s * pick) / s == pick) by (nonlinear_arith)
        requires
            s >= 1,
    ;
    assert((s * pick) * den == d * pick) by (nonlinear_arith)
        requires
            d == den * s,
    ;
    assert(d * (q + 1) == d * q + d) by (nonlinear_arith);
}

} // verus!
