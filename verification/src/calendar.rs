//! Dates, for screenshot file names.
//!
//! Cheaper than taking on a date-and-time crate for one filename.

use vstd::prelude::*;

use crate::text;

verus! {

/// Whether a year has a leap day.
pub open spec fn is_leap(y: int) -> bool {
    y % 4 == 0 && (y % 100 != 0 || y % 400 == 0)
}

pub open spec fn year_length(y: int) -> int {
    if is_leap(y) {
        366
    } else {
        365
    }
}

pub open spec fn month_length(y: int, m: int) -> int {
    if m == 2 {
        if is_leap(y) {
            29
        } else {
            28
        }
    } else if m == 4 || m == 6 || m == 9 || m == 11 {
        30
    } else {
        31
    }
}

/// Days of a year before one of its months.
pub open spec fn days_before_month(y: int, m: int) -> int
    decreases m,
{
    if m <= 1 {
        0
    } else {
        days_before_month(y, m - 1) + month_length(y, m - 1)
    }
}

/// Leap days up to and including a year, counted from the year 1.
pub open spec fn leap_days(y: int) -> int {
    y / 4 - y / 100 + y / 400
}

/// Days from the start of 1970 to the start of a year.
pub open spec fn days_to_year(y: int) -> int {
    365 * (y - 1970) + leap_days(y - 1) - leap_days(1969)
}

/// Whether a year, a month and a day are a date.
pub open spec fn is_date(y: int, m: int, d: int) -> bool {
    1 <= m <= 12 && 1 <= d <= month_length(y, m)
}

/// Days from 1 January 1970 to a date.
pub open spec fn day_number(y: int, m: int, d: int) -> int {
    days_to_year(y) + days_before_month(y, m) + d - 1
}

/// Every year starts as many days after the one before as that one has, and
/// 1970 starts the count.
pub proof fn lemma_years_follow_each_other(y: int)
    ensures
        days_to_year(1970) == 0,
        days_to_year(y + 1) == days_to_year(y) + year_length(y),
{
    assert(leap_days(y) == leap_days(y - 1) + if is_leap(y) {
        1int
    } else {
        0int
    }) by {
        lemma_division_step(y, 4);
        lemma_division_step(y, 100);
        lemma_division_step(y, 400);
        assert(y % 400 == 0 ==> y % 100 == 0);
        assert(y % 100 == 0 ==> y % 4 == 0);
    }
}

proof fn lemma_division_step(y: int, n: int)
    requires
        n > 1,
    ensures
        y / n == (y - 1) / n + if y % n == 0 {
            1int
        } else {
            0int
        },
{
    let (q, r) = (y / n, y % n);
    assert(y == n * q + r && 0 <= r < n) by (nonlinear_arith)
        requires
            n > 1,
            q == y / n,
            r == y % n,
    ;
    if r == 0 {
        assert((q - 1) * n + (n - 1) == y - 1) by (nonlinear_arith)
            requires
                y == n * q + r,
                r == 0,
        ;
        vstd::arithmetic::div_mod::lemma_fundamental_div_mod_converse(y - 1, n, q - 1, n - 1);
    } else {
        assert(q * n + (r - 1) == y - 1) by (nonlinear_arith)
            requires
                y == n * q + r,
        ;
        vstd::arithmetic::div_mod::lemma_fundamental_div_mod_converse(y - 1, n, q, r - 1);
    }
}

/// Days before each month, in a year with or without a leap day.
proof fn lemma_month_starts(y: int, m: int)
    requires
        1 <= m <= 13,
    ensures
        ({
            let leap = if is_leap(y) {
                1int
            } else {
                0int
            };
            days_before_month(y, m) == (if m == 1 {
                0
            } else if m == 2 {
                31
            } else if m == 3 {
                59 + leap
            } else if m == 4 {
                90 + leap
            } else if m == 5 {
                120 + leap
            } else if m == 6 {
                151 + leap
            } else if m == 7 {
                181 + leap
            } else if m == 8 {
                212 + leap
            } else if m == 9 {
                243 + leap
            } else if m == 10 {
                273 + leap
            } else if m == 11 {
                304 + leap
            } else if m == 12 {
                334 + leap
            } else {
                365 + leap
            })
        }),
{
    reveal_with_fuel(days_before_month, 14);
}

/// A day of a 400-year era: the year of the era it is in, counted from March,
/// and the day of that year.
spec fn is_era_day(doe: int, yoe: int, doy: int) -> bool {
    &&& 0 <= yoe < 400
    &&& 0 <= doy <= 365
    &&& doe == 365 * yoe + yoe / 4 - yoe / 100 + doy
    &&& doy == 365 ==> is_leap(yoe + 1)
}

/// The year of the era comes out of the closed formula.
proof fn lemma_year_of_era(doe: int)
    requires
        0 <= doe < 146_097,
    ensures
        ({
            let yoe = (doe - doe / 1460 + doe / 36_524 - doe / 146_096) / 365;
            is_era_day(doe, yoe, doe - (365 * yoe + yoe / 4 - yoe / 100))
        }),
{
    // Centuries, four-year cycles, years and days, the odd day at the end of
    // each going to the last of the smaller ones.
    let a = if doe / 36_524 > 3 {
        3
    } else {
        doe / 36_524
    };
    let rest = doe - 36_524 * a;
    let b = rest / 1461;
    let left = rest - 1461 * b;
    let c = if left / 365 > 3 {
        3
    } else {
        left / 365
    };
    let doy = left - 365 * c;
    assert(0 <= a <= 3 && 0 <= rest <= 36_524 && (a < 3 ==> rest < 36_524));
    assert(0 <= b <= 24 && 0 <= left <= 1460);
    assert(0 <= c <= 3 && 0 <= doy <= 365);
    assert(doy == 365 ==> c == 3 && left == 1460);
    let n = 100 * a + 4 * b + c;
    assert(n / 4 == 25 * a + b);
    assert(n / 100 == a);
    assert(doe == 365 * n + n / 4 - n / 100 + doy);
    let q = 25 * a + b;
    let t = 24 * a + b + 365 * c + doy;
    assert(doe == 1460 * q + t);
    assert(0 <= t <= 1556);
    let d1 = if t >= 1460 {
        1int
    } else {
        0int
    };
    assert(doe / 1460 == q + d1);
    let last = doe == 146_096;
    assert(doe / 36_524 == if last {
        a + 1
    } else {
        a
    });
    assert(doe / 146_096 == if last {
        1int
    } else {
        0int
    });
    let e = doe - doe / 1460 + doe / 36_524 - doe / 146_096;
    assert(e == 365 * n + doy - d1);
    assert(0 <= doy - d1 < 365);
    assert(e / 365 == n);
    if doy == 365 {
        let y = n + 1;
        assert(y == 100 * a + 4 * b + 4);
        assert(y % 4 == 0);
        if b == 24 {
            assert(a == 3);
            assert(y == 400);
        } else {
            assert(y % 100 == 4 * b + 4);
        }
    }
}

/// The month and the day come out of the closed formula: days of a year that
/// starts in March.
proof fn lemma_day_of_year(y: int, doy: int)
    requires
        0 <= doy <= 365,
        doy == 365 ==> is_leap(y + 1),
    ensures
        ({
            let mp = (5 * doy + 2) / 153;
            let d = doy - (153 * mp + 2) / 5 + 1;
            let m = if mp < 10 {
                mp + 3
            } else {
                mp - 9
            };
            let year = if m <= 2 {
                y + 1
            } else {
                y
            };
            &&& 0 <= mp <= 11
            &&& is_date(year, m, d)
            &&& day_number(year, m, d) == 365 * y + leap_days(y) + doy - 719_468
        }),
{
    let mp = (5 * doy + 2) / 153;
    assert(0 <= mp <= 11);
    let m = if mp < 10 {
        mp + 3
    } else {
        mp - 9
    };
    lemma_month_starts(y, m);
    lemma_month_starts(y + 1, m);
    lemma_years_follow_each_other(y);
    assert(leap_days(1969) == 477);
    assert(leap_days(y) == leap_days(y - 1) + if is_leap(y) {
        1int
    } else {
        0int
    });
    let start = (153 * mp + 2) / 5;
    assert(mp == 0 ==> start == 0 && 0 <= doy <= 30);
    assert(mp == 1 ==> start == 31 && 31 <= doy <= 60);
    assert(mp == 2 ==> start == 61 && 61 <= doy <= 91);
    assert(mp == 3 ==> start == 92 && 92 <= doy <= 121);
    assert(mp == 4 ==> start == 122 && 122 <= doy <= 152);
    assert(mp == 5 ==> start == 153 && 153 <= doy <= 183);
    assert(mp == 6 ==> start == 184 && 184 <= doy <= 213);
    assert(mp == 7 ==> start == 214 && 214 <= doy <= 244);
    assert(mp == 8 ==> start == 245 && 245 <= doy <= 274);
    assert(mp == 9 ==> start == 275 && 275 <= doy <= 305);
    assert(mp == 10 ==> start == 306 && 306 <= doy <= 336);
    assert(mp == 11 ==> start == 337 && 337 <= doy <= 365);
}

/// Leap days over whole eras.
proof fn lemma_eras(era: int, yoe: int)
    requires
        0 <= yoe < 400,
    ensures
        leap_days(400 * era + yoe) == 97 * era + yoe / 4 - yoe / 100,
        is_leap(400 * era + yoe + 1) == is_leap(yoe + 1),
{
    let y = 400 * era + yoe;
    assert(y / 4 == 100 * era + yoe / 4);
    assert(y / 100 == 4 * era + yoe / 100);
    assert(y / 400 == era);
    assert((y + 1) % 4 == (yoe + 1) % 4);
    assert((y + 1) % 100 == (yoe + 1) % 100);
    assert((y + 1) % 400 == (yoe + 1) % 400);
}

/// Days since the Unix epoch to a calendar date (Howard Hinnant's algorithm).
pub fn civil_from_days(days: i64) -> (r: (i64, u64, u64))
    requires
        days <= i64::MAX - 719_468,
    ensures
        is_date(r.0 as int, r.1 as int, r.2 as int),
        day_number(r.0 as int, r.1 as int, r.2 as int) == days,
{
    // Shift the epoch to 0000-03-01 so leap days land at the end of the year.
    let z: i64 = days + 719_468;
    let shifted: i64 = if z >= 0 {
        z
    } else {
        z - 146_096
    };
    let era: i64 = if shifted >= 0 {
        shifted / 146_097
    } else {
        -((-shifted) / 146_097)
    };
    proof {
        lemma_era_of(z as int, era as int);
    }
    let doe: u64 = (z - era * 146_097) as u64;
    proof {
        lemma_year_of_era(doe as int);
    }
    let yoe: u64 = (doe - doe / 1460 + doe / 36_524 - doe / 146_096) / 365;
    let doy: u64 = doe - (365 * yoe + yoe / 4 - yoe / 100);
    let mp: u64 = (5 * doy + 2) / 153;
    proof {
        lemma_eras(era as int, yoe as int);
        lemma_day_of_year(400 * era + yoe, doy as int);
    }
    let d: u64 = doy - (153 * mp + 2) / 5 + 1;
    let m: u64 = if mp < 10 {
        mp + 3
    } else {
        mp - 9
    };
    let y: i64 = yoe as i64 + era * 400 + if m <= 2 {
        1
    } else {
        0
    };
    (y, m, d)
}

/// Rounding towards zero after the shift rounds down.
proof fn lemma_era_of(z: int, era: int)
    requires
        z >= 0 ==> era == z / 146_097,
        z < 0 ==> era == -((146_096 - z) / 146_097),
    ensures
        0 <= z - era * 146_097 < 146_097,
{
}

// ---- counting ---------------------------------------------------------------
/// Years start in their order.
proof fn lemma_years_in_order(a: int, b: int)
    requires
        a <= b,
    ensures
        days_to_year(a) <= days_to_year(b),
        a < b ==> days_to_year(a + 1) <= days_to_year(b),
    decreases b - a,
{
    if a < b {
        lemma_years_in_order(a, b - 1);
        lemma_years_follow_each_other(b - 1);
    }
}

proof fn lemma_months_in_order(y: int, a: int, b: int)
    requires
        1 <= a < b <= 13,
    ensures
        days_before_month(y, a) + month_length(y, a) <= days_before_month(y, b),
{
    lemma_month_starts(y, a);
    lemma_month_starts(y, b);
    lemma_month_starts(y, a + 1);
}

/// Whether one date comes before another.
pub open spec fn is_before(y: int, m: int, d: int, y2: int, m2: int, d2: int) -> bool {
    y < y2 || (y == y2 && (m < m2 || (m == m2 && d < d2)))
}

/// Days are counted in the order of the calendar: an earlier date has a
/// smaller number, and no two dates share one.
pub proof fn lemma_days_are_counted_in_order(
    y: int,
    m: int,
    d: int,
    y2: int,
    m2: int,
    d2: int,
)
    requires
        is_date(y, m, d),
        is_date(y2, m2, d2),
    ensures
        is_before(y, m, d, y2, m2, d2) <==> day_number(y, m, d) < day_number(y2, m2, d2),
{
    if is_before(y, m, d, y2, m2, d2) {
        lemma_before(y, m, d, y2, m2, d2);
    } else if is_before(y2, m2, d2, y, m, d) {
        lemma_before(y2, m2, d2, y, m, d);
    }
}

proof fn lemma_before(y: int, m: int, d: int, y2: int, m2: int, d2: int)
    requires
        is_date(y, m, d),
        is_date(y2, m2, d2),
        is_before(y, m, d, y2, m2, d2),
    ensures
        day_number(y, m, d) < day_number(y2, m2, d2),
{
    if y < y2 {
        lemma_years_in_order(y, y2);
        lemma_years_follow_each_other(y);
        lemma_months_in_order(y, m, 13);
        lemma_month_starts(y, 13);
        lemma_month_starts(y2, m2);
    } else if m < m2 {
        lemma_months_in_order(y, m, m2);
    }
}

// ---- timestamps -------------------------------------------------------------
/// A number in decimal, with zeros before it to fill a width.
pub open spec fn zero_padded(n: nat, width: nat) -> Seq<char> {
    let digits = text::decimal(n);
    Seq::new(
        if digits.len() < width {
            (width - digits.len()) as nat
        } else {
            0
        },
        |i: int| '0',
    ) + digits
}

/// The seconds since the epoch as a date and a time of day.
pub struct Moment {
    pub year: int,
    pub month: int,
    pub day: int,
    pub hour: int,
    pub minute: int,
    pub second: int,
}

/// Whether a moment is so many seconds after the start of 1970.
pub open spec fn is_moment(m: Moment, secs: int) -> bool {
    &&& is_date(m.year, m.month, m.day)
    &&& 0 <= m.hour < 24
    &&& 0 <= m.minute < 60
    &&& 0 <= m.second < 60
    &&& secs == day_number(m.year, m.month, m.day) * 86_400 + m.hour * 3600 + m.minute * 60
        + m.second
}

/// A moment as `YYYYMMDD-HHMMSS`.
pub open spec fn stamp_of(m: Moment) -> Seq<char> {
    zero_padded(m.year as nat, 4) + zero_padded(m.month as nat, 2) + zero_padded(m.day as nat, 2)
        + seq!['-'] + zero_padded(m.hour as nat, 2) + zero_padded(m.minute as nat, 2)
        + zero_padded(m.second as nat, 2)
}

fn push_padded(out: &mut String, n: u64, width: usize)
    requires
        width <= 20,
    ensures
        final(out)@ == old(out)@ + zero_padded(n as nat, width as nat),
{
    let digits = text::decimal_chars(n);
    let ghost start = out@;
    let ghost zeros = if digits@.len() < width {
        (width - digits@.len()) as nat
    } else {
        0
    };
    let mut k: usize = digits.len();
    let ghost count = k as int;
    assert(out@ =~= start + Seq::new(0, |i: int| '0'));
    while k < width
        invariant
            count <= k,
            k <= width || k == count,
            out@ == start + Seq::new((k - count) as nat, |i: int| '0'),
        decreases width - k,
    {
        out.push('0');
        k += 1;
        assert(out@ =~= start + Seq::new((k - count) as nat, |i: int| '0'));
    }
    text::push_chars(out, &digits);
    assert(out@ =~= start + zero_padded(n as nat, width as nat));
}

/// `YYYYMMDD-HHMMSS` in UTC, for screenshot filenames.
pub fn timestamp(secs: u64) -> (r: String)
    ensures
        exists|m: Moment| #[trigger] is_moment(m, secs as int) && r@ == stamp_of(m),
{
    let (y, m, d): (i64, u64, u64) = civil_from_days((secs / 86_400) as i64);
    let rest: u64 = secs % 86_400;
    let (hour, minute, second): (u64, u64, u64) = (rest / 3600, (rest % 3600) / 60, rest % 60);
    let ghost moment = Moment {
        year: y as int,
        month: m as int,
        day: d as int,
        hour: hour as int,
        minute: minute as int,
        second: second as int,
    };
    proof {
        lemma_not_before_the_epoch(y as int, m as int, d as int);
        assert(is_moment(moment, secs as int));
    }
    let mut s = String::new();
    push_padded(&mut s, y as u64, 4);
    push_padded(&mut s, m, 2);
    push_padded(&mut s, d, 2);
    s.push('-');
    push_padded(&mut s, hour, 2);
    push_padded(&mut s, minute, 2);
    push_padded(&mut s, second, 2);
    assert(s@ =~= stamp_of(moment));
    s
}

proof fn lemma_not_before_the_epoch(y: int, m: int, d: int)
    requires
        is_date(y, m, d),
        day_number(y, m, d) >= 0,
    ensures
        y >= 1970,
{
    if y < 1970 {
        lemma_years_in_order(y, 1970);
        lemma_years_follow_each_other(y);
        lemma_months_in_order(y, m, 13);
        lemma_month_starts(y, 13);
    }
}

/// Exactly `n` digits of a number.
pub open spec fn fixed(v: int, n: nat) -> Seq<char>
    decreases n,
{
    if n == 0 {
        Seq::empty()
    } else {
        fixed(v / 10, (n - 1) as nat).push(('0' as u32 + v % 10) as char)
    }
}

proof fn lemma_fixed(v: int, n: nat)
    requires
        0 <= v < text::pow10(n),
        n >= 1,
    ensures
        zero_padded(v as nat, n) == fixed(v, n),
        fixed(v, n).len() == n,
        forall|i: int| 0 <= i < n ==> text::is_digit(#[trigger] fixed(v, n)[i]),
    decreases n,
{
    let d = ('0' as u32 + v % 10) as char;
    assert(text::is_digit(d));
    if n == 1 {
        assert(text::pow10(0) == 1);
        assert(fixed(v / 10, 0) =~= Seq::empty());
        assert(zero_padded(v as nat, n) =~= fixed(v, n));
    } else {
        let m = (n - 1) as nat;
        lemma_fixed(v / 10, m);
        text::lemma_decimal_length(v as nat, n);
        text::lemma_decimal_length((v / 10) as nat, m);
        assert(zero_padded(v as nat, n) =~= zero_padded((v / 10) as nat, m).push(d));
        let (before, all) = (fixed(v / 10, m), fixed(v, n));
        assert forall|i: int| 0 <= i < n implies text::is_digit(#[trigger] all[i]) by {
            if i < m {
                assert(all[i] == before[i]);
            }
        }
    }
}

/// Whether two texts differ first where the one has the smaller character.
pub open spec fn sorts_before(a: Seq<char>, b: Seq<char>) -> bool {
    exists|k: int| #[trigger] differs_at(a, b, k)
}

pub open spec fn differs_at(a: Seq<char>, b: Seq<char>, k: int) -> bool {
    &&& 0 <= k < a.len()
    &&& k < b.len()
    &&& (a[k] as u32) < (b[k] as u32)
    &&& forall|i: int| 0 <= i < k ==> #[trigger] a[i] == b[i]
}

proof fn lemma_fixed_sorts(v: int, w: int, n: nat)
    requires
        0 <= v < w < text::pow10(n),
        n >= 1,
    ensures
        sorts_before(fixed(v, n), fixed(w, n)),
    decreases n,
{
    lemma_fixed(v, n);
    lemma_fixed(w, n);
    let m = (n - 1) as nat;
    let (a, b) = (fixed(v, n), fixed(w, n));
    let (p, q) = (fixed(v / 10, m), fixed(w / 10, m));
    if n == 1 {
        assert(text::pow10(0) == 1);
        assert(p =~= Seq::empty() && q =~= Seq::empty());
        assert(differs_at(a, b, 0));
    } else {
        lemma_fixed(v / 10, m);
        lemma_fixed(w / 10, m);
        if v / 10 < w / 10 {
            lemma_fixed_sorts(v / 10, w / 10, m);
            let k = choose|k: int| #[trigger] differs_at(p, q, k);
            assert(differs_at(a, b, k)) by {
                assert forall|i: int| 0 <= i < k implies #[trigger] a[i] == b[i] by {
                    assert(p[i] == q[i]);
                }
                assert(a[k] == p[k] && b[k] == q[k]);
            }
        } else {
            assert(v / 10 == w / 10);
            assert(differs_at(a, b, m as int));
        }
    }
}

proof fn lemma_sorts_first(a: Seq<char>, b: Seq<char>, x: Seq<char>, y: Seq<char>)
    requires
        sorts_before(a, b),
    ensures
        sorts_before(a + x, b + y),
{
    let k = choose|k: int| #[trigger] differs_at(a, b, k);
    let (s, t) = (a + x, b + y);
    assert(differs_at(s, t, k)) by {
        assert(s[k] == a[k] && t[k] == b[k]);
        assert forall|i: int| 0 <= i < k implies #[trigger] s[i] == t[i] by {
            assert(a[i] == b[i]);
        }
    }
}

proof fn lemma_sorts_next(a: Seq<char>, x: Seq<char>, y: Seq<char>)
    requires
        sorts_before(x, y),
    ensures
        sorts_before(a + x, a + y),
{
    let k = choose|k: int| #[trigger] differs_at(x, y, k);
    let (s, t) = (a + x, a + y);
    let at = a.len() + k;
    assert(differs_at(s, t, at)) by {
        assert(s[at] == x[k] && t[at] == y[k]);
        assert forall|i: int| 0 <= i < at implies #[trigger] s[i] == t[i] by {
            if i >= a.len() {
                assert(x[i - a.len()] == y[i - a.len()]);
            }
        }
    }
}

proof fn lemma_stamp_parts(m: Moment, secs: int)
    requires
        is_moment(m, secs),
        0 <= secs,
        m.year <= 9999,
    ensures
        stamp_of(m) == fixed(m.year, 4) + (fixed(m.month, 2) + (fixed(m.day, 2) + (seq!['-'] + (
        fixed(m.hour, 2) + (fixed(m.minute, 2) + fixed(m.second, 2)))))),
        m.year >= 1970,
        text::pow10(4) == 10_000,
        text::pow10(2) == 100,
{
    reveal_with_fuel(text::pow10, 5);
    assert(day_number(m.year, m.month, m.day) >= 0);
    lemma_not_before_the_epoch(m.year, m.month, m.day);
    lemma_fixed(m.year, 4);
    lemma_fixed(m.month, 2);
    lemma_fixed(m.day, 2);
    lemma_fixed(m.hour, 2);
    lemma_fixed(m.minute, 2);
    lemma_fixed(m.second, 2);
    assert(stamp_of(m) =~= fixed(m.year, 4) + (fixed(m.month, 2) + (fixed(m.day, 2) + (seq!['-'] + (
    fixed(m.hour, 2) + (fixed(m.minute, 2) + fixed(m.second, 2)))))));
}

/// Timestamps up to the year 9999 all have one width: fourteen digits, and a
/// dash after the date.
pub proof fn lemma_timestamps_are_fixed_width(m: Moment, secs: int)
    requires
        is_moment(m, secs),
        0 <= secs,
        m.year <= 9999,
    ensures
        stamp_of(m).len() == 15,
        stamp_of(m)[8] == '-',
        forall|i: int|
            0 <= i < 15 && i != 8 ==> text::is_digit(#[trigger] stamp_of(m)[i]),
{
    lemma_stamp_parts(m, secs);
    lemma_fixed(m.year, 4);
    lemma_fixed(m.month, 2);
    lemma_fixed(m.day, 2);
    lemma_fixed(m.hour, 2);
    lemma_fixed(m.minute, 2);
    lemma_fixed(m.second, 2);
    let s = stamp_of(m);
    assert forall|i: int| 0 <= i < 15 && i != 8 implies text::is_digit(#[trigger] s[i]) by {
        if i < 4 {
            assert(s[i] == fixed(m.year, 4)[i]);
        } else if i < 6 {
            assert(s[i] == fixed(m.month, 2)[i - 4]);
        } else if i < 8 {
            assert(s[i] == fixed(m.day, 2)[i - 6]);
        } else if i < 11 {
            assert(s[i] == fixed(m.hour, 2)[i - 9]);
        } else if i < 13 {
            assert(s[i] == fixed(m.minute, 2)[i - 11]);
        } else {
            assert(s[i] == fixed(m.second, 2)[i - 13]);
        }
    }
}

/// Timestamps up to the year 9999 sort in the order of time.
pub proof fn lemma_timestamps_are_sortable(a: Moment, b: Moment, s: int, t: int)
    requires
        is_moment(a, s),
        is_moment(b, t),
        0 <= s < t,
        a.year <= 9999,
        b.year <= 9999,
    ensures
        sorts_before(stamp_of(a), stamp_of(b)),
{
    lemma_stamp_parts(a, s);
    lemma_stamp_parts(b, t);
    lemma_days_are_counted_in_order(a.year, a.month, a.day, b.year, b.month, b.day);
    lemma_days_are_counted_in_order(b.year, b.month, b.day, a.year, a.month, a.day);
    let a6 = fixed(a.second, 2);
    let b6 = fixed(b.second, 2);
    let (a5, b5) = (fixed(a.minute, 2) + a6, fixed(b.minute, 2) + b6);
    let (a4, b4) = (fixed(a.hour, 2) + a5, fixed(b.hour, 2) + b5);
    let (a3, b3) = (seq!['-'] + a4, seq!['-'] + b4);
    let (a2, b2) = (fixed(a.day, 2) + a3, fixed(b.day, 2) + b3);
    let (a1, b1) = (fixed(a.month, 2) + a2, fixed(b.month, 2) + b2);
    assert(!is_before(b.year, b.month, b.day, a.year, a.month, a.day)) by {
        if is_before(b.year, b.month, b.day, a.year, a.month, a.day) {
            assert(day_number(b.year, b.month, b.day) < day_number(a.year, a.month, a.day));
        }
    }
    if a.year < b.year {
        lemma_fixed_sorts(a.year, b.year, 4);
        lemma_sorts_first(fixed(a.year, 4), fixed(b.year, 4), a1, b1);
    } else {
        if a.month < b.month {
            lemma_fixed_sorts(a.month, b.month, 2);
            lemma_sorts_first(fixed(a.month, 2), fixed(b.month, 2), a2, b2);
        } else {
            if a.day < b.day {
                lemma_fixed_sorts(a.day, b.day, 2);
                lemma_sorts_first(fixed(a.day, 2), fixed(b.day, 2), a3, b3);
            } else {
                if a.hour < b.hour {
                    lemma_fixed_sorts(a.hour, b.hour, 2);
                    lemma_sorts_first(fixed(a.hour, 2), fixed(b.hour, 2), a5, b5);
                } else {
                    if a.minute < b.minute {
                        lemma_fixed_sorts(a.minute, b.minute, 2);
                        lemma_sorts_first(fixed(a.minute, 2), fixed(b.minute, 2), a6, b6);
                    } else {
                        lemma_fixed_sorts(a.second, b.second, 2);
                        lemma_sorts_next(fixed(a.minute, 2), a6, b6);
                    }
                    lemma_sorts_next(fixed(a.hour, 2), a5, b5);
                }
                lemma_sorts_next(seq!['-'], a4, b4);
                lemma_sorts_next(fixed(a.day, 2), a3, b3);
            }
            lemma_sorts_next(fixed(a.month, 2), a2, b2);
        }
        lemma_sorts_next(fixed(a.year, 4), a1, b1);
    }
}

/// The months of a year begin after 31, 28 or 29, 31, 30, 31, 30, 31, 31, 30,
/// 31, 30 and 31 days; the years with 29 are those that four divides, but of
/// those that a hundred divides only those that four hundred does.
pub proof fn lemma_months_have_their_days(y: int)
    ensures
        ({
            let feb = if y % 400 == 0 || (y % 4 == 0 && y % 100 != 0) {
                29int
            } else {
                28int
            };
            &&& day_number(y, 2, 1) - day_number(y, 1, 1) == 31
            &&& day_number(y, 3, 1) - day_number(y, 2, 1) == feb
            &&& day_number(y, 4, 1) - day_number(y, 3, 1) == 31
            &&& day_number(y, 5, 1) - day_number(y, 4, 1) == 30
            &&& day_number(y, 6, 1) - day_number(y, 5, 1) == 31
            &&& day_number(y, 7, 1) - day_number(y, 6, 1) == 30
            &&& day_number(y, 8, 1) - day_number(y, 7, 1) == 31
            &&& day_number(y, 9, 1) - day_number(y, 8, 1) == 31
            &&& day_number(y, 10, 1) - day_number(y, 9, 1) == 30
            &&& day_number(y, 11, 1) - day_number(y, 10, 1) == 31
            &&& day_number(y, 12, 1) - day_number(y, 11, 1) == 30
            &&& day_number(y + 1, 1, 1) - day_number(y, 12, 1) == 31
            &&& day_number(1970, 1, 1) == 0
        }),
{
    lemma_years_follow_each_other(y);
    reveal_with_fuel(days_before_month, 13);
}

/// A month ends the day before the next begins.
pub proof fn lemma_dates_end_with_their_month(y: int, m: int, d: int)
    ensures
        is_date(y, m, d) <==> 1 <= m <= 12 && 1 <= d && day_number(y, m, d) < (if m == 12 {
            day_number(y + 1, 1, 1)
        } else {
            day_number(y, m + 1, 1)
        }),
{
    if 1 <= m <= 12 {
        lemma_years_follow_each_other(y);
        lemma_month_starts(y, m);
        lemma_month_starts(y, m + 1);
        lemma_month_starts(y + 1, 1);
    }
}

proof fn lemma_fixed_value(v: int, n: nat)
    requires
        0 <= v < text::pow10(n),
    ensures
        text::value(fixed(v, n)) == v,
    decreases n,
{
    if n > 0 {
        lemma_fixed_value(v / 10, (n - 1) as nat);
        assert(fixed(v, n).drop_last() =~= fixed(v / 10, (n - 1) as nat));
    }
}

/// A timestamp tells the year in its first four digits, then the month, the day,
/// and behind the dash the hour, the minute and the second, in two each.
pub proof fn lemma_a_timestamp_tells_the_moment(m: Moment, secs: int)
    requires
        is_moment(m, secs),
        0 <= m.year < 10_000,
    ensures
        ({
            let s = stamp_of(m);
            &&& s.len() == 15
            &&& s[8] == '-'
            &&& text::value(s.subrange(0, 4)) == m.year
            &&& text::value(s.subrange(4, 6)) == m.month
            &&& text::value(s.subrange(6, 8)) == m.day
            &&& text::value(s.subrange(9, 11)) == m.hour
            &&& text::value(s.subrange(11, 13)) == m.minute
            &&& text::value(s.subrange(13, 15)) == m.second
        }),
{
    reveal_with_fuel(text::pow10, 5);
    lemma_fixed(m.year, 4);
    lemma_fixed(m.month, 2);
    lemma_fixed(m.day, 2);
    lemma_fixed(m.hour, 2);
    lemma_fixed(m.minute, 2);
    lemma_fixed(m.second, 2);
    lemma_fixed_value(m.year, 4);
    lemma_fixed_value(m.month, 2);
    lemma_fixed_value(m.day, 2);
    lemma_fixed_value(m.hour, 2);
    lemma_fixed_value(m.minute, 2);
    lemma_fixed_value(m.second, 2);
    let s = stamp_of(m);
    assert(s.subrange(0, 4) =~= fixed(m.year, 4));
    assert(s.subrange(4, 6) =~= fixed(m.month, 2));
    assert(s.subrange(6, 8) =~= fixed(m.day, 2));
    assert(s.subrange(9, 11) =~= fixed(m.hour, 2));
    assert(s.subrange(11, 13) =~= fixed(m.minute, 2));
    assert(s.subrange(13, 15) =~= fixed(m.second, 2));
}

} // verus!
