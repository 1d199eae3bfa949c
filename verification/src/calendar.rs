//! Calendar intervals of the commit-frequency chart: days, ISO weeks, months
//! and years, and the label of the interval that follows a given one.
use vstd::prelude::*;
use crate::cli::CommitInterval;
use vstd::arithmetic::div_mod::{lemma_fundamental_div_mod, lemma_fundamental_div_mod_converse};
use crate::numbers::{
    find_char, find_char_in, find_pair, find_pair_in, parse_i32, parse_i32_in, parse_u8,
    parse_unsigned_in,
};
use crate::text::{decimal, push_char, push_signed_zero_padded, push_zero_padded, signed_zero_pad, zero_pad};

verus! {

/// Truncating division, as Rust's `/` on signed integers computes it.
pub open spec fn tdiv(a: int, b: int) -> int {
    if a >= 0 {
        a / b
    } else {
        -((-a) / b)
    }
}

/// Truncating remainder, as Rust's `%` on signed integers computes it.
pub open spec fn tmod(a: int, b: int) -> int {
    a - b * tdiv(a, b)
}

/// A Gregorian leap year.
pub open spec fn leap_year(year: int) -> bool {
    year % 4 == 0 && (year % 100 != 0 || year % 400 == 0)
}

/// The number of days of a month (zero for a month outside `1..=12`).
pub open spec fn month_days(year: int, month: int) -> int {
    if month == 1 || month == 3 || month == 5 || month == 7 || month == 8 || month == 10 || month
        == 12 {
        31
    } else if month == 4 || month == 6 || month == 9 || month == 11 {
        30
    } else if month == 2 {
        if leap_year(year) {
            29
        } else {
            28
        }
    } else {
        0
    }
}

/// Zeller's congruence shifted to start the week on Monday (0 = Monday, ...,
/// 2 = Wednesday, 3 = Thursday, ..., 6 = Sunday), computed with Rust's
/// truncating `/` and `%`.
pub open spec fn weekday_spec(year: int, month: int, day: int) -> int {
    let y = if month < 3 {
        year - 1
    } else {
        year
    };
    let m = if month < 3 {
        month + 12
    } else {
        month
    };
    tmod(
        day + tdiv(13 * (m + 1), 5) + tmod(y, 100) + tdiv(tmod(y, 100), 4) + tdiv(tdiv(y, 100), 4) + 5
            * tdiv(y, 100) + 5,
        7,
    )
}

/// The number of ISO weeks of a year: 53 when it starts on a Thursday, or on a
/// Wednesday in a leap year; 52 otherwise.
pub open spec fn iso_weeks_spec(year: int) -> int {
    let jan_first = weekday_spec(year, 1, 1);
    if jan_first == 3 || (jan_first == 2 && leap_year(year)) {
        53
    } else {
        52
    }
}

proof fn lemma_divisible(a: int, b: int)
    requires
        b > 0,
    ensures
        (tmod(a, b) == 0) == (a % b == 0),
{
    if a < 0 {
        let q = (-a) / b;
        lemma_fundamental_div_mod(-a, b);
        assert(tmod(a, b) == -((-a) % b)) by (nonlinear_arith)
            requires
                -a == b * q + (-a) % b,
                tmod(a, b) == a - b * (-q),
        ;
        if (-a) % b == 0 {
            assert(a == (-q) * b + 0) by (nonlinear_arith)
                requires
                    -a == b * q + 0,
            ;
            lemma_fundamental_div_mod_converse(a, b, -q, 0);
        }
        if a % b == 0 {
            lemma_fundamental_div_mod(a, b);
            let p = a / b;
            assert(-a == (-p) * b + 0) by (nonlinear_arith)
                requires
                    a == b * p + 0,
            ;
            lemma_fundamental_div_mod_converse(-a, b, -p, 0);
        }
    } else {
        lemma_fundamental_div_mod(a, b);
    }
}

/// Whether `year` is a leap year.
pub fn is_leap_year(year: i32) -> (leap: bool)
    ensures
        leap == leap_year(year as int),
{
    proof {
        lemma_divisible(year as int, 4);
        lemma_divisible(year as int, 100);
        lemma_divisible(year as int, 400);
    }
    year % 4 == 0 && (year % 100 != 0 || year % 400 == 0)
}

/// The number of days of `month` in `year`; zero for a month outside `1..=12`.
pub fn days_in_month(year: i32, month: u8) -> (days: u8)
    ensures
        days == month_days(year as int, month as int),
{
    if month == 1 || month == 3 || month == 5 || month == 7 || month == 8 || month == 10 || month
        == 12 {
        31
    } else if month == 4 || month == 6 || month == 9 || month == 11 {
        30
    } else if month == 2 {
        if is_leap_year(year) {
            29
        } else {
            28
        }
    } else {
        0
    }
}

/// The day of the week by Zeller's congruence.
pub fn weekday(year: i32, month: u8, day: u8) -> (w: i32)
    requires
        month < 3 ==> year > i32::MIN,
    ensures
        w == weekday_spec(year as int, month as int, day as int),
{
    let (y, m): (i32, i32) = if month < 3 {
        (year - 1, month as i32 + 12)
    } else {
        (year, month as i32)
    };
    assert(-100 < y % 100 < 100);
    (day as i32 + (13 * (m + 1)) / 5 + y % 100 + (y % 100) / 4 + y / 100 / 4 + 5 * (y / 100) + 5)
        % 7
}

/// The number of ISO weeks of `year`.
pub fn iso_weeks_in_year(year: i32) -> (weeks: u8)
    requires
        year > i32::MIN,
    ensures
        weeks == iso_weeks_spec(year as int),
{
    let jan_first = weekday(year, 1, 1);
    if jan_first == 3 || (jan_first == 2 && is_leap_year(year)) {
        53
    } else {
        52
    }
}

/// A date label `year-month-day` read as `parse_date` reads it: exactly three
/// `-`-separated parts, a year, a month in `1..=12` and a day within the month.
pub open spec fn date_parts(value: Seq<char>) -> Option<(i32, u8, u8)> {
    match find_char(value, '-', 0) {
        None => None,
        Some(p1) => match find_char(value, '-', p1 + 1) {
            None => None,
            Some(p2) => if find_char(value, '-', p2 + 1) is Some {
                None
            } else {
                match (
                    parse_i32(value.subrange(0, p1)),
                    parse_u8(value.subrange(p1 + 1, p2)),
                    parse_u8(value.subrange(p2 + 1, value.len() as int)),
                ) {
                    (Some(y), Some(m), Some(d)) => if 1 <= m <= 12 && 1 <= d <= month_days(
                        y as int,
                        m as int,
                    ) {
                        Some((y, m, d))
                    } else {
                        None
                    },
                    _ => None,
                }
            },
        },
    }
}

/// `{year:04}-{month:02}-{day:02}`.
pub open spec fn date_label(year: int, month: nat, day: nat) -> Seq<char> {
    signed_zero_pad(year, 4) + seq!['-'] + zero_pad(decimal(month), 2) + seq!['-'] + zero_pad(
        decimal(day),
        2,
    )
}

/// A week label `year-Wweek`: the year before the first `-W`, the week after it.
pub open spec fn week_parts(value: Seq<char>) -> Option<(i32, u8)> {
    match find_pair(value, '-', 'W', 0) {
        None => None,
        Some(p) => match (
            parse_i32(value.subrange(0, p)),
            parse_u8(value.subrange(p + 2, value.len() as int)),
        ) {
            (Some(y), Some(w)) => Some((y, w)),
            _ => None,
        },
    }
}

/// A month label `year-month`: the year before the first `-`, the month after it.
pub open spec fn month_parts(value: Seq<char>) -> Option<(i32, u8)> {
    match find_char(value, '-', 0) {
        None => None,
        Some(p) => match (
            parse_i32(value.subrange(0, p)),
            parse_u8(value.subrange(p + 1, value.len() as int)),
        ) {
            (Some(y), Some(m)) => Some((y, m)),
            _ => None,
        },
    }
}

/// The label of the interval after `value`, or `None` when `value` is not a
/// label of that kind of interval.
pub open spec fn next_interval_spec(value: Seq<char>, interval: CommitInterval) -> Option<
    Seq<char>,
> {
    match interval {
        CommitInterval::Daily => match date_parts(value) {
            None => None,
            Some((y, m, d)) => Some(
                if (d as int) < month_days(y as int, m as int) {
                    date_label(y as int, m as nat, (d + 1) as nat)
                } else if m < 12 {
                    date_label(y as int, (m + 1) as nat, 1)
                } else {
                    date_label(y + 1, 1, 1)
                },
            ),
        },
        CommitInterval::Weekly => match week_parts(value) {
            None => None,
            Some((y, w)) => Some(
                if (w as int) < iso_weeks_spec(y as int) {
                    signed_zero_pad(y as int, 4) + seq!['-', 'W'] + zero_pad(
                        decimal((w + 1) as nat),
                        2,
                    )
                } else {
                    signed_zero_pad(y + 1, 4) + seq!['-', 'W', '0', '1']
                },
            ),
        },
        CommitInterval::Monthly => match month_parts(value) {
            None => None,
            Some((y, m)) => Some(
                if m < 12 {
                    signed_zero_pad(y as int, 4) + seq!['-'] + zero_pad(decimal((m + 1) as nat), 2)
                } else {
                    signed_zero_pad(y + 1, 4) + seq!['-', '0', '1']
                },
            ),
        },
        CommitInterval::Yearly => match parse_i32(value) {
            None => None,
            Some(y) => Some(signed_zero_pad(y + 1, 4)),
        },
    }
}

/// Whether stepping past `value` overflows `i32` (where Rust panics): the year
/// after `i32::MAX`, or the ISO week count of the year `i32::MIN`.
pub open spec fn next_interval_overflows(value: Seq<char>, interval: CommitInterval) -> bool {
    match interval {
        CommitInterval::Daily => match date_parts(value) {
            Some((y, m, d)) => m == 12 && d as int == month_days(y as int, m as int) && y == i32::MAX,
            None => false,
        },
        CommitInterval::Weekly => match week_parts(value) {
            Some((y, w)) => y == i32::MIN || ((w as int) >= iso_weeks_spec(y as int) && y
                == i32::MAX),
            None => false,
        },
        CommitInterval::Monthly => match month_parts(value) {
            Some((y, m)) => m >= 12 && y == i32::MAX,
            None => false,
        },
        CommitInterval::Yearly => match parse_i32(value) {
            Some(y) => y == i32::MAX,
            None => false,
        },
    }
}

/// Reads a date label `year-month-day`.
pub fn parse_date(chars: &Vec<char>) -> (r: Option<(i32, u8, u8)>)
    ensures
        r == date_parts(chars@),
{
    let p1 = match find_char_in(chars, '-', 0) {
        Some(p) => p,
        None => return None,
    };
    let p2 = match find_char_in(chars, '-', p1 + 1) {
        Some(p) => p,
        None => return None,
    };
    if find_char_in(chars, '-', p2 + 1).is_some() {
        return None;
    }
    let year = match parse_i32_in(chars, 0, p1) {
        Some(y) => y,
        None => return None,
    };
    let month = match parse_unsigned_in(chars, p1 + 1, p2, 255) {
        Some(m) => m as u8,
        None => return None,
    };
    let day = match parse_unsigned_in(chars, p2 + 1, chars.len(), 255) {
        Some(d) => d as u8,
        None => return None,
    };
    if 1 <= month && month <= 12 && 1 <= day && day <= days_in_month(year, month) {
        Some((year, month, day))
    } else {
        None
    }
}

/// Appends `{year:04}-{month:02}-{day:02}`.
fn push_date(out: &mut String, year: i64, month: u64, day: u64)
    requires
        year > i64::MIN,
    ensures
        final(out)@ == old(out)@ + date_label(year as int, month as nat, day as nat),
{
    push_signed_zero_padded(out, year, 4);
    push_char(out, '-');
    push_zero_padded(out, month, 2);
    push_char(out, '-');
    push_zero_padded(out, day, 2);
    assert(out@ =~= old(out)@ + date_label(year as int, month as nat, day as nat));
}

/// Reads a week label `year-Wweek`.
fn read_week(chars: &Vec<char>) -> (r: Option<(i32, u8)>)
    ensures
        r == week_parts(chars@),
{
    let p = match find_pair_in(chars, '-', 'W', 0) {
        Some(p) => p,
        None => return None,
    };
    let year = match parse_i32_in(chars, 0, p) {
        Some(y) => y,
        None => return None,
    };
    let week = match parse_unsigned_in(chars, p + 2, chars.len(), 255) {
        Some(w) => w as u8,
        None => return None,
    };
    Some((year, week))
}

/// Reads a month label `year-month`.
fn read_month(chars: &Vec<char>) -> (r: Option<(i32, u8)>)
    ensures
        r == month_parts(chars@),
{
    let p = match find_char_in(chars, '-', 0) {
        Some(p) => p,
        None => return None,
    };
    let year = match parse_i32_in(chars, 0, p) {
        Some(y) => y,
        None => return None,
    };
    let month = match parse_unsigned_in(chars, p + 1, chars.len(), 255) {
        Some(m) => m as u8,
        None => return None,
    };
    Some((year, month))
}

/// Whether stepping past `value` would overflow, where `next_interval` may not
/// be asked.
pub fn interval_overflows(value: &str, interval: CommitInterval) -> (r: bool)
    ensures
        r == next_interval_overflows(value@, interval),
{
    let chars = crate::text::chars_of(value);
    match interval {
        CommitInterval::Daily => match parse_date(&chars) {
            Some((y, m, d)) => m == 12 && d == days_in_month(y, m) && y == i32::MAX,
            None => false,
        },
        CommitInterval::Weekly => match read_week(&chars) {
            Some((y, w)) => y == i32::MIN || (w >= iso_weeks_in_year(y) && y == i32::MAX),
            None => false,
        },
        CommitInterval::Monthly => match read_month(&chars) {
            Some((y, m)) => m >= 12 && y == i32::MAX,
            None => false,
        },
        CommitInterval::Yearly => {
            assert(chars@.subrange(0, chars@.len() as int) =~= chars@);
            match parse_i32_in(&chars, 0, chars.len()) {
                Some(y) => y == i32::MAX,
                None => false,
            }
        },
    }
}

/// The label of the interval after `value`: the next day, ISO week, month or
/// year; `None` when `value` is not a label of the interval's kind.
pub fn next_interval(value: &str, interval: CommitInterval) -> (next: Option<String>)
    requires
        !next_interval_overflows(value@, interval),
    ensures
        match next {
            Some(label) => next_interval_spec(value@, interval) == Some(label@),
            None => next_interval_spec(value@, interval) is None,
        },
{
    let chars = crate::text::chars_of(value);
    let mut out = String::new();
    match interval {
        CommitInterval::Daily => {
            let (year, month, day) = match parse_date(&chars) {
                Some(parts) => parts,
                None => return None,
            };
            if day < days_in_month(year, month) {
                push_date(&mut out, year as i64, month as u64, (day + 1) as u64);
            } else if month < 12 {
                push_date(&mut out, year as i64, (month + 1) as u64, 1);
            } else {
                push_date(&mut out, year as i64 + 1, 1, 1);
            }
            Some(out)
        },
        CommitInterval::Weekly => {
            let (year, week) = match read_week(&chars) {
                Some(parts) => parts,
                None => return None,
            };
            if week < iso_weeks_in_year(year) {
                push_signed_zero_padded(&mut out, year as i64, 4);
                push_char(&mut out, '-');
                push_char(&mut out, 'W');
                push_zero_padded(&mut out, (week + 1) as u64, 2);
            } else {
                push_signed_zero_padded(&mut out, year as i64 + 1, 4);
                push_char(&mut out, '-');
                push_char(&mut out, 'W');
                push_char(&mut out, '0');
                push_char(&mut out, '1');
            }
            assert(Some(out@) == next_interval_spec(value@, interval));
            Some(out)
        },
        CommitInterval::Monthly => {
            let (year, month) = match read_month(&chars) {
                Some(parts) => parts,
                None => return None,
            };
            if month < 12 {
                push_signed_zero_padded(&mut out, year as i64, 4);
                push_char(&mut out, '-');
                push_zero_padded(&mut out, (month + 1) as u64, 2);
            } else {
                push_signed_zero_padded(&mut out, year as i64 + 1, 4);
                push_char(&mut out, '-');
                push_char(&mut out, '0');
                push_char(&mut out, '1');
            }
            assert(Some(out@) == next_interval_spec(value@, interval));
            Some(out)
        },
        CommitInterval::Yearly => {
            assert(chars@.subrange(0, chars@.len() as int) =~= chars@);
            let year = match parse_i32_in(&chars, 0, chars.len()) {
                Some(y) => y,
                None => return None,
            };
            assert(chars@.subrange(0, chars@.len() as int) =~= chars@);
            push_signed_zero_padded(&mut out, year as i64 + 1, 4);
            Some(out)
        },
    }
}

/// Zeller's sum for a non-negative (March-based) year `y` and month `m`.
#[verifier::opaque]
spec fn zeller_sum(y: int, m: int, d: int) -> int {
    d + (13 * (m + 1)) / 5 + y % 100 + (y % 100) / 4 + (y / 100) / 4 + 5 * (y / 100) + 5
}

proof fn lemma_weekday_plain(year: int, month: int, day: int)
    requires
        year >= 1,
        1 <= month <= 12,
        day >= 0,
    ensures
        weekday_spec(year, month, day) == (if month < 3 {
            zeller_sum(year - 1, month + 12, day)
        } else {
            zeller_sum(year, month, day)
        }) % 7,
{
    let y = if month < 3 {
        year - 1
    } else {
        year
    };
    let m = if month < 3 {
        month + 12
    } else {
        month
    };
    assert(y >= 0);
    assert(tdiv(13 * (m + 1), 5) == (13 * (m + 1)) / 5);
    assert(tmod(y, 100) == y % 100);
    assert(tdiv(tmod(y, 100), 4) == (y % 100) / 4);
    assert(tdiv(y, 100) == y / 100);
    assert(tdiv(tdiv(y, 100), 4) == (y / 100) / 4);
    reveal(zeller_sum);
    let z = zeller_sum(y, m, day);
    assert(z >= 0);
    assert(tmod(z, 7) == z % 7);
}

proof fn lemma_zeller_next_day(y: int, m: int, d: int)
    ensures
        zeller_sum(y, m, d + 1) == zeller_sum(y, m, d) + 1,
{
    reveal(zeller_sum);
}

/// The month lengths of the Gregorian calendar: 31 days in January, March,
/// May, July, August, October and December, 30 in April, June, September and
/// November (`30 + (m + m / 8) % 2`), 28 or 29 in February; 365 or 366 days
/// in all, 366 exactly when February has 29.
pub proof fn law_month_lengths(year: int, month: int)
    ensures
        1 <= month <= 12 && month != 2 ==> month_days(year, month) == 30 + (month + month / 8) % 2,
        month_days(year, 2) == 28 || month_days(year, 2) == 29,
        month_days(year, 1) + month_days(year, 2) + month_days(year, 3) + month_days(year, 4) + month_days(
            year,
            5,
        ) + month_days(year, 6) + month_days(year, 7) + month_days(year, 8) + month_days(year, 9)
            + month_days(year, 10) + month_days(year, 11) + month_days(year, 12) == 337 + month_days(
            year,
            2,
        ),
{
}

/// The day after `year-month-day` (a valid date).
pub open spec fn following_day(year: int, month: int, day: int) -> (int, int, int) {
    if day < month_days(year, month) {
        (year, month, day + 1)
    } else if month < 12 {
        (year, month + 1, 1)
    } else {
        (year + 1, 1, 1)
    }
}

proof fn lemma_month_end_sum(y: int, month: int, d: int)
    requires
        y >= 0,
        1 <= month <= 12,
        month != 2,
        d == month_days(y + 1, month),
    ensures
        ({
            let m = if month < 3 {
                month + 12
            } else {
                month
            };
            let next_m = if month == 1 {
                14
            } else if month == 12 {
                13
            } else {
                month + 1
            };
            zeller_sum(y, next_m, 1) == zeller_sum(y, m, d) - 27
        }),
{
    reveal(zeller_sum);
}

proof fn lemma_february_end_sum(year: int)
    requires
        year >= 1,
    ensures
        zeller_sum(year, 3, 1) == zeller_sum(year - 1, 14, month_days(year, 2)) - 55 || zeller_sum(year, 3, 1)
            == zeller_sum(year - 1, 14, month_days(year, 2)) - 174,
{
    reveal(zeller_sum);
    let y0 = year - 1;
    if year % 100 != 0 {
        assert(y0 % 100 == year % 100 - 1);
        assert(y0 / 100 == year / 100);
        assert((year % 100) % 4 == 0 <==> year % 4 == 0);
    } else {
        assert(y0 % 100 == 99);
        assert(y0 / 100 == year / 100 - 1);
        assert((year / 100) % 4 == 0 <==> year % 400 == 0);
    }
}

proof fn lemma_mod_step(z: int, w: int, q: int)
    requires
        w == z + 1 + 7 * q,
    ensures
        w % 7 == (z % 7 + 1) % 7,
{
    vstd::arithmetic::div_mod::lemma_mod_multiples_vanish(q, z + 1, 7);
    vstd::arithmetic::div_mod::lemma_add_mod_noop(z, 1, 7);
    assert(w == 7 * q + (z + 1));
}

proof fn lemma_next_weekday_within(year: int, month: int, day: int)
    requires
        year >= 1,
        1 <= month <= 12,
        0 <= day,
    ensures
        weekday_spec(year, month, day + 1) == (weekday_spec(year, month, day) + 1) % 7,
{
    lemma_weekday_plain(year, month, day);
    lemma_weekday_plain(year, month, day + 1);
    let y = if month < 3 {
        year - 1
    } else {
        year
    };
    let m = if month < 3 {
        month + 12
    } else {
        month
    };
    lemma_zeller_next_day(y, m, day);
    lemma_mod_step(zeller_sum(y, m, day), zeller_sum(y, m, day + 1), 0);
}

proof fn lemma_next_weekday_month_end(year: int, month: int)
    requires
        year >= 1,
        1 <= month <= 12,
        month != 2,
    ensures
        weekday_spec(
            if month == 12 {
                year + 1
            } else {
                year
            },
            if month == 12 {
                1
            } else {
                month + 1
            },
            1,
        ) == (weekday_spec(year, month, month_days(year, month)) + 1) % 7,
{
    let day = month_days(year, month);
    let ny = if month == 12 {
        year + 1
    } else {
        year
    };
    let nm = if month == 12 {
        1
    } else {
        month + 1
    };
    lemma_weekday_plain(year, month, day);
    lemma_weekday_plain(ny, nm, 1);
    let y = if month < 3 {
        year - 1
    } else {
        year
    };
    let m = if month < 3 {
        month + 12
    } else {
        month
    };
    assert(month_days(year, month) == month_days(y + 1, month));
    lemma_month_end_sum(y, month, day);
    let next_m = if month == 1 {
        14
    } else if month == 12 {
        13
    } else {
        month + 1
    };
    assert(zeller_sum(y, next_m, 1) == zeller_sum(y, m, day) - 27);
    lemma_mod_step(zeller_sum(y, m, day), zeller_sum(y, next_m, 1), -4);
}

proof fn lemma_next_weekday_february_end(year: int)
    requires
        year >= 1,
    ensures
        weekday_spec(year, 3, 1) == (weekday_spec(year, 2, month_days(year, 2)) + 1) % 7,
{
    lemma_weekday_plain(year, 2, month_days(year, 2));
    lemma_weekday_plain(year, 3, 1);
    lemma_february_end_sum(year);
    let z = zeller_sum(year - 1, 14, month_days(year, 2));
    let w = zeller_sum(year, 3, 1);
    if w == z - 55 {
        lemma_mod_step(z, w, -8);
    } else {
        lemma_mod_step(z, w, -25);
    }
}

/// The calendar and the week agree: from any valid date (of year 1 on) the
/// day after it, by the month lengths and leap years, falls on the next day
/// of the week. A month of the wrong length, or a wrong leap year, breaks the
/// seven-day cycle across its end.
pub proof fn law_weekday_follows_the_calendar(year: int, month: int, day: int)
    requires
        year >= 1,
        1 <= month <= 12,
        1 <= day <= month_days(year, month),
    ensures
        weekday_spec(
            following_day(year, month, day).0,
            following_day(year, month, day).1,
            following_day(year, month, day).2,
        ) == (weekday_spec(year, month, day) + 1) % 7,
{
    if day < month_days(year, month) {
        lemma_next_weekday_within(year, month, day);
    } else if month != 2 {
        lemma_next_weekday_month_end(year, month);
    } else {
        lemma_next_weekday_february_end(year);
    }
}

/// A daily label steps to the label of the day after it in the calendar
/// (the day that `law_weekday_follows_the_calendar` places on the next day of
/// the week).
pub proof fn law_next_day_is_the_following_day(value: Seq<char>)
    requires
        date_parts(value) is Some,
    ensures
        ({
            let (y, m, d) = date_parts(value)->0;
            let (ny, nm, nd) = following_day(y as int, m as int, d as int);
            next_interval_spec(value, CommitInterval::Daily) == Some(date_label(ny, nm as nat, nd as nat))
        }),
{
}

proof fn lemma_year_end_sum(year: int)
    requires
        year >= 1,
    ensures
        ({
            let z = zeller_sum(year - 1, 13, 1);
            let w = zeller_sum(year, 12, 31);
            if leap_year(year) {
                w == z + 29 || w == z - 90
            } else {
                w == z + 28 || w == z - 91
            }
        }),
{
    reveal(zeller_sum);
    let y0 = year - 1;
    if year % 100 != 0 {
        assert(y0 % 100 == year % 100 - 1);
        assert(y0 / 100 == year / 100);
        assert((year % 100) % 4 == 0 <==> year % 4 == 0);
    } else {
        assert(y0 % 100 == 99);
        assert(y0 / 100 == year / 100 - 1);
        assert((year / 100) % 4 == 0 <==> year % 400 == 0);
    }
}

/// A year has 53 ISO weeks exactly when it starts or ends on a Thursday
/// (`weekday` counts Monday as 0, so Thursday is 3).
pub proof fn law_iso_weeks_by_thursdays(year: int)
    requires
        year >= 1,
    ensures
        (iso_weeks_spec(year) == 53) == (weekday_spec(year, 1, 1) == 3 || weekday_spec(year, 12, 31) == 3),
        iso_weeks_spec(year) == 52 || iso_weeks_spec(year) == 53,
{
    lemma_weekday_plain(year, 1, 1);
    lemma_weekday_plain(year, 12, 31);
    lemma_year_end_sum(year);
    let z = zeller_sum(year - 1, 13, 1);
    let w = zeller_sum(year, 12, 31);
    vstd::arithmetic::div_mod::lemma_mod_multiples_vanish(4, z, 7);
    vstd::arithmetic::div_mod::lemma_mod_multiples_vanish(-13, z, 7);
    vstd::arithmetic::div_mod::lemma_mod_multiples_vanish(4, z + 1, 7);
    vstd::arithmetic::div_mod::lemma_mod_multiples_vanish(-13, z + 1, 7);
    vstd::arithmetic::div_mod::lemma_add_mod_noop(z, 1, 7);
    assert(z + 28 == 7 * 4 + z);
    assert(z - 91 == 7 * (-13) + z);
    assert(z + 29 == 7 * 4 + (z + 1));
    assert(z - 90 == 7 * (-13) + (z + 1));
}

} // verus!
