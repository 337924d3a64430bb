//! Calendar arithmetic and the text formats of the date and time widgets.
//!
//! Days are counted from 1970-01-01 in the proleptic Gregorian calendar, by the
//! well-known closed formula that starts each year in March. A date is written
//! `DD/MM/YYYY`, a time `HH:MM[:SS]`, and a date-time is the two joined by one
//! space.

use vstd::prelude::*;
use vstd::string::*;
use crate::text::{
    chars_of, decimal, is_digit, is_whitespace, lemma_decimal, lemma_digits_pad, lemma_pieces_cons,
    lemma_pieces_one, lemma_trimmed_noop, pad_zeros, padded_decimal, parse_int, parse_nat,
    parse_signed, parse_unsigned, pieces, split, trim, trimmed,
};

verus! {

// ---- the calendar ----

pub open spec fn leap(y: int) -> bool {
    (y % 4 == 0 && y % 100 != 0) || y % 400 == 0
}

/// How many days month `m` of year `y` has. A number that names no month counts
/// as a month of 30 days.
pub open spec fn month_days(y: int, m: int) -> int {
    if m == 1 || m == 3 || m == 5 || m == 7 || m == 8 || m == 10 || m == 12 {
        31
    } else if m == 2 {
        if leap(y) {
            29
        } else {
            28
        }
    } else {
        30
    }
}

/// Whether `y`/`m`/`d` names a day.
pub open spec fn valid_date(y: int, m: int, d: int) -> bool {
    1 <= m <= 12 && 1 <= d <= month_days(y, m)
}

/// The day after `y`/`m`/`d`.
pub open spec fn next_day(y: int, m: int, d: int) -> (int, int, int) {
    if d < month_days(y, m) {
        (y, m, d + 1)
    } else if m < 12 {
        (y, m + 1, 1)
    } else {
        (y + 1, 1, 1)
    }
}

/// The days of the years of a 400-year cycle before its year `yoe`; a cycle
/// starts on March 1 of a year divisible by 400.
pub open spec fn cycle_year_start(yoe: int) -> int {
    yoe * 365 + yoe / 4 - yoe / 100
}

/// The days of the months before month `mp`, counted from March.
pub open spec fn month_start(mp: int) -> int {
    (153 * mp + 2) / 5
}

/// Days since 1970-01-01.
pub open spec fn day_number(y: int, m: int, d: int) -> int {
    let y2 = if m <= 2 {
        y - 1
    } else {
        y
    };
    (y2 / 400) * 146097 + cycle_year_start(y2 % 400) + month_start((m + 9) % 12) + d - 1 - 719468
}

/// Day of week, `0` for Sunday: 1970-01-01 was a Thursday.
pub open spec fn day_of_week(y: int, m: int, d: int) -> int {
    (day_number(y, m, d) + 4) % 7
}

/// The date that lies `z` days after 1970-01-01.
pub open spec fn civil(z: int) -> (int, int, int) {
    let era = (z + 719468) / 146097;
    let doe = (z + 719468) % 146097;
    let yoe = (doe - doe / 1460 + doe / 36524 - doe / 146096) / 365;
    let doy = doe - cycle_year_start(yoe);
    let mp = (5 * doy + 2) / 153;
    let m = if mp < 10 {
        mp + 3
    } else {
        mp - 9
    };
    let y = yoe + era * 400;
    (
        if m <= 2 {
            y + 1
        } else {
            y
        },
        m,
        doy - month_start(mp) + 1,
    )
}

/// A year and the one as far on the other side of zero are multiples of the same.
#[verifier::spinoff_prover]
#[verifier::rlimit(60)]
proof fn lemma_same_multiples(y: int)
    ensures
        (-y) % 4 == 0 <==> y % 4 == 0,
        (-y) % 100 == 0 <==> y % 100 == 0,
        (-y) % 400 == 0 <==> y % 400 == 0,
{
    assert((-y) % 4 == 0 <==> y % 4 == 0);
    assert((-y) % 100 == 0 <==> y % 100 == 0);
    assert((-y) % 400 == 0 <==> y % 400 == 0);
}

#[verifier::spinoff_prover]
#[verifier::rlimit(60)]
pub fn is_leap_year(y: i32) -> (r: bool)
    ensures
        r == leap(y as int),
{
    proof {
        lemma_same_multiples(y as int);
    }
    (y % 4 == 0 && y % 100 != 0) || y % 400 == 0
}

pub fn days_in_month(y: i32, m: u32) -> (r: u32)
    ensures
        r as int == month_days(y as int, m as int),
{
    match m {
        1 | 3 | 5 | 7 | 8 | 10 | 12 => 31,
        4 | 6 | 9 | 11 => 30,
        2 => {
            if is_leap_year(y) {
                29
            } else {
                28
            }
        },
        _ => 30,
    }
}

/// Days since 1970-01-01 for a proleptic-Gregorian `y`/`m`/`d`.
#[verifier::spinoff_prover]
#[verifier::rlimit(60)]
pub fn days_from_civil(y: i32, m: u32, d: u32) -> (r: i64)
    ensures
        r as int == day_number(y as int, m as int, d as int),
{
    let y2: i64 = if m <= 2 {
        y as i64 - 1
    } else {
        y as i64
    };
    let era: i64 = (if y2 >= 0 {
        y2
    } else {
        y2 - 399
    }) / 400;
    assert(era as int == y2 as int / 400);
    let yoe: i64 = y2 - era * 400;
    let mp: i64 = (m as i64 + 9) % 12;
    let doy: i64 = (153 * mp + 2) / 5 + d as i64 - 1;
    let doe: i64 = yoe * 365 + yoe / 4 - yoe / 100 + doy;
    era * 146097 + doe - 719468
}

/// The low 32 bits of a year, as an `i32` has them.
pub open spec fn low_bits(y: int) -> int {
    (y + 0x8000_0000) % 0x1_0000_0000 - 0x8000_0000
}

#[verifier::spinoff_prover]
#[verifier::rlimit(60)]
fn narrow_year(y: i64) -> (r: i32)
    ensures
        r as int == low_bits(y as int),
        i32::MIN <= y <= i32::MAX ==> r == y,
{
    let rest: i64 = y % 0x1_0000_0000;
    if rest >= 0x8000_0000 {
        (rest - 0x1_0000_0000) as i32
    } else if rest < -0x8000_0000 {
        (rest + 0x1_0000_0000) as i32
    } else {
        rest as i32
    }
}

/// The inverse of [`days_from_civil`]. Of a year beyond `i32` only the low 32
/// bits are kept.
#[verifier::spinoff_prover]
#[verifier::rlimit(60)]
pub fn civil_from_days(z: i64) -> (r: (i32, u32, u32))
    requires
        z <= i64::MAX - 719468,
    ensures
        r.0 as int == low_bits(civil(z as int).0),
        i32::MIN <= civil(z as int).0 <= i32::MAX ==> r.0 == civil(z as int).0,
        r.1 as int == civil(z as int).1,
        r.2 as int == civil(z as int).2,
{
    proof {
        law_civil_is_valid(z as int);
        lemma_year_of_cycle((z as int + 719468) % 146097);
    }
    let z2: i64 = z + 719468;
    let era: i64 = (if z2 >= 0 {
        z2
    } else {
        z2 - 146096
    }) / 146097;
    assert(era as int == z2 as int / 146097);
    let doe: i64 = z2 - era * 146097;
    let yoe: i64 = (doe - doe / 1460 + doe / 36524 - doe / 146096) / 365;
    let y: i64 = yoe + era * 400;
    let doy: i64 = doe - (365 * yoe + yoe / 4 - yoe / 100);
    let mp: i64 = (5 * doy + 2) / 153;
    let d: u32 = (doy - (153 * mp + 2) / 5 + 1) as u32;
    let m: u32 = (if mp < 10 {
        mp + 3
    } else {
        mp - 9
    }) as u32;
    let y2: i64 = if m <= 2 {
        y + 1
    } else {
        y
    };
    (narrow_year(y2), m, d)
}

/// Day of week for `y`/`m`/`d`: `0` = Sunday, ..., `6` = Saturday.
#[verifier::spinoff_prover]
#[verifier::rlimit(60)]
pub fn weekday(y: i32, m: u32, d: u32) -> (r: u32)
    ensures
        r as int == day_of_week(y as int, m as int, d as int),
{
    let days: i64 = days_from_civil(y, m, d);
    let shifted: i64 = days + 4 + 7 * 200_000_000_000;
    assert((days + 4) % 7 == shifted % 7) by {
        assert(shifted as int == (days + 4) + 7 * 200_000_000_000int);
    }
    (shifted % 7) as u32
}

// ---- the clock ----

/// The seconds since 1970-01-01 00:00:00 UTC that the system clock shows;
/// `None` for a clock before that.
///
/// `std::time::SystemTime::elapsed`, of `std::time::UNIX_EPOCH`. Nothing is claimed
/// of the result: it is what the clock shows.
#[verifier::external_body]
fn unix_seconds() -> (r: Option<u64>)
{
    match std::time::UNIX_EPOCH.elapsed() {
        Ok(d) => Some(d.as_secs()),
        Err(_) => None,
    }
}

/// A count of seconds as a signed number: two's complement, as `as i64` has it.
pub open spec fn signed_seconds(s: u64) -> int {
    if s <= i64::MAX {
        s as int
    } else {
        s - 0x1_0000_0000_0000_0000
    }
}

/// `t` is the moment `total` seconds after 1970-01-01 00:00:00 UTC.
pub open spec fn is_moment(total: int, t: (i32, u32, u32, u32, u32, u32)) -> bool {
    let date = civil(total / 86400);
    &&& t.0 as int == low_bits(date.0)
    &&& t.1 as int == date.1
    &&& t.2 as int == date.2
    &&& t.3 < 24 && t.4 < 60 && t.5 < 60
    &&& t.3 * 3600 + t.4 * 60 + t.5 == total % 86400
}

/// The day that holds a second, and the seconds of it, by division towards zero.
#[verifier::spinoff_prover]
#[verifier::rlimit(60)]
proof fn lemma_day_of(total: int)
    ensures
        total < 0 ==> -(-(total + 1) / 86400) - 1 == total / 86400,
        total < 0 ==> 86399 - (-(total + 1)) % 86400 == total % 86400,
{
}

/// The date and time (UTC) at `seconds` after 1970-01-01 00:00:00; without a
/// reading of the clock, that moment itself.
#[verifier::spinoff_prover]
#[verifier::rlimit(60)]
pub fn moment(seconds: Option<u64>) -> (r: (i32, u32, u32, u32, u32, u32))
    ensures
        is_moment(
            if seconds is Some {
                signed_seconds(seconds->0)
            } else {
                0
            },
            r,
        ),
{
    let total: i64 = match seconds {
        Some(s) => if s <= i64::MAX as u64 {
            s as i64
        } else {
            (s - 0x8000_0000_0000_0000) as i64 + i64::MIN
        },
        None => 0,
    };
    let days: i64 = if total >= 0 {
        total / 86400
    } else {
        -(-(total + 1) / 86400) - 1
    };
    assert(days as int == total as int / 86400) by {
        lemma_day_of(total as int);
    }
    let rest: u32 = if total >= 0 {
        (total % 86400) as u32
    } else {
        (86399 - (-(total + 1)) % 86400) as u32
    };
    assert(rest as int == total as int % 86400) by {
        lemma_day_of(total as int);
    }
    let (y, m, d) = civil_from_days(days);
    let hour: u32 = rest / 3600;
    let minute: u32 = (rest % 3600) / 60;
    let second: u32 = rest % 60;
    assert(hour < 24 && minute < 60 && second < 60 && hour * 3600 + minute * 60 + second == rest);
    (y, m, d, hour, minute, second)
}

/// The system clock's current date and time (UTC): `(year, month, day, hour,
/// minute, second)`.
pub fn now() -> (r: (i32, u32, u32, u32, u32, u32))
    ensures
        exists|total: int| is_moment(total, r),
{
    let seconds: Option<u64> = unix_seconds();
    let r = moment(seconds);
    proof {
        let total = if seconds is Some {
            signed_seconds(seconds->0)
        } else {
            0
        };
        assert(is_moment(total, r));
    }
    r
}

// ---- text formats ----

/// A year in at least four places, its sign counted.
pub open spec fn year_text(y: int) -> Seq<char> {
    if y < 0 {
        seq!['-'] + pad_zeros(decimal((-y) as nat), 3)
    } else {
        pad_zeros(decimal(y as nat), 4)
    }
}

pub open spec fn two_places(n: nat) -> Seq<char> {
    pad_zeros(decimal(n), 2)
}

pub open spec fn date_text(y: int, m: nat, d: nat) -> Seq<char> {
    two_places(d) + seq!['/'] + (two_places(m) + seq!['/'] + year_text(y))
}

pub open spec fn time_text(h: nat, m: nat, s: nat, with_seconds: bool) -> Seq<char> {
    if with_seconds {
        two_places(h) + seq![':'] + (two_places(m) + seq![':'] + two_places(s))
    } else {
        two_places(h) + seq![':'] + two_places(m)
    }
}

/// The date that a text gives, if it gives one.
pub open spec fn date_of_text(s: Seq<char>) -> Option<(int, int, int)> {
    let p = pieces(trimmed(s), '/');
    if p.len() != 3 {
        None
    } else {
        match (
            parse_nat(trimmed(p[0]), u32::MAX as nat),
            parse_nat(trimmed(p[1]), u32::MAX as nat),
            parse_int(trimmed(p[2])),
        ) {
            (Some(d), Some(m), Some(y)) => if valid_date(y, m as int, d as int) {
                Some((y, m as int, d as int))
            } else {
                None
            },
            _ => None,
        }
    }
}

/// The time that a text gives, if it gives one; without seconds, at second 0.
pub open spec fn time_of_text(s: Seq<char>) -> Option<(nat, nat, nat)> {
    let p = pieces(trimmed(s), ':');
    if p.len() != 2 && p.len() != 3 {
        None
    } else {
        let sec = if p.len() == 3 {
            parse_nat(trimmed(p[2]), u32::MAX as nat)
        } else {
            Some(0nat)
        };
        match (
            parse_nat(trimmed(p[0]), u32::MAX as nat),
            parse_nat(trimmed(p[1]), u32::MAX as nat),
            sec,
        ) {
            (Some(h), Some(m), Some(s)) => if h <= 23 && m <= 59 && s <= 59 {
                Some((h, m, s))
            } else {
                None
            },
            _ => None,
        }
    }
}

pub fn format_date(y: i32, m: u32, d: u32) -> (r: String)
    ensures
        r@ == date_text(y as int, m as nat, d as nat),
{
    let mut out: String = padded_decimal(d as u64, 2);
    out.push('/');
    out.append(padded_decimal(m as u64, 2).as_str());
    out.push('/');
    if y < 0 {
        out.push('-');
        out.append(padded_decimal((-(y as i64)) as u64, 3).as_str());
    } else {
        out.append(padded_decimal(y as u64, 4).as_str());
    }
    assert(out@ =~= date_text(y as int, m as nat, d as nat));
    out
}

pub fn parse_date(s: &str) -> (r: Option<(i32, u32, u32)>)
    ensures
        match r {
            Some((y, m, d)) => date_of_text(s@) == Some((y as int, m as int, d as int)),
            None => date_of_text(s@) is None,
        },
{
    let parts: Vec<&str> = split(trim(s), '/');
    let ghost p = parts@.map_values(|x: &str| x@);
    assert(p == pieces(trimmed(s@), '/'));
    assert(p.len() == parts@.len());
    if parts.len() != 3 {
        return None;
    }
    assert(p[0] == parts@[0]@ && p[1] == parts@[1]@ && p[2] == parts@[2]@);
    let d: u32 = match parse_unsigned(trim(parts[0])) {
        Some(v) => v,
        None => {
            return None;
        },
    };
    let m: u32 = match parse_unsigned(trim(parts[1])) {
        Some(v) => v,
        None => {
            return None;
        },
    };
    let y: i32 = match parse_signed(trim(parts[2])) {
        Some(v) => v,
        None => {
            return None;
        },
    };
    if m < 1 || m > 12 || d < 1 || d > days_in_month(y, m) {
        return None;
    }
    Some((y, m, d))
}

pub fn format_time(h: u32, m: u32, s: u32, with_seconds: bool) -> (r: String)
    ensures
        r@ == time_text(h as nat, m as nat, s as nat, with_seconds),
{
    let mut out: String = padded_decimal(h as u64, 2);
    out.push(':');
    out.append(padded_decimal(m as u64, 2).as_str());
    if with_seconds {
        out.push(':');
        out.append(padded_decimal(s as u64, 2).as_str());
    }
    assert(out@ =~= time_text(h as nat, m as nat, s as nat, with_seconds));
    out
}

pub fn parse_time(s: &str) -> (r: Option<(u32, u32, u32)>)
    ensures
        match r {
            Some((h, m, sec)) => time_of_text(s@) == Some((h as nat, m as nat, sec as nat)),
            None => time_of_text(s@) is None,
        },
{
    let parts: Vec<&str> = split(trim(s), ':');
    let ghost p = parts@.map_values(|x: &str| x@);
    assert(p == pieces(trimmed(s@), ':'));
    assert(p.len() == parts@.len());
    if parts.len() != 2 && parts.len() != 3 {
        return None;
    }
    assert(p[0] == parts@[0]@ && p[1] == parts@[1]@);
    let h: u32 = match parse_unsigned(trim(parts[0])) {
        Some(v) => v,
        None => {
            return None;
        },
    };
    let m: u32 = match parse_unsigned(trim(parts[1])) {
        Some(v) => v,
        None => {
            return None;
        },
    };
    let sec: u32 = if parts.len() == 3 {
        assert(p[2] == parts@[2]@);
        match parse_unsigned(trim(parts[2])) {
            Some(v) => v,
            None => {
                return None;
            },
        }
    } else {
        0
    };
    if h > 23 || m > 59 || sec > 59 {
        return None;
    }
    Some((h, m, sec))
}

pub open spec fn datetime_text(
    y: int,
    mo: nat,
    d: nat,
    h: nat,
    mi: nat,
    s: nat,
    with_seconds: bool,
) -> Seq<char> {
    date_text(y, mo, d) + seq![' '] + time_text(h, mi, s, with_seconds)
}

pub fn format_datetime(
    y: i32,
    mo: u32,
    d: u32,
    h: u32,
    mi: u32,
    s: u32,
    with_seconds: bool,
) -> (r: String)
    ensures
        r@ == datetime_text(
            y as int,
            mo as nat,
            d as nat,
            h as nat,
            mi as nat,
            s as nat,
            with_seconds,
        ),
{
    let mut out: String = format_date(y, mo, d);
    out.push(' ');
    out.append(format_time(h, mi, s, with_seconds).as_str());
    assert(out@ =~= datetime_text(
        y as int,
        mo as nat,
        d as nat,
        h as nat,
        mi as nat,
        s as nat,
        with_seconds,
    ));
    out
}

/// The date part and the time part of a date-time's text: what stands before
/// and after its first space. A text without one is a date if it holds a `/`,
/// else a time.
pub open spec fn datetime_parts(v: Seq<char>) -> (Seq<char>, Seq<char>) {
    let at = crate::text::next_sep(v, 0, ' ');
    if at < v.len() {
        (v.take(at), v.skip(at + 1))
    } else if v.contains('/') {
        (v, Seq::empty())
    } else {
        (Seq::empty(), v)
    }
}

/// Splits a date-time's text into `(date_part, time_part)`; either half is
/// `""` if not yet picked.
pub fn split_datetime(value: &str) -> (r: (&str, &str))
    ensures
        (r.0@, r.1@) == datetime_parts(value@),
{
    let cs: Vec<char> = chars_of(value);
    let n: usize = cs.len();
    let mut at: usize = 0;
    let mut slash: bool = false;
    while at < n && cs[at] != ' '
        invariant
            0 <= at <= n,
            n == cs@.len(),
            cs@ == value@,
            crate::text::next_sep(cs@, at as int, ' ') == crate::text::next_sep(cs@, 0, ' '),
            slash == exists|k: int| 0 <= k < at && cs@[k] == '/',
        decreases n - at,
    {
        if cs[at] == '/' {
            slash = true;
            assert(cs@[at as int] == '/');
        }
        at = at + 1;
    }
    if at < n {
        let d: &str = value.substring_char(0, at);
        let t: &str = value.substring_char(at + 1, n);
        assert(d@ =~= value@.take(at as int));
        assert(t@ =~= value@.skip(at + 1));
        (d, t)
    } else {
        let none: &str = value.substring_char(n, n);
        assert(none@ =~= Seq::<char>::empty());
        proof {
            if slash {
                let k = choose|k: int| 0 <= k < at && cs@[k] == '/';
                assert(value@[k] == '/');
            }
        }
        if slash {
            (value, none)
        } else {
            (none, value)
        }
    }
}

/// The two parts joined by one space; a missing part leaves the other alone.
pub open spec fn joined(date_part: Seq<char>, time_part: Seq<char>) -> Seq<char> {
    if time_part.len() == 0 {
        date_part
    } else if date_part.len() == 0 {
        time_part
    } else {
        date_part + seq![' '] + time_part
    }
}

pub fn join_datetime(date_part: &str, time_part: &str) -> (r: String)
    ensures
        r@ == joined(date_part@, time_part@),
{
    let mut out: String = date_part.to_owned();
    if !time_part.is_empty() {
        if !date_part.is_empty() {
            out.push(' ');
        }
        out.append(time_part);
    }
    assert(out@ =~= joined(date_part@, time_part@));
    out
}

// ---- popups ----

/// The day shown in cell `i` of a month's grid of 6 rows of 7 days, weeks
/// starting on Sunday: day 1 stands under its day of week.
pub open spec fn grid_day(y: int, m: int, i: int) -> Option<int> {
    let day = i - day_of_week(y, m, 1) + 1;
    if 1 <= day <= month_days(y, m) {
        Some(day)
    } else {
        None
    }
}

/// The 42 cells of a month's grid, row by row: the day each shows, `None` for a
/// blank before or after the month's days.
pub fn calendar_days(year: i32, month: u32) -> (r: Vec<Option<u32>>)
    ensures
        r@.len() == 42,
        forall|i: int|
            0 <= i < 42 ==> match #[trigger] r@[i] {
                Some(d) => grid_day(year as int, month as int, i) == Some(d as int),
                None => grid_day(year as int, month as int, i) is None,
            },
{
    let first: u32 = weekday(year, month, 1);
    let ndays: u32 = days_in_month(year, month);
    let mut out: Vec<Option<u32>> = Vec::new();
    let mut i: u32 = 0;
    while i < 42
        invariant
            0 <= i <= 42,
            out@.len() == i,
            first as int == day_of_week(year as int, month as int, 1),
            ndays as int == month_days(year as int, month as int),
            forall|k: int|
                0 <= k < i ==> match #[trigger] out@[k] {
                    Some(d) => grid_day(year as int, month as int, k) == Some(d as int),
                    None => grid_day(year as int, month as int, k) is None,
                },
        decreases 42 - i,
    {
        let day: Option<u32> = if i >= first && i - first < ndays {
            Some(i - first + 1)
        } else {
            None
        };
        out.push(day);
        i = i + 1;
    }
    out
}

/// An hour of the day on a 12-hour dial, and whether it is after noon.
pub open spec fn twelve_hour(hour: int) -> (int, bool) {
    (
        if hour % 12 == 0 {
            12
        } else {
            hour % 12
        },
        hour >= 12,
    )
}

/// An hour of the day on a 12-hour dial (1 to 12), and whether it is after noon.
pub fn to_12_hour(hour: u32) -> (r: (u32, bool))
    ensures
        (r.0 as int, r.1) == twelve_hour(hour as int),
        1 <= r.0 <= 12,
{
    let h: u32 = hour % 12;
    (
        if h == 0 {
            12
        } else {
            h
        },
        hour >= 12,
    )
}

/// The mark of a 60-unit dial that is nearest to `v`: marks stand at every fifth
/// unit, and 60 is 0.
pub open spec fn nearest_mark(v: int) -> int {
    (((v + 2) / 5) % 12) * 5
}

/// The mark of a 60-unit dial that is nearest to `v`.
pub fn nearest_tick(v: u32) -> (r: u32)
    ensures
        r as int == nearest_mark(v as int),
        r <= 55,
{
    let whole: u32 = v / 5 + if v % 5 >= 3 {
        1
    } else {
        0
    };
    assert(whole as int == (v as int + 2) / 5);
    (whole % 12) * 5
}

/// The nearest mark is at most two units off, on the way round the dial.
pub proof fn law_nearest_mark_is_near(v: int)
    requires
        0 <= v < 60,
    ensures
        -2 <= nearest_mark(v) - v <= 2 || (v >= 58 && nearest_mark(v) == 0),
        nearest_mark(v) % 5 == 0,
{
}

/// One wraparound step of a unit that counts below `bound`.
pub open spec fn wrap_step(v: int, delta: int, bound: int) -> int {
    (v + delta) % bound
}

/// `v` as `as i32` has it.
pub open spec fn as_signed(v: u32) -> int {
    if v <= i32::MAX {
        v as int
    } else {
        v - 0x1_0000_0000
    }
}

/// The unit that `column` selects.
pub open spec fn column_of(h: u32, m: u32, s: u32, column: usize) -> u32 {
    if column == 0 {
        h
    } else if column == 1 {
        m
    } else {
        s
    }
}

/// Applies a wraparound step to one column (`0` = hour, `1` = minute, `2` =
/// second) of an `(h, m, s)` triple.
pub fn step_hms(h: u32, m: u32, s: u32, column: usize, delta: i32) -> (r: (u32, u32, u32))
    requires
        i32::MIN <= as_signed(column_of(h, m, s, column)) + delta <= i32::MAX,
    ensures
        r.0 as int == if column == 0 {
            wrap_step(as_signed(h), delta as int, 24)
        } else {
            h as int
        },
        r.1 as int == if column == 1 {
            wrap_step(as_signed(m), delta as int, 60)
        } else {
            m as int
        },
        r.2 as int == if column >= 2 {
            wrap_step(as_signed(s), delta as int, 60)
        } else {
            s as int
        },
{
    match column {
        0 => (wrap(h, delta, 24), m, s),
        1 => (h, wrap(m, delta, 60), s),
        _ => (h, m, wrap(s, delta, 60)),
    }
}

#[verifier::spinoff_prover]
#[verifier::rlimit(60)]
fn wrap(v: u32, delta: i32, bound: u32) -> (r: u32)
    requires
        0 < bound <= 60,
    ensures
        r as int == wrap_step(as_signed(v), delta as int, bound as int),
{
    let signed: i64 = if v <= 0x7fff_ffff {
        v as i64
    } else {
        v as i64 - 0x1_0000_0000
    };
    let t: i64 = signed + delta as i64;
    let lift: i64 = 5_000_000_000i64 * bound as i64;
    assert((t + 5_000_000_000 * bound as int) % (bound as int) == (t as int) % (bound as int)) by {
        vstd::arithmetic::div_mod::lemma_mod_multiples_vanish(
            5_000_000_000,
            t as int,
            bound as int,
        );
        assert(bound as int * 5_000_000_000 == 5_000_000_000 * bound as int) by (nonlinear_arith);
    }
    ((t + lift) % bound as i64) as u32
}

// ---- laws ----

/// Each day's number is one more than that of the day before it, and 1970-01-01
/// has number 0: this fixes the number of every day.
#[verifier::spinoff_prover]
#[verifier::rlimit(60)]
pub proof fn law_day_numbers_count_days(y: int, m: int, d: int)
    requires
        valid_date(y, m, d),
    ensures
        day_number(next_day(y, m, d).0, next_day(y, m, d).1, next_day(y, m, d).2) == day_number(
            y,
            m,
            d,
        ) + 1,
        day_number(1970, 1, 1) == 0,
{
    if d == month_days(y, m) && m == 2 {
        lemma_cycle_step(y - 1);
    }
}

/// From one March to the next: 366 days if the February between has 29, else 365.
#[verifier::spinoff_prover]
#[verifier::rlimit(60)]
proof fn lemma_cycle_step(y: int)
    ensures
        (y / 400) * 146097 + cycle_year_start(y % 400) + 365 + (if leap(y + 1) {
            1int
        } else {
            0
        }) == ((y + 1) / 400) * 146097 + cycle_year_start((y + 1) % 400),
{
    let q = y / 400;
    let a = y % 400;
    if a == 399 {
        lemma_cycle_shift(q + 1, 0);
    } else {
        lemma_cycle_shift(q, a + 1);
        lemma_leap_in_cycle(a + 1);
    }
}

/// Whole cycles leave the year's place in a cycle, and leap years, as they are.
#[verifier::spinoff_prover]
#[verifier::rlimit(60)]
proof fn lemma_cycle_shift(q: int, k: int)
    requires
        0 <= k < 400,
    ensures
        (400 * q + k) % 400 == k,
        (400 * q + k) / 400 == q,
        leap(400 * q + k) == leap(k),
{
    vstd::arithmetic::div_mod::lemma_mod_multiples_vanish(q, k, 400);
    vstd::arithmetic::div_mod::lemma_mod_multiples_vanish(100 * q, k, 4);
    vstd::arithmetic::div_mod::lemma_mod_multiples_vanish(4 * q, k, 100);
    assert(400 * q + k == 4 * (100 * q) + k);
    assert(400 * q + k == 100 * (4 * q) + k);
}

#[verifier::spinoff_prover]
#[verifier::rlimit(60)]
proof fn lemma_leap_in_cycle(k: int)
    requires
        0 < k < 400,
    ensures
        cycle_year_start(k) - cycle_year_start(k - 1) == 365 + (if leap(k) {
            1int
        } else {
            0
        }),
{
}

proof fn lemma_next_weekday(n: int)
    ensures
        (n + 1 + 4) % 7 == ((n + 4) % 7 + 1) % 7,
{
}

/// Consecutive days fall on consecutive days of the week.
#[verifier::spinoff_prover]
#[verifier::rlimit(60)]
pub proof fn law_weekdays_cycle(y: int, m: int, d: int)
    requires
        valid_date(y, m, d),
    ensures
        day_of_week(next_day(y, m, d).0, next_day(y, m, d).1, next_day(y, m, d).2) == (day_of_week(
            y,
            m,
            d,
        ) + 1) % 7,
        0 <= day_of_week(y, m, d) < 7,
{
    law_day_numbers_count_days(y, m, d);
    lemma_next_weekday(day_number(y, m, d));
}

/// The year of a 400-year cycle that day `doe` of the cycle falls in.
#[verifier::spinoff_prover]
#[verifier::rlimit(60)]
proof fn lemma_year_of_cycle(doe: int)
    requires
        0 <= doe < 146097,
    ensures
        ({
            let yoe = (doe - doe / 1460 + doe / 36524 - doe / 146096) / 365;
            &&& 0 <= yoe <= 399
            &&& cycle_year_start(yoe) <= doe
            &&& yoe < 399 ==> doe < cycle_year_start(yoe + 1)
        }),
{
    let c = doe / 36524;
    let yoe = (doe - doe / 1460 + doe / 36524 - doe / 146096) / 365;
    assert(0 <= c <= 4);
    if doe == 146096 {
        assert(yoe == 399);
    } else {
        let r = doe - 36524 * c;
        assert(0 <= r < 36524);
        assert(0 <= c <= 3);
    }
}

/// The day-of-year split into a month (from March) and a day.
proof fn lemma_month_of_year(doy: int)
    requires
        0 <= doy <= 365,
    ensures
        ({
            let mp = (5 * doy + 2) / 153;
            &&& 0 <= mp <= 11
            &&& month_start(mp) <= doy
            &&& mp < 11 ==> doy < month_start(mp + 1)
        }),
{
}

/// Every number is the number of a day, and `civil_from_days` finds that day.
#[verifier::spinoff_prover]
#[verifier::rlimit(60)]
pub proof fn law_civil_is_valid(z: int)
    ensures
        valid_date(civil(z).0, civil(z).1, civil(z).2),
        day_number(civil(z).0, civil(z).1, civil(z).2) == z,
{
    let n = z + 719468;
    let era = n / 146097;
    let doe = n % 146097;
    lemma_year_of_cycle(doe);
    let yoe = (doe - doe / 1460 + doe / 36524 - doe / 146096) / 365;
    let doy = doe - cycle_year_start(yoe);
    if yoe < 399 {
        lemma_leap_in_cycle(yoe + 1);
        lemma_cycle_shift(era, yoe + 1);
    } else {
        lemma_cycle_shift(era + 1, 0);
    }
    lemma_date_of_parts(era, yoe, doy);
}

/// A day of a year that starts in March, as a date.
#[verifier::spinoff_prover]
#[verifier::rlimit(60)]
proof fn lemma_date_of_parts(era: int, yoe: int, doy: int)
    requires
        0 <= yoe <= 399,
        0 <= doy <= 365,
        doy == 365 ==> leap(400 * era + yoe + 1),
    ensures
        ({
            let mp = (5 * doy + 2) / 153;
            let y = yoe + era * 400;
            let m = if mp < 10 {
                mp + 3
            } else {
                mp - 9
            };
            let y2 = if m <= 2 {
                y + 1
            } else {
                y
            };
            let d = doy - month_start(mp) + 1;
            &&& valid_date(y2, m, d)
            &&& day_number(y2, m, d) == era * 146097 + cycle_year_start(yoe) + doy - 719468
        }),
{
    lemma_cycle_shift(era, yoe);
    lemma_month_of_year(doy);
}

/// `civil_from_days` gives back the date that `days_from_civil` counted.
#[verifier::spinoff_prover]
#[verifier::rlimit(60)]
pub proof fn law_civil_inverts_day_number(y: int, m: int, d: int)
    requires
        valid_date(y, m, d),
    ensures
        civil(day_number(y, m, d)) == (y, m, d),
{
    let y2 = if m <= 2 {
        y - 1
    } else {
        y
    };
    let q = y2 / 400;
    let yoe = y2 % 400;
    let mp = (m + 9) % 12;
    let doy = month_start(mp) + d - 1;
    let doe = cycle_year_start(yoe) + doy;
    assert(y2 == 400 * q + yoe);
    lemma_month_recovered(y, m, d);
    if yoe < 399 {
        lemma_cycle_shift(q, yoe + 1);
        lemma_leap_in_cycle(yoe + 1);
    }
    lemma_cycle_recovered(q, doe, yoe);
}

/// The month and the day are recovered from the day of a year that starts in March.
#[verifier::spinoff_prover]
#[verifier::rlimit(60)]
proof fn lemma_month_recovered(y: int, m: int, d: int)
    requires
        valid_date(y, m, d),
    ensures
        ({
            let mp = (m + 9) % 12;
            let doy = month_start(mp) + d - 1;
            &&& 0 <= mp <= 11
            &&& 0 <= doy <= 365
            &&& (5 * doy + 2) / 153 == mp
            &&& m == (if mp < 10 {
                mp + 3
            } else {
                mp - 9
            })
            &&& doy == 365 ==> m == 2 && leap(y)
        }),
{
}

/// The year of the cycle is recovered from the day of the cycle.
#[verifier::spinoff_prover]
#[verifier::rlimit(60)]
proof fn lemma_cycle_recovered(q: int, doe: int, yoe: int)
    requires
        0 <= yoe <= 399,
        cycle_year_start(yoe) <= doe <= cycle_year_start(yoe) + 365,
        yoe < 399 ==> doe < cycle_year_start(yoe + 1),
    ensures
        (q * 146097 + doe) / 146097 == q,
        (q * 146097 + doe) % 146097 == doe,
        (doe - doe / 1460 + doe / 36524 - doe / 146096) / 365 == yoe,
{
    assert(0 <= doe < 146097);
    assert((q * 146097 + doe) % 146097 == doe);
    lemma_year_of_cycle(doe);
    lemma_cycle_unique(
        doe,
        yoe,
        (doe - doe / 1460 + doe / 36524 - doe / 146096) / 365,
    );
}

#[verifier::spinoff_prover]
#[verifier::rlimit(60)]
proof fn lemma_cycle_unique(doe: int, a: int, b: int)
    requires
        0 <= a <= 399,
        0 <= b <= 399,
        cycle_year_start(a) <= doe,
        cycle_year_start(b) <= doe,
        a < 399 ==> doe < cycle_year_start(a + 1),
        b < 399 ==> doe < cycle_year_start(b + 1),
    ensures
        a == b,
{
    if a < b {
        assert(cycle_year_start(a + 1) <= cycle_year_start(b));
    } else if b < a {
        assert(cycle_year_start(b + 1) <= cycle_year_start(a));
    }
}

/// A text of digits keeps its value through trimming and parsing.
proof fn lemma_two_places(n: nat, sep: char)
    requires
        n <= u32::MAX,
        !is_digit(sep),
    ensures
        parse_nat(trimmed(two_places(n)), u32::MAX as nat) == Some(n),
        forall|k: int|
            0 <= k < two_places(n).len() ==> #[trigger] two_places(n)[k] != sep && is_digit(
                two_places(n)[k],
            ),
        two_places(n).len() > 0,
{
    lemma_decimal(n);
    lemma_digits_pad(decimal(n), 2);
    let t = two_places(n);
    assert(is_digit(t[0]) && is_digit(t[t.len() - 1]));
    lemma_trimmed_noop(t);
}

proof fn lemma_year_text(y: int)
    requires
        i32::MIN <= y <= i32::MAX,
    ensures
        parse_int(trimmed(year_text(y))) == Some(y),
        forall|k: int|
            0 <= k < year_text(y).len() ==> #[trigger] year_text(y)[k] != '/' && !is_whitespace(
                year_text(y)[k],
            ),
        year_text(y).len() > 0,
{
    let n = if y < 0 {
        (-y) as nat
    } else {
        y as nat
    };
    lemma_decimal(n);
    lemma_digits_pad(decimal(n), 3);
    lemma_digits_pad(decimal(n), 4);
    let t = year_text(y);
    if y < 0 {
        let body = pad_zeros(decimal(n), 3);
        assert(t.skip(1) =~= body);
        assert forall|k: int| 0 <= k < t.len() implies #[trigger] t[k] != '/' && !is_whitespace(
            t[k],
        ) by {
            if k > 0 {
                assert(t[k] == body[k - 1]);
            }
        }
    }
    lemma_trimmed_noop(t);
}

/// A formatted date parses back to the date, for every valid date.
pub proof fn law_date_round_trip(y: int, m: nat, d: nat)
    requires
        i32::MIN <= y <= i32::MAX,
        valid_date(y, m as int, d as int),
    ensures
        date_of_text(date_text(y, m, d)) == Some((y, m as int, d as int)),
{
    let t = date_text(y, m, d);
    let a = two_places(d);
    let b = two_places(m);
    let c = year_text(y);
    lemma_two_places(d, '/');
    lemma_two_places(m, '/');
    lemma_year_text(y);
    assert(t[0] == a[0]);
    assert(t[t.len() - 1] == c[c.len() - 1]);
    lemma_trimmed_noop(t);
    lemma_pieces_cons(a, b + seq!['/'] + c, '/');
    lemma_pieces_cons(b, c, '/');
    lemma_pieces_one(c, '/');
    assert(pieces(t, '/') =~= seq![a, b, c]);
}

/// A formatted time parses back to the time (at second 0, if the seconds were
/// left out), for every time of day.
pub proof fn law_time_round_trip(h: nat, m: nat, s: nat)
    requires
        h <= 23,
        m <= 59,
        s <= 59,
    ensures
        time_of_text(time_text(h, m, s, true)) == Some((h, m, s)),
        time_of_text(time_text(h, m, s, false)) == Some((h, m, 0nat)),
{
    let a = two_places(h);
    let b = two_places(m);
    let c = two_places(s);
    lemma_two_places(h, ':');
    lemma_two_places(m, ':');
    lemma_two_places(s, ':');
    let t = time_text(h, m, s, true);
    assert(t[0] == a[0]);
    assert(t[t.len() - 1] == c[c.len() - 1]);
    lemma_trimmed_noop(t);
    lemma_pieces_cons(a, b + seq![':'] + c, ':');
    lemma_pieces_cons(b, c, ':');
    lemma_pieces_one(c, ':');
    assert(pieces(t, ':') =~= seq![a, b, c]);
    let u = time_text(h, m, s, false);
    assert(u[0] == a[0]);
    assert(u[u.len() - 1] == b[b.len() - 1]);
    lemma_trimmed_noop(u);
    lemma_pieces_cons(a, b, ':');
    lemma_pieces_one(b, ':');
    assert(pieces(u, ':') =~= seq![a, b]);
}

/// Splitting a joined date-time gives back its parts. The date part holds no
/// space, and a `/` if it stands alone; the time part holds neither if it does.
pub proof fn law_split_inverts_join(date_part: Seq<char>, time_part: Seq<char>)
    requires
        !date_part.contains(' '),
        date_part.len() > 0 && time_part.len() == 0 ==> date_part.contains('/'),
        date_part.len() == 0 ==> !time_part.contains(' ') && !time_part.contains('/'),
    ensures
        datetime_parts(joined(date_part, time_part)) == (date_part, time_part),
{
    let v = joined(date_part, time_part);
    if date_part.len() > 0 && time_part.len() > 0 {
        assert(v.take(date_part.len() as int) =~= date_part);
        lemma_sep_at(v, 0, date_part.len() as int, date_part);
        assert(v.skip(date_part.len() as int + 1) =~= time_part);
    } else if date_part.len() > 0 {
        assert(v.take(v.len() as int) =~= v);
        lemma_sep_at(v, 0, v.len() as int, v);
        assert(time_part =~= Seq::<char>::empty());
    } else {
        assert(date_part =~= Seq::<char>::empty());
        assert(v =~= time_part);
        assert(v.take(v.len() as int) =~= v);
        lemma_sep_at(v, 0, v.len() as int, v);
    }
}

proof fn lemma_sep_at(v: Seq<char>, i: int, n: int, head: Seq<char>)
    requires
        0 <= i <= n <= v.len(),
        head.len() == n,
        v.take(n) == head,
        !head.contains(' '),
        n == v.len() || v[n] == ' ',
    ensures
        crate::text::next_sep(v, i, ' ') == n,
    decreases n - i,
{
    if i < n {
        assert(v[i] == head[i]);
        lemma_sep_at(v, i + 1, n, head);
    }
}

/// A step back undoes a step forward.
#[verifier::spinoff_prover]
#[verifier::rlimit(60)]
pub proof fn law_steps_are_inverse(v: int, delta: int, bound: int)
    requires
        0 <= v < bound,
    ensures
        wrap_step(wrap_step(v, delta, bound), -delta, bound) == v,
        0 <= wrap_step(v, delta, bound) < bound,
{
    vstd::arithmetic::div_mod::lemma_mod_bound(v + delta, bound);
    vstd::arithmetic::div_mod::lemma_sub_mod_noop(v + delta, delta, bound);
    vstd::arithmetic::div_mod::lemma_sub_mod_noop_right(v + delta, delta, bound);
    let w = (v + delta) % bound;
    vstd::arithmetic::div_mod::lemma_sub_mod_noop_right(w, delta, bound);
    vstd::arithmetic::div_mod::lemma_mod_twice(v + delta, bound);
    vstd::arithmetic::div_mod::lemma_sub_mod_noop(w, delta, bound);
    vstd::arithmetic::div_mod::lemma_small_mod(v as nat, bound as nat);
    assert(v + delta - delta == v);
}

/// The days of a month all stand in its grid, in order, each once.
#[verifier::spinoff_prover]
#[verifier::rlimit(60)]
pub proof fn law_grid_shows_every_day(y: int, m: int, day: int)
    requires
        1 <= day <= month_days(y, m),
    ensures
        0 <= day_of_week(y, m, 1) + day - 1 < 42,
        grid_day(y, m, day_of_week(y, m, 1) + day - 1) == Some(day),
        forall|i: int| grid_day(y, m, i) == Some(day) ==> i == day_of_week(y, m, 1) + day - 1,
{
}

} // verus!
