//! Wall-clock time as text.

use crate::text::{
    decimal, decimal_string, decimal_value_of_decimal, digits, pad_start, padded_start, push_digits,
};
use vstd::prelude::*;
use vstd::string::*;

verus! {

// ---- Calendar ----

/// True for a leap year of the Gregorian calendar.
pub open spec fn is_leap(y: int) -> bool {
    y % 4 == 0 && (y % 100 != 0 || y % 400 == 0)
}

/// Days from 0000-01-01 to the start of year `y` (proleptic Gregorian).
pub open spec fn days_before_year(y: int) -> int {
    365 * y + (y + 3) / 4 - (y + 99) / 100 + (y + 399) / 400
}

/// Days from the start of year `y` to the start of month `m`.
pub open spec fn days_before_month(y: int, m: int) -> int {
    let leap = if is_leap(y) {
        1int
    } else {
        0
    };
    if m == 1 {
        0
    } else if m == 2 {
        31
    } else if m == 3 {
        59 + leap
    } else if m == 4 {
        90 + leap
    } else if m == 5 {
        120 + leap
    } else if m == 6 {
        151 + leap
    } else if m == 7 {
        181 + leap
    } else if m == 8 {
        212 + leap
    } else if m == 9 {
        243 + leap
    } else if m == 10 {
        273 + leap
    } else if m == 11 {
        304 + leap
    } else if m == 12 {
        334 + leap
    } else {
        365 + leap
    }
}

/// Days of month `m` of year `y`.
pub open spec fn days_in_month(y: int, m: int) -> int {
    days_before_month(y, m + 1) - days_before_month(y, m)
}

/// True if there is such a date.
pub open spec fn is_date(y: int, m: int, d: int) -> bool {
    1 <= m <= 12 && 1 <= d <= days_in_month(y, m)
}

/// Days from 1970-01-01 to the date.
pub open spec fn day_number(y: int, m: int, d: int) -> int {
    days_before_year(y) + days_before_month(y, m) + d - 1 - 719528
}

/// The days of four centuries that start on a first of March.
spec fn march_days(yoe: int) -> int {
    365 * yoe + yoe / 4 - yoe / 100
}

proof fn lemma_march_year(era: int, yoe: int)
    requires
        0 <= yoe < 400,
    ensures
        days_before_year(era * 400 + yoe) + days_before_month(era * 400 + yoe, 3) == era * 146097
            + march_days(yoe) + 60,
        days_before_year(era * 400 + yoe + 1) + 306 == era * 146097 + march_days(yoe) + 366 + 306,
{
    let y = era * 400 + yoe;
    assert(era * 400 == 400 * era);
    assert(y / 4 == era * 100 + yoe / 4);
    assert(y / 100 == era * 4 + yoe / 100);
    assert(y % 4 == yoe % 4);
    assert(y % 100 == yoe % 100);
    assert(y % 400 == yoe);
    assert((y + 3) / 4 == era * 100 + (yoe + 3) / 4);
    assert((y + 99) / 100 == era * 4 + (yoe + 99) / 100);
    assert((y + 399) / 400 == era + (yoe + 399) / 400);
    assert((y + 4) / 4 == era * 100 + yoe / 4 + 1);
    assert((y + 100) / 100 == era * 4 + yoe / 100 + 1);
    assert((y + 400) / 400 == era + 1);
}

/// `z / d` rounded down.
fn floor_div(z: i64, d: i64) -> (r: i64)
    requires
        d > 0,
    ensures
        r == z as int / d as int,
{
    if z >= 0 {
        z / d
    } else {
        let n = -(z + 1);
        let q = n / d;
        proof {
            let zi = z as int;
            let di = d as int;
            let ni = n as int;
            assert(zi / di == -(ni / di) - 1) by (nonlinear_arith)
                requires
                    di > 0,
                    ni >= 0,
                    zi == -(ni + 1),
            ;
            assert(0 <= ni / di <= ni) by (nonlinear_arith)
                requires
                    di > 0,
                    ni >= 0,
            ;
        }
        -q - 1
    }
}

/// Splits a day of four centuries that start on a first of March into the year and
/// the day of that year.
fn split_era(doe: i64) -> (r: (i64, i64))
    requires
        0 <= doe < 146097,
    ensures
        0 <= r.0 < 400,
        doe == march_days(r.0 as int) + r.1,
        0 <= r.1 <= 365,
        r.1 == 365 ==> is_leap(r.0 + 1),
{
    let n100: i64 = if doe / 36524 < 3 {
        doe / 36524
    } else {
        3
    };
    let rem = doe - n100 * 36524;
    let n4: i64 = rem / 1461;
    let rem2 = rem - n4 * 1461;
    let n1: i64 = if rem2 / 365 < 3 {
        rem2 / 365
    } else {
        3
    };
    let doy = rem2 - n1 * 365;
    let yoe = 100 * n100 + 4 * n4 + n1;
    proof {
        let c = n100 as int;
        let q = n4 as int;
        let k = n1 as int;
        let y = yoe as int;
        assert(0 <= c <= 3);
        assert(0 <= rem <= 36524);
        assert(0 <= q <= 24);
        assert(0 <= rem2 <= 1460);
        assert(y / 4 == 25 * c + q);
        assert(y / 100 == c);
        assert(march_days(y) == 36524 * c + 1461 * q + 365 * k);
        if doy == 365 {
            assert(k == 3 && rem2 == 1460);
            assert((y + 1) % 4 == 0);
            if q == 24 {
                assert(c == 3);
                assert(y + 1 == 400);
            } else {
                assert((y + 1) % 100 == 4 * (q + 1));
            }
        }
    }
    (yoe, doy)
}

/// Splits a day of a year that starts on a first of March into month and day.
fn split_march_year(doy: i64) -> (r: (i64, i64))
    requires
        0 <= doy <= 365,
    ensures
        1 <= r.0 <= 12,
        r.0 > 2 ==> doy == days_before_month(1, r.0 as int) - 59 + r.1 - 1 && 1 <= r.1
            <= days_in_month(1, r.0 as int),
        r.0 == 1 ==> doy == 306 + r.1 - 1 && 1 <= r.1 <= 31,
        r.0 == 2 ==> doy == 337 + r.1 - 1 && 1 <= r.1 <= 29 && (r.1 == 29 ==> doy == 365),
{
    let mp: i64 = (5 * doy + 2) / 153;
    let d: i64 = doy - (153 * mp + 2) / 5 + 1;
    let m: i64 = if mp < 10 {
        mp + 3
    } else {
        mp - 9
    };
    proof {
        assert(0 <= mp <= 11);
        assert(!is_leap(1));
        assert(mp == 0 || mp == 1 || mp == 2 || mp == 3 || mp == 4 || mp == 5 || mp == 6 || mp == 7
            || mp == 8 || mp == 9 || mp == 10 || mp == 11);
    }
    (m, d)
}

/// Convert a days-from-Unix-epoch value into a `(year, month, day)` civil date:
/// a proleptic Gregorian date (UTC).
pub fn civil_from_days(z: i64) -> (r: (i64, i64, i64))
    requires
        z + 719468 <= i64::MAX,
    ensures
        is_date(r.0 as int, r.1 as int, r.2 as int),
        day_number(r.0 as int, r.1 as int, r.2 as int) == z,
{
    let z1: i64 = z + 719468;
    let era = floor_div(z1, 146097);
    proof {
        vstd::arithmetic::div_mod::lemma_fundamental_div_mod(z1 as int, 146097);
        assert(z1 == 146097 * (era as int) + z1 as int % 146097);
    }
    let doe = z1 - era * 146097;
    let (yoe, doy) = split_era(doe);
    let y = yoe + era * 400;
    let (m, d) = split_march_year(doy);
    proof {
        let e = era as int;
        let yi = e * 400 + yoe;
        assert(y == yi);
        lemma_march_year(e, yoe as int);
        lemma_leap_in_era(e, yoe + 1);
        assert(z1 == e * 146097 + doe);
    }
    (if m <= 2 {
        y + 1
    } else {
        y
    }, m, d)
}

proof fn lemma_leap_in_era(era: int, yoe: int)
    ensures
        is_leap(era * 400 + yoe) == is_leap(yoe),
{
    assert(era * 400 == 400 * era);
    assert((400 * era + yoe) % 4 == yoe % 4);
    assert((400 * era + yoe) % 100 == yoe % 100);
    assert((400 * era + yoe) % 400 == yoe % 400);
}

proof fn lemma_year_length(y: int)
    ensures
        days_before_year(y + 1) == days_before_year(y) + days_before_month(y, 13),
{
    assert((y + 4) / 4 == (y + 3) / 4 + (if y % 4 == 0 {
        1int
    } else {
        0
    }));
    assert((y + 100) / 100 == (y + 99) / 100 + (if y % 100 == 0 {
        1int
    } else {
        0
    }));
    assert((y + 400) / 400 == (y + 399) / 400 + (if y % 400 == 0 {
        1int
    } else {
        0
    }));
    if y % 400 == 0 {
        assert(y % 100 == 0);
    }
    if y % 100 == 0 {
        assert(y % 4 == 0);
    }
}

proof fn lemma_years_grow(a: int, b: int)
    requires
        a <= b,
    ensures
        days_before_year(a) <= days_before_year(b),
    decreases b - a,
{
    if a < b {
        lemma_years_grow(a, b - 1);
        lemma_year_length(b - 1);
    }
}

/// A day has one date: two dates with the same day number are the same.
pub proof fn day_has_one_date(y: int, m: int, d: int, y2: int, m2: int, d2: int)
    requires
        is_date(y, m, d),
        is_date(y2, m2, d2),
        day_number(y, m, d) == day_number(y2, m2, d2),
    ensures
        y == y2 && m == m2 && d == d2,
{
    lemma_year_length(y);
    lemma_year_length(y2);
    if y < y2 {
        lemma_years_grow(y + 1, y2);
    } else if y2 < y {
        lemma_years_grow(y2 + 1, y);
    }
}

// ---- Timestamps ----

/// A broken-down point in time.
#[derive(Debug, Clone, Copy, PartialEq, Eq, Structural)]
pub struct CalendarTime {
    /// Year, such as 2024.
    pub year: i64,
    /// Month, 1 to 12.
    pub month: i64,
    /// Day of the month.
    pub day: i64,
    /// Hour.
    pub hour: i64,
    /// Minute.
    pub minute: i64,
    /// Second.
    pub second: i64,
}

/// `v` in decimal, padded with zeros between sign and digits.
pub open spec fn zero_padded(v: int, width: nat) -> Seq<char> {
    if v >= 0 {
        padded_start(decimal(v as nat), width, '0')
    } else {
        seq!['-'] + padded_start(decimal((-v) as nat), (width - 1) as nat, '0')
    }
}

/// `YYYYMMDD-HH:MM:SS.mmm`.
pub open spec fn time_text(t: CalendarTime, millis: int) -> Seq<char> {
    zero_padded(t.year as int, 4) + zero_padded(t.month as int, 2) + zero_padded(t.day as int, 2)
        + seq!['-'] + zero_padded(t.hour as int, 2) + seq![':'] + zero_padded(t.minute as int, 2)
        + seq![':'] + zero_padded(t.second as int, 2) + seq!['.'] + zero_padded(millis, 3)
}

fn push_zero_padded(out: &mut String, v: i64, width: usize)
    requires
        width >= 1,
    ensures
        final(out)@ == old(out)@ + zero_padded(v as int, width as nat),
{
    let ghost before = out@;
    let mut digits = String::new();
    if v >= 0 {
        push_digits(&mut digits, v as u128, 10, false);
        assert(digits@ =~= decimal(v as nat));
        out.append(pad_start(digits.as_str(), width, '0').as_str());
    } else {
        let n: u128 = (-(v as i128)) as u128;
        push_digits(&mut digits, n, 10, false);
        assert(digits@ =~= decimal((-(v as int)) as nat));
        out.push('-');
        out.append(pad_start(digits.as_str(), width - 1, '0').as_str());
        assert(out@ =~= before + zero_padded(v as int, width as nat));
    }
}

/// `YYYYMMDD-HH:MM:SS.mmm` for a broken-down time.
pub fn format_time(t: &CalendarTime, millis: i64) -> (r: String)
    ensures
        r@ == time_text(*t, millis as int),
{
    let mut s = String::new();
    push_zero_padded(&mut s, t.year, 4);
    push_zero_padded(&mut s, t.month, 2);
    push_zero_padded(&mut s, t.day, 2);
    s.push('-');
    push_zero_padded(&mut s, t.hour, 2);
    s.push(':');
    push_zero_padded(&mut s, t.minute, 2);
    s.push(':');
    push_zero_padded(&mut s, t.second, 2);
    s.push('.');
    push_zero_padded(&mut s, millis, 3);
    assert(s@ =~= time_text(*t, millis as int));
    s
}

/// The text of a host time: its local breakdown `t`, or the seconds where there is
/// none; a mark where no time was recorded.
pub open spec fn local_ts_text(unix_ms: u64, t: Option<CalendarTime>) -> Seq<char> {
    if unix_ms == 0 {
        "--------------------.---"@
    } else {
        match t {
            Some(t) => time_text(t, (unix_ms % 1000) as int),
            None => "@"@ + decimal((unix_ms / 1000) as nat) + "s"@,
        }
    }
}

/// Format a host wall-clock millisecond value as a local timestamp string
/// `YYYYMMDD-HH:MM:SS.mmm`. `local` is the breakdown of its seconds in the host's
/// time zone; without one the text is `@<secs>s`.
pub fn local_ts_string(unix_ms: u64, local: Option<&CalendarTime>) -> (r: String)
    ensures
        r@ == local_ts_text(
            unix_ms,
            match local {
                Some(t) => Some(*t),
                None => None,
            },
        ),
{
    if unix_ms == 0 {
        return "--------------------.---".to_string();
    }
    match local {
        Some(t) => format_time(t, (unix_ms % 1000) as i64),
        None => {
            let mut s = "@".to_string();
            s.append(decimal_string(unix_ms / 1000).as_str());
            s.append("s");
            s
        },
    }
}

/// The breakdown in UTC of seconds since the Unix epoch.
pub open spec fn is_utc_time(t: CalendarTime, secs: u64) -> bool {
    &&& is_date(t.year as int, t.month as int, t.day as int)
    &&& 0 <= t.hour < 24
    &&& 0 <= t.minute < 60
    &&& 0 <= t.second < 60
    &&& secs == 86400 * day_number(t.year as int, t.month as int, t.day as int) + 3600 * t.hour + 60
        * t.minute + t.second
}

/// Breaks seconds since the Unix epoch down in UTC.
pub fn utc_time(secs: u64) -> (r: CalendarTime)
    ensures
        is_utc_time(r, secs),
{
    let days = (secs / 86_400) as i64;
    let rem = (secs % 86_400) as i64;
    let (year, month, day) = civil_from_days(days);
    CalendarTime {
        year,
        month,
        day,
        hour: rem / 3600,
        minute: (rem % 3600) / 60,
        second: rem % 60,
    }
}

/// Format a host wall-clock millisecond value as `YYYYMMDD-HH:MM:SS.mmmZ`, for
/// hosts that know no time zone.
pub fn utc_ts_string(unix_ms: u64) -> (r: String)
    ensures
        unix_ms == 0 ==> r@ == "--------------------.---"@,
        unix_ms != 0 ==> exists|t: CalendarTime|
            is_utc_time(t, unix_ms / 1000) && r@ == (#[trigger] time_text(
                t,
                (unix_ms % 1000) as int,
            )).push('Z'),
{
    if unix_ms == 0 {
        return "--------------------.---".to_string();
    }
    let t = utc_time(unix_ms / 1000);
    let mut s = format_time(&t, (unix_ms % 1000) as i64);
    s.push('Z');
    s
}

/// `SystemTime::now` of std, as the duration since `UNIX_EPOCH` in whole seconds and
/// nanoseconds; nothing where the clock stands before the epoch. The nanoseconds of
/// a duration are fewer than a second's. What the clock shows is up to the host.
#[verifier::external_body]
pub fn now_since_epoch() -> (r: Option<(u64, u32)>)
    ensures
        r matches Some((_, nanos)) ==> nanos < 1_000_000_000,
{
    std::time::SystemTime::now()
        .duration_since(std::time::UNIX_EPOCH)
        .ok()
        .map(|d| (d.as_secs(), d.subsec_nanos()))
}

/// Milliseconds, cut to 64 bits; 0 for no time.
pub open spec fn millis_of(t: Option<(u64, u32)>) -> u64 {
    match t {
        Some((secs, nanos)) => (secs * 1000 + nanos / 1_000_000) as u64,
        None => 0,
    }
}

/// The milliseconds of a duration since the Unix epoch.
pub fn to_millis(t: Option<(u64, u32)>) -> (r: u64)
    requires
        t matches Some((_, nanos)) ==> nanos < 1_000_000_000,
    ensures
        r == millis_of(t),
{
    match t {
        Some((secs, nanos)) => {
            let ms: u128 = secs as u128 * 1000 + (nanos / 1_000_000) as u128;
            ms as u64
        },
        None => 0,
    }
}

/// Host wall clock in milliseconds since the Unix epoch (UTC). Used as the
/// per-event capture timestamp.
pub fn host_now_ms() -> (r: u64)
    ensures
        exists|t: Option<(u64, u32)>|
            call_ensures(now_since_epoch, (), t) && r == #[trigger] millis_of(t),
{
    let t = now_since_epoch();
    to_millis(t)
}

/// `on9log-<secs>.log`.
pub open spec fn save_name(secs: u64) -> Seq<char> {
    "on9log-"@ + decimal(secs as nat) + ".log"@
}

/// The save path for a start at `secs` since the Unix epoch.
pub fn save_path(secs: u64) -> (r: String)
    ensures
        r@ == save_name(secs),
{
    let mut s = "on9log-".to_string();
    s.append(decimal_string(secs).as_str());
    s.append(".log");
    s
}

/// `on9log-capture-<secs>.sqlite`.
pub open spec fn capture_name(secs: u64) -> Seq<char> {
    "on9log-capture-"@ + decimal(secs as nat) + ".sqlite"@
}

/// The capture path for a start at `secs` since the Unix epoch.
pub fn capture_path(secs: u64) -> (r: String)
    ensures
        r@ == capture_name(secs),
{
    let mut s = "on9log-capture-".to_string();
    s.append(decimal_string(secs).as_str());
    s.append(".sqlite");
    s
}

/// Whole seconds; 0 for no time.
pub open spec fn secs_of(t: Option<(u64, u32)>) -> u64 {
    match t {
        Some((secs, _)) => secs,
        None => 0,
    }
}

/// The whole seconds of a duration since the Unix epoch.
pub fn to_secs(t: Option<(u64, u32)>) -> (r: u64)
    ensures
        r == secs_of(t),
{
    match t {
        Some((secs, _)) => secs,
        None => 0,
    }
}

/// The whole seconds since the Unix epoch that the host wall clock shows.
fn now_secs() -> (r: u64)
    ensures
        exists|t: Option<(u64, u32)>|
            call_ensures(now_since_epoch, (), t) && r == #[trigger] secs_of(t),
{
    to_secs(now_since_epoch())
}

/// Generate a default save path: `on9log-{unix_epoch_seconds}.log`.
pub fn default_save_path() -> (r: String)
    ensures
        exists|t: Option<(u64, u32)>|
            call_ensures(now_since_epoch, (), t) && r@ == #[trigger] save_name(secs_of(t)),
{
    save_path(now_secs())
}

/// Generate a default capture database path:
/// `on9log-capture-{unix_epoch_seconds}.sqlite`.
pub fn default_capture_path() -> (r: String)
    ensures
        exists|t: Option<(u64, u32)>|
            call_ensures(now_since_epoch, (), t) && r@ == #[trigger] capture_name(secs_of(t)),
{
    capture_path(now_secs())
}

// ---- Laws ----

/// Two digits of a number below a hundred.
pub open spec fn two_digits(v: int) -> Seq<char> {
    seq![(0x30 + v / 10) as char, (0x30 + v % 10) as char]
}

proof fn lemma_two_digits(v: int)
    requires
        0 <= v < 100,
    ensures
        zero_padded(v, 2) == two_digits(v),
{
    reveal_with_fuel(digits, 3);
    assert(zero_padded(v, 2) =~= two_digits(v));
}

proof fn lemma_three_digits(v: int)
    requires
        0 <= v < 1000,
    ensures
        zero_padded(v, 3) == seq![(0x30 + v / 100) as char] + two_digits(v % 100),
{
    reveal_with_fuel(digits, 4);
    assert(v >= 100 ==> v / 10 / 10 == v / 100 && v / 10 % 10 == v % 100 / 10 && v % 10 == v % 100
        % 10);
    assert(zero_padded(v, 3) =~= seq![(0x30 + v / 100) as char] + two_digits(v % 100));
}

proof fn lemma_four_digits(v: int)
    requires
        0 <= v < 10000,
    ensures
        zero_padded(v, 4) == two_digits(v / 100) + two_digits(v % 100),
{
    reveal_with_fuel(digits, 5);
    assert(v / 10 / 10 == v / 100);
    assert(v / 10 / 10 / 10 == v / 100 / 10);
    assert(v / 10 % 10 == v % 100 / 10);
    assert(v / 10 / 10 % 10 == v / 100 % 10);
    assert(v % 10 == v % 100 % 10);
    assert(zero_padded(v, 4) =~= two_digits(v / 100) + two_digits(v % 100));
}

/// A time of a year of four digits reads `YYYYMMDD-HH:MM:SS.mmm`, each part with all its
/// digits.
pub proof fn times_read_in_fixed_columns(t: CalendarTime, millis: int)
    requires
        0 <= t.year < 10000,
        0 <= t.month < 100,
        0 <= t.day < 100,
        0 <= t.hour < 100,
        0 <= t.minute < 100,
        0 <= t.second < 100,
        0 <= millis < 1000,
    ensures
        time_text(t, millis) == two_digits(t.year as int / 100) + two_digits(t.year as int % 100)
            + two_digits(t.month as int) + two_digits(t.day as int) + seq!['-'] + two_digits(
            t.hour as int,
        ) + seq![':'] + two_digits(t.minute as int) + seq![':'] + two_digits(t.second as int)
            + seq!['.', (0x30 + millis / 100) as char] + two_digits(millis % 100),
        time_text(t, millis).len() == 21,
{
    lemma_four_digits(t.year as int);
    lemma_two_digits(t.month as int);
    lemma_two_digits(t.day as int);
    lemma_two_digits(t.hour as int);
    lemma_two_digits(t.minute as int);
    lemma_two_digits(t.second as int);
    lemma_three_digits(millis);
    assert(time_text(t, millis) =~= two_digits(t.year as int / 100) + two_digits(
        t.year as int % 100,
    ) + two_digits(t.month as int) + two_digits(t.day as int) + seq!['-'] + two_digits(
        t.hour as int,
    ) + seq![':'] + two_digits(t.minute as int) + seq![':'] + two_digits(t.second as int) + seq![
        '.',
        (0x30 + millis / 100) as char,
    ] + two_digits(millis % 100));
}

/// A host time shows the milliseconds of its second; without a local breakdown it shows
/// its whole seconds, and a time that was not recorded shows none.
pub proof fn host_times_show_their_milliseconds(secs: u64, millis: u64, t: CalendarTime)
    requires
        millis < 1000,
        0 < secs * 1000 + millis <= u64::MAX,
    ensures
        local_ts_text((secs * 1000 + millis) as u64, Some(t)) == time_text(t, millis as int),
        local_ts_text((secs * 1000 + millis) as u64, None) == "@"@ + decimal(secs as nat) + "s"@,
        local_ts_text(0, Some(t)) == "--------------------.---"@,
        local_ts_text(0, None) == "--------------------.---"@,
{
}

/// The milliseconds of a clock reading are its seconds and the whole milliseconds of its
/// nanoseconds.
pub proof fn readings_are_cut_to_milliseconds(secs: u64, millis: u32, nanos: u32)
    requires
        millis < 1000,
        nanos < 1_000_000,
        secs * 1000 + millis <= u64::MAX,
    ensures
        millis_of(Some((secs, (millis * 1_000_000 + nanos) as u32))) == secs * 1000 + millis,
        secs_of(Some((secs, nanos))) == secs,
        millis_of(None) == 0,
        secs_of(None) == 0,
{
    assert((millis * 1_000_000 + nanos) / 1_000_000 == millis);
}

/// A date follows the one before it: the next day of a month has the next number, and the
/// first of a month or of a year follows the last of the one before. The first day of
/// 1970 has number 0.
pub proof fn dates_follow_one_another(y: int, m: int, d: int)
    requires
        is_date(y, m, d),
    ensures
        is_date(y, m, d + 1) ==> day_number(y, m, d + 1) == day_number(y, m, d) + 1,
        m < 12 && !is_date(y, m, d + 1) ==> day_number(y, m + 1, 1) == day_number(y, m, d) + 1,
        m == 12 && d == 31 ==> day_number(y + 1, 1, 1) == day_number(y, m, d) + 1,
        day_number(1970, 1, 1) == 0,
        days_in_month(y, 2) == (if y % 4 == 0 && (y % 100 != 0 || y % 400 == 0) {
            29int
        } else {
            28
        }),
        m == 4 || m == 6 || m == 9 || m == 11 ==> days_in_month(y, m) == 30,
        m != 2 && m != 4 && m != 6 && m != 9 && m != 11 ==> days_in_month(y, m) == 31,
{
    lemma_year_length(y);
}

/// A time shows how much of its day is gone, and its date is the number of the day.
pub proof fn times_are_days_and_what_is_left(t: CalendarTime, secs: u64)
    requires
        is_utc_time(t, secs),
    ensures
        t.second == secs % 60,
        t.minute == secs / 60 % 60,
        t.hour == secs / 3600 % 24,
        day_number(t.year as int, t.month as int, t.day as int) == secs / 86400,
{
    let n = day_number(t.year as int, t.month as int, t.day as int);
    assert(secs == 86400 * n + 3600 * t.hour + 60 * t.minute + t.second);
    assert(secs / 60 == 1440 * n + 60 * t.hour + t.minute);
    assert(secs / 3600 == 24 * n + t.hour);
}

/// The files that are written carry the seconds of their start in their names, so that
/// those of another second have other names.
pub proof fn file_names_show_the_seconds(a: u64, b: u64)
    ensures
        save_name(a) == "on9log-"@ + decimal(a as nat) + ".log"@,
        capture_name(a) == "on9log-capture-"@ + decimal(a as nat) + ".sqlite"@,
        save_name(a) == save_name(b) || capture_name(a) == capture_name(b) ==> a == b,
{
    let x = decimal(a as nat);
    let y = decimal(b as nat);
    let p = "on9log-"@.len() as int;
    let q = "on9log-capture-"@.len() as int;
    assert(save_name(a).subrange(p, p + x.len()) =~= x);
    assert(save_name(b).subrange(p, p + y.len()) =~= y);
    assert(capture_name(a).subrange(q, q + x.len()) =~= x);
    assert(capture_name(b).subrange(q, q + y.len()) =~= y);
    decimal_value_of_decimal(a as nat);
    decimal_value_of_decimal(b as nat);
}

} // verus!
