//! A date and time of day without a zone, held as plain numbers, and what the
//! library computes of it: the instant it names, the whole days and hours between
//! two of them, and the text a strftime pattern gives.
use vstd::prelude::*;

verus! {

/// A calendar date and a time of day, as a camera or a file system writes it,
/// without a time zone.
#[derive(Debug, Clone, Copy, PartialEq, Eq, Structural)]
pub struct Moment {
    pub year: i32,
    pub month: u32,
    pub day: u32,
    pub hour: u32,
    pub minute: u32,
    pub second: u32,
}

/// The number of days from 1970-01-01 to the given date of the proleptic Gregorian
/// calendar (negative before it). Months start in March so that the leap day ends
/// the year.
pub open spec fn days_from_civil(year: int, month: int, day: int) -> int {
    let y = if month <= 2 { year - 1 } else { year };
    let era = y / 400;
    let yoe = y % 400;
    let shifted = if month > 2 { month - 3 } else { month + 9 };
    let doy = (153 * shifted + 2) / 5 + day - 1;
    let doe = yoe * 365 + yoe / 4 - yoe / 100 + doy;
    era * 146097 + doe - 719468
}

/// The seconds since midnight of the time of day.
pub open spec fn clock_seconds(m: Moment) -> int {
    m.hour * 3600 + m.minute * 60 + m.second
}

/// The instant a moment names, in seconds from 1970-01-01 00:00:00. Moments are
/// ordered and subtracted by it.
pub open spec fn instant(m: Moment) -> int {
    days_from_civil(m.year as int, m.month as int, m.day as int) * 86400 + clock_seconds(m)
}

/// Whether the moment is a real date and time: a month of the year, a day of that
/// month, and a time within the day.
pub open spec fn valid_moment(m: Moment) -> bool {
    &&& 1 <= m.month <= 12
    &&& 1 <= m.day <= month_length(m.year as int, m.month as int)
    &&& m.hour < 24
    &&& m.minute < 60
    &&& m.second < 60
}

/// Whether a year of the Gregorian calendar has a leap day.
pub open spec fn leap(year: int) -> bool {
    (year % 4 == 0 && year % 100 != 0) || year % 400 == 0
}

/// The number of days in a month.
pub open spec fn month_length(year: int, month: int) -> int {
    if month == 2 {
        if leap(year) { 29 } else { 28 }
    } else if month == 4 || month == 6 || month == 9 || month == 11 {
        30
    } else {
        31
    }
}

/// The whole days from `b` to `a`, rounded toward zero, as `chrono` counts them.
pub open spec fn days_between(a: int, b: int) -> int {
    let d = a - b;
    if d >= 0 { d / 86400 } else { -((-d) / 86400) }
}

/// The whole hours from `b` to `a`, rounded toward zero.
pub open spec fn hours_between(a: int, b: int) -> int {
    let d = a - b;
    if d >= 0 { d / 3600 } else { -((-d) / 3600) }
}

/// Whether `t` lies on the first day of its year, at most `window` seconds after
/// midnight.
pub open spec fn at_year_start(t: Moment, window: int) -> bool {
    t.month == 1 && t.day == 1 && clock_seconds(t) <= window
}

/// The bound on the instant of any moment, so that it is held by an `i64`.
pub open spec fn instant_bound() -> int {
    0x1000_0000_0000_0000
}

pub proof fn lemma_instant_bounded(m: Moment)
    ensures
        -instant_bound() < instant(m) < instant_bound(),
{
    let year = m.year as int;
    let month = m.month as int;
    let day = m.day as int;
    let y = if month <= 2 { year - 1 } else { year };
    let era = y / 400;
    let yoe = y % 400;
    let shifted = if month > 2 { month - 3 } else { month + 9 };
    assert(0 <= shifted < 0x1_0000_0000);
    let doy = (153 * shifted + 2) / 5 + day - 1;
    assert(-1 <= doy < 0x100_0000_0000) by (nonlinear_arith)
        requires
            doy == (153 * shifted + 2) / 5 + day - 1,
            0 <= shifted < 0x1_0000_0000,
            0 <= day < 0x1_0000_0000,
    ;
    assert(0 <= yoe < 400);
    let doe = yoe * 365 + yoe / 4 - yoe / 100 + doy;
    assert(0 <= yoe * 365 <= 146000) by (nonlinear_arith)
        requires
            0 <= yoe < 400,
    ;
    assert(0 <= yoe / 4 <= 100);
    assert(0 <= yoe / 100 <= 4);
    assert(-1 <= doe < 0x100_0001_0000);
    assert(-0x60_0000 <= era <= 0x60_0000) by (nonlinear_arith)
        requires
            era == y / 400,
            -0x8000_0001 <= y < 0x8000_0000,
    ;
    let days = era * 146097 + doe - 719468;
    assert(-0x200_0000_0000 < days < 0x200_0000_0000) by (nonlinear_arith)
        requires
            days == era * 146097 + doe - 719468,
            -0x60_0000 <= era <= 0x60_0000,
            -1 <= doe < 0x100_0001_0000,
    ;
    assert(days == days_from_civil(year, month, day));
    let clock = clock_seconds(m);
    assert(0 <= clock < 0x100_0000_0000_0000) by (nonlinear_arith)
        requires
            clock == m.hour * 3600 + m.minute * 60 + m.second,
            0 <= m.hour < 0x1_0000_0000,
            0 <= m.minute < 0x1_0000_0000,
            0 <= m.second < 0x1_0000_0000,
    ;
    assert(-0x800_0000_0000_0000 < days * 86400 < 0x800_0000_0000_0000) by (nonlinear_arith)
        requires
            -0x200_0000_0000 < days < 0x200_0000_0000,
    ;
}

impl Moment {
    /// The instant this moment names, in seconds from 1970-01-01 00:00:00.
    pub fn seconds(&self) -> (r: i64)
        ensures
            r == instant(*self),
    {
        proof { lemma_instant_bounded(*self); }
        let before_march: bool = self.month <= 2;
        let y: i64 = if before_march { self.year as i64 - 1 } else { self.year as i64 };
        let lifted: u64 = (y + 2_400_000_000) as u64;
        let era: i64 = (lifted / 400) as i64 - 6_000_000;
        let yoe: i64 = (lifted % 400) as i64;
        proof {
            let yi = y as int;
            let q = yi / 400;
            let r = yi % 400;
            assert(yi == 400 * q + r && 0 <= r < 400) by {
                vstd::arithmetic::div_mod::lemma_fundamental_div_mod(yi, 400);
            }
            assert((lifted as int) == 400 * (q + 6_000_000) + r);
            assert((400 * (q + 6_000_000) + r) / 400 == q + 6_000_000) by {
                vstd::arithmetic::div_mod::lemma_div_multiples_vanish_fancy(q + 6_000_000, r, 400);
            }
            assert((400 * 6_000_000 + yi) % 400 == yi % 400) by {
                vstd::arithmetic::div_mod::lemma_mod_multiples_vanish(6_000_000, yi, 400);
            }
            assert((lifted as int) == 400 * 6_000_000 + yi);
        }
        let shifted: i64 = if self.month > 2 { self.month as i64 - 3 } else { self.month as i64 + 9 };
        let doy: i64 = (153 * shifted + 2) / 5 + self.day as i64 - 1;
        let doe: i64 = yoe * 365 + yoe / 4 - yoe / 100 + doy;
        let days: i64 = era * 146097 + doe - 719468;
        let clock: i64 = self.hour as i64 * 3600 + self.minute as i64 * 60 + self.second as i64;
        days * 86400 + clock
    }
}

/// The whole days from `b` to `a`, rounded toward zero.
pub fn days_apart(a: i64, b: i64) -> (r: i64)
    requires
        -instant_bound() < a < instant_bound(),
        -instant_bound() < b < instant_bound(),
    ensures
        r == days_between(a as int, b as int),
{
    let d: i64 = a - b;
    if d >= 0 {
        d / 86400
    } else {
        -((-d) / 86400)
    }
}

/// The whole hours from `b` to `a`, rounded toward zero.
pub fn hours_apart(a: i64, b: i64) -> (r: i64)
    requires
        -instant_bound() < a < instant_bound(),
        -instant_bound() < b < instant_bound(),
    ensures
        r == hours_between(a as int, b as int),
{
    let d: i64 = a - b;
    if d >= 0 {
        d / 3600
    } else {
        -((-d) / 3600)
    }
}

/// Whether `t` lies on the first of January, at most `window` seconds after
/// midnight.
pub fn starts_year(t: &Moment, window: i64) -> (b: bool)
    ensures
        b == at_year_start(*t, window as int),
{
    if t.month == 1 && t.day == 1 {
        let clock: u64 = t.hour as u64 * 3600 + t.minute as u64 * 60 + t.second as u64;
        if window < 0 {
            false
        } else {
            clock <= window as u64
        }
    } else {
        false
    }
}

// ---------------------------------------------------------------------------
// Text by a strftime pattern
// ---------------------------------------------------------------------------
/// Whether `chrono` reads `pattern` as strftime items without an error item.
pub uninterp spec fn strftime_readable(pattern: Seq<char>) -> bool;

/// The text `chrono` writes for a valid moment under a readable strftime pattern;
/// `None` where the moment is no real date and time, where the pattern cannot be
/// read, or where one of its items cannot be written for a date and time without a
/// zone.
pub uninterp spec fn strftime_text(
    year: i32,
    month: u32,
    day: u32,
    hour: u32,
    minute: u32,
    second: u32,
    pattern: Seq<char>,
) -> Option<Seq<char>>;

/// `chrono::format::StrftimeItems::parse`: whether the pattern gives strftime items
/// with no error item among them.
#[verifier::external_body]
pub(crate) fn readable_pattern(pattern: &str) -> (b: bool)
    ensures
        b == strftime_readable(pattern@),
{
    chrono::format::StrftimeItems::new(pattern).parse().is_ok()
}

/// `NaiveDateTime::format_with_items`, written into a `String`: the moment made a
/// `chrono` date and time (`None` if it is none), the pattern read as items (`None`
/// if it cannot be), and the text written (`None` if writing fails). The contract
/// names the result and states, as `chrono` documents, that an unreadable pattern
/// gives nothing.
#[verifier::external_body]
pub(crate) fn strftime(t: &Moment, pattern: &str) -> (r: Option<String>)
    ensures
        r matches Some(s) ==> strftime_text(t.year, t.month, t.day, t.hour, t.minute, t.second, pattern@) == Some(s@),
        r is None ==> strftime_text(t.year, t.month, t.day, t.hour, t.minute, t.second, pattern@) is None,
        !strftime_readable(pattern@) ==> r is None,
{
    let date = chrono::NaiveDate::from_ymd_opt(t.year, t.month, t.day)?;
    let at = date.and_hms_opt(t.hour, t.minute, t.second)?;
    let items = chrono::format::StrftimeItems::new(pattern).parse().ok()?;
    let mut out = String::new();
    at.format_with_items(items.as_slice().iter()).write_to(&mut out).ok()?;
    Some(out)
}

} // verus!
