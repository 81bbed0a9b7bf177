//! Dates written in text: a file name, a receipt, a caption. Six shapes are tried
//! in turn, each read wherever it stands in the text, left to right; the first
//! that names a real date between 1970 and 2100 wins.
//!
//! The shapes, with `Y` a year of the 1900s or 2000s, `M` a month `01`–`12`, `D` a
//! day `01`–`31`, `h` an hour `00`–`23` and `m`, `s` minutes and seconds `00`–`59`:
//!
//! 1. `Y-M-D`, one to six characters that are not digits, `h-m-s`, each `-` any of
//!    `-:._`;
//! 2. `YMD`, one of `-_.`, then `hms`;
//! 3. `YMDhms`;
//! 4. `Y-M-D`, each `-` any of `-:._`;
//! 5. `D-M-Y`, each `-` one of `-.`;
//! 6. `YMD`.
//!
//! Shapes 2 to 6 must stand apart from other digits: at the start of the text or
//! after a character that is not a digit, and at its end or before one. The
//! character before and after is taken with the match, so the next reading of the
//! same shape starts after it.
use vstd::prelude::*;
use crate::moment::{month_length, valid_moment, Moment};
use crate::text::chars_of;

verus! {

/// The earliest year read as a date.
pub const MIN_YEAR: i32 = 1970;
/// The latest year read as a date.
pub const MAX_YEAR: i32 = 2100;

/// Whether a character is a decimal digit. Only the ASCII digits count.
pub open spec fn digit(c: char) -> bool {
    '0' <= c <= '9'
}

/// The value of a digit character.
pub open spec fn value(c: char) -> int {
    c as int - '0' as int
}

/// The number two digits at `p` spell.
pub open spec fn two_at(t: Seq<char>, p: int) -> int {
    value(t[p]) * 10 + value(t[p + 1])
}

/// Whether a year of the 1900s or 2000s is written at `p`.
pub open spec fn year_at(t: Seq<char>, p: int) -> bool {
    &&& 0 <= p && p + 4 <= t.len()
    &&& ((t[p] == '1' && t[p + 1] == '9') || (t[p] == '2' && t[p + 1] == '0'))
    &&& digit(t[p + 2]) && digit(t[p + 3])
}

/// Whether a month `01` to `12` is written at `p`.
pub open spec fn month_at(t: Seq<char>, p: int) -> bool {
    &&& 0 <= p && p + 2 <= t.len()
    &&& ((t[p] == '0' && '1' <= t[p + 1] <= '9') || (t[p] == '1' && '0' <= t[p + 1] <= '2'))
}

/// Whether a day `01` to `31` is written at `p`.
pub open spec fn day_at(t: Seq<char>, p: int) -> bool {
    &&& 0 <= p && p + 2 <= t.len()
    &&& ((t[p] == '0' && '1' <= t[p + 1] <= '9') || ((t[p] == '1' || t[p] == '2') && digit(t[p + 1]))
        || (t[p] == '3' && (t[p + 1] == '0' || t[p + 1] == '1')))
}

/// Whether an hour `00` to `23` is written at `p`.
pub open spec fn hour_at(t: Seq<char>, p: int) -> bool {
    &&& 0 <= p && p + 2 <= t.len()
    &&& (((t[p] == '0' || t[p] == '1') && digit(t[p + 1])) || (t[p] == '2' && '0' <= t[p + 1] <= '3'))
}

/// Whether a minute or second `00` to `59` is written at `p`.
pub open spec fn sixty_at(t: Seq<char>, p: int) -> bool {
    &&& 0 <= p && p + 2 <= t.len()
    &&& '0' <= t[p] <= '5' && digit(t[p + 1])
}

/// Whether a character may part the fields of shapes 1 and 4.
pub open spec fn wide_separator(c: char) -> bool {
    c == '-' || c == ':' || c == '.' || c == '_'
}

/// Whether a character may part the date and time of shape 2.
pub open spec fn joint(c: char) -> bool {
    c == '-' || c == '_' || c == '.'
}

/// Whether a character may part the fields of shape 5.
pub open spec fn dot_or_dash(c: char) -> bool {
    c == '-' || c == '.'
}

/// The year written at `p`.
pub open spec fn year_value(t: Seq<char>, p: int) -> int {
    two_at(t, p) * 100 + two_at(t, p + 2)
}

/// The date and time the fields give.
pub open spec fn fields(y: int, mo: int, d: int, h: int, mi: int, s: int) -> Moment {
    Moment { year: y as i32, month: mo as u32, day: d as u32, hour: h as u32, minute: mi as u32, second: s as u32 }
}

/// How many characters that are not digits follow `p`, counted up to seven.
pub open spec fn gap_from(t: Seq<char>, p: int) -> int {
    gap_counted(t, p, 0)
}

/// How many characters that are not digits follow `p`, `k` of them counted already,
/// up to seven in all.
pub open spec fn gap_counted(t: Seq<char>, p: int, k: int) -> int
    decreases 7 - k,
{
    if k >= 7 || p + k < 0 || p + k >= t.len() || digit(t[p + k]) {
        k
    } else {
        gap_counted(t, p, k + 1)
    }
}

/// Where a standalone shape's date starts when its match starts at `p`: at the
/// start of the text, or after a character that is not a digit.
pub open spec fn left_from(t: Seq<char>, p: int) -> Option<int> {
    if 0 <= p < t.len() && !digit(t[p]) {
        Some(p + 1)
    } else if p == 0 {
        Some(0)
    } else {
        None
    }
}

/// Where a standalone shape's match ends when its date ends at `e`: after a
/// character that is not a digit, or at the end of the text.
pub open spec fn right_from(t: Seq<char>, e: int) -> Option<int> {
    if 0 <= e < t.len() && !digit(t[e]) {
        Some(e + 1)
    } else if e == t.len() {
        Some(e)
    } else {
        None
    }
}

/// The match of shape `shape` that starts at `p`, if there is one: where it ends,
/// and the date and time it names.
pub open spec fn shape_at(t: Seq<char>, p: int, shape: int) -> Option<(int, Moment)> {
    if shape == 1 {
        let g = gap_from(t, p + 10);
        let q = p + 10 + g;
        if year_at(t, p) && p + 10 <= t.len() && wide_separator(t[p + 4]) && month_at(t, p + 5)
            && wide_separator(t[p + 7]) && day_at(t, p + 8) && 1 <= g <= 6 && hour_at(t, q)
            && q + 8 <= t.len() && wide_separator(t[q + 2]) && sixty_at(t, q + 3)
            && wide_separator(t[q + 5]) && sixty_at(t, q + 6) {
            Some((q + 8, fields(year_value(t, p), two_at(t, p + 5), two_at(t, p + 8),
                two_at(t, q), two_at(t, q + 3), two_at(t, q + 6))))
        } else {
            None
        }
    } else {
        match left_from(t, p) {
            None => None,
            Some(q) => {
                let (ok, e, m) = if shape == 2 {
                    (year_at(t, q) && month_at(t, q + 4) && day_at(t, q + 6) && q + 15 <= t.len()
                        && joint(t[q + 8]) && hour_at(t, q + 9) && sixty_at(t, q + 11) && sixty_at(t, q + 13),
                    q + 15,
                    fields(year_value(t, q), two_at(t, q + 4), two_at(t, q + 6),
                        two_at(t, q + 9), two_at(t, q + 11), two_at(t, q + 13)))
                } else if shape == 3 {
                    (year_at(t, q) && month_at(t, q + 4) && day_at(t, q + 6) && hour_at(t, q + 8)
                        && sixty_at(t, q + 10) && sixty_at(t, q + 12),
                    q + 14,
                    fields(year_value(t, q), two_at(t, q + 4), two_at(t, q + 6),
                        two_at(t, q + 8), two_at(t, q + 10), two_at(t, q + 12)))
                } else if shape == 4 {
                    (year_at(t, q) && q + 10 <= t.len() && wide_separator(t[q + 4]) && month_at(t, q + 5)
                        && wide_separator(t[q + 7]) && day_at(t, q + 8),
                    q + 10,
                    fields(year_value(t, q), two_at(t, q + 5), two_at(t, q + 8), 0, 0, 0))
                } else if shape == 5 {
                    (day_at(t, q) && q + 10 <= t.len() && dot_or_dash(t[q + 2]) && month_at(t, q + 3)
                        && dot_or_dash(t[q + 5]) && year_at(t, q + 6),
                    q + 10,
                    fields(year_value(t, q + 6), two_at(t, q + 3), two_at(t, q), 0, 0, 0))
                } else {
                    (year_at(t, q) && month_at(t, q + 4) && day_at(t, q + 6),
                    q + 8,
                    fields(year_value(t, q), two_at(t, q + 4), two_at(t, q + 6), 0, 0, 0))
                };
                if ok {
                    match right_from(t, e) {
                        Some(end) => Some((end, m)),
                        None => None,
                    }
                } else {
                    None
                }
            },
        }
    }
}

/// Whether the date and time of a match is one a date is read as: a year from 1970
/// to 2100 and a day the month has.
pub open spec fn acceptable(m: Moment) -> bool {
    MIN_YEAR <= m.year <= MAX_YEAR && m.day <= month_length(m.year as int, m.month as int)
}

/// The first acceptable date of shape `shape` in `t` at `pos` or later: each match
/// is read in turn, the search going on after a match that names no real date.
pub open spec fn scan_shape(t: Seq<char>, pos: int, shape: int) -> Option<Moment>
    decreases t.len() + 1 - pos,
{
    if pos < 0 || pos > t.len() {
        None
    } else {
        match shape_at(t, pos, shape) {
            Some((end, m)) => if acceptable(m) {
                Some(m)
            } else if end > pos {
                scan_shape(t, end, shape)
            } else {
                None
            },
            None => scan_shape(t, pos + 1, shape),
        }
    }
}

/// The date a text names: the first shape, in order, that reads an acceptable date
/// in it; nothing for an empty text.
pub open spec fn spec_parse_date(t: Seq<char>) -> Option<Moment> {
    if t.len() == 0 {
        None
    } else {
        first_shape(t, 1)
    }
}

/// The first shape from `shape` on that reads an acceptable date in `t`.
pub open spec fn first_shape(t: Seq<char>, shape: int) -> Option<Moment>
    decreases 7 - shape,
{
    if shape > 6 || shape < 1 {
        None
    } else {
        match scan_shape(t, 0, shape) {
            Some(m) => Some(m),
            None => first_shape(t, shape + 1),
        }
    }
}

// ---------------------------------------------------------------------------
// Reading
// ---------------------------------------------------------------------------
fn is_digit(c: char) -> (b: bool)
    ensures
        b == digit(c),
{
    '0' <= c && c <= '9'
}

fn digit_value(c: char) -> (r: u32)
    requires
        digit(c),
    ensures
        r == value(c),
        r <= 9,
{
    (c as u32) - ('0' as u32)
}

fn two(t: &Vec<char>, p: usize) -> (r: u32)
    requires
        p + 2 <= t@.len(),
        digit(t@[p as int]) && digit(t@[p + 1]),
    ensures
        r == two_at(t@, p as int),
        r <= 99,
{
    let n = t.len();
    let high = digit_value(t[p]);
    let low = digit_value(t[p + 1]);
    high * 10 + low
}

fn year_here(t: &Vec<char>, p: usize) -> (b: bool)
    ensures
        b == year_at(t@, p as int),
{
    p <= t.len() && t.len() - p >= 4
        && ((t[p] == '1' && t[p + 1] == '9') || (t[p] == '2' && t[p + 1] == '0'))
        && is_digit(t[p + 2]) && is_digit(t[p + 3])
}

fn month_here(t: &Vec<char>, p: usize) -> (b: bool)
    ensures
        b == month_at(t@, p as int),
{
    p <= t.len() && t.len() - p >= 2
        && ((t[p] == '0' && '1' <= t[p + 1] && t[p + 1] <= '9') || (t[p] == '1' && '0' <= t[p + 1] && t[p + 1] <= '2'))
}

fn day_here(t: &Vec<char>, p: usize) -> (b: bool)
    ensures
        b == day_at(t@, p as int),
{
    p <= t.len() && t.len() - p >= 2
        && ((t[p] == '0' && '1' <= t[p + 1] && t[p + 1] <= '9')
            || ((t[p] == '1' || t[p] == '2') && is_digit(t[p + 1]))
            || (t[p] == '3' && (t[p + 1] == '0' || t[p + 1] == '1')))
}

fn hour_here(t: &Vec<char>, p: usize) -> (b: bool)
    ensures
        b == hour_at(t@, p as int),
{
    p <= t.len() && t.len() - p >= 2
        && (((t[p] == '0' || t[p] == '1') && is_digit(t[p + 1])) || (t[p] == '2' && '0' <= t[p + 1] && t[p + 1] <= '3'))
}

fn sixty_here(t: &Vec<char>, p: usize) -> (b: bool)
    ensures
        b == sixty_at(t@, p as int),
{
    p <= t.len() && t.len() - p >= 2 && '0' <= t[p] && t[p] <= '5' && is_digit(t[p + 1])
}

fn wide_here(t: &Vec<char>, p: usize) -> (b: bool)
    requires
        p < t@.len(),
    ensures
        b == wide_separator(t@[p as int]),
{
    let c = t[p];
    c == '-' || c == ':' || c == '.' || c == '_'
}

fn year_of(t: &Vec<char>, p: usize) -> (r: i32)
    requires
        year_at(t@, p as int),
    ensures
        r == year_value(t@, p as int),
{
    let n = t.len();
    let century = two(t, p);
    let rest = two(t, p + 2);
    (century * 100 + rest) as i32
}

fn gap_here(t: &Vec<char>, p: usize) -> (r: usize)
    requires
        p <= t@.len(),
    ensures
        r == gap_from(t@, p as int),
        r <= 7,
        p + r <= t@.len(),
{
    let mut k: usize = 0;
    while k < 7 && k < t.len() - p && !is_digit(t[p + k])
        invariant
            k <= 7,
            p + k <= t@.len(),
            gap_counted(t@, p as int, 0) == gap_counted(t@, p as int, k as int),
        decreases 7 - k,
    {
        k = k + 1;
    }
    k
}

fn left_here(t: &Vec<char>, p: usize) -> (r: Option<usize>)
    requires
        p <= t@.len(),
    ensures
        match left_from(t@, p as int) {
            Some(q) => r == Some(q as usize),
            None => r is None,
        },
{
    if p < t.len() && !is_digit(t[p]) {
        Some(p + 1)
    } else if p == 0 {
        Some(0)
    } else {
        None
    }
}

fn right_here(t: &Vec<char>, e: usize) -> (r: Option<usize>)
    ensures
        match right_from(t@, e as int) {
            Some(end) => r == Some(end as usize),
            None => r is None,
        },
{
    if e < t.len() && !is_digit(t[e]) {
        Some(e + 1)
    } else if e == t.len() {
        Some(e)
    } else {
        None
    }
}

fn moment(y: i32, mo: u32, d: u32, h: u32, mi: u32, s: u32) -> (m: Moment)
    ensures
        m == fields(y as int, mo as int, d as int, h as int, mi as int, s as int),
{
    Moment { year: y, month: mo, day: d, hour: h, minute: mi, second: s }
}

/// The match of shape `shape` that starts at `p`.
fn shape_here(t: &Vec<char>, p: usize, shape: u8) -> (r: Option<(usize, Moment)>)
    requires
        p <= t@.len(),
        1 <= shape <= 6,
    ensures
        match shape_at(t@, p as int, shape as int) {
            Some((end, m)) => r == Some((end as usize, m)) && p < end <= t@.len(),
            None => r is None,
        },
{
    let n = t.len();
    if shape == 1 {
        if !(year_here(t, p) && n - p >= 10 && wide_here(t, p + 4) && month_here(t, p + 5)
            && wide_here(t, p + 7) && day_here(t, p + 8)) {
            return None;
        }
        let g = gap_here(t, p + 10);
        if !(1 <= g && g <= 6) {
            return None;
        }
        let q = p + 10 + g;
        if !(hour_here(t, q) && n - q >= 8 && wide_here(t, q + 2) && sixty_here(t, q + 3)
            && wide_here(t, q + 5) && sixty_here(t, q + 6)) {
            return None;
        }
        let m = moment(year_of(t, p), two(t, p + 5), two(t, p + 8), two(t, q), two(t, q + 3), two(t, q + 6));
        return Some((q + 8, m));
    }
    let q = match left_here(t, p) {
        Some(q) => q,
        None => return None,
    };
    let found: Option<(usize, Moment)> = if shape == 2 {
        if year_here(t, q) && month_here(t, q + 4) && day_here(t, q + 6) && n - q >= 15
            && (t[q + 8] == '-' || t[q + 8] == '_' || t[q + 8] == '.') && hour_here(t, q + 9)
            && sixty_here(t, q + 11) && sixty_here(t, q + 13) {
            Some((q + 15, moment(year_of(t, q), two(t, q + 4), two(t, q + 6), two(t, q + 9), two(t, q + 11), two(t, q + 13))))
        } else {
            None
        }
    } else if shape == 3 {
        if year_here(t, q) && month_here(t, q + 4) && day_here(t, q + 6) && hour_here(t, q + 8)
            && sixty_here(t, q + 10) && sixty_here(t, q + 12) {
            Some((q + 14, moment(year_of(t, q), two(t, q + 4), two(t, q + 6), two(t, q + 8), two(t, q + 10), two(t, q + 12))))
        } else {
            None
        }
    } else if shape == 4 {
        if year_here(t, q) && n - q >= 10 && wide_here(t, q + 4) && month_here(t, q + 5)
            && wide_here(t, q + 7) && day_here(t, q + 8) {
            Some((q + 10, moment(year_of(t, q), two(t, q + 5), two(t, q + 8), 0, 0, 0)))
        } else {
            None
        }
    } else if shape == 5 {
        if day_here(t, q) && n - q >= 10 && (t[q + 2] == '-' || t[q + 2] == '.') && month_here(t, q + 3)
            && (t[q + 5] == '-' || t[q + 5] == '.') && year_here(t, q + 6) {
            Some((q + 10, moment(year_of(t, q + 6), two(t, q + 3), two(t, q), 0, 0, 0)))
        } else {
            None
        }
    } else {
        if year_here(t, q) && month_here(t, q + 4) && day_here(t, q + 6) {
            Some((q + 8, moment(year_of(t, q), two(t, q + 4), two(t, q + 6), 0, 0, 0)))
        } else {
            None
        }
    };
    match found {
        Some((e, m)) => match right_here(t, e) {
            Some(end) => Some((end, m)),
            None => None,
        },
        None => None,
    }
}

fn leap_year(y: i32) -> (b: bool)
    ensures
        b == crate::moment::leap(y as int),
{
    (y % 4 == 0 && y % 100 != 0) || y % 400 == 0
}

fn is_acceptable(m: &Moment) -> (b: bool)
    ensures
        b == acceptable(*m),
{
    if m.year < MIN_YEAR || m.year > MAX_YEAR {
        return false;
    }
    let length: u32 = if m.month == 2 {
        if leap_year(m.year) { 29 } else { 28 }
    } else if m.month == 4 || m.month == 6 || m.month == 9 || m.month == 11 {
        30
    } else {
        31
    };
    m.day <= length
}

fn scan_here(t: &Vec<char>, shape: u8) -> (r: Option<Moment>)
    requires
        1 <= shape <= 6,
    ensures
        r == scan_shape(t@, 0, shape as int),
{
    let mut pos: usize = 0;
    while pos <= t.len()
        invariant
            pos <= t@.len() + 1,
            1 <= shape <= 6,
            scan_shape(t@, 0, shape as int) == scan_shape(t@, pos as int, shape as int),
        decreases t@.len() + 1 - pos,
    {
        match shape_here(t, pos, shape) {
            Some((end, m)) => {
                if is_acceptable(&m) {
                    return Some(m);
                }
                pos = end;
            },
            None => {
                if pos == t.len() {
                    assert(scan_shape(t@, pos + 1, shape as int) is None);
                    return None;
                }
                pos = pos + 1;
            },
        }
    }
    None
}

/// The date a text names, if any: the first of the six shapes, in order, that reads
/// a real date from 1970 to 2100 in it, at midnight where the shape has no time.
pub fn parse_date(text: &str) -> (r: Option<Moment>)
    ensures
        r == spec_parse_date(text@),
{
    let t = chars_of(text);
    if t.len() == 0 {
        return None;
    }
    let mut shape: u8 = 1;
    while shape <= 6
        invariant
            1 <= shape <= 7,
            t@ == text@,
            t@.len() > 0,
            spec_parse_date(t@) == first_shape(t@, shape as int),
        decreases 7 - shape,
    {
        match scan_here(&t, shape) {
            Some(m) => return Some(m),
            None => {},
        }
        shape = shape + 1;
    }
    None
}

// ---------------------------------------------------------------------------
// What a read date is
// ---------------------------------------------------------------------------
proof fn lemma_fields_in_range(t: Seq<char>, p: int)
    ensures
        month_at(t, p) ==> 1 <= two_at(t, p) <= 12,
        day_at(t, p) ==> 1 <= two_at(t, p) <= 31,
        hour_at(t, p) ==> 0 <= two_at(t, p) <= 23,
        sixty_at(t, p) ==> 0 <= two_at(t, p) <= 59,
{
}

proof fn lemma_shape_fields(t: Seq<char>, p: int, shape: int)
    ensures
        shape_at(t, p, shape) matches Some((_, m)) ==> {
            &&& 1 <= m.month <= 12
            &&& 1 <= m.day
            &&& m.hour < 24
            &&& m.minute < 60
            &&& m.second < 60
        },
{
    let g = gap_from(t, p + 10);
    let q = p + 10 + g;
    lemma_fields_in_range(t, p + 5);
    lemma_fields_in_range(t, p + 8);
    lemma_fields_in_range(t, q);
    lemma_fields_in_range(t, q + 3);
    lemma_fields_in_range(t, q + 6);
    match left_from(t, p) {
        Some(r) => {
            lemma_fields_in_range(t, r);
            lemma_fields_in_range(t, r + 3);
            lemma_fields_in_range(t, r + 4);
            lemma_fields_in_range(t, r + 5);
            lemma_fields_in_range(t, r + 6);
            lemma_fields_in_range(t, r + 8);
            lemma_fields_in_range(t, r + 9);
            lemma_fields_in_range(t, r + 10);
            lemma_fields_in_range(t, r + 11);
            lemma_fields_in_range(t, r + 12);
            lemma_fields_in_range(t, r + 13);
        },
        None => {},
    }
}

proof fn lemma_scan_valid(t: Seq<char>, pos: int, shape: int)
    ensures
        scan_shape(t, pos, shape) matches Some(m) ==> acceptable(m) && valid_moment(m),
    decreases t.len() + 1 - pos,
{
    if 0 <= pos <= t.len() {
        lemma_shape_fields(t, pos, shape);
        match shape_at(t, pos, shape) {
            Some((end, m)) => {
                if !acceptable(m) && end > pos {
                    lemma_scan_valid(t, end, shape);
                }
            },
            None => lemma_scan_valid(t, pos + 1, shape),
        }
    }
}

proof fn lemma_first_shape_valid(t: Seq<char>, shape: int)
    ensures
        first_shape(t, shape) matches Some(m) ==> acceptable(m) && valid_moment(m),
    decreases 7 - shape,
{
    if 1 <= shape <= 6 {
        lemma_scan_valid(t, 0, shape);
        lemma_first_shape_valid(t, shape + 1);
    }
}

/// A date read from a text is a real date and time of a year from 1970 to 2100.
pub proof fn law_a_read_date_is_real(text: Seq<char>)
    ensures
        spec_parse_date(text) matches Some(m) ==> MIN_YEAR <= m.year <= MAX_YEAR && valid_moment(m),
{
    lemma_first_shape_valid(text, 1);
}

} // verus!
