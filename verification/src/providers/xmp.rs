//! XMP sidecars as a source of dates: where the sidecar of a picture may lie, and
//! the date its fields hold, written as an attribute (`field="value"`) or as an
//! element (`<field>value</field>`).
use vstd::prelude::*;
use chrono::{Datelike, Timelike};
use crate::moment::Moment;
use crate::paths::{file_name, file_name_of, join_path, joined_path, name_stem, parent, parent_of};
use crate::providers::media::{parse_rfc3339, rfc3339_stamp};
use crate::text::{
    ascii_lower, chars_of, extend_str, is_white, slice_chars, spec_ascii_lower, spec_is_white, spec_trim, string_of,
    trim,
};

verus! {

/// The places the XMP sidecar of the file at `p` may lie, in the order they are
/// tried: beside it, named after its whole name and then after its stem, each with
/// `.xmp` and then `.XMP`. A path without a folder or a name has none.
pub open spec fn spec_sidecar(p: Seq<char>) -> Option<Seq<Seq<char>>> {
    match (parent_of(p), file_name_of(p)) {
        (Some(folder), Some(name)) => {
            let stem = name_stem(name);
            Some(seq![
                joined_path(folder, name + ".xmp"@),
                joined_path(folder, name + ".XMP"@),
                joined_path(folder, stem + ".xmp"@),
                joined_path(folder, stem + ".XMP"@),
            ])
        },
        _ => None,
    }
}

fn beside(folder: &String, base: &Vec<char>, suffix: &str) -> (r: String)
    ensures
        r@ == joined_path(folder@, base@ + suffix@),
{
    let mut v = base.clone();
    extend_str(&mut v, suffix);
    let name = string_of(&v);
    join_path(folder.as_str(), name.as_str())
}

/// The places the XMP sidecar of the file at `path` may lie, in the order they are
/// tried; the first that is a file is the sidecar.
pub fn sidecar(path: &str) -> (r: Option<Vec<String>>)
    ensures
        match r {
            Some(v) => spec_sidecar(path@) == Some(v@.map_values(|s: String| s@)),
            None => spec_sidecar(path@) is None,
        },
{
    let folder = match parent(path) {
        Some(f) => f,
        None => return None,
    };
    let name = match file_name(path) {
        Some(n) => n,
        None => return None,
    };
    let name_chars = chars_of(name.as_str());
    let stem = match crate::paths::stem(path) {
        Some(s) => s,
        None => return None,
    };
    let mut r: Vec<String> = Vec::new();
    r.push(beside(&folder, &name_chars, ".xmp"));
    r.push(beside(&folder, &name_chars, ".XMP"));
    r.push(beside(&folder, &stem, ".xmp"));
    r.push(beside(&folder, &stem, ".XMP"));
    assert(r@.map_values(|s: String| s@) =~= spec_sidecar(path@).unwrap());
    Some(r)
}

// ---------------------------------------------------------------------------
// The date a sidecar holds
// ---------------------------------------------------------------------------
/// The fields that may hold the date, the first that gives one winning.
pub const FIELDS: [&'static str; 4] = [
    "exif:DateTimeOriginal",
    "photoshop:DateCreated",
    "xmp:CreateDate",
    "xmp:ModifyDate",
];

/// Whether `field` is written at `p` of `raw`, letters in either case.
pub open spec fn field_at(raw: Seq<char>, p: int, field: Seq<char>) -> bool {
    &&& 0 <= p
    &&& p + field.len() <= raw.len()
    &&& forall|k: int| 0 <= k < field.len() ==> spec_ascii_lower(#[trigger] raw[p + k]) == spec_ascii_lower(field[k])
}

/// The first position from `q` on that is not white space, or the end.
pub open spec fn white_end(raw: Seq<char>, q: int) -> int
    decreases raw.len() - q,
{
    if q < 0 || q >= raw.len() || !spec_is_white(raw[q]) {
        q
    } else {
        white_end(raw, q + 1)
    }
}

/// The first position from `q` on that holds `c`, or the end.
pub open spec fn next_of(raw: Seq<char>, q: int, c: char) -> int
    decreases raw.len() - q,
{
    if q < 0 || q >= raw.len() || raw[q] == c {
        q
    } else {
        next_of(raw, q + 1, c)
    }
}

/// The value of `field` written as an attribute at `p`: the field, `=` with white
/// space either side, and a quoted text of at least one character.
pub open spec fn attribute_at(raw: Seq<char>, p: int, field: Seq<char>) -> Option<Seq<char>> {
    let q1 = white_end(raw, p + field.len());
    let q2 = white_end(raw, q1 + 1);
    let e = next_of(raw, q2 + 1, '"');
    if field_at(raw, p, field) && q1 < raw.len() && raw[q1] == '=' && q2 < raw.len() && raw[q2] == '"'
        && e < raw.len() && e > q2 + 1 {
        Some(raw.subrange(q2 + 1, e))
    } else {
        None
    }
}

/// The value of `field` written as an element at `p`: the opening tag, a text of
/// at least one character without `<`, and the closing tag.
pub open spec fn element_at(raw: Seq<char>, p: int, field: Seq<char>) -> Option<Seq<char>> {
    let n = field.len();
    let s = p + n + 2;
    let e = next_of(raw, s, '<');
    if 0 <= p && s <= raw.len() && raw[p] == '<' && field_at(raw, p + 1, field) && raw[p + 1 + n] == '>'
        && e > s && e + n + 3 <= raw.len() && raw[e + 1] == '/' && field_at(raw, e + 2, field) && raw[e + 2 + n] == '>' {
        Some(raw.subrange(s, e))
    } else {
        None
    }
}

/// The value of `field` written at `p`, in either form.
pub open spec fn value_at(raw: Seq<char>, p: int, field: Seq<char>) -> Option<Seq<char>> {
    match attribute_at(raw, p, field) {
        Some(v) => Some(v),
        None => element_at(raw, p, field),
    }
}

/// The value of `field` written first, from `p` on.
pub open spec fn first_value(raw: Seq<char>, field: Seq<char>, p: int) -> Option<Seq<char>>
    decreases raw.len() + 1 - p,
{
    if p < 0 || p > raw.len() {
        None
    } else {
        match value_at(raw, p, field) {
            Some(v) => Some(v),
            None => first_value(raw, field, p + 1),
        }
    }
}

/// What `NaiveDateTime::parse_from_str` reads of `text` with the strftime pattern
/// `pattern`.
pub uninterp spec fn naive_stamp(text: Seq<char>, pattern: Seq<char>) -> Option<Moment>;

/// What `NaiveDate::parse_from_str` reads of `text` with the strftime pattern
/// `pattern`.
pub uninterp spec fn day_stamp(text: Seq<char>, pattern: Seq<char>) -> Option<Moment>;

/// Calls `chrono::NaiveDateTime::parse_from_str`: the date and time `text` holds in
/// the shape `pattern` gives, if it holds one. Which one is named, not written out.
#[verifier::external_body]
fn parse_naive(text: &str, pattern: &str) -> (r: Option<Moment>)
    ensures
        r == naive_stamp(text@, pattern@),
{
    let t = chrono::NaiveDateTime::parse_from_str(text, pattern).ok()?;
    Some(Moment { year: t.year(), month: t.month(), day: t.day(), hour: t.hour(), minute: t.minute(), second: t.second() })
}

/// Calls `chrono::NaiveDate::parse_from_str` and takes the day at midnight
/// (`and_hms_opt(0, 0, 0)`): the day `text` holds in the shape `pattern` gives, if
/// it holds one. Which day is named, not written out; the time is midnight.
#[verifier::external_body]
fn parse_day(text: &str, pattern: &str) -> (r: Option<Moment>)
    ensures
        r == day_stamp(text@, pattern@),
        r matches Some(m) ==> m.hour == 0 && m.minute == 0 && m.second == 0,
{
    let d = chrono::NaiveDate::parse_from_str(text, pattern).ok()?;
    Some(Moment { year: d.year(), month: d.month(), day: d.day(), hour: 0, minute: 0, second: 0 })
}

/// The shapes a date with a time but no offset is read in, in order.
pub const NAIVE_SHAPES: [&'static str; 3] = ["%Y-%m-%dT%H:%M:%S%.f", "%Y-%m-%dT%H:%M", "%Y-%m-%d %H:%M:%S"];

/// The shape a bare day is read in.
pub const DAY_SHAPE: &'static str = "%Y-%m-%d";

/// The date a field's text holds: RFC 3339 at the wall-clock time it was written
/// against, then a date and time without an offset in each shape in turn, then a
/// bare day at midnight.
pub open spec fn spec_stamped(text: Seq<char>) -> Option<Moment> {
    match rfc3339_stamp(text) {
        Some(x) => Some(x.0),
        None => match naive_stamp(text, NAIVE_SHAPES[0]@) {
            Some(m) => Some(m),
            None => match naive_stamp(text, NAIVE_SHAPES[1]@) {
                Some(m) => Some(m),
                None => match naive_stamp(text, NAIVE_SHAPES[2]@) {
                    Some(m) => Some(m),
                    None => day_stamp(text, DAY_SHAPE@),
                },
            },
        },
    }
}

/// The date a field's text holds.
pub fn stamped(text: &str) -> (r: Option<Moment>)
    ensures
        r == spec_stamped(text@),
{
    match parse_rfc3339(text) {
        Some(x) => return Some(x.0),
        None => {},
    }
    let mut i: usize = 0;
    while i < 3
        invariant
            i <= 3,
            rfc3339_stamp(text@) is None,
            forall|k: int| 0 <= k < i ==> naive_stamp(text@, #[trigger] NAIVE_SHAPES[k]@) is None,
        decreases 3 - i,
    {
        match parse_naive(text, NAIVE_SHAPES[i]) {
            Some(m) => return Some(m),
            None => {},
        }
        i = i + 1;
    }
    assert(naive_stamp(text@, NAIVE_SHAPES[0]@) is None);
    assert(naive_stamp(text@, NAIVE_SHAPES[1]@) is None);
    assert(naive_stamp(text@, NAIVE_SHAPES[2]@) is None);
    parse_day(text, DAY_SHAPE)
}

/// The field and date a sidecar's text gives: the first field, in the order of
/// `FIELDS`, whose first written value, trimmed, holds a date.
pub open spec fn spec_taken_from(raw: Seq<char>, from: int) -> Option<(int, Moment)>
    decreases 4 - from,
{
    if from < 0 || from >= 4 {
        None
    } else {
        match first_value(raw, FIELDS[from]@, 0) {
            Some(v) => match spec_stamped(spec_trim(v)) {
                Some(m) => Some((from, m)),
                None => spec_taken_from(raw, from + 1),
            },
            None => spec_taken_from(raw, from + 1),
        }
    }
}

/// Whether `field` is written at `p`, letters in either case.
fn field_here(raw: &Vec<char>, p: usize, field: &Vec<char>) -> (b: bool)
    ensures
        b == field_at(raw@, p as int, field@),
{
    if p > raw.len() || field.len() > raw.len() - p {
        return false;
    }
    let len = raw.len();
    let mut k: usize = 0;
    while k < field.len()
        invariant
            k <= field@.len(),
            len == raw@.len(),
            p + field@.len() <= raw@.len(),
            forall|j: int| 0 <= j < k ==> spec_ascii_lower(#[trigger] raw@[p + j]) == spec_ascii_lower(field@[j]),
        decreases field@.len() - k,
    {
        if ascii_lower(raw[p + k]) != ascii_lower(field[k]) {
            return false;
        }
        k = k + 1;
    }
    true
}

fn skip_white(raw: &Vec<char>, q: usize) -> (r: usize)
    requires
        q <= raw@.len(),
    ensures
        r == white_end(raw@, q as int),
        q <= r <= raw@.len(),
{
    let mut i = q;
    while i < raw.len() && is_white(raw[i])
        invariant
            q <= i <= raw@.len(),
            white_end(raw@, q as int) == white_end(raw@, i as int),
        decreases raw@.len() - i,
    {
        i = i + 1;
    }
    i
}

fn next_char(raw: &Vec<char>, q: usize, c: char) -> (r: usize)
    requires
        q <= raw@.len(),
    ensures
        r == next_of(raw@, q as int, c),
        q <= r <= raw@.len(),
{
    let mut i = q;
    while i < raw.len() && raw[i] != c
        invariant
            q <= i <= raw@.len(),
            next_of(raw@, q as int, c) == next_of(raw@, i as int, c),
        decreases raw@.len() - i,
    {
        i = i + 1;
    }
    i
}

/// The value of `field` written at `p`, in either form.
fn value_here(raw: &Vec<char>, p: usize, field: &Vec<char>) -> (r: Option<Vec<char>>)
    requires
        p <= raw@.len(),
    ensures
        match value_at(raw@, p as int, field@) {
            Some(v) => r matches Some(x) && x@ == v,
            None => r is None,
        },
{
    let len = raw.len();
    let n = field.len();
    if field_here(raw, p, field) {
        let q1 = skip_white(raw, p + n);
        if q1 < len && raw[q1] == '=' {
            let q2 = skip_white(raw, q1 + 1);
            if q2 < len && raw[q2] == '"' {
                let e = next_char(raw, q2 + 1, '"');
                if e < len && e > q2 + 1 {
                    return Some(slice_chars(raw, q2 + 1, e));
                }
            }
        }
    }
    assert(attribute_at(raw@, p as int, field@) is None);
    if n > len || len - n < 2 || p > len - n - 2 {
        assert(element_at(raw@, p as int, field@) is None);
        return None;
    }
    let s = p + n + 2;
    if raw[p] != '<' || !field_here(raw, p + 1, field) || raw[p + 1 + n] != '>' {
        return None;
    }
    let e = next_char(raw, s, '<');
    if e <= s || e > len - n - 3 || len < n + 3 {
        return None;
    }
    if raw[e + 1] != '/' || !field_here(raw, e + 2, field) || raw[e + 2 + n] != '>' {
        return None;
    }
    Some(slice_chars(raw, s, e))
}

/// The value of `field` written first in `raw`.
fn first_value_of(raw: &Vec<char>, field: &Vec<char>) -> (r: Option<Vec<char>>)
    ensures
        match first_value(raw@, field@, 0) {
            Some(v) => r matches Some(x) && x@ == v,
            None => r is None,
        },
{
    let mut p: usize = 0;
    while p < raw.len()
        invariant
            p <= raw@.len(),
            first_value(raw@, field@, 0) == first_value(raw@, field@, p as int),
        decreases raw@.len() - p,
    {
        match value_here(raw, p, field) {
            Some(v) => return Some(v),
            None => {},
        }
        p = p + 1;
    }
    assert(first_value(raw@, field@, p + 1) is None);
    value_here(raw, p, field)
}

/// The field and date a sidecar's text gives: the first field, in the order of
/// `FIELDS`, whose first written value, trimmed, holds a date.
pub fn taken_from(raw: &str) -> (r: Option<(&'static str, Moment)>)
    ensures
        match spec_taken_from(raw@, 0) {
            Some((k, m)) => r matches Some((f, t)) && f@ == FIELDS[k]@ && t == m,
            None => r is None,
        },
{
    let text = chars_of(raw);
    let mut i: usize = 0;
    while i < 4
        invariant
            i <= 4,
            text@ == raw@,
            spec_taken_from(raw@, 0) == spec_taken_from(raw@, i as int),
        decreases 4 - i,
    {
        let field = chars_of(FIELDS[i]);
        match first_value_of(&text, &field) {
            Some(v) => {
                let t = trim(&v);
                let ts = string_of(&t);
                match stamped(ts.as_str()) {
                    Some(m) => return Some((FIELDS[i], m)),
                    None => {},
                }
            },
            None => {},
        }
        i = i + 1;
    }
    None
}

} // verus!
