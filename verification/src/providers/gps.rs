//! The GPS clock as a source of dates, and the zone offsets cameras write beside it.
use vstd::prelude::*;
use crate::text::{chars_of, find_from, first_index, parse_i64, slice_chars, spec_parse_i64};

verus! {

/// What an offset such as `+02:00` says, in minutes: a sign, then hours and minutes
/// on either side of the first `:`, each as `str::parse::<i64>` reads it; the hours
/// at most 14 and the minutes under 60.
pub open spec fn spec_parse_offset(text: Seq<char>) -> Option<int> {
    if text.len() == 0 || (text[0] != '+' && text[0] != '-') {
        None
    } else {
        let body = text.skip(1);
        match first_index(body, ':') {
            None => None,
            Some(c) => match (spec_parse_i64(body.take(c)), spec_parse_i64(body.skip(c + 1))) {
                (Some(h), Some(m)) => if h <= 14 && m < 60 {
                    Some(if text[0] == '+' { h * 60 + m } else { -(h * 60 + m) })
                } else {
                    None
                },
                _ => None,
            },
        }
    }
}

/// Whether the minutes an offset spells, before and after its sign, lie in the range
/// of `i64`; past it the arithmetic of the original overflows.
pub open spec fn offset_in_range(text: Seq<char>) -> bool {
    match spec_parse_offset(text) {
        Some(v) => i64::MIN < v <= i64::MAX,
        None => true,
    }
}

/// The minutes an offset spells, computed wide enough never to overflow.
fn offset_minutes(text: &str) -> (r: Option<i128>)
    ensures
        match r {
            Some(n) => spec_parse_offset(text@) == Some(n as int),
            None => spec_parse_offset(text@) is None,
        },
{
    let t = chars_of(text);
    if t.len() == 0 || (t[0] != '+' && t[0] != '-') {
        return None;
    }
    let plus = t[0] == '+';
    let body = slice_chars(&t, 1, t.len());
    assert(body@ =~= t@.skip(1));
    assert(body@.skip(0) =~= body@);
    let colon = match find_from(&body, 0, ':') {
        Some(c) => c,
        None => return None,
    };
    let head = slice_chars(&body, 0, colon);
    let tail = slice_chars(&body, colon + 1, body.len());
    assert(head@ =~= body@.take(colon as int));
    assert(tail@ =~= body@.skip(colon + 1));
    let hours = match parse_i64(&head) {
        Some(h) => h,
        None => return None,
    };
    let minutes = match parse_i64(&tail) {
        Some(m) => m,
        None => return None,
    };
    if hours <= 14 && minutes < 60 {
        let h: i128 = hours as i128;
        let m: i128 = minutes as i128;
        let total: i128 = h * 60 + m;
        let signed: i128 = if plus { total } else { -total };
        assert(spec_parse_offset(text@) == Some(signed as int));
        Some(signed)
    } else {
        None
    }
}

/// The zone offset a camera wrote, in minutes east of UTC.
pub fn parse_offset(text: &str) -> (r: Option<i64>)
    requires
        offset_in_range(text@),
    ensures
        match r {
            Some(n) => spec_parse_offset(text@) == Some(n as int),
            None => spec_parse_offset(text@) is None,
        },
{
    match offset_minutes(text) {
        Some(n) => Some(n as i64),
        None => None,
    }
}

/// The zone offset a camera wrote, in minutes east of UTC, for any text: nothing
/// where the text spells no offset, or one whose minutes do not fit an `i64`.
pub fn zone_offset(text: &str) -> (r: Option<i64>)
    ensures
        match spec_parse_offset(text@) {
            Some(v) => if i64::MIN < v <= i64::MAX { r == Some(v as i64) } else { r is None },
            None => r is None,
        },
{
    match offset_minutes(text) {
        Some(n) => {
            let low: i128 = i64::MIN as i128;
            let high: i128 = i64::MAX as i128;
            if low < n && n <= high { Some(n as i64) } else { None }
        },
        None => None,
    }
}

} // verus!
