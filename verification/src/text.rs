//! Character-level building blocks that the rest of the library shares:
//! turning strings into characters and back, trimming, ASCII case folding,
//! decimal numbers, and the few Unicode properties that the naming rules read.
use vstd::prelude::*;

verus! {

// ---------------------------------------------------------------------------
// Unicode properties
// ---------------------------------------------------------------------------
/// The `White_Space` property of Unicode, which `char::is_whitespace` reads.
pub open spec fn spec_is_white(c: char) -> bool {
    ||| '\u{9}' <= c <= '\u{d}'
    ||| c == ' '
    ||| c == '\u{85}'
    ||| c == '\u{a0}'
    ||| c == '\u{1680}'
    ||| '\u{2000}' <= c <= '\u{200a}'
    ||| c == '\u{2028}'
    ||| c == '\u{2029}'
    ||| c == '\u{202f}'
    ||| c == '\u{205f}'
    ||| c == '\u{3000}'
}

/// Whether `c` is white space in the Unicode sense.
pub fn is_white(c: char) -> (b: bool)
    ensures
        b == spec_is_white(c),
{
    ('\u{9}' <= c && c <= '\u{d}') || c == ' ' || c == '\u{85}' || c == '\u{a0}' || c
        == '\u{1680}' || ('\u{2000}' <= c && c <= '\u{200a}') || c == '\u{2028}' || c
        == '\u{2029}' || c == '\u{202f}' || c == '\u{205f}' || c == '\u{3000}'
}

/// The general category `Cc` (control codes), which `char::is_control` reads.
pub open spec fn spec_is_control(c: char) -> bool {
    c <= '\u{1f}' || ('\u{7f}' <= c && c <= '\u{9f}')
}

/// Whether `c` is a control code.
pub fn is_control(c: char) -> (b: bool)
    ensures
        b == spec_is_control(c),
{
    c <= '\u{1f}' || ('\u{7f}' <= c && c <= '\u{9f}')
}

/// An ASCII letter or digit.
pub open spec fn spec_is_ascii_alphanumeric(c: char) -> bool {
    ||| 'a' <= c <= 'z'
    ||| 'A' <= c <= 'Z'
    ||| '0' <= c <= '9'
}

/// What `char::is_alphanumeric` answers for `c` (Unicode `Alphabetic` or `Numeric`).
pub uninterp spec fn unicode_alphanumeric(c: char) -> bool;

/// Calls `char::is_alphanumeric`. Of its answer this states that it is
/// `unicode_alphanumeric(c)`, and that on ASCII it agrees with the ASCII letters
/// and digits, as the Unicode property tables that the documentation names show.
#[verifier::external_body]
pub fn is_alphanumeric(c: char) -> (b: bool)
    ensures
        b == unicode_alphanumeric(c),
        (c as u32) < 128 ==> (b <==> spec_is_ascii_alphanumeric(c)),
{
    c.is_alphanumeric()
}

/// What `str::to_lowercase` gives back for a string with the characters `s`.
pub uninterp spec fn unicode_lowercase(s: Seq<char>) -> Seq<char>;

/// Calls `str::to_lowercase`. Its result is named `unicode_lowercase`; the full
/// Unicode case tables (and the final-sigma rule) that decide it are not written out.
#[verifier::external_body]
pub fn to_lowercase(s: &str) -> (r: String)
    ensures
        r@ == unicode_lowercase(s@),
{
    s.to_lowercase()
}

/// The lower-case form of an ASCII letter; every other character is kept.
pub open spec fn spec_ascii_lower(c: char) -> char {
    if 'A' <= c <= 'Z' {
        ((c as u32) + 32) as char
    } else {
        c
    }
}

/// `char::to_ascii_lowercase`.
pub fn ascii_lower(c: char) -> (r: char)
    ensures
        r == spec_ascii_lower(c),
{
    if 'A' <= c && c <= 'Z' {
        let code: u32 = (c as u32) + 32;
        assert(0x61 <= code <= 0x7a);
        char_from_ascii(code)
    } else {
        c
    }
}

/// The character with an ASCII code point.
pub(crate) fn char_from_ascii(code: u32) -> (c: char)
    requires
        code < 128,
    ensures
        c == code as char,
{
    let b: u8 = code as u8;
    b as char
}

/// Every character of `s` folded to ASCII lower case.
pub open spec fn spec_ascii_lowercase(s: Seq<char>) -> Seq<char> {
    Seq::new(s.len(), |i: int| spec_ascii_lower(s[i]))
}

/// `str::to_ascii_lowercase`, on characters.
pub fn ascii_lowercase(s: &Vec<char>) -> (r: Vec<char>)
    ensures
        r@ == spec_ascii_lowercase(s@),
{
    let mut r: Vec<char> = Vec::new();
    let mut i: usize = 0;
    while i < s.len()
        invariant
            i <= s.len(),
            r@ == spec_ascii_lowercase(s@.take(i as int)),
        decreases s.len() - i,
    {
        r.push(ascii_lower(s[i]));
        i = i + 1;
        assert(r@ =~= spec_ascii_lowercase(s@.take(i as int)));
    }
    assert(s@.take(i as int) =~= s@);
    r
}

// ---------------------------------------------------------------------------
// Between strings and characters
// ---------------------------------------------------------------------------
/// The characters of a string slice, in order.
pub fn chars_of(s: &str) -> (out: Vec<char>)
    ensures
        out@ == s@,
{
    let mut out: Vec<char> = Vec::new();
    for c in it: s.chars()
        invariant
            out@ == it.seq().take(it.index() as int),
            it.seq() == s@,
    {
        out.push(c);
    }
    out
}

/// Calls `String::push`, which appends one character.
#[verifier::external_body]
pub fn push_char(s: &mut String, c: char)
    ensures
        final(s)@ == old(s)@.push(c),
{
    s.push(c);
}

/// A `String` holding the characters `v`.
pub fn string_of(v: &Vec<char>) -> (s: String)
    ensures
        s@ == v@,
{
    let mut s = String::new();
    let mut i: usize = 0;
    while i < v.len()
        invariant
            i <= v.len(),
            s@ == v@.take(i as int),
        decreases v.len() - i,
    {
        push_char(&mut s, v[i]);
        i = i + 1;
        assert(s@ =~= v@.take(i as int));
    }
    assert(v@.take(i as int) =~= v@);
    s
}

/// Characters of a string literal or any other `&str`, as an owned `String`.
pub fn owned(s: &str) -> (r: String)
    ensures
        r@ == s@,
{
    let v = chars_of(s);
    string_of(&v)
}

/// Appends the characters `tail` to `v`.
pub fn extend(v: &mut Vec<char>, tail: &Vec<char>)
    ensures
        final(v)@ == old(v)@ + tail@,
{
    let mut i: usize = 0;
    while i < tail.len()
        invariant
            i <= tail.len(),
            v@ == old(v)@ + tail@.take(i as int),
        decreases tail.len() - i,
    {
        v.push(tail[i]);
        i = i + 1;
        assert(v@ =~= old(v)@ + tail@.take(i as int));
    }
    assert(tail@.take(i as int) =~= tail@);
}

/// Appends the characters of `tail` to `v`.
pub fn extend_str(v: &mut Vec<char>, tail: &str)
    ensures
        final(v)@ == old(v)@ + tail@,
{
    let t = chars_of(tail);
    extend(v, &t);
}

// ---------------------------------------------------------------------------
// Searching and comparing
// ---------------------------------------------------------------------------
/// The position of the first `c` in `s`.
pub open spec fn first_index(s: Seq<char>, c: char) -> Option<int>
    decreases s.len(),
{
    if s.len() == 0 {
        None
    } else if s[0] == c {
        Some(0)
    } else {
        match first_index(s.drop_first(), c) {
            Some(i) => Some(i + 1),
            None => None,
        }
    }
}

/// The position of the last `c` in `s`.
pub open spec fn last_index(s: Seq<char>, c: char) -> Option<int>
    decreases s.len(),
{
    if s.len() == 0 {
        None
    } else if s.last() == c {
        Some(s.len() - 1)
    } else {
        last_index(s.drop_last(), c)
    }
}

pub proof fn lemma_first_index(s: Seq<char>, c: char)
    ensures
        match first_index(s, c) {
            Some(i) => 0 <= i < s.len() && s[i] == c && forall|j: int| 0 <= j < i ==> s[j] != c,
            None => forall|j: int| 0 <= j < s.len() ==> s[j] != c,
        },
    decreases s.len(),
{
    if s.len() > 0 && s[0] != c {
        lemma_first_index(s.drop_first(), c);
        assert forall|j: int| 1 <= j < s.len() implies s[j] == s.drop_first()[j - 1] by {}
    }
}

pub proof fn lemma_last_index(s: Seq<char>, c: char)
    ensures
        match last_index(s, c) {
            Some(i) => 0 <= i < s.len() && s[i] == c && forall|j: int| i < j < s.len() ==> s[j]
                != c,
            None => forall|j: int| 0 <= j < s.len() ==> s[j] != c,
        },
    decreases s.len(),
{
    if s.len() > 0 && s.last() != c {
        lemma_last_index(s.drop_last(), c);
        assert forall|j: int| 0 <= j < s.len() - 1 implies s[j] == s.drop_last()[j] by {}
    }
}

/// The first position at or after `from` where `v` holds `c`.
pub fn find_from(v: &Vec<char>, from: usize, c: char) -> (r: Option<usize>)
    requires
        from <= v.len(),
    ensures
        match r {
            Some(i) => from <= i < v.len() && first_index(v@.skip(from as int), c) == Some(i - from),
            None => first_index(v@.skip(from as int), c) is None,
        },
{
    let mut i = from;
    while i < v.len()
        invariant
            from <= i <= v.len(),
            forall|j: int| from <= j < i ==> v@[j] != c,
        decreases v.len() - i,
    {
        if v[i] == c {
            proof {
                let t = v@.skip(from as int);
                lemma_first_index(t, c);
                match first_index(t, c) {
                    Some(k) => {
                        assert(t[i - from] == c);
                        assert(k == i - from) by {
                            if k < i - from {
                                assert(v@[from + k] != c);
                            }
                        }
                    },
                    None => {
                        assert(t[i - from] == c);
                    },
                }
            }
            return Some(i);
        }
        i = i + 1;
    }
    proof {
        let t = v@.skip(from as int);
        lemma_first_index(t, c);
        match first_index(t, c) {
            Some(k) => {
                assert(v@[from + k] == t[k]);
            },
            None => {},
        }
    }
    None
}

/// The first position in `v@[from..to]` where `v` holds `c`.
pub fn find_between(v: &Vec<char>, from: usize, to: usize, c: char) -> (r: Option<usize>)
    requires
        from <= to <= v.len(),
    ensures
        match r {
            Some(i) => from <= i < to && first_index(v@.subrange(from as int, to as int), c) == Some(i - from),
            None => first_index(v@.subrange(from as int, to as int), c) is None,
        },
{
    let ghost t = v@.subrange(from as int, to as int);
    proof { lemma_first_index(t, c); }
    let mut i = from;
    while i < to
        invariant
            from <= i <= to <= v.len(),
            t == v@.subrange(from as int, to as int),
            forall|j: int| from <= j < i ==> v@[j] != c,
        decreases to - i,
    {
        if v[i] == c {
            proof {
                lemma_first_index(t, c);
                assert(t[i - from] == c);
                match first_index(t, c) {
                    Some(k) => {
                        if k < i - from {
                            assert(t[k] == v@[from + k]);
                        }
                        if k > i - from {
                            assert(t[i - from] == c);
                        }
                    },
                    None => {},
                }
            }
            return Some(i);
        }
        i = i + 1;
    }
    proof {
        lemma_first_index(t, c);
        match first_index(t, c) {
            Some(k) => {
                assert(t[k] == v@[from + k]);
            },
            None => {},
        }
    }
    None
}

/// The last position where `v` holds `c`.
pub fn rfind(v: &Vec<char>, c: char) -> (r: Option<usize>)
    ensures
        match r {
            Some(i) => last_index(v@, c) == Some(i as int),
            None => last_index(v@, c) is None,
        },
{
    let mut i = v.len();
    assert(v@.take(i as int) =~= v@);
    while i > 0
        invariant
            i <= v.len(),
            last_index(v@, c) == last_index(v@.take(i as int), c),
        decreases i,
    {
        if v[i - 1] == c {
            return Some(i - 1);
        }
        assert(v@.take(i as int).drop_last() =~= v@.take(i - 1));
        i = i - 1;
    }
    None
}

/// Whether `v` holds `c` anywhere.
pub fn contains_char(v: &Vec<char>, c: char) -> (b: bool)
    ensures
        b == v@.contains(c),
{
    let mut i: usize = 0;
    while i < v.len()
        invariant
            i <= v.len(),
            forall|j: int| 0 <= j < i ==> v@[j] != c,
        decreases v.len() - i,
    {
        if v[i] == c {
            assert(v@[i as int] == c);
            return true;
        }
        i = i + 1;
    }
    false
}

/// Whether the characters `a` and the characters `b` are the same.
pub fn same_chars(a: &Vec<char>, b: &Vec<char>) -> (r: bool)
    ensures
        r == (a@ == b@),
{
    if a.len() != b.len() {
        return false;
    }
    let mut i: usize = 0;
    while i < a.len()
        invariant
            i <= a.len(),
            a.len() == b.len(),
            forall|j: int| 0 <= j < i ==> a@[j] == b@[j],
        decreases a.len() - i,
    {
        if a[i] != b[i] {
            return false;
        }
        i = i + 1;
    }
    assert(a@ =~= b@);
    true
}

/// Whether `s` holds the characters of `needle` somewhere in a row.
pub open spec fn holds(s: Seq<char>, needle: Seq<char>) -> bool {
    exists|i: int| 0 <= i <= s.len() - needle.len() && #[trigger] s.subrange(i, i + needle.len()) == needle
}

/// Whether `s` holds the characters of `needle` starting at `at`.
pub fn matches_at(s: &Vec<char>, at: usize, needle: &Vec<char>) -> (b: bool)
    ensures
        b == (at + needle.len() <= s.len() && s@.subrange(at as int, at + needle.len()) == needle@),
{
    if at > s.len() || s.len() - at < needle.len() {
        return false;
    }
    let mut i: usize = 0;
    while i < needle.len()
        invariant
            i <= needle.len(),
            at + needle.len() <= s.len(),
            forall|j: int| 0 <= j < i ==> s@[at + j] == needle@[j],
        decreases needle.len() - i,
    {
        if s[at + i] != needle[i] {
            assert(s@.subrange(at as int, at + needle.len())[i as int] != needle@[i as int]);
            return false;
        }
        i = i + 1;
    }
    assert(s@.subrange(at as int, at + needle.len()) =~= needle@);
    true
}

/// Whether `s` holds the characters of `needle` somewhere in a row.
pub fn contains_seq(s: &Vec<char>, needle: &Vec<char>) -> (b: bool)
    ensures
        b == holds(s@, needle@),
{
    if needle.len() > s.len() {
        return false;
    }
    let mut at: usize = 0;
    while at <= s.len() - needle.len()
        invariant
            needle.len() <= s.len(),
            at <= s.len() - needle.len() + 1,
            forall|i: int| 0 <= i < at ==> #[trigger] s@.subrange(i, i + needle.len()) != needle@,
        decreases s.len() - needle.len() + 1 - at,
    {
        if matches_at(s, at, needle) {
            return true;
        }
        if at == s.len() - needle.len() {
            return false;
        }
        at = at + 1;
    }
    false
}

/// Whether `s` ends with the characters `tail`.
pub open spec fn ends_with(s: Seq<char>, tail: Seq<char>) -> bool {
    tail.len() <= s.len() && s.subrange(s.len() - tail.len(), s.len() as int) == tail
}

/// Whether `s` starts with the characters `head`.
pub open spec fn starts_with(s: Seq<char>, head: Seq<char>) -> bool {
    head.len() <= s.len() && s.subrange(0, head.len() as int) == head
}

pub fn ends_with_chars(s: &Vec<char>, tail: &Vec<char>) -> (b: bool)
    ensures
        b == ends_with(s@, tail@),
{
    if tail.len() > s.len() {
        return false;
    }
    matches_at(s, s.len() - tail.len(), tail)
}

pub fn starts_with_chars(s: &Vec<char>, head: &Vec<char>) -> (b: bool)
    ensures
        b == starts_with(s@, head@),
{
    matches_at(s, 0, head)
}

// ---------------------------------------------------------------------------
// Trimming
// ---------------------------------------------------------------------------
/// `s` without the characters that satisfy `p` at its end.
pub open spec fn trim_end_by(s: Seq<char>, p: spec_fn(char) -> bool) -> Seq<char>
    decreases s.len(),
{
    if s.len() > 0 && p(s.last()) {
        trim_end_by(s.drop_last(), p)
    } else {
        s
    }
}

/// `s` without the characters that satisfy `p` at its start.
pub open spec fn trim_start_by(s: Seq<char>, p: spec_fn(char) -> bool) -> Seq<char>
    decreases s.len(),
{
    if s.len() > 0 && p(s[0]) {
        trim_start_by(s.drop_first(), p)
    } else {
        s
    }
}

/// `s` without the characters that satisfy `p` at either end.
pub open spec fn trim_by(s: Seq<char>, p: spec_fn(char) -> bool) -> Seq<char> {
    trim_start_by(trim_end_by(s, p), p)
}

/// `str::trim`: `s` without white space at either end.
pub open spec fn spec_trim(s: Seq<char>) -> Seq<char> {
    trim_by(s, |c: char| spec_is_white(c))
}

pub proof fn lemma_trim_end_by(s: Seq<char>, p: spec_fn(char) -> bool)
    ensures
        trim_end_by(s, p) == s.take(trim_end_by(s, p).len() as int),
        trim_end_by(s, p).len() <= s.len(),
        trim_end_by(s, p).len() > 0 ==> !p(trim_end_by(s, p).last()),
        forall|j: int| trim_end_by(s, p).len() <= j < s.len() ==> p(#[trigger] s[j]),
    decreases s.len(),
{
    if s.len() > 0 && p(s.last()) {
        lemma_trim_end_by(s.drop_last(), p);
        let t = trim_end_by(s.drop_last(), p);
        assert(s.drop_last().take(t.len() as int) =~= s.take(t.len() as int));
        assert forall|j: int| t.len() <= j < s.len() implies p(#[trigger] s[j]) by {
            if j < s.len() - 1 {
                assert(s[j] == s.drop_last()[j]);
            }
        }
    } else {
        assert(s.take(s.len() as int) =~= s);
    }
}

pub proof fn lemma_trim_start_by(s: Seq<char>, p: spec_fn(char) -> bool)
    ensures
        trim_start_by(s, p) == s.skip(s.len() - trim_start_by(s, p).len()),
        trim_start_by(s, p).len() <= s.len(),
        trim_start_by(s, p).len() > 0 ==> !p(trim_start_by(s, p)[0]),
        forall|j: int| 0 <= j < s.len() - trim_start_by(s, p).len() ==> p(#[trigger] s[j]),
    decreases s.len(),
{
    if s.len() > 0 && p(s[0]) {
        lemma_trim_start_by(s.drop_first(), p);
        let t = trim_start_by(s.drop_first(), p);
        assert(s.drop_first().skip(s.drop_first().len() - t.len()) =~= s.skip(s.len() - t.len()));
        assert forall|j: int| 1 <= j < s.len() - t.len() implies p(#[trigger] s[j]) by {
            assert(s[j] == s.drop_first()[j - 1]);
        }
    } else {
        assert(s.skip(0) =~= s);
    }
}

/// White space when `white`, otherwise `-` and `.`: the two sets of characters that
/// the naming rules trim.
pub open spec fn trim_pred(white: bool) -> spec_fn(char) -> bool {
    if white {
        |c: char| spec_is_white(c)
    } else {
        |c: char| c == '-' || c == '.'
    }
}

/// Whether `c` is one of the characters that `trim_pred(white)` trims.
pub fn hits(c: char, white: bool) -> (b: bool)
    ensures
        b == trim_pred(white)(c),
{
    if white {
        is_white(c)
    } else {
        c == '-' || c == '.'
    }
}

/// The bounds `(start, end)` of `v@[from..to]` once the characters satisfying `p` are
/// trimmed off both ends.
pub fn trim_bounds(v: &Vec<char>, from: usize, to: usize, white: bool) -> (r: (usize, usize))
    requires
        from <= to <= v.len(),
    ensures
        from <= r.0 <= r.1 <= to,
        v@.subrange(r.0 as int, r.1 as int) == trim_by(v@.subrange(from as int, to as int), trim_pred(white)),
{
    let ghost p = trim_pred(white);
    let ghost s = v@.subrange(from as int, to as int);
    let mut end = to;
    while end > from && hits(v[end - 1], white)
        invariant
            from <= end <= to <= v.len(),
            p == trim_pred(white),
            trim_end_by(s, p) == trim_end_by(v@.subrange(from as int, end as int), p),
        decreases end - from,
    {
        assert(v@.subrange(from as int, end as int).drop_last() =~= v@.subrange(from as int, end - 1));
        end = end - 1;
    }
    let ghost e = v@.subrange(from as int, end as int);
    assert(trim_end_by(s, p) == e) by {
        if end > from {
            assert(e.last() == v@[end - 1]);
        }
    }
    let mut start = from;
    while start < end && hits(v[start], white)
        invariant
            from <= start <= end <= to <= v.len(),
            p == trim_pred(white),
            e == v@.subrange(from as int, end as int),
            trim_start_by(e, p) == trim_start_by(v@.subrange(start as int, end as int), p),
        decreases end - start,
    {
        assert(v@.subrange(start as int, end as int).drop_first() =~= v@.subrange(start + 1, end as int));
        start = start + 1;
    }
    assert(trim_start_by(e, p) == v@.subrange(start as int, end as int)) by {
        if start < end {
            assert(v@.subrange(start as int, end as int)[0] == v@[start as int]);
        }
    }
    (start, end)
}

/// The characters `v@[from..to]`.
pub fn slice_chars(v: &Vec<char>, from: usize, to: usize) -> (r: Vec<char>)
    requires
        from <= to <= v.len(),
    ensures
        r@ == v@.subrange(from as int, to as int),
{
    let mut r: Vec<char> = Vec::new();
    let mut i = from;
    while i < to
        invariant
            from <= i <= to <= v.len(),
            r@ == v@.subrange(from as int, i as int),
        decreases to - i,
    {
        r.push(v[i]);
        i = i + 1;
        assert(r@ =~= v@.subrange(from as int, i as int));
    }
    r
}

/// `str::trim`, on characters.
pub fn trim(v: &Vec<char>) -> (r: Vec<char>)
    ensures
        r@ == spec_trim(v@),
{
    let (a, b) = trim_bounds(v, 0, v.len(), true);
    assert(v@.subrange(0, v.len() as int) =~= v@);
    slice_chars(v, a, b)
}

/// Whether `s` holds nothing but white space (an empty `s` included).
pub open spec fn is_blank(s: Seq<char>) -> bool {
    forall|i: int| 0 <= i < s.len() ==> spec_is_white(#[trigger] s[i])
}

pub proof fn lemma_trim_empty_iff_blank(s: Seq<char>)
    ensures
        (spec_trim(s).len() == 0) == is_blank(s),
{
    let p = |c: char| spec_is_white(c);
    lemma_trim_end_by(s, p);
    let e = trim_end_by(s, p);
    lemma_trim_start_by(e, p);
    if e.len() > 0 {
        assert(!p(e.last()));
        assert(e.last() == s[e.len() - 1]);
        if trim_start_by(e, p).len() == 0 {
            assert(p(e[e.len() - 1]));
        }
    }
    if spec_trim(s).len() == 0 {
        assert forall|i: int| 0 <= i < s.len() implies spec_is_white(#[trigger] s[i]) by {
            if i < e.len() {
                assert(p(e[i]));
                assert(e[i] == s[i]);
            } else {
                assert(p(s[i]));
            }
        }
    }
}

/// Whether `v` holds nothing but white space.
pub fn blank(v: &Vec<char>) -> (b: bool)
    ensures
        b == is_blank(v@),
{
    let mut i: usize = 0;
    while i < v.len()
        invariant
            i <= v.len(),
            forall|j: int| 0 <= j < i ==> spec_is_white(#[trigger] v@[j]),
        decreases v.len() - i,
    {
        if !is_white(v[i]) {
            return false;
        }
        i = i + 1;
    }
    true
}

// ---------------------------------------------------------------------------
// Decimal numbers
// ---------------------------------------------------------------------------
/// The ASCII digit for `d`.
pub open spec fn digit_char(d: nat) -> char {
    (('0' as u32) + d) as char
}

/// The decimal digits of `n`, without leading zeros (`0` is written `0`).
pub open spec fn decimal(n: nat) -> Seq<char>
    decreases n,
{
    if n < 10 {
        seq![digit_char(n)]
    } else {
        decimal(n / 10).push(digit_char(n % 10))
    }
}

/// The decimal digits of `n`, as `format!("{n}")` writes them.
pub fn decimal_of(n: u64) -> (r: Vec<char>)
    ensures
        r@ == decimal(n as nat),
    decreases n,
{
    let d: u32 = (n % 10) as u32;
    let c = char_from_ascii(48 + d);
    if n < 10 {
        let mut r: Vec<char> = Vec::new();
        r.push(c);
        assert(r@ =~= decimal(n as nat));
        r
    } else {
        let mut r = decimal_of(n / 10);
        r.push(c);
        r
    }
}

/// Whether `c` is an ASCII digit.
pub open spec fn spec_is_digit(c: char) -> bool {
    '0' <= c <= '9'
}

/// The number that the ASCII digits `s` spell.
pub open spec fn digits_value(s: Seq<char>) -> nat
    decreases s.len(),
{
    if s.len() == 0 {
        0
    } else {
        digits_value(s.drop_last()) * 10 + ((s.last() as u32) - ('0' as u32)) as nat
    }
}

/// `str::parse::<u64>` on a run of ASCII digits: the number, or `None` when it does
/// not fit in a `u64`.
pub fn parse_digits(s: &Vec<char>) -> (r: Option<u64>)
    requires
        s.len() > 0,
        forall|i: int| 0 <= i < s.len() ==> spec_is_digit(#[trigger] s@[i]),
    ensures
        match r {
            Some(n) => n == digits_value(s@),
            None => digits_value(s@) > u64::MAX,
        },
{
    let mut value: u64 = 0;
    let mut i: usize = 0;
    while i < s.len()
        invariant
            i <= s.len(),
            forall|k: int| 0 <= k < s.len() ==> spec_is_digit(#[trigger] s@[k]),
            value == digits_value(s@.take(i as int)),
        decreases s.len() - i,
    {
        let c = s[i];
        let d: u64 = ((c as u32) - 48) as u64;
        assert(s@.take(i + 1).drop_last() =~= s@.take(i as int));
        match value.checked_mul(10) {
            Some(m) => match m.checked_add(d) {
                Some(next) => {
                    value = next;
                },
                None => {
                    proof { lemma_digits_grow(s@, (i + 1) as int); }
                    return None;
                },
            },
            None => {
                proof { lemma_digits_grow(s@, (i + 1) as int); }
                return None;
            },
        }
        i = i + 1;
    }
    assert(s@.take(i as int) =~= s@);
    Some(value)
}

/// A longer run of digits spells at least as much as its head.
pub proof fn lemma_digits_grow(s: Seq<char>, k: int)
    requires
        0 <= k <= s.len(),
        forall|i: int| 0 <= i < s.len() ==> spec_is_digit(#[trigger] s[i]),
    ensures
        digits_value(s.take(k)) <= digits_value(s),
    decreases s.len() - k,
{
    if k < s.len() {
        lemma_digits_grow(s, k + 1);
        assert(s.take(k + 1).drop_last() =~= s.take(k));
        let v = digits_value(s.take(k));
        assert(v * 10 >= v) by (nonlinear_arith);
    } else {
        assert(s.take(k) =~= s);
    }
}

} // verus!

verus! {

// ---------------------------------------------------------------------------
// Words joined by spaces, and signed numbers
// ---------------------------------------------------------------------------
/// The pieces `parts` written one after another with a single space between each
/// two of them, as `join(" ")` writes them.
pub open spec fn spaced(parts: Seq<Seq<char>>) -> Seq<char>
    decreases parts.len(),
{
    if parts.len() == 0 {
        Seq::empty()
    } else if parts.len() == 1 {
        parts[0]
    } else {
        spaced(parts.drop_last()) + seq![' '] + parts.last()
    }
}

/// The views of a vector of character vectors.
pub open spec fn views(parts: Seq<Vec<char>>) -> Seq<Seq<char>> {
    parts.map_values(|p: Vec<char>| p@)
}

/// The pieces `parts` joined by single spaces.
pub fn join_spaced(parts: &Vec<Vec<char>>) -> (r: Vec<char>)
    ensures
        r@ == spaced(views(parts@)),
{
    let mut r: Vec<char> = Vec::new();
    let mut i: usize = 0;
    while i < parts.len()
        invariant
            i <= parts.len(),
            r@ == spaced(views(parts@.take(i as int))),
        decreases parts.len() - i,
    {
        let ghost before = views(parts@.take(i as int));
        assert(views(parts@.take(i + 1)) =~= before.push(parts@[i as int]@));
        assert(before.push(parts@[i as int]@).drop_last() =~= before);
        if i > 0 {
            r.push(' ');
        }
        extend(&mut r, &parts[i]);
        i = i + 1;
        proof {
            if i == 1 {
                assert(before.len() == 0);
                assert(r@ =~= views(parts@.take(i as int))[0]);
            }
        }
    }
    assert(parts@.take(i as int) =~= parts@);
    r
}

/// The size of `n`, whatever its sign, as `i64::unsigned_abs` gives it.
pub fn magnitude(n: i64) -> (r: u64)
    ensures
        r == (if n < 0 { -n } else { n as int }),
{
    if n < 0 {
        let up: i64 = n + 1;
        ((-up) as u64) + 1
    } else {
        n as u64
    }
}

} // verus!

verus! {

// ---------------------------------------------------------------------------
// Signed numbers in text
// ---------------------------------------------------------------------------
/// Whether every character of `s` is an ASCII digit.
pub open spec fn all_digits(s: Seq<char>) -> bool {
    forall|i: int| 0 <= i < s.len() ==> spec_is_digit(#[trigger] s[i])
}

/// Whether every character of `v` is an ASCII digit.
pub fn only_digits(v: &Vec<char>) -> (b: bool)
    ensures
        b == all_digits(v@),
{
    let mut i: usize = 0;
    while i < v.len()
        invariant
            i <= v.len(),
            forall|j: int| 0 <= j < i ==> spec_is_digit(#[trigger] v@[j]),
        decreases v.len() - i,
    {
        if !(v[i] >= '0' && v[i] <= '9') {
            return false;
        }
        i = i + 1;
    }
    true
}

/// What `str::parse::<i64>` gives for `s`: an optional `+` or `-`, then one or more
/// ASCII digits, whose value (negated after a `-`) must lie in the range of `i64`.
pub open spec fn spec_parse_i64(s: Seq<char>) -> Option<int> {
    if s.len() == 0 {
        None
    } else {
        let signed = s[0] == '+' || s[0] == '-';
        let body = if signed { s.skip(1) } else { s };
        let v = if s[0] == '-' { -digits_value(body) } else { digits_value(body) as int };
        if body.len() == 0 || !all_digits(body) || v < i64::MIN || v > i64::MAX {
            None
        } else {
            Some(v)
        }
    }
}

/// The `i64` that the characters `s` spell, as `str::parse::<i64>` reads them.
pub fn parse_i64(s: &Vec<char>) -> (r: Option<i64>)
    ensures
        match r {
            Some(n) => spec_parse_i64(s@) == Some(n as int),
            None => spec_parse_i64(s@) is None,
        },
{
    if s.len() == 0 {
        return None;
    }
    let signed = s[0] == '+' || s[0] == '-';
    let body = if signed { slice_chars(s, 1, s.len()) } else { slice_chars(s, 0, s.len()) };
    assert(s@.subrange(0, s.len() as int) =~= s@);
    assert(s@.subrange(1, s.len() as int) =~= s@.skip(1));
    if body.len() == 0 || !only_digits(&body) {
        return None;
    }
    match parse_digits(&body) {
        None => None,
        Some(v) => {
            if s[0] == '-' {
                if v <= 9_223_372_036_854_775_807 {
                    Some(-(v as i64))
                } else if v == 9_223_372_036_854_775_808 {
                    Some(-9_223_372_036_854_775_807i64 - 1)
                } else {
                    None
                }
            } else if v <= 9_223_372_036_854_775_807 {
                Some(v as i64)
            } else {
                None
            }
        },
    }
}

} // verus!

verus! {

/// Whether a character is `c`.
pub open spec fn is_char(c: char) -> spec_fn(char) -> bool {
    |x: char| x == c
}

/// `v` without the copies of `c` at its end, as `str::trim_end_matches(c)` gives it.
pub fn strip_trailing(v: &Vec<char>, c: char) -> (r: Vec<char>)
    ensures
        r@ == trim_end_by(v@, is_char(c)),
{
    let mut end = v.len();
    assert(v@.take(v.len() as int) =~= v@);
    while end > 0 && v[end - 1] == c
        invariant
            end <= v.len(),
            trim_end_by(v@, is_char(c)) == trim_end_by(v@.take(end as int), is_char(c)),
        decreases end,
    {
        assert(v@.take(end as int).last() == v@[end - 1]);
        assert(v@.take(end as int).drop_last() =~= v@.take(end - 1));
        end = end - 1;
    }
    proof {
        if end > 0 {
            assert(v@.take(end as int).last() == v@[end - 1]);
            assert(!is_char(c)(v@.take(end as int).last()));
        }
        assert(trim_end_by(v@.take(end as int), is_char(c)) == v@.take(end as int));
    }
    let r = slice_chars(v, 0, end);
    assert(r@ =~= v@.take(end as int));
    r
}

/// Appends the bytes `tail` to `body`.
pub fn put_bytes(body: &mut Vec<u8>, tail: &[u8])
    ensures
        final(body)@ == old(body)@ + tail@,
{
    let mut i: usize = 0;
    while i < tail.len()
        invariant
            i <= tail@.len(),
            body@ == old(body)@ + tail@.take(i as int),
        decreases tail.len() - i,
    {
        body.push(tail[i]);
        i = i + 1;
        assert(body@ =~= old(body)@ + tail@.take(i as int));
    }
    assert(tail@.take(i as int) =~= tail@);
}

/// The UTF-8 encoding of the characters `s`.
#[verifier::opaque]
pub open spec fn utf8(s: Seq<char>) -> Seq<u8> {
    vstd::utf8::encode_utf8(s)
}

/// Appends the UTF-8 encoding of `s` to `body`.
pub fn put_text(body: &mut Vec<u8>, s: &str)
    ensures
        final(body)@ == old(body)@ + utf8(s@),
{
    reveal(utf8);
    put_bytes(body, s.as_bytes());
}

} // verus!
