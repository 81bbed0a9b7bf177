//! What the vision model's answers are read into, and how the answer is found in
//! what the model said.
use vstd::prelude::*;
use crate::moment::Moment;
use crate::dateparse::{parse_date, spec_parse_date};
use crate::naming::opt_chars;
use crate::text::{
    ascii_lowercase, chars_of, find_from, first_index, lemma_first_index, owned, same_chars,
    slice_chars, spec_ascii_lowercase, spec_trim, string_of, to_lowercase, trim, unicode_lowercase,
};

verus! {

/// What the vision model read in a picture.
#[derive(Debug)]
pub struct Reading {
    pub taken: Option<Moment>,
    pub date_confident: bool,
    pub date_source: Option<String>,
    pub subject: Option<String>,
    pub tags: Vec<String>,
    pub caption: Option<String>,
}

// ---------------------------------------------------------------------------
// Finding the answer in what the model said
// ---------------------------------------------------------------------------
/// Where a scan of JSON text stands: how deep in braces, whether inside a string,
/// and whether the character before was a backslash inside one.
pub open spec fn scan_step(s: (int, bool, bool), c: char) -> (int, bool, bool) {
    if s.1 {
        if s.2 {
            (s.0, true, false)
        } else if c == '\\' {
            (s.0, true, true)
        } else if c == '"' {
            (s.0, false, false)
        } else {
            s
        }
    } else if c == '"' {
        (s.0, true, false)
    } else if c == '{' {
        (s.0 + 1, false, false)
    } else if c == '}' {
        (s.0 - 1, false, false)
    } else {
        s
    }
}

/// Where the scan of `t` stands after its first `k` characters.
pub open spec fn scanned(t: Seq<char>, k: int) -> (int, bool, bool)
    decreases k,
{
    if k <= 0 {
        (0, false, false)
    } else {
        scan_step(scanned(t, k - 1), t[k - 1])
    }
}

/// Whether the `k`-th character of `t` closes the object that `t` opens: a `}`
/// outside any string, one brace deep.
pub open spec fn closes_at(t: Seq<char>, k: int) -> bool {
    0 <= k < t.len() && !scanned(t, k).1 && t[k] == '}' && scanned(t, k).0 == 1
}

/// The JSON object in an answer: from its first `{` to the `}` that closes it,
/// braces inside strings not counted; nothing when there is no `{` or it is never
/// closed.
pub open spec fn spec_extract_object(answer: Seq<char>) -> Option<Seq<char>> {
    match first_index(answer, '{') {
        None => None,
        Some(start) => {
            let t = answer.skip(start);
            if exists|k: int| closes_at(t, k) {
                let k = choose|k: int| closes_at(t, k) && forall|j: int| 0 <= j < k ==> !closes_at(t, j);
                Some(t.take(k + 1))
            } else {
                None
            }
        },
    }
}

/// The JSON object in an answer of the model, which may talk around it.
pub fn extract_object(answer: &str) -> (r: Option<String>)
    ensures
        match r {
            Some(s) => spec_extract_object(answer@) == Some(s@),
            None => spec_extract_object(answer@) is None,
        },
{
    let a = chars_of(answer);
    proof { lemma_first_index(a@, '{'); }
    let start = match find_from(&a, 0, '{') {
        Some(s) => s,
        None => {
            assert(a@.skip(0) =~= a@);
            return None;
        },
    };
    assert(a@.skip(0) =~= a@);
    assert(first_index(answer@, '{') == Some(start as int));
    let ghost t = a@.skip(start as int);
    let n = a.len();
    let mut depth: usize = 0;
    let mut in_string: bool = false;
    let mut escaped: bool = false;
    let mut k: usize = start;
    while k < n
        invariant
            start <= k <= n,
            n == a@.len(),
            start < n,
            t == a@.skip(start as int),
            t[0] == '{',
            (depth as int, in_string, escaped) == scanned(t, k - start),
            (k == start && depth == 0) || (k > start && depth >= 1),
            depth <= k - start,
            forall|j: int| 0 <= j < k - start ==> !closes_at(t, j),
            !in_string ==> !escaped,
            first_index(answer@, '{') == Some(start as int),
            a@ == answer@,
        decreases n - k,
    {
        let c = a[k];
        assert(t[k - start] == c);
        assert(scanned(t, k + 1 - start) == scan_step(scanned(t, k - start), c));
        if in_string {
            if escaped {
                escaped = false;
            } else if c == '\\' {
                escaped = true;
            } else if c == '"' {
                in_string = false;
            }
        } else if c == '"' {
            in_string = true;
        } else if c == '{' {
            depth = depth + 1;
        } else if c == '}' {
            if depth == 1 {
                proof {
                    assert(closes_at(t, k - start));
                    assert(closes_at(t, k - start) && forall|j: int| 0 <= j < k - start ==> !closes_at(t, j));
                    let kk = choose|kk: int| closes_at(t, kk) && forall|j: int| 0 <= j < kk ==> !closes_at(t, j);
                    if kk < k - start {
                        assert(!closes_at(t, kk));
                    }
                    if kk > k - start {
                        assert(!closes_at(t, k - start));
                    }
                    assert(kk == k - start);
                    assert(spec_extract_object(answer@) == Some(t.take(kk + 1)));
                }
                let piece = slice_chars(&a, start, k + 1);
                assert(piece@ =~= t.take(k - start + 1));
                return Some(string_of(&piece));
            }
            depth = depth - 1;
        }
        k = k + 1;
    }
    proof {
        if exists|kk: int| closes_at(t, kk) {
            let kk = choose|kk: int| closes_at(t, kk);
            assert(kk < t.len());
            assert(!closes_at(t, kk));
        }
    }
    None
}

/// A text the model gave, trimmed; nothing when it is blank or says `null` in any
/// case.
pub open spec fn cleaned(v: Option<Seq<char>>) -> Option<Seq<char>> {
    match v {
        None => None,
        Some(text) => {
            let t = spec_trim(text);
            if t.len() == 0 || spec_ascii_lowercase(t) == "null"@ { None } else { Some(t) }
        },
    }
}

fn says_null(t: &Vec<char>) -> (b: bool)
    ensures
        b == (spec_ascii_lowercase(t@) == "null"@),
{
    proof { reveal_strlit("null"); }
    let lower = ascii_lowercase(t);
    let word = chars_of("null");
    same_chars(&lower, &word)
}

/// A text the model gave, trimmed, or nothing when it is blank or `null`.
pub fn clean(value: &Option<String>) -> (r: Option<String>)
    ensures
        opt_chars(r) == cleaned(opt_chars(*value)),
{
    match value {
        None => None,
        Some(text) => {
            let t = trim(&chars_of(text.as_str()));
            if t.len() == 0 || says_null(&t) {
                None
            } else {
                Some(string_of(&t))
            }
        },
    }
}

/// Whether the model said it was sure of the date: `high`, in any case, white space
/// around it aside.
pub open spec fn sure(confidence: Option<Seq<char>>) -> bool {
    match confidence {
        Some(c) => spec_ascii_lowercase(spec_trim(c)) == "high"@,
        None => false,
    }
}

/// The date the model read: its text trimmed, unless blank or `null`, read as a
/// date.
pub open spec fn read_date(date: Option<Seq<char>>) -> Option<Moment> {
    match date {
        None => None,
        Some(d) => {
            let t = spec_trim(d);
            if t.len() == 0 || spec_ascii_lowercase(t) == "null"@ { None } else { spec_parse_date(t) }
        },
    }
}

/// The tags of the answer: each cleaned and in lower case, the blank ones left out,
/// at most five.
pub open spec fn tags_kept(tags: Seq<Seq<char>>, n: int) -> Seq<Seq<char>>
    decreases n,
{
    if n <= 0 {
        seq![]
    } else {
        let before = tags_kept(tags, n - 1);
        match cleaned(Some(tags[n - 1])) {
            Some(t) => if before.len() < READING_TAGS { before.push(unicode_lowercase(t)) } else { before },
            None => before,
        }
    }
}

/// The most tags a reading keeps.
pub const READING_TAGS: usize = 5;

/// The lower-case form of an optional text.
pub open spec fn lowered(v: Option<Seq<char>>) -> Option<Seq<char>> {
    match v {
        Some(t) => Some(unicode_lowercase(t)),
        None => None,
    }
}

fn lower_text(v: Option<String>) -> (r: Option<String>)
    ensures
        opt_chars(r) == lowered(opt_chars(v)),
{
    match v {
        Some(t) => Some(to_lowercase(t.as_str())),
        None => None,
    }
}

/// What a reading holds, from the fields of the model's answer: the date if one was
/// given and can be read, whether the model was sure of it, where it was read,
/// the subject and tags in lower case, the caption; each text cleaned.
pub fn reading_from(
    date: &Option<String>,
    date_confidence: &Option<String>,
    date_source: &Option<String>,
    subject: &Option<String>,
    tags: &Vec<String>,
    caption: &Option<String>,
) -> (r: Reading)
    ensures
        r.taken == read_date(opt_chars(*date)),
        r.date_confident == sure(opt_chars(*date_confidence)),
        opt_chars(r.date_source) == cleaned(opt_chars(*date_source)),
        opt_chars(r.subject) == lowered(cleaned(opt_chars(*subject))),
        r.tags@.len() == tags_kept(tag_texts(tags@), tags@.len() as int).len(),
        forall|i: int| 0 <= i < r.tags@.len() ==> #[trigger] r.tags@[i]@ == tags_kept(tag_texts(tags@), tags@.len() as int)[i],
        opt_chars(r.caption) == cleaned(opt_chars(*caption)),
{
    let taken = match date {
        None => None,
        Some(d) => {
            let t = trim(&chars_of(d.as_str()));
            if t.len() == 0 || says_null(&t) {
                None
            } else {
                let text = string_of(&t);
                parse_date(text.as_str())
            }
        },
    };
    let confident = match date_confidence {
        None => false,
        Some(c) => {
            proof { reveal_strlit("high"); }
            let t = trim(&chars_of(c.as_str()));
            let lower = ascii_lowercase(&t);
            let word = chars_of("high");
            same_chars(&lower, &word)
        },
    };
    let mut kept: Vec<String> = Vec::new();
    let mut i: usize = 0;
    while i < tags.len()
        invariant
            i <= tags@.len(),
            kept@.len() == tags_kept(tag_texts(tags@), i as int).len(),
            forall|x: int| 0 <= x < kept@.len() ==> #[trigger] kept@[x]@ == tags_kept(tag_texts(tags@), i as int)[x],
        decreases tags@.len() - i,
    {
        let ghost before = kept@;
        let one: Option<String> = Some(owned(tags[i].as_str()));
        match clean(&one) {
            Some(t) => {
                if kept.len() < READING_TAGS {
                    kept.push(to_lowercase(t.as_str()));
                }
            },
            None => {},
        }
        i = i + 1;
    }
    Reading {
        taken,
        date_confident: confident,
        date_source: clean(date_source),
        subject: lower_text(clean(subject)),
        tags: kept,
        caption: clean(caption),
    }
}

/// The texts of the tags.
pub open spec fn tag_texts(tags: Seq<String>) -> Seq<Seq<char>> {
    Seq::new(tags.len(), |i: int| tags[i]@)
}

} // verus!
