//! The parts of a plan that do not depend on any one file: the default patterns, the
//! folder a subject lands in, and the name a second copy takes.
use vstd::prelude::*;
use crate::text::{
    chars_of, decimal, decimal_of, extend, extend_str, holds, is_alphanumeric, is_white, owned,
    spec_is_ascii_alphanumeric, spec_is_white, spec_trim, string_of, to_lowercase, trim,
    trim_bounds, trim_by, trim_pred, unicode_alphanumeric, unicode_lowercase, contains_seq,
};
use crate::paths::{
    extension, extension_of, file_name_of, join_path, joined_path, name_extension, name_stem,
    stem, stem_of,
};
use crate::error::Error;
use crate::geocode::Place;
use crate::providers::{DetectOptions, Detection, Provider};
use crate::rotate::Transform;
use crate::suspect::Flag;
use crate::moment::{readable_pattern, strftime, strftime_readable, strftime_text, Moment};
use crate::naming::{
    chain_answer, chain_text, name_parts, parse_chain, raw_value, StepSpec,
    file_name_from, name_from, opt_chars, pattern_valid, resolve, resolve_pattern, validate,
    Facts, DEFAULT_NAME_PATTERN,
};
use crate::text::{blank, first_index, is_blank, slice_chars};

verus! {

/// The version of the plan file format.
pub const PLAN_VERSION: u32 = 4;

/// The token that once was the only way to put a subject into a folder pattern.
pub const SUBJECT_TOKEN: &'static str = "{subject}";

/// The folder that holds pictures nobody could name a subject for.
pub const UNKNOWN_SUBJECT: &'static str = "unsorted";

/// A year folder holding month folders.
pub const DEFAULT_FOLDER_PATTERN: &'static str = "%Y/%m";

/// The longest subject folder name, in characters.
pub const MAX_SUBJECT: usize = 48;

/// A file that a scan passed over, and why.
#[derive(Debug, Clone, PartialEq, Eq)]
pub struct SkippedEntry {
    pub source: String,
    pub reason: String,
}

/// Where the copies go: the destination if one is set, the current folder otherwise.
pub fn destination_root(destination: Option<&str>) -> (r: &str)
    ensures
        match destination {
            Some(d) => r@ == d@,
            None => r@ == ""@,
        },
{
    match destination {
        Some(d) => d,
        None => "",
    }
}

/// Whether a folder pattern still uses the subject token.
pub fn pattern_needs_subject(pattern: &str) -> (b: bool)
    ensures
        b == holds(pattern@, SUBJECT_TOKEN@),
{
    let p = chars_of(pattern);
    let t = chars_of(SUBJECT_TOKEN);
    contains_seq(&p, &t)
}

// ---------------------------------------------------------------------------
// Subject folders
// ---------------------------------------------------------------------------
/// Each character kept when it is a letter, a digit or `-`, and turned into a space
/// otherwise.
pub open spec fn keep_or_space(s: Seq<char>) -> Seq<char> {
    Seq::new(s.len(), |i: int| if unicode_alphanumeric(s[i]) || s[i] == '-' { s[i] } else { ' ' })
}

/// The words of `s` (its runs of non-white characters) joined by `-`: what
/// `split_whitespace().collect::<Vec<_>>().join("-")` gives.
pub open spec fn dash_words(s: Seq<char>) -> Seq<char>
    decreases s.len(),
{
    if s.len() == 0 {
        seq![]
    } else {
        let before = dash_words(s.drop_last());
        let c = s.last();
        if spec_is_white(c) {
            before
        } else if s.len() >= 2 && spec_is_white(s[s.len() - 2]) && before.len() > 0 {
            before + seq!['-', c]
        } else {
            before.push(c)
        }
    }
}

/// The folder name for a subject: lower case, with every run of other characters
/// between words made one `-`, no `-` or `.` at either end, at most 48 characters,
/// and `unsorted` when nothing is left.
pub open spec fn subject_folder(subject: Seq<char>) -> Seq<char> {
    let words = dash_words(keep_or_space(unicode_lowercase(spec_trim(subject))));
    let trimmed = trim_by(words, trim_pred(false));
    if trimmed.len() == 0 {
        UNKNOWN_SUBJECT@
    } else if trimmed.len() <= MAX_SUBJECT {
        trimmed
    } else {
        trimmed.take(MAX_SUBJECT as int)
    }
}

/// A character that may stand in a subject folder name: `-`, or a letter or digit
/// (one that, if it is ASCII, is an ASCII letter or digit).
pub open spec fn folder_char(c: char) -> bool {
    c == '-' || (unicode_alphanumeric(c) && ((c as u32) < 128 ==> spec_is_ascii_alphanumeric(c)))
}

/// The folder a subject lands in. It is never empty, never starts with `.` or `-`, and
/// never holds `/`, `\` or `:`, so it can never climb out of the folder it is put in.
/// It is `unsorted`, or made of letters, digits and `-` alone.
pub fn folder_segment(subject: &str) -> (r: String)
    ensures
        r@ == subject_folder(subject@),
        r@.len() > 0,
        r@.len() <= MAX_SUBJECT,
        r@[0] != '.' && r@[0] != '-',
        !r@.contains('/') && !r@.contains('\\') && !r@.contains(':'),
        r@ == UNKNOWN_SUBJECT@ || forall|k: int| 0 <= k < r@.len() ==> folder_char(#[trigger] r@[k]),
{
    let raw = chars_of(subject);
    let trimmed = trim(&raw);
    let trimmed_text = string_of(&trimmed);
    let lowered_text = to_lowercase(trimmed_text.as_str());
    let lowered = chars_of(lowered_text.as_str());

    // Letters, digits and `-` stay; everything else becomes a space.
    let mut mapped: Vec<char> = Vec::new();
    let mut i: usize = 0;
    while i < lowered.len()
        invariant
            i <= lowered.len(),
            mapped@ == keep_or_space(lowered@.take(i as int)),
            forall|k: int| 0 <= k < mapped.len() ==> folder_char(#[trigger] mapped@[k]) || mapped@[k] == ' ',
        decreases lowered.len() - i,
    {
        let c = lowered[i];
        let keep = is_alphanumeric(c) || c == '-';
        if keep {
            mapped.push(c);
        } else {
            mapped.push(' ');
        }
        i = i + 1;
        assert(mapped@ =~= keep_or_space(lowered@.take(i as int)));
    }
    assert(lowered@.take(i as int) =~= lowered@);

    // The words, joined by single dashes.
    let mut joined: Vec<char> = Vec::new();
    let mut j: usize = 0;
    while j < mapped.len()
        invariant
            j <= mapped.len(),
            joined@ == dash_words(mapped@.take(j as int)),
            forall|k: int| 0 <= k < mapped.len() ==> folder_char(#[trigger] mapped@[k]) || mapped@[k] == ' ',
            forall|k: int| 0 <= k < joined.len() ==> folder_char(#[trigger] joined@[k]),
        decreases mapped.len() - j,
    {
        let c = mapped[j];
        let ghost before = joined@;
        assert(mapped@.take(j + 1).drop_last() =~= mapped@.take(j as int));
        if is_white(c) {
        } else if j >= 1 && is_white(mapped[j - 1]) && joined.len() > 0 {
            joined.push('-');
            joined.push(c);
            assert(joined@ =~= before + seq!['-', c]);
        } else {
            joined.push(c);
        }
        j = j + 1;
        assert(c != ' ' ==> folder_char(c));
    }
    assert(mapped@.take(j as int) =~= mapped@);

    let (a, b) = trim_bounds(&joined, 0, joined.len(), false);
    assert(joined@.subrange(0, joined.len() as int) =~= joined@);
    let mut out: Vec<char> = Vec::new();
    if a == b {
        out = chars_of(UNKNOWN_SUBJECT);
        proof {
            reveal_strlit("unsorted");
        }
    } else {
        let end = if b - a <= MAX_SUBJECT { b } else { a + MAX_SUBJECT };
        let mut k = a;
        while k < end
            invariant
                a <= k <= end <= b <= joined.len(),
                out@ == joined@.subrange(a as int, k as int),
            decreases end - k,
        {
            out.push(joined[k]);
            k = k + 1;
            assert(out@ =~= joined@.subrange(a as int, k as int));
        }
        proof {
            let t = joined@.subrange(a as int, b as int);
            assert(t.len() > 0);
            if b - a > MAX_SUBJECT {
                assert(out@ =~= t.take(MAX_SUBJECT as int));
            } else {
                assert(out@ =~= t);
            }
            crate::text::lemma_trim_end_by(joined@, trim_pred(false));
            crate::text::lemma_trim_start_by(crate::text::trim_end_by(joined@, trim_pred(false)), trim_pred(false));
            assert(out@[0] == t[0]);
            assert forall|x: int| 0 <= x < out@.len() implies folder_char(#[trigger] out@[x]) by {
                assert(out@[x] == joined@[a + x]);
            }
            assert(!out@.contains('/')) by {
                if out@.contains('/') {
                    let x = choose|x: int| 0 <= x < out@.len() && out@[x] == '/';
                    assert(folder_char(out@[x]));
                }
            }
            assert(!out@.contains('\\')) by {
                if out@.contains('\\') {
                    let x = choose|x: int| 0 <= x < out@.len() && out@[x] == '\\';
                    assert(folder_char(out@[x]));
                }
            }
            assert(!out@.contains(':')) by {
                if out@.contains(':') {
                    let x = choose|x: int| 0 <= x < out@.len() && out@[x] == ':';
                    assert(folder_char(out@[x]));
                }
            }
        }
    }
    string_of(&out)
}

// ---------------------------------------------------------------------------
// Second copies
// ---------------------------------------------------------------------------
/// What `Path::with_file_name` gives for the path `p` and the name `name`.
pub uninterp spec fn with_file_name_of(p: Seq<char>, name: Seq<char>) -> Seq<char>;

/// Calls `Path::with_file_name`: the path with its final component replaced by
/// `name`. The result is named; the standard library's rules are not written out.
#[verifier::external_body]
fn with_file_name(p: &str, name: &str) -> (r: String)
    ensures
        r@ == with_file_name_of(p@, name@),
{
    std::path::Path::new(p).with_file_name(name).to_string_lossy().into_owned()
}

/// The file name of the `index`-th extra copy of `destination`: its stem, `_dup_`,
/// the number, and its extension when it has one.
pub open spec fn duplicate_name(destination: Seq<char>, index: nat) -> Seq<char> {
    let stem = match stem_of(destination) {
        Some(s) => s,
        None => seq![],
    };
    let base = stem + "_dup_"@ + decimal(index);
    match extension_of(destination) {
        Some(e) => base + seq!['.'] + e,
        None => base,
    }
}

/// Where the `index`-th extra copy of `destination` goes: beside it, under a name
/// that keeps its extension.
pub fn duplicate_variant(destination: &str, index: usize) -> (r: String)
    ensures
        r@ == with_file_name_of(destination@, duplicate_name(destination@, index as nat)),
{
    let mut name: Vec<char> = match stem(destination) {
        Some(s) => s,
        None => Vec::new(),
    };
    let ghost stem_chars = name@;
    extend_str(&mut name, "_dup_");
    let digits = decimal_of(index as u64);
    extend(&mut name, &digits);
    let ghost base = name@;
    assert(base =~= stem_chars + "_dup_"@ + decimal(index as nat));
    match extension(destination) {
        Some(e) => {
            name.push('.');
            extend(&mut name, &e);
            assert(name@ =~= base + seq!['.'] + e@);
        },
        None => {},
    }
    assert(name@ =~= duplicate_name(destination@, index as nat));
    let name_text = string_of(&name);
    with_file_name(destination, name_text.as_str())
}

// ---------------------------------------------------------------------------
// Patterns and destinations
// ---------------------------------------------------------------------------
/// The facts a pattern is tried against before any file is seen.
pub open spec fn probing(f: Facts) -> bool {
    &&& opt_chars(f.subject) == Some(UNKNOWN_SUBJECT@)
    &&& opt_chars(f.place.city) == Some("city"@)
    &&& opt_chars(f.place.region) == Some("region"@)
    &&& opt_chars(f.place.country) == Some("country"@)
    &&& opt_chars(f.place.country_code) == Some("cc"@)
    &&& opt_chars(f.camera_make) == Some("make"@)
    &&& opt_chars(f.camera_model) == Some("model"@)
    &&& opt_chars(f.original_name) == Some("probe.jpg"@)
}

fn probe_facts() -> (f: Facts)
    ensures
        probing(f),
{
    Facts {
        subject: Some(owned(UNKNOWN_SUBJECT)),
        place: Place {
            city: Some(owned("city")),
            region: Some(owned("region")),
            country: Some(owned("country")),
            country_code: Some(owned("cc")),
        },
        camera_make: Some(owned("make")),
        camera_model: Some(owned("model")),
        original_name: Some(owned("probe.jpg")),
    }
}

/// Whether a folder or name pattern is accepted: not blank, every chain readable,
/// and, once resolved against the probing facts, read by `chrono` as strftime items.
pub open spec fn pattern_accepted(p: Seq<char>, probe: Facts) -> bool {
    &&& !is_blank(p)
    &&& pattern_valid(p)
    &&& resolve_pattern(p, probe) matches Some(r) && strftime_readable(r)
}

fn validate_pattern(pattern: &str) -> (r: Result<(), Error>)
    ensures
        exists|f: Facts| probing(f) && (r is Ok <==> pattern_accepted(pattern@, f)),
        r matches Err(e) ==> e matches Error::InvalidFolderPattern(m) && m@ == pattern@,
{
    let p = chars_of(pattern);
    let probe = probe_facts();
    if blank(&p) {
        return Err(Error::InvalidFolderPattern(owned(pattern)));
    }
    match validate(pattern) {
        Ok(()) => {},
        Err(e) => return Err(e),
    }
    let resolved = match resolve(pattern, &probe) {
        Ok(r) => r,
        Err(e) => return Err(e),
    };
    if readable_pattern(resolved.as_str()) {
        Ok(())
    } else {
        Err(Error::InvalidFolderPattern(owned(pattern)))
    }
}

/// Checks a folder pattern: it must not be blank, its chains must read, and what it
/// resolves to must be a strftime pattern.
pub fn validate_folder_pattern(pattern: &str) -> (r: Result<(), Error>)
    ensures
        exists|f: Facts| probing(f) && (r is Ok <==> pattern_accepted(pattern@, f)),
        r matches Err(e) ==> e matches Error::InvalidFolderPattern(m) && m@ == pattern@,
{
    validate_pattern(pattern)
}

/// Checks a name pattern by the same rules as a folder pattern.
pub fn validate_name_pattern(pattern: &str) -> (r: Result<(), Error>)
    ensures
        exists|f: Facts| probing(f) && (r is Ok <==> pattern_accepted(pattern@, f)),
        r matches Err(e) ==> e matches Error::InvalidFolderPattern(m) && m@ == pattern@,
{
    validate_pattern(pattern)
}

/// What a pattern gives for a file at a moment: its chains resolved, then the
/// strftime items written for the moment.
pub open spec fn expanded(p: Seq<char>, f: Facts, t: Moment) -> Option<Seq<char>> {
    match resolve_pattern(p, f) {
        Some(r) => strftime_text(t.year, t.month, t.day, t.hour, t.minute, t.second, r),
        None => None,
    }
}

fn expand(pattern: &str, facts: &Facts, taken: &Moment) -> (r: Result<String, Error>)
    ensures
        match r {
            Ok(s) => expanded(pattern@, *facts, *taken) == Some(s@),
            Err(e) => expanded(pattern@, *facts, *taken) is None
                && (e matches Error::InvalidFolderPattern(m) && m@ == pattern@),
        },
{
    let resolved = match resolve(pattern, facts) {
        Ok(r) => r,
        Err(e) => return Err(e),
    };
    match strftime(taken, resolved.as_str()) {
        Some(text) => Ok(text),
        None => Err(Error::InvalidFolderPattern(owned(pattern))),
    }
}

/// Whether a character splits a folder text into folders.
pub open spec fn folder_separator(c: char) -> bool {
    c == '/' || c == '\\'
}

/// Where the first separator of `s` stands.
pub open spec fn first_separator(s: Seq<char>) -> Option<int>
    decreases s.len(),
{
    if s.len() == 0 {
        None
    } else if folder_separator(s[0]) {
        Some(0)
    } else {
        match first_separator(s.drop_first()) {
            Some(k) => Some(k + 1),
            None => None,
        }
    }
}

pub proof fn lemma_first_separator(s: Seq<char>)
    ensures
        match first_separator(s) {
            Some(k) => 0 <= k < s.len() && folder_separator(s[k])
                && forall|j: int| 0 <= j < k ==> !folder_separator(#[trigger] s[j]),
            None => forall|j: int| 0 <= j < s.len() ==> !folder_separator(#[trigger] s[j]),
        },
    decreases s.len(),
{
    if s.len() > 0 && !folder_separator(s[0]) {
        lemma_first_separator(s.drop_first());
        assert forall|j: int| 0 < j < s.len() implies s[j] == s.drop_first()[j - 1] by {}
    }
}

/// The folders a folder text names: the pieces between separators, empty ones left
/// out.
pub open spec fn folder_parts(s: Seq<char>) -> Seq<Seq<char>>
    decreases s.len(),
{
    match first_separator(s) {
        None => if s.len() == 0 { seq![] } else { seq![s] },
        Some(k) => {
            proof { lemma_first_separator(s); }
            if k <= 0 {
                folder_parts(s.skip(1))
            } else {
                seq![s.take(k)] + folder_parts(s.skip(k + 1))
            }
        },
    }
}

/// `base` with each of `parts` joined on in turn.
pub open spec fn joined_all(base: Seq<char>, parts: Seq<Seq<char>>) -> Seq<char>
    decreases parts.len(),
{
    if parts.len() == 0 {
        base
    } else {
        joined_all(joined_path(base, parts[0]), parts.drop_first())
    }
}

/// Where a file lands: the root, the folders the folder pattern gives, and the name
/// the name pattern gives; `None` where either pattern gives nothing.
pub open spec fn destination_spec(t: Moment, f: Facts, root: Seq<char>, folder: Seq<char>, name: Seq<char>) -> Option<Seq<char>> {
    match expanded(folder, f, t) {
        None => None,
        Some(folders) => match expanded(name, f, t) {
            None => None,
            Some(text) => match name_from(text, f) {
                None => None,
                Some(file) => Some(joined_path(joined_all(root, folder_parts(folders)), file)),
            },
        },
    }
}

/// The first separator at `from` or later, as a position in `v`.
fn separator_from(v: &Vec<char>, from: usize) -> (r: Option<usize>)
    requires
        from <= v.len(),
    ensures
        match first_separator(v@.skip(from as int)) {
            Some(k) => r == Some((from + k) as usize),
            None => r is None,
        },
{
    let ghost q = v@.skip(from as int);
    proof { lemma_first_separator(q); }
    let mut i: usize = from;
    while i < v.len()
        invariant
            from <= i <= v.len(),
            q == v@.skip(from as int),
            forall|j: int| from <= j < i ==> !folder_separator(#[trigger] v@[j]),
        decreases v.len() - i,
    {
        if v[i] == '/' || v[i] == '\\' {
            proof {
                lemma_first_separator(q);
                match first_separator(q) {
                    Some(k) => {
                        if k < i - from {
                            assert(q[k] == v@[from + k]);
                        }
                        if k > i - from {
                            assert(q[i - from] == v@[i as int]);
                        }
                    },
                    None => {
                        assert(q[i - from] == v@[i as int]);
                    },
                }
            }
            return Some(i);
        }
        i = i + 1;
    }
    proof {
        lemma_first_separator(q);
        match first_separator(q) {
            Some(k) => {
                assert(q[k] == v@[from + k]);
            },
            None => {},
        }
    }
    None
}

/// Where a file taken at `taken` lands under `destination_root`: the folders the
/// folder pattern gives, one below the other, then the name the name pattern gives.
pub fn destination_with_facts(
    taken: &Moment,
    facts: &Facts,
    destination_root: &str,
    folder_pattern: &str,
    name_pattern: &str,
) -> (r: Result<String, Error>)
    ensures
        match r {
            Ok(d) => destination_spec(*taken, *facts, destination_root@, folder_pattern@, name_pattern@) == Some(d@),
            Err(e) => destination_spec(*taken, *facts, destination_root@, folder_pattern@, name_pattern@) is None
                && (e matches Error::InvalidFolderPattern(m) && m@ == (
                    if expanded(folder_pattern@, *facts, *taken) is None { folder_pattern@ } else { name_pattern@ })),
        },
{
    let folder = match expand(folder_pattern, facts, taken) {
        Ok(f) => f,
        Err(e) => return Err(e),
    };
    let name_text = match expand(name_pattern, facts, taken) {
        Ok(n) => n,
        Err(e) => return Err(e),
    };
    let name = match file_name_from(name_text.as_str(), facts) {
        Some(n) => n,
        None => return Err(Error::InvalidFolderPattern(owned(name_pattern))),
    };
    let chars = chars_of(folder.as_str());
    let mut path = owned(destination_root);
    let mut pos: usize = 0;
    assert(chars@.skip(0) =~= chars@);
    while pos < chars.len()
        invariant
            pos <= chars.len(),
            chars@ == folder@,
            joined_all(destination_root@, folder_parts(folder@))
                == joined_all(path@, folder_parts(chars@.skip(pos as int))),
        decreases chars.len() - pos,
    {
        let ghost q = chars@.skip(pos as int);
        proof { lemma_first_separator(q); }
        let next = separator_from(&chars, pos);
        match next {
            Some(k) => {
                assert(q.skip(k - pos + 1) =~= chars@.skip(k + 1));
                if k > pos {
                    let piece = slice_chars(&chars, pos, k);
                    assert(piece@ =~= q.take(k - pos));
                    let piece_text = string_of(&piece);
                    path = join_path(path.as_str(), piece_text.as_str());
                    assert(folder_parts(q) =~= seq![piece@] + folder_parts(chars@.skip(k + 1)));
                    assert((seq![piece@] + folder_parts(chars@.skip(k + 1))).drop_first() =~= folder_parts(chars@.skip(k + 1)));
                }
                pos = k + 1;
            },
            None => {
                let piece = slice_chars(&chars, pos, chars.len());
                assert(piece@ =~= q);
                let piece_text = string_of(&piece);
                path = join_path(path.as_str(), piece_text.as_str());
                assert(folder_parts(q) =~= seq![piece@]);
                assert(seq![piece@].drop_first() =~= Seq::<Seq<char>>::empty());
                assert(chars@.skip(chars.len() as int) =~= Seq::<char>::empty());
                assert(folder_parts(Seq::<char>::empty()) =~= Seq::<Seq<char>>::empty());
                pos = chars.len();
            },
        }
    }
    assert(chars@.skip(pos as int) =~= Seq::<char>::empty());
    assert(folder_parts(Seq::<char>::empty()) =~= Seq::<Seq<char>>::empty());
    Ok(join_path(path.as_str(), name.as_str()))
}

/// Where a file lands under the folder and name patterns, knowing of it only its
/// path and, for a folder pattern that asks for one, an optional subject.
pub fn destination_named(
    source: &str,
    taken: &Moment,
    subject: Option<&str>,
    destination_root: &str,
    folder_pattern: &str,
    name_pattern: &str,
) -> (r: Result<String, Error>)
    ensures
        exists|f: Facts| #[trigger] source_facts(f, source@, subject_text(subject)),
        forall|f: Facts| #[trigger] source_facts(f, source@, subject_text(subject)) ==> match r {
            Ok(d) => destination_spec(*taken, f, destination_root@, folder_pattern@, name_pattern@) == Some(d@),
            Err(e) => destination_spec(*taken, f, destination_root@, folder_pattern@, name_pattern@) is None
                && (e matches Error::InvalidFolderPattern(m) && m@ == (
                    if expanded(folder_pattern@, f, *taken) is None { folder_pattern@ } else { name_pattern@ })),
        },
{
    let facts = Facts::for_source(source).with_subject(subject);
    let r = destination_with_facts(taken, &facts, destination_root, folder_pattern, name_pattern);
    proof {
        assert(source_facts(facts, source@, subject_text(subject)));
        assert forall|f: Facts| #[trigger] source_facts(f, source@, subject_text(subject)) implies
            facts_alike(f, facts) by {}
        assert forall|f: Facts| #[trigger] source_facts(f, source@, subject_text(subject)) implies
            destination_spec(*taken, f, destination_root@, folder_pattern@, name_pattern@)
                == destination_spec(*taken, facts, destination_root@, folder_pattern@, name_pattern@)
            && expanded(folder_pattern@, f, *taken) == expanded(folder_pattern@, facts, *taken) by {
            lemma_destination_alike(*taken, f, facts, destination_root@, folder_pattern@, name_pattern@);
        }
    }
    r
}

/// Where a file lands under the default name pattern, with an optional subject for
/// a folder pattern that asks for one.
pub fn destination_with_subject(
    source: &str,
    taken: &Moment,
    subject: Option<&str>,
    destination_root: &str,
    folder_pattern: &str,
) -> (r: Result<String, Error>)
    ensures
        exists|f: Facts| #[trigger] source_facts(f, source@, subject_text(subject)),
        forall|f: Facts| #[trigger] source_facts(f, source@, subject_text(subject)) ==> match r {
            Ok(d) => destination_spec(*taken, f, destination_root@, folder_pattern@, DEFAULT_NAME_PATTERN@) == Some(d@),
            Err(e) => destination_spec(*taken, f, destination_root@, folder_pattern@, DEFAULT_NAME_PATTERN@) is None
                && (e matches Error::InvalidFolderPattern(m) && m@ == (
                    if expanded(folder_pattern@, f, *taken) is None { folder_pattern@ } else { DEFAULT_NAME_PATTERN@ })),
        },
{
    destination_named(source, taken, subject, destination_root, folder_pattern, DEFAULT_NAME_PATTERN)
}

/// The text of an optional subject.
pub open spec fn subject_text(subject: Option<&str>) -> Option<Seq<char>> {
    match subject {
        Some(s) => Some(s@),
        None => None,
    }
}

/// The facts a source path and an optional subject give: the file name and the
/// subject, nothing else.
pub open spec fn source_facts(f: Facts, source: Seq<char>, subject: Option<Seq<char>>) -> bool {
    &&& opt_chars(f.original_name) == file_name_of(source)
    &&& opt_chars(f.subject) == subject
    &&& f.camera_make is None && f.camera_model is None
    &&& f.place.city is None && f.place.region is None && f.place.country is None && f.place.country_code is None
}

/// Where a file lands under the default name pattern, with no subject known.
pub fn destination_for(
    source: &str,
    taken: &Moment,
    destination_root: &str,
    folder_pattern: &str,
) -> (r: Result<String, Error>)
    ensures
        forall|f: Facts| #[trigger] source_facts(f, source@, None) ==> match r {
            Ok(d) => destination_spec(*taken, f, destination_root@, folder_pattern@, DEFAULT_NAME_PATTERN@) == Some(d@),
            Err(e) => destination_spec(*taken, f, destination_root@, folder_pattern@, DEFAULT_NAME_PATTERN@) is None
                && (e matches Error::InvalidFolderPattern(m) && m@ == (
                    if expanded(folder_pattern@, f, *taken) is None { folder_pattern@ } else { DEFAULT_NAME_PATTERN@ })),
        },
{
    destination_with_subject(source, taken, None, destination_root, folder_pattern)
}

// ---------------------------------------------------------------------------
// Plans
// ---------------------------------------------------------------------------
/// What a plan says of the whole run: when it was made, what it reads, where the
/// copies go and how they are named, and how dates were chosen.
#[derive(Debug)]
pub struct PlanHeader {
    pub version: u32,
    pub created_at: Moment,
    pub sources: Vec<String>,
    pub destination: Option<String>,
    pub folder_pattern: String,
    pub name_pattern: String,
    pub detect: DetectOptions,
}

/// One file of a plan: where it is, where it goes, the date chosen for it and why,
/// and what else was learnt of it.
#[derive(Debug)]
pub struct PlanEntry {
    pub source: String,
    pub destination: String,
    pub taken: Moment,
    pub provider: Provider,
    pub provider_info: Option<String>,
    pub size: u64,
    pub candidates: Vec<Detection>,
    pub flags: Vec<Flag>,
    pub subject: Option<String>,
    pub place: Place,
    pub tags: Vec<String>,
    pub caption: Option<String>,
    pub orientation: u16,
    pub rotate: Transform,
    pub rotate_reason: Option<String>,
    pub reencode: bool,
}

/// A line of a plan file.
#[derive(Debug)]
pub enum PlanRecord {
    Header(PlanHeader),
    Entry(PlanEntry),
    Skipped(SkippedEntry),
}

/// The moment 1970-01-01 00:00:00.
pub open spec fn epoch_start() -> Moment {
    Moment { year: 1970, month: 1, day: 1, hour: 0, minute: 0, second: 0 }
}

impl Default for PlanEntry {
    fn default() -> (e: PlanEntry)
        ensures
            e.source@ == ""@ && e.destination@ == ""@,
            e.taken == epoch_start(),
            e.provider == Provider::Filesystem,
            e.provider_info is None && e.size == 0,
            e.candidates@.len() == 0 && e.flags@.len() == 0,
            e.subject is None && e.tags@.len() == 0 && e.caption is None,
            e.place.city is None && e.place.region is None && e.place.country is None
                && e.place.country_code is None,
            e.orientation == 0 && e.rotate == Transform::Identity,
            e.rotate_reason is None && !e.reencode,
    {
        PlanEntry {
            source: owned(""),
            destination: owned(""),
            taken: Moment { year: 1970, month: 1, day: 1, hour: 0, minute: 0, second: 0 },
            provider: Provider::Filesystem,
            provider_info: None,
            size: 0,
            candidates: Vec::new(),
            flags: Vec::new(),
            subject: None,
            place: Place::default(),
            tags: Vec::new(),
            caption: None,
            orientation: 0,
            rotate: Transform::Identity,
            rotate_reason: None,
            reencode: false,
        }
    }
}

/// A copy of an optional string.
fn copy_text(o: &Option<String>) -> (r: Option<String>)
    ensures
        opt_chars(r) == opt_chars(*o),
{
    match o {
        Some(s) => Some(owned(s.as_str())),
        None => None,
    }
}

/// The facts an entry gives a pattern: its file name, its subject and its place.
pub open spec fn entry_facts(f: Facts, e: PlanEntry) -> bool {
    &&& opt_chars(f.original_name) == file_name_of(e.source@)
    &&& opt_chars(f.subject) == opt_chars(e.subject)
    &&& opt_chars(f.place.city) == opt_chars(e.place.city)
    &&& opt_chars(f.place.region) == opt_chars(e.place.region)
    &&& opt_chars(f.place.country) == opt_chars(e.place.country)
    &&& opt_chars(f.place.country_code) == opt_chars(e.place.country_code)
    &&& f.camera_make is None && f.camera_model is None
}

/// The position of the first candidate from `p`.
pub open spec fn first_from(c: Seq<Detection>, p: Provider) -> Option<int>
    decreases c.len(),
{
    if c.len() == 0 {
        None
    } else if c[0].provider == p {
        Some(0)
    } else {
        match first_from(c.drop_first(), p) {
            Some(k) => Some(k + 1),
            None => None,
        }
    }
}

pub proof fn lemma_first_from(c: Seq<Detection>, p: Provider)
    ensures
        match first_from(c, p) {
            Some(k) => 0 <= k < c.len() && c[k].provider == p
                && forall|j: int| 0 <= j < k ==> (#[trigger] c[j]).provider != p,
            None => forall|j: int| 0 <= j < c.len() ==> (#[trigger] c[j]).provider != p,
        },
    decreases c.len(),
{
    if c.len() > 0 && c[0].provider != p {
        lemma_first_from(c.drop_first(), p);
        assert forall|j: int| 0 < j < c.len() implies c[j] == c.drop_first()[j - 1] by {}
    }
}

/// The position of the first candidate from `p`.
pub fn position_of(candidates: &Vec<Detection>, p: Provider) -> (r: Option<usize>)
    ensures
        match first_from(candidates@, p) {
            Some(k) => r == Some(k as usize),
            None => r is None,
        },
{
    proof { lemma_first_from(candidates@, p); }
    let n = candidates.len();
    let mut i: usize = 0;
    while i < candidates.len()
        invariant
            i <= candidates.len(),
            forall|j: int| 0 <= j < i ==> (#[trigger] candidates@[j]).provider != p,
        decreases candidates.len() - i,
    {
        if candidates[i].provider == p {
            proof {
                lemma_first_from(candidates@, p);
                match first_from(candidates@, p) {
                    Some(k) => { if k > i { assert(candidates@[i as int].provider == p); } },
                    None => { assert(candidates@[i as int].provider == p); },
                }
            }
            return Some(i);
        }
        i = i + 1;
    }
    proof {
        lemma_first_from(candidates@, p);
        match first_from(candidates@, p) {
            Some(k) => { assert(candidates@[k].provider == p); },
            None => {},
        }
    }
    None
}

impl PlanEntry {
    /// What the patterns can learn of this entry: its file name, subject and place.
    pub fn facts(&self) -> (f: Facts)
        ensures
            entry_facts(f, *self),
    {
        let base = Facts::for_source(self.source.as_str());
        let mut f = base;
        f.subject = copy_text(&self.subject);
        f.place = Place {
            city: copy_text(&self.place.city),
            region: copy_text(&self.place.region),
            country: copy_text(&self.place.country),
            country_code: copy_text(&self.place.country_code),
        };
        f
    }

    /// The date the source `provider` gave, if it gave one.
    pub fn candidate(&self, provider: Provider) -> (r: Option<&Detection>)
        ensures
            match first_from(self.candidates@, provider) {
                Some(k) => r matches Some(d) && *d == self.candidates@[k],
                None => r is None,
            },
    {
        proof { lemma_first_from(self.candidates@, provider); }
        let n = self.candidates.len();
        let found = position_of(&self.candidates, provider);
        match found {
            Some(k) => Some(&self.candidates[k]),
            None => None,
        }
    }

    /// The date the file system gave, if it gave one.
    pub fn filesystem_time(&self) -> (r: Option<Moment>)
        ensures
            match first_from(self.candidates@, Provider::Filesystem) {
                Some(k) => r == Some(self.candidates@[k].taken),
                None => r is None,
            },
    {
        match self.candidate(Provider::Filesystem) {
            Some(c) => Some(c.taken),
            None => None,
        }
    }
}

impl PlanHeader {
    /// Where the copies go.
    pub fn root(&self) -> (r: &str)
        ensures
            match self.destination {
                Some(d) => r@ == d@,
                None => r@ == ""@,
            },
    {
        match &self.destination {
            Some(d) => d.as_str(),
            None => "",
        }
    }

    /// Where `entry` lands if it was taken at `taken`, under this plan's root and
    /// patterns.
    pub fn destination_of(&self, entry: &PlanEntry, taken: &Moment) -> (r: Result<String, Error>)
        ensures
            forall|f: Facts| #[trigger] entry_facts(f, *entry) ==> {
                let root = match self.destination { Some(d) => d@, None => ""@ };
                match r {
                    Ok(d) => destination_spec(*taken, f, root, self.folder_pattern@, self.name_pattern@) == Some(d@),
                    Err(e) => destination_spec(*taken, f, root, self.folder_pattern@, self.name_pattern@) is None
                        && (e matches Error::InvalidFolderPattern(m) && m@ == (
                            if expanded(self.folder_pattern@, f, *taken) is None { self.folder_pattern@ } else { self.name_pattern@ })),
                }
            },
    {
        let facts = entry.facts();
        let root = self.root();
        let r = destination_with_facts(taken, &facts, root, self.folder_pattern.as_str(), self.name_pattern.as_str());
        proof {
            assert forall|f: Facts| #[trigger] entry_facts(f, *entry) implies
                destination_spec(*taken, f, root@, self.folder_pattern@, self.name_pattern@)
                    == destination_spec(*taken, facts, root@, self.folder_pattern@, self.name_pattern@)
                && expanded(self.folder_pattern@, f, *taken) == expanded(self.folder_pattern@, facts, *taken) by {
                lemma_destination_alike(*taken, f, facts, root@, self.folder_pattern@, self.name_pattern@);
            }
        }
        r
    }
}

// ---------------------------------------------------------------------------
// Facts that read alike
// ---------------------------------------------------------------------------
/// Whether two sets of facts hold the same texts.
pub open spec fn facts_alike(a: Facts, b: Facts) -> bool {
    &&& opt_chars(a.subject) == opt_chars(b.subject)
    &&& opt_chars(a.place.city) == opt_chars(b.place.city)
    &&& opt_chars(a.place.region) == opt_chars(b.place.region)
    &&& opt_chars(a.place.country) == opt_chars(b.place.country)
    &&& opt_chars(a.place.country_code) == opt_chars(b.place.country_code)
    &&& opt_chars(a.camera_make) == opt_chars(b.camera_make)
    &&& opt_chars(a.camera_model) == opt_chars(b.camera_model)
    &&& opt_chars(a.original_name) == opt_chars(b.original_name)
}

proof fn lemma_chain_alike(steps: Seq<StepSpec>, a: Facts, b: Facts)
    requires
        facts_alike(a, b),
    ensures
        chain_answer(steps, a) == chain_answer(steps, b),
        chain_text(steps, a) == chain_text(steps, b),
    decreases steps.len(),
{
    if steps.len() > 0 {
        lemma_chain_alike(steps.drop_first(), a, b);
        match steps[0] {
            StepSpec::Token(tok) => {
                assert(raw_value(a, tok) == raw_value(b, tok));
            },
            _ => {},
        }
    }
}

proof fn lemma_resolve_alike(p: Seq<char>, a: Facts, b: Facts)
    requires
        facts_alike(a, b),
    ensures
        resolve_pattern(p, a) == resolve_pattern(p, b),
    decreases p.len(),
{
    match first_index(p, '{') {
        None => {},
        Some(open) => if 0 <= open < p.len() {
            let after = p.skip(open + 1);
            match first_index(after, '}') {
                None => {},
                Some(close) => if 0 <= close < after.len() {
                    match parse_chain(after.take(close)) {
                        None => {},
                        Some(steps) => {
                            lemma_chain_alike(steps, a, b);
                            lemma_resolve_alike(after.skip(close + 1), a, b);
                        },
                    }
                },
            }
        },
    }
}

/// Facts that hold the same texts put a file in the same place.
pub proof fn lemma_destination_alike(t: Moment, a: Facts, b: Facts, root: Seq<char>, folder: Seq<char>, name: Seq<char>)
    requires
        facts_alike(a, b),
    ensures
        destination_spec(t, a, root, folder, name) == destination_spec(t, b, root, folder, name),
        expanded(folder, a, t) == expanded(folder, b, t),
{
    lemma_resolve_alike(folder, a, b);
    lemma_resolve_alike(name, a, b);
    assert(name_parts(a) == name_parts(b));
}

} // verus!
