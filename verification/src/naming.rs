//! Folder and file name patterns: `{token}` placeholders, chains such as
//! `{city|country|"somewhere"}` that take the first thing that is known, and the
//! cleaning that keeps a value from ever leaving the folder it is put in.
use vstd::prelude::*;
use crate::error::Error;
use crate::geocode::Place;
use crate::model::{folder_segment, subject_folder, UNKNOWN_SUBJECT, SUBJECT_TOKEN};
use crate::paths::{extension_dot, extension_dot_of, file_name_of, name_extension, name_stem};
use crate::text::{
    blank, chars_of, find_from, ends_with, ends_with_chars, extend, extend_str, find_between,
    first_index, holds, is_blank, is_control, lemma_first_index, lemma_trim_empty_iff_blank,
    owned, same_chars, slice_chars, spec_is_control, spec_trim, string_of, to_lowercase,
    trim, trim_bounds, trim_by, trim_end_by, trim_pred, unicode_lowercase, contains_seq,
    lemma_trim_end_by, spec_is_white, trim_start_by,
};

verus! {

/// The name pattern that keeps the name a file arrived with.
pub const DEFAULT_NAME_PATTERN: &'static str = "{original_name}";

/// The longest value a token is replaced by, in characters (before `%` is doubled).
pub const MAX_SEGMENT: usize = 96;

// ---------------------------------------------------------------------------
// Tokens
// ---------------------------------------------------------------------------
/// Something a pattern can ask about a file.
#[derive(Debug, Clone, Copy, PartialEq, Eq, Structural)]
pub enum Token {
    Subject,
    City,
    Region,
    Country,
    CountryCode,
    CameraMake,
    CameraModel,
    OriginalName,
    OriginalStem,
    Extension,
}

/// The name a token goes by in a pattern.
pub open spec fn token_label(t: Token) -> Seq<char> {
    match t {
        Token::Subject => "subject"@,
        Token::City => "city"@,
        Token::Region => "region"@,
        Token::Country => "country"@,
        Token::CountryCode => "country_code"@,
        Token::CameraMake => "camera_make"@,
        Token::CameraModel => "camera_model"@,
        Token::OriginalName => "original_name"@,
        Token::OriginalStem => "original_stem"@,
        Token::Extension => "ext"@,
    }
}

/// The token whose name is `text`, if there is one.
pub open spec fn token_named(text: Seq<char>) -> Option<Token> {
    if text == "subject"@ {
        Some(Token::Subject)
    } else if text == "city"@ {
        Some(Token::City)
    } else if text == "region"@ {
        Some(Token::Region)
    } else if text == "country"@ {
        Some(Token::Country)
    } else if text == "country_code"@ {
        Some(Token::CountryCode)
    } else if text == "camera_make"@ {
        Some(Token::CameraMake)
    } else if text == "camera_model"@ {
        Some(Token::CameraModel)
    } else if text == "original_name"@ {
        Some(Token::OriginalName)
    } else if text == "original_stem"@ {
        Some(Token::OriginalStem)
    } else if text == "ext"@ {
        Some(Token::Extension)
    } else {
        None
    }
}

/// Every token, in the order the documentation lists them.
pub fn all_tokens() -> (r: Vec<Token>)
    ensures
        r@ == seq![Token::Subject, Token::City, Token::Region, Token::Country,
            Token::CountryCode, Token::CameraMake, Token::CameraModel, Token::OriginalName,
            Token::OriginalStem, Token::Extension],
{
    let mut r: Vec<Token> = Vec::new();
    r.push(Token::Subject);
    r.push(Token::City);
    r.push(Token::Region);
    r.push(Token::Country);
    r.push(Token::CountryCode);
    r.push(Token::CameraMake);
    r.push(Token::CameraModel);
    r.push(Token::OriginalName);
    r.push(Token::OriginalStem);
    r.push(Token::Extension);
    assert(r@ =~= seq![Token::Subject, Token::City, Token::Region, Token::Country,
            Token::CountryCode, Token::CameraMake, Token::CameraModel, Token::OriginalName,
            Token::OriginalStem, Token::Extension]);
    r
}

impl Token {
    /// The name the token goes by in a pattern.
    pub fn label(self) -> (s: &'static str)
        ensures
            s@ == token_label(self),
    {
        match self {
            Token::Subject => "subject",
            Token::City => "city",
            Token::Region => "region",
            Token::Country => "country",
            Token::CountryCode => "country_code",
            Token::CameraMake => "camera_make",
            Token::CameraModel => "camera_model",
            Token::OriginalName => "original_name",
            Token::OriginalStem => "original_stem",
            Token::Extension => "ext",
        }
    }

    /// The token called `text`.
    pub fn parse(text: &Vec<char>) -> (r: Option<Token>)
        ensures
            r == token_named(text@),
    {
        let all = all_tokens();
        let mut i: usize = 0;
        while i < all.len()
            invariant
                i <= all.len(),
                all@ == seq![Token::Subject, Token::City, Token::Region, Token::Country,
                    Token::CountryCode, Token::CameraMake, Token::CameraModel, Token::OriginalName,
                    Token::OriginalStem, Token::Extension],
                forall|j: int| 0 <= j < i ==> token_label(#[trigger] all@[j]) != text@,
            decreases all.len() - i,
        {
            let t = all[i];
            let name = chars_of(t.label());
            if same_chars(&name, text) {
                proof { lemma_labels_differ(); }
                return Some(t);
            }
            i = i + 1;
        }
        assert(token_label(all@[0]) != text@);
        assert(token_label(all@[1]) != text@);
        assert(token_label(all@[2]) != text@);
        assert(token_label(all@[3]) != text@);
        assert(token_label(all@[4]) != text@);
        assert(token_label(all@[5]) != text@);
        assert(token_label(all@[6]) != text@);
        assert(token_label(all@[7]) != text@);
        assert(token_label(all@[8]) != text@);
        assert(token_label(all@[9]) != text@);
        None
    }

    /// Whether the token's value is turned into a subject folder name.
    pub fn slugged(self) -> (b: bool)
        ensures
            b == (self == Token::Subject),
    {
        self == Token::Subject
    }
}

/// No two tokens share a name, and each name reads back as its own token.
pub proof fn lemma_labels_differ()
    ensures
        forall|t: Token| token_named(#[trigger] token_label(t)) == Some(t),
{
    assert forall|t: Token| token_named(#[trigger] token_label(t)) == Some(t) by {
        lemma_label_reads_back(t);
    }
}

/// Each token has a name of its own, and its name reads back as that token.
pub proof fn law_token_names_differ(t: Token, u: Token)
    ensures
        (token_label(t) == token_label(u)) == (t == u),
        token_named(token_label(t)) == Some(t),
{
    lemma_label_reads_back(t);
    lemma_label_reads_back(u);
}

proof fn lemma_label_reads_back(t: Token)
    ensures
        token_named(token_label(t)) == Some(t),
{
    reveal_strlit("subject");
    reveal_strlit("city");
    reveal_strlit("region");
    reveal_strlit("country");
    reveal_strlit("country_code");
    reveal_strlit("camera_make");
    reveal_strlit("camera_model");
    reveal_strlit("original_name");
    reveal_strlit("original_stem");
    reveal_strlit("ext");
    assert("subject"@.len() == 7);
    assert("city"@.len() == 4);
    assert("region"@.len() == 6);
    assert("country"@.len() == 7);
    assert("country_code"@.len() == 12);
    assert("camera_make"@.len() == 11);
    assert("camera_model"@.len() == 12);
    assert("original_name"@.len() == 13);
    assert("original_stem"@.len() == 13);
    assert("ext"@.len() == 3);
    match t {
        Token::Country => {
            assert("country"@[0] != "subject"@[0]);
            assert("country"@ != "subject"@);
            assert("country"@.len() == 7);
            assert("city"@.len() == 4);
            assert("region"@.len() == 6);
        },
        Token::CameraModel => {
            assert("camera_model"@[1] != "country_code"@[1]);
        },
        Token::OriginalStem => {
            assert("original_stem"@[9] != "original_name"@[9]);
        },
        _ => {},
    }
}

// ---------------------------------------------------------------------------
// What a file knows
// ---------------------------------------------------------------------------
/// The characters of an optional string.
pub open spec fn opt_chars(o: Option<String>) -> Option<Seq<char>> {
    match o {
        Some(s) => Some(s@),
        None => None,
    }
}

/// What a pattern can learn about one file.
#[derive(Debug, Clone, PartialEq, Eq)]
pub struct Facts {
    pub subject: Option<String>,
    pub place: Place,
    pub camera_make: Option<String>,
    pub camera_model: Option<String>,
    pub original_name: Option<String>,
}

impl Default for Facts {
    fn default() -> (f: Facts)
        ensures
            f.subject is None && f.camera_make is None && f.camera_model is None
                && f.original_name is None && f.place.city is None && f.place.region is None
                && f.place.country is None && f.place.country_code is None,
    {
        Facts {
            subject: None,
            place: Place::default(),
            camera_make: None,
            camera_model: None,
            original_name: None,
        }
    }
}

/// The stem and the extension of a file's original name.
pub open spec fn name_parts(f: Facts) -> (Option<Seq<char>>, Option<Seq<char>>) {
    match opt_chars(f.original_name) {
        Some(name) => (Some(name_stem(name)), name_extension(name)),
        None => (None, None),
    }
}

/// What a token reads from the facts, blank or not.
pub open spec fn raw_value(f: Facts, t: Token) -> Option<Seq<char>> {
    match t {
        Token::Subject => opt_chars(f.subject),
        Token::City => opt_chars(f.place.city),
        Token::Region => opt_chars(f.place.region),
        Token::Country => opt_chars(f.place.country),
        Token::CountryCode => opt_chars(f.place.country_code),
        Token::CameraMake => opt_chars(f.camera_make),
        Token::CameraModel => opt_chars(f.camera_model),
        Token::OriginalName => opt_chars(f.original_name),
        Token::OriginalStem => name_parts(f).0,
        Token::Extension => name_parts(f).1,
    }
}

/// What a token reads from the facts; a blank value counts as nothing known.
pub open spec fn token_value(f: Facts, t: Token) -> Option<Seq<char>> {
    match raw_value(f, t) {
        Some(v) => if is_blank(v) { None } else { Some(v) },
        None => None,
    }
}

/// A copy of an optional string.
fn copy_opt(o: &Option<String>) -> (r: Option<String>)
    ensures
        opt_chars(r) == opt_chars(*o),
{
    match o {
        Some(s) => Some(owned(s.as_str())),
        None => None,
    }
}

/// The characters of an optional string.
fn opt_vec(o: &Option<String>) -> (r: Option<Vec<char>>)
    ensures
        match r {
            Some(v) => opt_chars(*o) == Some(v@),
            None => opt_chars(*o) is None,
        },
{
    match o {
        Some(s) => Some(chars_of(s.as_str())),
        None => None,
    }
}

impl Facts {
    /// The facts that a source path gives by itself: its file name.
    pub fn for_source(source: &str) -> (f: Facts)
        ensures
            opt_chars(f.original_name) == file_name_of(source@),
            f.subject is None && f.camera_make is None && f.camera_model is None,
            f.place.city is None && f.place.region is None && f.place.country is None
                && f.place.country_code is None,
    {
        let name = crate::paths::file_name(source);
        let mut f = Facts::default();
        f.original_name = name;
        f
    }

    /// These facts with `subject` as the subject.
    pub fn with_subject(self, subject: Option<&str>) -> (f: Facts)
        ensures
            f.subject matches Some(s) ==> subject matches Some(t) && s@ == t@,
            f.subject is None <==> subject is None,
            f.place == self.place && f.camera_make == self.camera_make
                && f.camera_model == self.camera_model && f.original_name == self.original_name,
    {
        let mut f = self;
        f.subject = match subject {
            Some(s) => Some(owned(s)),
            None => None,
        };
        f
    }

    /// These facts with `place` as the place.
    pub fn with_place(self, place: Place) -> (f: Facts)
        ensures
            f.place == place,
            f.subject == self.subject && f.camera_make == self.camera_make
                && f.camera_model == self.camera_model && f.original_name == self.original_name,
    {
        let mut f = self;
        f.place = place;
        f
    }

    /// The original name split into its stem and its extension. A dot file such as
    /// `.gitignore` is all stem.
    pub fn stem_and_extension(&self) -> (r: (Option<Vec<char>>, Option<Vec<char>>))
        ensures
            match r.0 {
                Some(s) => name_parts(*self).0 == Some(s@),
                None => name_parts(*self).0 is None,
            },
            match r.1 {
                Some(s) => name_parts(*self).1 == Some(s@),
                None => name_parts(*self).1 is None,
            },
    {
        match &self.original_name {
            Some(name) => {
                let chars = chars_of(name.as_str());
                match extension_dot_of(&chars) {
                    Some(i) => {
                        let s = slice_chars(&chars, 0, i);
                        let e = slice_chars(&chars, i + 1, chars.len());
                        assert(s@ =~= chars@.take(i as int));
                        assert(e@ =~= chars@.skip(i + 1));
                        (Some(s), Some(e))
                    },
                    None => (Some(chars), None),
                }
            },
            None => (None, None),
        }
    }

    /// What `token` reads from these facts, unless it is blank.
    pub fn value(&self, token: Token) -> (r: Option<Vec<char>>)
        ensures
            match r {
                Some(v) => token_value(*self, token) == Some(v@),
                None => token_value(*self, token) is None,
            },
    {
        let raw: Option<Vec<char>> = match token {
            Token::Subject => opt_vec(&self.subject),
            Token::City => opt_vec(&self.place.city),
            Token::Region => opt_vec(&self.place.region),
            Token::Country => opt_vec(&self.place.country),
            Token::CountryCode => opt_vec(&self.place.country_code),
            Token::CameraMake => opt_vec(&self.camera_make),
            Token::CameraModel => opt_vec(&self.camera_model),
            Token::OriginalName => opt_vec(&self.original_name),
            Token::OriginalStem => self.stem_and_extension().0,
            Token::Extension => self.stem_and_extension().1,
        };
        match raw {
            Some(v) => if blank(&v) { None } else { Some(v) },
            None => None,
        }
    }
}

// ---------------------------------------------------------------------------
// Cleaning a value
// ---------------------------------------------------------------------------
/// Characters that may not stand in a file or folder name on some system.
pub open spec fn forbidden(c: char) -> bool {
    c == '/' || c == '\\' || c == ':' || c == '*' || c == '?' || c == '"' || c == '<' || c == '>'
        || c == '|'
}

/// `s` without control characters, and with every forbidden character made `-`.
pub open spec fn sanitize(s: Seq<char>) -> Seq<char>
    decreases s.len(),
{
    if s.len() == 0 {
        seq![]
    } else {
        let before = sanitize(s.drop_last());
        let c = s.last();
        if spec_is_control(c) {
            before
        } else if forbidden(c) {
            before.push('-')
        } else {
            before.push(c)
        }
    }
}

/// The dot, as the character that `trim_end_matches('.')` removes.
pub open spec fn dot_pred() -> spec_fn(char) -> bool {
    |c: char| c == '.'
}

/// Whether `s` holds nothing but dots (an empty `s` included).
pub open spec fn all_dots(s: Seq<char>) -> bool {
    forall|i: int| 0 <= i < s.len() ==> s[i] == '.'
}

/// Every `%` in `s` written twice, so a value never reads as a date field.
pub open spec fn double_percent(s: Seq<char>) -> Seq<char>
    decreases s.len(),
{
    if s.len() == 0 {
        seq![]
    } else {
        let before = double_percent(s.drop_last());
        if s.last() == '%' {
            before + seq!['%', '%']
        } else {
            before.push(s.last())
        }
    }
}

/// `%%` read back as `%`, left to right, as `str::replace("%%", "%")` does.
pub open spec fn single_percent(s: Seq<char>) -> Seq<char>
    decreases s.len(),
{
    if s.len() == 0 {
        seq![]
    } else if s.len() >= 2 && s[0] == '%' && s[1] == '%' {
        seq!['%'] + single_percent(s.skip(2))
    } else {
        seq![s[0]] + single_percent(s.skip(1))
    }
}

/// A value made safe to stand in a path, when it is not a subject: no control
/// characters, forbidden characters made `-`, white space and trailing dots trimmed,
/// at most 96 characters and trimmed again, nothing at all when only dots are left,
/// and every `%` doubled.
pub open spec fn clean_plain(value: Seq<char>) -> Seq<char> {
    let trimmed = spec_trim(trim_end_by(spec_trim(sanitize(value)), dot_pred()));
    let bounded = if trimmed.len() <= MAX_SEGMENT { trimmed } else { trimmed.take(MAX_SEGMENT as int) };
    let kept = spec_trim(bounded);
    if all_dots(kept) {
        seq![]
    } else {
        double_percent(kept)
    }
}

/// A value made safe to stand in a path; a subject becomes a subject folder name.
pub open spec fn clean_value(value: Seq<char>, slug: bool) -> Seq<char> {
    if slug {
        subject_folder(value)
    } else {
        clean_plain(value)
    }
}

/// `s` with no control characters and forbidden characters made `-`.
fn sanitized(s: &Vec<char>) -> (r: Vec<char>)
    ensures
        r@ == sanitize(s@),
{
    let mut r: Vec<char> = Vec::new();
    let mut i: usize = 0;
    while i < s.len()
        invariant
            i <= s.len(),
            r@ == sanitize(s@.take(i as int)),
        decreases s.len() - i,
    {
        let c = s[i];
        assert(s@.take(i + 1).drop_last() =~= s@.take(i as int));
        if is_control(c) {
        } else if c == '/' || c == '\\' || c == ':' || c == '*' || c == '?' || c == '"' || c == '<'
            || c == '>' || c == '|' {
            r.push('-');
        } else {
            r.push(c);
        }
        i = i + 1;
    }
    assert(s@.take(i as int) =~= s@);
    r
}

/// `s` without the dots at its end.
fn trim_end_dots(s: &Vec<char>) -> (r: Vec<char>)
    ensures
        r@ == trim_end_by(s@, dot_pred()),
{
    let ghost p = dot_pred();
    let mut end = s.len();
    assert(s@.take(end as int) =~= s@);
    while end > 0 && s[end - 1] == '.'
        invariant
            end <= s.len(),
            p == dot_pred(),
            trim_end_by(s@, p) == trim_end_by(s@.take(end as int), p),
        decreases end,
    {
        assert(s@.take(end as int).drop_last() =~= s@.take(end - 1));
        assert(s@.take(end as int).last() == s@[end - 1]);
        assert(p(s@[end - 1]));
        end = end - 1;
    }
    let r = slice_chars(s, 0, end);
    assert(r@ =~= s@.take(end as int));
    r
}

/// Every `%` of `s` doubled.
fn doubled_percent(s: &Vec<char>) -> (r: Vec<char>)
    ensures
        r@ == double_percent(s@),
{
    let mut r: Vec<char> = Vec::new();
    let mut i: usize = 0;
    while i < s.len()
        invariant
            i <= s.len(),
            r@ == double_percent(s@.take(i as int)),
        decreases s.len() - i,
    {
        let c = s[i];
        assert(s@.take(i + 1).drop_last() =~= s@.take(i as int));
        if c == '%' {
            r.push('%');
            r.push('%');
            assert(r@ =~= double_percent(s@.take(i as int)) + seq!['%', '%']);
        } else {
            r.push(c);
        }
        i = i + 1;
    }
    assert(s@.take(i as int) =~= s@);
    r
}

/// `%%` read back as `%`.
fn singled_percent(s: &Vec<char>) -> (r: Vec<char>)
    ensures
        r@ == single_percent(s@),
{
    let mut r: Vec<char> = Vec::new();
    let mut i: usize = 0;
    assert(s@.skip(0) =~= s@);
    while i < s.len()
        invariant
            i <= s.len(),
            single_percent(s@) == r@ + single_percent(s@.skip(i as int)),
        decreases s.len() - i,
    {
        let ghost rest = s@.skip(i as int);
        if i + 1 < s.len() && s[i] == '%' && s[i + 1] == '%' {
            r.push('%');
            assert(rest.skip(2) =~= s@.skip(i + 2));
            assert(r@ + single_percent(s@.skip(i + 2)) =~= r@.drop_last() + (seq!['%'] + single_percent(rest.skip(2))));
            i = i + 2;
        } else {
            r.push(s[i]);
            assert(rest.skip(1) =~= s@.skip(i + 1));
            assert(r@ + single_percent(s@.skip(i + 1)) =~= r@.drop_last() + (seq![rest[0]] + single_percent(rest.skip(1))));
            i = i + 1;
        }
    }
    assert(single_percent(s@.skip(i as int)) =~= seq![]);
    assert(r@ + seq![] =~= r@);
    r
}

/// Whether `s` holds nothing but dots.
fn only_dots(s: &Vec<char>) -> (b: bool)
    ensures
        b == all_dots(s@),
{
    let mut i: usize = 0;
    while i < s.len()
        invariant
            i <= s.len(),
            forall|j: int| 0 <= j < i ==> s@[j] == '.',
        decreases s.len() - i,
    {
        if s[i] != '.' {
            return false;
        }
        i = i + 1;
    }
    true
}

/// A value made safe to stand in a path (see `clean_value`). Whatever it was, the
/// result holds no `/`, `\` or `:` and is neither `.` nor `..`.
pub fn clean(value: &Vec<char>, slug: bool) -> (r: Vec<char>)
    ensures
        r@ == clean_value(value@, slug),
        stays_in_folder(r@),
{
    proof {
        reveal_strlit(".");
        reveal_strlit("..");
    }
    if slug {
        let text = string_of(value);
        let seg = folder_segment(text.as_str());
        let r = chars_of(seg.as_str());
        assert(r@[0] != "."@[0]);
        assert(r@[0] != ".."@[0]);
        return r;
    }
    let stripped = sanitized(value);
    let first = trim(&stripped);
    let dotless = trim_end_dots(&first);
    let trimmed = trim(&dotless);
    let bounded = if trimmed.len() <= MAX_SEGMENT {
        trimmed
    } else {
        let b = slice_chars(&trimmed, 0, MAX_SEGMENT);
        assert(b@ =~= trimmed@.take(MAX_SEGMENT as int));
        b
    };
    let kept = trim(&bounded);
    proof { lemma_clean_plain_is_safe(value@); }
    if only_dots(&kept) {
        let r: Vec<char> = Vec::new();
        assert(r@ =~= seq![]);
        return r;
    }
    doubled_percent(&kept)
}

/// Whether `s` holds none of the characters that separate path components.
pub open spec fn no_separator(s: Seq<char>) -> bool {
    !s.contains('/') && !s.contains('\\') && !s.contains(':')
}

/// Whether `s`, put in a folder as one path component, stays in that folder: it holds
/// no separator and is neither `.` nor `..`.
pub open spec fn stays_in_folder(s: Seq<char>) -> bool {
    no_separator(s) && s != "."@ && s != ".."@
}

/// A cleaned value that is not a subject holds no `/`, `\` or `:`, and is neither
/// `.` nor `..`, whatever the value was.
pub proof fn lemma_clean_plain_is_safe(value: Seq<char>)
    ensures
        no_separator(clean_plain(value)),
        clean_plain(value) != "."@,
        clean_plain(value) != ".."@,
{
    reveal_strlit(".");
    reveal_strlit("..");
    let s = sanitize(value);
    lemma_sanitize(value);
    let dot = dot_pred();
    let t1 = spec_trim(s);
    lemma_trim_keeps(s);
    let t2 = trim_end_by(t1, dot);
    lemma_trim_end_keeps(t1, dot);
    let t3 = spec_trim(t2);
    lemma_trim_keeps(t2);
    assert(no_separator(t3));
    let bounded = if t3.len() <= MAX_SEGMENT { t3 } else { t3.take(MAX_SEGMENT as int) };
    assert(no_separator(bounded)) by {
        if t3.len() > MAX_SEGMENT {
            assert forall|c: char| bounded.contains(c) implies t3.contains(c) by {
                let i = choose|i: int| 0 <= i < bounded.len() && bounded[i] == c;
                assert(t3[i] == c);
            }
        }
    }
    let t4 = spec_trim(bounded);
    lemma_trim_keeps(bounded);
    if all_dots(t4) {
        assert(clean_plain(value) =~= seq![]);
        assert("."@.len() == 1);
        assert(".."@.len() == 2);
    } else {
        assert(clean_plain(value) == double_percent(t4));
        lemma_double_percent_keeps(t4);
        lemma_double_percent_dots(t4);
    }
}

/// Sanitizing never lengthens a value, and leaves no separator in it.
pub proof fn lemma_sanitize(s: Seq<char>)
    ensures
        sanitize(s).len() <= s.len(),
        no_separator(sanitize(s)),
    decreases s.len(),
{
    if s.len() > 0 {
        lemma_sanitize(s.drop_last());
        let before = sanitize(s.drop_last());
        let after = sanitize(s);
        assert forall|c: char| after.contains(c) && c != s.last() && c != '-' implies before.contains(c) by {
            let i = choose|i: int| 0 <= i < after.len() && after[i] == c;
            if i < before.len() {
                assert(before[i] == c);
            }
        }
    }
}

/// Trimming keeps only characters that were there, and never lengthens.
pub proof fn lemma_trim_keeps(s: Seq<char>)
    ensures
        forall|c: char| spec_trim(s).contains(c) ==> s.contains(c),
        spec_trim(s).len() <= s.len(),
{
    let p = |c: char| spec_is_white(c);
    lemma_trim_end_keeps(s, p);
    let e = trim_end_by(s, p);
    crate::text::lemma_trim_start_by(e, p);
    let t = spec_trim(s);
    assert forall|c: char| t.contains(c) implies e.contains(c) by {
        let i = choose|i: int| 0 <= i < t.len() && t[i] == c;
        assert(e[e.len() - t.len() + i] == c);
    }
}

pub proof fn lemma_trim_end_keeps(s: Seq<char>, p: spec_fn(char) -> bool)
    ensures
        forall|c: char| trim_end_by(s, p).contains(c) ==> s.contains(c),
        trim_end_by(s, p).len() <= s.len(),
{
    crate::text::lemma_trim_end_by(s, p);
    let t = trim_end_by(s, p);
    assert forall|c: char| t.contains(c) implies s.contains(c) by {
        let i = choose|i: int| 0 <= i < t.len() && t[i] == c;
        assert(s[i] == c);
    }
}

/// Doubling `%` adds nothing but `%`, and keeps a `%` that was there.
pub proof fn lemma_double_percent_keeps(s: Seq<char>)
    ensures
        forall|c: char| c != '%' && double_percent(s).contains(c) ==> s.contains(c),
        s.contains('%') ==> double_percent(s).contains('%'),
        !s.contains('%') ==> double_percent(s) == s,
    decreases s.len(),
{
    if s.len() > 0 {
        let d = s.drop_last();
        lemma_double_percent_keeps(d);
        let before = double_percent(d);
        let after = double_percent(s);
        assert forall|c: char| c != '%' && after.contains(c) implies s.contains(c) by {
            let i = choose|i: int| 0 <= i < after.len() && after[i] == c;
            if i < before.len() {
                assert(before[i] == c);
                assert(before.contains(c));
                assert(d.contains(c));
                let j = choose|j: int| 0 <= j < d.len() && d[j] == c;
                assert(s[j] == c);
            } else {
                assert(s[s.len() - 1] == c);
            }
        }
        if s.contains('%') {
            if s.last() == '%' {
                assert(after[after.len() - 1] == '%');
            } else {
                let j = choose|j: int| 0 <= j < s.len() && s[j] == '%';
                assert(d[j] == '%');
                let k = choose|k: int| 0 <= k < before.len() && before[k] == '%';
                assert(after[k] == '%');
            }
        }
        if !s.contains('%') {
            assert(!d.contains('%')) by {
                if d.contains('%') {
                    let j = choose|j: int| 0 <= j < d.len() && d[j] == '%';
                    assert(s[j] == '%');
                }
            }
            assert(s.last() != '%');
            assert(after =~= s);
        }
    }
}

/// Doubling `%` in a run that is not all dots never gives `.` or `..`.
pub proof fn lemma_double_percent_dots(s: Seq<char>)
    requires
        !all_dots(s),
    ensures
        double_percent(s) != "."@ && double_percent(s) != ".."@,
{
    reveal_strlit(".");
    reveal_strlit("..");
    lemma_double_percent_keeps(s);
    if s.contains('%') {
        assert(!"."@.contains('%'));
        assert(!".."@.contains('%'));
    } else {
        let i = choose|i: int| 0 <= i < s.len() && s[i] != '.';
        if s == "."@ {
            assert(s[i] == '.');
        }
        if s == ".."@ {
            assert(s[i] == '.');
        }
    }
}

// ---------------------------------------------------------------------------
// Chains
// ---------------------------------------------------------------------------
/// One link of a chain: a token to ask, or a quoted last resort.
#[derive(Debug, Clone)]
pub enum Step {
    Token(Token),
    Literal(Vec<char>),
}

/// A link of a chain, as a mathematical value.
pub enum StepSpec {
    Token(Token),
    Literal(Seq<char>),
}

pub open spec fn step_view(s: Step) -> StepSpec {
    match s {
        Step::Token(t) => StepSpec::Token(t),
        Step::Literal(v) => StepSpec::Literal(v@),
    }
}

/// The pieces of `s` between the `|` that part them (always at least one).
pub open spec fn split_bar(s: Seq<char>) -> Seq<Seq<char>>
    decreases s.len(),
{
    match first_index(s, '|') {
        Some(i) => if 0 <= i < s.len() {
            seq![s.take(i)] + split_bar(s.skip(i + 1))
        } else {
            seq![s]
        },
        None => seq![s],
    }
}

/// One link of a chain, read from its text: a quoted last resort, or a token by
/// name. Blank text or an unknown name is no link at all.
pub open spec fn parse_step(part: Seq<char>) -> Option<StepSpec> {
    let t = spec_trim(part);
    if t.len() == 0 {
        None
    } else if t.len() >= 2 && t[0] == '"' && t.last() == '"' {
        Some(StepSpec::Literal(t.subrange(1, t.len() - 1)))
    } else {
        match token_named(t) {
            Some(tok) => Some(StepSpec::Token(tok)),
            None => None,
        }
    }
}

/// The links read from each piece, or `None` when one of them is not a link.
pub open spec fn parse_steps(parts: Seq<Seq<char>>) -> Option<Seq<StepSpec>>
    decreases parts.len(),
{
    if parts.len() == 0 {
        Some(seq![])
    } else {
        match parse_step(parts[0]) {
            Some(s) => match parse_steps(parts.drop_first()) {
                Some(rest) => Some(seq![s] + rest),
                None => None,
            },
            None => None,
        }
    }
}

/// The chain written between `{` and `}`.
pub open spec fn parse_chain(body: Seq<char>) -> Option<Seq<StepSpec>> {
    parse_steps(split_bar(body))
}

/// The first link of a chain that answers, cleaned.
pub open spec fn chain_answer(steps: Seq<StepSpec>, f: Facts) -> Option<Seq<char>>
    decreases steps.len(),
{
    if steps.len() == 0 {
        None
    } else {
        match steps[0] {
            StepSpec::Literal(t) => Some(clean_value(t, false)),
            StepSpec::Token(tok) => match token_value(f, tok) {
                Some(v) => Some(clean_value(v, tok == Token::Subject)),
                None => chain_answer(steps.drop_first(), f),
            },
        }
    }
}

/// What a chain stands for in the resolved pattern: its answer; the unknown-subject
/// folder when it asks only for the subject and nobody knows it; nothing otherwise.
pub open spec fn chain_text(steps: Seq<StepSpec>, f: Facts) -> Seq<char> {
    match chain_answer(steps, f) {
        Some(v) => v,
        None => if steps == seq![StepSpec::Token(Token::Subject)] {
            UNKNOWN_SUBJECT@
        } else {
            seq![]
        },
    }
}

/// A chain, ready to be asked.
pub struct Chain {
    pub steps: Vec<Step>,
}

pub open spec fn chain_view(c: Chain) -> Seq<StepSpec> {
    c.steps@.map_values(|s: Step| step_view(s))
}

/// `parse_steps` of one piece followed by others.
proof fn lemma_parse_steps_cons(x: Seq<char>, rest: Seq<Seq<char>>)
    ensures
        parse_steps(seq![x] + rest) == match parse_step(x) {
            Some(s) => match parse_steps(rest) {
                Some(r) => Some(seq![s] + r),
                None => None,
            },
            None => None,
        },
{
    let all = seq![x] + rest;
    assert(all[0] == x);
    assert(all.drop_first() =~= rest);
}

impl Chain {
    /// The chain written in `text[from..to]`.
    pub fn parse(text: &Vec<char>, from: usize, to: usize) -> (r: Option<Chain>)
        requires
            from <= to <= text.len(),
        ensures
            match r {
                Some(c) => parse_chain(text@.subrange(from as int, to as int)) == Some(chain_view(c)),
                None => parse_chain(text@.subrange(from as int, to as int)) is None,
            },
    {
        let ghost body = text@.subrange(from as int, to as int);
        let mut steps: Vec<Step> = Vec::new();
        let mut start = from;
        loop
            invariant
                from <= start <= to <= text.len(),
                body == text@.subrange(from as int, to as int),
                parse_chain(body) == match parse_steps(split_bar(text@.subrange(start as int, to as int))) {
                    Some(rest) => Some(steps@.map_values(|s: Step| step_view(s)) + rest),
                    None => None,
                },
            decreases to - start,
        {
            let ghost piece_text = text@.subrange(start as int, to as int);
            let found = find_between(text, start, to, '|');
            let end = match found {
                Some(i) => i,
                None => to,
            };
            proof {
                lemma_first_index(piece_text, '|');
                match found {
                    Some(i) => {
                        assert(piece_text.take(i - start) =~= text@.subrange(start as int, i as int));
                        assert(piece_text.skip(i - start + 1) =~= text@.subrange(i + 1, to as int));
                    },
                    None => {},
                }
            }
            let (a, b) = trim_bounds(text, start, end, true);
            let ghost part = text@.subrange(start as int, end as int);
            assert(text@.subrange(a as int, b as int) == spec_trim(part));
            let step = if a == b {
                None
            } else if b - a >= 2 && text[a] == '"' && text[b - 1] == '"' {
                let lit = slice_chars(text, a + 1, b - 1);
                assert(lit@ =~= spec_trim(part).subrange(1, spec_trim(part).len() - 1));
                Some(Step::Literal(lit))
            } else {
                let word = slice_chars(text, a, b);
                match Token::parse(&word) {
                    Some(t) => Some(Step::Token(t)),
                    None => None,
                }
            };
            match step {
                None => {
                    proof {
                        match found {
                            Some(i) => {
                                lemma_parse_steps_cons(part, split_bar(text@.subrange(i + 1, to as int)));
                            },
                            None => {
                                lemma_parse_steps_cons(part, seq![]);
                                assert(seq![part] + seq![] =~= seq![part]);
                            },
                        }
                    }
                    return None;
                },
                Some(st) => {
                    let ghost before = steps@.map_values(|s: Step| step_view(s));
                    assert(parse_step(part) == Some(step_view(st)));
                    steps.push(st);
                    assert(steps@.map_values(|s: Step| step_view(s)) =~= before + seq![step_view(st)]);
                    match found {
                        Some(i) => {
                            proof {
                                lemma_parse_steps_cons(part, split_bar(text@.subrange(i + 1, to as int)));
                                match parse_steps(split_bar(text@.subrange(i + 1, to as int))) {
                                    Some(r) => {
                                        assert(before + (seq![step_view(st)] + r) =~= (before + seq![step_view(st)]) + r);
                                    },
                                    None => {},
                                }
                            }
                            start = i + 1;
                        },
                        None => {
                            proof {
                                lemma_parse_steps_cons(part, seq![]);
                                assert(seq![part] + seq![] =~= seq![part]);
                                assert(parse_steps(seq![]) == Some(Seq::<StepSpec>::empty()));
                                assert(before + (seq![step_view(st)] + seq![]) =~= before + seq![step_view(st)]);
                            }
                            return Some(Chain { steps });
                        },
                    }
                },
            }
        }
    }

    /// The first link that answers, cleaned.
    pub fn resolve(&self, facts: &Facts) -> (r: Option<Vec<char>>)
        ensures
            match r {
                Some(v) => chain_answer(chain_view(*self), *facts) == Some(v@) && stays_in_folder(v@),
                None => chain_answer(chain_view(*self), *facts) is None,
            },
    {
        let ghost all = chain_view(*self);
        let mut i: usize = 0;
        assert(all.skip(0) =~= all);
        while i < self.steps.len()
            invariant
                i <= self.steps.len(),
                all == chain_view(*self),
                all.len() == self.steps.len(),
                chain_answer(all, *facts) == chain_answer(all.skip(i as int), *facts),
            decreases self.steps.len() - i,
        {
            let ghost rest = all.skip(i as int);
            assert(rest[0] == step_view(self.steps@[i as int]));
            assert(rest.drop_first() =~= all.skip(i + 1));
            match &self.steps[i] {
                Step::Literal(text) => {
                    return Some(clean(text, false));
                },
                Step::Token(token) => {
                    match facts.value(*token) {
                        Some(v) => {
                            let slug = token.slugged();
                            return Some(clean(&v, slug));
                        },
                        None => {},
                    }
                },
            }
            i = i + 1;
        }
        None
    }

    /// Whether the chain asks for the subject and nothing else.
    pub fn only_subject(&self) -> (b: bool)
        ensures
            b == (chain_view(*self) == seq![StepSpec::Token(Token::Subject)]),
    {
        let b = self.steps.len() == 1 && match &self.steps[0] {
            Step::Token(t) => *t == Token::Subject,
            Step::Literal(_) => false,
        };
        proof {
            if b {
                assert(chain_view(*self) =~= seq![StepSpec::Token(Token::Subject)]);
            }
            assert(chain_view(*self).len() == self.steps@.len());
            if chain_view(*self) == seq![StepSpec::Token(Token::Subject)] {
                assert(chain_view(*self)[0] == step_view(self.steps@[0]));
            }
        }
        b
    }

    /// Whether the chain asks for `token` anywhere.
    pub fn asks_for(&self, token: Token) -> (b: bool)
        ensures
            b == chain_view(*self).contains(StepSpec::Token(token)),
    {
        let mut i: usize = 0;
        while i < self.steps.len()
            invariant
                i <= self.steps.len(),
                forall|j: int| 0 <= j < i ==> chain_view(*self)[j] != StepSpec::Token(token),
            decreases self.steps.len() - i,
        {
            let hit = match &self.steps[i] {
                Step::Token(t) => *t == token,
                Step::Literal(_) => false,
            };
            assert(chain_view(*self)[i as int] == step_view(self.steps@[i as int]));
            if hit {
                return true;
            }
            i = i + 1;
        }
        false
    }
}

// ---------------------------------------------------------------------------
// Patterns
// ---------------------------------------------------------------------------
/// The text of the pattern `p` with every `{chain}` replaced by what it stands for;
/// `None` when a `{` is never closed or a chain cannot be read.
pub open spec fn resolve_pattern(p: Seq<char>, f: Facts) -> Option<Seq<char>>
    decreases p.len(),
{
    match first_index(p, '{') {
        None => Some(p),
        Some(open) => if 0 <= open < p.len() {
            let after = p.skip(open + 1);
            match first_index(after, '}') {
                None => None,
                Some(close) => if 0 <= close < after.len() {
                    match parse_chain(after.take(close)) {
                        None => None,
                        Some(steps) => match resolve_pattern(after.skip(close + 1), f) {
                            None => None,
                            Some(rest) => Some(p.take(open) + chain_text(steps, f) + rest),
                        },
                    }
                } else {
                    None
                },
            }
        } else {
            None
        },
    }
}

/// Whether every `{` in `p` is closed by a `}` around a chain that can be read.
pub open spec fn chains_readable(p: Seq<char>) -> bool
    decreases p.len(),
{
    match first_index(p, '{') {
        None => true,
        Some(open) => if 0 <= open < p.len() {
            let after = p.skip(open + 1);
            match first_index(after, '}') {
                None => false,
                Some(close) => if 0 <= close < after.len() {
                    parse_chain(after.take(close)) is Some && chains_readable(after.skip(close + 1))
                } else {
                    false
                },
            }
        } else {
            false
        },
    }
}

/// Whether `p` is a pattern the library accepts: every chain readable, and no stray
/// `}` in a pattern without any `{`.
pub open spec fn pattern_valid(p: Seq<char>) -> bool {
    chains_readable(p) && !(!p.contains('{') && p.contains('}'))
}

proof fn lemma_readable_resolves(p: Seq<char>, f: Facts)
    requires
        chains_readable(p),
    ensures
        resolve_pattern(p, f) is Some,
    decreases p.len(),
{
    match first_index(p, '{') {
        None => {},
        Some(open) => {
            let after = p.skip(open + 1);
            match first_index(after, '}') {
                None => {},
                Some(close) => {
                    lemma_readable_resolves(after.skip(close + 1), f);
                },
            }
        },
    }
}

/// What a chain of place, camera or name tokens and quoted words answers never holds
/// a `/`, `\\` or `:` and is neither `.` nor `..`, so it can never climb out of its
/// folder.
pub proof fn law_a_chain_answer_never_climbs_out(steps: Seq<StepSpec>, f: Facts)
    requires
        !steps.contains(StepSpec::Token(Token::Subject)),
    ensures
        chain_answer(steps, f) matches Some(v) ==> stays_in_folder(v),
    decreases steps.len(),
{
    if steps.len() > 0 {
        match steps[0] {
            StepSpec::Literal(t) => {
                lemma_clean_plain_is_safe(t);
            },
            StepSpec::Token(tok) => {
                assert(tok != Token::Subject) by {
                    if tok == Token::Subject {
                        assert(steps.contains(StepSpec::Token(Token::Subject)));
                    }
                }
                match token_value(f, tok) {
                    Some(v) => {
                        lemma_clean_plain_is_safe(v);
                    },
                    None => {
                        assert forall|x: StepSpec| steps.drop_first().contains(x) implies steps.contains(x) by {
                            let i = choose|i: int| 0 <= i < steps.drop_first().len() && steps.drop_first()[i] == x;
                            assert(steps[i + 1] == x);
                        }
                        law_a_chain_answer_never_climbs_out(steps.drop_first(), f);
                    },
                }
            },
        }
    }
}

/// A pattern the library accepts resolves, whatever the file knows.
pub proof fn law_a_valid_pattern_always_resolves(p: Seq<char>, f: Facts)
    requires
        pattern_valid(p),
    ensures
        resolve_pattern(p, f) is Some,
{
    lemma_readable_resolves(p, f);
}

/// Whether some readable chain of `p` (before any unclosed `{`) asks for `t`.
pub open spec fn pattern_needs(p: Seq<char>, t: Token) -> bool
    decreases p.len(),
{
    match first_index(p, '{') {
        None => false,
        Some(open) => if 0 <= open < p.len() {
            let after = p.skip(open + 1);
            match first_index(after, '}') {
                None => false,
                Some(close) => if 0 <= close < after.len() {
                    (parse_chain(after.take(close)) matches Some(steps) && steps.contains(StepSpec::Token(t)))
                        || pattern_needs(after.skip(close + 1), t)
                } else {
                    false
                },
            }
        } else {
            false
        },
    }
}

/// The facts the scan over a pattern needs at the `{` found at `open` and the `}`
/// found at `close`: how the rest of the pattern relates to the whole.
proof fn lemma_scan_step(p: Seq<char>, pos: int, open: int, close: int)
    requires
        0 <= pos <= open < close < p.len(),
        first_index(p.skip(pos), '{') == Some(open - pos),
        first_index(p.subrange(open + 1, p.len() as int), '}') == Some(close - (open + 1)),
    ensures
        ({
            let q = p.skip(pos);
            let after = q.skip(open - pos + 1);
            &&& after == p.subrange(open + 1, p.len() as int)
            &&& after.take(close - (open + 1)) == p.subrange(open + 1, close)
            &&& after.skip(close - (open + 1) + 1) == p.skip(close + 1)
            &&& q.take(open - pos) == p.subrange(pos, open)
        }),
{
    let q = p.skip(pos);
    let after = q.skip(open - pos + 1);
    assert(after =~= p.subrange(open + 1, p.len() as int));
    assert(after.take(close - (open + 1)) =~= p.subrange(open + 1, close));
    assert(after.skip(close - (open + 1) + 1) =~= p.skip(close + 1));
    assert(q.take(open - pos) =~= p.subrange(pos, open));
}

/// Whether `p` is one chain and nothing else: `{`, a body without `}`, and `}`.
pub open spec fn one_chain(p: Seq<char>) -> bool {
    &&& p.len() >= 2
    &&& p[0] == '{'
    &&& p.last() == '}'
    &&& !p.subrange(1, p.len() - 1).contains('}')
}

/// In a pattern that is one chain, the chain opens at the start and closes at the end.
proof fn lemma_one_chain_is_whole(p: Seq<char>, open: int, close: int)
    requires
        one_chain(p),
        first_index(p.skip(0), '{') == Some(open),
        first_index(p.subrange(open + 1, p.len() as int), '}') == Some(close - open - 1),
    ensures
        open == 0,
        close == p.len() - 1,
{
    assert(p.skip(0) =~= p);
    lemma_first_index(p, '{');
    assert(p[0] == '{');
    let after = p.subrange(1, p.len() as int);
    lemma_first_index(after, '}');
    assert(after[after.len() - 1] == '}');
    if close < p.len() - 1 {
        assert(p.subrange(1, p.len() - 1)[close - 1] == '}');
    }
}

/// A pattern that is one readable chain resolves to what that chain stands for: the
/// answer of its first link that has one, cleaned, or the unknown-subject folder for
/// a lone subject, or nothing.
pub proof fn law_a_lone_chain_stands_for_its_answer(p: Seq<char>, f: Facts)
    requires
        one_chain(p),
        parse_chain(p.subrange(1, p.len() - 1)) is Some,
    ensures
        resolve_pattern(p, f) == Some(chain_text(parse_chain(p.subrange(1, p.len() - 1))->Some_0, f)),
{
    let body = p.subrange(1, p.len() - 1);
    let steps = parse_chain(body)->Some_0;
    assert(first_index(p, '{') == Some(0int));
    let after = p.skip(1);
    lemma_first_index(after, '}');
    assert(after[after.len() - 1] == '}');
    let close = (p.len() - 2) as int;
    match first_index(after, '}') {
        Some(i) => {
            if i < close {
                assert(body[i] == after[i]);
            }
        },
        None => {},
    }
    assert(first_index(after, '}') == Some(close));
    assert(after.take(close) =~= body);
    let rest = after.skip(close + 1);
    assert(rest.len() == 0);
    assert(first_index(rest, '{') is None);
    assert(resolve_pattern(rest, f) == Some(rest));
    assert(p.take(0) + chain_text(steps, f) + rest =~= chain_text(steps, f));
}

/// What a chain stands for, when it is what the chain answered, the unknown-subject
/// folder or nothing, stays in its folder.
proof fn lemma_chain_text_stays(steps: Seq<StepSpec>, f: Facts, text: Seq<char>)
    requires
        text == chain_text(steps, f),
        chain_answer(steps, f) matches Some(v) ==> stays_in_folder(v),
    ensures
        stays_in_folder(text),
{
    reveal_strlit(".");
    reveal_strlit("..");
    reveal_strlit("unsorted");
    if chain_answer(steps, f) is None && steps == seq![StepSpec::Token(Token::Subject)] {
        let u = UNKNOWN_SUBJECT@;
        assert(u =~= seq!['u', 'n', 's', 'o', 'r', 't', 'e', 'd']);
        assert(!u.contains('/') && !u.contains('\\') && !u.contains(':')) by {
            assert forall|i: int| 0 <= i < u.len() implies u[i] != '/' && u[i] != '\\' && u[i] != ':' by {}
        }
        assert(u[0] != "."@[0]);
        assert(u.len() != ".."@.len());
    } else if chain_answer(steps, f) is None {
        assert(text.len() == 0);
        assert("."@.len() == 1);
        assert(".."@.len() == 2);
    }
}

/// The pattern `pattern` with every chain replaced by what the facts give it. A
/// pattern that is one chain resolves to a name that stays in its folder, whatever
/// the facts hold.
pub fn resolve(pattern: &str, facts: &Facts) -> (r: Result<String, Error>)
    ensures
        match r {
            Ok(s) => resolve_pattern(pattern@, *facts) == Some(s@),
            Err(e) => resolve_pattern(pattern@, *facts) is None && (e matches Error::InvalidFolderPattern(m) && m@ == pattern@),
        },
        one_chain(pattern@) ==> (r matches Ok(s) ==> stays_in_folder(s@)),
{
    let p = chars_of(pattern);
    let mut out: Vec<char> = Vec::new();
    let mut pos: usize = 0;
    assert(p@.skip(0) =~= p@);
    loop
        invariant
            pos <= p.len(),
            p@ == pattern@,
            resolve_pattern(p@, *facts) == match resolve_pattern(p@.skip(pos as int), *facts) {
                Some(rest) => Some(out@ + rest),
                None => None,
            },
            one_chain(p@) ==> (pos == 0 && out@.len() == 0) || (pos == p.len() && stays_in_folder(out@)),
        decreases p.len() - pos,
    {
        let ghost q = p@.skip(pos as int);
        proof { lemma_first_index(q, '{'); }
        match find_from(&p, pos, '{') {
            None => {
                let tail = slice_chars(&p, pos, p.len());
                let ghost before = out@;
                extend(&mut out, &tail);
                assert(tail@ =~= q);
                proof {
                    if one_chain(p@) {
                        if pos == 0 {
                            assert(q[0] == '{');
                        }
                        assert(out@ =~= before);
                    }
                }
                return Ok(string_of(&out));
            },
            Some(open) => {
                let head = slice_chars(&p, pos, open);
                let ghost after = p@.subrange(open + 1, p.len() as int);
                proof { lemma_first_index(after, '}'); }
                match find_between(&p, open + 1, p.len(), '}') {
                    None => {
                        assert(q.skip(open - pos + 1) =~= after);
                        return Err(Error::InvalidFolderPattern(owned(pattern)));
                    },
                    Some(close) => {
                        proof { lemma_scan_step(p@, pos as int, open as int, close as int); }
                        match Chain::parse(&p, open + 1, close) {
                            None => {
                                return Err(Error::InvalidFolderPattern(owned(pattern)));
                            },
                            Some(chain) => {
                                let piece: Vec<char> = match chain.resolve(facts) {
                                    Some(v) => v,
                                    None => if chain.only_subject() {
                                        chars_of(UNKNOWN_SUBJECT)
                                    } else {
                                        Vec::new()
                                    },
                                };
                                assert(piece@ == chain_text(chain_view(chain), *facts));
                                let ghost before = out@;
                                extend(&mut out, &head);
                                extend(&mut out, &piece);
                                proof {
                                    if one_chain(p@) {
                                        lemma_one_chain_is_whole(p@, open as int, close as int);
                                        lemma_chain_text_stays(chain_view(chain), *facts, piece@);
                                        assert(out@ =~= piece@);
                                    }
                                    match resolve_pattern(p@.skip(close + 1), *facts) {
                                        Some(rest) => {
                                            assert(before + (head@ + piece@ + rest) =~= out@ + rest);
                                        },
                                        None => {},
                                    }
                                }
                                pos = close + 1;
                            },
                        }
                    },
                }
            },
        }
    }
}

/// Whether `pattern` can be read: every chain closed and readable, and no stray `}`.
pub fn validate(pattern: &str) -> (r: Result<(), Error>)
    ensures
        r is Ok <==> pattern_valid(pattern@),
        r matches Err(e) ==> e matches Error::InvalidFolderPattern(m) && m@ == pattern@,
{
    let p = chars_of(pattern);
    let mut pos: usize = 0;
    assert(p@.skip(0) =~= p@);
    loop
        invariant
            pos <= p.len(),
            p@ == pattern@,
            chains_readable(p@) == chains_readable(p@.skip(pos as int)),
        ensures
            p@ == pattern@,
            chains_readable(p@),
        decreases p.len() - pos,
    {
        let ghost q = p@.skip(pos as int);
        proof { lemma_first_index(q, '{'); }
        match find_from(&p, pos, '{') {
            None => {
                assert(chains_readable(q));
                break;
            },
            Some(open) => {
                let ghost after = p@.subrange(open + 1, p.len() as int);
                proof { lemma_first_index(after, '}'); }
                match find_between(&p, open + 1, p.len(), '}') {
                    None => {
                        assert(q.skip(open - pos + 1) =~= after);
                        return Err(Error::InvalidFolderPattern(owned(pattern)));
                    },
                    Some(close) => {
                        proof { lemma_scan_step(p@, pos as int, open as int, close as int); }
                        match Chain::parse(&p, open + 1, close) {
                            None => {
                                return Err(Error::InvalidFolderPattern(owned(pattern)));
                            },
                            Some(_) => {
                                pos = close + 1;
                            },
                        }
                    },
                }
            },
        }
    }
    let has_open = contains_char_vec(&p, '{');
    let has_close = contains_char_vec(&p, '}');
    if has_close && !has_open {
        return Err(Error::InvalidFolderPattern(owned(pattern)));
    }
    Ok(())
}

/// Whether `v` holds `c`.
fn contains_char_vec(v: &Vec<char>, c: char) -> (b: bool)
    ensures
        b == v@.contains(c),
{
    crate::text::contains_char(v, c)
}

/// Whether `pattern` asks for `token` in one of its readable chains.
pub fn needs(pattern: &str, token: Token) -> (b: bool)
    ensures
        b == pattern_needs(pattern@, token),
{
    let p = chars_of(pattern);
    let mut pos: usize = 0;
    assert(p@.skip(0) =~= p@);
    loop
        invariant
            pos <= p.len(),
            p@ == pattern@,
            pattern_needs(p@, token) == pattern_needs(p@.skip(pos as int), token),
        decreases p.len() - pos,
    {
        let ghost q = p@.skip(pos as int);
        proof { lemma_first_index(q, '{'); }
        match find_from(&p, pos, '{') {
            None => {
                return false;
            },
            Some(open) => {
                let ghost after = p@.subrange(open + 1, p.len() as int);
                proof { lemma_first_index(after, '}'); }
                match find_between(&p, open + 1, p.len(), '}') {
                    None => {
                        assert(q.skip(open - pos + 1) =~= after);
                        return false;
                    },
                    Some(close) => {
                        proof { lemma_scan_step(p@, pos as int, open as int, close as int); }
                        match Chain::parse(&p, open + 1, close) {
                            Some(chain) => {
                                if chain.asks_for(token) {
                                    return true;
                                }
                            },
                            None => {},
                        }
                        pos = close + 1;
                    },
                }
            },
        }
    }
}

// ---------------------------------------------------------------------------
// File names
// ---------------------------------------------------------------------------
/// The file name a resolved name pattern gives: the cleaned text with `%%` read back
/// as `%`; the original name when nothing is left; and the original extension added
/// when the text does not already end with it (compared in lower case).
pub open spec fn name_from(resolved: Seq<char>, f: Facts) -> Option<Seq<char>> {
    let cleaned = single_percent(clean_plain(resolved));
    if is_blank(cleaned) {
        opt_chars(f.original_name)
    } else {
        match name_parts(f).1 {
            Some(ext) => if !ends_with(
                unicode_lowercase(cleaned),
                seq!['.'] + unicode_lowercase(ext),
            ) {
                Some(cleaned + seq!['.'] + ext)
            } else {
                Some(cleaned)
            },
            None => Some(cleaned),
        }
    }
}

/// The file name for `resolved`, the text a name pattern resolved to.
pub fn file_name_from(resolved: &str, facts: &Facts) -> (r: Option<String>)
    ensures
        match r {
            Some(s) => name_from(resolved@, *facts) == Some(s@),
            None => name_from(resolved@, *facts) is None,
        },
{
    let text = chars_of(resolved);
    let cleaned_doubled = clean(&text, false);
    let cleaned = singled_percent(&cleaned_doubled);
    if blank(&cleaned) {
        return copy_opt(&facts.original_name);
    }
    let (_, extension) = facts.stem_and_extension();
    match extension {
        Some(ext) => {
            let cleaned_text = string_of(&cleaned);
            let lowered = to_lowercase(cleaned_text.as_str());
            let lowered_chars = chars_of(lowered.as_str());
            let ext_text = string_of(&ext);
            let ext_lowered = to_lowercase(ext_text.as_str());
            let mut suffix: Vec<char> = Vec::new();
            suffix.push('.');
            extend_str(&mut suffix, ext_lowered.as_str());
            if !ends_with_chars(&lowered_chars, &suffix) {
                let mut out = cleaned;
                out.push('.');
                extend(&mut out, &ext);
                Some(string_of(&out))
            } else {
                Some(string_of(&cleaned))
            }
        },
        None => Some(string_of(&cleaned)),
    }
}

/// The file name that `pattern` gives a file with these facts: the pattern resolved,
/// `%%` read back as `%`, then made a file name by `name_from`.
pub open spec fn pattern_file_name(p: Seq<char>, f: Facts) -> Option<Seq<char>> {
    match resolve_pattern(p, f) {
        Some(resolved) => name_from(single_percent(resolved), f),
        None => None,
    }
}

/// The file name that the name pattern `pattern` gives a file with these facts.
pub fn file_name(pattern: &str, facts: &Facts) -> (r: Result<String, Error>)
    ensures
        match r {
            Ok(s) => pattern_file_name(pattern@, *facts) == Some(s@),
            Err(e) => pattern_file_name(pattern@, *facts) is None && (e matches Error::InvalidFolderPattern(m) && m@ == pattern@),
        },
{
    let resolved = match resolve(pattern, facts) {
        Ok(s) => s,
        Err(e) => return Err(e),
    };
    let resolved_chars = chars_of(resolved.as_str());
    let singled = singled_percent(&resolved_chars);
    let singled_text = string_of(&singled);
    match file_name_from(singled_text.as_str(), facts) {
        Some(name) => Ok(name),
        None => Err(Error::InvalidFolderPattern(owned(pattern))),
    }
}

/// Whether `pattern` is the name pattern that keeps original names (white space
/// around it aside).
pub fn is_default_name_pattern(pattern: &str) -> (b: bool)
    ensures
        b == (spec_trim(pattern@) == DEFAULT_NAME_PATTERN@),
{
    let p = chars_of(pattern);
    let t = trim(&p);
    let d = chars_of(DEFAULT_NAME_PATTERN);
    same_chars(&t, &d)
}

/// Whether `pattern` still holds the old `{subject}` token.
pub fn subject_token_is_legacy(pattern: &str) -> (b: bool)
    ensures
        b == holds(pattern@, SUBJECT_TOKEN@),
{
    let p = chars_of(pattern);
    let t = chars_of(SUBJECT_TOKEN);
    contains_seq(&p, &t)
}

/// A chain whose last step is a quoted word always has an answer, whatever the file
/// knows.
pub proof fn law_a_quoted_last_resort_always_answers(steps: Seq<StepSpec>, f: Facts)
    requires
        steps.len() > 0,
        steps.last() is Literal,
    ensures
        chain_answer(steps, f) is Some,
    decreases steps.len(),
{
    if steps.len() > 1 {
        match steps[0] {
            StepSpec::Token(tok) => {
                assert(steps.drop_first().last() == steps.last());
                law_a_quoted_last_resort_always_answers(steps.drop_first(), f);
            },
            _ => {},
        }
    }
}

} // verus!
