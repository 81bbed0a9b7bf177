//! The few questions the library asks of a path: its last component, its
//! extension and stem, and the same path with another extension.
use vstd::prelude::*;
use crate::text::{lemma_last_index, ascii_lowercase, chars_of, last_index, rfind, same_chars, slice_chars, spec_ascii_lowercase};

verus! {

/// What `Path::file_name` gives for the path whose text is `p`.
pub uninterp spec fn file_name_of(p: Seq<char>) -> Option<Seq<char>>;

/// Calls `Path::file_name`: the final component of the path, or `None` when the path
/// ends in `..` or has no component. As a component, a name is never empty and never
/// holds the separator `/`; which component is final is decided by the standard
/// library's path parser, which is not written out.
#[verifier::external_body]
pub fn file_name(p: &str) -> (r: Option<String>)
    ensures
        match r {
            Some(n) => file_name_of(p@) == Some(n@) && n@.len() > 0 && !n@.contains('/'),
            None => file_name_of(p@) is None,
        },
{
    match std::path::Path::new(p).file_name() {
        Some(name) => Some(name.to_string_lossy().into_owned()),
        None => None,
    }
}

/// What `Path::with_extension` gives for the path `p` and the extension `ext`.
pub uninterp spec fn with_extension_of(p: Seq<char>, ext: Seq<char>) -> Seq<char>;

/// Calls `Path::with_extension`: the path with its extension replaced by `ext`. The
/// result is named; the standard library's rules for it are not written out. The
/// standard library panics on an extension that holds a path separator, so `ext`
/// holds neither `/` nor `\\`.
#[verifier::external_body]
pub fn with_extension(p: &str, ext: &str) -> (r: String)
    requires
        !ext@.contains('/'),
        !ext@.contains('\\'),
    ensures
        r@ == with_extension_of(p@, ext@),
{
    std::path::Path::new(p).with_extension(ext).to_string_lossy().into_owned()
}

/// What `Path::parent` gives for the path `p`.
pub uninterp spec fn parent_of(p: Seq<char>) -> Option<Seq<char>>;

/// Calls `Path::parent`: the path without its final component, or `None` for a root or
/// an empty path. The result is named; the parser's rules are not written out.
#[verifier::external_body]
pub fn parent(p: &str) -> (r: Option<String>)
    ensures
        match r {
            Some(q) => parent_of(p@) == Some(q@),
            None => parent_of(p@) is None,
        },
{
    match std::path::Path::new(p).parent() {
        Some(q) => Some(q.to_string_lossy().into_owned()),
        None => None,
    }
}

/// What `Path::join` gives for the path `base` and the component `part`.
pub uninterp spec fn joined_path(base: Seq<char>, part: Seq<char>) -> Seq<char>;

/// Calls `Path::join`: `part` appended to `base` as a further component. The result
/// is named; the standard library's rules are not written out.
#[verifier::external_body]
pub fn join_path(base: &str, part: &str) -> (r: String)
    ensures
        r@ == joined_path(base@, part@),
{
    std::path::Path::new(base).join(part).to_string_lossy().into_owned()
}

/// Where a file name splits into stem and extension: at its last `.`, unless that
/// `.` is the first character (a dot file such as `.gitignore` has no extension).
pub open spec fn extension_dot(name: Seq<char>) -> Option<int> {
    match last_index(name, '.') {
        Some(i) => if i > 0 { Some(i) } else { None },
        None => None,
    }
}

/// The extension of a file name, as `Path::extension` documents it.
pub open spec fn name_extension(name: Seq<char>) -> Option<Seq<char>> {
    match extension_dot(name) {
        Some(i) => Some(name.skip(i + 1)),
        None => None,
    }
}

/// The stem of a file name, as `Path::file_stem` documents it.
pub open spec fn name_stem(name: Seq<char>) -> Seq<char> {
    match extension_dot(name) {
        Some(i) => name.take(i),
        None => name,
    }
}

/// The extension of the path `p`.
pub open spec fn extension_of(p: Seq<char>) -> Option<Seq<char>> {
    match file_name_of(p) {
        Some(name) => name_extension(name),
        None => None,
    }
}

/// The stem of the path `p`.
pub open spec fn stem_of(p: Seq<char>) -> Option<Seq<char>> {
    match file_name_of(p) {
        Some(name) => Some(name_stem(name)),
        None => None,
    }
}

/// The position of the `.` that parts a file name's stem from its extension.
pub fn extension_dot_of(name: &Vec<char>) -> (r: Option<usize>)
    ensures
        match r {
            Some(i) => extension_dot(name@) == Some(i as int),
            None => extension_dot(name@) is None,
        },
        r matches Some(i) ==> 0 < i < name.len() && name@[i as int] == '.',
{
    proof { lemma_last_index(name@, '.'); }
    let len = name.len();
    assert(name@.len() == len);
    let found = rfind(name, '.');
    match found {
        Some(i) => {
            assert(last_index(name@, '.') == Some(i as int));
            if i > 0 {
                Some(i)
            } else {
                None
            }
        },
        None => None,
    }
}

/// `Path::extension`.
pub fn extension(p: &str) -> (r: Option<Vec<char>>)
    ensures
        match r {
            Some(e) => extension_of(p@) == Some(e@),
            None => extension_of(p@) is None,
        },
{
    match file_name(p) {
        Some(name) => {
            let chars = chars_of(name.as_str());
            match extension_dot_of(&chars) {
                Some(i) => {
                    let e = slice_chars(&chars, i + 1, chars.len());
                    assert(e@ =~= chars@.skip(i + 1));
                    Some(e)
                },
                None => None,
            }
        },
        None => None,
    }
}

/// `Path::file_stem`.
pub fn stem(p: &str) -> (r: Option<Vec<char>>)
    ensures
        match r {
            Some(e) => stem_of(p@) == Some(e@),
            None => stem_of(p@) is None,
        },
{
    match file_name(p) {
        Some(name) => {
            let chars = chars_of(name.as_str());
            match extension_dot_of(&chars) {
                Some(i) => {
                    let e = slice_chars(&chars, 0, i);
                    assert(e@ =~= chars@.take(i as int));
                    Some(e)
                },
                None => {
                    assert(chars@.subrange(0, chars@.len() as int) =~= chars@);
                    Some(chars)
                },
            }
        },
        None => None,
    }
}

/// The extension of `p` in ASCII lower case, if it has one.
pub open spec fn lowered_extension_of(p: Seq<char>) -> Option<Seq<char>> {
    match extension_of(p) {
        Some(e) => Some(spec_ascii_lowercase(e)),
        None => None,
    }
}

/// The extension of `p` in ASCII lower case.
pub fn lowered_extension(p: &str) -> (r: Option<Vec<char>>)
    ensures
        match r {
            Some(e) => lowered_extension_of(p@) == Some(e@),
            None => lowered_extension_of(p@) is None,
        },
{
    match extension(p) {
        Some(e) => Some(ascii_lowercase(&e)),
        None => None,
    }
}

/// Whether the characters `name` are one of `list`.
pub open spec fn listed(list: Seq<&str>, name: Seq<char>) -> bool {
    exists|i: int| 0 <= i < list.len() && #[trigger] list[i]@ == name
}

/// Whether `name` is one of `list`.
pub fn is_listed(list: &[&str], name: &Vec<char>) -> (b: bool)
    ensures
        b == listed(list@, name@),
{
    let mut i: usize = 0;
    while i < list.len()
        invariant
            i <= list.len(),
            forall|j: int| 0 <= j < i ==> (#[trigger] list@[j])@ != name@,
        decreases list.len() - i,
    {
        let item = chars_of(list[i]);
        if same_chars(&item, name) {
            return true;
        }
        i = i + 1;
    }
    false
}

} // verus!
