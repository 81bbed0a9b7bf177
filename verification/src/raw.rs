//! Raw camera files: which extensions they carry, and the JPEG preview that most of
//! them hide inside.
use vstd::prelude::*;
use crate::paths::{extension, extension_of, is_listed, listed};
use crate::text::{ascii_lowercase, chars_of, spec_ascii_lowercase};

verus! {

/// The extensions of the raw formats the library knows.
pub const RAW_EXTENSIONS: [&'static str; 15] = [
    "dng", "cr2", "cr3", "nef", "nrw", "arw", "sr2", "srf", "orf", "rw2", "raf", "pef", "3fr",
    "iiq", "erf",
];

/// Whether `e`, in any case, is the extension of a raw format.
pub open spec fn spec_is_raw_extension(e: Seq<char>) -> bool {
    listed(RAW_EXTENSIONS@, spec_ascii_lowercase(e))
}

/// Whether the path `p` ends in the extension of a raw format.
pub open spec fn spec_is_raw(p: Seq<char>) -> bool {
    match extension_of(p) {
        Some(e) => spec_is_raw_extension(e),
        None => false,
    }
}

/// Whether `extension`, in any case, names a raw format.
pub fn is_raw_extension(extension: &str) -> (b: bool)
    ensures
        b == spec_is_raw_extension(extension@),
{
    let e = chars_of(extension);
    is_listed(&RAW_EXTENSIONS, &ascii_lowercase(&e))
}

/// Whether the file at `path` is a raw camera file, by its extension.
pub fn is_raw(path: &str) -> (b: bool)
    ensures
        b == spec_is_raw(path@),
{
    match extension(path) {
        Some(e) => is_listed(&RAW_EXTENSIONS, &ascii_lowercase(&e)),
        None => false,
    }
}


/// The most of a raw file that is searched for previews, in bytes.
pub const SCAN_LIMIT: usize = 64 * 1024 * 1024;
/// A JPEG shorter than this is a thumbnail, not a preview.
pub const MIN_PREVIEW_BYTES: usize = 1024;
/// How many previews are kept, largest first.
pub const MAX_CANDIDATES: usize = 8;

/// Where the JPEG that has a start marker before `from` ends: just past the first
/// end-of-image marker (`FF D9`) at or after `from`.
pub open spec fn end_mark(body: Seq<u8>, from: int) -> Option<int>
    decreases body.len() - from,
{
    if from < 0 || from + 1 >= body.len() {
        None
    } else if body[from] == 0xFF && body[from + 1] == 0xD9 {
        Some(from + 2)
    } else {
        end_mark(body, from + 1)
    }
}

pub proof fn lemma_end_mark(body: Seq<u8>, from: int)
    ensures
        end_mark(body, from) matches Some(e) ==> from + 2 <= e <= body.len(),
    decreases body.len() - from,
{
    if !(from < 0 || from + 1 >= body.len()) && !(body[from] == 0xFF && body[from + 1] == 0xD9) {
        lemma_end_mark(body, from + 1);
    }
}

/// Whether a JPEG start (`FF D8 FF`) begins at `at`.
pub open spec fn starts_jpeg(body: Seq<u8>, at: int) -> bool {
    body[at] == 0xFF && body[at + 1] == 0xD8 && body[at + 2] == 0xFF
}

/// The embedded JPEGs found by scanning `body` from `at`, as start and end: at each
/// JPEG start whose end can be found, the picture up to that end (kept when it is at
/// least `MIN_PREVIEW_BYTES` long) and the scan goes on after it; anywhere else the
/// scan moves on by one byte.
pub open spec fn found_from(body: Seq<u8>, at: int) -> Seq<(int, int)>
    decreases body.len() - at,
{
    if at < 0 || at + 3 >= body.len() {
        Seq::empty()
    } else if starts_jpeg(body, at) && end_mark(body, at + 2) is Some {
        let end = end_mark(body, at + 2)->0;
        proof {
            lemma_end_mark(body, at + 2);
        }
        (if end - at >= MIN_PREVIEW_BYTES { seq![(at, end)] } else { Seq::empty() }) + found_from(body, end)
    } else {
        found_from(body, at + 1)
    }
}

/// The longest of the spans `s`, the first of them where several are longest.
pub open spec fn longest(s: Seq<(int, int)>) -> Option<(int, int)>
    decreases s.len(),
{
    if s.len() == 0 {
        None
    } else {
        match longest(s.drop_last()) {
            None => Some(s.last()),
            Some(b) => if s.last().1 - s.last().0 > b.1 - b.0 {
                Some(s.last())
            } else {
                Some(b)
            },
        }
    }
}

/// Where the JPEG starting before `from` ends.
fn end_of_image(body: &[u8], from: usize) -> (r: Option<usize>)
    ensures
        match r {
            Some(e) => end_mark(body@, from as int) == Some(e as int),
            None => end_mark(body@, from as int) is None,
        },
{
    let mut at = from;
    while at < body.len() && at + 1 < body.len()
        invariant
            from <= at,
            end_mark(body@, from as int) == end_mark(body@, at as int),
        decreases body.len() - at,
    {
        if body[at] == 0xFF && body[at + 1] == 0xD9 {
            return Some(at + 2);
        }
        at = at + 1;
    }
    None
}

/// The largest JPEG preview hidden in the raw file whose bytes are `body`: of the
/// embedded pictures long enough to be a preview, the longest, the first of them
/// where several are longest. The caller reads at most `SCAN_LIMIT` bytes of the file.
pub fn preview_bytes(body: &[u8]) -> (r: Option<Vec<u8>>)
    ensures
        match r {
            Some(v) => exists|s: int, e: int|
                longest(found_from(body@, 0)) == Some((s, e)) && 0 <= s <= e <= body@.len() && #[trigger] body@.subrange(s, e) == v@,
            None => longest(found_from(body@, 0)) is None,
        },
{
    let mut at: usize = 0;
    let mut best: Option<(usize, usize)> = None;
    let ghost mut seen: Seq<(int, int)> = Seq::empty();
    while at < body.len() && body.len() - at > 3
        invariant
            at <= body@.len(),
            found_from(body@, 0) == seen + found_from(body@, at as int),
            match best {
                Some((s, e)) => longest(seen) == Some((s as int, e as int)) && s <= e <= body@.len(),
                None => longest(seen) is None,
            },
        decreases body.len() - at,
    {
        let mut moved = false;
        if body[at] == 0xFF && body[at + 1] == 0xD8 && body[at + 2] == 0xFF {
            match end_of_image(body, at + 2) {
                Some(end) => {
                    proof { lemma_end_mark(body@, at + 2); }
                    let ghost rest = found_from(body@, end as int);
                    if end - at >= MIN_PREVIEW_BYTES {
                        let ghost before = seen;
                        proof {
                            seen = seen.push((at as int, end as int));
                            assert(seen.drop_last() =~= before);
                            assert(before + found_from(body@, at as int) =~= seen + rest);
                        }
                        best = match best {
                            None => Some((at, end)),
                            Some((s, e)) => if end - at > e - s { Some((at, end)) } else { Some((s, e)) },
                        };
                    } else {
                        assert(seen + found_from(body@, at as int) =~= seen + rest);
                    }
                    at = end;
                    moved = true;
                },
                None => {},
            }
        }
        if !moved {
            at = at + 1;
        }
    }
    proof {
        assert(found_from(body@, at as int) =~= Seq::<(int, int)>::empty());
        assert(seen + found_from(body@, at as int) =~= seen);
    }
    match best {
        Some((s, e)) => {
            let mut v: Vec<u8> = Vec::new();
            let mut k = s;
            while k < e
                invariant
                    s <= k <= e <= body@.len(),
                    v@ == body@.subrange(s as int, k as int),
                decreases e - k,
            {
                v.push(body[k]);
                k = k + 1;
                assert(v@ =~= body@.subrange(s as int, k as int));
            }
            Some(v)
        },
        None => None,
    }
}

} // verus!
