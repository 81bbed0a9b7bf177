//! The EXIF block of a picture as a source of dates: the date and time it was
//! taken, digitised or last written, the first that reads as a date winning.
use vstd::prelude::*;
use crate::dateparse::{parse_date, spec_parse_date};
use crate::moment::Moment;
use crate::naming::opt_chars;
use crate::paths::{is_listed, listed, lowered_extension, lowered_extension_of};
use crate::providers::{Detection, Provider};
use crate::text::owned;

verus! {

/// The extensions of files that may carry an EXIF block.
pub const EXTENSIONS: [&'static str; 24] = [
    "jpg", "jpeg", "jpe", "tif", "tiff", "png", "webp", "heic", "heif", "hif", "avif", "dng",
    "cr2", "cr3", "nef", "nrw", "arw", "sr2", "srf", "orf", "rw2", "raf", "pef", "3fr",
];

/// The tags read, in the order they are tried.
pub const TAG_NAMES: [&'static str; 3] = ["DateTimeOriginal", "DateTimeDigitized", "DateTime"];

/// Whether the file at `p` is of a kind that may carry an EXIF block.
pub open spec fn spec_wants_exif(p: Seq<char>) -> bool {
    match lowered_extension_of(p) {
        Some(e) => listed(EXTENSIONS@, e),
        None => false,
    }
}

/// Whether the file at `path` is of a kind that may carry an EXIF block; no other
/// file is read for one.
pub fn wants_exif(path: &str) -> (b: bool)
    ensures
        b == spec_wants_exif(path@),
{
    match lowered_extension(path) {
        Some(e) => is_listed(&EXTENSIONS, &e),
        None => false,
    }
}

/// The texts of optional strings.
pub open spec fn opt_texts(v: Seq<Option<String>>) -> Seq<Option<Seq<char>>> {
    Seq::new(v.len(), |i: int| opt_chars(v[i]))
}

/// What `kamadak-exif` reads of the three date tags of the primary image in the
/// picture `bytes`, each as the text its display writes; nothing where the block
/// cannot be read.
pub uninterp spec fn exif_date_texts(bytes: Seq<u8>) -> Option<Seq<Option<Seq<char>>>>;

/// Calls `exif::Reader::read_from_container` on `bytes` and, for the tags
/// `DateTimeOriginal`, `DateTimeDigitized` and `DateTime` of the primary image in
/// that order, `Field::display_value` written out, where the tag is there. Which
/// texts come out is named, not written out.
#[verifier::external_body]
fn date_texts(bytes: &[u8]) -> (r: Option<Vec<Option<String>>>)
    ensures
        match r {
            Some(v) => exif_date_texts(bytes@) == Some(opt_texts(v@)) && v@.len() == 3,
            None => exif_date_texts(bytes@) is None,
        },
{
    let exif = ::exif::Reader::new().read_from_container(&mut std::io::Cursor::new(bytes)).ok()?;
    let original = exif.get_field(::exif::Tag::DateTimeOriginal, ::exif::In::PRIMARY);
    let digitized = exif.get_field(::exif::Tag::DateTimeDigitized, ::exif::In::PRIMARY);
    let written = exif.get_field(::exif::Tag::DateTime, ::exif::In::PRIMARY);
    Some(vec![
        original.map(|f| f.display_value().to_string()),
        digitized.map(|f| f.display_value().to_string()),
        written.map(|f| f.display_value().to_string()),
    ])
}

/// The first of the tags, from `k` on, whose text reads as a date, with the date.
pub open spec fn first_dated(texts: Seq<Option<Seq<char>>>, k: int) -> Option<(int, Moment)>
    decreases 3 - k,
{
    if k < 0 || k >= 3 || k >= texts.len() {
        None
    } else {
        match texts[k] {
            Some(t) => match spec_parse_date(t) {
                Some(m) => Some((k, m)),
                None => first_dated(texts, k + 1),
            },
            None => first_dated(texts, k + 1),
        }
    }
}

/// The date the EXIF block of the picture `bytes` gives, and the tag it came from.
pub open spec fn spec_exif_date(bytes: Seq<u8>) -> Option<(int, Moment)> {
    match exif_date_texts(bytes) {
        Some(texts) => first_dated(texts, 0),
        None => None,
    }
}

/// The date the EXIF block of the picture `bytes` gives: the first of the tags
/// whose text reads as a date, named after that tag.
pub fn detect(bytes: &[u8]) -> (r: Option<Detection>)
    ensures
        match spec_exif_date(bytes@) {
            Some((k, m)) => r matches Some(d) && d.provider == Provider::Exif && d.taken == m
                && opt_chars(d.info) == Some(TAG_NAMES[k]@),
            None => r is None,
        },
{
    let texts = match date_texts(bytes) {
        Some(t) => t,
        None => return None,
    };
    let ghost ts = opt_texts(texts@);
    let mut k: usize = 0;
    while k < 3
        invariant
            k <= 3,
            texts@.len() == 3,
            ts == opt_texts(texts@),
            exif_date_texts(bytes@) == Some(ts),
            first_dated(ts, 0) == first_dated(ts, k as int),
        decreases 3 - k,
    {
        match &texts[k] {
            Some(t) => match parse_date(t.as_str()) {
                Some(m) => return Some(Detection { provider: Provider::Exif, info: Some(owned(TAG_NAMES[k])), taken: m }),
                None => {},
            },
            None => {},
        }
        k = k + 1;
    }
    None
}

} // verus!
