//! Which pictures need the HEIF decoder rather than the ordinary one.
use vstd::prelude::*;
use crate::paths::{extension, extension_of, is_listed, listed};
use crate::text::{ascii_lowercase, chars_of, spec_ascii_lowercase};

verus! {

/// The extensions of HEIF pictures.
pub const HEIF_EXTENSIONS: [&'static str; 3] = ["heic", "heif", "hif"];

/// Whether `e`, in any case, is a HEIF extension.
pub open spec fn spec_is_heif_extension(e: Seq<char>) -> bool {
    listed(HEIF_EXTENSIONS@, spec_ascii_lowercase(e))
}

/// Whether `extension`, in any case, names a HEIF picture.
pub fn is_heif_extension(extension: &str) -> (b: bool)
    ensures
        b == spec_is_heif_extension(extension@),
{
    let e = chars_of(extension);
    is_listed(&HEIF_EXTENSIONS, &ascii_lowercase(&e))
}

/// Whether the file at `path` is a HEIF picture, by its extension.
pub fn is_heif(path: &str) -> (b: bool)
    ensures
        b == match extension_of(path@) {
            Some(e) => spec_is_heif_extension(e),
            None => false,
        },
{
    match extension(path) {
        Some(e) => is_listed(&HEIF_EXTENSIONS, &ascii_lowercase(&e)),
        None => false,
    }
}

} // verus!
