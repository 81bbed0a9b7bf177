//! The vision model as a source of dates: which files it can look at, and the date
//! its reading gives.
use vstd::prelude::*;
use crate::paths::{is_listed, listed, lowered_extension, lowered_extension_of};
use crate::ai::prompt::Reading;
use crate::naming::opt_chars;
use crate::text::owned;
use super::{Detection, Provider};

verus! {

/// The formats the vision model can decode.
pub const READABLE: [&'static str; 9] = ["jpg", "jpeg", "jpe", "png", "webp", "tif", "tiff", "bmp", "gif"];

/// Whether the vision model can look at the file at `path`: its extension, in any
/// case, is one of the formats it decodes.
pub fn readable(path: &str) -> (b: bool)
    ensures
        b == match lowered_extension_of(path@) {
            Some(e) => listed(READABLE@, e),
            None => false,
        },
{
    match lowered_extension(path) {
        Some(e) => is_listed(&READABLE, &e),
        None => false,
    }
}

/// Turns a reading the model is sure of into a detection from the vision source,
/// with where the date was read, or a plain note when the model did not say.
pub fn into_detection(reading: &Reading) -> (r: Option<Detection>)
    ensures
        match reading.taken {
            None => r is None,
            Some(t) => r matches Some(d) && d.provider == Provider::Vision && d.taken == t
                && opt_chars(d.info) == match opt_chars(reading.date_source) {
                    Some(s) => Some(s),
                    None => Some("read from the picture"@),
                },
        },
{
    let taken = match reading.taken {
        Some(t) => t,
        None => return None,
    };
    let info = match &reading.date_source {
        Some(s) => owned(s.as_str()),
        None => owned("read from the picture"),
    };
    Some(Detection { provider: Provider::Vision, info: Some(info), taken })
}

} // verus!
