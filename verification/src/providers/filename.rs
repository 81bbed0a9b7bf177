//! The file name as a source of dates: a date written in the name itself, never
//! in the folders above it.
use vstd::prelude::*;
use crate::dateparse::{parse_date, spec_parse_date};
use crate::naming::opt_chars;
use crate::paths::{file_name, file_name_of};
use super::{Detection, Provider};

verus! {

/// The date written in the name of the file at `path`, with the name as the note.
pub fn detect(path: &str) -> (r: Option<Detection>)
    ensures
        match file_name_of(path@) {
            None => r is None,
            Some(name) => match spec_parse_date(name) {
                Some(m) => r matches Some(d) && d.provider == Provider::Filename && d.taken == m
                    && opt_chars(d.info) == Some(name),
                None => r is None,
            },
        },
{
    let name = match file_name(path) {
        Some(n) => n,
        None => return None,
    };
    match parse_date(name.as_str()) {
        Some(taken) => Some(Detection { provider: Provider::Filename, info: Some(name), taken }),
        None => None,
    }
}

} // verus!
