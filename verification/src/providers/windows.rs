//! The Windows property store as a source of dates. Only Windows keeps one; on any
//! other system it has nothing to say.
use vstd::prelude::*;
use super::Detection;

verus! {

/// The date the Windows property store holds for `path`: on this system, none.
pub fn detect(path: &str) -> (r: Option<Detection>)
    ensures
        r is None,
{
    None
}

} // verus!
