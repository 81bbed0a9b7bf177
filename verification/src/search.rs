//! The search index of a plan, kept in a file beside it.
use vstd::prelude::*;
use crate::paths::{with_extension, with_extension_of};

verus! {

/// The file that keeps the search index of the plan at `plan_path`: the plan's path
/// with the extension `search.bin`.
pub fn index_path(plan_path: &str) -> (r: String)
    ensures
        r@ == with_extension_of(plan_path@, "search.bin"@),
{
    proof {
        reveal_strlit("search.bin");
    }
    with_extension(plan_path, "search.bin")
}

} // verus!
