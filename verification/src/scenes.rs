//! What the vision model saw in each picture, kept in a file beside the plan.
use vstd::prelude::*;
use crate::paths::{with_extension, with_extension_of};

verus! {

/// The file that keeps the scenes of the plan at `plan_path`: the plan's path with
/// the extension `scenes.json`.
pub fn scenes_path(plan_path: &str) -> (r: String)
    ensures
        r@ == with_extension_of(plan_path@, "scenes.json"@),
{
    proof {
        reveal_strlit("scenes.json");
    }
    with_extension(plan_path, "scenes.json")
}

} // verus!
