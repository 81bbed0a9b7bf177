//! How good a picture looks. This build carries no rating model; asking it to rate
//! says so.
use vstd::prelude::*;
use crate::error::Error;
use crate::weights::{sum_bytes, total_bytes as weights_total, Weight};
use crate::text::{chars_of, owned};
use crate::paths::{is_listed, listed};

verus! {

/// Who made the rating model, as its licence asks it to be said.
pub const CREDIT: &'static str = "Rating by the LAION aesthetic predictor v1 over OpenAI CLIP, both MIT licensed, packaged by Shunsuke Kitada";

pub const REPO: &'static str = "shunk031/aesthetics-predictor-v1-vit-base-patch32";
pub const REVISION: &'static str = "79f02af186a06a53dce2f67b05f427f3d6a84b5e";

/// The side of the square the model looks at.
pub const SIDE: usize = 224;

/// The tags that once stood for a rating, before ratings had a place of their own.
pub const RETIRED_TAGS: [&'static str; 2] = ["a good picture", "a beautiful picture"];

/// The file the rating model is made of.
pub fn weights() -> (r: Vec<Weight>)
    ensures
        r@.len() == 1,
        r@[0].bytes == 351_423_476,
{
    let mut r: Vec<Weight> = Vec::new();
    r.push(Weight { repo: REPO, revision: REVISION, file: "model.safetensors", bytes: 351_423_476 });
    r
}

/// How many bytes the rating model takes.
pub fn total_bytes() -> (n: u64)
    ensures
        n == 351_423_476,
{
    let w = weights();
    assert(sum_bytes(w@) == 351_423_476) by {
        reveal_with_fuel(sum_bytes, 5);
        assert(w@.drop_last() =~= Seq::<Weight>::empty());
    }
    weights_total(w.as_slice())
}

/// Whether `tag` is one of the tags that once stood for a rating.
pub fn was_a_rating(tag: &str) -> (b: bool)
    ensures
        b == listed(RETIRED_TAGS@, tag@),
{
    let t = chars_of(tag);
    is_listed(&RETIRED_TAGS, &t)
}

/// Fetching the rating model, in a build made without it: it says so.
pub fn download(dir: &str) -> (r: Result<(), Error>)
    ensures
        r matches Err(Error::Tagging(m)) && m@ == "this build was made without the quality model"@,
{
    Err(Error::Tagging(owned("this build was made without the quality model")))
}

} // verus!
