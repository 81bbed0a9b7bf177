//! Painting over a part of a picture with what was hidden behind it. This build
//! carries no painting model; asking it to paint says so.
use vstd::prelude::*;
use crate::error::Error;
use crate::weights::{sum_bytes, total_bytes as weights_total, Weight};
use crate::text::owned;

verus! {

/// The side of the square the painter works on.
pub const SIDE: usize = 512;
/// The side of its latent square.
pub const LATENT: usize = 64;
/// The fewest steps worth taking.
pub const MIN_STEPS: usize = 4;
/// The most steps worth waiting for.
pub const MAX_STEPS: usize = 50;
/// The steps taken when nobody says otherwise.
pub const STEPS: usize = 20;

pub const REPO: &'static str = "stable-diffusion-v1-5/stable-diffusion-inpainting";
pub const REVISION: &'static str = "8a4288a76071f7280aedbdb3253bdb9e9d5d84bb";

/// The files the painter is made of.
pub fn weights() -> (r: Vec<Weight>)
    ensures
        r@.len() == 4,
        r@[0].bytes == 246_144_864 && r@[1].bytes == 167_335_342 && r@[2].bytes == 1_719_154_104
            && r@[3].bytes == 2_224_041,
{
    let mut r: Vec<Weight> = Vec::new();
    r.push(Weight { repo: REPO, revision: REVISION, file: "text_encoder/model.fp16.safetensors", bytes: 246_144_864 });
    r.push(Weight { repo: REPO, revision: REVISION, file: "vae/diffusion_pytorch_model.fp16.safetensors", bytes: 167_335_342 });
    r.push(Weight { repo: REPO, revision: REVISION, file: "unet/diffusion_pytorch_model.fp16.safetensors", bytes: 1_719_154_104 });
    r.push(Weight {
        repo: "openai/clip-vit-base-patch32",
        revision: "3d74acf9a28c67741b2f4f2ea7635f0aaf6f0268",
        file: "tokenizer.json",
        bytes: 2_224_041,
    });
    r
}

/// How many bytes the painter takes.
pub fn total_bytes() -> (n: u64)
    ensures
        n == 246_144_864 + 167_335_342 + 1_719_154_104 + 2_224_041,
{
    let w = weights();
    assert(sum_bytes(w@) == 246_144_864 + 167_335_342 + 1_719_154_104 + 2_224_041) by {
        reveal_with_fuel(sum_bytes, 5);
        assert(w@.drop_last() =~= seq![w@[0], w@[1], w@[2]]);
        assert(w@.drop_last().drop_last() =~= seq![w@[0], w@[1]]);
        assert(w@.drop_last().drop_last().drop_last() =~= seq![w@[0]]);
        assert(w@.drop_last().drop_last().drop_last().drop_last() =~= Seq::<Weight>::empty());
    }
    weights_total(w.as_slice())
}

/// A step count held between the fewest worth taking and the most worth waiting for.
pub fn steps_within(steps: usize) -> (r: usize)
    ensures
        r == (if steps < MIN_STEPS { MIN_STEPS } else if steps > MAX_STEPS { MAX_STEPS } else { steps }),
{
    if steps < MIN_STEPS {
        MIN_STEPS
    } else if steps > MAX_STEPS {
        MAX_STEPS
    } else {
        steps
    }
}

/// Fetching the painter, in a build made without it: it says so.
pub fn download(dir: &str) -> (r: Result<(), Error>)
    ensures
        r matches Err(Error::Diffuse(m)) && m@ == "this build was made without the painting model"@,
{
    Err(Error::Diffuse(owned("this build was made without the painting model")))
}

/// Painting, in a build made without the painter: it says so.
pub fn fill(dir: &str, image: &[u8], mask: &[u8], prompt: &str, steps: usize) -> (r: Result<Vec<u8>, Error>)
    ensures
        r matches Err(Error::Diffuse(m)) && m@ == "this build was made without the painting model"@,
{
    Err(Error::Diffuse(owned("this build was made without the painting model")))
}

} // verus!
