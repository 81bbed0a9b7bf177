//! How far away each part of a picture is, as a small grid. This build carries no
//! depth model; asking it for one says so.
use vstd::prelude::*;
use crate::error::Error;
use crate::weights::{sum_bytes, total_bytes as weights_total, Weight};
use crate::text::owned;

verus! {

/// The side of the square the model looks at.
pub const IMAGE_SIZE: usize = 518;
/// The smallest edge a grid may have.
pub const MIN_EDGE: u32 = 64;
/// The largest edge a grid may have.
pub const MAX_EDGE: u32 = 384;

/// The files the depth model is made of.
pub fn weights() -> (r: Vec<Weight>)
    ensures
        r@.len() == 2,
        r@[0].bytes == 91_318_288 && r@[1].bytes == 99_165_428,
{
    let mut r: Vec<Weight> = Vec::new();
    r.push(Weight {
        repo: "lmz/candle-dino-v2",
        revision: "550d8ab8dc45ae1e23815176ea881ee3dfd47627",
        file: "dinov2_vits14.safetensors",
        bytes: 91_318_288,
    });
    r.push(Weight {
        repo: "jeroenvlek/depth-anything-v2-safetensors",
        revision: "a8cd5eb93485537f612b31b78864b41f659b245d",
        file: "depth_anything_v2_vits.safetensors",
        bytes: 99_165_428,
    });
    r
}

/// How many bytes the depth model takes.
pub fn total_bytes() -> (n: u64)
    ensures
        n == 91_318_288 + 99_165_428,
{
    let w = weights();
    assert(sum_bytes(w@) == 91_318_288 + 99_165_428) by {
        reveal_with_fuel(sum_bytes, 5);
        assert(w@.drop_last() =~= seq![w@[0]]);
        assert(w@.drop_last().drop_last() =~= Seq::<Weight>::empty());
    }
    weights_total(w.as_slice())
}

/// A depth reading: one byte per cell, nearest brightest, row by row.
#[derive(Debug, Clone, PartialEq, Eq)]
pub struct DepthGrid {
    pub width: u32,
    pub height: u32,
    pub data: Vec<u8>,
}

/// `edge` held between the smallest and the largest edge.
pub open spec fn clamped_edge(edge: u32) -> int {
    if edge < MIN_EDGE {
        MIN_EDGE as int
    } else if edge > MAX_EDGE {
        MAX_EDGE as int
    } else {
        edge as int
    }
}

/// The grid for a picture `width` by `height`: its longer side gets the (clamped)
/// edge, its shorter side the same share of it rounded down but at least one cell;
/// a picture without area gets a square.
pub open spec fn spec_grid_size(width: u32, height: u32, edge: u32) -> (int, int) {
    let e = clamped_edge(edge);
    if width == 0 || height == 0 {
        (e, e)
    } else if width >= height {
        let scaled = e * height / width as int;
        (e, if scaled < 1 { 1 } else { scaled })
    } else {
        let scaled = e * width / height as int;
        (if scaled < 1 { 1 } else { scaled }, e)
    }
}

/// The size of the grid for a picture `width` by `height`.
pub fn grid_size(width: u32, height: u32, edge: u32) -> (r: (u32, u32))
    ensures
        (r.0 as int, r.1 as int) == spec_grid_size(width, height, edge),
{
    let e: u32 = if edge < MIN_EDGE { MIN_EDGE } else if edge > MAX_EDGE { MAX_EDGE } else { edge };
    if width == 0 || height == 0 {
        return (e, e);
    }
    if width >= height {
        assert((e as u64) * (height as u64) <= 0xffff_ffffu64 * 0xffff_ffffu64) by (nonlinear_arith)
            requires e <= 0xffff_ffffu32, height <= 0xffff_ffffu32;
        let prod: u64 = e as u64 * height as u64;
        let scaled: u64 = prod / width as u64;
        proof {
            let ghost ei: int = e as int;
            let ghost hi: int = height as int;
            let ghost wi: int = width as int;
            assert(ei * hi / wi <= ei) by (nonlinear_arith)
                requires 0 <= hi <= wi, wi > 0, ei >= 0;
        }
        let s: u32 = scaled as u32;
        (e, if s < 1 { 1 } else { s })
    } else {
        assert((e as u64) * (width as u64) <= 0xffff_ffffu64 * 0xffff_ffffu64) by (nonlinear_arith)
            requires e <= 0xffff_ffffu32, width <= 0xffff_ffffu32;
        let prod: u64 = e as u64 * width as u64;
        let scaled: u64 = prod / height as u64;
        proof {
            let ghost ei: int = e as int;
            let ghost hi: int = height as int;
            let ghost wi: int = width as int;
            assert(ei * wi / hi <= ei) by (nonlinear_arith)
                requires 0 <= wi < hi, hi > 0, ei >= 0;
        }
        let s: u32 = scaled as u32;
        (if s < 1 { 1 } else { s }, e)
    }
}

/// Fetching the depth model, in a build made without it: it says so.
pub fn download(dir: &str) -> (r: Result<(), Error>)
    ensures
        r matches Err(Error::Depth(m)) && m@ == "this build was made without the depth model"@,
{
    Err(Error::Depth(owned("this build was made without the depth model")))
}

/// Reading depth, in a build made without the model: it says so.
pub fn estimate(dir: &str, source: &str, edge: u32) -> (r: Result<DepthGrid, Error>)
    ensures
        r matches Err(Error::Depth(m)) && m@ == "this build was made without the depth model"@,
{
    Err(Error::Depth(owned("this build was made without the depth model")))
}

} // verus!
