//! The face recognition model: its credit, its weights file, and the shape of the
//! network it is loaded into.
use vstd::prelude::*;

verus! {

/// Who made the face recognition model, as its licence asks it to be said.
pub const CREDIT: &'static str = "Face recognition by SFace, Apache 2.0, Copyright (c) 2021 Zhong Yaoyao, Deng Weihong";
/// The file its weights are kept in.
pub const FILE_NAME: &'static str = "sface.safetensors";
/// How many bytes the weights take.
pub const BYTES: u64 = 38_682_864;
/// The side of the square face the model reads, in pixels.
pub const SIDE: usize = 112;
/// How many numbers describe a face.
pub const EMBEDDING: usize = 128;

/// The blocks of the network, each with the planes it takes, the planes it gives and
/// the step it takes across the picture.
pub const PLAN: [(usize, usize, usize); 13] = [
    (32, 64, 1),
    (64, 128, 2),
    (128, 128, 1),
    (128, 256, 2),
    (256, 256, 1),
    (256, 512, 2),
    (512, 512, 1),
    (512, 512, 1),
    (512, 512, 1),
    (512, 512, 1),
    (512, 512, 1),
    (512, 1024, 2),
    (1024, 1024, 1),
];

} // verus!
