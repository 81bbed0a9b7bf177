//! Where the face models live. This build carries no face detector; asking it to
//! look says so.
use vstd::prelude::*;
use crate::error::Error;
use crate::paths::{join_path, joined_path};
use crate::text::owned;

verus! {

/// Who made the face detector, as its licence asks it to be said.
pub const CREDIT: &'static str = "Face detection by YuNet, MIT licensed, Copyright (c) 2020 Shiqi Yu <shiqi.yu@gmail.com>";
/// Who made the face recogniser, as its licence asks it to be said.
pub const KNOWING_CREDIT: &'static str = "Face recognition by SFace, Apache 2.0, Copyright (c) 2021 Zhong Yaoyao, Deng Weihong";

/// The file of the face detector.
pub const FINDING_FILE: &'static str = "yunet.safetensors";
/// The file of the face recogniser.
pub const KNOWING_FILE: &'static str = "sface.safetensors";

/// Whether this build carries the face models: it does not.
pub fn built_in() -> (b: bool)
    ensures
        !b,
{
    false
}

/// Where the face detector is kept in `dir`.
pub fn finding_at(dir: &str) -> (r: String)
    ensures
        r@ == joined_path(dir@, FINDING_FILE@),
{
    join_path(dir, FINDING_FILE)
}

/// Where the face recogniser is kept in `dir`.
pub fn knowing_at(dir: &str) -> (r: String)
    ensures
        r@ == joined_path(dir@, KNOWING_FILE@),
{
    join_path(dir, KNOWING_FILE)
}

/// The face detector, in a build made without it.
#[derive(Debug)]
pub struct Finder;

impl Finder {
    /// Loading the detector, in a build made without it: it says so.
    pub fn load(model: &str) -> (r: Result<Finder, Error>)
        ensures
            r matches Err(Error::Tagging(m)) && m@ == "this build was made without the face detector"@,
    {
        Err(Error::Tagging(owned("this build was made without the face detector")))
    }
}

} // verus!
