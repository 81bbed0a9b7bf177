//! What can go wrong in the library, as plain values, and how each is told.
use vstd::prelude::*;
use crate::text::{chars_of, decimal, decimal_of, extend, extend_str, owned, string_of};

verus! {

/// The ways a request to the library can be refused.
#[derive(Debug, Clone, PartialEq, Eq)]
pub enum Error {
    /// A plan file with a line that cannot be read.
    MalformedPlan { line: usize, message: String },
    /// The copy could not start its workers.
    ThreadPool(String),
    /// A plan file without its header.
    MissingPlanHeader,
    /// A plan written by a version this one cannot read.
    UnsupportedPlanVersion(u32),
    /// A folder or name pattern that cannot be read.
    InvalidFolderPattern(String),
    /// A source path without a file name.
    InvalidSourcePath(String),
    /// Every name a file could take at its destination is taken.
    DestinationExhausted(String),
    /// A plan that has no destination folder yet.
    NoDestination,
    /// The work was stopped on request.
    Cancelled,
    /// A file that cannot be turned without re-encoding it.
    RotationNotLossless(String),
    /// A file that could not be turned.
    Rotation { path: String, message: String },
    /// The tagging model cannot do what was asked.
    Tagging(String),
    /// The model that rights pictures cannot do what was asked.
    Upright(String),
    /// The painter cannot do what was asked.
    Diffuse(String),
    /// A download cannot be made.
    Download(String),
    /// The depth model cannot do what was asked.
    Depth(String),
    /// The face models cannot do what was asked.
    Faces(String),
    /// The quality model cannot do what was asked.
    Quality(String),
    /// The vision model cannot do what was asked.
    Ai(String),
    /// The vision model is switched off.
    AiDisabled,
}

/// How an error is told to a person.
pub open spec fn spec_message(e: Error) -> Seq<char> {
    match e {
        Error::MalformedPlan { line, message } => "malformed plan file at line "@ + decimal(line as nat) + ": "@ + message@,
        Error::ThreadPool(m) => "could not start the copy thread pool: "@ + m@,
        Error::MissingPlanHeader => "plan file has no header record"@,
        Error::UnsupportedPlanVersion(v) => "plan format version "@ + decimal(v as nat) + " is not supported"@,
        Error::InvalidFolderPattern(m) => "invalid folder pattern: "@ + m@,
        Error::InvalidSourcePath(p) => "source path has no file name: "@ + p@,
        Error::DestinationExhausted(p) => "could not find a free destination name for "@ + p@,
        Error::NoDestination => "this plan has no destination folder yet"@,
        Error::Cancelled => "cancelled"@,
        Error::RotationNotLossless(p) => p@ + " cannot be turned without re-encoding it"@,
        Error::Rotation { path, message } => path@ + ": "@ + message@,
        Error::Tagging(m) => m@,
        Error::Upright(m) => m@,
        Error::Diffuse(m) => m@,
        Error::Download(m) => m@,
        Error::Depth(m) => m@,
        Error::Faces(m) => m@,
        Error::Quality(m) => m@,
        Error::Ai(m) => m@,
        Error::AiDisabled => "the vision model is switched off"@,
    }
}

fn after(head: &str, tail: &str) -> (r: String)
    ensures
        r@ == head@ + tail@,
{
    let mut v = chars_of(head);
    extend_str(&mut v, tail);
    string_of(&v)
}

impl Error {
    /// The error as a person reads it.
    pub fn message(&self) -> (r: String)
        ensures
            r@ == spec_message(*self),
    {
        match self {
            Error::MalformedPlan { line, message } => {
                let mut v = chars_of("malformed plan file at line ");
                extend(&mut v, &decimal_of(*line as u64));
                extend_str(&mut v, ": ");
                extend_str(&mut v, message.as_str());
                string_of(&v)
            },
            Error::ThreadPool(m) => after("could not start the copy thread pool: ", m.as_str()),
            Error::MissingPlanHeader => owned("plan file has no header record"),
            Error::UnsupportedPlanVersion(n) => {
                let mut v = chars_of("plan format version ");
                extend(&mut v, &decimal_of(*n as u64));
                extend_str(&mut v, " is not supported");
                string_of(&v)
            },
            Error::InvalidFolderPattern(m) => after("invalid folder pattern: ", m.as_str()),
            Error::InvalidSourcePath(p) => after("source path has no file name: ", p.as_str()),
            Error::DestinationExhausted(p) => after("could not find a free destination name for ", p.as_str()),
            Error::NoDestination => owned("this plan has no destination folder yet"),
            Error::Cancelled => owned("cancelled"),
            Error::RotationNotLossless(p) => after(p.as_str(), " cannot be turned without re-encoding it"),
            Error::Rotation { path, message } => {
                let mut v = chars_of(path.as_str());
                extend_str(&mut v, ": ");
                extend_str(&mut v, message.as_str());
                string_of(&v)
            },
            Error::Tagging(m) | Error::Upright(m) | Error::Diffuse(m) | Error::Download(m) | Error::Depth(m)
            | Error::Faces(m) | Error::Quality(m) | Error::Ai(m) => owned(m.as_str()),
            Error::AiDisabled => owned("the vision model is switched off"),
        }
    }
}

} // verus!
