//! Which way a picture has to turn to stand upright, as the algebra of the eight
//! ways a rectangle can be laid down.
use vstd::prelude::*;

use crate::paths::{is_listed, lowered_extension, lowered_extension_of};

verus! {

/// The file extensions that a lossless JPEG turn accepts.
pub const LOSSLESS_EXTENSIONS: [&'static str; 3] = ["jpg", "jpeg", "jpe"];

/// One of the eight ways of laying a picture down: a number of quarter turns to the
/// right, with or without a mirror.
#[derive(Debug, Clone, Copy, PartialEq, Eq, Structural)]
pub enum Transform {
    Identity,
    Rotate90,
    Rotate180,
    Rotate270,
    FlipH,
    FlipV,
    Transpose,
    Transverse,
}

impl Default for Transform {
    fn default() -> (t: Transform)
        ensures
            t == Transform::Identity,
    {
        Transform::Identity
    }
}

/// The transform that rights a picture carrying the EXIF orientation `orientation`.
pub open spec fn spec_for_orientation(orientation: u16) -> Transform {
    if orientation == 2 {
        Transform::FlipH
    } else if orientation == 3 {
        Transform::Rotate180
    } else if orientation == 4 {
        Transform::FlipV
    } else if orientation == 5 {
        Transform::Transpose
    } else if orientation == 6 {
        Transform::Rotate90
    } else if orientation == 7 {
        Transform::Transverse
    } else if orientation == 8 {
        Transform::Rotate270
    } else {
        Transform::Identity
    }
}

/// A transform as its quarter turns (0 to 3) and whether it mirrors.
pub open spec fn spec_parts(t: Transform) -> (int, bool) {
    match t {
        Transform::Identity => (0, false),
        Transform::Rotate90 => (1, false),
        Transform::Rotate180 => (2, false),
        Transform::Rotate270 => (3, false),
        Transform::FlipH => (0, true),
        Transform::Transverse => (1, true),
        Transform::FlipV => (2, true),
        Transform::Transpose => (3, true),
    }
}

/// The transform made of `quarters` quarter turns (counted modulo four) and a mirror.
pub open spec fn spec_from_parts(quarters: int, mirrored: bool) -> Transform {
    let q = quarters % 4;
    if !mirrored {
        if q == 0 {
            Transform::Identity
        } else if q == 1 {
            Transform::Rotate90
        } else if q == 2 {
            Transform::Rotate180
        } else {
            Transform::Rotate270
        }
    } else {
        if q == 0 {
            Transform::FlipH
        } else if q == 1 {
            Transform::Transverse
        } else if q == 2 {
            Transform::FlipV
        } else {
            Transform::Transpose
        }
    }
}

/// `t` followed by `quarter_turns` more quarter turns to the right (negative: left).
pub open spec fn spec_turn(t: Transform, quarter_turns: int) -> Transform {
    spec_from_parts(spec_parts(t).0 + quarter_turns, spec_parts(t).1)
}

/// The words that say what a transform does to a picture.
pub open spec fn spec_describe(t: Transform) -> Seq<char> {
    match t {
        Transform::Identity => "left as it is"@,
        Transform::Rotate90 => "turned a quarter to the right"@,
        Transform::Rotate180 => "turned upside down"@,
        Transform::Rotate270 => "turned a quarter to the left"@,
        Transform::FlipH => "mirrored left to right"@,
        Transform::FlipV => "mirrored top to bottom"@,
        Transform::Transpose => "mirrored along the main diagonal"@,
        Transform::Transverse => "mirrored along the other diagonal"@,
    }
}

impl Transform {
    /// The transform that rights a picture with the EXIF orientation `orientation`;
    /// anything outside 2 to 8 needs no turn.
    pub fn for_orientation(orientation: u16) -> (t: Transform)
        ensures
            t == spec_for_orientation(orientation),
    {
        match orientation {
            2 => Transform::FlipH,
            3 => Transform::Rotate180,
            4 => Transform::FlipV,
            5 => Transform::Transpose,
            6 => Transform::Rotate90,
            7 => Transform::Transverse,
            8 => Transform::Rotate270,
            _ => Transform::Identity,
        }
    }

    /// The quarter turns and the mirror that make up this transform.
    pub fn parts(self) -> (r: (u8, bool))
        ensures
            r.0 as int == spec_parts(self).0,
            r.1 == spec_parts(self).1,
    {
        match self {
            Transform::Identity => (0, false),
            Transform::Rotate90 => (1, false),
            Transform::Rotate180 => (2, false),
            Transform::Rotate270 => (3, false),
            Transform::FlipH => (0, true),
            Transform::Transverse => (1, true),
            Transform::FlipV => (2, true),
            Transform::Transpose => (3, true),
        }
    }

    /// The transform made of `quarters` quarter turns and, if `mirrored`, a mirror.
    pub fn from_parts(quarters: u8, mirrored: bool) -> (t: Transform)
        ensures
            t == spec_from_parts(quarters as int, mirrored),
    {
        let q = quarters % 4;
        if !mirrored {
            if q == 0 {
                Transform::Identity
            } else if q == 1 {
                Transform::Rotate90
            } else if q == 2 {
                Transform::Rotate180
            } else {
                Transform::Rotate270
            }
        } else {
            if q == 0 {
                Transform::FlipH
            } else if q == 1 {
                Transform::Transverse
            } else if q == 2 {
                Transform::FlipV
            } else {
                Transform::Transpose
            }
        }
    }

    /// This transform, then `quarter_turns` quarter turns to the right (to the left
    /// when negative). A mirror that is there stays there.
    pub fn turn(self, quarter_turns: i8) -> (t: Transform)
        ensures
            t == spec_turn(self, quarter_turns as int),
    {
        let (quarters, mirrored) = self.parts();
        let sum: i16 = (quarters as i16) + (quarter_turns as i16);
        let r: i16 = sum % 4;
        let shifted: i16 = if r < 0 { r + 4 } else { r };
        assert(shifted as int == (quarters as int + quarter_turns as int) % 4);
        Transform::from_parts(shifted as u8, mirrored)
    }

    /// Whether the picture's width and height trade places (an odd number of turns).
    pub fn swaps_axes(self) -> (b: bool)
        ensures
            b == (spec_parts(self).0 % 2 == 1),
    {
        self.parts().0 % 2 == 1
    }

    /// Whether this transform leaves the picture as it is.
    pub fn is_identity(self) -> (b: bool)
        ensures
            b == (self == Transform::Identity),
    {
        self == Transform::Identity
    }

    /// What this transform does, in words.
    pub fn describe(self) -> (s: &'static str)
        ensures
            s@ == spec_describe(self),
    {
        match self {
            Transform::Identity => "left as it is",
            Transform::Rotate90 => "turned a quarter to the right",
            Transform::Rotate180 => "turned upside down",
            Transform::Rotate270 => "turned a quarter to the left",
            Transform::FlipH => "mirrored left to right",
            Transform::FlipV => "mirrored top to bottom",
            Transform::Transpose => "mirrored along the main diagonal",
            Transform::Transverse => "mirrored along the other diagonal",
        }
    }
}

/// Taking a transform apart and putting it back together gives the same transform.
pub proof fn law_parts_round_trip(t: Transform)
    ensures
        spec_from_parts(spec_parts(t).0, spec_parts(t).1) == t,
        0 <= spec_parts(t).0 < 4,
{
}

/// Turning by `a` and then by `b` is turning by `a + b`.
pub proof fn law_turns_add_up(t: Transform, a: int, b: int)
    ensures
        spec_turn(spec_turn(t, a), b) == spec_turn(t, a + b),
{
    let q = spec_parts(t).0;
    let m = spec_parts(t).1;
    let first = spec_turn(t, a);
    assert(spec_parts(first).0 == (q + a) % 4 && spec_parts(first).1 == m);
    assert(((q + a) % 4 + b) % 4 == (q + (a + b)) % 4) by (nonlinear_arith);
}

/// Four quarter turns in the same direction bring any transform back to itself.
pub proof fn law_four_quarter_turns_are_no_turn(t: Transform)
    ensures
        spec_turn(spec_turn(spec_turn(spec_turn(t, 1), 1), 1), 1) == t,
        spec_turn(t, 4) == t,
{
    law_turns_add_up(t, 1, 1);
    law_turns_add_up(t, 2, 1);
    law_turns_add_up(t, 3, 1);
}

/// A quarter turn to the left undoes a quarter turn to the right, and the other way round.
pub proof fn law_left_undoes_right(t: Transform)
    ensures
        spec_turn(spec_turn(t, 1), -1) == t,
        spec_turn(spec_turn(t, -1), 1) == t,
{
    law_turns_add_up(t, 1, -1);
    law_turns_add_up(t, -1, 1);
}

/// A turn never adds or removes a mirror, and a half turn never changes whether the
/// sides are swapped.
pub proof fn law_turns_keep_the_mirror(t: Transform, q: int)
    ensures
        spec_parts(spec_turn(t, q)).1 == spec_parts(t).1,
        spec_parts(spec_turn(t, 2)).0 % 2 == spec_parts(t).0 % 2,
{
}

/// Whether the characters `e` name an extension that the lossless path accepts.
pub open spec fn is_lossless_extension(e: Seq<char>) -> bool {
    e == "jpg"@ || e == "jpeg"@ || e == "jpe"@
}

/// Whether the file at `path` can be turned without re-encoding it: its extension,
/// in any case, is `jpg`, `jpeg` or `jpe`.
pub fn lossless_extension(path: &str) -> (b: bool)
    ensures
        b == (lowered_extension_of(path@) matches Some(e) && is_lossless_extension(e)),
{
    match lowered_extension(path) {
        Some(e) => {
            let b = is_listed(&LOSSLESS_EXTENSIONS, &e);
            proof {
                let list = LOSSLESS_EXTENSIONS@;
                if is_lossless_extension(e@) {
                    if e@ == "jpg"@ { assert(list[0]@ == e@); }
                    if e@ == "jpeg"@ { assert(list[1]@ == e@); }
                    if e@ == "jpe"@ { assert(list[2]@ == e@); }
                }
            }
            b
        },
        None => false,
    }
}

/// The size and content hash of a file that a turn wrote.
#[derive(Debug, Clone, PartialEq, Eq)]
pub struct Written {
    pub size: u64,
    pub hash: String,
}

/// What `kamadak-exif`, reading on past damage, finds as the first number of the
/// orientation tag of the primary image in the picture `bytes`.
pub uninterp spec fn exif_orientation(bytes: Seq<u8>) -> Option<u32>;

/// Calls `exif::Reader::read_from_container` with `continue_on_error`, keeping what
/// a partial result holds, then `get_uint(0)` of the primary image's `Orientation`
/// field. Which number comes out is named, not written out.
#[verifier::external_body]
fn orientation_number(bytes: &[u8]) -> (r: Option<u32>)
    ensures
        r == exif_orientation(bytes@),
{
    let mut reader = ::exif::Reader::new();
    reader.continue_on_error(true);
    let exif = match reader.read_from_container(&mut std::io::Cursor::new(bytes)) {
        Ok(exif) => exif,
        Err(::exif::Error::PartialResult(partial)) => partial.into_inner().0,
        Err(_) => return None,
    };
    exif.get_field(::exif::Tag::Orientation, ::exif::In::PRIMARY)?.value.get_uint(0)
}

/// The orientation the picture `bytes` records: the number its EXIF block holds if
/// it is one of the eight, upright (1) otherwise.
pub open spec fn spec_orientation(bytes: Seq<u8>) -> u16 {
    match exif_orientation(bytes) {
        Some(v) => if 1 <= v <= 8 { v as u16 } else { 1 },
        None => 1,
    }
}

/// The orientation the picture `bytes` records, upright where it records none.
pub fn read_orientation(bytes: &[u8]) -> (r: u16)
    ensures
        r == spec_orientation(bytes@),
        1 <= r <= 8,
{
    match orientation_number(bytes) {
        Some(v) => if 1 <= v && v <= 8 { v as u16 } else { 1 },
        None => 1,
    }
}

} // verus!
