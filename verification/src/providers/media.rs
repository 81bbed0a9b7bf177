//! Video and sound files as a source of dates: the boxes of the ISO base media
//! format, walked as bytes, to the wall-clock time a camera recorded or, failing
//! that, the creation time of the movie header.
use vstd::prelude::*;
use vstd::utf8::{decode_utf8, valid_utf8};
use chrono::{Datelike, Timelike};
use crate::moment::Moment;
use crate::paths::{is_listed, listed, lowered_extension, lowered_extension_of};
use crate::text::{chars_of, decimal, decimal_of, extend, extend_str, spec_trim, string_of, trim};

verus! {

/// The extensions of files in the ISO base media format.
pub const EXTENSIONS: [&'static str; 11] = [
    "mp4", "m4v", "m4a", "m4b", "m4p", "mov", "qt", "3gp", "3g2", "mj2", "f4v",
];

/// Media files count seconds from 1904-01-01, not from 1970-01-01.
pub const EPOCH_OFFSET_SECONDS: i64 = 2_082_844_800;
pub const MIN_UNIX: i64 = 0;
/// 2100-01-01 00:00:00.
pub const MAX_UNIX: i64 = 4_102_444_800;
/// The most boxes looked at side by side.
pub const MAX_SIBLINGS: usize = 512;
/// The names of the boxes read.
pub const MOOV: [u8; 4] = [0x6d, 0x6f, 0x6f, 0x76];
pub const MVHD: [u8; 4] = [0x6d, 0x76, 0x68, 0x64];
pub const META: [u8; 4] = [0x6d, 0x65, 0x74, 0x61];
pub const HDLR: [u8; 4] = [0x68, 0x64, 0x6c, 0x72];
pub const KEYS: [u8; 4] = [0x6b, 0x65, 0x79, 0x73];
pub const ILST: [u8; 4] = [0x69, 0x6c, 0x73, 0x74];
pub const FREE: [u8; 4] = [0x66, 0x72, 0x65, 0x65];
pub const DATA: [u8; 4] = [0x64, 0x61, 0x74, 0x61];

/// The key under which a camera records its wall-clock time.
pub const CREATION_KEY: &'static str = "com.apple.quicktime.creationdate";

/// Whether the file at `path` has the extension of a media file, in any case.
pub fn is_media(path: &str) -> (b: bool)
    ensures
        b == match lowered_extension_of(path@) {
            Some(e) => listed(EXTENSIONS@, e),
            None => false,
        },
{
    match lowered_extension(path) {
        Some(e) => is_listed(&EXTENSIONS, &e),
        None => false,
    }
}

// ---------------------------------------------------------------------------
// Boxes
// ---------------------------------------------------------------------------
/// The big-endian number four bytes at `p` spell.
pub open spec fn be32(d: Seq<u8>, p: int) -> int {
    d[p] * 0x100_0000 + d[p + 1] * 0x1_0000 + d[p + 2] * 0x100 + d[p + 3]
}

/// The big-endian number eight bytes at `p` spell.
pub open spec fn be64(d: Seq<u8>, p: int) -> int {
    be32(d, p) * 0x1_0000_0000 + be32(d, p + 4)
}

fn read32(d: &[u8], p: usize) -> (r: u32)
    requires
        p + 4 <= d@.len(),
    ensures
        r == be32(d@, p as int),
{
    let a = d[p] as u32;
    let b = d[p + 1] as u32;
    let c = d[p + 2] as u32;
    let e = d[p + 3] as u32;
    a * 0x100_0000 + b * 0x1_0000 + c * 0x100 + e
}

fn read64(d: &[u8], p: usize) -> (r: u64)
    requires
        p + 8 <= d@.len(),
    ensures
        r == be64(d@, p as int),
{
    let n = d.len();
    let high = read32(d, p) as u64;
    let low = read32(d, p + 4) as u64;
    high * 0x1_0000_0000 + low
}

/// What the header at the start of a box says: go into it, go past it, or stop.
#[derive(Debug, Clone, Copy, PartialEq, Eq, Structural)]
pub enum BoxStep {
    /// The box sought: where its content starts and where the box ends.
    Found { start: u64, end: u64 },
    /// Another box: where the next one starts.
    Next { pos: u64 },
    /// No header can be read here, or it does not fit.
    Stop,
}

/// What the header `h`, read at `pos` before `end`, says when `want` is sought. A
/// size of 0 runs the box to `end`; a size of 1 is followed by a 64-bit size.
pub open spec fn step_box(h: Seq<u8>, pos: int, end: int, want: Seq<u8>) -> BoxStep {
    if pos + 8 > end || h.len() < 8 {
        BoxStep::Stop
    } else {
        let declared = be32(h, 0);
        let kind = h.subrange(4, 8);
        let sized = if declared == 0 {
            Some((end - pos, 8int))
        } else if declared == 1 {
            if h.len() < 16 { None } else { Some((be64(h, 8), 16int)) }
        } else {
            Some((declared, 8int))
        };
        match sized {
            None => BoxStep::Stop,
            Some((total, header)) => if total < header || pos + total > end {
                BoxStep::Stop
            } else if kind == want {
                BoxStep::Found { start: (pos + header) as u64, end: (pos + total) as u64 }
            } else {
                BoxStep::Next { pos: (pos + total) as u64 }
            },
        }
    }
}

/// What the header read at `pos` says; `header` holds the bytes from `pos` on,
/// sixteen of them when the file has that many.
pub fn box_step(header: &[u8], pos: u64, end: u64, want: &[u8; 4]) -> (r: BoxStep)
    ensures
        r == step_box(header@, pos as int, end as int, want@),
{
    if pos > end || end - pos < 8 || header.len() < 8 {
        return BoxStep::Stop;
    }
    let declared = read32(header, 0);
    let (total, size): (u64, u64) = if declared == 0 {
        (end - pos, 8)
    } else if declared == 1 {
        if header.len() < 16 {
            return BoxStep::Stop;
        }
        (read64(header, 8), 16)
    } else {
        (declared as u64, 8)
    };
    if total < size || total > end - pos {
        return BoxStep::Stop;
    }
    let same = header[4] == want[0] && header[5] == want[1] && header[6] == want[2] && header[7] == want[3];
    proof {
        assert(same == (header@.subrange(4, 8) =~= want@));
    }
    if same {
        BoxStep::Found { start: pos + size, end: pos + total }
    } else {
        BoxStep::Next { pos: pos + total }
    }
}

/// The bytes of `d` from `pos` on, sixteen at most.
pub open spec fn window(d: Seq<u8>, pos: int) -> Seq<u8> {
    if pos >= d.len() || pos < 0 {
        seq![]
    } else if pos + 16 <= d.len() {
        d.subrange(pos, pos + 16)
    } else {
        d.subrange(pos, d.len() as int)
    }
}

fn window_at(d: &[u8], pos: u64) -> (r: Vec<u8>)
    ensures
        r@ == window(d@, pos as int),
{
    let mut out: Vec<u8> = Vec::new();
    if pos >= d.len() as u64 {
        return out;
    }
    let start = pos as usize;
    let stop = if d.len() - start >= 16 { start + 16 } else { d.len() };
    let mut i = start;
    while i < stop
        invariant
            start <= i <= stop <= d@.len(),
            out@ == d@.subrange(start as int, i as int),
        decreases stop - i,
    {
        out.push(d[i]);
        assert(out@ =~= d@.subrange(start as int, i + 1));
        i = i + 1;
    }
    out
}

/// The box `want` among the boxes side by side from `pos` to `end`, looking at
/// `fuel` boxes at most: where its content starts and where it ends.
pub open spec fn seek_box(d: Seq<u8>, pos: int, end: int, want: Seq<u8>, fuel: nat) -> Option<(u64, u64)>
    decreases fuel,
{
    if fuel == 0 {
        None
    } else {
        match step_box(window(d, pos), pos, end, want) {
            BoxStep::Found { start, end: stop } => Some((start, stop)),
            BoxStep::Next { pos: next } => seek_box(d, next as int, end, want, (fuel - 1) as nat),
            BoxStep::Stop => None,
        }
    }
}

/// The box `want` among the boxes of `d` side by side from `start` to `end`.
pub fn find_box(d: &[u8], start: u64, end: u64, want: &[u8; 4]) -> (r: Option<(u64, u64)>)
    ensures
        r == seek_box(d@, start as int, end as int, want@, MAX_SIBLINGS as nat),
{
    let mut pos = start;
    let mut fuel: usize = MAX_SIBLINGS;
    while fuel > 0
        invariant
            fuel <= MAX_SIBLINGS,
            seek_box(d@, start as int, end as int, want@, MAX_SIBLINGS as nat)
                == seek_box(d@, pos as int, end as int, want@, fuel as nat),
        decreases fuel,
    {
        let h = window_at(d, pos);
        match box_step(h.as_slice(), pos, end, want) {
            BoxStep::Found { start: s, end: e } => return Some((s, e)),
            BoxStep::Next { pos: next } => {
                pos = next;
            },
            BoxStep::Stop => return None,
        }
        fuel = fuel - 1;
    }
    None
}

/// The bytes of `d` from `p` to `p + n`, if it has them.
pub open spec fn bytes_at(d: Seq<u8>, p: int, n: int) -> Option<Seq<u8>> {
    if 0 <= p && 0 <= n && p + n <= d.len() { Some(d.subrange(p, p + n)) } else { None }
}

/// Where the boxes inside a `meta` box start: at once when the first holds a box
/// name a `meta` box holds, else after four bytes of version and flags.
pub open spec fn spec_meta_content(d: Seq<u8>, meta_start: int) -> Option<u64> {
    match bytes_at(d, meta_start, 8) {
        None => None,
        Some(h) => {
            let name = h.subrange(4, 8);
            if name == HDLR@ || name == KEYS@ || name == ILST@ || name == FREE@ {
                Some(meta_start as u64)
            } else {
                Some((meta_start + 4) as u64)
            }
        },
    }
}

fn name_is(d: &[u8], p: usize, n: &[u8; 4]) -> (b: bool)
    requires
        p + 4 <= d@.len(),
    ensures
        b == (d@.subrange(p as int, p + 4) == n@),
{
    let r = d[p] == n[0] && d[p + 1] == n[1] && d[p + 2] == n[2] && d[p + 3] == n[3];
    proof {
        if r {
            assert(d@.subrange(p as int, p + 4) =~= n@);
        } else if d@.subrange(p as int, p + 4) == n@ {
            assert(d@.subrange(p as int, p + 4)[0] == n@[0]);
            assert(d@.subrange(p as int, p + 4)[1] == n@[1]);
            assert(d@.subrange(p as int, p + 4)[2] == n@[2]);
            assert(d@.subrange(p as int, p + 4)[3] == n@[3]);
        }
    }
    r
}

/// Where the boxes inside the `meta` box whose content starts at `meta_start` begin.
pub fn meta_content(d: &[u8], meta_start: u64) -> (r: Option<u64>)
    ensures
        r == spec_meta_content(d@, meta_start as int),
{
    if meta_start > d.len() as u64 || (d.len() as u64) - meta_start < 8 {
        return None;
    }
    let p = meta_start as usize;
    assert(d@.subrange(p as int, p + 8).subrange(4, 8) =~= d@.subrange(p + 4, p + 8));
    if name_is(d, p + 4, &HDLR) || name_is(d, p + 4, &KEYS) || name_is(d, p + 4, &ILST) || name_is(d, p + 4, &FREE) {
        Some(meta_start)
    } else {
        Some(meta_start + 4)
    }
}

/// The position, counted from one, of the key `want` in the `keys` box whose content
/// runs from `start` to `end`; at most `MAX_SIBLINGS` keys are read.
pub open spec fn spec_key_index(d: Seq<u8>, start: int, end: int, want: Seq<u8>) -> Option<u32> {
    match bytes_at(d, start, 8) {
        None => None,
        Some(head) => {
            let count = be32(head, 4);
            let limit = if count < MAX_SIBLINGS { count } else { MAX_SIBLINGS as int };
            key_from(d, start + 8, end, want, 1, limit)
        },
    }
}

/// The key `want` among the keys from the `index`-th to the `limit`-th, the
/// `index`-th starting at `pos`.
pub open spec fn key_from(d: Seq<u8>, pos: int, end: int, want: Seq<u8>, index: int, limit: int) -> Option<u32>
    decreases limit - index + 1,
{
    if index > limit || pos + 8 > end {
        None
    } else {
        match bytes_at(d, pos, 8) {
            None => None,
            Some(entry) => {
                let size = be32(entry, 0);
                if size < 8 || pos + size > end {
                    None
                } else {
                    match bytes_at(d, pos + 8, size - 8) {
                        None => None,
                        Some(name) => if name == want { Some(index as u32) } else { key_from(d, pos + size, end, want, index + 1, limit) },
                    }
                }
            },
        }
    }
}

fn same_bytes(d: &[u8], p: usize, n: usize, want: &[u8]) -> (b: bool)
    requires
        p + n <= d@.len(),
    ensures
        b == (d@.subrange(p as int, p + n) == want@),
{
    if n != want.len() {
        proof {
            if d@.subrange(p as int, p + n) == want@ {
                assert(d@.subrange(p as int, p + n).len() == n);
            }
        }
        return false;
    }
    let total = d.len();
    let mut i: usize = 0;
    while i < n
        invariant
            i <= n,
            n == want@.len(),
            p + n <= d@.len(),
            total == d@.len(),
            forall|j: int| 0 <= j < i ==> d@[p + j] == want@[j],
        decreases n - i,
    {
        if d[p + i] != want[i] {
            proof {
                assert(d@.subrange(p as int, p + n)[i as int] != want@[i as int]);
            }
            return false;
        }
        i = i + 1;
    }
    assert(d@.subrange(p as int, p + n) =~= want@);
    true
}

/// The position, counted from one, of the key `want` in the `keys` box.
pub fn key_index(d: &[u8], start: u64, end: u64, want: &[u8]) -> (r: Option<u32>)
    ensures
        r == spec_key_index(d@, start as int, end as int, want@),
{
    let len = d.len() as u64;
    if start > len || len - start < 8 {
        return None;
    }
    let count = read32(d, start as usize + 4);
    assert(be32(d@.subrange(start as int, start + 8), 4) == be32(d@, start + 4));
    let limit: u32 = if count < MAX_SIBLINGS as u32 { count } else { MAX_SIBLINGS as u32 };
    let mut pos: u64 = start + 8;
    let mut index: u32 = 1;
    while index <= limit
        invariant
            1 <= index <= limit + 1,
            limit <= MAX_SIBLINGS,
            len == d@.len(),
            d@.len() <= usize::MAX,
            pos <= len + 0x2_0000_0000,
            spec_key_index(d@, start as int, end as int, want@) == key_from(d@, pos as int, end as int, want@, index as int, limit as int),
        decreases limit + 1 - index,
    {
        if pos > end || end - pos < 8 {
            assert(key_from(d@, pos as int, end as int, want@, index as int, limit as int) is None);
            return None;
        }
        if pos > len || len - pos < 8 {
            assert(bytes_at(d@, pos as int, 8) is None);
            assert(key_from(d@, pos as int, end as int, want@, index as int, limit as int) is None);
            return None;
        }
        let p = pos as usize;
        let size = read32(d, p) as u64;
        assert(be32(d@.subrange(p as int, p + 8), 0) == be32(d@, p as int));
        if size < 8 || size > end - pos {
            return None;
        }
        if size - 8 > len - (pos + 8) {
            return None;
        }
        if same_bytes(d, p + 8, (size - 8) as usize, want) {
            return Some(index);
        }
        pos = pos + size;
        index = index + 1;
    }
    None
}

/// The bytes of the value stored under key `index` in the `ilst` box whose content
/// runs from `start` to `end`: the payload of the entry's `data` box after its
/// sixteen bytes of header, type and locale.
pub open spec fn spec_ilst_value(d: Seq<u8>, start: int, end: int, index: u32) -> Option<Seq<u8>> {
    value_from(d, start, end, index, MAX_SIBLINGS as nat)
}

pub open spec fn value_from(d: Seq<u8>, pos: int, end: int, index: u32, fuel: nat) -> Option<Seq<u8>>
    decreases fuel,
{
    if fuel == 0 || pos + 8 > end {
        None
    } else {
        match bytes_at(d, pos, 8) {
            None => None,
            Some(h) => {
                let size = be32(h, 0);
                if size < 8 || pos + size > end {
                    None
                } else if be32(h, 4) == index {
                    match bytes_at(d, pos + 8, 16) {
                        None => None,
                        Some(data) => {
                            let payload = be32(data, 0);
                            if data.subrange(4, 8) != DATA@ || payload < 16 || payload > size - 8 {
                                None
                            } else {
                                bytes_at(d, pos + 24, payload - 16)
                            }
                        },
                    }
                } else {
                    value_from(d, pos + size, end, index, (fuel - 1) as nat)
                }
            },
        }
    }
}

/// The bytes of the value stored under key `index` in the `ilst` box.
pub fn ilst_value(d: &[u8], start: u64, end: u64, index: u32) -> (r: Option<Vec<u8>>)
    ensures
        match r {
            Some(v) => spec_ilst_value(d@, start as int, end as int, index) == Some(v@),
            None => spec_ilst_value(d@, start as int, end as int, index) is None,
        },
{
    let len = d.len() as u64;
    let mut pos: u64 = start;
    let mut fuel: usize = MAX_SIBLINGS;
    while fuel > 0
        invariant
            fuel <= MAX_SIBLINGS,
            len == d@.len(),
            d@.len() <= usize::MAX,
            spec_ilst_value(d@, start as int, end as int, index) == value_from(d@, pos as int, end as int, index, fuel as nat),
        decreases fuel,
    {
        if pos > end || end - pos < 8 {
            return None;
        }
        if pos > len || len - pos < 8 {
            assert(bytes_at(d@, pos as int, 8) is None);
            return None;
        }
        let p = pos as usize;
        let size = read32(d, p) as u64;
        let key = read32(d, p + 4);
        assert(be32(d@.subrange(p as int, p + 8), 0) == be32(d@, p as int));
        assert(be32(d@.subrange(p as int, p + 8), 4) == be32(d@, p + 4));
        if size < 8 || size > end - pos {
            return None;
        }
        if key == index {
            if len - pos - 8 < 16 {
                assert(bytes_at(d@, pos + 8, 16) is None);
                return None;
            }
            let q = p + 8;
            let payload = read32(d, q) as u64;
            assert(be32(d@.subrange(q as int, q + 16), 0) == be32(d@, q as int));
            assert(d@.subrange(q as int, q + 16).subrange(4, 8) =~= d@.subrange(q + 4, q + 8));
            if !name_is(d, q + 4, &DATA) || payload < 16 || payload > size - 8 {
                return None;
            }
            let count = payload - 16;
            if count > len - pos - 24 {
                assert(bytes_at(d@, pos + 24, payload - 16) is None);
                return None;
            }
            let from = p + 24;
            let stop = count as usize;
            let mut out: Vec<u8> = Vec::new();
            let mut i: usize = 0;
            while i < stop
                invariant
                    i <= stop,
                    stop == count,
                    from + count <= d@.len(),
                    d@.len() <= usize::MAX,
                    out@ == d@.subrange(from as int, from + i),
                decreases count - i,
            {
                out.push(d[from + i]);
                assert(out@ =~= d@.subrange(from as int, from + i + 1));
                i = i + 1;
            }
            return Some(out);
        }
        pos = pos + size;
        fuel = fuel - 1;
    }
    None
}

/// The creation and modification times of a movie header whose content starts at
/// `start`: 64-bit in version 1, 32-bit otherwise, read as signed numbers.
pub open spec fn spec_movie_times(d: Seq<u8>, start: int) -> Option<(i64, i64)> {
    match bytes_at(d, start, 4) {
        None => None,
        Some(v) => if v[0] == 1 {
            match bytes_at(d, start + 4, 16) {
                None => None,
                Some(b) => Some((be64(b, 0) as i64, be64(b, 8) as i64)),
            }
        } else {
            match bytes_at(d, start + 4, 8) {
                None => None,
                Some(b) => Some((be32(b, 0) as i64, be32(b, 4) as i64)),
            }
        },
    }
}

/// The two times a movie header holds, read byte by byte: after the version byte and
/// three bytes of flags, a version-1 header holds its creation time in the eight
/// bytes at offset 4 and its modification time in the eight at offset 12, each
/// most significant byte first; any other version holds them in four bytes each, at
/// offsets 4 and 8. The creation time comes first. A header too short for its times
/// gives none.
pub proof fn law_a_movie_header_gives_creation_then_modification(d: Seq<u8>, start: int)
    requires
        0 <= start,
    ensures
        start + 4 <= d.len() && d[start] == 1 && start + 20 <= d.len() ==> spec_movie_times(d, start) == Some((
            (d[start + 4] * 0x100_0000_0000_0000 + d[start + 5] * 0x1_0000_0000_0000 + d[start + 6]
                * 0x100_0000_0000 + d[start + 7] * 0x1_0000_0000 + d[start + 8] * 0x100_0000 + d[start + 9]
                * 0x1_0000 + d[start + 10] * 0x100 + d[start + 11]) as i64,
            (d[start + 12] * 0x100_0000_0000_0000 + d[start + 13] * 0x1_0000_0000_0000 + d[start + 14]
                * 0x100_0000_0000 + d[start + 15] * 0x1_0000_0000 + d[start + 16] * 0x100_0000 + d[start + 17]
                * 0x1_0000 + d[start + 18] * 0x100 + d[start + 19]) as i64,
        )),
        start + 4 <= d.len() && d[start] != 1 && start + 12 <= d.len() ==> spec_movie_times(d, start) == Some((
            (d[start + 4] * 0x100_0000 + d[start + 5] * 0x1_0000 + d[start + 6] * 0x100 + d[start + 7]) as i64,
            (d[start + 8] * 0x100_0000 + d[start + 9] * 0x1_0000 + d[start + 10] * 0x100 + d[start + 11]) as i64,
        )),
        start + 4 > d.len() || (d[start] == 1 && start + 20 > d.len()) || start + 12 > d.len()
            ==> spec_movie_times(d, start) is None,
{
    if start + 4 <= d.len() {
        let v = d.subrange(start, start + 4);
        assert(v[0] == d[start]);
        if d[start] == 1 && start + 20 <= d.len() {
            let b = d.subrange(start + 4, start + 20);
            assert(b[0] == d[start + 4] && b[1] == d[start + 5] && b[2] == d[start + 6] && b[3] == d[start + 7]);
            assert(b[4] == d[start + 8] && b[5] == d[start + 9] && b[6] == d[start + 10] && b[7] == d[start + 11]);
            assert(b[8] == d[start + 12] && b[9] == d[start + 13] && b[10] == d[start + 14] && b[11] == d[start + 15]);
            assert(b[12] == d[start + 16] && b[13] == d[start + 17] && b[14] == d[start + 18] && b[15] == d[start + 19]);
        } else if d[start] != 1 && start + 12 <= d.len() {
            let b = d.subrange(start + 4, start + 12);
            assert(b[0] == d[start + 4] && b[1] == d[start + 5] && b[2] == d[start + 6] && b[3] == d[start + 7]);
            assert(b[4] == d[start + 8] && b[5] == d[start + 9] && b[6] == d[start + 10] && b[7] == d[start + 11]);
        }
    }
}

/// Which time of a movie header dates the video: its creation time, counted from
/// 1904-01-01 and moved to 1970-01-01 (2 082 844 800 seconds later), when that lands
/// between 1970 and 2100 (4 102 444 800 seconds); else the modification time, when
/// that does; else none. Each comes with the name of the field it came from.
pub proof fn law_the_creation_time_dates_a_movie_before_the_modification_time(created: i64, modified: i64)
    ensures
        0 <= created - 2_082_844_800 <= 4_102_444_800 ==> spec_header_time(created, modified)
            == Some(((created - 2_082_844_800) as i64, "mvhd.creation_time"@)),
        !(0 <= created - 2_082_844_800 <= 4_102_444_800) && 0 <= modified - 2_082_844_800 <= 4_102_444_800
            ==> spec_header_time(created, modified) == Some(((modified - 2_082_844_800) as i64, "mvhd.modification_time"@)),
        !(0 <= created - 2_082_844_800 <= 4_102_444_800) && !(0 <= modified - 2_082_844_800 <= 4_102_444_800)
            ==> spec_header_time(created, modified) is None,
{
}

/// The creation and modification times of the movie header whose content starts at
/// `start`.
pub fn movie_times(d: &[u8], start: u64) -> (r: Option<(i64, i64)>)
    ensures
        r == spec_movie_times(d@, start as int),
{
    let len = d.len() as u64;
    if start > len || len - start < 4 {
        return None;
    }
    let p = start as usize;
    if d[p] == 1 {
        if len - start - 4 < 16 {
            return None;
        }
        let q = p + 4;
        let created = read64(d, q);
        let modified = read64(d, q + 8);
        assert(be64(d@.subrange(q as int, q + 16), 0) == be64(d@, q as int));
        assert(be64(d@.subrange(q as int, q + 16), 8) == be64(d@, q + 8));
        Some((created as i64, modified as i64))
    } else {
        if len - start - 4 < 8 {
            return None;
        }
        let q = p + 4;
        let created = read32(d, q);
        let modified = read32(d, q + 4);
        assert(be32(d@.subrange(q as int, q + 8), 0) == be32(d@, q as int));
        assert(be32(d@.subrange(q as int, q + 8), 4) == be32(d@, q + 4));
        Some((created as i64, modified as i64))
    }
}

/// A media time as seconds from 1970-01-01, when it falls between then and 2100.
pub open spec fn spec_media_seconds(t: int) -> Option<i64> {
    let unix = t - EPOCH_OFFSET_SECONDS;
    if MIN_UNIX <= unix <= MAX_UNIX { Some(unix as i64) } else { None }
}

/// A media time as seconds from 1970-01-01, when it falls between then and 2100.
pub fn media_seconds(t: i64) -> (r: Option<i64>)
    ensures
        r == spec_media_seconds(t as int),
{
    if t < MIN_UNIX + EPOCH_OFFSET_SECONDS || t > MAX_UNIX + EPOCH_OFFSET_SECONDS {
        return None;
    }
    Some(t - EPOCH_OFFSET_SECONDS)
}

/// The time a movie header gives: its creation time if it is one, else its
/// modification time, with the field it came from.
pub open spec fn spec_header_time(created: i64, modified: i64) -> Option<(i64, Seq<char>)> {
    match spec_media_seconds(created as int) {
        Some(u) => Some((u, "mvhd.creation_time"@)),
        None => match spec_media_seconds(modified as int) {
            Some(u) => Some((u, "mvhd.modification_time"@)),
            None => None,
        },
    }
}

/// The time a movie header gives, in seconds from 1970-01-01, and the field it came
/// from.
pub fn header_time(created: i64, modified: i64) -> (r: Option<(i64, &'static str)>)
    ensures
        match r {
            Some((u, field)) => spec_header_time(created, modified) == Some((u, field@)),
            None => spec_header_time(created, modified) is None,
        },
{
    match media_seconds(created) {
        Some(u) => Some((u, "mvhd.creation_time")),
        None => match media_seconds(modified) {
            Some(u) => Some((u, "mvhd.modification_time")),
            None => None,
        },
    }
}

// ---------------------------------------------------------------------------
// The recorded wall-clock time
// ---------------------------------------------------------------------------
/// `std::str::from_utf8`: the text the bytes encode, when they are valid UTF-8.
#[verifier::external_body]
fn utf8_text(b: &[u8]) -> (r: Option<String>)
    ensures
        match r {
            Some(s) => valid_utf8(b@) && s@ == decode_utf8(b@),
            None => !valid_utf8(b@),
        },
{
    match std::str::from_utf8(b) {
        Ok(s) => Some(s.to_string()),
        Err(_) => None,
    }
}

/// What `chrono` reads of a date and time with an offset in the RFC 3339 form: the
/// local date and time, and the offset in seconds east of UTC.
pub uninterp spec fn rfc3339_stamp(text: Seq<char>) -> Option<(Moment, i32)>;

/// What `chrono` reads of a date and time with an offset written by the strftime
/// pattern `pattern`.
pub uninterp spec fn pattern_stamp(text: Seq<char>, pattern: Seq<char>) -> Option<(Moment, i32)>;

/// `DateTime::parse_from_rfc3339`, read as the local date and time and the offset.
/// The contract names the result and states, as `FixedOffset` holds it, that the
/// offset is less than a day either way; a local time beyond what `chrono` holds
/// gives nothing.
#[verifier::external_body]
pub(crate) fn parse_rfc3339(text: &str) -> (r: Option<(Moment, i32)>)
    ensures
        r == rfc3339_stamp(text@),
        r matches Some(x) ==> -86_400 < x.1 < 86_400,
{
    let stamp = chrono::DateTime::parse_from_rfc3339(text).ok()?;
    let offset = *stamp.offset();
    let local = stamp.naive_utc().checked_add_offset(offset)?;
    Some((
        Moment { year: local.year(), month: local.month(), day: local.day(), hour: local.hour(), minute: local.minute(), second: local.second() },
        offset.local_minus_utc(),
    ))
}

/// `DateTime::parse_from_str` with a pattern, read as the local date and time and
/// the offset. The contract names the result and states that the offset is less
/// than a day either way.
#[verifier::external_body]
fn parse_stamp(text: &str, pattern: &str) -> (r: Option<(Moment, i32)>)
    ensures
        r == pattern_stamp(text@, pattern@),
        r matches Some(x) ==> -86_400 < x.1 < 86_400,
{
    let stamp = chrono::DateTime::parse_from_str(text, pattern).ok()?;
    let offset = *stamp.offset();
    let local = stamp.naive_utc().checked_add_offset(offset)?;
    Some((
        Moment { year: local.year(), month: local.month(), day: local.day(), hour: local.hour(), minute: local.minute(), second: local.second() },
        offset.local_minus_utc(),
    ))
}

/// The patterns tried after RFC 3339, in order.
pub const STAMP_PATTERN: &'static str = "%Y-%m-%dT%H:%M:%S%z";
pub const STAMP_PATTERN_FRACTION: &'static str = "%Y-%m-%dT%H:%M:%S%.f%z";

/// A date and time with an offset, read as RFC 3339 or by one of the two patterns.
pub open spec fn spec_stamp(text: Seq<char>) -> Option<(Moment, i32)> {
    match rfc3339_stamp(text) {
        Some(x) => Some(x),
        None => match pattern_stamp(text, STAMP_PATTERN@) {
            Some(x) => Some(x),
            None => pattern_stamp(text, STAMP_PATTERN_FRACTION@),
        },
    }
}

/// Two digits for a number below a hundred.
pub open spec fn two_digits(n: nat) -> Seq<char> {
    if n < 10 { seq!['0'] + decimal(n) } else { decimal(n) }
}

/// An offset of `secs` seconds east of UTC as `chrono` writes it: a sign, hours and
/// minutes as `+HH:MM`, and `:SS` when there are seconds.
pub open spec fn offset_text(secs: int) -> Seq<char> {
    let sign = if secs < 0 { '-' } else { '+' };
    let total = if secs < 0 { -secs } else { secs };
    let sec = total % 60;
    let min = (total / 60) % 60;
    let hour = total / 3600;
    let base = seq![sign] + two_digits(hour as nat) + seq![':'] + two_digits(min as nat);
    if sec == 0 { base } else { base + seq![':'] + two_digits(sec as nat) }
}

fn push_two(out: &mut Vec<char>, n: u64)
    requires
        n < 100,
    ensures
        final(out)@ == old(out)@ + two_digits(n as nat),
{
    if n < 10 {
        out.push('0');
    }
    let digits = decimal_of(n);
    extend(out, &digits);
    assert(final(out)@ =~= old(out)@ + two_digits(n as nat));
}

fn write_offset(secs: i32) -> (r: Vec<char>)
    requires
        -86_400 < secs < 86_400,
    ensures
        r@ == offset_text(secs as int),
{
    let mut out: Vec<char> = Vec::new();
    out.push(if secs < 0 { '-' } else { '+' });
    let total: u64 = if secs < 0 { (-(secs as i64)) as u64 } else { secs as u64 };
    push_two(&mut out, total / 3600);
    out.push(':');
    push_two(&mut out, (total / 60) % 60);
    if total % 60 != 0 {
        out.push(':');
        push_two(&mut out, total % 60);
    }
    out
}

/// The wall-clock time a camera recorded in the movie box `moov`: the value under
/// the creation key, valid UTF-8, trimmed and read as a date and time with an
/// offset; with a note naming the key and the offset.
pub open spec fn spec_recorded(moov: Seq<u8>) -> Option<(Moment, Seq<char>)> {
    match seek_box(moov, 0, moov.len() as int, META@, MAX_SIBLINGS as nat) {
        None => None,
        Some((meta_start, meta_end)) => match spec_meta_content(moov, meta_start as int) {
            None => None,
            Some(start) => match seek_box(moov, start as int, meta_end as int, KEYS@, MAX_SIBLINGS as nat) {
                None => None,
                Some((keys_start, keys_end)) => match spec_key_index(moov, keys_start as int, keys_end as int, CREATION_KEY@.map_values(|c: char| c as u8)) {
                    None => None,
                    Some(index) => match seek_box(moov, start as int, meta_end as int, ILST@, MAX_SIBLINGS as nat) {
                        None => None,
                        Some((ilst_start, ilst_end)) => match spec_ilst_value(moov, ilst_start as int, ilst_end as int, index) {
                            None => None,
                            Some(bytes) => if !valid_utf8(bytes) {
                                None
                            } else {
                                match spec_stamp(spec_trim(decode_utf8(bytes))) {
                                    None => None,
                                    Some((m, secs)) => Some((m, CREATION_KEY@ + seq![' '] + offset_text(secs as int))),
                                }
                            },
                        },
                    },
                },
            },
        },
    }
}

fn key_bytes() -> (r: Vec<u8>)
    ensures
        r@ == CREATION_KEY@.map_values(|c: char| c as u8),
{
    let key = chars_of(CREATION_KEY);
    let mut out: Vec<u8> = Vec::new();
    let mut i: usize = 0;
    while i < key.len()
        invariant
            i <= key@.len(),
            key@ == CREATION_KEY@,
            out@ == key@.take(i as int).map_values(|c: char| c as u8),
        decreases key@.len() - i,
    {
        proof { reveal_strlit("com.apple.quicktime.creationdate"); }
        let c = key[i];
        out.push(c as u8);
        assert(out@ =~= key@.take(i + 1).map_values(|c: char| c as u8));
        i = i + 1;
    }
    assert(key@.take(key@.len() as int) =~= key@);
    out
}

/// The wall-clock time a camera recorded in the movie box `moov`, and a note naming
/// the key and the offset.
pub fn recorded(moov: &[u8]) -> (r: Option<(Moment, String)>)
    ensures
        match r {
            Some((m, note)) => spec_recorded(moov@) == Some((m, note@)),
            None => spec_recorded(moov@) is None,
        },
{
    let len = moov.len() as u64;
    let (meta_start, meta_end) = match find_box(moov, 0, len, &META) {
        Some(x) => x,
        None => return None,
    };
    let start = match meta_content(moov, meta_start) {
        Some(s) => s,
        None => return None,
    };
    let (keys_start, keys_end) = match find_box(moov, start, meta_end, &KEYS) {
        Some(x) => x,
        None => return None,
    };
    let key = key_bytes();
    let index = match key_index(moov, keys_start, keys_end, key.as_slice()) {
        Some(i) => i,
        None => return None,
    };
    let (ilst_start, ilst_end) = match find_box(moov, start, meta_end, &ILST) {
        Some(x) => x,
        None => return None,
    };
    let bytes = match ilst_value(moov, ilst_start, ilst_end, index) {
        Some(b) => b,
        None => return None,
    };
    let text = match utf8_text(bytes.as_slice()) {
        Some(t) => t,
        None => return None,
    };
    let trimmed = string_of(&trim(&chars_of(text.as_str())));
    let stamp = match parse_rfc3339(trimmed.as_str()) {
        Some(x) => Some(x),
        None => match parse_stamp(trimmed.as_str(), STAMP_PATTERN) {
            Some(x) => Some(x),
            None => parse_stamp(trimmed.as_str(), STAMP_PATTERN_FRACTION),
        },
    };
    match stamp {
        None => None,
        Some((m, secs)) => {
            let mut note = chars_of(CREATION_KEY);
            note.push(' ');
            let offset = write_offset(secs);
            extend(&mut note, &offset);
            Some((m, string_of(&note)))
        },
    }
}

/// What a movie box says of when it was made: the wall-clock time the camera
/// recorded, or else the time of its movie header in seconds from 1970-01-01 (the
/// local time of that instant is the machine's to work out).
#[derive(Debug)]
pub enum MovieDate {
    Recorded { taken: Moment, info: String },
    Header { unix: i64, field: &'static str },
}

/// What the movie box `moov` says of when it was made: the recorded wall-clock time
/// if there is one, else the movie header's creation or modification time.
pub fn movie_date(moov: &[u8]) -> (r: Option<MovieDate>)
    ensures
        match spec_recorded(moov@) {
            Some((m, note)) => r matches Some(MovieDate::Recorded { taken, info }) && taken == m && info@ == note,
            None => match seek_box(moov@, 0, moov@.len() as int, MVHD@, MAX_SIBLINGS as nat) {
                None => r is None,
                Some((start, _)) => match spec_movie_times(moov@, start as int) {
                    None => r is None,
                    Some((created, modified)) => match spec_header_time(created, modified) {
                        None => r is None,
                        Some((u, field)) => r matches Some(MovieDate::Header { unix, field: f }) && unix == u && f@ == field,
                    },
                },
            },
        },
{
    match recorded(moov) {
        Some((taken, info)) => return Some(MovieDate::Recorded { taken, info }),
        None => {},
    }
    let len = moov.len() as u64;
    let (start, _) = match find_box(moov, 0, len, &MVHD) {
        Some(x) => x,
        None => return None,
    };
    let (created, modified) = match movie_times(moov, start) {
        Some(x) => x,
        None => return None,
    };
    match header_time(created, modified) {
        Some((unix, field)) => Some(MovieDate::Header { unix, field }),
        None => None,
    }
}

/// A walk over the boxes side by side in a file, one header at a time, for a
/// caller that reads the file: where the next header is to be read, where the boxes
/// end, and how many more may be looked at.
#[derive(Debug, Clone, Copy, PartialEq, Eq)]
pub struct BoxScan {
    pub pos: u64,
    pub end: u64,
    pub fuel: usize,
}

impl BoxScan {
    /// A walk over the boxes from `start` to `end`.
    pub fn new(start: u64, end: u64) -> (r: BoxScan)
        ensures
            r.pos == start && r.end == end && r.fuel == MAX_SIBLINGS,
    {
        BoxScan { pos: start, end, fuel: MAX_SIBLINGS }
    }

    /// One step of the walk, given the bytes of the file from `pos` on (sixteen when
    /// the file has them): what the header says, the walk moved on to the next box.
    pub fn advance(&mut self, header: &[u8], want: &[u8; 4]) -> (r: BoxStep)
        ensures
            old(self).fuel == 0 ==> r == BoxStep::Stop && *final(self) == *old(self),
            old(self).fuel > 0 ==> r == step_box(header@, old(self).pos as int, old(self).end as int, want@),
            old(self).fuel > 0 ==> match r {
                BoxStep::Next { pos } => final(self).pos == pos && final(self).end == old(self).end
                    && final(self).fuel == old(self).fuel - 1,
                _ => *final(self) == *old(self),
            },
    {
        if self.fuel == 0 {
            return BoxStep::Stop;
        }
        let step = box_step(header, self.pos, self.end, want);
        match step {
            BoxStep::Next { pos } => {
                self.pos = pos;
                self.fuel = self.fuel - 1;
            },
            _ => {},
        }
        step
    }
}

} // verus!
