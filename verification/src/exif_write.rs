//! Patching an EXIF block inside a JPEG in place: the orientation, the date taken and
//! the GPS reading are overwritten where the block already keeps them, and nothing
//! else in the file moves or changes.
use vstd::prelude::*;

verus! {

/// What stands at the start of an APP1 segment that carries EXIF.
pub const EXIF_PREFIX: [u8; 6] = [0x45, 0x78, 0x69, 0x66, 0, 0];
pub const TAG_ORIENTATION: u16 = 0x0112;
pub const TAG_DATE_TIME: u16 = 0x0132;
pub const TAG_DATE_TIME_ORIGINAL: u16 = 0x9003;
pub const TAG_DATE_TIME_DIGITIZED: u16 = 0x9004;
pub const TYPE_ASCII: u16 = 2;
pub const TYPE_SHORT: u16 = 3;
pub const TYPE_RATIONAL: u16 = 5;
pub const DATE_LEN: usize = 20;
pub const ENTRY_SIZE: usize = 12;
pub const TIFF_MAGIC: u16 = 42;
pub const TAG_EXIF_IFD: u16 = 0x8769;
pub const TAG_GPS_IFD: u16 = 0x8825;
pub const TAG_GPS_LATITUDE_REF: u16 = 0x0001;
pub const TAG_GPS_LATITUDE: u16 = 0x0002;
pub const TAG_GPS_LONGITUDE_REF: u16 = 0x0003;
pub const TAG_GPS_LONGITUDE: u16 = 0x0004;
/// Seconds of arc are stored in ten-thousandths.
pub const SECONDS_SCALE: u32 = 10_000;

/// The byte order a TIFF block is written in.
#[derive(Debug, Clone, Copy, PartialEq, Eq, Structural)]
pub enum Order {
    Little,
    Big,
}

// ---------------------------------------------------------------------------
// Numbers in a byte order
// ---------------------------------------------------------------------------
/// The 16-bit number at `at`, if two bytes are there.
pub open spec fn read16(s: Seq<u8>, at: int, o: Order) -> Option<u16> {
    if 0 <= at && at + 2 <= s.len() {
        Some(match o {
            Order::Little => (s[at] as int + 256 * s[at + 1] as int) as u16,
            Order::Big => (256 * s[at] as int + s[at + 1] as int) as u16,
        })
    } else {
        None
    }
}

/// The 32-bit number at `at`, if four bytes are there.
pub open spec fn read32(s: Seq<u8>, at: int, o: Order) -> Option<u32> {
    if 0 <= at && at + 4 <= s.len() {
        Some(match o {
            Order::Little => (s[at] as int + 256 * s[at + 1] as int + 65536 * s[at + 2] as int
                + 16777216 * s[at + 3] as int) as u32,
            Order::Big => (16777216 * s[at] as int + 65536 * s[at + 1] as int + 256 * s[at + 2] as int
                + s[at + 3] as int) as u32,
        })
    } else {
        None
    }
}

/// Byte `k` (counted from the least significant) of `v`.
pub open spec fn byte_of(v: int, k: int) -> u8 {
    ((v / pow256(k)) % 256) as u8
}

pub open spec fn pow256(k: int) -> int {
    if k <= 0 {
        1
    } else if k == 1 {
        256
    } else if k == 2 {
        65536
    } else {
        16777216
    }
}

/// `s` with the 16-bit `v` written at `at`.
pub open spec fn put16(s: Seq<u8>, at: int, o: Order, v: u16) -> Seq<u8> {
    match o {
        Order::Little => s.update(at, byte_of(v as int, 0)).update(at + 1, byte_of(v as int, 1)),
        Order::Big => s.update(at, byte_of(v as int, 1)).update(at + 1, byte_of(v as int, 0)),
    }
}

/// `s` with the 32-bit `v` written at `at`.
pub open spec fn put32(s: Seq<u8>, at: int, o: Order, v: u32) -> Seq<u8> {
    match o {
        Order::Little => s.update(at, byte_of(v as int, 0)).update(at + 1, byte_of(v as int, 1))
            .update(at + 2, byte_of(v as int, 2)).update(at + 3, byte_of(v as int, 3)),
        Order::Big => s.update(at, byte_of(v as int, 3)).update(at + 1, byte_of(v as int, 2))
            .update(at + 2, byte_of(v as int, 1)).update(at + 3, byte_of(v as int, 0)),
    }
}

/// The 16-bit number at `at` of `buf`.
pub fn read_u16(buf: &[u8], at: usize, order: Order) -> (r: Option<u16>)
    ensures
        r == read16(buf@, at as int, order),
{
    if at > buf.len() || buf.len() - at < 2 {
        return None;
    }
    let b0 = buf[at] as u16;
    let b1 = buf[at + 1] as u16;
    match order {
        Order::Little => Some(b0 + 256 * b1),
        Order::Big => Some(256 * b0 + b1),
    }
}

/// The 32-bit number at `at` of `buf`.
pub fn read_u32(buf: &[u8], at: usize, order: Order) -> (r: Option<u32>)
    ensures
        r == read32(buf@, at as int, order),
{
    if at > buf.len() || buf.len() - at < 4 {
        return None;
    }
    let b0 = buf[at] as u32;
    let b1 = buf[at + 1] as u32;
    let b2 = buf[at + 2] as u32;
    let b3 = buf[at + 3] as u32;
    match order {
        Order::Little => Some(b0 + 256 * b1 + 65536 * b2 + 16777216 * b3),
        Order::Big => Some(16777216 * b0 + 65536 * b1 + 256 * b2 + b3),
    }
}

/// Writes the 16-bit `value` at `at` when two bytes are there.
pub fn write_u16(buf: &mut Vec<u8>, at: usize, order: Order, value: u16) -> (b: bool)
    ensures
        b == (at + 2 <= old(buf)@.len()),
        b ==> final(buf)@ == put16(old(buf)@, at as int, order, value),
        !b ==> final(buf)@ == old(buf)@,
{
    if at > buf.len() || buf.len() - at < 2 {
        return false;
    }
    let lo: u8 = (value % 256) as u8;
    let hi: u8 = (value / 256) as u8;
    assert(lo == byte_of(value as int, 0) && hi == byte_of(value as int, 1));
    match order {
        Order::Little => {
            buf.set(at, lo);
            buf.set(at + 1, hi);
        },
        Order::Big => {
            buf.set(at, hi);
            buf.set(at + 1, lo);
        },
    }
    true
}

/// Writes the 32-bit `value` at `at` when four bytes are there.
pub fn write_u32(buf: &mut Vec<u8>, at: usize, order: Order, value: u32) -> (b: bool)
    ensures
        b == (at + 4 <= old(buf)@.len()),
        b ==> final(buf)@ == put32(old(buf)@, at as int, order, value),
        !b ==> final(buf)@ == old(buf)@,
{
    if at > buf.len() || buf.len() - at < 4 {
        return false;
    }
    let b0: u8 = (value % 256) as u8;
    let b1: u8 = ((value / 256) % 256) as u8;
    let b2: u8 = ((value / 65536) % 256) as u8;
    let b3: u8 = (value / 16777216) as u8;
    assert(b0 == byte_of(value as int, 0) && b1 == byte_of(value as int, 1));
    assert(b2 == byte_of(value as int, 2) && b3 == byte_of(value as int, 3));
    match order {
        Order::Little => {
            buf.set(at, b0);
            buf.set(at + 1, b1);
            buf.set(at + 2, b2);
            buf.set(at + 3, b3);
        },
        Order::Big => {
            buf.set(at, b3);
            buf.set(at + 1, b2);
            buf.set(at + 2, b1);
            buf.set(at + 3, b0);
        },
    }
    true
}

// ---------------------------------------------------------------------------
// Finding the EXIF block
// ---------------------------------------------------------------------------
/// Whether `s` starts with the EXIF prefix `Exif\0\0`.
pub open spec fn has_exif_prefix(s: Seq<u8>) -> bool {
    s.len() >= 6 && s[0] == 0x45 && s[1] == 0x78 && s[2] == 0x69 && s[3] == 0x66 && s[4] == 0
        && s[5] == 0
}

/// A marker that stands alone, without a length: start of image, TEM, or a restart.
pub open spec fn standalone_marker(m: u8) -> bool {
    m == 0xD8 || m == 0x01 || (0xD0 <= m && m <= 0xD7)
}

/// Walking the JPEG's segments from `pos`: the bounds of the TIFF data in the first
/// APP1 segment that starts with the EXIF prefix, or `None` when the walk runs off the
/// end, meets a malformed segment, or reaches the image data first.
pub open spec fn exif_scan(j: Seq<u8>, pos: int) -> Option<(int, int)>
    decreases j.len() - pos,
{
    if pos < 0 || pos >= j.len() {
        None
    } else if j[pos] != 0xFF {
        None
    } else if pos + 1 >= j.len() {
        None
    } else if j[pos + 1] == 0xFF {
        exif_scan(j, pos + 1)
    } else {
        let marker = j[pos + 1];
        let p = pos + 2;
        if standalone_marker(marker) {
            if p < j.len() {
                exif_scan(j, p)
            } else {
                None
            }
        } else if marker == 0xD9 || marker == 0xDA {
            None
        } else if p + 1 >= j.len() {
            None
        } else {
            let length = 256 * j[p] as int + j[p + 1] as int;
            if length < 2 {
                None
            } else if marker == 0xE1 && p + length > j.len() {
                None
            } else if marker == 0xE1 && has_exif_prefix(j.subrange(p + 2, p + length)) {
                Some((p + 2 + 6, p + length))
            } else if p + length < j.len() {
                exif_scan(j, p + length)
            } else {
                None
            }
        }
    }
}

/// The bounds of the TIFF data in a JPEG's EXIF block.
pub open spec fn exif_span(j: Seq<u8>) -> Option<(int, int)> {
    if j.len() < 4 || j[0] != 0xFF || j[1] != 0xD8 {
        None
    } else {
        exif_scan(j, 2)
    }
}

proof fn lemma_exif_scan_bounds(j: Seq<u8>, pos: int)
    ensures
        exif_scan(j, pos) matches Some((a, b)) ==> pos < a <= b <= j.len(),
    decreases j.len() - pos,
{
    if 0 <= pos < j.len() && j[pos] == 0xFF && pos + 1 < j.len() {
        if j[pos + 1] == 0xFF {
            lemma_exif_scan_bounds(j, pos + 1);
        } else {
            let p = pos + 2;
            if standalone_marker(j[pos + 1]) {
                if p < j.len() {
                    lemma_exif_scan_bounds(j, p);
                }
            } else if p + 1 < j.len() {
                let length = 256 * j[p] as int + j[p + 1] as int;
                if length >= 2 && p + length < j.len() {
                    lemma_exif_scan_bounds(j, p + length);
                }
            }
        }
    }
}

/// The bounds of the TIFF data in the JPEG's EXIF block: after the `Exif\0\0` that
/// opens the first APP1 segment carrying one, to the end of that segment.
pub fn exif_range(jpeg: &[u8]) -> (r: Option<(usize, usize)>)
    ensures
        match r {
            Some((a, b)) => exif_span(jpeg@) == Some((a as int, b as int)) && a <= b <= jpeg@.len(),
            None => exif_span(jpeg@) is None,
        },
{
    let n = jpeg.len();
    if n < 4 || jpeg[0] != 0xFF || jpeg[1] != 0xD8 {
        return None;
    }
    let mut pos: usize = 2;
    loop
        invariant
            n == jpeg@.len(),
            2 <= pos < n,
            exif_span(jpeg@) == exif_scan(jpeg@, pos as int),
        decreases n - pos,
    {
        if jpeg[pos] != 0xFF {
            return None;
        }
        if pos + 1 >= n {
            return None;
        }
        let marker = jpeg[pos + 1];
        if marker == 0xFF {
            pos = pos + 1;
            continue;
        }
        let p = pos + 2;
        if marker == 0xD8 || marker == 0x01 || (0xD0 <= marker && marker <= 0xD7) {
            if p < n {
                pos = p;
                continue;
            } else {
                return None;
            }
        }
        if marker == 0xD9 || marker == 0xDA {
            return None;
        }
        if p >= n - 1 {
            return None;
        }
        let length: usize = 256 * (jpeg[p] as usize) + (jpeg[p + 1] as usize);
        if length < 2 {
            return None;
        }
        if marker == 0xE1 {
            if length > n - p {
                return None;
            }
            let start = p + 2;
            let end = p + length;
            if end - start >= 6 && jpeg[start] == 0x45 && jpeg[start + 1] == 0x78
                && jpeg[start + 2] == 0x69 && jpeg[start + 3] == 0x66 && jpeg[start + 4] == 0
                && jpeg[start + 5] == 0 {
                proof {
                    let seg = jpeg@.subrange(start as int, end as int);
                    assert(seg[0] == jpeg@[start as int] && seg[5] == jpeg@[start + 5]);
                    assert(seg[1] == jpeg@[start + 1] && seg[2] == jpeg@[start + 2]);
                    assert(seg[3] == jpeg@[start + 3] && seg[4] == jpeg@[start + 4]);
                }
                return Some((start + 6, end));
            }
            proof {
                let seg = jpeg@.subrange(start as int, end as int);
                if has_exif_prefix(seg) {
                    assert(seg[0] == jpeg@[start as int] && seg[5] == jpeg@[start + 5]);
                    assert(seg[1] == jpeg@[start + 1] && seg[2] == jpeg@[start + 2]);
                    assert(seg[3] == jpeg@[start + 3] && seg[4] == jpeg@[start + 4]);
                }
            }
        }
        if length >= n - p {
            return None;
        }
        pos = p + length;
    }
}

// ---------------------------------------------------------------------------
// Reading the TIFF structure
// ---------------------------------------------------------------------------
/// The byte order and the offset of the first directory, from a TIFF header.
pub open spec fn tiff_header(t: Seq<u8>) -> Option<(Order, int)> {
    if t.len() < 2 {
        None
    } else {
        let order = if t[0] == 0x49 && t[1] == 0x49 {
            Some(Order::Little)
        } else if t[0] == 0x4D && t[1] == 0x4D {
            Some(Order::Big)
        } else {
            None
        };
        match order {
            None => None,
            Some(o) => match read16(t, 2, o) {
                Some(magic) => if magic != TIFF_MAGIC {
                    None
                } else {
                    match read32(t, 4, o) {
                        Some(first) => Some((o, first as int)),
                        None => None,
                    }
                },
                None => None,
            },
        }
    }
}

/// The byte order (`II` or `MM`) and the offset of the first directory of a TIFF block.
pub fn header(tiff: &[u8]) -> (r: Option<(Order, usize)>)
    ensures
        match r {
            Some((o, ifd)) => tiff_header(tiff@) == Some((o, ifd as int)),
            None => tiff_header(tiff@) is None,
        },
{
    if tiff.len() < 2 {
        return None;
    }
    let order = if tiff[0] == 0x49 && tiff[1] == 0x49 {
        Order::Little
    } else if tiff[0] == 0x4D && tiff[1] == 0x4D {
        Order::Big
    } else {
        return None;
    };
    match read_u16(tiff, 2, order) {
        Some(magic) => {
            if magic != TIFF_MAGIC {
                return None;
            }
        },
        None => return None,
    }
    match read_u32(tiff, 4, order) {
        Some(first) => Some((order, first as usize)),
        None => None,
    }
}

/// The first entry at or after the `k`-th of a directory at `ifd` with `count`
/// entries whose tag is `tag`.
pub open spec fn entry_from(t: Seq<u8>, o: Order, ifd: int, tag: u16, k: int, count: int) -> Option<int>
    decreases count - k,
{
    if k >= count {
        None
    } else if read16(t, ifd + 2 + 12 * k, o) == Some(tag) {
        Some(ifd + 2 + 12 * k)
    } else {
        entry_from(t, o, ifd, tag, k + 1, count)
    }
}

/// Where the entry for `tag` starts in the directory at `ifd`.
pub open spec fn entry_of(t: Seq<u8>, o: Order, ifd: int, tag: u16) -> Option<int> {
    match read16(t, ifd, o) {
        Some(count) => entry_from(t, o, ifd, tag, 0, count as int),
        None => None,
    }
}

/// Where the entry for `tag` starts in the directory at `ifd` of `tiff`.
pub fn find_entry(tiff: &[u8], order: Order, ifd: usize, tag: u16) -> (r: Option<usize>)
    ensures
        match r {
            Some(e) => entry_of(tiff@, order, ifd as int, tag) == Some(e as int),
            None => entry_of(tiff@, order, ifd as int, tag) is None,
        },
{
    let count = match read_u16(tiff, ifd, order) {
        Some(c) => c,
        None => return None,
    };
    let mut k: u16 = 0;
    while k < count
        invariant
            read16(tiff@, ifd as int, order) == Some(count),
            k <= count,
            entry_of(tiff@, order, ifd as int, tag) == entry_from(tiff@, order, ifd as int, tag, k as int, count as int),
        decreases count - k,
    {
        let offset: usize = 2 + 12 * (k as usize);
        if ifd <= tiff.len() && offset <= tiff.len() - ifd {
            let entry = ifd + offset;
            if read_u16(tiff, entry, order) == Some(tag) {
                return Some(entry);
            }
        } else {
            assert(read16(tiff@, ifd + 2 + 12 * k, order) is None);
        }
        k = k + 1;
    }
    None
}

// ---------------------------------------------------------------------------
// Patching values
// ---------------------------------------------------------------------------
/// `j` with the window that starts at `at` replaced by `w`.
pub open spec fn splice(j: Seq<u8>, at: int, w: Seq<u8>) -> Seq<u8> {
    j.take(at) + w + j.skip(at + w.len())
}

/// The TIFF block with the orientation written, and whether it could be: the entry
/// must be there, hold a SHORT, and fit in the block.
pub open spec fn orientation_written(t: Seq<u8>, v: u16) -> (Seq<u8>, bool) {
    match tiff_header(t) {
        None => (t, false),
        Some((o, ifd)) => match entry_of(t, o, ifd, TAG_ORIENTATION) {
            None => (t, false),
            Some(e) => if read16(t, e + 2, o) != Some(TYPE_SHORT) {
                (t, false)
            } else if e + 10 <= t.len() {
                (put16(t, e + 8, o, v), true)
            } else {
                (t, false)
            },
        },
    }
}

/// The JPEG with its orientation written, and whether it could be.
pub open spec fn jpeg_orientation_written(j: Seq<u8>, v: u16) -> (Seq<u8>, bool) {
    match exif_span(j) {
        None => (j, false),
        Some((a, b)) => {
            let (t, ok) = orientation_written(j.subrange(a, b), v);
            (splice(j, a, t), ok)
        },
    }
}

/// Copies `buf[a..b]` out.
fn copy_range(buf: &Vec<u8>, a: usize, b: usize) -> (r: Vec<u8>)
    requires
        a <= b <= buf.len(),
    ensures
        r@ == buf@.subrange(a as int, b as int),
{
    let mut r: Vec<u8> = Vec::new();
    let mut i = a;
    while i < b
        invariant
            a <= i <= b <= buf.len(),
            r@ == buf@.subrange(a as int, i as int),
        decreases b - i,
    {
        r.push(buf[i]);
        i = i + 1;
        assert(r@ =~= buf@.subrange(a as int, i as int));
    }
    r
}

/// Copies `w` into `buf` from `a` on.
fn copy_back(buf: &mut Vec<u8>, a: usize, w: &Vec<u8>)
    requires
        a + w.len() <= old(buf).len(),
    ensures
        final(buf)@ == splice(old(buf)@, a as int, w@),
{
    let mut i: usize = 0;
    while i < w.len()
        invariant
            i <= w.len(),
            a + w.len() <= buf.len(),
            buf@.len() == old(buf)@.len(),
            forall|k: int| 0 <= k < a ==> buf@[k] == old(buf)@[k],
            forall|k: int| a + i <= k < buf@.len() ==> buf@[k] == old(buf)@[k],
            forall|k: int| 0 <= k < i ==> buf@[a + k] == w@[k],
        decreases w.len() - i,
    {
        buf.set(a + i, w[i]);
        i = i + 1;
    }
    assert forall|k: int| a <= k < a + w.len() implies buf@[k] == w@[k - a] by {
        assert(buf@[a + (k - a)] == w@[k - a]);
    }
    let ghost sp = splice(old(buf)@, a as int, w@);
    assert(sp.len() == buf@.len());
    assert forall|k: int| 0 <= k < buf@.len() implies buf@[k] == sp[k] by {
        if k < a {
        } else if k < a + w.len() {
        } else {
            assert(sp[k] == old(buf)@.skip(a + w.len())[k - a - w.len()]);
        }
    }
    assert(buf@ =~= sp);
}

/// Writes the orientation into the JPEG's EXIF block, where the block already keeps
/// one; says whether it did. Nothing else in the file changes, and its length stays.
pub fn set_orientation(jpeg: &mut Vec<u8>, orientation: u16) -> (b: bool)
    ensures
        (final(jpeg)@, b) == jpeg_orientation_written(old(jpeg)@, orientation),
        final(jpeg)@.len() == old(jpeg)@.len(),
{
    let (a, z) = match exif_range(jpeg.as_slice()) {
        Some(r) => r,
        None => return false,
    };
    let mut tiff = copy_range(jpeg, a, z);
    let (order, ifd0) = match header(tiff.as_slice()) {
        Some(h) => h,
        None => {
            proof { lemma_splice_same(old(jpeg)@, a as int, z as int); }
            return false;
        },
    };
    let entry = match find_entry(tiff.as_slice(), order, ifd0, TAG_ORIENTATION) {
        Some(e) => e,
        None => {
            proof { lemma_splice_same(old(jpeg)@, a as int, z as int); }
            return false;
        },
    };
    if entry > tiff.len() || tiff.len() - entry < 10 {
        proof { lemma_splice_same(old(jpeg)@, a as int, z as int); }
        return false;
    }
    if read_u16(tiff.as_slice(), entry + 2, order) != Some(TYPE_SHORT) {
        proof { lemma_splice_same(old(jpeg)@, a as int, z as int); }
        return false;
    }
    let done = write_u16(&mut tiff, entry + 8, order, orientation);
    copy_back(jpeg, a, &tiff);
    done
}

/// Putting back the window that was there changes nothing.
proof fn lemma_splice_same(j: Seq<u8>, a: int, b: int)
    requires
        0 <= a <= b <= j.len(),
    ensures
        splice(j, a, j.subrange(a, b)) == j,
{
    assert(splice(j, a, j.subrange(a, b)) =~= j);
}


// ---------------------------------------------------------------------------
// ASCII values
// ---------------------------------------------------------------------------
/// The block with `value` copied over the ASCII entry for `tag` in the directory at
/// `ifd`, and whether it could be: the entry must hold ASCII of exactly that length,
/// and the place it points to must lie inside the block.
pub open spec fn ascii_written(t: Seq<u8>, o: Order, ifd: int, tag: u16, value: Seq<u8>) -> (Seq<u8>, bool) {
    match entry_of(t, o, ifd, tag) {
        None => (t, false),
        Some(e) => if read16(t, e + 2, o) != Some(TYPE_ASCII) || read32(t, e + 4, o) != Some(
            value.len() as u32,
        ) {
            (t, false)
        } else {
            match read32(t, e + 8, o) {
                None => (t, false),
                Some(at) => if at + value.len() <= t.len() {
                    (splice(t, at as int, value), true)
                } else {
                    (t, false)
                },
            }
        },
    }
}

/// Copies `value` over the ASCII entry for `tag` in the directory at `ifd`.
pub fn write_ascii(buf: &mut Vec<u8>, order: Order, ifd: usize, tag: u16, value: &[u8]) -> (b: bool)
    ensures
        (final(buf)@, b) == ascii_written(old(buf)@, order, ifd as int, tag, value@),
{
    let entry = match find_entry(buf.as_slice(), order, ifd, tag) {
        Some(e) => e,
        None => return false,
    };
    if entry > buf.len() || buf.len() - entry < 12 {
        return false;
    }
    if read_u16(buf.as_slice(), entry + 2, order) != Some(TYPE_ASCII) {
        return false;
    }
    if read_u32(buf.as_slice(), entry + 4, order) != Some(value.len() as u32) {
        return false;
    }
    let at = match read_u32(buf.as_slice(), entry + 8, order) {
        Some(at) => at as usize,
        None => return false,
    };
    if at > buf.len() || buf.len() - at < value.len() {
        return false;
    }
    let mut i: usize = 0;
    while i < value.len()
        invariant
            i <= value.len(),
            at + value.len() <= buf.len(),
            buf@.len() == old(buf)@.len(),
            forall|k: int| 0 <= k < at ==> buf@[k] == old(buf)@[k],
            forall|k: int| at + i <= k < buf@.len() ==> buf@[k] == old(buf)@[k],
            forall|k: int| 0 <= k < i ==> buf@[at + k] == value@[k],
        decreases value.len() - i,
    {
        buf.set(at + i, value[i]);
        i = i + 1;
    }
    let ghost sp = splice(old(buf)@, at as int, value@);
    assert forall|k: int| 0 <= k < buf@.len() implies buf@[k] == sp[k] by {
        if k < at {
        } else if k < at + value.len() {
            assert(buf@[at + (k - at)] == value@[k - at]);
        } else {
            assert(sp[k] == old(buf)@.skip(at + value.len())[k - at - value.len()]);
        }
    }
    assert(buf@ =~= sp);
    true
}

/// The block with a one-letter ASCII value (`letter` and its terminating zero) written
/// into the entry for `tag` itself, and whether it could be.
pub open spec fn letter_written(t: Seq<u8>, o: Order, ifd: int, tag: u16, letter: u8) -> (Seq<u8>, bool) {
    match entry_of(t, o, ifd, tag) {
        None => (t, false),
        Some(e) => if read16(t, e + 2, o) != Some(TYPE_ASCII) || read32(t, e + 4, o) != Some(2u32) {
            (t, false)
        } else if e + 10 <= t.len() {
            (t.update(e + 8, letter).update(e + 9, 0u8), true)
        } else {
            (t, false)
        },
    }
}

/// Writes a one-letter ASCII value into the entry for `tag` itself.
pub fn write_ascii_inline(buf: &mut Vec<u8>, order: Order, ifd: usize, tag: u16, letter: u8) -> (b: bool)
    ensures
        (final(buf)@, b) == letter_written(old(buf)@, order, ifd as int, tag, letter),
{
    let entry = match find_entry(buf.as_slice(), order, ifd, tag) {
        Some(e) => e,
        None => return false,
    };
    if entry > buf.len() || buf.len() - entry < 8 {
        return false;
    }
    if read_u16(buf.as_slice(), entry + 2, order) != Some(TYPE_ASCII) {
        return false;
    }
    if read_u32(buf.as_slice(), entry + 4, order) != Some(2) {
        return false;
    }
    if buf.len() - entry < 10 {
        return false;
    }
    buf.set(entry + 8, letter);
    buf.set(entry + 9, 0);
    true
}

// ---------------------------------------------------------------------------
// The date taken
// ---------------------------------------------------------------------------
/// A calendar date and a time of day, as a picture's clock recorded them.
#[derive(Debug, Clone, Copy, PartialEq, Eq)]
pub struct Taken {
    pub year: i32,
    pub month: u32,
    pub day: u32,
    pub hour: u32,
    pub minute: u32,
    pub second: u32,
}

/// The ASCII digit for `d`.
pub open spec fn ascii_digit(d: int) -> u8 {
    (48 + d) as u8
}

/// `n` written with two digits.
pub open spec fn two_digits(n: int) -> Seq<u8> {
    seq![ascii_digit(n / 10), ascii_digit(n % 10)]
}

/// The stamp EXIF keeps a date in, `YYYY:MM:DD HH:MM:SS` and a terminating zero, when
/// each field fits its width (a year from 0 to 9999, the rest below 100).
pub open spec fn stamp_of(d: Taken) -> Option<Seq<u8>> {
    if 0 <= d.year <= 9999 && d.month < 100 && d.day < 100 && d.hour < 100 && d.minute < 100
        && d.second < 100 {
        Some(two_digits(d.year as int / 100) + two_digits(d.year as int % 100) + seq![58u8] + two_digits(
            d.month as int,
        ) + seq![58u8] + two_digits(d.day as int) + seq![32u8] + two_digits(d.hour as int) + seq![
            58u8,
        ] + two_digits(d.minute as int) + seq![58u8] + two_digits(d.second as int) + seq![0u8])
    } else {
        None
    }
}

/// Appends `n` (below 100) as two ASCII digits.
fn push_two(out: &mut Vec<u8>, n: u32)
    requires
        n < 100,
    ensures
        final(out)@ == old(out)@ + two_digits(n as int),
{
    out.push((48 + n / 10) as u8);
    out.push((48 + n % 10) as u8);
    assert(final(out)@ =~= old(out)@ + two_digits(n as int));
}

/// The EXIF stamp for `d`, when each field fits its width.
pub fn stamp(d: &Taken) -> (r: Option<Vec<u8>>)
    ensures
        match r {
            Some(v) => stamp_of(*d) == Some(v@) && v@.len() == DATE_LEN,
            None => stamp_of(*d) is None,
        },
{
    if d.year < 0 || d.year > 9999 || d.month >= 100 || d.day >= 100 || d.hour >= 100
        || d.minute >= 100 || d.second >= 100 {
        return None;
    }
    let year = d.year as u32;
    let mut out: Vec<u8> = Vec::new();
    push_two(&mut out, year / 100);
    push_two(&mut out, year % 100);
    out.push(58);
    push_two(&mut out, d.month);
    out.push(58);
    push_two(&mut out, d.day);
    out.push(32);
    push_two(&mut out, d.hour);
    out.push(58);
    push_two(&mut out, d.minute);
    out.push(58);
    push_two(&mut out, d.second);
    out.push(0);
    assert(out@ =~= stamp_of(*d)->0);
    Some(out)
}

/// The block with the date written where it keeps one: the main directory's date,
/// and, when there is an EXIF directory, the original and digitised dates in it.
pub open spec fn taken_written(t: Seq<u8>, d: Taken) -> (Seq<u8>, bool) {
    match tiff_header(t) {
        None => (t, false),
        Some((o, ifd0)) => match stamp_of(d) {
            None => (t, false),
            Some(stamp) => {
                let sub = match entry_of(t, o, ifd0, TAG_EXIF_IFD) {
                    Some(e) => read32(t, e + 8, o),
                    None => None,
                };
                let (t1, w1) = ascii_written(t, o, ifd0, TAG_DATE_TIME, stamp);
                match sub {
                    None => (t1, w1),
                    Some(s) => {
                        let (t2, w2) = ascii_written(t1, o, s as int, TAG_DATE_TIME_ORIGINAL, stamp);
                        let (t3, w3) = ascii_written(t2, o, s as int, TAG_DATE_TIME_DIGITIZED, stamp);
                        (t3, w1 || w2 || w3)
                    },
                }
            },
        },
    }
}

/// The JPEG with the date written into its EXIF block, and whether any of it could be.
pub open spec fn jpeg_taken_written(j: Seq<u8>, d: Taken) -> (Seq<u8>, bool) {
    match exif_span(j) {
        None => (j, false),
        Some((a, b)) => {
            let (t, ok) = taken_written(j.subrange(a, b), d);
            (splice(j, a, t), ok)
        },
    }
}

/// Writes the date taken into the JPEG's EXIF block wherever it keeps one; says
/// whether it wrote any. The file keeps its length.
pub fn set_taken(jpeg: &mut Vec<u8>, taken: &Taken) -> (b: bool)
    ensures
        (final(jpeg)@, b) == jpeg_taken_written(old(jpeg)@, *taken),
        final(jpeg)@.len() == old(jpeg)@.len(),
{
    let (a, z) = match exif_range(jpeg.as_slice()) {
        Some(r) => r,
        None => return false,
    };
    let mut tiff = copy_range(jpeg, a, z);
    proof { lemma_splice_same(old(jpeg)@, a as int, z as int); }
    let (order, ifd0) = match header(tiff.as_slice()) {
        Some(h) => h,
        None => return false,
    };
    let stamp = match stamp(taken) {
        Some(s) => s,
        None => return false,
    };
    let sub = match find_entry(tiff.as_slice(), order, ifd0, TAG_EXIF_IFD) {
        Some(e) => if e <= tiff.len() && tiff.len() - e >= 8 {
            read_u32(tiff.as_slice(), e + 8, order)
        } else {
            None
        },
        None => None,
    };
    let mut written = write_ascii(&mut tiff, order, ifd0, TAG_DATE_TIME, stamp.as_slice());
    match sub {
        Some(s) => {
            let w2 = write_ascii(&mut tiff, order, s as usize, TAG_DATE_TIME_ORIGINAL, stamp.as_slice());
            let w3 = write_ascii(&mut tiff, order, s as usize, TAG_DATE_TIME_DIGITIZED, stamp.as_slice());
            written = written || w2 || w3;
        },
        None => {},
    }
    proof { lemma_window_len(old(jpeg)@, a as int, z as int, *taken); }
    copy_back(jpeg, a, &tiff);
    written
}

/// Writing a date never changes the length of the block.
proof fn lemma_window_len(j: Seq<u8>, a: int, z: int, d: Taken)
    requires
        0 <= a <= z <= j.len(),
    ensures
        taken_written(j.subrange(a, z), d).0.len() == z - a,
{
    let t = j.subrange(a, z);
    match tiff_header(t) {
        None => {},
        Some((o, ifd0)) => match stamp_of(d) {
            None => {},
            Some(stamp) => {
                let sub = match entry_of(t, o, ifd0, TAG_EXIF_IFD) {
                    Some(e) => read32(t, e + 8, o),
                    None => None,
                };
                lemma_ascii_len(t, o, ifd0, TAG_DATE_TIME, stamp);
                let (t1, w1) = ascii_written(t, o, ifd0, TAG_DATE_TIME, stamp);
                match sub {
                    None => {},
                    Some(s) => {
                        lemma_ascii_len(t1, o, s as int, TAG_DATE_TIME_ORIGINAL, stamp);
                        let (t2, w2) = ascii_written(t1, o, s as int, TAG_DATE_TIME_ORIGINAL, stamp);
                        lemma_ascii_len(t2, o, s as int, TAG_DATE_TIME_DIGITIZED, stamp);
                    },
                }
            },
        },
    }
}

proof fn lemma_ascii_len(t: Seq<u8>, o: Order, ifd: int, tag: u16, value: Seq<u8>)
    ensures
        ascii_written(t, o, ifd, tag, value).0.len() == t.len(),
{
}

// ---------------------------------------------------------------------------
// The GPS reading
// ---------------------------------------------------------------------------
/// One coordinate as EXIF keeps it: whole degrees, whole minutes, seconds in
/// ten-thousandths, and which side of the equator or meridian it lies on.
#[derive(Debug, Clone, Copy, PartialEq, Eq)]
pub struct Reading {
    pub degrees: u32,
    pub minutes: u32,
    pub seconds: u32,
    pub negative: bool,
}

/// Where a picture was taken, as two readings.
#[derive(Debug, Clone, Copy, PartialEq, Eq)]
pub struct Fix {
    pub latitude: Reading,
    pub longitude: Reading,
}

/// The three rationals of a reading, as six 32-bit words (numerator, denominator).
pub open spec fn reading_words(r: Reading) -> Seq<u32> {
    seq![r.degrees, 1u32, r.minutes, 1u32, r.seconds, SECONDS_SCALE]
}

/// The block with `words` written one after another from `at`, and whether all of
/// them fit; the writing stops at the first one that does not.
pub open spec fn words_written(t: Seq<u8>, at: int, o: Order, words: Seq<u32>) -> (Seq<u8>, bool)
    decreases words.len(),
{
    if words.len() == 0 {
        (t, true)
    } else if 0 <= at && at + 4 <= t.len() {
        words_written(put32(t, at, o, words[0]), at + 4, o, words.drop_first())
    } else {
        (t, false)
    }
}

/// The block with a reading written into the GPS directory: its three rationals where
/// the entry for `tag` points, then its reference letter.
pub open spec fn degrees_written(t: Seq<u8>, o: Order, gps: int, tag: u16, reference: u16, r: Reading, positive: u8, negative: u8) -> (Seq<u8>, bool) {
    match entry_of(t, o, gps, tag) {
        None => (t, false),
        Some(e) => if read16(t, e + 2, o) != Some(TYPE_RATIONAL) || read32(t, e + 4, o) != Some(3u32) {
            (t, false)
        } else {
            match read32(t, e + 8, o) {
                None => (t, false),
                Some(at) => {
                    let (t1, ok) = words_written(t, at as int, o, reading_words(r));
                    if !ok {
                        (t1, false)
                    } else {
                        letter_written(t1, o, gps, reference, if r.negative { negative } else { positive })
                    }
                },
            }
        },
    }
}

/// The block with both readings written into its GPS directory.
pub open spec fn location_written(t: Seq<u8>, fix: Fix) -> (Seq<u8>, bool) {
    match tiff_header(t) {
        None => (t, false),
        Some((o, ifd0)) => match entry_of(t, o, ifd0, TAG_GPS_IFD) {
            None => (t, false),
            Some(e) => match read32(t, e + 8, o) {
                None => (t, false),
                Some(g) => {
                    let (t1, ok1) = degrees_written(t, o, g as int, TAG_GPS_LATITUDE, TAG_GPS_LATITUDE_REF, fix.latitude, 78u8, 83u8);
                    let (t2, ok2) = degrees_written(t1, o, g as int, TAG_GPS_LONGITUDE, TAG_GPS_LONGITUDE_REF, fix.longitude, 69u8, 87u8);
                    (t2, ok1 && ok2)
                },
            },
        },
    }
}

/// The JPEG with the reading written into its GPS block, and whether all of it could be.
pub open spec fn jpeg_location_written(j: Seq<u8>, fix: Fix) -> (Seq<u8>, bool) {
    match exif_span(j) {
        None => (j, false),
        Some((a, b)) => {
            let (t, ok) = location_written(j.subrange(a, b), fix);
            (splice(j, a, t), ok)
        },
    }
}

/// Writes the three rationals of `r`, one word after another, from `at`.
fn write_words(buf: &mut Vec<u8>, at: usize, order: Order, r: &Reading) -> (b: bool)
    ensures
        (final(buf)@, b) == words_written(old(buf)@, at as int, order, reading_words(*r)),
{
    let words: [u32; 6] = [r.degrees, 1, r.minutes, 1, r.seconds, SECONDS_SCALE];
    assert(words@ =~= reading_words(*r));
    assert(words@.skip(0) =~= words@);
    let mut i: usize = 0;
    let mut pos: usize = at;
    while i < 6
        invariant
            i <= 6,
            words@ == reading_words(*r),
            pos == at + 4 * i,
            words_written(old(buf)@, at as int, order, reading_words(*r)) == words_written(buf@, pos as int, order, words@.skip(i as int)),
        decreases 6 - i,
    {
        let ghost rest = words@.skip(i as int);
        if pos > buf.len() || buf.len() - pos < 4 {
            return false;
        }
        let done = write_u32(buf, pos, order, words[i]);
        assert(rest[0] == words@[i as int]);
        assert(rest.drop_first() =~= words@.skip(i + 1));
        i = i + 1;
        pos = pos + 4;
    }
    assert(words@.skip(6) =~= Seq::<u32>::empty());
    true
}

/// Writes one reading into the GPS directory at `gps`.
fn write_degrees(buf: &mut Vec<u8>, order: Order, gps: usize, tag: u16, reference: u16, r: &Reading, positive: u8, negative: u8) -> (b: bool)
    ensures
        (final(buf)@, b) == degrees_written(old(buf)@, order, gps as int, tag, reference, *r, positive, negative),
{
    let entry = match find_entry(buf.as_slice(), order, gps, tag) {
        Some(e) => e,
        None => return false,
    };
    if entry > buf.len() || buf.len() - entry < 12 {
        return false;
    }
    if read_u16(buf.as_slice(), entry + 2, order) != Some(TYPE_RATIONAL) {
        return false;
    }
    if read_u32(buf.as_slice(), entry + 4, order) != Some(3) {
        return false;
    }
    let at = match read_u32(buf.as_slice(), entry + 8, order) {
        Some(at) => at as usize,
        None => return false,
    };
    if !write_words(buf, at, order, r) {
        return false;
    }
    let letter = if r.negative { negative } else { positive };
    write_ascii_inline(buf, order, gps, reference, letter)
}

/// Writes a GPS reading into the JPEG's EXIF block, where the block already has a GPS
/// directory with room for it; says whether both coordinates were written. The file
/// keeps its length.
pub fn set_location(jpeg: &mut Vec<u8>, at: &Fix) -> (b: bool)
    ensures
        (final(jpeg)@, b) == jpeg_location_written(old(jpeg)@, *at),
{
    let (a, z) = match exif_range(jpeg.as_slice()) {
        Some(r) => r,
        None => return false,
    };
    let mut tiff = copy_range(jpeg, a, z);
    proof { lemma_splice_same(old(jpeg)@, a as int, z as int); }
    let (order, ifd0) = match header(tiff.as_slice()) {
        Some(h) => h,
        None => return false,
    };
    let entry = match find_entry(tiff.as_slice(), order, ifd0, TAG_GPS_IFD) {
        Some(e) => e,
        None => return false,
    };
    if entry > tiff.len() || tiff.len() - entry < 12 {
        return false;
    }
    let gps = match read_u32(tiff.as_slice(), entry + 8, order) {
        Some(g) => g as usize,
        None => return false,
    };
    let latitude = write_degrees(&mut tiff, order, gps, TAG_GPS_LATITUDE, TAG_GPS_LATITUDE_REF, &at.latitude, 78, 83);
    let longitude = write_degrees(&mut tiff, order, gps, TAG_GPS_LONGITUDE, TAG_GPS_LONGITUDE_REF, &at.longitude, 69, 87);
    proof { lemma_location_len(old(jpeg)@.subrange(a as int, z as int), *at); }
    copy_back(jpeg, a, &tiff);
    latitude && longitude
}

proof fn lemma_words_len(t: Seq<u8>, at: int, o: Order, words: Seq<u32>)
    ensures
        words_written(t, at, o, words).0.len() == t.len(),
    decreases words.len(),
{
    if words.len() > 0 && 0 <= at && at + 4 <= t.len() {
        lemma_words_len(put32(t, at, o, words[0]), at + 4, o, words.drop_first());
    }
}

proof fn lemma_degrees_len(t: Seq<u8>, o: Order, gps: int, tag: u16, reference: u16, r: Reading, p: u8, n: u8)
    ensures
        degrees_written(t, o, gps, tag, reference, r, p, n).0.len() == t.len(),
{
    match entry_of(t, o, gps, tag) {
        None => {},
        Some(e) => match read32(t, e + 8, o) {
            None => {},
            Some(at) => {
                lemma_words_len(t, at as int, o, reading_words(r));
            },
        },
    }
}

proof fn lemma_location_len(t: Seq<u8>, fix: Fix)
    ensures
        location_written(t, fix).0.len() == t.len(),
{
    match tiff_header(t) {
        None => {},
        Some((o, ifd0)) => match entry_of(t, o, ifd0, TAG_GPS_IFD) {
            None => {},
            Some(e) => match read32(t, e + 8, o) {
                None => {},
                Some(g) => {
                    lemma_degrees_len(t, o, g as int, TAG_GPS_LATITUDE, TAG_GPS_LATITUDE_REF, fix.latitude, 78u8, 83u8);
                    let (t1, ok1) = degrees_written(t, o, g as int, TAG_GPS_LATITUDE, TAG_GPS_LATITUDE_REF, fix.latitude, 78u8, 83u8);
                    lemma_degrees_len(t1, o, g as int, TAG_GPS_LONGITUDE, TAG_GPS_LONGITUDE_REF, fix.longitude, 69u8, 87u8);
                },
            },
        },
    }
}


// ---------------------------------------------------------------------------
// What a read gives back of a write
// ---------------------------------------------------------------------------
/// The orientation a JPEG's EXIF block records, read where `set_orientation` writes it.
pub open spec fn jpeg_orientation(j: Seq<u8>) -> Option<u16> {
    match exif_span(j) {
        None => None,
        Some((a, b)) => {
            let t = j.subrange(a, b);
            match tiff_header(t) {
                None => None,
                Some((o, ifd)) => match entry_of(t, o, ifd, TAG_ORIENTATION) {
                    None => None,
                    Some(e) => if read16(t, e + 2, o) == Some(TYPE_SHORT) {
                        read16(t, e + 8, o)
                    } else {
                        None
                    },
                },
            }
        },
    }
}

/// Once the orientation has been written, reading it back gives what was written.
pub proof fn law_orientation_reads_back(j: Seq<u8>, v: u16)
    requires
        jpeg_orientation_written(j, v).1,
    ensures
        jpeg_orientation(jpeg_orientation_written(j, v).0) == Some(v),
{
    let (a, b) = exif_span(j)->0;
    let t = j.subrange(a, b);
    lemma_exif_scan_bounds(j, 2);
    let (o, ifd) = tiff_header(t)->0;
    let e = entry_of(t, o, ifd, TAG_ORIENTATION)->0;
    let count = read16(t, ifd, o)->0;
    lemma_entry_from_shape(t, o, ifd, TAG_ORIENTATION, 0, count as int);
    let t2 = put16(t, e + 8, o, v);
    let j2 = splice(j, a, t2);
    assert(j2 == jpeg_orientation_written(j, v).0);
    assert(t2.len() == t.len());
    assert(j2.subrange(a, b) =~= t2);
    assert forall|i: int| 0 <= i < a implies j2[i] == j[i] by {}
    lemma_exif_scan_frame(j, j2, 2, a, b);
    assert(exif_span(j2) == Some((a, b)));
    assert(tiff_header(t2) == tiff_header(t)) by {
        assert(t2[0] == t[0] && t2[1] == t[1] && t2[2] == t[2] && t2[3] == t[3]);
        assert(t2[4] == t[4] && t2[5] == t[5] && t2[6] == t[6] && t2[7] == t[7]);
    }
    assert(read16(t2, ifd, o) == read16(t, ifd, o)) by {
        if ifd + 2 <= t.len() {
            assert(t2[ifd] == t[ifd] && t2[ifd + 1] == t[ifd + 1]);
        }
    }
    lemma_entry_from_frame(t, o, ifd, TAG_ORIENTATION, 0, count as int, e, v);
    assert(entry_of(t2, o, ifd, TAG_ORIENTATION) == Some(e));
    assert(read16(t2, e + 2, o) == read16(t, e + 2, o)) by {
        assert(t2[e + 2] == t[e + 2] && t2[e + 3] == t[e + 3]);
    }
    lemma_put16_reads_back(t, e + 8, o, v);
}

/// A 16-bit number written in a byte order reads back as itself.
proof fn lemma_put16_reads_back(t: Seq<u8>, at: int, o: Order, v: u16)
    requires
        0 <= at && at + 2 <= t.len(),
    ensures
        read16(put16(t, at, o, v), at, o) == Some(v),
{
    let t2 = put16(t, at, o, v);
    let x = v as int;
    assert(x % 256 + 256 * ((x / 256) % 256) == x) by (nonlinear_arith)
        requires 0 <= x < 65536;
    assert(256 * ((x / 256) % 256) + x % 256 == x) by (nonlinear_arith)
        requires 0 <= x < 65536;
    assert(pow256(0) == 1 && pow256(1) == 256);
    assert(byte_of(x, 0) as int == x % 256);
    assert(byte_of(x, 1) as int == (x / 256) % 256);
}

/// An entry the search finds starts a whole number of entries after the directory's
/// count.
proof fn lemma_entry_from_shape(t: Seq<u8>, o: Order, ifd: int, tag: u16, k: int, count: int)
    requires
        0 <= k,
    ensures
        entry_from(t, o, ifd, tag, k, count) matches Some(e) ==> e >= ifd + 2 + 12 * k
            && (e - ifd - 2) % 12 == 0,
    decreases count - k,
{
    if k < count && read16(t, ifd + 2 + 12 * k, o) != Some(tag) {
        lemma_entry_from_shape(t, o, ifd, tag, k + 1, count);
    }
}

/// Writing into the value field of an entry leaves every tag of the directory as it
/// was, so the search finds the same entry.
proof fn lemma_entry_from_frame(t: Seq<u8>, o: Order, ifd: int, tag: u16, k: int, count: int, e: int, v: u16)
    requires
        0 <= k,
        0 <= ifd,
        e >= ifd + 2,
        (e - ifd - 2) % 12 == 0,
        e + 10 <= t.len(),
    ensures
        entry_from(put16(t, e + 8, o, v), o, ifd, tag, k, count) == entry_from(t, o, ifd, tag, k, count),
    decreases count - k,
{
    let t2 = put16(t, e + 8, o, v);
    if k < count {
        let at = ifd + 2 + 12 * k;
        assert(at != e + 8 && at != e + 9 && at + 1 != e + 8 && at + 1 != e + 9);
        if at + 2 <= t.len() {
            assert(t2[at] == t[at] && t2[at + 1] == t[at + 1]);
        }
        assert(read16(t2, at, o) == read16(t, at, o));
        lemma_entry_from_frame(t, o, ifd, tag, k + 1, count, e, v);
    }
}

/// The walk over the segments reads nothing at or after where the EXIF data starts,
/// so bytes there can change without changing what the walk finds.
proof fn lemma_exif_scan_frame(j: Seq<u8>, j2: Seq<u8>, pos: int, a: int, b: int)
    requires
        exif_scan(j, pos) == Some((a, b)),
        j2.len() == j.len(),
        forall|i: int| 0 <= i < a ==> j2[i] == j[i],
    ensures
        exif_scan(j2, pos) == Some((a, b)),
    decreases j.len() - pos,
{
    lemma_exif_scan_bounds(j, pos);
    assert(j2[pos] == j[pos]);
    if 0 <= pos < j.len() && j[pos] == 0xFF && pos + 1 < j.len() {
        if j[pos + 1] != 0xFF && !standalone_marker(j[pos + 1]) && pos + 3 < j.len() {
            if j[pos + 1] != 0xD9 && j[pos + 1] != 0xDA {
                let length = 256 * j[pos + 2] as int + j[pos + 3] as int;
                if length >= 2 && pos + 2 + length < j.len() {
                    lemma_exif_scan_bounds(j, pos + 2 + length);
                }
            }
            assert(j2[pos + 2] == j[pos + 2]);
            assert(j2[pos + 3] == j[pos + 3]);
        }
        if j[pos + 1] == 0xFF {
            lemma_exif_scan_bounds(j, pos + 1);
        } else if standalone_marker(j[pos + 1]) && pos + 2 < j.len() {
            lemma_exif_scan_bounds(j, pos + 2);
        }
        assert(j2[pos + 1] == j[pos + 1]);
        if j[pos + 1] == 0xFF {
            lemma_exif_scan_bounds(j, pos + 1);
            lemma_exif_scan_frame(j, j2, pos + 1, a, b);
        } else {
            let p = pos + 2;
            if standalone_marker(j[pos + 1]) {
                lemma_exif_scan_frame(j, j2, p, a, b);
            } else if p + 1 < j.len() {
                let length = 256 * j[p] as int + j[p + 1] as int;
                if j[pos + 1] == 0xE1 && length >= 2 && p + length <= j.len()
                    && has_exif_prefix(j.subrange(p + 2, p + length)) {
                    assert(j2.subrange(p + 2, p + length)[0] == j.subrange(p + 2, p + length)[0]);
                    assert(j2.subrange(p + 2, p + length)[1] == j.subrange(p + 2, p + length)[1]);
                    assert(j2.subrange(p + 2, p + length)[2] == j.subrange(p + 2, p + length)[2]);
                    assert(j2.subrange(p + 2, p + length)[3] == j.subrange(p + 2, p + length)[3]);
                    assert(j2.subrange(p + 2, p + length)[4] == j.subrange(p + 2, p + length)[4]);
                    assert(j2.subrange(p + 2, p + length)[5] == j.subrange(p + 2, p + length)[5]);
                } else {
                    if j[pos + 1] == 0xE1 && length >= 2 && p + length <= j.len() {
                        let s1 = j.subrange(p + 2, p + length);
                        let s2 = j2.subrange(p + 2, p + length);
                        assert(!has_exif_prefix(s1));
                        lemma_exif_scan_bounds(j, p + length);
                        assert(s2.len() >= 6 ==> s2[0] == s1[0] && s2[1] == s1[1] && s2[2] == s1[2]
                            && s2[3] == s1[3] && s2[4] == s1[4] && s2[5] == s1[5]);
                    }
                    lemma_exif_scan_bounds(j, p + length);
                    lemma_exif_scan_frame(j, j2, p + length, a, b);
                }
            }
        }
    }
}

/// Whether `b` is `a` with at most the two bytes at `p` changed.
pub open spec fn same_but_two_at(a: Seq<u8>, b: Seq<u8>, p: int) -> bool {
    &&& a.len() == b.len()
    &&& 0 <= p && p + 2 <= a.len()
    &&& forall|i: int| 0 <= i < a.len() && (i < p || i >= p + 2) ==> #[trigger] b[i] == a[i]
}

/// Writing the orientation changes two bytes of the file and nothing else: the two
/// bytes of the orientation's value.
pub proof fn law_orientation_changes_two_bytes(j: Seq<u8>, v: u16)
    requires
        jpeg_orientation_written(j, v).1,
    ensures
        exists|p: int| #[trigger] same_but_two_at(j, jpeg_orientation_written(j, v).0, p),
{
    let (a, b) = exif_span(j)->0;
    lemma_exif_scan_bounds(j, 2);
    let t = j.subrange(a, b);
    let (o, ifd) = tiff_header(t)->0;
    let e = entry_of(t, o, ifd, TAG_ORIENTATION)->0;
    let t2 = put16(t, e + 8, o, v);
    let j2 = splice(j, a, t2);
    assert(j2 == jpeg_orientation_written(j, v).0);
    assert(t2.len() == t.len());
    assert(e + 10 <= t.len());
    assert(e + 8 >= 0) by {
        let count = read16(t, ifd, o)->0;
        lemma_entry_from_shape(t, o, ifd, TAG_ORIENTATION, 0, count as int);
    }
    let p = a + e + 8;
    assert forall|i: int| 0 <= i < j.len() && (i < p || i >= p + 2) implies #[trigger] j2[i] == j[i] by {
        if i < a {
        } else if i < b {
            assert(j2[i] == t2[i - a]);
            assert(t2[i - a] == t[i - a]);
        } else {
            assert(j2[i] == j[i]);
        }
    }
    assert(same_but_two_at(j, j2, p));
}


/// Whether two blocks of one length hold the same bytes from `lo` up to `hi`.
pub open spec fn same_between(t: Seq<u8>, u: Seq<u8>, lo: int, hi: int) -> bool {
    t.len() == u.len() && forall|i: int| lo <= i < hi && 0 <= i < t.len() ==> #[trigger] t[i] == u[i]
}

/// A search that finds an entry in one block finds it in another that holds the same
/// tags up to it.
proof fn lemma_entry_from_same(t: Seq<u8>, u: Seq<u8>, o: Order, ifd: int, tag: u16, k: int, count: int, x: int)
    requires
        0 <= k,
        entry_from(t, o, ifd, tag, k, count) == Some(x),
        same_between(t, u, ifd + 2 + 12 * k, x + 2),
    ensures
        entry_from(u, o, ifd, tag, k, count) == Some(x),
    decreases count - k,
{
    let at = ifd + 2 + 12 * k;
    lemma_entry_from_shape(t, o, ifd, tag, k, count);
    if at + 2 <= t.len() && 0 <= at {
        assert(t[at] == u[at] && t[at + 1] == u[at + 1]);
    }
    assert(read16(u, at, o) == read16(t, at, o));
    if read16(t, at, o) != Some(tag) {
        lemma_entry_from_shape(t, o, ifd, tag, k + 1, count);
        lemma_entry_from_same(t, u, o, ifd, tag, k + 1, count, x);
    }
}

/// An entry the search finds lies inside the directory's entries.
proof fn lemma_entry_from_inside(t: Seq<u8>, o: Order, ifd: int, tag: u16, k: int, count: int)
    requires
        0 <= k,
    ensures
        entry_from(t, o, ifd, tag, k, count) matches Some(x) ==> x + 12 <= ifd + 2 + 12 * count,
    decreases count - k,
{
    if k < count && read16(t, ifd + 2 + 12 * k, o) != Some(tag) {
        lemma_entry_from_inside(t, o, ifd, tag, k + 1, count);
    }
}

/// Copying a value over part of a block leaves every other byte as it was.
proof fn lemma_splice_elsewhere(t: Seq<u8>, p: int, v: Seq<u8>)
    requires
        0 <= p,
        p + v.len() <= t.len(),
    ensures
        splice(t, p, v).len() == t.len(),
        forall|i: int| 0 <= i < t.len() && (i < p || i >= p + v.len()) ==> #[trigger] splice(t, p, v)[i] == t[i],
        splice(t, p, v).subrange(p, p + v.len()) == v,
{
    let w = splice(t, p, v);
    assert forall|i: int| 0 <= i < t.len() && (i < p || i >= p + v.len()) implies #[trigger] w[i] == t[i] by {
        if i >= p + v.len() {
            assert(w[i] == t.skip(p + v.len())[i - p - v.len()]);
        }
    }
    assert(w.subrange(p, p + v.len()) =~= v);
}

/// The 16- and 32-bit numbers at a place read the same in two blocks that hold the
/// same bytes there.
proof fn lemma_reads_same(t: Seq<u8>, u: Seq<u8>, o: Order, at: int, lo: int, hi: int)
    requires
        same_between(t, u, lo, hi),
        lo <= at,
        at + 2 <= hi,
    ensures
        read16(t, at, o) == read16(u, at, o),
        at + 4 <= hi ==> read32(t, at, o) == read32(u, at, o),
{
    if 0 <= at && at + 4 <= t.len() && at + 4 <= hi {
        assert(t[at] == u[at] && t[at + 1] == u[at + 1] && t[at + 2] == u[at + 2] && t[at + 3] == u[at + 3]);
    } else if 0 <= at && at + 2 <= t.len() {
        assert(t[at] == u[at] && t[at + 1] == u[at + 1]);
    }
}

/// What one ASCII write into a block changes: nothing, or the bytes its entry points to.
proof fn lemma_ascii_written_at(t: Seq<u8>, o: Order, ifd: int, tag: u16, value: Seq<u8>)
    ensures
        ascii_written(t, o, ifd, tag, value).0 == t || (entry_of(t, o, ifd, tag) matches Some(e)
            && read32(t, e + 8, o) matches Some(p) && p + value.len() <= t.len()
            && ascii_written(t, o, ifd, tag, value).0 == splice(t, p as int, value)),
{
    match entry_of(t, o, ifd, tag) {
        None => {},
        Some(e) => match read32(t, e + 8, o) {
            None => {},
            Some(p) => {},
        },
    }
}

/// Writing the main date into a block whose main date lies outside `[lo, hi)` leaves
/// those bytes as they were.
proof fn lemma_main_date_elsewhere(t: Seq<u8>, o: Order, ifd0: int, st: Seq<u8>, lo: int, hi: int)
    requires
        st.len() == 20,
        entry_of(t, o, ifd0, TAG_DATE_TIME) matches Some(m)
            ==> (read32(t, m + 8, o) matches Some(p) ==> p + 20 <= lo || p >= hi),
    ensures
        same_between(t, ascii_written(t, o, ifd0, TAG_DATE_TIME, st).0, lo, hi),
{
    let t1 = ascii_written(t, o, ifd0, TAG_DATE_TIME, st).0;
    lemma_ascii_written_at(t, o, ifd0, TAG_DATE_TIME, st);
    if t1 != t {
        let m = entry_of(t, o, ifd0, TAG_DATE_TIME)->0;
        let p = read32(t, m + 8, o)->0;
        lemma_splice_elsewhere(t, p as int, st);
    }
}

/// Writing the original date, after a write that kept the EXIF directory at `s`
/// whole, leaves the bytes from `s` up to `hi` as the first block had them, when the
/// first block's original date lies outside them.
proof fn lemma_original_date_elsewhere(t: Seq<u8>, t1: Seq<u8>, o: Order, s: int, count: u16, hi: int, st: Seq<u8>)
    requires
        st.len() == 20,
        0 <= s,
        read16(t, s, o) == Some(count),
        hi <= s + 2 + 12 * count,
        same_between(t, t1, s, s + 2 + 12 * count),
        entry_of(t, o, s, TAG_DATE_TIME_ORIGINAL) matches Some(m)
            ==> (read32(t, m + 8, o) matches Some(p) ==> p + 20 <= s || p >= hi),
    ensures
        same_between(t, ascii_written(t1, o, s, TAG_DATE_TIME_ORIGINAL, st).0, s, hi),
{
    let dir_end = s + 2 + 12 * count;
    let t2 = ascii_written(t1, o, s, TAG_DATE_TIME_ORIGINAL, st).0;
    lemma_reads_same(t, t1, o, s, s, dir_end);
    lemma_ascii_written_at(t1, o, s, TAG_DATE_TIME_ORIGINAL, st);
    if t2 != t1 {
        let m = entry_of(t1, o, s, TAG_DATE_TIME_ORIGINAL)->0;
        let p = read32(t1, m + 8, o)->0;
        lemma_entry_from_shape(t1, o, s, TAG_DATE_TIME_ORIGINAL, 0, count as int);
        lemma_entry_from_inside(t1, o, s, TAG_DATE_TIME_ORIGINAL, 0, count as int);
        assert(same_between(t1, t, s + 2, m + 2));
        lemma_entry_from_same(t1, t, o, s, TAG_DATE_TIME_ORIGINAL, 0, count as int, m);
        lemma_reads_same(t, t1, o, m + 8, s, dir_end);
        lemma_splice_elsewhere(t1, p as int, st);
    }
}

/// A block that holds the same bytes as the first from a directory up to the end of
/// its entry for `tag` takes the stamp where the first block's entry points.
proof fn lemma_date_written_in_place(t: Seq<u8>, t2: Seq<u8>, o: Order, s: int, count: u16, tag: u16, e: int, at: u32, st: Seq<u8>)
    requires
        st.len() == 20,
        0 <= s,
        read16(t, s, o) == Some(count),
        entry_of(t, o, s, tag) == Some(e),
        s + 2 <= e,
        same_between(t, t2, s, e + 12),
        read16(t, e + 2, o) == Some(TYPE_ASCII),
        read32(t, e + 4, o) == Some(20u32),
        read32(t, e + 8, o) == Some(at),
        at + 20 <= t.len(),
    ensures
        ascii_written(t2, o, s, tag, st) == (splice(t2, at as int, st), true),
{
    lemma_reads_same(t, t2, o, s, s, e + 12);
    assert(same_between(t, t2, s + 2, e + 2));
    lemma_entry_from_same(t, t2, o, s, tag, 0, count as int, e);
    lemma_reads_same(t, t2, o, e + 2, s, e + 12);
    lemma_reads_same(t, t2, o, e + 4, s, e + 12);
    lemma_reads_same(t, t2, o, e + 8, s, e + 12);
}

/// Writing the date for `tag` into the directory at `s` of a block that holds the
/// directory as the first block did leaves the bytes from `lo` up to `hi` alone, when
/// the first block's entry for `tag` points outside them.
proof fn lemma_sub_write_elsewhere(t: Seq<u8>, ta: Seq<u8>, o: Order, s: int, count: u16, tag: u16, st: Seq<u8>, lo: int, hi: int)
    requires
        st.len() == 20,
        0 <= s,
        read16(t, s, o) == Some(count),
        same_between(t, ta, s, s + 2 + 12 * count),
        entry_of(t, o, s, tag) matches Some(m)
            ==> (read32(t, m + 8, o) matches Some(q) ==> q + 20 <= lo || q >= hi),
    ensures
        same_between(ta, ascii_written(ta, o, s, tag, st).0, lo, hi),
        ascii_written(ta, o, s, tag, st).0.len() == ta.len(),
{
    let dir_end = s + 2 + 12 * count;
    let tb = ascii_written(ta, o, s, tag, st).0;
    lemma_reads_same(t, ta, o, s, s, dir_end);
    lemma_ascii_written_at(ta, o, s, tag, st);
    if tb != ta {
        let m = entry_of(ta, o, s, tag)->0;
        let q = read32(ta, m + 8, o)->0;
        lemma_entry_from_shape(ta, o, s, tag, 0, count as int);
        lemma_entry_from_inside(ta, o, s, tag, 0, count as int);
        assert(same_between(ta, t, s + 2, m + 2));
        lemma_entry_from_same(ta, t, o, s, tag, 0, count as int, m);
        lemma_reads_same(t, ta, o, m + 8, s, dir_end);
        lemma_splice_elsewhere(ta, q as int, st);
    }
}

/// Two blocks that hold the same bytes as a third over a range hold the same bytes
/// as each other there, and over any range inside it.
proof fn lemma_same_between_chain(t: Seq<u8>, u: Seq<u8>, v: Seq<u8>, lo: int, hi: int, lo2: int, hi2: int)
    requires
        same_between(t, u, lo, hi),
        same_between(u, v, lo, hi),
        lo <= lo2,
        hi2 <= hi,
    ensures
        same_between(t, v, lo2, hi2),
{
}

/// Where the date goes: when a JPEG's EXIF directory holds a DateTimeDigitized entry
/// of twenty ASCII bytes, writing the date taken puts its stamp in those bytes and
/// says it wrote, provided the bytes of the other two dates lie outside the EXIF
/// directory (the main date outside all of it, the original date outside it up to
/// the digitised entry).
pub proof fn law_the_digitized_date_takes_the_stamp(
    j: Seq<u8>,
    d: Taken,
    a: int,
    b: int,
    o: Order,
    ifd0: int,
    xe: int,
    s32: u32,
    count: u16,
    e: int,
    at: u32,
)
    requires
        exif_span(j) == Some((a, b)),
        0 <= a <= b <= j.len(),
        tiff_header(j.subrange(a, b)) == Some((o, ifd0)),
        stamp_of(d) is Some,
        entry_of(j.subrange(a, b), o, ifd0, TAG_EXIF_IFD) == Some(xe),
        read32(j.subrange(a, b), xe + 8, o) == Some(s32),
        read16(j.subrange(a, b), s32 as int, o) == Some(count),
        entry_of(j.subrange(a, b), o, s32 as int, TAG_DATE_TIME_DIGITIZED) == Some(e),
        read16(j.subrange(a, b), e + 2, o) == Some(TYPE_ASCII),
        read32(j.subrange(a, b), e + 4, o) == Some(20u32),
        read32(j.subrange(a, b), e + 8, o) == Some(at),
        at + 20 <= b - a,
        entry_of(j.subrange(a, b), o, ifd0, TAG_DATE_TIME) matches Some(m)
            ==> (read32(j.subrange(a, b), m + 8, o) matches Some(p) ==> p + 20 <= s32 || p >= s32 + 2 + 12 * count),
        entry_of(j.subrange(a, b), o, s32 as int, TAG_DATE_TIME_ORIGINAL) matches Some(m)
            ==> (read32(j.subrange(a, b), m + 8, o) matches Some(p) ==> p + 20 <= s32 || p >= e + 12),
    ensures
        jpeg_taken_written(j, d).1,
        jpeg_taken_written(j, d).0.subrange(a + at, a + at + 20) == stamp_of(d)->0,
{
    let t = j.subrange(a, b);
    let st = stamp_of(d)->0;
    assert(st.len() == 20);
    let s = s32 as int;
    let dir_end = s + 2 + 12 * count;
    lemma_entry_from_shape(t, o, s, TAG_DATE_TIME_DIGITIZED, 0, count as int);
    lemma_entry_from_inside(t, o, s, TAG_DATE_TIME_DIGITIZED, 0, count as int);
    let t1 = ascii_written(t, o, ifd0, TAG_DATE_TIME, st).0;
    lemma_main_date_elsewhere(t, o, ifd0, st, s, dir_end);
    let t2 = ascii_written(t1, o, s, TAG_DATE_TIME_ORIGINAL, st).0;
    lemma_original_date_elsewhere(t, t1, o, s, count, e + 12, st);
    lemma_date_written_in_place(t, t2, o, s, count, TAG_DATE_TIME_DIGITIZED, e, at, st);
    let t3 = splice(t2, at as int, st);
    lemma_splice_elsewhere(t2, at as int, st);
    assert(taken_written(t, d) == (t3, true));
    lemma_splice_elsewhere(j, a, t3);
    let out = splice(j, a, t3);
    assert forall|i: int| 0 <= i < 20 implies #[trigger] out.subrange(a + at, a + at + 20)[i] == st[i] by {
        assert(out[a + at + i] == t3[at + i]);
        assert(t3.subrange(at as int, at + 20)[i] == t3[at + i]);
    }
    assert(out.subrange(a + at, a + at + 20) =~= st);
}

/// The main date takes the stamp: when a JPEG's main directory holds a DateTime
/// entry of twenty ASCII bytes and its EXIF directory is there, writing the date
/// taken puts the stamp in those bytes and says it wrote, provided the three dates'
/// bytes lie outside the EXIF directory and the original and digitised dates' bytes
/// do not overlap the main date's.
pub proof fn law_the_main_date_takes_the_stamp(
    j: Seq<u8>,
    d: Taken,
    a: int,
    b: int,
    o: Order,
    ifd0: int,
    count0: u16,
    e0: int,
    p0: u32,
    xe: int,
    s32: u32,
    count: u16,
)
    requires
        exif_span(j) == Some((a, b)),
        0 <= a <= b <= j.len(),
        tiff_header(j.subrange(a, b)) == Some((o, ifd0)),
        0 <= ifd0,
        stamp_of(d) is Some,
        read16(j.subrange(a, b), ifd0, o) == Some(count0),
        entry_of(j.subrange(a, b), o, ifd0, TAG_DATE_TIME) == Some(e0),
        read16(j.subrange(a, b), e0 + 2, o) == Some(TYPE_ASCII),
        read32(j.subrange(a, b), e0 + 4, o) == Some(20u32),
        read32(j.subrange(a, b), e0 + 8, o) == Some(p0),
        p0 + 20 <= b - a,
        entry_of(j.subrange(a, b), o, ifd0, TAG_EXIF_IFD) == Some(xe),
        read32(j.subrange(a, b), xe + 8, o) == Some(s32),
        read16(j.subrange(a, b), s32 as int, o) == Some(count),
        p0 + 20 <= s32 || p0 >= s32 + 2 + 12 * count,
        entry_of(j.subrange(a, b), o, s32 as int, TAG_DATE_TIME_ORIGINAL) matches Some(m)
            ==> (read32(j.subrange(a, b), m + 8, o) matches Some(q) ==> (q + 20 <= s32 || q >= s32 + 2 + 12 * count)
                && (q + 20 <= p0 || q >= p0 + 20)),
        entry_of(j.subrange(a, b), o, s32 as int, TAG_DATE_TIME_DIGITIZED) matches Some(m)
            ==> (read32(j.subrange(a, b), m + 8, o) matches Some(q) ==> q + 20 <= p0 || q >= p0 + 20),
    ensures
        jpeg_taken_written(j, d).1,
        jpeg_taken_written(j, d).0.subrange(a + p0, a + p0 + 20) == stamp_of(d)->0,
{
    let t = j.subrange(a, b);
    let st = stamp_of(d)->0;
    assert(st.len() == 20);
    let s = s32 as int;
    let dir_end = s + 2 + 12 * count;
    lemma_entry_from_shape(t, o, ifd0, TAG_DATE_TIME, 0, count0 as int);
    lemma_date_written_in_place(t, t, o, ifd0, count0, TAG_DATE_TIME, e0, p0, st);
    let t1 = splice(t, p0 as int, st);
    lemma_splice_elsewhere(t, p0 as int, st);
    assert(same_between(t, t1, s, dir_end));
    let t2 = ascii_written(t1, o, s, TAG_DATE_TIME_ORIGINAL, st).0;
    lemma_sub_write_elsewhere(t, t1, o, s, count, TAG_DATE_TIME_ORIGINAL, st, p0 as int, p0 + 20);
    lemma_sub_write_elsewhere(t, t1, o, s, count, TAG_DATE_TIME_ORIGINAL, st, s, dir_end);
    lemma_same_between_chain(t, t1, t2, s, dir_end, s, dir_end);
    let t3 = ascii_written(t2, o, s, TAG_DATE_TIME_DIGITIZED, st).0;
    lemma_sub_write_elsewhere(t, t2, o, s, count, TAG_DATE_TIME_DIGITIZED, st, p0 as int, p0 + 20);
    assert(taken_written(t, d).0 == t3 && taken_written(t, d).1);
    assert forall|i: int| 0 <= i < 20 implies #[trigger] t3[p0 + i] == st[i] by {
        assert(t3[p0 + i] == t2[p0 + i]);
        assert(t2[p0 + i] == t1[p0 + i]);
        assert(t1.subrange(p0 as int, p0 + 20)[i] == t1[p0 + i]);
    }
    lemma_splice_elsewhere(j, a, t3);
    let out = splice(j, a, t3);
    assert forall|i: int| 0 <= i < 20 implies #[trigger] out.subrange(a + p0, a + p0 + 20)[i] == st[i] by {
        assert(out[a + p0 + i] == t3[p0 + i]);
    }
    assert(out.subrange(a + p0, a + p0 + 20) =~= st);
}

/// The original date takes the stamp: when a JPEG's EXIF directory holds a
/// DateTimeOriginal entry of twenty ASCII bytes, writing the date taken puts the
/// stamp in those bytes and says it wrote, provided the main and original dates'
/// bytes lie outside the EXIF directory and the digitised date's bytes do not overlap
/// the original date's.
pub proof fn law_the_original_date_takes_the_stamp(
    j: Seq<u8>,
    d: Taken,
    a: int,
    b: int,
    o: Order,
    ifd0: int,
    xe: int,
    s32: u32,
    count: u16,
    e1: int,
    p1: u32,
)
    requires
        exif_span(j) == Some((a, b)),
        0 <= a <= b <= j.len(),
        tiff_header(j.subrange(a, b)) == Some((o, ifd0)),
        stamp_of(d) is Some,
        entry_of(j.subrange(a, b), o, ifd0, TAG_EXIF_IFD) == Some(xe),
        read32(j.subrange(a, b), xe + 8, o) == Some(s32),
        read16(j.subrange(a, b), s32 as int, o) == Some(count),
        entry_of(j.subrange(a, b), o, s32 as int, TAG_DATE_TIME_ORIGINAL) == Some(e1),
        read16(j.subrange(a, b), e1 + 2, o) == Some(TYPE_ASCII),
        read32(j.subrange(a, b), e1 + 4, o) == Some(20u32),
        read32(j.subrange(a, b), e1 + 8, o) == Some(p1),
        p1 + 20 <= b - a,
        p1 + 20 <= s32 || p1 >= s32 + 2 + 12 * count,
        entry_of(j.subrange(a, b), o, ifd0, TAG_DATE_TIME) matches Some(m)
            ==> (read32(j.subrange(a, b), m + 8, o) matches Some(q) ==> q + 20 <= s32 || q >= s32 + 2 + 12 * count),
        entry_of(j.subrange(a, b), o, s32 as int, TAG_DATE_TIME_DIGITIZED) matches Some(m)
            ==> (read32(j.subrange(a, b), m + 8, o) matches Some(q) ==> q + 20 <= p1 || q >= p1 + 20),
    ensures
        jpeg_taken_written(j, d).1,
        jpeg_taken_written(j, d).0.subrange(a + p1, a + p1 + 20) == stamp_of(d)->0,
{
    let t = j.subrange(a, b);
    let st = stamp_of(d)->0;
    assert(st.len() == 20);
    let s = s32 as int;
    let dir_end = s + 2 + 12 * count;
    lemma_entry_from_shape(t, o, s, TAG_DATE_TIME_ORIGINAL, 0, count as int);
    lemma_entry_from_inside(t, o, s, TAG_DATE_TIME_ORIGINAL, 0, count as int);
    let t1 = ascii_written(t, o, ifd0, TAG_DATE_TIME, st).0;
    lemma_main_date_elsewhere(t, o, ifd0, st, s, dir_end);
    lemma_date_written_in_place(t, t1, o, s, count, TAG_DATE_TIME_ORIGINAL, e1, p1, st);
    let t2 = splice(t1, p1 as int, st);
    lemma_splice_elsewhere(t1, p1 as int, st);
    lemma_same_between_chain(t, t1, t2, s, dir_end, s, dir_end);
    let t3 = ascii_written(t2, o, s, TAG_DATE_TIME_DIGITIZED, st).0;
    lemma_sub_write_elsewhere(t, t2, o, s, count, TAG_DATE_TIME_DIGITIZED, st, p1 as int, p1 + 20);
    assert(taken_written(t, d).0 == t3 && taken_written(t, d).1);
    assert forall|i: int| 0 <= i < 20 implies #[trigger] t3[p1 + i] == st[i] by {
        assert(t3[p1 + i] == t2[p1 + i]);
        assert(t2.subrange(p1 as int, p1 + 20)[i] == t2[p1 + i]);
    }
    lemma_splice_elsewhere(j, a, t3);
    let out = splice(j, a, t3);
    assert forall|i: int| 0 <= i < 20 implies #[trigger] out.subrange(a + p1, a + p1 + 20)[i] == st[i] by {
        assert(out[a + p1 + i] == t3[p1 + i]);
    }
    assert(out.subrange(a + p1, a + p1 + 20) =~= st);
}

/// The stamp spells the date as EXIF keeps it: four digits of year, `:`, two of
/// month, `:`, two of day, a space, two of hour, `:`, two of minute, `:`, two of
/// second, and a zero byte; each group of digits reads back as its field. There is a
/// stamp exactly when every field fits its digits.
pub proof fn law_the_stamp_spells_the_date(d: Taken)
    ensures
        (stamp_of(d) is Some) <==> (0 <= d.year <= 9999 && d.month < 100 && d.day < 100 && d.hour < 100
            && d.minute < 100 && d.second < 100),
        stamp_of(d) matches Some(v) ==> {
            &&& v.len() == 20
            &&& v[4] == 58 && v[7] == 58 && v[10] == 32 && v[13] == 58 && v[16] == 58 && v[19] == 0
            &&& forall|i: int| #![trigger v[i]] 0 <= i < 19 && i != 4 && i != 7 && i != 10 && i != 13 && i != 16
                ==> 48 <= v[i] <= 57
            &&& (v[0] - 48) * 1000 + (v[1] - 48) * 100 + (v[2] - 48) * 10 + (v[3] - 48) == d.year
            &&& (v[5] - 48) * 10 + (v[6] - 48) == d.month
            &&& (v[8] - 48) * 10 + (v[9] - 48) == d.day
            &&& (v[11] - 48) * 10 + (v[12] - 48) == d.hour
            &&& (v[14] - 48) * 10 + (v[15] - 48) == d.minute
            &&& (v[17] - 48) * 10 + (v[18] - 48) == d.second
        },
{
    if stamp_of(d) is Some {
        let v = stamp_of(d)->0;
        let y = d.year as int;
        lemma_two_digits(y / 100);
        lemma_two_digits(y % 100);
        lemma_two_digits(d.month as int);
        lemma_two_digits(d.day as int);
        lemma_two_digits(d.hour as int);
        lemma_two_digits(d.minute as int);
        lemma_two_digits(d.second as int);
        assert(y == 100 * (y / 100) + y % 100);
        assert(v[0] == two_digits(y / 100)[0] && v[1] == two_digits(y / 100)[1]);
        assert(v[2] == two_digits(y % 100)[0] && v[3] == two_digits(y % 100)[1]);
        assert(v[5] == two_digits(d.month as int)[0] && v[6] == two_digits(d.month as int)[1]);
        assert(v[8] == two_digits(d.day as int)[0] && v[9] == two_digits(d.day as int)[1]);
        assert(v[11] == two_digits(d.hour as int)[0] && v[12] == two_digits(d.hour as int)[1]);
        assert(v[14] == two_digits(d.minute as int)[0] && v[15] == two_digits(d.minute as int)[1]);
        assert(v[17] == two_digits(d.second as int)[0] && v[18] == two_digits(d.second as int)[1]);
    }
}

/// Two digits of a number below a hundred are ASCII digits that read back as it.
proof fn lemma_two_digits(n: int)
    requires
        0 <= n < 100,
    ensures
        48 <= two_digits(n)[0] <= 57,
        48 <= two_digits(n)[1] <= 57,
        (two_digits(n)[0] - 48) * 10 + (two_digits(n)[1] - 48) == n,
{
    assert(0 <= n / 10 < 10 && 0 <= n % 10 < 10 && n == 10 * (n / 10) + n % 10);
}

} // verus!
