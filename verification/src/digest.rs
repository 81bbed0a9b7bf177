//! BLAKE3 digests and their hexadecimal spelling.
use vstd::prelude::*;

verus! {

/// The 32 bytes that `blake3::hash` gives for `bytes`.
pub uninterp spec fn blake3_of(bytes: Seq<u8>) -> Seq<u8>;

/// Calls `blake3::hash`: the BLAKE3 digest of `bytes`, 32 bytes long as the crate's
/// `OUT_LEN` fixes it. Which bytes come out is named, not written out.
#[verifier::external_body]
pub fn blake3_digest(bytes: &[u8]) -> (r: Vec<u8>)
    ensures
        r@ == blake3_of(bytes@),
        r@.len() == 32,
{
    blake3::hash(bytes).as_bytes().to_vec()
}

/// The lowercase hexadecimal digit for `d`.
pub open spec fn hex_digit(d: u8) -> char {
    if d < 10 {
        (('0' as u8) + d) as char
    } else {
        (('a' as u8) + (d - 10)) as char
    }
}

/// The bytes `b` in lowercase hexadecimal, two digits a byte, high half first, as
/// `blake3::Hash::to_hex` writes them.
pub open spec fn hex(b: Seq<u8>) -> Seq<char>
    decreases b.len(),
{
    if b.len() == 0 {
        Seq::empty()
    } else {
        hex(b.drop_last()) + seq![hex_digit(b.last() / 16), hex_digit(b.last() % 16)]
    }
}

proof fn lemma_hex_len(b: Seq<u8>)
    ensures
        hex(b).len() == 2 * b.len(),
    decreases b.len(),
{
    if b.len() > 0 {
        lemma_hex_len(b.drop_last());
    }
}

fn digit(d: u8) -> (c: char)
    requires
        d < 16,
    ensures
        c == hex_digit(d),
{
    if d < 10 {
        crate::text::char_from_ascii(48 + d as u32)
    } else {
        crate::text::char_from_ascii(97 + (d - 10) as u32)
    }
}

/// The bytes `b` in lowercase hexadecimal.
pub fn hex_of(b: &[u8]) -> (r: Vec<char>)
    ensures
        r@ == hex(b@),
        r@.len() == 2 * b@.len(),
{
    let mut r: Vec<char> = Vec::new();
    let mut i: usize = 0;
    while i < b.len()
        invariant
            i <= b@.len(),
            r@ == hex(b@.take(i as int)),
        decreases b.len() - i,
    {
        let x = b[i];
        assert(b@.take(i + 1).drop_last() =~= b@.take(i as int));
        r.push(digit(x / 16));
        r.push(digit(x % 16));
        i = i + 1;
        assert(r@ =~= hex(b@.take(i as int)));
    }
    assert(b@.take(i as int) =~= b@);
    proof { lemma_hex_len(b@); }
    r
}

/// The digest a file is known by: the BLAKE3 digest of its bytes in lowercase
/// hexadecimal.
pub fn content_digest(bytes: &[u8]) -> (r: String)
    ensures
        r@ == hex(blake3_of(bytes@)),
{
    let digest = blake3_digest(bytes);
    let h = hex_of(digest.as_slice());
    crate::text::string_of(&h)
}

} // verus!
