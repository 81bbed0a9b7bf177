//! Pictures that look alike: the fingerprint distance between two of them, the bands
//! a fingerprint is cut into to find its neighbours quickly, and the groups that come
//! out.
use vstd::prelude::*;
use crate::paths::{extension, extension_of, is_listed, listed};
use crate::raw::{spec_is_raw_extension, RAW_EXTENSIONS};
use crate::text::{ascii_lowercase, spec_ascii_lowercase};
use crate::order::{key_lt, lemma_key_order, pos_lt, positions, sort_positions, sorted_by, text_lt, SortKey};
use crate::paths::{parent, parent_of};

verus! {

/// Shots further apart than this, in seconds, are not one burst.
pub const BURST_GAP_SECONDS: i64 = 10;
/// Fingerprints at most this many bits apart are the same shot taken twice.
pub const NEAR_DUPLICATE_BITS: u32 = 10;
/// Fingerprints at most this many bits apart are the same picture saved twice.
pub const LOOKALIKE_BITS: u32 = 6;
/// How many bands a fingerprint is cut into when looking for neighbours.
pub const LOOKALIKE_BANDS: u32 = 8;
/// The side of the square a picture is shrunk to before it is fingerprinted.
pub const HASH_SIDE: u32 = 32;
/// How many bits a fingerprint has.
pub const HASH_BITS: usize = 64;

/// The extensions of the pictures a fingerprint can be taken of, raw files aside.
pub const HASHABLE: [&'static str; 13] = [
    "jpg", "jpeg", "jpe", "png", "webp", "tif", "tiff", "bmp", "gif", "avif", "heic", "heif", "hif",
];

/// Whether a fingerprint can be taken of the file at `p`: its extension, in any case,
/// is a decodable picture format or a raw format.
pub open spec fn spec_hashable(p: Seq<char>) -> bool {
    match extension_of(p) {
        Some(e) => listed(HASHABLE@, spec_ascii_lowercase(e)) || spec_is_raw_extension(e),
        None => false,
    }
}

/// Whether a fingerprint can be taken of the file at `path`.
pub fn hashable(path: &str) -> (b: bool)
    ensures
        b == spec_hashable(path@),
{
    match extension(path) {
        Some(e) => {
            let lowered = ascii_lowercase(&e);
            is_listed(&HASHABLE, &lowered) || is_listed(&RAW_EXTENSIONS, &lowered)
        },
        None => false,
    }
}

/// Bit `i` of `x`.
pub open spec fn bit(x: u64, i: u64) -> u64 {
    (x >> i) & 1
}

/// How many of the lowest `n` bits differ between `a` and `b`.
pub open spec fn differing_below(a: u64, b: u64, n: nat) -> nat
    decreases n,
{
    if n == 0 {
        0
    } else {
        differing_below(a, b, (n - 1) as nat) + if bit(a, (n - 1) as u64) != bit(b, (n - 1) as u64) {
            1nat
        } else {
            0nat
        }
    }
}

/// The Hamming distance between two fingerprints: in how many of their 64 bits they
/// differ.
pub open spec fn spec_hamming(a: u64, b: u64) -> nat {
    differing_below(a, b, 64)
}

proof fn lemma_differing_bounded(a: u64, b: u64, n: nat)
    ensures
        differing_below(a, b, n) <= n,
    decreases n,
{
    if n > 0 {
        lemma_differing_bounded(a, b, (n - 1) as nat);
    }
}

/// How many bits two fingerprints differ in.
pub fn hamming(a: u64, b: u64) -> (r: u32)
    ensures
        r == spec_hamming(a, b),
{
    let x: u64 = a ^ b;
    let mut count: u32 = 0;
    let mut i: u64 = 0;
    while i < 64
        invariant
            i <= 64,
            x == a ^ b,
            count == differing_below(a, b, i as nat),
        decreases 64 - i,
    {
        proof {
            lemma_differing_bounded(a, b, i as nat);
        }
        assert((((a ^ b) >> i) & 1 == 1) == (((a >> i) & 1) != ((b >> i) & 1))) by (bit_vector)
            requires
                i < 64,
        ;
        if (x >> i) & 1 == 1 {
            count = count + 1;
        }
        i = i + 1;
    }
    count
}

/// A fingerprint is no distance from itself.
pub proof fn law_a_fingerprint_matches_itself(a: u64)
    ensures
        spec_hamming(a, a) == 0,
{
    lemma_same_differs_nowhere(a, 64);
}

proof fn lemma_same_differs_nowhere(a: u64, n: nat)
    ensures
        differing_below(a, a, n) == 0,
    decreases n,
{
    if n > 0 {
        lemma_same_differs_nowhere(a, (n - 1) as nat);
    }
}

proof fn lemma_differing_symmetric(a: u64, b: u64, n: nat)
    ensures
        differing_below(a, b, n) == differing_below(b, a, n),
    decreases n,
{
    if n > 0 {
        lemma_differing_symmetric(a, b, (n - 1) as nat);
    }
}

/// The distance between two fingerprints does not depend on which comes first.
pub proof fn law_distance_is_symmetric(a: u64, b: u64)
    ensures
        spec_hamming(a, b) == spec_hamming(b, a),
{
    lemma_differing_symmetric(a, b, 64);
}

/// No two fingerprints differ in more than all 64 bits.
pub proof fn law_distance_is_at_most_the_width(a: u64, b: u64)
    ensures
        spec_hamming(a, b) <= 64,
{
    lemma_differing_bounded(a, b, 64);
}

proof fn lemma_differing_triangle(a: u64, b: u64, c: u64, n: nat)
    ensures
        differing_below(a, c, n) <= differing_below(a, b, n) + differing_below(b, c, n),
    decreases n,
{
    if n > 0 {
        lemma_differing_triangle(a, b, c, (n - 1) as nat);
    }
}

/// Going through a third fingerprint is never shorter than the direct distance.
pub proof fn law_distance_obeys_the_triangle(a: u64, b: u64, c: u64)
    ensures
        spec_hamming(a, c) <= spec_hamming(a, b) + spec_hamming(b, c),
{
    lemma_differing_triangle(a, b, c, 64);
}

proof fn lemma_low_bits_agree(a: u64, b: u64, n: u64)
    requires
        n <= 64,
        differing_below(a, b, n as nat) == 0,
    ensures
        n < 64 ==> (a & (((1u64 << n) - 1) as u64)) == (b & (((1u64 << n) - 1) as u64)),
        n == 64 ==> a == b,
    decreases n,
{
    if n == 0 {
        assert((a & (((1u64 << 0u64) - 1) as u64)) == (b & (((1u64 << 0u64) - 1) as u64))) by (bit_vector);
    } else {
        let m: u64 = (n - 1) as u64;
        lemma_low_bits_agree(a, b, m);
        assert(bit(a, m) == bit(b, m));
        assert(((a >> m) & 1) == ((b >> m) & 1));
        if n < 64 {
            assert((a & (((1u64 << m) - 1) as u64)) == (b & (((1u64 << m) - 1) as u64)) && ((a >> m) & 1) == ((b >> m) & 1) && m < 63
                ==> (a & (((1u64 << ((m + 1) as u64)) - 1) as u64)) == (b & (((1u64 << ((m + 1) as u64)) - 1) as u64))) by (bit_vector);
        } else {
            assert(m == 63);
            assert((a & (((1u64 << m) - 1) as u64)) == (b & (((1u64 << m) - 1) as u64)) && ((a >> m) & 1) == ((b >> m) & 1) && m == 63
                ==> a == b) by (bit_vector);
        }
    }
}

/// Two fingerprints are no distance apart exactly when they are the same.
pub proof fn law_no_distance_means_the_same_fingerprint(a: u64, b: u64)
    ensures
        (spec_hamming(a, b) == 0) == (a == b),
{
    if spec_hamming(a, b) == 0 {
        lemma_low_bits_agree(a, b, 64);
    }
    if a == b {
        lemma_same_differs_nowhere(a, 64);
    }
}

/// Band `band` of a fingerprint: its eight bits starting at bit `8 * band`.
pub open spec fn spec_band_of(hash: u64, band: u32) -> u64 {
    (hash >> ((band * 8) as u64)) & 0xff
}

/// One of the eight bands of a fingerprint.
pub fn band_of(hash: u64, band: u32) -> (r: u64)
    requires
        band < LOOKALIKE_BANDS,
    ensures
        r == spec_band_of(hash, band),
        r < 256,
{
    let width: u32 = 64 / LOOKALIKE_BANDS;
    assert(1u64 << 8u32 == 256u64) by (bit_vector);
    let mask: u64 = (1u64 << width) - 1;
    let shift: u32 = band * width;
    let r = (hash >> shift) & mask;
    assert((hash >> (shift as u64)) & 0xff < 256) by (bit_vector);
    r
}

/// The eight bands of a fingerprint cover every bit of it exactly once: put back in
/// their places they give the fingerprint again.
pub proof fn law_every_band_covers_the_hash_once(hash: u64)
    ensures
        hash == spec_band_of(hash, 0) | (spec_band_of(hash, 1) << 8u64) | (spec_band_of(hash, 2)
            << 16u64) | (spec_band_of(hash, 3) << 24u64) | (spec_band_of(hash, 4) << 32u64) | (
        spec_band_of(hash, 5) << 40u64) | (spec_band_of(hash, 6) << 48u64) | (spec_band_of(
            hash,
            7,
        ) << 56u64),
{
    assert(hash == ((hash >> 0u64) & 0xff) | (((hash >> 8u64) & 0xff) << 8u64) | (((hash >> 16u64)
        & 0xff) << 16u64) | (((hash >> 24u64) & 0xff) << 24u64) | (((hash >> 32u64) & 0xff)
        << 32u64) | (((hash >> 40u64) & 0xff) << 40u64) | (((hash >> 48u64) & 0xff) << 48u64) | (((
    hash >> 56u64) & 0xff) << 56u64)) by (bit_vector);
}

/// A run of shots taken seconds apart that look the same: the one to keep, and all
/// of them.
#[derive(Debug, Clone, PartialEq, Eq)]
pub struct Burst {
    pub keeper: String,
    pub members: Vec<String>,
}

/// The same picture found in several folders: the copy to keep, all of them, and in
/// how many folders they lie.
#[derive(Debug, Clone, PartialEq, Eq)]
pub struct Lookalike {
    pub keeper: String,
    pub members: Vec<String>,
    pub folders: usize,
}

/// The members of a group other than the one kept, in their order.
pub open spec fn others_of(keeper: Seq<char>, members: Seq<Seq<char>>) -> Seq<Seq<char>> {
    members.filter(|m: Seq<char>| m != keeper)
}

/// The members other than `keeper`, in order.
fn others_among(keeper: &String, members: &Vec<String>) -> (r: Vec<String>)
    ensures
        r@.map_values(|s: String| s@) == others_of(keeper@, members@.map_values(|s: String| s@)),
{
    let mut r: Vec<String> = Vec::new();
    let mut i: usize = 0;
    while i < members.len()
        invariant
            i <= members.len(),
            r@.map_values(|s: String| s@) == others_of(
                keeper@,
                members@.take(i as int).map_values(|s: String| s@),
            ),
        decreases members.len() - i,
    {
        let ghost before = members@.take(i as int).map_values(|s: String| s@);
        assert(members@.take(i + 1).map_values(|s: String| s@) =~= before.push(members@[i as int]@));
        let keep = !same_text(&members[i], keeper);
        if keep {
            r.push(members[i].clone());
        }
        proof {
            let m = members@[i as int]@;
            let f = |x: Seq<char>| x != keeper@;
            assert(before.push(m).filter(f) == if f(m) { before.filter(f).push(m) } else { before.filter(f) }) by {
                reveal(Seq::filter);
                assert(before.push(m).drop_last() =~= before);
            }
        }
        i = i + 1;
        assert(r@.map_values(|s: String| s@) =~= others_of(keeper@, members@.take(i as int).map_values(|s: String| s@)));
    }
    assert(members@.take(i as int) =~= members@);
    r
}

/// Whether two strings hold the same characters.
fn same_text(a: &String, b: &String) -> (r: bool)
    ensures
        r == (a@ == b@),
{
    let x = crate::text::chars_of(a.as_str());
    let y = crate::text::chars_of(b.as_str());
    crate::text::same_chars(&x, &y)
}

impl Burst {
    /// The shots of the burst other than the one kept.
    pub fn others(&self) -> (r: Vec<String>)
        ensures
            r@.map_values(|s: String| s@) == others_of(self.keeper@, self.members@.map_values(|s: String| s@)),
    {
        others_among(&self.keeper, &self.members)
    }
}

impl Lookalike {
    /// The copies other than the one kept.
    pub fn others(&self) -> (r: Vec<String>)
        ensures
            r@.map_values(|s: String| s@) == others_of(self.keeper@, self.members@.map_values(|s: String| s@)),
    {
        others_among(&self.keeper, &self.members)
    }
}


// ---------------------------------------------------------------------------
// Bursts
// ---------------------------------------------------------------------------
/// What the grouping knows of one file: where it is, when it was taken (in seconds),
/// how large it is, its fingerprint if one could be taken, and its rating as an
/// integer that orders ratings as they order themselves (`None` when it has no
/// finite rating, which ranks below every rating).
#[derive(Debug, Clone, PartialEq, Eq)]
pub struct BurstFacts {
    pub source: String,
    pub taken: i64,
    pub size: u64,
    pub hash: Option<u64>,
    pub rating: Option<i32>,
}

/// The folder of the file at `p`: the path without its last component, or nothing.
pub open spec fn folder_of(p: Seq<char>) -> Seq<char> {
    match parent_of(p) {
        Some(f) => f,
        None => Seq::empty(),
    }
}

/// Whether position `i` of `facts` comes before position `j` in a burst scan: by
/// folder, then time taken, then path, then position.
pub open spec fn fact_before(facts: Seq<BurstFacts>, i: int, j: int) -> bool {
    let a = facts[i];
    let b = facts[j];
    if folder_of(a.source@) != folder_of(b.source@) {
        text_lt(folder_of(a.source@), folder_of(b.source@))
    } else if a.taken != b.taken {
        a.taken < b.taken
    } else if a.source@ != b.source@ {
        text_lt(a.source@, b.source@)
    } else {
        i < j
    }
}

/// Whether `ord` lists exactly the fingerprinted positions of `facts`, each once, in
/// scan order.
pub open spec fn scan_order(facts: Seq<BurstFacts>, ord: Seq<usize>) -> bool {
    &&& forall|k: int| 0 <= k < ord.len() ==> (#[trigger] ord[k]) < facts.len() && facts[ord[k] as int].hash is Some
    &&& forall|i: int| 0 <= i < facts.len() && (#[trigger] facts[i]).hash is Some ==> ord.contains(i as usize)
    &&& forall|a: int, b: int| 0 <= a < b < ord.len() ==> fact_before(facts, #[trigger] ord[a] as int, #[trigger] ord[b] as int)
}

/// How far apart two times are, in seconds.
pub open spec fn gap(a: i64, b: i64) -> int {
    if b >= a { b - a } else { a - b }
}

/// Whether the shot at position `j` carries on the burst of the shot at `i`: same
/// folder, both fingerprinted, at most ten seconds apart, and fingerprints at most ten
/// bits apart.
pub open spec fn continues(facts: Seq<BurstFacts>, i: int, j: int) -> bool {
    let a = facts[i];
    let b = facts[j];
    &&& folder_of(a.source@) == folder_of(b.source@)
    &&& a.hash is Some && b.hash is Some
    &&& gap(a.taken, b.taken) <= BURST_GAP_SECONDS
    &&& spec_hamming(a.hash->0, b.hash->0) <= NEAR_DUPLICATE_BITS
}

/// The maximal runs of `ord` in which each shot carries on the burst of the one
/// before it.
pub open spec fn runs(facts: Seq<BurstFacts>, ord: Seq<usize>) -> Seq<Seq<usize>>
    decreases ord.len(),
{
    if ord.len() == 0 {
        Seq::empty()
    } else {
        let rs = runs(facts, ord.drop_last());
        let x = ord.last();
        if rs.len() > 0 && rs.last().len() > 0 && continues(facts, rs.last().last() as int, x as int) {
            rs.drop_last().push(rs.last().push(x))
        } else {
            rs.push(seq![x])
        }
    }
}

/// How a rating ranks: its integer, and below every rating when there is none.
pub open spec fn rating_rank(r: Option<i32>) -> int {
    match r {
        Some(v) => v as int,
        None => i32::MIN - 1,
    }
}

/// Whether the shot at `i` ranks above the one at `j` as a keeper: a better rating,
/// then a larger file, then the path that sorts first.
pub open spec fn ranks_above(facts: Seq<BurstFacts>, i: int, j: int) -> bool {
    let a = facts[i];
    let b = facts[j];
    if rating_rank(a.rating) != rating_rank(b.rating) {
        rating_rank(a.rating) > rating_rank(b.rating)
    } else if a.size != b.size {
        a.size > b.size
    } else {
        text_lt(a.source@, b.source@)
    }
}

/// The shot a run keeps: the one ranking highest, the last of them where several rank
/// alike.
pub open spec fn best(facts: Seq<BurstFacts>, run: Seq<usize>) -> int
    decreases run.len(),
{
    if run.len() <= 1 {
        run[0] as int
    } else {
        let b = best(facts, run.drop_last());
        if ranks_above(facts, b, run.last() as int) {
            b
        } else {
            run.last() as int
        }
    }
}

/// A burst as the contracts see it: the path kept, and the paths of all its shots.
pub open spec fn burst_view(b: Burst) -> (Seq<char>, Seq<Seq<char>>) {
    (b.keeper@, b.members@.map_values(|s: String| s@))
}

/// The burst a run makes.
pub open spec fn run_burst(facts: Seq<BurstFacts>, run: Seq<usize>) -> (Seq<char>, Seq<Seq<char>>) {
    (facts[best(facts, run)].source@, run.map_values(|i: usize| facts[i as int].source@))
}

/// The bursts of the runs `rs` that hold at least two shots, in order.
pub open spec fn long_bursts(facts: Seq<BurstFacts>, rs: Seq<Seq<usize>>) -> Seq<(Seq<char>, Seq<Seq<char>>)>
    decreases rs.len(),
{
    if rs.len() == 0 {
        Seq::empty()
    } else {
        let b = long_bursts(facts, rs.drop_last());
        if rs.last().len() >= 2 {
            b.push(run_burst(facts, rs.last()))
        } else {
            b
        }
    }
}

/// Whether burst `i` of `bs` is listed before burst `j`: more shots first, then by
/// the path kept, then as they were found.
pub open spec fn burst_before(bs: Seq<(Seq<char>, Seq<Seq<char>>)>, i: int, j: int) -> bool {
    if bs[i].1.len() != bs[j].1.len() {
        bs[i].1.len() > bs[j].1.len()
    } else if bs[i].0 != bs[j].0 {
        text_lt(bs[i].0, bs[j].0)
    } else {
        i < j
    }
}

/// Whether `out` is `bs` listed in `burst_before` order.
pub open spec fn listed_in_order(out: Seq<(Seq<char>, Seq<Seq<char>>)>, bs: Seq<(Seq<char>, Seq<Seq<char>>)>) -> bool {
    exists|perm: Seq<usize>|
        #![trigger perm.to_multiset()]
        {
            &&& perm.to_multiset() == positions(bs.len()).to_multiset()
            &&& perm.len() == bs.len()
            &&& forall|k: int| 0 <= k < perm.len() ==> (#[trigger] perm[k]) < bs.len()
            &&& forall|a: int, b: int| 0 <= a < b < perm.len() ==> burst_before(bs, #[trigger] perm[a] as int, #[trigger] perm[b] as int)
            &&& out.len() == bs.len()
            &&& forall|k: int| 0 <= k < out.len() ==> #[trigger] out[k] == bs[perm[k] as int]
        }
}


/// The folder of each file, as characters.
fn folders_of(facts: &[BurstFacts]) -> (r: Vec<Vec<char>>)
    ensures
        r@.len() == facts@.len(),
        forall|i: int| 0 <= i < facts@.len() ==> #[trigger] r@[i]@ == folder_of(facts@[i].source@),
{
    let mut r: Vec<Vec<char>> = Vec::new();
    let mut i: usize = 0;
    while i < facts.len()
        invariant
            i <= facts@.len(),
            r@.len() == i,
            forall|k: int| 0 <= k < i ==> #[trigger] r@[k]@ == folder_of(facts@[k].source@),
        decreases facts.len() - i,
    {
        let f = match parent(facts[i].source.as_str()) {
            Some(p) => crate::text::chars_of(p.as_str()),
            None => Vec::new(),
        };
        r.push(f);
        i = i + 1;
    }
    r
}

/// The fingerprinted positions of `facts`, in scan order.
fn scan_positions(facts: &[BurstFacts], folders: &Vec<Vec<char>>) -> (ord: Vec<usize>)
    requires
        folders@.len() == facts@.len(),
        forall|i: int| 0 <= i < facts@.len() ==> #[trigger] folders@[i]@ == folder_of(facts@[i].source@),
    ensures
        scan_order(facts@, ord@),
{
    let mut keys: Vec<SortKey> = Vec::new();
    let mut i: usize = 0;
    while i < facts.len()
        invariant
            i <= facts@.len(),
            folders@.len() == facts@.len(),
            keys@.len() == i,
            forall|k: int| 0 <= k < i ==> (#[trigger] keys@[k]).first@ == folders@[k]@ && keys@[k].number
                == facts@[k].taken && keys@[k].second@ == facts@[k].source@,
        decreases facts.len() - i,
    {
        keys.push(SortKey {
            first: folders[i].clone(),
            number: facts[i].taken as i128,
            second: crate::text::chars_of(facts[i].source.as_str()),
        });
        i = i + 1;
    }
    assert forall|a: int, b: int| 0 <= a < facts@.len() && 0 <= b < facts@.len() implies #[trigger] pos_lt(keys@, a, b)
        == fact_before(facts@, a, b) by {
        lemma_key_order(keys@[a], keys@[b], keys@[a]);
    }
    let sorted = sort_positions(&keys);
    let mut ord: Vec<usize> = Vec::new();
    let mut k: usize = 0;
    while k < sorted.len()
        invariant
            k <= sorted@.len(),
            sorted@.len() == facts@.len(),
            keys@.len() == facts@.len(),
            forall|m: int| 0 <= m < sorted@.len() ==> #[trigger] sorted@[m] < facts@.len(),
            sorted_by(keys@, sorted@),
            forall|a: int, b: int| 0 <= a < facts@.len() && 0 <= b < facts@.len() ==> #[trigger] pos_lt(keys@, a, b)
                == fact_before(facts@, a, b),
            forall|m: int| 0 <= m < ord@.len() ==> (#[trigger] ord@[m]) < facts@.len() && facts@[ord@[m] as int].hash is Some,
            forall|m: int| 0 <= m < k && facts@[sorted@[m] as int].hash is Some ==> ord@.contains(#[trigger] sorted@[m]),
            forall|a: int, b: int| 0 <= a < b < ord@.len() ==> fact_before(facts@, #[trigger] ord@[a] as int, #[trigger] ord@[b] as int),
            forall|m: int| 0 <= m < ord@.len() ==> exists|t: int| 0 <= t < k && sorted@[t] == #[trigger] ord@[m],
        decreases sorted.len() - k,
    {
        let x = sorted[k];
        if facts[x].hash.is_some() {
            proof {
                assert forall|a: int| 0 <= a < ord@.len() implies fact_before(facts@, #[trigger] ord@[a] as int, x as int) by {
                    let t = choose|t: int| 0 <= t < k && sorted@[t] == ord@[a];
                    assert(pos_lt(keys@, sorted@[t] as int, sorted@[k as int] as int));
                }
            }
            let ghost before = ord@;
            ord.push(x);
            proof {
                assert forall|m: int| 0 <= m < ord@.len() implies exists|t: int| 0 <= t < k + 1 && sorted@[t] == #[trigger] ord@[m] by {
                    if m < before.len() {
                        assert(ord@[m] == before[m]);
                        let t = choose|t: int| 0 <= t < k && sorted@[t] == before[m];
                        assert(sorted@[t] == ord@[m]);
                    } else {
                        assert(sorted@[k as int] == ord@[m]);
                    }
                }
                assert forall|m: int| 0 <= m < k + 1 && facts@[sorted@[m] as int].hash is Some implies ord@.contains(#[trigger] sorted@[m]) by {
                    if m < k {
                        assert(before.contains(sorted@[m]));
                        let w = choose|w: int| 0 <= w < before.len() && before[w] == sorted@[m];
                        assert(ord@[w] == sorted@[m]);
                    } else {
                        assert(ord@[before.len() as int] == sorted@[m]);
                    }
                }
            }
        }
        k = k + 1;
    }
    proof {
        broadcast use vstd::seq_lib::group_to_multiset_ensures;
        assert forall|i: int| 0 <= i < facts@.len() && (#[trigger] facts@[i]).hash is Some implies ord@.contains(i as usize) by {
            assert(positions(facts@.len()).contains(i as usize)) by {
                assert(positions(facts@.len())[i] == i as usize);
            }
            assert(sorted@.to_multiset().count(i as usize) > 0);
            assert(sorted@.contains(i as usize));
            let m = choose|m: int| 0 <= m < sorted@.len() && sorted@[m] == i as usize;
            assert(facts@[sorted@[m] as int].hash is Some);
        }
    }
    ord
}


fn continues_at(facts: &[BurstFacts], folders: &Vec<Vec<char>>, i: usize, j: usize) -> (r: bool)
    requires
        i < facts@.len(),
        j < facts@.len(),
        folders@.len() == facts@.len(),
        forall|k: int| 0 <= k < facts@.len() ==> #[trigger] folders@[k]@ == folder_of(facts@[k].source@),
    ensures
        r == continues(facts@, i as int, j as int),
{
    if !crate::text::same_chars(&folders[i], &folders[j]) {
        return false;
    }
    match (facts[i].hash, facts[j].hash) {
        (Some(a), Some(b)) => {
            let d: i128 = facts[j].taken as i128 - facts[i].taken as i128;
            let apart: i128 = if d >= 0 { d } else { -d };
            apart <= BURST_GAP_SECONDS as i128 && hamming(a, b) <= NEAR_DUPLICATE_BITS
        },
        _ => false,
    }
}

fn ranks_above_at(facts: &[BurstFacts], i: usize, j: usize) -> (r: bool)
    requires
        i < facts@.len(),
        j < facts@.len(),
    ensures
        r == ranks_above(facts@, i as int, j as int),
{
    let ra: i64 = match facts[i].rating {
        Some(v) => v as i64,
        None => -2_147_483_649,
    };
    let rb: i64 = match facts[j].rating {
        Some(v) => v as i64,
        None => -2_147_483_649,
    };
    if ra != rb {
        return ra > rb;
    }
    if facts[i].size != facts[j].size {
        return facts[i].size > facts[j].size;
    }
    let a = crate::text::chars_of(facts[i].source.as_str());
    let b = crate::text::chars_of(facts[j].source.as_str());
    crate::order::text_less(&a, &b)
}

/// The position a run keeps.
fn best_of(facts: &[BurstFacts], run: &Vec<usize>) -> (r: usize)
    requires
        run@.len() > 0,
        forall|k: int| 0 <= k < run@.len() ==> #[trigger] run@[k] < facts@.len(),
    ensures
        r == best(facts@, run@),
        r < facts@.len(),
{
    let mut b = run[0];
    let mut k: usize = 1;
    assert(run@.take(1) =~= seq![run@[0]]);
    while k < run.len()
        invariant
            1 <= k <= run@.len(),
            forall|m: int| 0 <= m < run@.len() ==> #[trigger] run@[m] < facts@.len(),
            b == best(facts@, run@.take(k as int)),
            b < facts@.len(),
        decreases run.len() - k,
    {
        assert(run@.take(k + 1).drop_last() =~= run@.take(k as int));
        assert(run@.take(k + 1).last() == run@[k as int]);
        if !ranks_above_at(facts, b, run[k]) {
            b = run[k];
        }
        k = k + 1;
    }
    assert(run@.take(k as int) =~= run@);
    b
}

/// The burst a run of at least two shots makes.
fn burst_of(facts: &[BurstFacts], run: &Vec<usize>) -> (r: Burst)
    requires
        run@.len() > 0,
        forall|k: int| 0 <= k < run@.len() ==> #[trigger] run@[k] < facts@.len(),
    ensures
        burst_view(r) == run_burst(facts@, run@),
{
    let keeper = best_of(facts, run);
    let members = sources_of(facts, run);
    Burst { keeper: facts[keeper].source.clone(), members }
}

proof fn lemma_runs_nonempty(facts: Seq<BurstFacts>, ord: Seq<usize>)
    ensures
        forall|k: int| 0 <= k < runs(facts, ord).len() ==> (#[trigger] runs(facts, ord)[k]).len() > 0,
        ord.len() > 0 ==> runs(facts, ord).len() > 0,
    decreases ord.len(),
{
    if ord.len() > 0 {
        lemma_runs_nonempty(facts, ord.drop_last());
        let rs = runs(facts, ord.drop_last());
        let x = ord.last();
        if rs.len() > 0 && rs.last().len() > 0 && continues(facts, rs.last().last() as int, x as int) {
            let t = rs.drop_last().push(rs.last().push(x));
            assert forall|k: int| 0 <= k < t.len() implies (#[trigger] t[k]).len() > 0 by {
                if k < t.len() - 1 {
                    assert(t[k] == rs[k]);
                }
            }
        } else {
            let t = rs.push(seq![x]);
            assert forall|k: int| 0 <= k < t.len() implies (#[trigger] t[k]).len() > 0 by {
                if k < t.len() - 1 {
                    assert(t[k] == rs[k]);
                }
            }
        }
    }
}

/// Groups the shots of each folder taken seconds apart that look the same into bursts.
/// Files without a fingerprint are left out. The fingerprinted shots are scanned by
/// folder, time and path; each maximal run in which every shot carries on from the
/// one before it, with at least two shots, is a burst, keeping its best ranked shot.
/// The bursts come largest first, then by the path they keep.
pub fn group_bursts(facts: &[BurstFacts]) -> (r: Vec<Burst>)
    ensures
        exists|ord: Seq<usize>|
            #![trigger runs(facts@, ord)]
            scan_order(facts@, ord) && listed_in_order(
                r@.map_values(|b: Burst| burst_view(b)),
                long_bursts(facts@, runs(facts@, ord)),
            ),
{
    let folders = folders_of(facts);
    let ord = scan_positions(facts, &folders);
    let mut found: Vec<Burst> = Vec::new();
    let mut run: Vec<usize> = Vec::new();
    let ghost mut done: Seq<Seq<usize>> = Seq::empty();
    let mut k: usize = 0;
    while k < ord.len()
        invariant
            k <= ord@.len(),
            scan_order(facts@, ord@),
            folders@.len() == facts@.len(),
            forall|m: int| 0 <= m < facts@.len() ==> #[trigger] folders@[m]@ == folder_of(facts@[m].source@),
            k == 0 ==> run@.len() == 0 && done.len() == 0,
            k > 0 ==> run@.len() > 0 && runs(facts@, ord@.take(k as int)) == done.push(run@),
            forall|m: int| 0 <= m < run@.len() ==> #[trigger] run@[m] < facts@.len(),
            found@.map_values(|b: Burst| burst_view(b)) == long_bursts(facts@, done),
        decreases ord.len() - k,
    {
        let x = ord[k];
        assert(ord@.take(k + 1).drop_last() =~= ord@.take(k as int));
        assert(ord@.take(k + 1).last() == x);
        proof { lemma_runs_nonempty(facts@, ord@.take(k as int)); }
        if run.len() > 0 && continues_at(facts, &folders, run[run.len() - 1], x) {
            let ghost old_run = run@;
            run.push(x);
            proof {
                let rs = runs(facts@, ord@.take(k as int));
                assert(rs.last() == old_run);
                assert(rs.drop_last() =~= done);
            }
        } else {
            if run.len() >= 2 {
                let b = burst_of(facts, &run);
                found.push(b);
            }
            proof {
                if k > 0 {
                    assert(done.push(run@).drop_last() =~= done);
                    let ghost f = found@.map_values(|b: Burst| burst_view(b));
                    assert(f =~= long_bursts(facts@, done.push(run@)));
                    done = done.push(run@);
                }
            }
            run = Vec::new();
            run.push(x);
            proof {
                if k == 0 {
                    assert(ord@.take(0) =~= Seq::<usize>::empty());
                    assert(runs(facts@, Seq::<usize>::empty()) == Seq::<Seq<usize>>::empty());
                    assert(runs(facts@, ord@.take(1)) =~= seq![seq![x]]);
                    assert(done.push(run@) =~= seq![seq![x]]);
                } else {
                    assert(run@ =~= seq![x]);
                }
            }
        }
        k = k + 1;
    }
    if run.len() >= 2 {
        let b = burst_of(facts, &run);
        found.push(b);
    }
    let ghost all_runs = if run@.len() > 0 { done.push(run@) } else { done };
    proof {
        assert(ord@.take(k as int) =~= ord@);
        if run@.len() > 0 {
            assert(done.push(run@).drop_last() =~= done);
        } else {
            assert(ord@.len() == 0);
        }
        assert(found@.map_values(|b: Burst| burst_view(b)) =~= long_bursts(facts@, all_runs));
        assert(all_runs == runs(facts@, ord@));
    }
    let out = largest_first(found);
    assert(scan_order(facts@, ord@));
    out
}


/// A copy of the strings `v`.
fn copy_strings(v: &Vec<String>) -> (r: Vec<String>)
    ensures
        r@.map_values(|s: String| s@) == v@.map_values(|s: String| s@),
{
    let mut r: Vec<String> = Vec::new();
    let mut k: usize = 0;
    while k < v.len()
        invariant
            k <= v@.len(),
            r@.map_values(|s: String| s@) == v@.take(k as int).map_values(|s: String| s@),
        decreases v.len() - k,
    {
        let ghost before = r@.map_values(|s: String| s@);
        r.push(v[k].clone());
        assert(r@.map_values(|s: String| s@) =~= before.push(v@[k as int]@));
        assert(v@.take(k + 1).map_values(|s: String| s@) =~= v@.take(k as int).map_values(|s: String| s@).push(v@[k as int]@));
        k = k + 1;
    }
    assert(v@.take(k as int) =~= v@);
    r
}

/// The bursts `found`, more shots first, then by the path kept, then as found.
fn largest_first(found: Vec<Burst>) -> (out: Vec<Burst>)
    ensures
        listed_in_order(out@.map_values(|b: Burst| burst_view(b)), found@.map_values(|b: Burst| burst_view(b))),
{
    let ghost bs = found@.map_values(|b: Burst| burst_view(b));
    let mut keys: Vec<SortKey> = Vec::new();
    let mut i: usize = 0;
    while i < found.len()
        invariant
            i <= found@.len(),
            bs == found@.map_values(|b: Burst| burst_view(b)),
            keys@.len() == i,
            forall|k: int| 0 <= k < i ==> (#[trigger] keys@[k]).first@ == Seq::<char>::empty() && keys@[k].number
                == -(bs[k].1.len() as int) && keys@[k].second@ == bs[k].0,
        decreases found.len() - i,
    {
        let n = found[i].members.len();
        let number: i128 = -(n as i128);
        keys.push(SortKey {
            first: Vec::new(),
            number,
            second: crate::text::chars_of(found[i].keeper.as_str()),
        });
        i = i + 1;
    }
    assert forall|a: int, b: int| 0 <= a < found@.len() && 0 <= b < found@.len() implies #[trigger] pos_lt(keys@, a, b)
        == burst_before(bs, a, b) by {
        lemma_key_order(keys@[a], keys@[b], keys@[a]);
    }
    let perm = sort_positions(&keys);
    let mut out: Vec<Burst> = Vec::new();
    let mut k: usize = 0;
    while k < perm.len()
        invariant
            k <= perm@.len(),
            perm@.len() == found@.len(),
            bs == found@.map_values(|b: Burst| burst_view(b)),
            forall|m: int| 0 <= m < perm@.len() ==> #[trigger] perm@[m] < found@.len(),
            out@.len() == k,
            forall|m: int| 0 <= m < k ==> burst_view(#[trigger] out@[m]) == bs[perm@[m] as int],
        decreases perm.len() - k,
    {
        let b = &found[perm[k]];
        out.push(Burst { keeper: b.keeper.clone(), members: copy_strings(&b.members) });
        k = k + 1;
    }
    proof {
        let ov = out@.map_values(|b: Burst| burst_view(b));
        assert forall|m: int| 0 <= m < ov.len() implies #[trigger] ov[m] == bs[perm@[m] as int] by {
            assert(ov[m] == burst_view(out@[m]));
        }
        assert forall|a: int, b: int| 0 <= a < b < perm@.len() implies burst_before(bs, #[trigger] perm@[a] as int, #[trigger] perm@[b] as int) by {
            assert(pos_lt(keys@, perm@[a] as int, perm@[b] as int));
        }
        assert(perm@.to_multiset() == positions(bs.len()).to_multiset());
    }
    out
}


// ---------------------------------------------------------------------------
// Lookalikes across folders
// ---------------------------------------------------------------------------
/// Whether two fingerprints agree in at least one of their eight bands.
pub open spec fn shares_band(a: u64, b: u64) -> bool {
    exists|band: u32| band < LOOKALIKE_BANDS && #[trigger] spec_band_of(a, band) == spec_band_of(b, band)
}

/// Whether the files at positions `i` and `j` are the same picture by their
/// fingerprints: two different fingerprinted files whose fingerprints share a band and
/// are at most six bits apart.
pub open spec fn alike(facts: Seq<BurstFacts>, i: int, j: int) -> bool {
    &&& 0 <= i < facts.len() && 0 <= j < facts.len() && i != j
    &&& facts[i].hash is Some && facts[j].hash is Some
    &&& shares_band(facts[i].hash->0, facts[j].hash->0)
    &&& spec_hamming(facts[i].hash->0, facts[j].hash->0) <= LOOKALIKE_BITS
}

/// Whether `p` is a chain of files, each alike to the next.
pub open spec fn is_chain(facts: Seq<BurstFacts>, p: Seq<int>) -> bool {
    &&& p.len() >= 1
    &&& forall|k: int| 0 <= k < p.len() - 1 ==> #[trigger] alike(facts, p[k], p[k + 1])
}

/// Whether a chain of alike files leads from the fingerprinted file at `i` to the one
/// at `j`.
pub open spec fn linked(facts: Seq<BurstFacts>, i: int, j: int) -> bool {
    &&& 0 <= i < facts.len() && facts[i].hash is Some
    &&& exists|p: Seq<int>| #[trigger] is_chain(facts, p) && p[0] == i && p.last() == j
}

proof fn lemma_alike_symmetric(facts: Seq<BurstFacts>, i: int, j: int)
    requires
        alike(facts, i, j),
    ensures
        alike(facts, j, i),
{
    law_distance_is_symmetric(facts[i].hash->0, facts[j].hash->0);
    let band = choose|band: u32| band < LOOKALIKE_BANDS && #[trigger] spec_band_of(facts[i].hash->0, band)
        == spec_band_of(facts[j].hash->0, band);
    assert(spec_band_of(facts[j].hash->0, band) == spec_band_of(facts[i].hash->0, band));
}

proof fn lemma_linked_self(facts: Seq<BurstFacts>, i: int)
    requires
        0 <= i < facts.len(),
        facts[i].hash is Some,
    ensures
        linked(facts, i, i),
{
    let p = seq![i];
    assert(is_chain(facts, p));
}

proof fn lemma_linked_by_alike(facts: Seq<BurstFacts>, i: int, j: int)
    requires
        alike(facts, i, j),
    ensures
        linked(facts, i, j),
{
    let p = seq![i, j];
    assert(is_chain(facts, p)) by {
        assert forall|k: int| 0 <= k < p.len() - 1 implies #[trigger] alike(facts, p[k], p[k + 1]) by {
            assert(k == 0);
        }
    }
}

proof fn lemma_chain_ends_fingerprinted(facts: Seq<BurstFacts>, p: Seq<int>)
    requires
        is_chain(facts, p),
        p.len() >= 2,
    ensures
        0 <= p.last() < facts.len() && facts[p.last()].hash is Some,
{
    assert(alike(facts, p[p.len() - 2], p[p.len() - 2 + 1]));
}

proof fn lemma_linked_symmetric(facts: Seq<BurstFacts>, i: int, j: int)
    requires
        linked(facts, i, j),
    ensures
        linked(facts, j, i),
{
    let p = choose|p: Seq<int>| #[trigger] is_chain(facts, p) && p[0] == i && p.last() == j;
    let q = p.reverse();
    assert forall|k: int| 0 <= k < q.len() - 1 implies #[trigger] alike(facts, q[k], q[k + 1]) by {
        let m = p.len() - 2 - k;
        assert(alike(facts, p[m], p[m + 1]));
        lemma_alike_symmetric(facts, p[m], p[m + 1]);
    }
    assert(is_chain(facts, q));
    if p.len() >= 2 {
        lemma_chain_ends_fingerprinted(facts, p);
    }
}

proof fn lemma_linked_transitive(facts: Seq<BurstFacts>, i: int, j: int, k: int)
    requires
        linked(facts, i, j),
        linked(facts, j, k),
    ensures
        linked(facts, i, k),
{
    let p = choose|p: Seq<int>| #[trigger] is_chain(facts, p) && p[0] == i && p.last() == j;
    let q = choose|q: Seq<int>| #[trigger] is_chain(facts, q) && q[0] == j && q.last() == k;
    let r = p + q.skip(1);
    assert forall|m: int| 0 <= m < r.len() - 1 implies #[trigger] alike(facts, r[m], r[m + 1]) by {
        if m < p.len() - 1 {
            assert(alike(facts, p[m], p[m + 1]));
        } else if m == p.len() - 1 {
            let k0: int = 0;
            assert(0 <= k0 < q.len() - 1);
            assert(alike(facts, q[k0], q[k0 + 1]));
            assert(r[m] == q[k0] && r[m + 1] == q[k0 + 1]);
        } else {
            let t = m - p.len() + 1;
            assert(r[m] == q[t] && r[m + 1] == q[t + 1]);
            assert(alike(facts, q[t], q[t + 1]));
        }
    }
    assert(is_chain(facts, r));
    if q.len() == 1 {
        assert(r =~= p);
    }
}

/// Labels of the fingerprinted positions `seen` grouped into rings of alike pictures:
/// two fingerprinted files carry the same label exactly when a chain of alike files
/// links them.
pub open spec fn rings_of(facts: Seq<BurstFacts>, seen: Seq<usize>, label: Seq<usize>) -> bool {
    &&& label.len() == facts.len()
    &&& forall|a: int, b: int| 0 <= a < seen.len() && 0 <= b < seen.len() ==>
        (label[#[trigger] seen[a] as int] == label[#[trigger] seen[b] as int] <==> linked(facts, seen[a] as int, seen[b] as int))
}

/// Whether `seen` lists the fingerprinted positions of `facts`, ascending.
pub open spec fn fingerprinted(facts: Seq<BurstFacts>, seen: Seq<usize>) -> bool {
    &&& forall|k: int| 0 <= k < seen.len() ==> (#[trigger] seen[k]) < facts.len() && facts[seen[k] as int].hash is Some
    &&& forall|i: int| 0 <= i < facts.len() && (#[trigger] facts[i]).hash is Some ==> seen.contains(i as usize)
    &&& forall|a: int, b: int| 0 <= a < b < seen.len() ==> (#[trigger] seen[a]) < (#[trigger] seen[b])
}

/// The fingerprinted positions of `facts`, ascending.
pub(crate) fn fingerprinted_positions(facts: &[BurstFacts]) -> (seen: Vec<usize>)
    ensures
        fingerprinted(facts@, seen@),
{
    let mut seen: Vec<usize> = Vec::new();
    let mut i: usize = 0;
    while i < facts.len()
        invariant
            i <= facts@.len(),
            forall|k: int| 0 <= k < seen@.len() ==> (#[trigger] seen@[k]) < i && facts@[seen@[k] as int].hash is Some,
            forall|x: int| 0 <= x < i && (#[trigger] facts@[x]).hash is Some ==> seen@.contains(x as usize),
            forall|a: int, b: int| 0 <= a < b < seen@.len() ==> (#[trigger] seen@[a]) < (#[trigger] seen@[b]),
        decreases facts.len() - i,
    {
        if facts[i].hash.is_some() {
            let ghost before = seen@;
            seen.push(i);
            proof {
                assert forall|x: int| 0 <= x < i + 1 && (#[trigger] facts@[x]).hash is Some implies seen@.contains(x as usize) by {
                    if x < i {
                        let w = choose|w: int| 0 <= w < before.len() && before[w] == x as usize;
                        assert(seen@[w] == x as usize);
                    } else {
                        assert(seen@[before.len() as int] == x as usize);
                    }
                }
            }
        }
        i = i + 1;
    }
    seen
}


/// Whether two fingerprints agree in one of their bands.
fn share_a_band(a: u64, b: u64) -> (r: bool)
    ensures
        r == shares_band(a, b),
{
    let mut band: u32 = 0;
    while band < LOOKALIKE_BANDS
        invariant
            band <= LOOKALIKE_BANDS,
            forall|c: u32| c < band ==> #[trigger] spec_band_of(a, c) != spec_band_of(b, c),
        decreases LOOKALIKE_BANDS - band,
    {
        if band_of(a, band) == band_of(b, band) {
            return true;
        }
        band = band + 1;
    }
    false
}

/// Whether the files at `i` and `j` are alike.
fn alike_at(facts: &[BurstFacts], i: usize, j: usize) -> (r: bool)
    requires
        i < facts@.len(),
        j < facts@.len(),
    ensures
        r == alike(facts@, i as int, j as int),
{
    if i == j {
        return false;
    }
    match (facts[i].hash, facts[j].hash) {
        (Some(a), Some(b)) => share_a_band(a, b) && hamming(a, b) <= LOOKALIKE_BITS,
        _ => false,
    }
}

/// The rings of alike pictures, as a label for each position; the label of a ring is
/// that of the first member it was joined to.
struct Rings {
    label: Vec<usize>,
}

impl Rings {
    /// Every position in a ring of its own.
    fn new(size: usize) -> (r: Rings)
        ensures
            r.label@.len() == size,
            forall|i: int| 0 <= i < size ==> #[trigger] r.label@[i] == i,
    {
        let mut label: Vec<usize> = Vec::new();
        let mut i: usize = 0;
        while i < size
            invariant
                i <= size,
                label@.len() == i,
                forall|k: int| 0 <= k < i ==> #[trigger] label@[k] == k,
            decreases size - i,
        {
            label.push(i);
            i = i + 1;
        }
        Rings { label }
    }

    /// The ring of `node`.
    fn find(&self, node: usize) -> (r: usize)
        requires
            node < self.label@.len(),
        ensures
            r == self.label@[node as int],
    {
        self.label[node]
    }

    /// Joins the ring of `b` into the ring of `a`: among the positions `seen`, every
    /// member of the ring of `b` takes the label of the ring of `a`.
    fn join(&mut self, seen: &Vec<usize>, a: usize, b: usize)
        requires
            a < old(self).label@.len(),
            b < old(self).label@.len(),
            forall|k: int| 0 <= k < seen@.len() ==> (#[trigger] seen@[k]) < old(self).label@.len(),
            forall|x: int, y: int| 0 <= x < y < seen@.len() ==> (#[trigger] seen@[x]) < (#[trigger] seen@[y]),
        ensures
            final(self).label@.len() == old(self).label@.len(),
            forall|k: int| 0 <= k < seen@.len() ==> #[trigger] final(self).label@[seen@[k] as int] == (if old(self).label@[seen@[k] as int]
                == old(self).label@[b as int] {
                old(self).label@[a as int]
            } else {
                old(self).label@[seen@[k] as int]
            }),
    {
        let la = self.find(a);
        let lb = self.find(b);
        if la == lb {
            return;
        }
        let mut t: usize = 0;
        while t < seen.len()
            invariant
                t <= seen@.len(),
                self.label@.len() == old(self).label@.len(),
                la == old(self).label@[a as int],
                lb == old(self).label@[b as int],
                forall|k: int| 0 <= k < seen@.len() ==> (#[trigger] seen@[k]) < old(self).label@.len(),
                forall|x: int, y: int| 0 <= x < y < seen@.len() ==> (#[trigger] seen@[x]) < (#[trigger] seen@[y]),
                forall|k: int| 0 <= k < t ==> #[trigger] self.label@[seen@[k] as int] == (if old(self).label@[seen@[k] as int] == lb {
                    la
                } else {
                    old(self).label@[seen@[k] as int]
                }),
                forall|k: int| t <= k < seen@.len() ==> #[trigger] self.label@[seen@[k] as int] == old(self).label@[seen@[k] as int],
            decreases seen.len() - t,
        {
            let x = seen[t];
            if self.label[x] == lb {
                self.label.set(x, la);
                proof {
                    assert forall|k: int| 0 <= k < seen@.len() && k != t implies seen@[k] != x by {
                        if k < t {
                            assert(seen@[k] < seen@[t as int]);
                        } else {
                            assert(seen@[t as int] < seen@[k]);
                        }
                    }
                }
            }
            t = t + 1;
        }
    }
}

/// The rings of alike pictures among the fingerprinted positions `seen`.
pub(crate) fn ring_labels(facts: &[BurstFacts], seen: &Vec<usize>) -> (label: Vec<usize>)
    requires
        fingerprinted(facts@, seen@),
    ensures
        rings_of(facts@, seen@, label@),
{
    let mut rings = Rings::new(facts.len());
    let m = seen.len();
    proof {
        assert forall|a: int, b: int| 0 <= a < m && 0 <= b < m implies (rings.label@[#[trigger] seen@[a] as int]
            == rings.label@[#[trigger] seen@[b] as int] ==> linked(facts@, seen@[a] as int, seen@[b] as int)) by {
            if rings.label@[seen@[a] as int] == rings.label@[seen@[b] as int] {
                if a < b {
                    assert(seen@[a] < seen@[b]);
                } else if b < a {
                    assert(seen@[b] < seen@[a]);
                }
                lemma_linked_self(facts@, seen@[a] as int);
            }
        }
    }
    let mut x: usize = 0;
    while x < m
        invariant
            x <= m,
            m == seen@.len(),
            fingerprinted(facts@, seen@),
            rings.label@.len() == facts@.len(),
            forall|a: int, b: int| 0 <= a < m && 0 <= b < m ==> (rings.label@[#[trigger] seen@[a] as int]
                == rings.label@[#[trigger] seen@[b] as int] ==> linked(facts@, seen@[a] as int, seen@[b] as int)),
            forall|a: int, b: int| 0 <= a < x && a < b < m && alike(facts@, #[trigger] seen@[a] as int, #[trigger] seen@[b] as int)
                ==> rings.label@[seen@[a] as int] == rings.label@[seen@[b] as int],
        decreases m - x,
    {
        let mut y: usize = x + 1;
        while y < m
            invariant
                x < m,
                x + 1 <= y <= m,
                m == seen@.len(),
                fingerprinted(facts@, seen@),
                rings.label@.len() == facts@.len(),
                forall|a: int, b: int| 0 <= a < m && 0 <= b < m ==> (rings.label@[#[trigger] seen@[a] as int]
                    == rings.label@[#[trigger] seen@[b] as int] ==> linked(facts@, seen@[a] as int, seen@[b] as int)),
                forall|a: int, b: int| 0 <= a < x && a < b < m && alike(facts@, #[trigger] seen@[a] as int, #[trigger] seen@[b] as int)
                    ==> rings.label@[seen@[a] as int] == rings.label@[seen@[b] as int],
                forall|b: int| x < b < y && alike(facts@, seen@[x as int] as int, #[trigger] seen@[b] as int)
                    ==> rings.label@[seen@[x as int] as int] == rings.label@[seen@[b] as int],
            decreases m - y,
        {
            let i = seen[x];
            let j = seen[y];
            if alike_at(facts, i, j) {
                let ghost old_label = rings.label@;
                rings.join(seen, i, j);
                proof {
                    let la = old_label[i as int];
                    let lb = old_label[j as int];
                    let f = |l: usize| if l == lb { la } else { l };
                    assert forall|k: int| 0 <= k < m implies #[trigger] rings.label@[seen@[k] as int] == f(old_label[seen@[k] as int]) by {}
                    lemma_linked_by_alike(facts@, i as int, j as int);
                    lemma_linked_symmetric(facts@, i as int, j as int);
                    assert forall|a: int, b: int| 0 <= a < m && 0 <= b < m implies (rings.label@[#[trigger] seen@[a] as int]
                        == rings.label@[#[trigger] seen@[b] as int] ==> linked(facts@, seen@[a] as int, seen@[b] as int)) by {
                        let sa = seen@[a] as int;
                        let sb = seen@[b] as int;
                        if rings.label@[sa] == rings.label@[sb] && old_label[sa] != old_label[sb] {
                            if old_label[sa] == lb {
                                assert(old_label[sb] == la);
                                assert(old_label[sa] == old_label[seen@[y as int] as int]);
                                assert(old_label[sb] == old_label[seen@[x as int] as int]);
                                assert(linked(facts@, sa, j as int));
                                assert(linked(facts@, i as int, sb));
                                lemma_linked_transitive(facts@, sa, j as int, i as int);
                                lemma_linked_transitive(facts@, sa, i as int, sb);
                            } else {
                                assert(old_label[sb] == lb);
                                assert(old_label[sa] == la);
                                assert(old_label[sb] == old_label[seen@[y as int] as int]);
                                assert(old_label[sa] == old_label[seen@[x as int] as int]);
                                assert(linked(facts@, sa, i as int));
                                assert(linked(facts@, j as int, sb));
                                lemma_linked_transitive(facts@, sa, i as int, j as int);
                                lemma_linked_transitive(facts@, sa, j as int, sb);
                            }
                        }
                    }
                }
            }
            y = y + 1;
        }
        x = x + 1;
    }
    proof {
        assert forall|a: int, b: int| 0 <= a < m && 0 <= b < m implies (rings.label@[#[trigger] seen@[a] as int]
            == rings.label@[#[trigger] seen@[b] as int] <==> linked(facts@, seen@[a] as int, seen@[b] as int)) by {
            if linked(facts@, seen@[a] as int, seen@[b] as int) {
                lemma_linked_same_label(facts@, seen@, rings.label@, seen@[a] as int, seen@[b] as int);
            }
        }
    }
    rings.label
}

/// Where every pair of alike fingerprinted files carries one label, every chain does.
proof fn lemma_linked_same_label(facts: Seq<BurstFacts>, seen: Seq<usize>, label: Seq<usize>, i: int, j: int)
    requires
        fingerprinted(facts, seen),
        facts.len() <= usize::MAX,
        label.len() == facts.len(),
        forall|a: int, b: int| 0 <= a < seen.len() && a < b < seen.len() && alike(facts, #[trigger] seen[a] as int, #[trigger] seen[b] as int)
            ==> label[seen[a] as int] == label[seen[b] as int],
        linked(facts, i, j),
    ensures
        label[i] == label[j],
{
    let p = choose|p: Seq<int>| #[trigger] is_chain(facts, p) && p[0] == i && p.last() == j;
    lemma_chain_same_label(facts, seen, label, p);
}

proof fn lemma_chain_same_label(facts: Seq<BurstFacts>, seen: Seq<usize>, label: Seq<usize>, p: Seq<int>)
    requires
        fingerprinted(facts, seen),
        facts.len() <= usize::MAX,
        label.len() == facts.len(),
        forall|a: int, b: int| 0 <= a < seen.len() && a < b < seen.len() && alike(facts, #[trigger] seen[a] as int, #[trigger] seen[b] as int)
            ==> label[seen[a] as int] == label[seen[b] as int],
        is_chain(facts, p),
    ensures
        label[p[0]] == label[p.last()],
    decreases p.len(),
{
    if p.len() >= 2 {
        let q = p.drop_last();
        assert(is_chain(facts, q)) by {
            assert forall|k: int| 0 <= k < q.len() - 1 implies #[trigger] alike(facts, q[k], q[k + 1]) by {
                assert(alike(facts, p[k], p[k + 1]));
            }
        }
        lemma_chain_same_label(facts, seen, label, q);
        let u = p[p.len() - 2];
        let v = p[p.len() - 1];
        let k0 = p.len() - 2;
        assert(alike(facts, p[k0], p[k0 + 1]));
        assert(seen.contains(u as usize));
        assert(seen.contains(v as usize));
        let a = choose|a: int| 0 <= a < seen.len() && seen[a] == u as usize;
        let b = choose|b: int| 0 <= b < seen.len() && seen[b] == v as usize;
        assert(alike(facts, u, v));
        assert(seen[a] as int == u && seen[b] as int == v);
        if a < b {
            assert(alike(facts, seen[a] as int, seen[b] as int));
        } else if b < a {
            lemma_alike_symmetric(facts, u, v);
            assert(alike(facts, seen[b] as int, seen[a] as int));
        }
    }
}


/// The digest of a file's bytes, as characters.
pub open spec fn digest_view(d: Option<String>) -> Option<Seq<char>> {
    match d {
        Some(s) => Some(s@),
        None => None,
    }
}

/// The members of the ring `g` kept once their contents are compared: each file whose
/// bytes could be read unless an earlier member holds the same bytes, and every file
/// whose bytes could not be read.
pub open spec fn kept(digests: Seq<Option<String>>, g: Seq<usize>) -> Seq<usize>
    decreases g.len(),
{
    if g.len() == 0 {
        Seq::empty()
    } else {
        let k = kept(digests, g.drop_last());
        let x = g.last();
        match digest_view(digests[x as int]) {
            None => k.push(x),
            Some(d) => if exists|t: int| 0 <= t < g.len() - 1 && #[trigger] digest_view(digests[g[t] as int]) == Some(d) {
                k
            } else {
                k.push(x)
            },
        }
    }
}

/// The different texts of `s`, each where it first comes.
pub open spec fn distinct_texts(s: Seq<Seq<char>>) -> Seq<Seq<char>>
    decreases s.len(),
{
    if s.len() == 0 {
        Seq::empty()
    } else {
        let d = distinct_texts(s.drop_last());
        if d.contains(s.last()) {
            d
        } else {
            d.push(s.last())
        }
    }
}

/// In how many folders the files at the positions `k` lie.
pub open spec fn folder_count(facts: Seq<BurstFacts>, k: Seq<usize>) -> nat {
    distinct_texts(k.map_values(|i: usize| folder_of(facts[i as int].source@))).len()
}

/// Whether the copy at `i` is a better keeper than the one at `j`: a larger file, then
/// the path that sorts first.
pub open spec fn bigger(facts: Seq<BurstFacts>, i: int, j: int) -> bool {
    facts[i].size > facts[j].size || (facts[i].size == facts[j].size && text_lt(facts[i].source@, facts[j].source@))
}

/// The copy kept of `k`: the best keeper, the last of them where several are alike.
pub open spec fn keeper_of(facts: Seq<BurstFacts>, k: Seq<usize>) -> int
    decreases k.len(),
{
    if k.len() <= 1 {
        k[0] as int
    } else {
        let b = keeper_of(facts, k.drop_last());
        if bigger(facts, b, k.last() as int) {
            b
        } else {
            k.last() as int
        }
    }
}

/// A set of lookalikes as the contracts see it: the path kept, the paths of all the
/// copies, and in how many folders they lie.
pub open spec fn lookalike_view(l: Lookalike) -> (Seq<char>, Seq<Seq<char>>, nat) {
    (l.keeper@, l.members@.map_values(|s: String| s@), l.folders as nat)
}

/// The lookalikes the rings `groups` make: of each ring, the members kept once their
/// contents are compared, when there are at least two of them and they lie in at
/// least two folders.
pub open spec fn looks(facts: Seq<BurstFacts>, digests: Seq<Option<String>>, groups: Seq<Seq<usize>>) -> Seq<
    (Seq<char>, Seq<Seq<char>>, nat),
>
    decreases groups.len(),
{
    if groups.len() == 0 {
        Seq::empty()
    } else {
        let b = looks(facts, digests, groups.drop_last());
        let k = kept(digests, groups.last());
        if k.len() >= 2 && folder_count(facts, k) >= 2 {
            b.push(
                (
                    facts[keeper_of(facts, k)].source@,
                    k.map_values(|i: usize| facts[i as int].source@),
                    folder_count(facts, k),
                ),
            )
        } else {
            b
        }
    }
}

/// The copies of `g` kept once their contents are compared.
#[verifier::rlimit(30)]
fn kept_of(digests: &Vec<Option<String>>, g: &Vec<usize>) -> (r: Vec<usize>)
    requires
        forall|k: int| 0 <= k < g@.len() ==> (#[trigger] g@[k]) < digests@.len(),
    ensures
        r@ == kept(digests@, g@),
        forall|k: int| 0 <= k < r@.len() ==> g@.contains(#[trigger] r@[k]),
{
    let mut held: Vec<Vec<char>> = Vec::new();
    let mut r: Vec<usize> = Vec::new();
    let mut t: usize = 0;
    while t < g.len()
        invariant
            t <= g@.len(),
            forall|k: int| 0 <= k < g@.len() ==> (#[trigger] g@[k]) < digests@.len(),
            r@ == kept(digests@, g@.take(t as int)),
            forall|k: int| 0 <= k < r@.len() ==> g@.contains(#[trigger] r@[k]),
            forall|q: int| 0 <= q < t && (#[trigger] digest_view(digests@[g@[q] as int])) is Some ==> exists|h: int|
                0 <= h < held@.len() && Some(#[trigger] held@[h]@) == digest_view(digests@[g@[q] as int]),
            forall|h: int| 0 <= h < held@.len() ==> exists|q: int|
                0 <= q < t && #[trigger] digest_view(digests@[g@[q] as int]) == Some(#[trigger] held@[h]@),
        decreases g.len() - t,
    {
        let x = g[t];
        let ghost pre = g@.take(t as int);
        assert(g@.take(t + 1).drop_last() =~= pre);
        assert(g@.take(t + 1).last() == x);
        assert forall|q: int| 0 <= q < t implies #[trigger] g@.take(t + 1)[q] == g@[q] by {}
        match &digests[x] {
            None => {
                r.push(x);
            },
            Some(d) => {
                let ghost old_held = held@;
                let dc = crate::text::chars_of(d.as_str());
                let mut h: usize = 0;
                let mut found = false;
                while h < held.len()
                    invariant
                        h <= held@.len(),
                        !found ==> forall|e: int| 0 <= e < h ==> (#[trigger] held@[e])@ != dc@,
                        found ==> exists|e: int| 0 <= e < held@.len() && (#[trigger] held@[e])@ == dc@,
                    decreases held.len() - h,
                {
                    if !found && crate::text::same_chars(&held[h], &dc) {
                        found = true;
                    }
                    h = h + 1;
                }
                proof {
                    assert(digest_view(digests@[x as int]) == Some(dc@));
                    if found {
                        let e = choose|e: int| 0 <= e < held@.len() && (#[trigger] held@[e])@ == dc@;
                        let q = choose|q: int| 0 <= q < t && #[trigger] digest_view(digests@[g@[q] as int]) == Some(held@[e]@);
                        assert(g@.take(t + 1)[q] == g@[q]);
                    } else {
                        if exists|q: int| 0 <= q < t && #[trigger] digest_view(digests@[g@.take(t + 1)[q] as int]) == Some(dc@) {
                            let q = choose|q: int| 0 <= q < t && #[trigger] digest_view(digests@[g@.take(t + 1)[q] as int]) == Some(dc@);
                            assert(g@.take(t + 1)[q] == g@[q]);
                        }
                    }
                }
                if !found {
                    r.push(x);
                    held.push(dc);
                }
                proof {
                    assert forall|q: int| 0 <= q < t + 1 && (#[trigger] digest_view(digests@[g@[q] as int])) is Some implies exists|hh: int|
                        0 <= hh < held@.len() && Some(#[trigger] held@[hh]@) == digest_view(digests@[g@[q] as int]) by {
                        if q < t {
                            let hh = choose|hh: int| 0 <= hh < old_held.len() && Some(#[trigger] old_held[hh]@) == digest_view(digests@[g@[q] as int]);
                            assert(held@[hh] == old_held[hh]);
                        } else if found {
                            let e = choose|e: int| 0 <= e < held@.len() && (#[trigger] held@[e])@ == dc@;
                            assert(Some(held@[e]@) == digest_view(digests@[g@[q] as int]));
                        } else {
                            let e = held@.len() - 1;
                            assert(Some(held@[e]@) == digest_view(digests@[g@[q] as int]));
                        }
                    }
                    assert forall|hh: int| 0 <= hh < held@.len() implies exists|q: int|
                        0 <= q < t + 1 && #[trigger] digest_view(digests@[g@[q] as int]) == Some(#[trigger] held@[hh]@) by {
                        if hh < old_held.len() {
                            assert(held@[hh] == old_held[hh]);
                            let q = choose|q: int| 0 <= q < t && #[trigger] digest_view(digests@[g@[q] as int]) == Some(#[trigger] old_held[hh]@);
                            assert(digest_view(digests@[g@[q] as int]) == Some(held@[hh]@));
                        } else {
                            assert(digest_view(digests@[g@[t as int] as int]) == Some(held@[hh]@));
                        }
                    }
                }
            },
        }
        proof {
            assert(r@ == kept(digests@, g@.take(t + 1)));
        }
        t = t + 1;
    }
    assert(g@.take(t as int) =~= g@);
    r
}


/// In how many folders the files at `k` lie.
fn folder_count_of(facts: &[BurstFacts], folders: &Vec<Vec<char>>, k: &Vec<usize>) -> (r: usize)
    requires
        folders@.len() == facts@.len(),
        forall|i: int| 0 <= i < facts@.len() ==> #[trigger] folders@[i]@ == folder_of(facts@[i].source@),
        forall|q: int| 0 <= q < k@.len() ==> (#[trigger] k@[q]) < facts@.len(),
    ensures
        r == folder_count(facts@, k@),
{
    let ghost names = k@.map_values(|i: usize| folder_of(facts@[i as int].source@));
    let mut fs: Vec<Vec<char>> = Vec::new();
    let mut t: usize = 0;
    while t < k.len()
        invariant
            t <= k@.len(),
            folders@.len() == facts@.len(),
            forall|i: int| 0 <= i < facts@.len() ==> #[trigger] folders@[i]@ == folder_of(facts@[i].source@),
            forall|q: int| 0 <= q < k@.len() ==> (#[trigger] k@[q]) < facts@.len(),
            names == k@.map_values(|i: usize| folder_of(facts@[i as int].source@)),
            fs@.map_values(|v: Vec<char>| v@) == distinct_texts(names.take(t as int)),
            fs@.len() <= t,
        decreases k.len() - t,
    {
        let f = &folders[k[t]];
        let ghost d = fs@.map_values(|v: Vec<char>| v@);
        assert(names.take(t + 1).drop_last() =~= names.take(t as int));
        assert(names.take(t + 1).last() == f@);
        let mut h: usize = 0;
        let mut found = false;
        while h < fs.len()
            invariant
                h <= fs@.len(),
                d == fs@.map_values(|v: Vec<char>| v@),
                found <==> exists|e: int| 0 <= e < h && d[e] == f@,
            decreases fs.len() - h,
        {
            assert(d[h as int] == fs@[h as int]@);
            if crate::text::same_chars(&fs[h], f) {
                found = true;
            }
            h = h + 1;
        }
        assert(found <==> d.contains(f@));
        if !found {
            fs.push(f.clone());
            assert(fs@.map_values(|v: Vec<char>| v@) =~= d.push(f@));
        }
        t = t + 1;
    }
    assert(names.take(t as int) =~= names);
    fs.len()
}

/// The position of the copy kept of `k`.
fn keeper_at(facts: &[BurstFacts], k: &Vec<usize>) -> (r: usize)
    requires
        k@.len() > 0,
        forall|q: int| 0 <= q < k@.len() ==> #[trigger] k@[q] < facts@.len(),
    ensures
        r == keeper_of(facts@, k@),
        r < facts@.len(),
{
    let mut b = k[0];
    let mut t: usize = 1;
    assert(k@.take(1) =~= seq![k@[0]]);
    while t < k.len()
        invariant
            1 <= t <= k@.len(),
            forall|q: int| 0 <= q < k@.len() ==> #[trigger] k@[q] < facts@.len(),
            b == keeper_of(facts@, k@.take(t as int)),
            b < facts@.len(),
        decreases k.len() - t,
    {
        assert(k@.take(t + 1).drop_last() =~= k@.take(t as int));
        assert(k@.take(t + 1).last() == k@[t as int]);
        let x = k[t];
        let keep = if facts[b].size != facts[x].size {
            facts[b].size > facts[x].size
        } else {
            let sb = crate::text::chars_of(facts[b].source.as_str());
            let sx = crate::text::chars_of(facts[x].source.as_str());
            crate::order::text_less(&sb, &sx)
        };
        if !keep {
            b = x;
        }
        t = t + 1;
    }
    assert(k@.take(t as int) =~= k@);
    b
}

/// The paths of the files at the positions `k`, in order.
fn sources_of(facts: &[BurstFacts], k: &Vec<usize>) -> (members: Vec<String>)
    requires
        forall|q: int| 0 <= q < k@.len() ==> #[trigger] k@[q] < facts@.len(),
    ensures
        members@.map_values(|s: String| s@) == k@.map_values(|i: usize| facts@[i as int].source@),
{
    let mut members: Vec<String> = Vec::new();
    let mut t: usize = 0;
    while t < k.len()
        invariant
            t <= k@.len(),
            forall|q: int| 0 <= q < k@.len() ==> #[trigger] k@[q] < facts@.len(),
            members@.map_values(|s: String| s@) == k@.take(t as int).map_values(|i: usize| facts@[i as int].source@),
        decreases k.len() - t,
    {
        let ghost before = members@.map_values(|s: String| s@);
        members.push(facts[k[t]].source.clone());
        assert(members@.map_values(|s: String| s@) =~= before.push(facts@[k@[t as int] as int].source@));
        assert(k@.take(t + 1).map_values(|i: usize| facts@[i as int].source@) =~= k@.take(t as int).map_values(
            |i: usize| facts@[i as int].source@,
        ).push(facts@[k@[t as int] as int].source@));
        t = t + 1;
    }
    assert(k@.take(t as int) =~= k@);
    members
}

/// The lookalikes the ring `g` makes, if any.
fn look_of(facts: &[BurstFacts], digests: &Vec<Option<String>>, folders: &Vec<Vec<char>>, g: &Vec<usize>) -> (r: Option<Lookalike>)
    requires
        digests@.len() == facts@.len(),
        folders@.len() == facts@.len(),
        forall|i: int| 0 <= i < facts@.len() ==> #[trigger] folders@[i]@ == folder_of(facts@[i].source@),
        forall|q: int| 0 <= q < g@.len() ==> (#[trigger] g@[q]) < facts@.len(),
    ensures
        match r {
            Some(l) => {
                let k = kept(digests@, g@);
                &&& k.len() >= 2 && folder_count(facts@, k) >= 2
                &&& lookalike_view(l) == (
                    facts@[keeper_of(facts@, k)].source@,
                    k.map_values(|i: usize| facts@[i as int].source@),
                    folder_count(facts@, k),
                )
            },
            None => {
                let k = kept(digests@, g@);
                !(k.len() >= 2 && folder_count(facts@, k) >= 2)
            },
        },
{
    let k = kept_of(digests, g);
    if k.len() < 2 {
        return None;
    }
    assert forall|q: int| 0 <= q < k@.len() implies (#[trigger] k@[q]) < facts@.len() by {
        assert(g@.contains(k@[q]));
    }
    let folders_in = folder_count_of(facts, folders, &k);
    if folders_in < 2 {
        return None;
    }
    let keeper = keeper_at(facts, &k);
    let members = sources_of(facts, &k);
    Some(Lookalike { keeper: facts[keeper].source.clone(), members, folders: folders_in })
}


/// Whether the file at `i` is listed before the one at `j` within a ring: by path,
/// then by position.
pub open spec fn source_before(facts: Seq<BurstFacts>, i: int, j: int) -> bool {
    text_lt(facts[i].source@, facts[j].source@) || (facts[i].source@ == facts[j].source@ && i < j)
}

/// Whether `groups` are the rings of alike pictures of `facts`: every fingerprinted
/// file lies in exactly one of them, once; two files share a ring exactly when a chain
/// of alike files links them; and each ring lists its files by path.
pub open spec fn ring_groups(facts: Seq<BurstFacts>, groups: Seq<Seq<usize>>) -> bool {
    &&& forall|g: int| 0 <= g < groups.len() ==> (#[trigger] groups[g]).len() > 0
    &&& forall|g: int, q: int| 0 <= g < groups.len() && 0 <= q < groups[g].len() ==> (#[trigger] groups[g][q]) < facts.len()
        && facts[groups[g][q] as int].hash is Some
    &&& forall|i: int| 0 <= i < facts.len() && (#[trigger] facts[i]).hash is Some ==> exists|g: int, q: int|
        0 <= g < groups.len() && 0 <= q < groups[g].len() && #[trigger] groups[g][q] == i
    &&& forall|g1: int, q1: int, g2: int, q2: int|
        0 <= g1 < groups.len() && 0 <= q1 < groups[g1].len() && 0 <= g2 < groups.len() && 0 <= q2 < groups[g2].len()
            && #[trigger] groups[g1][q1] == #[trigger] groups[g2][q2] ==> g1 == g2
    &&& forall|g: int, a: int, b: int| 0 <= g < groups.len() && 0 <= a < b < groups[g].len() ==> source_before(
        facts,
        #[trigger] groups[g][a] as int,
        #[trigger] groups[g][b] as int,
    )
    &&& forall|g1: int, q1: int, g2: int, q2: int|
        0 <= g1 < groups.len() && 0 <= q1 < groups[g1].len() && 0 <= g2 < groups.len() && 0 <= q2 < groups[g2].len()
            ==> (linked(facts, #[trigger] groups[g1][q1] as int, #[trigger] groups[g2][q2] as int) <==> g1 == g2)
}

/// The rings, each as its positions ascending, in the order their first members come.
pub(crate) fn rings_into_groups(facts: &[BurstFacts], seen: &Vec<usize>, label: &Vec<usize>) -> (groups: Vec<Vec<usize>>)
    requires
        fingerprinted(facts@, seen@),
        rings_of(facts@, seen@, label@),
    ensures
        forall|g: int| 0 <= g < groups@.len() ==> (#[trigger] groups@[g])@.len() > 0,
        forall|g: int, q: int| 0 <= g < groups@.len() && 0 <= q < groups@[g]@.len() ==> seen@.contains(#[trigger] groups@[g]@[q]),
        forall|i: int| 0 <= i < facts@.len() && (#[trigger] facts@[i]).hash is Some ==> exists|g: int, q: int|
            0 <= g < groups@.len() && 0 <= q < groups@[g]@.len() && #[trigger] groups@[g]@[q] == i,
        forall|g: int, a: int, b: int| 0 <= g < groups@.len() && 0 <= a < b < groups@[g]@.len() ==> (#[trigger] groups@[g]@[a])
            < (#[trigger] groups@[g]@[b]),
        forall|g1: int, q1: int, g2: int, q2: int|
            0 <= g1 < groups@.len() && 0 <= q1 < groups@[g1]@.len() && 0 <= g2 < groups@.len() && 0 <= q2 < groups@[g2]@.len()
                ==> (label@[#[trigger] groups@[g1]@[q1] as int] == label@[#[trigger] groups@[g2]@[q2] as int] <==> g1 == g2),
{
    let m = seen.len();
    let n = facts.len();
    let mut labs: Vec<usize> = Vec::new();
    let mut groups: Vec<Vec<usize>> = Vec::new();
    let mut x: usize = 0;
    while x < m
        invariant
            x <= m,
            m == seen@.len(),
            fingerprinted(facts@, seen@),
            rings_of(facts@, seen@, label@),
            labs@.len() == groups@.len(),
            forall|g1: int, g2: int| 0 <= g1 < g2 < labs@.len() ==> (#[trigger] labs@[g1]) != (#[trigger] labs@[g2]),
            forall|g: int| 0 <= g < groups@.len() ==> (#[trigger] groups@[g])@.len() > 0,
            forall|g: int, q: int| 0 <= g < groups@.len() && 0 <= q < groups@[g]@.len() ==> seen@.contains(#[trigger] groups@[g]@[q])
                && label@[groups@[g]@[q] as int] == labs@[g],
            forall|g: int, a: int| 0 <= g < groups@.len() && 0 <= a < m && label@[seen@[a] as int] == labs@[g] ==> (#[trigger] groups@[g])@.contains(
                #[trigger] seen@[a],
            ),
            forall|g: int, a: int, b: int| 0 <= g < groups@.len() && 0 <= a < b < groups@[g]@.len() ==> (#[trigger] groups@[g]@[a])
                < (#[trigger] groups@[g]@[b]),
            forall|t: int| 0 <= t < x ==> labs@.contains(#[trigger] label@[seen@[t] as int]),
        decreases m - x,
    {
        let l = label[seen[x]];
        let mut known = false;
        let mut h: usize = 0;
        while h < labs.len()
            invariant
                h <= labs@.len(),
                known <==> exists|e: int| 0 <= e < h && labs@[e] == l,
            decreases labs.len() - h,
        {
            if labs[h] == l {
                known = true;
            }
            h = h + 1;
        }
        if !known {
            let mut g: Vec<usize> = Vec::new();
            let mut t: usize = 0;
            while t < m
                invariant
                    t <= m,
                    m == seen@.len(),
                    fingerprinted(facts@, seen@),
                    x < m,
                    rings_of(facts@, seen@, label@),
                    l == label@[seen@[x as int] as int],
                    forall|q: int| 0 <= q < g@.len() ==> seen@.contains(#[trigger] g@[q]) && label@[g@[q] as int] == l,
                    forall|q: int| 0 <= q < g@.len() ==> exists|a: int| 0 <= a < t && seen@[a] == #[trigger] g@[q],
                    forall|a: int| 0 <= a < t && label@[seen@[a] as int] == l ==> g@.contains(#[trigger] seen@[a]),
                    forall|a: int, b: int| 0 <= a < b < g@.len() ==> (#[trigger] g@[a]) < (#[trigger] g@[b]),
                    x < t ==> g@.len() > 0,
                decreases m - t,
            {
                let y = seen[t];
                if label[y] == l {
                    let ghost before = g@;
                    proof {
                        assert forall|q: int| 0 <= q < before.len() implies before[q] < y by {
                            let a = choose|a: int| 0 <= a < t && seen@[a] == before[q];
                            assert(seen@[a] < seen@[t as int]);
                        }
                    }
                    g.push(y);
                    proof {
                        assert(seen@.contains(y)) by {
                            assert(seen@[t as int] == y);
                        }
                        assert forall|a: int| 0 <= a < t + 1 && label@[seen@[a] as int] == l implies g@.contains(#[trigger] seen@[a]) by {
                            if a < t {
                                let w = choose|w: int| 0 <= w < before.len() && before[w] == seen@[a];
                                assert(g@[w] == seen@[a]);
                            } else {
                                assert(g@[before.len() as int] == seen@[a]);
                            }
                        }
                        assert forall|q: int| 0 <= q < g@.len() implies exists|a: int| 0 <= a < t + 1 && seen@[a] == #[trigger] g@[q] by {
                            if q < before.len() {
                                let a = choose|a: int| 0 <= a < t && seen@[a] == before[q];
                                assert(seen@[a] == g@[q]);
                            } else {
                                assert(seen@[t as int] == g@[q]);
                            }
                        }
                    }
                }
                t = t + 1;
            }
            let ghost old_groups = groups@;
            let ghost old_labs = labs@;
            groups.push(g);
            labs.push(l);
            proof {
                assert forall|t: int| 0 <= t < x implies labs@.contains(#[trigger] label@[seen@[t] as int]) by {
                    let e = choose|e: int| 0 <= e < old_labs.len() && old_labs[e] == label@[seen@[t] as int];
                    assert(labs@[e] == old_labs[e]);
                }
                assert forall|gg: int, q: int| 0 <= gg < groups@.len() && 0 <= q < groups@[gg]@.len() implies seen@.contains(
                    #[trigger] groups@[gg]@[q],
                ) && label@[groups@[gg]@[q] as int] == labs@[gg] by {
                    if gg < old_groups.len() {
                        assert(groups@[gg] == old_groups[gg]);
                    }
                }
            }
        }
        proof {
            assert(labs@.contains(l)) by {
                if known {
                    let e = choose|e: int| 0 <= e < labs@.len() && labs@[e] == l;
                } else {
                    assert(labs@[labs@.len() - 1] == l);
                }
            }
        }
        x = x + 1;
    }
    proof {
        assert forall|i: int| 0 <= i < facts@.len() && (#[trigger] facts@[i]).hash is Some implies exists|g: int, q: int|
            0 <= g < groups@.len() && 0 <= q < groups@[g]@.len() && #[trigger] groups@[g]@[q] == i by {
            assert(facts@.len() == n);
            let a = choose|a: int| 0 <= a < seen@.len() && seen@[a] == i as usize;
            assert(labs@.contains(label@[seen@[a] as int]));
            let g = choose|g: int| 0 <= g < labs@.len() && labs@[g] == label@[seen@[a] as int];
            assert(groups@[g]@.contains(seen@[a]));
            let q = choose|q: int| 0 <= q < groups@[g]@.len() && groups@[g]@[q] == seen@[a];
            assert(groups@[g]@[q] == i);
        }
        assert forall|g1: int, q1: int, g2: int, q2: int|
            0 <= g1 < groups@.len() && 0 <= q1 < groups@[g1]@.len() && 0 <= g2 < groups@.len() && 0 <= q2 < groups@[g2]@.len()
                implies (label@[#[trigger] groups@[g1]@[q1] as int] == label@[#[trigger] groups@[g2]@[q2] as int] <==> g1 == g2) by {
            if g1 != g2 {
                if g1 < g2 {
                    assert(labs@[g1] != labs@[g2]);
                } else {
                    assert(labs@[g2] != labs@[g1]);
                }
            }
        }
    }
    groups
}


/// The ring `g`, listed by path.
fn by_source(facts: &[BurstFacts], g: &Vec<usize>) -> (r: Vec<usize>)
    requires
        forall|q: int| 0 <= q < g@.len() ==> (#[trigger] g@[q]) < facts@.len(),
        forall|a: int, b: int| 0 <= a < b < g@.len() ==> (#[trigger] g@[a]) < (#[trigger] g@[b]),
    ensures
        r@.len() == g@.len(),
        forall|k: int| 0 <= k < r@.len() ==> g@.contains(#[trigger] r@[k]),
        forall|q: int| 0 <= q < g@.len() ==> r@.contains(#[trigger] g@[q]),
        forall|a: int, b: int| 0 <= a < b < r@.len() ==> source_before(facts@, #[trigger] r@[a] as int, #[trigger] r@[b] as int),
{
    let mut keys: Vec<SortKey> = Vec::new();
    let mut i: usize = 0;
    while i < g.len()
        invariant
            i <= g@.len(),
            keys@.len() == i,
            forall|q: int| 0 <= q < g@.len() ==> (#[trigger] g@[q]) < facts@.len(),
            forall|k: int| 0 <= k < i ==> (#[trigger] keys@[k]).first@ == facts@[g@[k] as int].source@ && keys@[k].number == 0
                && keys@[k].second@ == Seq::<char>::empty(),
        decreases g.len() - i,
    {
        keys.push(SortKey { first: crate::text::chars_of(facts[g[i]].source.as_str()), number: 0, second: Vec::new() });
        i = i + 1;
    }
    proof {
        assert forall|a: int, b: int| 0 <= a < g@.len() && 0 <= b < g@.len() implies #[trigger] pos_lt(keys@, a, b)
            == source_before(facts@, g@[a] as int, g@[b] as int) by {
            lemma_key_order(keys@[a], keys@[b], keys@[a]);
            crate::order::lemma_text_lt_irreflexive(Seq::<char>::empty());
            crate::order::lemma_text_lt_irreflexive(facts@[g@[a] as int].source@);
            crate::order::lemma_text_lt_total(facts@[g@[a] as int].source@, facts@[g@[b] as int].source@);
            if a < b {
                assert(g@[a] < g@[b]);
            } else if b < a {
                assert(g@[b] < g@[a]);
            }
        }
    }
    let perm = sort_positions(&keys);
    let mut r: Vec<usize> = Vec::new();
    let mut k: usize = 0;
    while k < perm.len()
        invariant
            k <= perm@.len(),
            perm@.len() == g@.len(),
            forall|m: int| 0 <= m < perm@.len() ==> #[trigger] perm@[m] < g@.len(),
            r@.len() == k,
            forall|m: int| 0 <= m < k ==> #[trigger] r@[m] == g@[perm@[m] as int],
        decreases perm.len() - k,
    {
        r.push(g[perm[k]]);
        k = k + 1;
    }
    proof {
        broadcast use vstd::seq_lib::group_to_multiset_ensures;
        assert forall|m: int| 0 <= m < r@.len() implies g@.contains(#[trigger] r@[m]) by {
            assert(g@[perm@[m] as int] == r@[m]);
        }
        assert forall|q: int| 0 <= q < g@.len() implies r@.contains(#[trigger] g@[q]) by {
            assert(positions(g@.len())[q] == q as usize);
            assert(positions(g@.len()).contains(q as usize));
            assert(perm@.to_multiset().count(q as usize) > 0);
            assert(perm@.contains(q as usize));
            let m = choose|m: int| 0 <= m < perm@.len() && perm@[m] == q as usize;
            assert(r@[m] == g@[q]);
        }
        assert forall|a: int, b: int| 0 <= a < b < r@.len() implies source_before(facts@, #[trigger] r@[a] as int, #[trigger] r@[b] as int) by {
            assert(pos_lt(keys@, perm@[a] as int, perm@[b] as int));
        }
    }
    r
}

/// Whether lookalike set `i` of `ls` is listed before set `j`: more copies first, then
/// by the path kept, then as they were found.
pub open spec fn look_before(ls: Seq<(Seq<char>, Seq<Seq<char>>, nat)>, i: int, j: int) -> bool {
    if ls[i].1.len() != ls[j].1.len() {
        ls[i].1.len() > ls[j].1.len()
    } else if ls[i].0 != ls[j].0 {
        text_lt(ls[i].0, ls[j].0)
    } else {
        i < j
    }
}

/// Whether `out` is `ls` listed in `look_before` order.
pub open spec fn looks_in_order(out: Seq<(Seq<char>, Seq<Seq<char>>, nat)>, ls: Seq<(Seq<char>, Seq<Seq<char>>, nat)>) -> bool {
    exists|perm: Seq<usize>|
        #![trigger perm.to_multiset()]
        {
            &&& perm.to_multiset() == positions(ls.len()).to_multiset()
            &&& perm.len() == ls.len()
            &&& forall|k: int| 0 <= k < perm.len() ==> (#[trigger] perm[k]) < ls.len()
            &&& forall|a: int, b: int| 0 <= a < b < perm.len() ==> look_before(ls, #[trigger] perm[a] as int, #[trigger] perm[b] as int)
            &&& out.len() == ls.len()
            &&& forall|k: int| 0 <= k < out.len() ==> #[trigger] out[k] == ls[perm[k] as int]
        }
}

/// The lookalikes `found`, more copies first, then by the path kept, then as found.
fn most_copies_first(found: Vec<Lookalike>) -> (out: Vec<Lookalike>)
    ensures
        looks_in_order(out@.map_values(|l: Lookalike| lookalike_view(l)), found@.map_values(|l: Lookalike| lookalike_view(l))),
{
    let ghost ls = found@.map_values(|l: Lookalike| lookalike_view(l));
    let mut keys: Vec<SortKey> = Vec::new();
    let mut i: usize = 0;
    while i < found.len()
        invariant
            i <= found@.len(),
            ls == found@.map_values(|l: Lookalike| lookalike_view(l)),
            keys@.len() == i,
            forall|k: int| 0 <= k < i ==> (#[trigger] keys@[k]).first@ == Seq::<char>::empty() && keys@[k].number
                == -(ls[k].1.len() as int) && keys@[k].second@ == ls[k].0,
        decreases found.len() - i,
    {
        let n = found[i].members.len();
        keys.push(SortKey { first: Vec::new(), number: -(n as i128), second: crate::text::chars_of(found[i].keeper.as_str()) });
        i = i + 1;
    }
    assert forall|a: int, b: int| 0 <= a < found@.len() && 0 <= b < found@.len() implies #[trigger] pos_lt(keys@, a, b)
        == look_before(ls, a, b) by {
        lemma_key_order(keys@[a], keys@[b], keys@[a]);
    }
    let perm = sort_positions(&keys);
    let mut out: Vec<Lookalike> = Vec::new();
    let mut k: usize = 0;
    while k < perm.len()
        invariant
            k <= perm@.len(),
            perm@.len() == found@.len(),
            ls == found@.map_values(|l: Lookalike| lookalike_view(l)),
            forall|m: int| 0 <= m < perm@.len() ==> #[trigger] perm@[m] < found@.len(),
            out@.len() == k,
            forall|m: int| 0 <= m < k ==> lookalike_view(#[trigger] out@[m]) == ls[perm@[m] as int],
        decreases perm.len() - k,
    {
        let l = &found[perm[k]];
        out.push(Lookalike { keeper: l.keeper.clone(), members: copy_strings(&l.members), folders: l.folders });
        k = k + 1;
    }
    proof {
        let ov = out@.map_values(|l: Lookalike| lookalike_view(l));
        assert forall|m: int| 0 <= m < ov.len() implies #[trigger] ov[m] == ls[perm@[m] as int] by {
            assert(ov[m] == lookalike_view(out@[m]));
        }
        assert forall|a: int, b: int| 0 <= a < b < perm@.len() implies look_before(ls, #[trigger] perm@[a] as int, #[trigger] perm@[b] as int) by {
            assert(pos_lt(keys@, perm@[a] as int, perm@[b] as int));
        }
    }
    out
}


/// The views of a list of rings.
pub open spec fn ring_views(groups: Seq<Vec<usize>>) -> Seq<Seq<usize>> {
    groups.map_values(|g: Vec<usize>| g@)
}

/// Finds the same picture saved into several folders. Fingerprinted files fall into
/// rings: two files share a ring when a chain of files, each sharing a band of its
/// fingerprint with the next and lying at most six bits from it, links them. Within a
/// ring, listed by path, a file whose bytes (`digests`, one per file, `None` where they
/// could not be read) match an earlier member's is left to the list of identical
/// files. What is left makes a set of lookalikes when it holds at least two files in
/// at least two folders; it keeps its largest file, the first by path among equals.
/// The sets come with the most copies first, then by the path they keep.
pub fn group_lookalikes(facts: &[BurstFacts], digests: &Vec<Option<String>>) -> (r: Vec<Lookalike>)
    requires
        digests@.len() == facts@.len(),
    ensures
        exists|groups: Seq<Seq<usize>>|
            #![trigger looks(facts@, digests@, groups)]
            ring_groups(facts@, groups) && looks_in_order(
                r@.map_values(|l: Lookalike| lookalike_view(l)),
                looks(facts@, digests@, groups),
            ),
{
    let folders = folders_of(facts);
    let seen = fingerprinted_positions(facts);
    let label = ring_labels(facts, &seen);
    let raw = rings_into_groups(facts, &seen, &label);
    let mut groups: Vec<Vec<usize>> = Vec::new();
    let mut found: Vec<Lookalike> = Vec::new();
    let mut i: usize = 0;
    while i < raw.len()
        invariant
            i <= raw@.len(),
            groups@.len() == i,
            digests@.len() == facts@.len(),
            folders@.len() == facts@.len(),
            forall|x: int| 0 <= x < facts@.len() ==> #[trigger] folders@[x]@ == folder_of(facts@[x].source@),
            fingerprinted(facts@, seen@),
            forall|g: int, q: int| 0 <= g < raw@.len() && 0 <= q < raw@[g]@.len() ==> seen@.contains(#[trigger] raw@[g]@[q]),
            forall|g: int, a: int, b: int| 0 <= g < raw@.len() && 0 <= a < b < raw@[g]@.len() ==> (#[trigger] raw@[g]@[a])
                < (#[trigger] raw@[g]@[b]),
            forall|g: int| 0 <= g < i ==> (#[trigger] groups@[g])@.len() == raw@[g]@.len(),
            forall|g: int, k: int| 0 <= g < i && 0 <= k < groups@[g]@.len() ==> raw@[g]@.contains(#[trigger] groups@[g]@[k]),
            forall|g: int, q: int| 0 <= g < i && 0 <= q < raw@[g]@.len() ==> groups@[g]@.contains(#[trigger] raw@[g]@[q]),
            forall|g: int, a: int, b: int| 0 <= g < i && 0 <= a < b < groups@[g]@.len() ==> source_before(
                facts@,
                #[trigger] groups@[g]@[a] as int,
                #[trigger] groups@[g]@[b] as int,
            ),
            found@.map_values(|l: Lookalike| lookalike_view(l)) == looks(facts@, digests@, ring_views(groups@)),
        decreases raw.len() - i,
    {
        assert forall|q: int| 0 <= q < raw@[i as int]@.len() implies (#[trigger] raw@[i as int]@[q]) < facts@.len() by {
            let w = choose|w: int| 0 <= w < seen@.len() && seen@[w] == raw@[i as int]@[q];
        }
        let g = by_source(facts, &raw[i]);
        assert forall|q: int| 0 <= q < g@.len() implies (#[trigger] g@[q]) < facts@.len() by {
            assert(raw@[i as int]@.contains(g@[q]));
        }
        let look = look_of(facts, digests, &folders, &g);
        let ghost before = ring_views(groups@);
        let ghost old_groups = groups@;
        groups.push(g);
        proof {
            assert(ring_views(groups@) =~= before.push(g@));
            assert(ring_views(groups@).drop_last() =~= before);
        }
        match look {
            Some(l) => {
                found.push(l);
            },
            None => {},
        }
        proof {
            assert forall|gg: int| 0 <= gg < i + 1 implies (#[trigger] groups@[gg])@.len() == raw@[gg]@.len() by {
                if gg < i {
                    assert(groups@[gg] == old_groups[gg]);
                }
            }
            assert forall|gg: int, k: int| 0 <= gg < i + 1 && 0 <= k < groups@[gg]@.len() implies raw@[gg]@.contains(
                #[trigger] groups@[gg]@[k],
            ) by {
                if gg < i {
                    assert(groups@[gg] == old_groups[gg]);
                }
            }
            assert forall|gg: int, q: int| 0 <= gg < i + 1 && 0 <= q < raw@[gg]@.len() implies groups@[gg]@.contains(
                #[trigger] raw@[gg]@[q],
            ) by {
                if gg < i {
                    assert(groups@[gg] == old_groups[gg]);
                }
            }
            assert forall|gg: int, a: int, b: int| 0 <= gg < i + 1 && 0 <= a < b < groups@[gg]@.len() implies source_before(
                facts@,
                #[trigger] groups@[gg]@[a] as int,
                #[trigger] groups@[gg]@[b] as int,
            ) by {
                if gg < i {
                    assert(groups@[gg] == old_groups[gg]);
                }
            }
        }
        i = i + 1;
    }
    proof {
        let gs = ring_views(groups@);
        let rv = ring_views(raw@);
        assert forall|x: int| 0 <= x < facts@.len() && (#[trigger] facts@[x]).hash is Some implies exists|g: int, q: int|
            0 <= g < rv.len() && 0 <= q < rv[g].len() && #[trigger] rv[g][q] == x by {
            let (g, q) = choose|g: int, q: int| 0 <= g < raw@.len() && 0 <= q < raw@[g]@.len() && #[trigger] raw@[g]@[q] == x;
            assert(rv[g] == raw@[g]@);
            assert(rv[g][q] == x);
        }
        lemma_rings_listed(facts@, seen@, label@, ring_views(raw@), gs);
    }
    let out = most_copies_first(found);
    out
}

/// The rings listed by path still are the rings of alike pictures.
proof fn lemma_rings_listed(facts: Seq<BurstFacts>, seen: Seq<usize>, label: Seq<usize>, raw: Seq<Seq<usize>>, gs: Seq<Seq<usize>>)
    requires
        fingerprinted(facts, seen),
        rings_of(facts, seen, label),
        raw.len() == gs.len(),
        forall|g: int| 0 <= g < raw.len() ==> (#[trigger] raw[g]).len() > 0,
        forall|g: int, q: int| 0 <= g < raw.len() && 0 <= q < raw[g].len() ==> seen.contains(#[trigger] raw[g][q]),
        forall|i: int| 0 <= i < facts.len() && (#[trigger] facts[i]).hash is Some ==> exists|g: int, q: int|
            0 <= g < raw.len() && 0 <= q < raw[g].len() && #[trigger] raw[g][q] == i,
        forall|g1: int, q1: int, g2: int, q2: int|
            0 <= g1 < raw.len() && 0 <= q1 < raw[g1].len() && 0 <= g2 < raw.len() && 0 <= q2 < raw[g2].len()
                ==> (label[#[trigger] raw[g1][q1] as int] == label[#[trigger] raw[g2][q2] as int] <==> g1 == g2),
        forall|g: int| 0 <= g < gs.len() ==> (#[trigger] gs[g]).len() == raw[g].len(),
        forall|g: int, k: int| 0 <= g < gs.len() && 0 <= k < gs[g].len() ==> raw[g].contains(#[trigger] gs[g][k]),
        forall|g: int, q: int| 0 <= g < gs.len() && 0 <= q < raw[g].len() ==> gs[g].contains(#[trigger] raw[g][q]),
        forall|g: int, a: int, b: int| 0 <= g < gs.len() && 0 <= a < b < gs[g].len() ==> source_before(
            facts,
            #[trigger] gs[g][a] as int,
            #[trigger] gs[g][b] as int,
        ),
    ensures
        ring_groups(facts, gs),
{
    assert forall|g: int, q: int| 0 <= g < gs.len() && 0 <= q < gs[g].len() implies (#[trigger] gs[g][q]) < facts.len()
        && facts[gs[g][q] as int].hash is Some by {
        let k = choose|k: int| 0 <= k < raw[g].len() && raw[g][k] == gs[g][q];
        let w = choose|w: int| 0 <= w < seen.len() && seen[w] == raw[g][k];
    }
    assert forall|i: int| 0 <= i < facts.len() && (#[trigger] facts[i]).hash is Some implies exists|g: int, q: int|
        0 <= g < gs.len() && 0 <= q < gs[g].len() && #[trigger] gs[g][q] == i by {
        let (g, q) = choose|g: int, q: int| 0 <= g < raw.len() && 0 <= q < raw[g].len() && #[trigger] raw[g][q] == i;
        assert(gs[g].contains(raw[g][q]));
        let k = choose|k: int| 0 <= k < gs[g].len() && gs[g][k] == raw[g][q];
        assert(gs[g][k] == i);
    }
    assert forall|g1: int, q1: int, g2: int, q2: int|
        0 <= g1 < gs.len() && 0 <= q1 < gs[g1].len() && 0 <= g2 < gs.len() && 0 <= q2 < gs[g2].len()
            && #[trigger] gs[g1][q1] == #[trigger] gs[g2][q2] implies g1 == g2 by {
        let k1 = choose|k: int| 0 <= k < raw[g1].len() && raw[g1][k] == gs[g1][q1];
        let k2 = choose|k: int| 0 <= k < raw[g2].len() && raw[g2][k] == gs[g2][q2];
        assert(label[raw[g1][k1] as int] == label[raw[g2][k2] as int]);
    }
    assert forall|g1: int, q1: int, g2: int, q2: int|
        0 <= g1 < gs.len() && 0 <= q1 < gs[g1].len() && 0 <= g2 < gs.len() && 0 <= q2 < gs[g2].len() implies (linked(
            facts,
            #[trigger] gs[g1][q1] as int,
            #[trigger] gs[g2][q2] as int,
        ) <==> g1 == g2) by {
        let k1 = choose|k: int| 0 <= k < raw[g1].len() && raw[g1][k] == gs[g1][q1];
        let k2 = choose|k: int| 0 <= k < raw[g2].len() && raw[g2][k] == gs[g2][q2];
        let a = choose|a: int| 0 <= a < seen.len() && seen[a] == raw[g1][k1];
        let b = choose|b: int| 0 <= b < seen.len() && seen[b] == raw[g2][k2];
        assert(label[seen[a] as int] == label[seen[b] as int] <==> linked(facts, seen[a] as int, seen[b] as int));
        assert(label[raw[g1][k1] as int] == label[raw[g2][k2] as int] <==> g1 == g2);
    }
    assert forall|g: int| 0 <= g < gs.len() implies (#[trigger] gs[g]).len() > 0 by {
        assert(raw[g].len() > 0);
    }
}


/// Whether every shot of `run` carries on the burst of the one before it.
pub open spec fn chained(facts: Seq<BurstFacts>, run: Seq<usize>) -> bool {
    forall|t: int| 0 <= t < run.len() - 1 ==> #[trigger] continues(facts, run[t] as int, run[t + 1] as int)
}

proof fn lemma_runs_chained(facts: Seq<BurstFacts>, ord: Seq<usize>)
    ensures
        forall|k: int| 0 <= k < runs(facts, ord).len() ==> chained(facts, #[trigger] runs(facts, ord)[k]),
    decreases ord.len(),
{
    if ord.len() > 0 {
        lemma_runs_chained(facts, ord.drop_last());
        let rs = runs(facts, ord.drop_last());
        let x = ord.last();
        if rs.len() > 0 && rs.last().len() > 0 && continues(facts, rs.last().last() as int, x as int) {
            let r = rs.last().push(x);
            assert(chained(facts, rs.last()));
            assert forall|t: int| 0 <= t < r.len() - 1 implies #[trigger] continues(facts, r[t] as int, r[t + 1] as int) by {
                if t < r.len() - 2 {
                    assert(r[t] == rs.last()[t] && r[t + 1] == rs.last()[t + 1]);
                }
            }
            let n = rs.drop_last().push(r);
            assert forall|k: int| 0 <= k < n.len() implies chained(facts, #[trigger] n[k]) by {
                if k < n.len() - 1 {
                    assert(n[k] == rs[k]);
                }
            }
        } else {
            let n = rs.push(seq![x]);
            assert forall|k: int| 0 <= k < n.len() implies chained(facts, #[trigger] n[k]) by {
                if k < n.len() - 1 {
                    assert(n[k] == rs[k]);
                }
            }
        }
    }
}

proof fn lemma_chained_one_folder(facts: Seq<BurstFacts>, run: Seq<usize>, t: int)
    requires
        chained(facts, run),
        0 <= t < run.len(),
    ensures
        folder_of(facts[run[t] as int].source@) == folder_of(facts[run[0] as int].source@),
    decreases t,
{
    if t > 0 {
        lemma_chained_one_folder(facts, run, t - 1);
        assert(continues(facts, run[t - 1] as int, run[(t - 1) + 1] as int));
    }
}

/// Within each run of a burst scan every shot carries on from the one before it: the
/// same folder as the first shot, at most ten seconds and ten bits from its
/// predecessor. A burst is such a run of two shots or more.
pub proof fn law_a_run_stays_in_one_folder(facts: Seq<BurstFacts>, ord: Seq<usize>, k: int)
    requires
        0 <= k < runs(facts, ord).len(),
    ensures
        chained(facts, runs(facts, ord)[k]),
        forall|t: int| 0 <= t < runs(facts, ord)[k].len() ==> folder_of(facts[#[trigger] runs(facts, ord)[k][t] as int].source@)
            == folder_of(facts[runs(facts, ord)[k][0] as int].source@),
{
    lemma_runs_chained(facts, ord);
    let run = runs(facts, ord)[k];
    assert forall|t: int| 0 <= t < run.len() implies folder_of(facts[#[trigger] run[t] as int].source@) == folder_of(facts[run[0] as int].source@) by {
        lemma_chained_one_folder(facts, run, t);
    }
}

/// Every set of lookalikes holds at least two copies, lying in at least two folders.
pub proof fn law_lookalikes_span_two_folders(facts: Seq<BurstFacts>, digests: Seq<Option<String>>, groups: Seq<Seq<usize>>, k: int)
    requires
        0 <= k < looks(facts, digests, groups).len(),
    ensures
        looks(facts, digests, groups)[k].1.len() >= 2,
        looks(facts, digests, groups)[k].2 >= 2,
    decreases groups.len(),
{
    let b = looks(facts, digests, groups.drop_last());
    if k < b.len() {
        law_lookalikes_span_two_folders(facts, digests, groups.drop_last(), k);
    }
}

} // verus!
