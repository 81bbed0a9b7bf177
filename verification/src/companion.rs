//! Files that belong together, such as a picture and the sidecar or clip a camera
//! wrote beside it: the key they are grouped by.
use vstd::prelude::*;
use crate::paths::{file_name, file_name_of, is_listed, listed, parent, parent_of};
use crate::model::{destination_spec, destination_with_subject, source_facts, subject_text, PlanEntry};
use crate::error::Error;
use crate::moment::Moment;
use crate::naming::{opt_chars, Facts, DEFAULT_NAME_PATTERN};
use crate::order::{lemma_text_lt_irreflexive, lemma_text_lt_total, lemma_text_lt_transitive, text_less, text_lt};
use crate::suspect::as_ints;
use crate::providers::spec_trust_rank;
use crate::text::{extend_str, same_chars, lemma_last_index, ascii_lowercase, chars_of, last_index, rfind, slice_chars, spec_ascii_lowercase, string_of};

verus! {

/// The extensions of sidecar files, which add a second extension to the name of the
/// file they describe (`IMG_1.JPG.xmp`).
pub const SIDECAR: [&'static str; 5] = ["xmp", "aae", "json", "thm", "lrv"];

/// The part of `s` before its last `.`, or all of it when it has none.
pub open spec fn before_last_dot(s: Seq<char>) -> Seq<char> {
    match last_index(s, '.') {
        Some(j) => s.take(j),
        None => s,
    }
}

/// The key the file at `p` is grouped by: its folder and its name in ASCII lower case
/// without the extension, and without a second extension too when the first is that
/// of a sidecar. A path without a folder, a name or a `.` in its name has none.
pub open spec fn spec_group_key(p: Seq<char>) -> Option<(Seq<char>, Seq<char>)> {
    match (parent_of(p), file_name_of(p)) {
        (Some(folder), Some(n)) => {
            let name = spec_ascii_lowercase(n);
            match last_index(name, '.') {
                None => None,
                Some(i) => {
                    let stem = name.take(i);
                    let ext = name.skip(i + 1);
                    Some((folder, if listed(SIDECAR@, ext) { before_last_dot(stem) } else { stem }))
                },
            }
        },
        _ => None,
    }
}

/// The key the file at `path` is grouped with its companions by.
pub fn group_key(path: &str) -> (r: Option<(String, String)>)
    ensures
        match r {
            Some((folder, stem)) => spec_group_key(path@) == Some((folder@, stem@)),
            None => spec_group_key(path@) is None,
        },
{
    let folder = match parent(path) {
        Some(f) => f,
        None => return None,
    };
    let n = match file_name(path) {
        Some(n) => n,
        None => return None,
    };
    let name = ascii_lowercase(&chars_of(n.as_str()));
    let dot = match rfind(&name, '.') {
        Some(i) => i,
        None => return None,
    };
    proof { lemma_last_index(name@, '.'); }
    let stem = slice_chars(&name, 0, dot);
    let ext = slice_chars(&name, dot + 1, name.len());
    assert(stem@ =~= name@.take(dot as int));
    assert(ext@ =~= name@.skip(dot + 1));
    let key = if is_listed(&SIDECAR, &ext) {
        match rfind(&stem, '.') {
            Some(j) => {
                proof { lemma_last_index(stem@, '.'); }
                let head = slice_chars(&stem, 0, j);
                assert(head@ =~= stem@.take(j as int));
                head
            },
            None => stem,
        }
    } else {
        stem
    };
    Some((folder, string_of(&key)))
}

// ---------------------------------------------------------------------------
// Giving companions the date of their master
// ---------------------------------------------------------------------------
pub const PICTURE: [&'static str; 22] = [
    "jpg", "jpeg", "jpe", "png", "webp", "tif", "tiff", "bmp", "gif", "avif", "heic", "heif",
    "hif", "dng", "cr2", "cr3", "nef", "arw", "orf", "rw2", "raf", "pef",
];
pub const VIDEO: [&'static str; 13] = [
    "mp4", "mov", "m4v", "avi", "mkv", "webm", "3gp", "3g2", "mts", "m2ts", "wmv", "f4v", "mj2",
];
pub const AUDIO: [&'static str; 6] = ["m4a", "m4b", "wav", "mp3", "aac", "flac"];

/// How much a kind of file counts when a group picks its master: a picture most,
/// then a video, a sound, a sidecar, and anything else least.
pub open spec fn kind_rank(ext: Seq<char>) -> int {
    if listed(PICTURE@, ext) { 4 }
    else if listed(VIDEO@, ext) { 3 }
    else if listed(AUDIO@, ext) { 2 }
    else if listed(SIDECAR@, ext) { 1 }
    else { 0 }
}

fn kind_of(ext: &Vec<char>) -> (r: u8)
    ensures
        r == kind_rank(ext@),
{
    if is_listed(&PICTURE, ext) { 4 }
    else if is_listed(&VIDEO, ext) { 3 }
    else if is_listed(&AUDIO, ext) { 2 }
    else if is_listed(&SIDECAR, ext) { 1 }
    else { 0 }
}

/// The file name of an entry in ASCII lower case, empty when it has none.
pub open spec fn lower_name(e: PlanEntry) -> Seq<char> {
    match file_name_of(e.source@) {
        Some(n) => spec_ascii_lowercase(n),
        None => seq![],
    }
}

/// What follows the last `.` of a name, empty when it has none.
pub open spec fn dot_extension(name: Seq<char>) -> Seq<char> {
    match last_index(name, '.') {
        Some(i) => name.skip(i + 1),
        None => seq![],
    }
}

/// Whether entry `a` ranks below entry `b` as a master: a lesser kind of file, then
/// a less trusted source, then a name later in order.
pub open spec fn ranks_below(a: PlanEntry, b: PlanEntry) -> bool {
    let ka = kind_rank(dot_extension(lower_name(a)));
    let kb = kind_rank(dot_extension(lower_name(b)));
    let ta = spec_trust_rank(a.provider);
    let tb = spec_trust_rank(b.provider);
    ka < kb || (ka == kb && (ta < tb || (ta == tb && text_lt(lower_name(b), lower_name(a)))))
}

/// The master of a group: the member none ranks above, the last such, provided it is
/// a picture, a video or a sound.
pub open spec fn master_of(e: Seq<PlanEntry>, g: Seq<int>) -> Option<int> {
    if exists|p: int| 0 <= p < g.len() && is_top(e, g, p) {
        let p = choose|p: int| 0 <= p < g.len() && is_top(e, g, p);
        if kind_rank(dot_extension(lower_name(e[g[p]]))) > 1 { Some(g[p]) } else { None }
    } else {
        None
    }
}

/// Whether the `p`-th member of a group is the last one that none ranks above.
pub open spec fn is_top(e: Seq<PlanEntry>, g: Seq<int>, p: int) -> bool {
    &&& forall|q: int| 0 <= q < g.len() ==> !ranks_below(e[g[p]], #[trigger] e[g[q]])
    &&& forall|q: int| p < q < g.len() ==> ranks_below(#[trigger] e[g[q]], e[g[p]])
}

/// The key of an entry, if it has one.
pub open spec fn entry_key(e: PlanEntry) -> Option<(Seq<char>, Seq<char>)> {
    spec_group_key(e.source@)
}

/// The positions of the entries with the key `k`, in order.
pub open spec fn keyed(e: Seq<PlanEntry>, k: (Seq<char>, Seq<char>), n: int) -> Seq<int>
    decreases n,
{
    if n <= 0 {
        seq![]
    } else {
        keyed(e, k, n - 1) + if entry_key(e[n - 1]) == Some(k) { seq![n - 1] } else { seq![] }
    }
}

/// The master a file follows, when it is a companion whose date differs from the
/// master's: the position of the master.
pub open spec fn follows(e: Seq<PlanEntry>, i: int) -> Option<int> {
    match entry_key(e[i]) {
        None => None,
        Some(k) => {
            let g = keyed(e, k, e.len() as int);
            if g.len() < 2 {
                None
            } else {
                match master_of(e, g) {
                    Some(m) => if m == i || e[i].taken == e[m].taken { None } else { Some(m) },
                    None => None,
                }
            }
        },
    }
}

/// Everything of an entry but its destination, date, source, note and flags.
pub open spec fn same_but_date(a: PlanEntry, b: PlanEntry) -> bool {
    &&& a.source == b.source
    &&& a.size == b.size
    &&& a.candidates == b.candidates
    &&& a.subject == b.subject
    &&& a.place == b.place
    &&& a.tags == b.tags
    &&& a.caption == b.caption
    &&& a.orientation == b.orientation
    &&& a.rotate == b.rotate
    &&& a.rotate_reason == b.rotate_reason
    &&& a.reencode == b.reencode
}

/// Where a companion lands under the date of its master.
pub open spec fn moved_to(old: PlanEntry, taken: Moment, root: Seq<char>, pattern: Seq<char>) -> Option<Seq<char>> {
    let f = choose|f: Facts| source_facts(f, old.source@, opt_chars(old.subject));
    destination_spec(taken, f, root, pattern, DEFAULT_NAME_PATTERN@)
}

/// The note a companion gets: the name of the file it was dated beside.
pub open spec fn beside_note(master: PlanEntry) -> Seq<char> {
    "beside "@ + match file_name_of(master.source@) {
        Some(n) => n,
        None => seq![],
    }
}

/// How many of the first `n` entries follow a master.
pub open spec fn followers(e: Seq<PlanEntry>, n: int) -> int
    decreases n,
{
    if n <= 0 { 0 } else { followers(e, n - 1) + if follows(e, n - 1) is Some { 1int } else { 0int } }
}

/// Ranking below is a strict order on entries.
proof fn lemma_ranks_below(a: PlanEntry, b: PlanEntry, c: PlanEntry)
    ensures
        !ranks_below(a, a),
        ranks_below(a, b) ==> !ranks_below(b, a),
        !ranks_below(a, b) && !ranks_below(b, c) ==> !ranks_below(a, c),
        ranks_below(a, b) && !ranks_below(c, b) ==> ranks_below(a, c),
{
    lemma_text_lt_irreflexive(lower_name(a));
    lemma_text_lt_total(lower_name(a), lower_name(b));
    lemma_text_lt_total(lower_name(b), lower_name(c));
    lemma_text_lt_total(lower_name(a), lower_name(c));
    if text_lt(lower_name(c), lower_name(b)) && text_lt(lower_name(b), lower_name(a)) {
        lemma_text_lt_transitive(lower_name(c), lower_name(b), lower_name(a));
    }
    if text_lt(lower_name(b), lower_name(a)) && text_lt(lower_name(c), lower_name(b)) {
        lemma_text_lt_transitive(lower_name(c), lower_name(b), lower_name(a));
    }
    if text_lt(lower_name(a), lower_name(b)) && text_lt(lower_name(b), lower_name(c)) {
        lemma_text_lt_transitive(lower_name(a), lower_name(b), lower_name(c));
    }
}

/// The lower-case name and the kind of an entry's file.
fn name_and_kind(e: &PlanEntry) -> (r: (Vec<char>, u8))
    ensures
        r.0@ == lower_name(*e),
        r.1 == kind_rank(dot_extension(lower_name(*e))),
{
    let name: Vec<char> = match file_name(e.source.as_str()) {
        Some(n) => ascii_lowercase(&chars_of(n.as_str())),
        None => Vec::new(),
    };
    assert(name@ == lower_name(*e));
    proof { lemma_last_index(name@, '.'); }
    let ext: Vec<char> = match rfind(&name, '.') {
        Some(i) => {
            let nl = name.len();
            slice_chars(&name, i + 1, nl)
        },
        None => Vec::new(),
    };
    assert(ext@ =~= dot_extension(name@));
    let k = kind_of(&ext);
    (name, k)
}

fn below(a: &PlanEntry, b: &PlanEntry) -> (r: bool)
    ensures
        r == ranks_below(*a, *b),
{
    let (na, ka) = name_and_kind(a);
    let (nb, kb) = name_and_kind(b);
    if ka != kb {
        return ka < kb;
    }
    let ta = a.provider.trust_rank();
    let tb = b.provider.trust_rank();
    if ta != tb {
        return ta < tb;
    }
    text_less(&nb, &na)
}

fn master_index(e: &Vec<PlanEntry>, g: &Vec<usize>) -> (r: Option<usize>)
    requires
        g@.len() > 0,
        forall|m: int| 0 <= m < g@.len() ==> #[trigger] g@[m] < e@.len(),
    ensures
        match master_of(e@, as_ints(g@)) {
            Some(m) => r == Some(m as usize),
            None => r is None,
        },
{
    let ghost gi = as_ints(g@);
    let mut best: usize = 0;
    let mut q: usize = 1;
    proof { lemma_ranks_below(e@[gi[0]], e@[gi[0]], e@[gi[0]]); }
    while q < g.len()
        invariant
            1 <= q <= g@.len(),
            best < q,
            gi == as_ints(g@),
            forall|m: int| 0 <= m < g@.len() ==> #[trigger] g@[m] < e@.len(),
            forall|x: int| 0 <= x < q ==> !ranks_below(e@[gi[best as int]], #[trigger] e@[gi[x]]),
            forall|x: int| best < x < q ==> ranks_below(#[trigger] e@[gi[x]], e@[gi[best as int]]),
        decreases g@.len() - q,
    {
        if !below(&e[g[q]], &e[g[best]]) {
            proof {
                assert forall|x: int| 0 <= x <= q implies !ranks_below(e@[gi[q as int]], #[trigger] e@[gi[x]]) by {
                    lemma_ranks_below(e@[gi[q as int]], e@[gi[best as int]], e@[gi[x]]);
                    lemma_ranks_below(e@[gi[q as int]], e@[gi[q as int]], e@[gi[x]]);
                }
            }
            best = q;
        } else {
            proof {
                assert forall|x: int| 0 <= x <= q implies !ranks_below(e@[gi[best as int]], #[trigger] e@[gi[x]]) by {
                    if x == q {
                        lemma_ranks_below(e@[gi[q as int]], e@[gi[best as int]], e@[gi[x]]);
                    }
                }
            }
        }
        q = q + 1;
    }
    proof {
        assert(is_top(e@, gi, best as int));
        assert forall|p: int| 0 <= p < gi.len() && is_top(e@, gi, p) implies p == best by {
            if p < best {
                lemma_ranks_below(e@[gi[best as int]], e@[gi[p]], e@[gi[p]]);
            }
            if p > best {
                lemma_ranks_below(e@[gi[p]], e@[gi[best as int]], e@[gi[p]]);
            }
        }
    }
    let (_, kind) = name_and_kind(&e[g[best]]);
    if kind > 1 { Some(g[best]) } else { None }
}

proof fn lemma_keyed(e: Seq<PlanEntry>, k: (Seq<char>, Seq<char>), n: int)
    requires
        0 <= n <= e.len(),
    ensures
        forall|m: int| 0 <= m < keyed(e, k, n).len() ==> {
            let j = #[trigger] keyed(e, k, n)[m];
            0 <= j < n && entry_key(e[j]) == Some(k)
        },
        forall|j: int| 0 <= j < n && entry_key(e[j]) == Some(k) ==> #[trigger] keyed(e, k, n).contains(j),
    decreases n,
{
    if n > 0 {
        lemma_keyed(e, k, n - 1);
        let before = keyed(e, k, n - 1);
        let now = keyed(e, k, n);
        assert forall|j: int| 0 <= j < n && entry_key(e[j]) == Some(k) implies #[trigger] now.contains(j) by {
            if j < n - 1 {
                assert(before.contains(j));
                let x = choose|x: int| 0 <= x < before.len() && before[x] == j;
                assert(now[x] == j);
            } else {
                assert(now[before.len() as int] == j);
            }
        }
    }
}

/// The key of an entry as characters.
fn key_chars(e: &PlanEntry) -> (r: Option<(Vec<char>, Vec<char>)>)
    ensures
        match r {
            Some((a, b)) => entry_key(*e) == Some((a@, b@)),
            None => entry_key(*e) is None,
        },
{
    match group_key(e.source.as_str()) {
        Some((a, b)) => Some((chars_of(a.as_str()), chars_of(b.as_str()))),
        None => None,
    }
}

/// For each entry, the master whose date it takes, if it is a companion whose date
/// differs from its master's.
fn masters(e: &Vec<PlanEntry>) -> (r: Vec<Option<usize>>)
    ensures
        r@.len() == e@.len(),
        forall|i: int| 0 <= i < e@.len() ==> match follows(e@, i) {
            Some(m) => #[trigger] r@[i] == Some(m as usize),
            None => r@[i] is None,
        },
{
    let n = e.len();
    let mut keys: Vec<Option<(Vec<char>, Vec<char>)>> = Vec::new();
    let mut target: Vec<Option<usize>> = Vec::new();
    let mut assigned: Vec<bool> = Vec::new();
    let mut k: usize = 0;
    while k < n
        invariant
            k <= n,
            n == e@.len(),
            keys@.len() == k,
            target@.len() == k,
            assigned@.len() == k,
            forall|x: int| 0 <= x < k ==> match #[trigger] keys@[x] {
                Some((a, b)) => entry_key(e@[x]) == Some((a@, b@)),
                None => entry_key(e@[x]) is None,
            },
            forall|x: int| 0 <= x < k ==> !(#[trigger] assigned@[x]),
            forall|x: int| 0 <= x < k ==> (#[trigger] target@[x]) is None,
        decreases n - k,
    {
        keys.push(key_chars(&e[k]));
        target.push(None);
        assigned.push(false);
        k = k + 1;
    }
    let mut i: usize = 0;
    while i < n
        invariant
            i <= n,
            n == e@.len(),
            keys@.len() == n,
            target@.len() == n,
            assigned@.len() == n,
            forall|x: int| 0 <= x < n ==> match #[trigger] keys@[x] {
                Some((a, b)) => entry_key(e@[x]) == Some((a@, b@)),
                None => entry_key(e@[x]) is None,
            },
            forall|x: int| 0 <= x < n ==> (#[trigger] assigned@[x]
                <==> entry_key(e@[x]) is Some && exists|y: int| 0 <= y < i && entry_key(e@[y]) == entry_key(e@[x])),
            forall|x: int| 0 <= x < n && !(#[trigger] assigned@[x]) ==> target@[x] is None,
            forall|x: int| 0 <= x < n && #[trigger] assigned@[x] ==> match follows(e@, x) {
                Some(m) => target@[x] == Some(m as usize),
                None => target@[x] is None,
            },
        decreases n - i,
    {
        let leader = match &keys[i] {
            Some(pair) => !assigned[i],
            None => false,
        };
        if leader {
            let ghost key = entry_key(e@[i as int])->0;
            let mut g: Vec<usize> = Vec::new();
            let mut j: usize = 0;
            while j < n
                invariant
                    j <= n,
                    i < n,
                    n == e@.len(),
                    keys@.len() == n,
                    entry_key(e@[i as int]) == Some(key),
                    forall|x: int| 0 <= x < n ==> match #[trigger] keys@[x] {
                        Some((a, b)) => entry_key(e@[x]) == Some((a@, b@)),
                        None => entry_key(e@[x]) is None,
                    },
                    as_ints(g@) == keyed(e@, key, j as int),
                    forall|x: int| 0 <= x < g@.len() ==> #[trigger] g@[x] < j,
                decreases n - j,
            {
                let ghost before = g@;
                let same = match (&keys[j], &keys[i]) {
                    (Some((a, b)), Some((c, d))) => same_chars(a, c) && same_chars(b, d),
                    _ => false,
                };
                if same {
                    g.push(j);
                    assert(as_ints(g@) =~= as_ints(before) + seq![j as int]);
                } else {
                    assert(as_ints(g@) =~= as_ints(before) + Seq::<int>::empty());
                }
                j = j + 1;
            }
            let ghost gi = as_ints(g@);
            proof { lemma_keyed(e@, key, n as int); }
            let master: Option<usize> = if g.len() >= 2 { master_index(e, &g) } else { None };
            let mut m: usize = 0;
            while m < g.len()
                invariant
                    m <= g@.len(),
                    i < n,
                    n == e@.len(),
                    target@.len() == n,
                    assigned@.len() == n,
                    gi == as_ints(g@),
                    gi == keyed(e@, key, n as int),
                    entry_key(e@[i as int]) == Some(key),
                    forall|x: int| 0 <= x < g@.len() ==> #[trigger] g@[x] < n,
                    forall|x: int| 0 <= x < gi.len() ==> {
                        let y = #[trigger] gi[x];
                        0 <= y < n && entry_key(e@[y]) == Some(key)
                    },
                    forall|y: int| 0 <= y < n && entry_key(e@[y]) == Some(key) ==> #[trigger] gi.contains(y),
                    g@.len() >= 2 ==> match master_of(e@, gi) {
                        Some(mm) => master == Some(mm as usize),
                        None => master is None,
                    },
                    g@.len() < 2 ==> master is None,
                    forall|x: int| 0 <= x < n ==> (#[trigger] assigned@[x]
                        <==> (entry_key(e@[x]) is Some && exists|y: int| 0 <= y < i && entry_key(e@[y]) == entry_key(e@[x]))
                            || (entry_key(e@[x]) == Some(key) && exists|z: int| 0 <= z < m && gi[z] == x)),
                    forall|x: int| 0 <= x < n && !(#[trigger] assigned@[x]) ==> target@[x] is None,
                    forall|x: int| 0 <= x < n && #[trigger] assigned@[x] ==> match follows(e@, x) {
                        Some(mm) => target@[x] == Some(mm as usize),
                        None => target@[x] is None,
                    },
                decreases g@.len() - m,
            {
                let at = g[m];
                assert(gi[m as int] == at as int);
                let t: Option<usize> = match master {
                    Some(mm) => if mm == at || e[at].taken == e[mm].taken { None } else { Some(mm) },
                    None => None,
                };
                proof {
                    assert(entry_key(e@[at as int]) == Some(key));
                    match master_of(e@, gi) {
                        Some(mm) => {
                            if g@.len() >= 2 {
                                lemma_master_in(e@, gi);
                            }
                        },
                        None => {},
                    }
                }
                target.set(at, t);
                assigned.set(at, true);
                m = m + 1;
            }
            proof {
                assert forall|x: int| 0 <= x < n implies (#[trigger] assigned@[x]
                    <==> entry_key(e@[x]) is Some && exists|y: int| 0 <= y < i + 1 && entry_key(e@[y]) == entry_key(e@[x])) by {
                    if entry_key(e@[x]) == Some(key) {
                        assert(gi.contains(x));
                    }
                    if exists|z: int| 0 <= z < g@.len() && gi[z] == x {
                        let z = choose|z: int| 0 <= z < g@.len() && gi[z] == x;
                        assert(entry_key(e@[gi[z]]) == Some(key));
                    }
                }
            }
        } else {
            proof {
                assert forall|x: int| 0 <= x < n implies (#[trigger] assigned@[x]
                    <==> entry_key(e@[x]) is Some && exists|y: int| 0 <= y < i + 1 && entry_key(e@[y]) == entry_key(e@[x])) by {
                    if entry_key(e@[x]) is Some && entry_key(e@[i as int]) == entry_key(e@[x]) {
                        assert(assigned@[i as int]);
                        let y = choose|y: int| 0 <= y < i && entry_key(e@[y]) == entry_key(e@[i as int]);
                        assert(entry_key(e@[y]) == entry_key(e@[x]));
                    }
                }
            }
        }
        i = i + 1;
    }
    proof {
        assert forall|x: int| 0 <= x < n implies match follows(e@, x) {
            Some(m) => #[trigger] target@[x] == Some(m as usize),
            None => target@[x] is None,
        } by {
            if entry_key(e@[x]) is Some {
                assert(assigned@[x]);
            } else {
                assert(follows(e@, x) is None);
            }
        }
    }
    target
}

proof fn lemma_master_in(e: Seq<PlanEntry>, g: Seq<int>)
    ensures
        master_of(e, g) matches Some(m) ==> g.contains(m),
{
    if exists|p: int| 0 <= p < g.len() && is_top(e, g, p) {
        let p = choose|p: int| 0 <= p < g.len() && is_top(e, g, p);
        assert(g[p] == g[p]);
    }
}

proof fn lemma_master_stays(e: Seq<PlanEntry>, i: int)
    requires
        0 <= i < e.len(),
        follows(e, i) is Some,
    ensures
        0 <= follows(e, i)->0 < e.len(),
        follows(e, follows(e, i)->0) is None,
{
    let k = entry_key(e[i])->0;
    let g = keyed(e, k, e.len() as int);
    lemma_keyed(e, k, e.len() as int);
    lemma_master_in(e, g);
    let m = follows(e, i)->0;
    let x = choose|x: int| 0 <= x < g.len() && g[x] == m;
    assert(g[x] == m);
}

/// Gives every companion of a picture, video or sound the date of that master
/// file: files in one folder whose lower-case names agree but for the extension
/// (and for a sidecar's second extension) form a group; its master is the file of
/// the best kind, then the most trusted source, then the first name; every other
/// member whose date differs takes the master's date and source, a note naming the
/// master, no flags, and the destination that date gives it. Returns how many
/// files changed. Fails, with the pattern's error, when a destination cannot be
/// made; files may then have changed already.
pub fn pair(entries: &mut Vec<PlanEntry>, root: &str, folder_pattern: &str) -> (r: Result<usize, Error>)
    ensures
        final(entries)@.len() == old(entries)@.len(),
        r is Ok <==> forall|i: int| 0 <= i < old(entries)@.len() && #[trigger] follows(old(entries)@, i) is Some ==>
            moved_to(old(entries)@[i], old(entries)@[follows(old(entries)@, i)->0].taken, root@, folder_pattern@) is Some,
        r matches Ok(c) ==> c == followers(old(entries)@, old(entries)@.len() as int),
        r matches Ok(c) ==> forall|i: int| 0 <= i < old(entries)@.len() ==> match #[trigger] follows(old(entries)@, i) {
            None => final(entries)@[i] == old(entries)@[i],
            Some(m) => {
                let was = old(entries)@[i];
                let now = final(entries)@[i];
                &&& same_but_date(now, was)
                &&& now.taken == old(entries)@[m].taken
                &&& now.provider == old(entries)@[m].provider
                &&& opt_chars(now.provider_info) == Some(beside_note(old(entries)@[m]))
                &&& now.flags@.len() == 0
                &&& moved_to(was, old(entries)@[m].taken, root@, folder_pattern@) == Some(now.destination@)
            },
        },
        r matches Err(e) ==> e matches Error::InvalidFolderPattern(_),
{
    let ghost start = entries@;
    let n = entries.len();
    let target = masters(entries);
    let mut changed: usize = 0;
    let mut i: usize = 0;
    while i < n
        invariant
            i <= n,
            n == start.len(),
            start == old(entries)@,
            entries@.len() == n,
            target@.len() == n,
            forall|x: int| 0 <= x < n ==> match follows(start, x) {
                Some(m) => #[trigger] target@[x] == Some(m as usize),
                None => target@[x] is None,
            },
            forall|x: int| i <= x < n ==> #[trigger] entries@[x] == start[x],
            changed == followers(start, i as int),
            changed <= i,
            forall|x: int| 0 <= x < i ==> match #[trigger] follows(start, x) {
                None => entries@[x] == start[x],
                Some(m) => {
                    let was = start[x];
                    let now = entries@[x];
                    &&& same_but_date(now, was)
                    &&& now.taken == start[m].taken
                    &&& now.provider == start[m].provider
                    &&& opt_chars(now.provider_info) == Some(beside_note(start[m]))
                    &&& now.flags@.len() == 0
                    &&& moved_to(was, start[m].taken, root@, folder_pattern@) == Some(now.destination@)
                },
            },
        decreases n - i,
    {
        let ghost before = entries@;
        match target[i] {
            None => {
                assert(follows(start, i as int) is None);
            },
            Some(m) => {
                proof {
                    assert(follows(start, i as int) is Some);
                    lemma_master_stays(start, i as int);
                    assert(follows(start, i as int) == Some(m as int));
                    assert(target@[m as int] is None);
                    if m < i {
                        assert(follows(start, m as int) is None);
                    }
                }
                assert(entries@[m as int] == start[m as int]);
                assert(entries@[i as int] == start[i as int]);
                let taken = entries[m].taken;
                let provider = entries[m].provider;
                let mut note: Vec<char> = Vec::new();
                extend_str(&mut note, "beside ");
                match file_name(entries[m].source.as_str()) {
                    Some(name) => extend_str(&mut note, name.as_str()),
                    None => {},
                }
                assert(note@ =~= beside_note(start[m as int]));
                let subject: Option<&str> = match &entries[i].subject {
                    Some(s) => Some(s.as_str()),
                    None => None,
                };
                assert(subject_text(subject) == opt_chars(start[i as int].subject));
                let dest = destination_with_subject(entries[i].source.as_str(), &taken, subject, root, folder_pattern);
                let dest = match dest {
                    Ok(d) => d,
                    Err(e) => {
                        proof {
                            let f = choose|f: Facts| source_facts(f, start[i as int].source@, opt_chars(start[i as int].subject));
                            assert(source_facts(f, entries@[i as int].source@, subject_text(subject)));
                            assert(moved_to(start[i as int], start[m as int].taken, root@, folder_pattern@) is None);
                            assert(start == old(entries)@);
                            assert(entries@.len() == old(entries)@.len());
                        }
                        return Err(e);
                    },
                };
                proof {
                    let f = choose|f: Facts| source_facts(f, start[i as int].source@, opt_chars(start[i as int].subject));
                    assert(source_facts(f, entries@[i as int].source@, subject_text(subject)));
                }
                let mut entry = entries.remove(i);
                entry.destination = dest;
                entry.taken = taken;
                entry.provider = provider;
                entry.provider_info = Some(string_of(&note));
                entry.flags = Vec::new();
                entries.insert(i, entry);
                assert forall|x: int| 0 <= x < n && x != i implies #[trigger] entries@[x] == before[x] by {
                    if x < i {
                        assert(entries@[x] == before[x]);
                    } else {
                        assert(entries@[x] == before[x]);
                    }
                }
                changed = changed + 1;
            },
        }
        i = i + 1;
    }
    Ok(changed)
}

} // verus!
