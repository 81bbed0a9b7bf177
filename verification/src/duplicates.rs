//! Files that hold the same bytes: grouped by size, then by content, each path
//! reached twice counted once; and what is decided when a copy is about to go.
use vstd::prelude::*;
use crate::error::Error;
use crate::offset::texts;
use crate::order::{lemma_text_lt_total, lemma_text_lt_transitive, text_less, text_lt};
use crate::text::{chars_of, string_of, views};

verus! {

/// Files of one size that hold the same bytes.
#[derive(Debug)]
pub struct DuplicateGroup {
    pub bytes: u64,
    pub wasted: u64,
    pub sources: Vec<String>,
}

/// What the search learnt of one file of a size shared with others: its path, the
/// path it is reached by in the end, and the digest of its bytes if they could be
/// read.
#[derive(Debug)]
pub struct ContentFacts {
    pub source: String,
    pub same_file: String,
    pub digest: Option<String>,
}

// ---------------------------------------------------------------------------
// Sizes
// ---------------------------------------------------------------------------
/// The positions of the files of size `size` among the first `n`.
pub open spec fn of_size(files: Seq<(String, u64)>, size: u64, n: int) -> Seq<int>
    decreases n,
{
    if n <= 0 {
        seq![]
    } else {
        of_size(files, size, n - 1) + if files[n - 1].1 == size { seq![n - 1] } else { seq![] }
    }
}

/// Whether the `i`-th file is the first of its size.
pub open spec fn first_of_size(files: Seq<(String, u64)>, i: int) -> bool {
    forall|j: int| 0 <= j < i ==> files[j].1 != files[i].1
}

/// The sizes shared by two files or more, empty files left out, in the order the
/// sizes first appear, each with the positions of its files.
pub open spec fn shared_sizes(files: Seq<(String, u64)>, n: int) -> Seq<(u64, Seq<int>)>
    decreases n,
{
    if n <= 0 {
        seq![]
    } else {
        let i = n - 1;
        let size = files[i].1;
        let members = of_size(files, size, files.len() as int);
        shared_sizes(files, n - 1) + if size > 0 && first_of_size(files, i) && members.len() > 1 {
            seq![(size, members)]
        } else {
            seq![]
        }
    }
}

/// The positions of the files as integers.
pub open spec fn ints(v: Seq<usize>) -> Seq<int> {
    Seq::new(v.len(), |i: int| v[i] as int)
}

/// The sizes shared by two files or more, each with the positions of its files.
pub fn size_groups(files: &Vec<(String, u64)>) -> (r: Vec<(u64, Vec<usize>)>)
    ensures
        r@.len() == shared_sizes(files@, files@.len() as int).len(),
        forall|k: int| 0 <= k < r@.len() ==> (#[trigger] r@[k]).0 == shared_sizes(files@, files@.len() as int)[k].0
            && ints(r@[k].1@) == shared_sizes(files@, files@.len() as int)[k].1,
{
    let n = files.len();
    let mut out: Vec<(u64, Vec<usize>)> = Vec::new();
    let mut i: usize = 0;
    while i < n
        invariant
            i <= n,
            n == files@.len(),
            out@.len() == shared_sizes(files@, i as int).len(),
            forall|k: int| 0 <= k < out@.len() ==> (#[trigger] out@[k]).0 == shared_sizes(files@, i as int)[k].0
                && ints(out@[k].1@) == shared_sizes(files@, i as int)[k].1,
        decreases n - i,
    {
        let size = files[i].1;
        let mut first = true;
        let mut j: usize = 0;
        while j < i
            invariant
                j <= i < n,
                n == files@.len(),
                size == files@[i as int].1,
                first == forall|x: int| 0 <= x < j ==> files@[x].1 != size,
            decreases i - j,
        {
            if files[j].1 == size {
                first = false;
            }
            j = j + 1;
        }
        let ghost before = out@;
        if size > 0 && first {
            let mut members: Vec<usize> = Vec::new();
            let mut m: usize = 0;
            while m < n
                invariant
                    m <= n,
                    n == files@.len(),
                    ints(members@) == of_size(files@, size, m as int),
                decreases n - m,
            {
                let ghost prior = members@;
                if files[m].1 == size {
                    members.push(m);
                    assert(ints(members@) =~= ints(prior) + seq![m as int]);
                } else {
                    assert(ints(members@) =~= ints(prior) + Seq::<int>::empty());
                }
                m = m + 1;
            }
            if members.len() > 1 {
                out.push((size, members));
                assert forall|k: int| 0 <= k < out@.len() implies (#[trigger] out@[k]).0 == shared_sizes(files@, i + 1)[k].0
                    && ints(out@[k].1@) == shared_sizes(files@, i + 1)[k].1 by {
                    if k < before.len() {
                        assert(out@[k] == before[k]);
                    }
                }
            }
        }
        i = i + 1;
    }
    out
}

// ---------------------------------------------------------------------------
// Contents
// ---------------------------------------------------------------------------
/// Whether the `i`-th file is the first reached by its path and has a digest.
pub open spec fn counted(m: Seq<ContentFacts>, i: int) -> bool {
    &&& (forall|j: int| 0 <= j < i ==> m[j].same_file@ != m[i].same_file@)
    &&& m[i].digest is Some
}

/// The positions of the counted files whose digest is `d`.
pub open spec fn with_digest(m: Seq<ContentFacts>, d: Seq<char>, n: int) -> Seq<int>
    decreases n,
{
    if n <= 0 {
        seq![]
    } else {
        with_digest(m, d, n - 1) + if counted(m, n - 1) && m[n - 1].digest->0@ == d { seq![n - 1] } else { seq![] }
    }
}

/// Whether the `i`-th file is the first counted one with its digest.
pub open spec fn leads(m: Seq<ContentFacts>, i: int) -> bool {
    counted(m, i) && forall|j: int| 0 <= j < i && counted(m, j) ==> m[j].digest->0@ != m[i].digest->0@
}

/// The digests held by two counted files or more, in the order they first appear,
/// each with the positions of its files.
pub open spec fn copies(m: Seq<ContentFacts>, n: int) -> Seq<Seq<int>>
    decreases n,
{
    if n <= 0 {
        seq![]
    } else {
        let i = n - 1;
        let class = with_digest(m, m[i].digest->0@, m.len() as int);
        copies(m, n - 1) + if leads(m, i) && class.len() > 1 { seq![class] } else { seq![] }
    }
}

/// Whether `r` lists the texts of `t` in ascending order, each as often as in `t`.
pub open spec fn sorted_copy_of(r: Seq<Seq<char>>, t: Seq<Seq<char>>) -> bool {
    &&& forall|a: int, b: int| 0 <= a < b < r.len() ==> !text_lt(r[b], r[a])
    &&& r.to_multiset() == t.to_multiset()
}

/// The paths of the files at positions `class`.
pub open spec fn sources_at(m: Seq<ContentFacts>, class: Seq<int>) -> Seq<Seq<char>> {
    Seq::new(class.len(), |k: int| m[class[k]].source@)
}

/// Whether `g` is the group of files of size `size` at positions `class`: their
/// paths in ascending order, and the bytes all but one of them waste.
pub open spec fn groups_files(g: DuplicateGroup, size: u64, m: Seq<ContentFacts>, class: Seq<int>) -> bool {
    &&& g.bytes == size
    &&& g.wasted == size * (class.len() - 1)
    &&& sorted_copy_of(texts(g.sources@), sources_at(m, class))
}

/// Whether the texts of `v` never go down.
pub open spec fn ascending_texts(v: Seq<Seq<char>>) -> bool {
    forall|a: int, b: int| 0 <= a < b < v.len() ==> !text_lt(v[b], v[a])
}

/// `x` put into the ascending `list`, after the texts equal to it.
fn insert_in_order(list: &mut Vec<Vec<char>>, x: Vec<char>)
    requires
        ascending_texts(views(old(list)@)),
    ensures
        ascending_texts(views(final(list)@)),
        views(final(list)@).to_multiset() == views(old(list)@).to_multiset().insert(x@),
{
    let ghost before = views(list@);
    let ghost xv = x@;
    let mut p: usize = 0;
    while p < list.len() && !text_less(&x, &list[p])
        invariant
            p <= list@.len(),
            views(list@) == before,
            x@ == xv,
            forall|k: int| 0 <= k < p ==> !text_lt(xv, #[trigger] before[k]),
        decreases list@.len() - p,
    {
        p = p + 1;
    }
    list.insert(p, x);
    proof {
        let after = views(list@);
        assert(after =~= before.insert(p as int, xv));
        vstd::seq_lib::to_multiset_insert(before, p as int, xv);
        assert forall|a: int, b: int| 0 <= a < b < after.len() implies !text_lt(after[b], after[a]) by {
            lemma_text_lt_total(after[a], after[b]);
            if b < p {
            } else if b == p {
                assert(after[a] == before[a]);
            } else if a == p {
                assert(after[b] == before[b - 1]);
                assert(text_lt(xv, before[p as int]));
                if b - 1 > p {
                    lemma_text_lt_total(before[p as int], before[b - 1]);
                    if text_lt(before[p as int], before[b - 1]) {
                        lemma_text_lt_transitive(xv, before[p as int], before[b - 1]);
                    }
                }
                lemma_text_lt_total(xv, before[b - 1]);
            } else if a < p {
                assert(after[a] == before[a] && after[b] == before[b - 1]);
            } else {
                assert(after[a] == before[a - 1] && after[b] == before[b - 1]);
            }
        }
    }
}

/// Which files count: each the first reached by its path, with a digest.
fn counted_flags(members: &Vec<ContentFacts>) -> (r: Vec<bool>)
    ensures
        r@.len() == members@.len(),
        forall|i: int| 0 <= i < r@.len() ==> r@[i] == counted(members@, i),
{
    let n = members.len();
    let mut r: Vec<bool> = Vec::new();
    let mut i: usize = 0;
    while i < n
        invariant
            i <= n,
            n == members@.len(),
            r@.len() == i,
            forall|k: int| 0 <= k < i ==> r@[k] == counted(members@, k),
        decreases n - i,
    {
        let mut first = members[i].digest.is_some();
        let mut j: usize = 0;
        while j < i
            invariant
                j <= i < n,
                n == members@.len(),
                first == (members@[i as int].digest is Some
                    && forall|x: int| 0 <= x < j ==> members@[x].same_file@ != members@[i as int].same_file@),
            decreases i - j,
        {
            if members[j].same_file == members[i].same_file {
                first = false;
            }
            j = j + 1;
        }
        r.push(first);
        i = i + 1;
    }
    r
}

/// Whether `digest` is `Some` of the text `d`.
fn digest_is(digest: &Option<String>, d: &String) -> (r: bool)
    ensures
        r == (digest is Some && digest->0@ == d@),
{
    match digest {
        Some(x) => *x == *d,
        None => false,
    }
}

/// Strings holding the character lists `v`.
fn strings_of(v: &Vec<Vec<char>>) -> (r: Vec<String>)
    ensures
        texts(r@) == views(v@),
{
    let mut r: Vec<String> = Vec::new();
    let mut i: usize = 0;
    while i < v.len()
        invariant
            i <= v@.len(),
            r@.len() == i,
            forall|k: int| 0 <= k < i ==> (#[trigger] r@[k])@ == v@[k]@,
        decreases v@.len() - i,
    {
        r.push(string_of(&v[i]));
        i = i + 1;
    }
    assert(texts(r@) =~= views(v@));
    r
}

/// The groups of files of size `size` that hold the same bytes: among `members`,
/// those counted (the first reached by each path, with a digest) are grouped by
/// digest; each digest held by two or more makes a group, in the order the digests
/// first appear.
pub fn content_groups(size: u64, members: &Vec<ContentFacts>) -> (r: Vec<DuplicateGroup>)
    requires
        size * members@.len() <= u64::MAX,
    ensures
        r@.len() == copies(members@, members@.len() as int).len(),
        forall|k: int| 0 <= k < r@.len()
            ==> groups_files(#[trigger] r@[k], size, members@, copies(members@, members@.len() as int)[k]),
{
    let ghost m = members@;
    let n = members.len();
    let flags = counted_flags(members);
    let mut out: Vec<DuplicateGroup> = Vec::new();
    let mut i: usize = 0;
    while i < n
        invariant
            i <= n,
            n == m.len(),
            m == members@,
            size * n <= u64::MAX,
            flags@.len() == n,
            forall|x: int| 0 <= x < n ==> flags@[x] == counted(m, x),
            out@.len() == copies(m, i as int).len(),
            forall|k: int| 0 <= k < out@.len() ==> groups_files(#[trigger] out@[k], size, m, copies(m, i as int)[k]),
        decreases n - i,
    {
        let ghost before = out@;
        if flags[i] {
            assert(counted(m, i as int));
            let d: &String = match &members[i].digest {
                Some(d) => d,
                None => { return out; }
            };
            let mut lead = true;
            let mut j: usize = 0;
            while j < i
                invariant
                    j <= i < n,
                    n == m.len(),
                    m == members@,
                    flags@.len() == n,
                    forall|x: int| 0 <= x < n ==> flags@[x] == counted(m, x),
                    d@ == m[i as int].digest->0@,
                    lead == forall|x: int| 0 <= x < j && counted(m, x) ==> m[x].digest->0@ != d@,
                decreases i - j,
            {
                if flags[j] && digest_is(&members[j].digest, d) {
                    lead = false;
                    assert(counted(m, j as int) && m[j as int].digest->0@ == d@);
                }
                j = j + 1;
            }
            if lead {
                let mut list: Vec<Vec<char>> = Vec::new();
                let mut count: usize = 0;
                let mut x: usize = 0;
                assert(views(list@) =~= Seq::<Seq<char>>::empty());
                assert(sources_at(m, with_digest(m, d@, 0)) =~= Seq::<Seq<char>>::empty());
                while x < n
                    invariant
                        x <= n,
                        n == m.len(),
                        m == members@,
                        flags@.len() == n,
                        forall|y: int| 0 <= y < n ==> flags@[y] == counted(m, y),
                        count == with_digest(m, d@, x as int).len(),
                        count <= x,
                        ascending_texts(views(list@)),
                        views(list@).to_multiset() == sources_at(m, with_digest(m, d@, x as int)).to_multiset(),
                    decreases n - x,
                {
                    let ghost prior = with_digest(m, d@, x as int);
                    if flags[x] && digest_is(&members[x].digest, d) {
                        let ghost listed = views(list@);
                        insert_in_order(&mut list, chars_of(&members[x].source));
                        count = count + 1;
                        proof {
                            assert(with_digest(m, d@, x + 1) == prior + seq![x as int]);
                            assert(sources_at(m, prior + seq![x as int]) =~= sources_at(m, prior).push(m[x as int].source@));
                            vstd::seq_lib::to_multiset_build(sources_at(m, prior), m[x as int].source@);
                        }
                    } else {
                        assert(with_digest(m, d@, x + 1) =~= prior);
                    }
                    x = x + 1;
                }
                if count > 1 {
                    let sources = strings_of(&list);
                    assert(count - 1 <= n);
                    assert(size * (count - 1) <= size * n) by (nonlinear_arith)
                        requires count - 1 <= n;
                    let wasted = size * ((count - 1) as u64);
                    out.push(DuplicateGroup { bytes: size, wasted, sources });
                }
            }
        }
        proof {
            let class = with_digest(m, m[i as int].digest->0@, m.len() as int);
            assert(copies(m, i + 1) == copies(m, i as int) + if leads(m, i as int) && class.len() > 1 { seq![class] } else { seq![] });
            assert forall|k: int| 0 <= k < out@.len() implies groups_files(#[trigger] out@[k], size, m, copies(m, i + 1)[k]) by {
                if k < before.len() {
                    assert(out@[k] == before[k]);
                }
            }
        }
        i = i + 1;
    }
    out
}

proof fn lemma_with_digest(m: Seq<ContentFacts>, d: Seq<char>, n: int)
    ensures
        forall|j: int| 0 <= j < with_digest(m, d, n).len() ==> {
            let x = #[trigger] with_digest(m, d, n)[j];
            &&& 0 <= x < n
            &&& counted(m, x)
            &&& m[x].digest->0@ == d
        },
        forall|a: int, b: int| 0 <= a < b < with_digest(m, d, n).len()
            ==> with_digest(m, d, n)[a] < with_digest(m, d, n)[b],
    decreases n,
{
    if n > 0 {
        lemma_with_digest(m, d, n - 1);
        let prior = with_digest(m, d, n - 1);
        let now = with_digest(m, d, n);
        assert forall|j: int| 0 <= j < now.len() implies {
            let x = #[trigger] now[j];
            &&& 0 <= x < n
            &&& counted(m, x)
            &&& m[x].digest->0@ == d
        } by {
            if j < prior.len() {
                assert(now[j] == prior[j]);
            }
        }
        assert forall|a: int, b: int| 0 <= a < b < now.len() implies now[a] < now[b] by {
            if b < prior.len() {
                assert(now[a] == prior[a] && now[b] == prior[b]);
            } else {
                assert(now[a] == prior[a]);
            }
        }
    }
}

proof fn lemma_copies(m: Seq<ContentFacts>, n: int)
    ensures
        forall|k: int| 0 <= k < copies(m, n).len() ==> (#[trigger] copies(m, n)[k]).len() > 1
            && exists|d: Seq<char>| copies(m, n)[k] == with_digest(m, d, m.len() as int),
    decreases n,
{
    if n > 0 {
        lemma_copies(m, n - 1);
        let prior = copies(m, n - 1);
        let now = copies(m, n);
        assert forall|k: int| 0 <= k < now.len() implies (#[trigger] now[k]).len() > 1
            && exists|d: Seq<char>| now[k] == with_digest(m, d, m.len() as int) by {
            if k < prior.len() {
                assert(now[k] == prior[k]);
            } else {
                let d = m[n - 1].digest->0@;
                assert(now[k] == with_digest(m, d, m.len() as int));
            }
        }
    }
}

/// What a group of copies is: two files or more, each reached by a path of its own,
/// that hold the same digest.
pub proof fn law_copies_are_distinct_files_with_one_digest(m: Seq<ContentFacts>, k: int)
    requires
        0 <= k < copies(m, m.len() as int).len(),
    ensures
        copies(m, m.len() as int)[k].len() >= 2,
        forall|a: int, b: int|
            #![trigger copies(m, m.len() as int)[k][a], copies(m, m.len() as int)[k][b]]
            0 <= a < b < copies(m, m.len() as int)[k].len() ==> {
                let x = copies(m, m.len() as int)[k][a];
                let y = copies(m, m.len() as int)[k][b];
                &&& 0 <= x < m.len() && 0 <= y < m.len()
                &&& m[x].same_file@ != m[y].same_file@
                &&& m[x].digest is Some && m[y].digest is Some
                &&& m[x].digest->0@ == m[y].digest->0@
            },
{
    lemma_copies(m, m.len() as int);
    let class = copies(m, m.len() as int)[k];
    let d = choose|d: Seq<char>| class == with_digest(m, d, m.len() as int);
    lemma_with_digest(m, d, m.len() as int);
    assert forall|a: int, b: int| #![trigger class[a], class[b]] 0 <= a < b < class.len() implies {
        let x = class[a];
        let y = class[b];
        &&& 0 <= x < m.len() && 0 <= y < m.len()
        &&& m[x].same_file@ != m[y].same_file@
        &&& m[x].digest is Some && m[y].digest is Some
        &&& m[x].digest->0@ == m[y].digest->0@
    } by {
        let x = class[a];
        let y = class[b];
        assert(counted(m, x) && counted(m, y));
        assert(m[y].digest is Some);
        assert(x < y);
        assert(m[x].digest->0@ == d && m[y].digest->0@ == d);
    }
}

// ---------------------------------------------------------------------------
// The order of the report
// ---------------------------------------------------------------------------
/// Whether the first path of `a` comes before that of `b`, a list without paths
/// coming first.
pub open spec fn first_lt(a: Seq<String>, b: Seq<String>) -> bool {
    if a.len() == 0 {
        b.len() > 0
    } else if b.len() == 0 {
        false
    } else {
        text_lt(a[0]@, b[0]@)
    }
}

/// Whether group `a` is reported before group `b`: the one that wastes more first,
/// then by first path.
pub open spec fn heavier(a: DuplicateGroup, b: DuplicateGroup) -> bool {
    a.wasted > b.wasted || (a.wasted == b.wasted && first_lt(a.sources@, b.sources@))
}

/// Whether no group of `v` is heavier than one before it.
pub open spec fn ranked(v: Seq<DuplicateGroup>) -> bool {
    forall|a: int, b: int| 0 <= a < b < v.len() ==> !heavier(v[b], v[a])
}

proof fn lemma_heavier(a: DuplicateGroup, b: DuplicateGroup, c: DuplicateGroup)
    ensures
        !heavier(a, a),
        heavier(a, b) && heavier(b, c) ==> heavier(a, c),
{
    if a.sources@.len() > 0 {
        crate::order::lemma_text_lt_irreflexive(a.sources@[0]@);
    }
    if heavier(a, b) && heavier(b, c) && a.wasted == b.wasted && b.wasted == c.wasted
        && a.sources@.len() > 0 && b.sources@.len() > 0 && c.sources@.len() > 0 {
        lemma_text_lt_transitive(a.sources@[0]@, b.sources@[0]@, c.sources@[0]@);
    }
}

fn is_heavier(a: &DuplicateGroup, b: &DuplicateGroup) -> (r: bool)
    ensures
        r == heavier(*a, *b),
{
    if a.wasted != b.wasted {
        return a.wasted > b.wasted;
    }
    if a.sources.len() == 0 {
        return b.sources.len() > 0;
    }
    if b.sources.len() == 0 {
        return false;
    }
    let x = chars_of(&a.sources[0]);
    let y = chars_of(&b.sources[0]);
    text_less(&x, &y)
}

/// The groups, the one that wastes the most first, equal ones by first path.
pub fn rank_groups(groups: Vec<DuplicateGroup>) -> (r: Vec<DuplicateGroup>)
    ensures
        r@.to_multiset() == groups@.to_multiset(),
        ranked(r@),
{
    broadcast use vstd::seq_lib::group_to_multiset_ensures;
    let ghost all = groups@;
    let mut rest = groups;
    let mut out: Vec<DuplicateGroup> = Vec::new();
    while rest.len() > 0
        invariant
            rest@.to_multiset().add(out@.to_multiset()) == all.to_multiset(),
            ranked(out@),
            forall|a: int, b: int| 0 <= a < out@.len() && 0 <= b < rest@.len() ==> !heavier(rest@[b], out@[a]),
        decreases rest@.len(),
    {
        let mut best: usize = 0;
        let mut i: usize = 1;
        proof { lemma_heavier(rest@[0], rest@[0], rest@[0]); }
        while i < rest.len()
            invariant
                1 <= i <= rest@.len(),
                best < i,
                forall|x: int| 0 <= x < i ==> !heavier(#[trigger] rest@[x], rest@[best as int]),
            decreases rest@.len() - i,
        {
            if is_heavier(&rest[i], &rest[best]) {
                proof {
                    assert forall|x: int| 0 <= x <= i implies !heavier(#[trigger] rest@[x], rest@[i as int]) by {
                        lemma_heavier(rest@[x], rest@[i as int], rest@[best as int]);
                    }
                }
                best = i;
            }
            i = i + 1;
        }
        let ghost before_rest = rest@;
        let ghost before_out = out@;
        let g = rest.remove(best);
        out.push(g);
        proof {
            assert(rest@ == before_rest.remove(best as int));
            assert(out@ == before_out.push(g));
            vstd::seq_lib::to_multiset_remove(before_rest, best as int);
            vstd::seq_lib::to_multiset_build(before_out, g);
            assert(before_rest[best as int] == g);
            assert(before_rest.contains(g));
            vstd::seq_lib::to_multiset_contains(before_rest, g);
            assert(rest@.to_multiset().add(out@.to_multiset()) =~= all.to_multiset());
            assert forall|a: int, b: int| 0 <= a < b < out@.len() implies !heavier(out@[b], out@[a]) by {
                if b < before_out.len() {
                    assert(out@[a] == before_out[a] && out@[b] == before_out[b]);
                } else {
                    assert(out@[a] == before_out[a]);
                    assert(out@[b] == before_rest[best as int]);
                }
            }
            assert forall|a: int, b: int| 0 <= a < out@.len() && 0 <= b < rest@.len() implies !heavier(rest@[b], out@[a]) by {
                let rb = if b < best { b } else { b + 1 };
                assert(rest@[b] == before_rest[rb]);
                if a < before_out.len() {
                    assert(out@[a] == before_out[a]);
                } else {
                    assert(out@[a] == before_rest[best as int]);
                }
            }
        }
    }
    proof {
        assert(rest@.to_multiset() =~= vstd::multiset::Multiset::empty());
        assert(out@.to_multiset() =~= all.to_multiset());
    }
    out
}

// ---------------------------------------------------------------------------
// The whole search
// ---------------------------------------------------------------------------
/// The groups each size gives, one after the other, each with the size and the
/// facts its files come from.
pub open spec fn found(sizes: Seq<u64>, facts: Seq<Seq<ContentFacts>>, n: int) -> Seq<(u64, Seq<ContentFacts>, Seq<int>)>
    decreases n,
{
    if n <= 0 {
        seq![]
    } else {
        let m = facts[n - 1];
        found(sizes, facts, n - 1) + copies(m, m.len() as int).map_values(|c: Seq<int>| (sizes[n - 1], m, c))
    }
}

/// The sizes of the shared sizes, and the facts gathered for each, as plain values.
pub open spec fn size_list(files: Seq<(String, u64)>) -> Seq<u64> {
    let shared = shared_sizes(files, files.len() as int);
    Seq::new(shared.len(), |k: int| shared[k].0)
}

pub open spec fn fact_lists(facts: Seq<Vec<ContentFacts>>) -> Seq<Seq<ContentFacts>> {
    Seq::new(facts.len(), |k: int| facts[k]@)
}

/// Whether group `g` reports the class `c`.
pub open spec fn shows_class(g: DuplicateGroup, c: (u64, Seq<ContentFacts>, Seq<int>)) -> bool {
    groups_files(g, c.0, c.1, c.2)
}

/// Whether `g` reports some class of `f`.
pub open spec fn shows_some_class(g: DuplicateGroup, f: Seq<(u64, Seq<ContentFacts>, Seq<int>)>) -> bool {
    exists|j: int| 0 <= j < f.len() && #[trigger] shows_class(g, f[j])
}

/// Whether class `c` is reported by some group of `v`.
pub open spec fn shown_by_some_group(v: Seq<DuplicateGroup>, c: (u64, Seq<ContentFacts>, Seq<int>)) -> bool {
    exists|i: int| 0 <= i < v.len() && #[trigger] shows_class(v[i], c)
}

/// The copies among `files`, given for each size shared by two files or more
/// (`size_groups`) what was learnt of its files, in the same order. A search that
/// was cancelled stops, if there was anything to search. Otherwise every class of
/// files with the same bytes is reported once, the group that wastes the most first.
pub fn exact(files: &Vec<(String, u64)>, facts: &Vec<Vec<ContentFacts>>, cancelled: bool) -> (r: Result<Vec<DuplicateGroup>, Error>)
    requires
        facts@.len() == shared_sizes(files@, files@.len() as int).len(),
        forall|k: int| 0 <= k < facts@.len()
            ==> size_list(files@)[k] * (#[trigger] facts@[k])@.len() <= u64::MAX,
    ensures
        r is Err <==> cancelled && facts@.len() > 0,
        r is Err ==> r->Err_0 == Error::Cancelled,
        r is Ok ==> r->Ok_0@.len() == found(size_list(files@), fact_lists(facts@), facts@.len() as int).len(),
        r is Ok ==> ranked(r->Ok_0@),
        r is Ok ==> forall|i: int| 0 <= i < r->Ok_0@.len()
            ==> #[trigger] shows_some_class(r->Ok_0@[i], found(size_list(files@), fact_lists(facts@), facts@.len() as int)),
        r is Ok ==> forall|j: int| 0 <= j < found(size_list(files@), fact_lists(facts@), facts@.len() as int).len()
            ==> #[trigger] shown_by_some_group(r->Ok_0@, found(size_list(files@), fact_lists(facts@), facts@.len() as int)[j]),
{
    broadcast use vstd::seq_lib::group_to_multiset_ensures;
    if cancelled && facts.len() > 0 {
        return Err(Error::Cancelled);
    }
    let sizes = size_groups(files);
    let ghost sl = size_list(files@);
    let ghost fl = fact_lists(facts@);
    assert(sizes@.len() == sl.len());
    let mut all: Vec<DuplicateGroup> = Vec::new();
    let mut k: usize = 0;
    while k < facts.len()
        invariant
            k <= facts@.len(),
            facts@.len() == sl.len(),
            sizes@.len() == sl.len(),
            sl == size_list(files@),
            fl == fact_lists(facts@),
            forall|x: int| 0 <= x < sl.len() ==> (#[trigger] sizes@[x]).0 == sl[x],
            forall|x: int| 0 <= x < facts@.len() ==> sl[x] * (#[trigger] facts@[x])@.len() <= u64::MAX,
            all@.len() == found(sl, fl, k as int).len(),
            forall|t: int| 0 <= t < all@.len() ==> #[trigger] shows_class(all@[t], found(sl, fl, k as int)[t]),
        decreases facts@.len() - k,
    {
        let size = sizes[k].0;
        assert(size == sl[k as int]);
        let ghost before = all@;
        let ghost m = facts@[k as int]@;
        let mut groups = content_groups(size, &facts[k]);
        let ghost added = copies(m, m.len() as int).map_values(|c: Seq<int>| (sl[k as int], m, c));
        let ghost got = groups@;
        all.append(&mut groups);
        proof {
            assert(fl[k as int] == m);
            assert(found(sl, fl, k + 1) == found(sl, fl, k as int) + added);
            assert forall|t: int| 0 <= t < all@.len() implies #[trigger] shows_class(all@[t], found(sl, fl, k + 1)[t]) by {
                if t < before.len() {
                    assert(all@[t] == before[t]);
                } else {
                    let x = t - before.len();
                    assert(all@[t] == got[x]);
                    assert(groups_files(got[x], size, m, copies(m, m.len() as int)[x]));
                }
            }
        }
        k = k + 1;
    }
    let ghost f = found(sl, fl, facts@.len() as int);
    let ghost flat = all@;
    let v = rank_groups(all);
    proof {
        vstd::seq_lib::to_multiset_len(v@);
        vstd::seq_lib::to_multiset_len(flat);
        assert forall|i: int| 0 <= i < v@.len() implies #[trigger] shows_some_class(v@[i], f) by {
            assert(v@.to_multiset().count(v@[i]) > 0);
            assert(flat.contains(v@[i]));
            let t = choose|t: int| 0 <= t < flat.len() && flat[t] == v@[i];
            assert(shows_class(flat[t], f[t]));
        }
        assert forall|j: int| 0 <= j < f.len() implies #[trigger] shown_by_some_group(v@, f[j]) by {
            assert(shows_class(flat[j], f[j]));
            assert(flat.to_multiset().count(flat[j]) > 0);
            assert(v@.contains(flat[j]));
            let i = choose|i: int| 0 <= i < v@.len() && v@[i] == flat[j];
            assert(shows_class(v@[i], f[j]));
        }
    }
    Ok(v)
}

/// The bytes all the groups waste together.
pub open spec fn total_wasted(groups: Seq<DuplicateGroup>) -> int
    decreases groups.len(),
{
    if groups.len() == 0 {
        0
    } else {
        total_wasted(groups.drop_last()) + groups.last().wasted
    }
}

/// The bytes all the groups waste together.
pub fn wasted(groups: &Vec<DuplicateGroup>) -> (r: u64)
    requires
        total_wasted(groups@) <= u64::MAX,
    ensures
        r == total_wasted(groups@),
{
    let mut sum: u64 = 0;
    let mut i: usize = 0;
    while i < groups.len()
        invariant
            i <= groups@.len(),
            total_wasted(groups@) <= u64::MAX,
            sum == total_wasted(groups@.take(i as int)),
        decreases groups@.len() - i,
    {
        assert(groups@.take(i + 1).drop_last() =~= groups@.take(i as int));
        proof { lemma_total_prefix(groups@, i + 1); }
        sum = sum + groups[i].wasted;
        i = i + 1;
    }
    assert(groups@.take(i as int) =~= groups@);
    sum
}

proof fn lemma_total_prefix(groups: Seq<DuplicateGroup>, n: int)
    requires
        0 <= n <= groups.len(),
    ensures
        total_wasted(groups.take(n)) <= total_wasted(groups),
    decreases groups.len() - n,
{
    if n < groups.len() {
        lemma_total_prefix(groups, n + 1);
        assert(groups.take(n + 1).drop_last() =~= groups.take(n));
    } else {
        assert(groups.take(n) =~= groups);
    }
}

// ---------------------------------------------------------------------------
// Looking again before a copy goes
// ---------------------------------------------------------------------------
/// What is decided of a copy that is about to be removed.
#[derive(Debug, Clone, Copy, PartialEq, Eq, Structural)]
pub enum Verdict {
    Removable,
    Vanished,
    Changed,
    TheKeeperItself,
}

/// How a verdict is told.
pub open spec fn verdict_words(v: Verdict) -> Seq<char> {
    match v {
        Verdict::Removable => "an identical copy is still there"@,
        Verdict::Vanished => "it is no longer on disk"@,
        Verdict::Changed => "it no longer holds the same bytes as the copy that is kept"@,
        Verdict::TheKeeperItself => "it is the copy that is kept, reached by another path"@,
    }
}

impl Verdict {
    pub fn describe(&self) -> (r: &'static str)
        ensures
            r@ == verdict_words(*self),
    {
        match self {
            Verdict::Removable => "an identical copy is still there",
            Verdict::Vanished => "it is no longer on disk",
            Verdict::Changed => "it no longer holds the same bytes as the copy that is kept",
            Verdict::TheKeeperItself => "it is the copy that is kept, reached by another path",
        }
    }
}

/// What the file system says of a path: whether it is a plain file, and its length.
#[derive(Debug, Clone, Copy, PartialEq, Eq, Structural)]
pub struct OnDisk {
    pub is_file: bool,
    pub len: u64,
}

/// The verdict on a copy before any byte is read, given whether the copy and the
/// kept file are one file reached two ways, and what the file system says of each
/// (`None` where it cannot be asked). `None` means the bytes decide.
pub fn first_look(same_file: bool, kept: Option<OnDisk>, going: Option<OnDisk>) -> (r: Option<Verdict>)
    ensures
        same_file ==> r == Some(Verdict::TheKeeperItself),
        !same_file && (kept is None || going is None) ==> r == Some(Verdict::Vanished),
        !same_file && kept is Some && going is Some ==> r == (
            if !kept->0.is_file || !going->0.is_file {
                Some(Verdict::Vanished)
            } else if kept->0.len != going->0.len {
                Some(Verdict::Changed)
            } else {
                None
            }),
{
    if same_file {
        return Some(Verdict::TheKeeperItself);
    }
    match (kept, going) {
        (Some(k), Some(g)) => {
            if !k.is_file || !g.is_file {
                Some(Verdict::Vanished)
            } else if k.len != g.len {
                Some(Verdict::Changed)
            } else {
                None
            }
        },
        _ => Some(Verdict::Vanished),
    }
}

/// The verdict once the digests of the kept file and of the copy are known (`None`
/// where one could not be read).
pub fn second_look(one: &Option<String>, two: &Option<String>) -> (r: Verdict)
    ensures
        r == match (one, two) {
            (Some(a), Some(b)) => if a@ == b@ { Verdict::Removable } else { Verdict::Changed },
            _ => Verdict::Vanished,
        },
{
    match (one, two) {
        (Some(a), Some(b)) => if *a == *b { Verdict::Removable } else { Verdict::Changed },
        _ => Verdict::Vanished,
    }
}

} // verus!
