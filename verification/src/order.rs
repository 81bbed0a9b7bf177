//! A strict order on keys made of text and a number, and an insertion sort of
//! positions by it. Ties between equal keys go to the earlier position, so sorting by
//! it is stable.
use vstd::prelude::*;

verus! {

broadcast use vstd::seq_lib::group_to_multiset_ensures;

/// Whether `a` comes before `b` in dictionary order of their characters.
pub open spec fn text_lt(a: Seq<char>, b: Seq<char>) -> bool
    decreases a.len(),
{
    if a.len() == 0 {
        b.len() > 0
    } else if b.len() == 0 {
        false
    } else if a[0] != b[0] {
        a[0] < b[0]
    } else {
        text_lt(a.drop_first(), b.drop_first())
    }
}

pub proof fn lemma_text_lt_irreflexive(a: Seq<char>)
    ensures
        !text_lt(a, a),
    decreases a.len(),
{
    if a.len() > 0 {
        lemma_text_lt_irreflexive(a.drop_first());
    }
}

pub proof fn lemma_text_lt_total(a: Seq<char>, b: Seq<char>)
    ensures
        a != b ==> text_lt(a, b) || text_lt(b, a),
        !(text_lt(a, b) && text_lt(b, a)),
    decreases a.len(),
{
    if a.len() > 0 && b.len() > 0 {
        lemma_text_lt_total(a.drop_first(), b.drop_first());
        if a[0] == b[0] && a != b {
            assert(a.drop_first() != b.drop_first()) by {
                if a.drop_first() == b.drop_first() {
                    assert(a =~= seq![a[0]] + a.drop_first());
                    assert(b =~= seq![b[0]] + b.drop_first());
                }
            }
        }
    } else if a.len() == 0 && b.len() == 0 {
        assert(a =~= b);
    }
}

pub proof fn lemma_text_lt_transitive(a: Seq<char>, b: Seq<char>, c: Seq<char>)
    requires
        text_lt(a, b),
        text_lt(b, c),
    ensures
        text_lt(a, c),
    decreases a.len(),
{
    if a.len() > 0 && b.len() > 0 && c.len() > 0 && a[0] == b[0] && b[0] == c[0] {
        lemma_text_lt_transitive(a.drop_first(), b.drop_first(), c.drop_first());
    }
}

/// Whether `a` comes before `b` in dictionary order.
pub fn text_less(a: &Vec<char>, b: &Vec<char>) -> (r: bool)
    ensures
        r == text_lt(a@, b@),
{
    let mut i: usize = 0;
    assert(a@.skip(0) =~= a@);
    assert(b@.skip(0) =~= b@);
    while i < a.len() && i < b.len()
        invariant
            i <= a.len(),
            i <= b.len(),
            forall|k: int| 0 <= k < i ==> a@[k] == b@[k],
            text_lt(a@, b@) == text_lt(a@.skip(i as int), b@.skip(i as int)),
        decreases a.len() - i,
    {
        if a[i] != b[i] {
            return a[i] < b[i];
        }
        assert(a@.skip(i as int).drop_first() =~= a@.skip(i + 1));
        assert(b@.skip(i as int).drop_first() =~= b@.skip(i + 1));
        i = i + 1;
    }
    proof {
        if i == a.len() && i < b.len() {
            assert(a@.skip(i as int).len() == 0);
        }
    }
    i == a.len() && i < b.len()
}

/// What a position is sorted by: a text, then a number, then a second text.
#[derive(Debug, Clone)]
pub struct SortKey {
    pub first: Vec<char>,
    pub number: i128,
    pub second: Vec<char>,
}

/// Whether key `a` comes before key `b`: by the first text, then the number, then the
/// second text.
pub open spec fn key_lt(a: SortKey, b: SortKey) -> bool {
    if a.first@ != b.first@ {
        text_lt(a.first@, b.first@)
    } else if a.number != b.number {
        a.number < b.number
    } else {
        text_lt(a.second@, b.second@)
    }
}

/// Whether position `i` comes before position `j` when sorted by `keys`: by key, and
/// between equal keys by position.
pub open spec fn pos_lt(keys: Seq<SortKey>, i: int, j: int) -> bool {
    key_lt(keys[i], keys[j]) || (!key_lt(keys[j], keys[i]) && i < j)
}

pub proof fn lemma_key_order(a: SortKey, b: SortKey, c: SortKey)
    ensures
        !key_lt(a, a),
        !(key_lt(a, b) && key_lt(b, a)),
        key_lt(a, b) && key_lt(b, c) ==> key_lt(a, c),
        !key_lt(a, b) && !key_lt(b, a) ==> a.first@ == b.first@ && a.number == b.number && a.second@ == b.second@,
        !key_lt(a, b) && !key_lt(b, c) ==> !key_lt(a, c),
{
    lemma_text_lt_irreflexive(a.first@);
    lemma_text_lt_irreflexive(a.second@);
    lemma_text_lt_total(a.first@, b.first@);
    lemma_text_lt_total(a.second@, b.second@);
    lemma_text_lt_total(b.first@, c.first@);
    lemma_text_lt_total(b.second@, c.second@);
    lemma_text_lt_total(a.first@, c.first@);
    lemma_text_lt_total(a.second@, c.second@);
    if text_lt(a.first@, b.first@) && text_lt(b.first@, c.first@) {
        lemma_text_lt_transitive(a.first@, b.first@, c.first@);
    }
    if text_lt(a.second@, b.second@) && text_lt(b.second@, c.second@) {
        lemma_text_lt_transitive(a.second@, b.second@, c.second@);
    }
    if text_lt(c.first@, b.first@) && text_lt(b.first@, a.first@) {
        lemma_text_lt_transitive(c.first@, b.first@, a.first@);
    }
    if text_lt(c.second@, b.second@) && text_lt(b.second@, a.second@) {
        lemma_text_lt_transitive(c.second@, b.second@, a.second@);
    }
}

fn key_less(a: &SortKey, b: &SortKey) -> (r: bool)
    ensures
        r == key_lt(*a, *b),
{
    proof { lemma_text_lt_irreflexive(a.first@); }
    let af = &a.first;
    let bf = &b.first;
    if text_less(af, bf) {
        return true;
    }
    if text_less(bf, af) {
        return false;
    }
    proof { lemma_text_lt_total(a.first@, b.first@); }
    if a.number != b.number {
        return a.number < b.number;
    }
    text_less(&a.second, &b.second)
}

/// Whether `s` lists positions in the order `pos_lt` puts them.
pub open spec fn sorted_by(keys: Seq<SortKey>, s: Seq<usize>) -> bool {
    forall|a: int, b: int| 0 <= a < b < s.len() ==> pos_lt(keys, s[a] as int, s[b] as int)
}

/// The positions `0..n`.
pub open spec fn positions(n: nat) -> Seq<usize> {
    Seq::new(n, |i: int| i as usize)
}

/// The positions of `keys`, sorted by key, equal keys in the order of their positions.
pub fn sort_positions(keys: &Vec<SortKey>) -> (r: Vec<usize>)
    ensures
        r@.to_multiset() == positions(keys@.len()).to_multiset(),
        r@.len() == keys@.len(),
        forall|k: int| 0 <= k < r@.len() ==> r@[k] < keys@.len(),
        sorted_by(keys@, r@),
{
    let n = keys.len();
    let mut out: Vec<usize> = Vec::new();
    let mut x: usize = 0;
    while x < n
        invariant
            x <= n,
            n == keys@.len(),
            out@.to_multiset() == positions(x as nat).to_multiset(),
            out@.len() == x,
            forall|k: int| 0 <= k < out@.len() ==> out@[k] < x,
            sorted_by(keys@, out@),
        decreases n - x,
    {
        let mut p: usize = 0;
        while p < out.len() && !(key_less(&keys[x], &keys[out[p]]))
            invariant
                p <= out@.len(),
                x < n,
                n == keys@.len(),
                forall|k: int| 0 <= k < out@.len() ==> out@[k] < x,
                forall|k: int| 0 <= k < p ==> !key_lt(#[trigger] keys@[x as int], keys@[out@[k] as int]),
            decreases out.len() - p,
        {
            p = p + 1;
        }
        let ghost before = out@;
        assert(p < out@.len() ==> key_lt(keys@[x as int], keys@[out@[p as int] as int]));
        proof {
            assert forall|k: int| 0 <= k < p implies pos_lt(keys@, #[trigger] before[k] as int, x as int) by {
                lemma_key_order(keys@[x as int], keys@[before[k] as int], keys@[x as int]);
            }
            assert forall|k: int| p <= k < before.len() implies pos_lt(keys@, x as int, #[trigger] before[k] as int) by {
                if k > p {
                    assert(pos_lt(keys@, before[p as int] as int, before[k] as int));
                    lemma_key_order(keys@[x as int], keys@[before[p as int] as int], keys@[before[k] as int]);
                    lemma_key_order(keys@[before[k] as int], keys@[x as int], keys@[before[p as int] as int]);
                    assert(key_lt(keys@[x as int], keys@[before[k] as int]));
                } else {
                    assert(key_lt(keys@[x as int], keys@[before[p as int] as int]));
                }
            }
        }
        out.insert(p, x);
        proof {
            assert(positions((x + 1) as nat) =~= positions(x as nat).push(x));
            vstd::seq_lib::to_multiset_insert(before, p as int, x);
            vstd::seq_lib::to_multiset_build(positions(x as nat), x);
            assert forall|a: int, b: int| 0 <= a < b < out@.len() implies pos_lt(keys@, out@[a] as int, out@[b] as int) by {
                if a < p && b < p {
                } else if a < p && b == p {
                } else if a < p {
                    assert(out@[b] == before[b - 1]);
                    assert(pos_lt(keys@, before[a] as int, before[b - 1] as int));
                } else if a == p {
                    assert(out@[b] == before[b - 1]);
                } else {
                    assert(out@[a] == before[a - 1]);
                    assert(out@[b] == before[b - 1]);
                }
            }
        }
        x = x + 1;
    }
    out
}

} // verus!
