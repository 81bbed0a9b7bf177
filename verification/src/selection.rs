//! Pairs of integers put in ascending order by repeatedly taking out the least, and
//! counts over sequences of booleans.
use vstd::prelude::*;

verus! {

/// Whether pair `a` comes before pair `b`: by the first number, then the second.
pub open spec fn pair_lt(a: (int, int), b: (int, int)) -> bool {
    a.0 < b.0 || (a.0 == b.0 && a.1 < b.1)
}

/// The position of the least pair, the first of them where several are least.
pub open spec fn least_at(s: Seq<(int, int)>) -> int
    decreases s.len(),
{
    if s.len() <= 1 {
        0
    } else {
        let rest = least_at(s.drop_last());
        if pair_lt(s.last(), s[rest]) { s.len() - 1 } else { rest }
    }
}

pub proof fn lemma_least_at(s: Seq<(int, int)>)
    requires
        s.len() > 0,
    ensures
        0 <= least_at(s) < s.len(),
        forall|j: int| 0 <= j < s.len() ==> !pair_lt(#[trigger] s[j], s[least_at(s)]),
    decreases s.len(),
{
    if s.len() > 1 {
        let t = s.drop_last();
        lemma_least_at(t);
        assert forall|j: int| 0 <= j < s.len() implies !pair_lt(#[trigger] s[j], s[least_at(s)]) by {
            if j < s.len() - 1 {
                assert(s[j] == t[j]);
            }
        }
    }
}

/// The pairs in ascending order: the least first, then the rest in ascending order.
pub open spec fn ascending(s: Seq<(int, int)>) -> Seq<(int, int)>
    decreases s.len(),
{
    if s.len() == 0 {
        seq![]
    } else {
        let m = least_at(s);
        proof { lemma_least_at(s); }
        seq![s[m]] + ascending(s.remove(m))
    }
}

pub proof fn lemma_ascending_len(s: Seq<(int, int)>)
    ensures
        ascending(s).len() == s.len(),
    decreases s.len(),
{
    if s.len() > 0 {
        lemma_least_at(s);
        lemma_ascending_len(s.remove(least_at(s)));
    }
}

pub proof fn lemma_ascending_members(s: Seq<(int, int)>)
    ensures
        ascending(s).len() == s.len(),
        forall|k: int| 0 <= k < s.len() ==> exists|m: int| 0 <= m < s.len() && #[trigger] ascending(s)[k] == s[m],
    decreases s.len(),
{
    lemma_ascending_len(s);
    if s.len() > 0 {
        lemma_least_at(s);
        let m0 = least_at(s);
        let t = s.remove(m0);
        lemma_ascending_members(t);
        assert forall|k: int| 0 <= k < s.len() implies exists|m: int| 0 <= m < s.len() && #[trigger] ascending(s)[k] == s[m] by {
            if k == 0 {
                assert(ascending(s)[0] == s[m0]);
            } else {
                assert(ascending(s)[k] == ascending(t)[k - 1]);
                let m1 = choose|m: int| 0 <= m < t.len() && ascending(t)[k - 1] == t[m];
                if m1 < m0 {
                    assert(t[m1] == s[m1]);
                } else {
                    assert(t[m1] == s[m1 + 1]);
                }
            }
        }
    }
}

/// The position of the least pair of `v`.
pub fn least_position(v: &Vec<(i128, u64)>) -> (r: usize)
    requires
        v@.len() > 0,
    ensures
        r == least_at(pairs_of(v@)),
        r < v@.len(),
{
    proof { lemma_least_at(pairs_of(v@)); }
    let mut best: usize = 0;
    let mut i: usize = 1;
    while i < v.len()
        invariant
            1 <= i <= v@.len(),
            best < i,
            best == least_at(pairs_of(v@).take(i as int)),
        decreases v@.len() - i,
    {
        let ghost s = pairs_of(v@);
        assert(s.take(i + 1).drop_last() =~= s.take(i as int));
        let a = v[i];
        let b = v[best];
        if a.0 < b.0 || (a.0 == b.0 && a.1 < b.1) {
            best = i;
        }
        i = i + 1;
    }
    assert(pairs_of(v@).take(v@.len() as int) =~= pairs_of(v@));
    best
}

/// The pairs of machine integers as pairs of integers.
pub open spec fn pairs_of(v: Seq<(i128, u64)>) -> Seq<(int, int)> {
    Seq::new(v.len(), |i: int| (v[i].0 as int, v[i].1 as int))
}

/// The pairs of `v` in ascending order.
pub fn sort_ascending(v: Vec<(i128, u64)>) -> (r: Vec<(i128, u64)>)
    ensures
        pairs_of(r@) == ascending(pairs_of(v@)),
{
    let mut rest = v;
    let mut out: Vec<(i128, u64)> = Vec::new();
    let ghost whole = pairs_of(rest@);
    while rest.len() > 0
        invariant
            ascending(whole) == pairs_of(out@) + ascending(pairs_of(rest@)),
        decreases rest@.len(),
    {
        let m = least_position(&rest);
        let ghost before = pairs_of(rest@);
        let x = rest.remove(m);
        proof {
            assert(pairs_of(rest@) =~= before.remove(m as int));
            assert(ascending(before) == seq![before[m as int]] + ascending(before.remove(m as int)));
        }
        let ghost old_out = pairs_of(out@);
        out.push(x);
        assert(pairs_of(out@) =~= old_out + seq![before[m as int]]);
    }
    assert(pairs_of(rest@) =~= Seq::<(int, int)>::empty());
    assert(pairs_of(out@) + ascending(pairs_of(rest@)) =~= pairs_of(out@));
    out
}

/// How many of the booleans hold.
pub open spec fn count_true(s: Seq<bool>) -> nat
    decreases s.len(),
{
    if s.len() == 0 {
        0
    } else {
        count_true(s.drop_last()) + if s.last() { 1nat } else { 0nat }
    }
}

pub proof fn lemma_count_true_step(s: Seq<bool>, k: int)
    requires
        0 <= k < s.len(),
    ensures
        count_true(s.take(k + 1)) == count_true(s.take(k)) + if s[k] { 1nat } else { 0nat },
{
    assert(s.take(k + 1).drop_last() =~= s.take(k));
}

pub proof fn lemma_count_true_bound(s: Seq<bool>)
    ensures
        count_true(s) <= s.len(),
    decreases s.len(),
{
    if s.len() > 0 {
        lemma_count_true_bound(s.drop_last());
    }
}

} // verus!
