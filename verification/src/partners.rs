//! Which files a search for lookalikes needs to read: only a file linked to another
//! fingerprinted file can have its bytes matter.
use vstd::prelude::*;
use crate::similar::{
    digest_view, fingerprinted, fingerprinted_positions, kept, linked, looks, ring_groups, ring_labels,
    rings_into_groups, source_before, BurstFacts,
};

verus! {

/// Whether the fingerprinted file `x` is linked to another fingerprinted file: only
/// then can its bytes matter to a set of lookalikes.
pub open spec fn has_partner(facts: Seq<BurstFacts>, x: int) -> bool {
    exists|y: int| 0 <= y < facts.len() && y != x && facts[y].hash is Some && #[trigger] linked(facts, x, y)
}

/// Which files need their bytes read before `group_lookalikes`: those linked to at
/// least one other fingerprinted file. The others can be handed over as `None`.
pub fn needs_digest(facts: &[BurstFacts]) -> (r: Vec<bool>)
    ensures
        r@.len() == facts@.len(),
        forall|x: int| 0 <= x < facts@.len() ==> r@[x] == has_partner(facts@, x),
{
    let n = facts.len();
    let seen = fingerprinted_positions(facts);
    let label = ring_labels(facts, &seen);
    let raw = rings_into_groups(facts, &seen, &label);
    let mut r: Vec<bool> = Vec::new();
    let mut k: usize = 0;
    while k < n
        invariant
            k <= n,
            n == facts@.len(),
            r@.len() == k,
            forall|x: int| 0 <= x < k ==> !r@[x],
        decreases n - k,
    {
        r.push(false);
        k = k + 1;
    }
    let mut g: usize = 0;
    while g < raw.len()
        invariant
            g <= raw@.len(),
            n == facts@.len(),
            r@.len() == n,
            fingerprinted(facts@, seen@),
            forall|h: int, q: int| 0 <= h < raw@.len() && 0 <= q < raw@[h]@.len() ==> seen@.contains(#[trigger] raw@[h]@[q]),
            forall|x: int| 0 <= x < n ==> r@[x] == exists|h: int|
                0 <= h < g && (#[trigger] raw@[h])@.len() >= 2 && raw@[h]@.contains(x as usize),
        decreases raw@.len() - g,
    {
        let members = &raw[g];
        let ghost before = r@;
        if members.len() >= 2 {
            let mut q: usize = 0;
            while q < members.len()
                invariant
                    q <= members@.len(),
                    g < raw@.len(),
                    members == raw@[g as int],
                    n == facts@.len(),
                    r@.len() == n,
                    before.len() == n,
                    fingerprinted(facts@, seen@),
                    forall|h: int, q: int| 0 <= h < raw@.len() && 0 <= q < raw@[h]@.len() ==> seen@.contains(#[trigger] raw@[h]@[q]),
                    forall|x: int| 0 <= x < n ==> #[trigger] r@[x] == (before[x] || members@.take(q as int).contains(x as usize)),
                decreases members@.len() - q,
            {
                let x = members[q];
                proof {
                    assert(seen@.contains(raw@[g as int]@[q as int]));
                    let w = choose|w: int| 0 <= w < seen@.len() && seen@[w] == x;
                    assert(seen@[w] < facts@.len());
                }
                let ghost prior = r@;
                assert(forall|y: int| 0 <= y < n ==> prior[y] == (before[y] || members@.take(q as int).contains(y as usize)));
                r.set(x, true);
                proof {
                    assert(members@.take(q + 1) =~= members@.take(q as int).push(x));
                    assert forall|y: int| 0 <= y < n implies r@[y] == (before[y] || members@.take(q + 1).contains(y as usize)) by {
                        if y == x as int {
                            assert(members@.take(q + 1)[q as int] == x);
                            assert(members@.take(q + 1).contains(y as usize));
                        } else {
                            assert(r@[y] == prior[y]);
                            let before_part = members@.take(q as int);
                            if before_part.contains(y as usize) {
                                let p = choose|p: int| 0 <= p < before_part.len() && #[trigger] before_part[p] == y as usize;
                                assert(members@.take(q + 1)[p] == y as usize);
                            }
                            let upto = members@.take(q + 1);
                            if upto.contains(y as usize) {
                                let p = choose|p: int| 0 <= p < upto.len() && #[trigger] upto[p] == y as usize;
                                assert(p != q);
                                assert(members@.take(q as int)[p] == y as usize);
                            }
                        }
                    }
                }
                q = q + 1;
            }
            assert(members@.take(members@.len() as int) =~= members@);
        }
        let ghost long = members@.len() >= 2;
        proof {
            assert forall|x: int| 0 <= x < n implies r@[x] == exists|h: int|
                0 <= h < g + 1 && (#[trigger] raw@[h])@.len() >= 2 && raw@[h]@.contains(x as usize) by {
                if exists|h: int| 0 <= h < g + 1 && (#[trigger] raw@[h])@.len() >= 2 && raw@[h]@.contains(x as usize) {
                    let h = choose|h: int| 0 <= h < g + 1 && (#[trigger] raw@[h])@.len() >= 2 && raw@[h]@.contains(x as usize);
                    if h < g {
                        assert(before[x]);
                    }
                }
                if r@[x] {
                    if before[x] {
                        let h = choose|h: int| 0 <= h < g && (#[trigger] raw@[h])@.len() >= 2 && raw@[h]@.contains(x as usize);
                    } else {
                        assert(long);
                        assert(raw@[g as int]@.contains(x as usize));
                    }
                }
            }
        }
        g = g + 1;
    }
    proof {
        assert forall|x: int| 0 <= x < n implies r@[x] == has_partner(facts@, x) by {
            if r@[x] {
                let h = choose|h: int| 0 <= h < raw@.len() && (#[trigger] raw@[h])@.len() >= 2 && raw@[h]@.contains(x as usize);
                let q = choose|q: int| 0 <= q < raw@[h]@.len() && raw@[h]@[q] == x as usize;
                let other: int = if q == 0 { 1 } else { 0 };
                let y = raw@[h]@[other] as int;
                if q == 0 {
                    assert(raw@[h]@[0] < raw@[h]@[1]);
                } else {
                    assert(raw@[h]@[0] < raw@[h]@[q]);
                }
                assert(y != x);
                assert(seen@.contains(raw@[h]@[q]));
                assert(seen@.contains(raw@[h]@[other]));
                let a = choose|a: int| 0 <= a < seen@.len() && seen@[a] == raw@[h]@[q];
                let b = choose|b: int| 0 <= b < seen@.len() && seen@[b] == raw@[h]@[other];
                assert(label@[raw@[h]@[q] as int] == label@[raw@[h]@[other] as int]);
                assert(label@[seen@[a] as int] == label@[seen@[b] as int]);
                assert(linked(facts@, seen@[a] as int, seen@[b] as int));
                assert(facts@[seen@[b] as int].hash is Some);
                assert(linked(facts@, x, y));
            }
            if has_partner(facts@, x) {
                let y = choose|y: int| 0 <= y < facts@.len() && y != x && facts@[y].hash is Some && #[trigger] linked(facts@, x, y);
                assert(facts@[x].hash is Some);
                let (g1, q1) = choose|g1: int, q1: int| 0 <= g1 < raw@.len() && 0 <= q1 < raw@[g1]@.len() && #[trigger] raw@[g1]@[q1] == x;
                let (g2, q2) = choose|g2: int, q2: int| 0 <= g2 < raw@.len() && 0 <= q2 < raw@[g2]@.len() && #[trigger] raw@[g2]@[q2] == y;
                assert(seen@.contains(raw@[g1]@[q1]));
                assert(seen@.contains(raw@[g2]@[q2]));
                let a = choose|a: int| 0 <= a < seen@.len() && seen@[a] == raw@[g1]@[q1];
                let b = choose|b: int| 0 <= b < seen@.len() && seen@[b] == raw@[g2]@[q2];
                assert(linked(facts@, seen@[a] as int, seen@[b] as int));
                assert(label@[seen@[a] as int] == label@[seen@[b] as int]);
                assert(label@[raw@[g1]@[q1] as int] == label@[raw@[g2]@[q2] as int]);
                assert(g1 == g2);
                assert(q1 != q2);
                assert(raw@[g1]@.len() >= 2);
                assert(raw@[g1]@.contains(x as usize));
            }
        }
    }
    r
}

proof fn lemma_kept_len(d: Seq<Option<String>>, g: Seq<usize>)
    ensures
        kept(d, g).len() <= g.len(),
    decreases g.len(),
{
    if g.len() > 0 {
        lemma_kept_len(d, g.drop_last());
    }
}

proof fn lemma_kept_agree(d1: Seq<Option<String>>, d2: Seq<Option<String>>, g: Seq<usize>)
    requires
        forall|q: int| 0 <= q < g.len() ==> digest_view(d1[#[trigger] g[q] as int]) == digest_view(d2[g[q] as int]),
    ensures
        kept(d1, g) == kept(d2, g),
    decreases g.len(),
{
    if g.len() > 0 {
        let h = g.drop_last();
        assert forall|q: int| 0 <= q < h.len() implies digest_view(d1[#[trigger] h[q] as int]) == digest_view(d2[h[q] as int]) by {
            assert(h[q] == g[q]);
        }
        lemma_kept_agree(d1, d2, h);
        let x = g.last();
        assert(digest_view(d1[g[g.len() - 1] as int]) == digest_view(d2[g[g.len() - 1] as int]));
        assert forall|t: int| 0 <= t < g.len() - 1 implies digest_view(d1[#[trigger] g[t] as int]) == digest_view(d2[g[t] as int]) by {}
    }
}

/// Whether in each group any two different places hold different, linked,
/// fingerprinted files.
pub open spec fn partnered_groups(facts: Seq<BurstFacts>, groups: Seq<Seq<usize>>) -> bool {
    forall|g: int, q1: int, q2: int|
        #![trigger groups[g][q1], groups[g][q2]]
        0 <= g < groups.len() && 0 <= q1 < groups[g].len() && 0 <= q2 < groups[g].len() && q1 != q2 ==> {
            &&& groups[g][q1] != groups[g][q2]
            &&& groups[g][q2] < facts.len()
            &&& facts[groups[g][q2] as int].hash is Some
            &&& linked(facts, groups[g][q1] as int, groups[g][q2] as int)
        }
}

proof fn lemma_looks_agree(facts: Seq<BurstFacts>, d1: Seq<Option<String>>, d2: Seq<Option<String>>, groups: Seq<Seq<usize>>)
    requires
        partnered_groups(facts, groups),
        forall|g: int, q: int| 0 <= g < groups.len() && 0 <= q < groups[g].len() ==> (#[trigger] groups[g][q]) < facts.len(),
        forall|x: int| 0 <= x < facts.len() && has_partner(facts, x) ==> digest_view(d1[x]) == digest_view(d2[x]),
    ensures
        looks(facts, d1, groups) == looks(facts, d2, groups),
    decreases groups.len(),
{
    if groups.len() > 0 {
        let rest = groups.drop_last();
        assert(partnered_groups(facts, rest)) by {
            assert forall|g: int, q1: int, q2: int|
                #![trigger rest[g][q1], rest[g][q2]]
                0 <= g < rest.len() && 0 <= q1 < rest[g].len() && 0 <= q2 < rest[g].len() && q1 != q2 implies {
                    &&& rest[g][q1] != rest[g][q2]
                    &&& rest[g][q2] < facts.len()
                    &&& facts[rest[g][q2] as int].hash is Some
                    &&& linked(facts, rest[g][q1] as int, rest[g][q2] as int)
                } by {
                assert(rest[g] == groups[g]);
                assert(groups[g][q1] == rest[g][q1] && groups[g][q2] == rest[g][q2]);
                assert(0 <= g < groups.len() && 0 <= q1 < groups[g].len() && 0 <= q2 < groups[g].len() && q1 != q2);
                assert(groups[g][q1] != groups[g][q2]);
                assert(linked(facts, groups[g][q1] as int, groups[g][q2] as int));
            }
        }
        assert forall|g: int, q: int| 0 <= g < rest.len() && 0 <= q < rest[g].len() implies (#[trigger] rest[g][q]) < facts.len() by {
            assert(rest[g] == groups[g]);
            assert(groups[g][q] == rest[g][q]);
        }
        lemma_looks_agree(facts, d1, d2, rest);
        let last = groups.last();
        let gl = groups.len() - 1;
        assert(groups[gl] == last);
        if last.len() >= 2 {
            assert forall|q: int| 0 <= q < last.len() implies digest_view(d1[#[trigger] last[q] as int]) == digest_view(d2[last[q] as int]) by {
                let other: int = if q == 0 { 1 } else { 0 };
                assert(groups[gl][q] == last[q] && groups[gl][other] == last[other]);
                assert(last[q] < facts.len());
                assert(has_partner(facts, last[q] as int)) by {
                    assert(linked(facts, groups[gl][q] as int, groups[gl][other] as int));
                }
            }
            lemma_kept_agree(d1, d2, last);
        } else {
            lemma_kept_len(d1, last);
            lemma_kept_len(d2, last);
        }
    }
}

/// The bytes of a file that is linked to no other fingerprinted file never change the
/// lookalikes: two lists of digests that agree on every file with a partner give the
/// same sets.
pub proof fn law_only_linked_files_need_their_bytes(
    facts: Seq<BurstFacts>,
    d1: Seq<Option<String>>,
    d2: Seq<Option<String>>,
    groups: Seq<Seq<usize>>,
)
    requires
        ring_groups(facts, groups),
        forall|x: int| 0 <= x < facts.len() && has_partner(facts, x) ==> digest_view(d1[x]) == digest_view(d2[x]),
    ensures
        looks(facts, d1, groups) == looks(facts, d2, groups),
{
    assert(partnered_groups(facts, groups)) by {
        assert forall|g: int, q1: int, q2: int|
            #![trigger groups[g][q1], groups[g][q2]]
            0 <= g < groups.len() && 0 <= q1 < groups[g].len() && 0 <= q2 < groups[g].len() && q1 != q2 implies {
                &&& groups[g][q1] != groups[g][q2]
                &&& groups[g][q2] < facts.len()
                &&& facts[groups[g][q2] as int].hash is Some
                &&& linked(facts, groups[g][q1] as int, groups[g][q2] as int)
            } by {
            let (a, b) = if q1 < q2 { (q1, q2) } else { (q2, q1) };
            assert(source_before(facts, groups[g][a] as int, groups[g][b] as int));
            crate::order::lemma_text_lt_irreflexive(facts[groups[g][a] as int].source@);
        }
    }
    lemma_looks_agree(facts, d1, d2, groups);
}

} // verus!
