//! Clock offsets between the sources of a date: whether a difference has the shape
//! of a time zone, and how a shift is spelled out for a person.
use vstd::prelude::*;
use crate::text::{extend_str, chars_of, decimal, decimal_of, join_spaced, magnitude, same_chars, spaced, string_of, views};
use crate::model::PlanEntry;
use crate::moment::{instant, instant_bound, lemma_instant_bounded, Moment};
use crate::order::{text_less, text_lt, lemma_text_lt_irreflexive, lemma_text_lt_total, lemma_text_lt_transitive};
use crate::selection::{ascending, least_at, least_position, lemma_least_at, pairs_of, pair_lt, sort_ascending, lemma_ascending_members};
use crate::providers::{label_of, provider_at, provider_order, Provider};

verus! {

pub const MIN_FILES: usize = 5;
pub const MIN_SECONDS: i64 = 60;
pub const MERGE_TOLERANCE_SECONDS: i64 = 2;
/// How far from a whole hour an offset may sit and still be a time zone.
pub const HOUR_SLACK_SECONDS: i64 = 90;
/// The largest time zone difference there is.
pub const MAX_ZONE_HOURS: i64 = 14;

/// What an offset looks like: a whole number of hours, as a camera left on another
/// time zone gives, or anything else.
#[derive(Debug, Clone, Copy, PartialEq, Eq, Structural)]
pub enum Shape {
    Timezone { hours: i64 },
    Drift,
}

/// `s` seconds in hours, rounded to the nearest hour, halves away from zero.
pub open spec fn rounded_hours(s: int) -> int {
    if s >= 0 {
        (s + 1800) / 3600
    } else {
        -((-s + 1800) / 3600)
    }
}

/// The size of `x`.
pub open spec fn abs(x: int) -> int {
    if x < 0 {
        -x
    } else {
        x
    }
}

/// The shape of an offset of `s` seconds: a time zone when it rounds to a nonzero
/// number of hours no larger than the largest zone difference and lies within the
/// slack of that whole hour, else a drift.
pub open spec fn spec_shape(s: int) -> Shape {
    let h = rounded_hours(s);
    if h != 0 && abs(h) <= MAX_ZONE_HOURS && abs(s - h * 3600) <= HOUR_SLACK_SECONDS {
        Shape::Timezone { hours: h as i64 }
    } else {
        Shape::Drift
    }
}

impl Shape {
    /// The shape of an offset of `seconds`.
    pub fn of(seconds: i64) -> (r: Shape)
        ensures
            r == spec_shape(seconds as int),
    {
        let total: u64 = magnitude(seconds);
        let whole: u64 = total / 3600 + if total % 3600 >= 1800 { 1 } else { 0 };
        assert(whole == (total + 1800) / 3600);
        let rest: u64 = if whole * 3600 >= total { whole * 3600 - total } else { total - whole * 3600 };
        if whole != 0 && whole <= 14 && rest <= 90 {
            let hours: i64 = if seconds < 0 { -(whole as i64) } else { whole as i64 };
            Shape::Timezone { hours }
        } else {
            Shape::Drift
        }
    }
}

/// A count with its unit letter, such as `3h`.
pub open spec fn unit_part(n: nat, unit: char) -> Seq<char> {
    decimal(n).push(unit)
}

/// The pieces of a shift of `total` seconds: the days, hours, minutes and seconds in
/// it, each only where it is not zero, and the seconds also where nothing else is.
pub open spec fn shift_parts(total: nat) -> Seq<Seq<char>> {
    let days = total / 86_400;
    let hours = (total % 86_400) / 3_600;
    let minutes = (total % 3_600) / 60;
    let rest = total % 60;
    let big = (if days > 0 { seq![unit_part(days, 'd')] } else { Seq::empty() }) + (if hours
        > 0 {
        seq![unit_part(hours, 'h')]
    } else {
        Seq::empty()
    }) + (if minutes > 0 {
        seq![unit_part(minutes, 'm')]
    } else {
        Seq::empty()
    });
    if rest > 0 || big.len() == 0 {
        big.push(unit_part(rest, 's'))
    } else {
        big
    }
}

/// A shift of `s` seconds spelled out: its sign, then its pieces joined by spaces,
/// such as `+1d 1h 1m 1s` or `-1h`.
pub open spec fn spec_humanise(s: int) -> Seq<char> {
    seq![if s < 0 { '-' } else { '+' }] + spaced(shift_parts(abs(s) as nat))
}

/// A count and its unit letter.
fn unit_of(n: u64, unit: char) -> (r: Vec<char>)
    ensures
        r@ == unit_part(n as nat, unit),
{
    let mut r = decimal_of(n);
    r.push(unit);
    r
}

/// A shift of `seconds` spelled out for a person.
pub fn humanise(seconds: i64) -> (r: String)
    ensures
        r@ == spec_humanise(seconds as int),
{
    let total: u64 = magnitude(seconds);
    let days = total / 86_400;
    let hours = (total % 86_400) / 3_600;
    let minutes = (total % 3_600) / 60;
    let rest = total % 60;
    let mut parts: Vec<Vec<char>> = Vec::new();
    let ghost mut want: Seq<Seq<char>> = Seq::empty();
    if days > 0 {
        parts.push(unit_of(days, 'd'));
        proof { want = want.push(unit_part(days as nat, 'd')); }
    }
    if hours > 0 {
        parts.push(unit_of(hours, 'h'));
        proof { want = want.push(unit_part(hours as nat, 'h')); }
    }
    if minutes > 0 {
        parts.push(unit_of(minutes, 'm'));
        proof { want = want.push(unit_part(minutes as nat, 'm')); }
    }
    assert(views(parts@) =~= want);
    if rest > 0 || parts.len() == 0 {
        parts.push(unit_of(rest, 's'));
        proof { want = want.push(unit_part(rest as nat, 's')); }
    }
    assert(views(parts@) =~= want);
    assert(want =~= shift_parts(total as nat));
    let body = join_spaced(&parts);
    let mut out: Vec<char> = Vec::new();
    out.push(if seconds < 0 { '-' } else { '+' });
    crate::text::extend(&mut out, &body);
    crate::text::string_of(&out)
}

// ---------------------------------------------------------------------------
// Finding the offsets a plan shows
// ---------------------------------------------------------------------------
/// One difference between the date chosen for a file and the date another source
/// gave: the other source, the seconds by which the chosen date is later, and the
/// position of the file.
pub open spec fn candidate_notes(e: PlanEntry, i: int, n: int) -> Seq<(Provider, int, int)>
    decreases n,
{
    if n <= 0 {
        seq![]
    } else {
        let before = candidate_notes(e, i, n - 1);
        let c = e.candidates@[n - 1];
        let s = instant(e.taken) - instant(c.taken);
        if c.provider != e.provider && abs(s) >= MIN_SECONDS {
            before.push((c.provider, s, i))
        } else {
            before
        }
    }
}

/// The differences of the first `n` files, file by file, each file's candidates in
/// order.
pub open spec fn notes(es: Seq<PlanEntry>, n: int) -> Seq<(Provider, int, int)>
    decreases n,
{
    if n <= 0 {
        seq![]
    } else {
        notes(es, n - 1) + candidate_notes(es[n - 1], n - 1, es[n - 1].candidates@.len() as int)
    }
}

/// The differences against source `p` among the first `n` notes, as pairs of the
/// seconds and the position of the note.
pub open spec fn notes_against(ns: Seq<(Provider, int, int)>, p: Provider, n: int) -> Seq<(int, int)>
    decreases n,
{
    if n <= 0 {
        seq![]
    } else {
        let before = notes_against(ns, p, n - 1);
        if ns[n - 1].0 == p { before.push((ns[n - 1].1, n - 1)) } else { before }
    }
}

/// Where a run that starts at `start` ends: at the first difference more than the
/// merge tolerance past the run's first, from `j` on.
pub open spec fn run_stop(s: Seq<(int, int)>, start: int, j: int) -> int
    decreases s.len() - j,
{
    if j >= s.len() || j < 0 {
        s.len() as int
    } else if s[j].0 - s[start].0 > MERGE_TOLERANCE_SECONDS {
        j
    } else {
        run_stop(s, start, j + 1)
    }
}

pub proof fn lemma_run_stop(s: Seq<(int, int)>, start: int, j: int)
    requires
        0 <= j <= s.len(),
    ensures
        j <= run_stop(s, start, j) <= s.len(),
    decreases s.len() - j,
{
    if j < s.len() && s[j].0 - s[start].0 <= MERGE_TOLERANCE_SECONDS {
        lemma_run_stop(s, start, j + 1);
    }
}

/// The runs of sorted differences, from `start` on: each starts at the first
/// difference not yet taken and holds every later one within the merge tolerance of
/// it; as pairs of where it starts and ends.
pub open spec fn runs_from(s: Seq<(int, int)>, start: int) -> Seq<(int, int)>
    decreases s.len() - start,
{
    if start < 0 || start >= s.len() {
        seq![]
    } else {
        let stop = run_stop(s, start, start + 1);
        proof { lemma_run_stop(s, start, start + 1); }
        if stop <= start {
            seq![]
        } else {
            seq![(start, stop)] + runs_from(s, stop)
        }
    }
}

/// A clock offset that a run of files shows against one source: the source, the
/// seconds the chosen dates run ahead of it, its shape, the files it covers and the
/// stretch of time they were taken in.
#[derive(Debug)]
pub struct Offset {
    pub reference: Provider,
    pub seconds: i64,
    pub shape: Shape,
    pub sources: Vec<String>,
    pub span: Option<(Moment, Moment)>,
}

impl Offset {
    /// How many files the offset covers.
    pub fn files(&self) -> (r: usize)
        ensures
            r == self.sources@.len(),
    {
        self.sources.len()
    }
}

/// The texts of a list of strings.
pub open spec fn texts(v: Seq<String>) -> Seq<Seq<char>> {
    Seq::new(v.len(), |i: int| v[i]@)
}

/// Whether `r` lists the texts of `t` once each, in ascending order.
pub open spec fn sorted_set_of(r: Seq<Seq<char>>, t: Seq<Seq<char>>) -> bool {
    &&& forall|a: int, b: int| 0 <= a < b < r.len() ==> text_lt(r[a], r[b])
    &&& forall|x: Seq<char>| r.contains(x) <==> t.contains(x)
}

/// The positions of the files of a run, in the run's order.
pub open spec fn run_files(ns: Seq<(Provider, int, int)>, s: Seq<(int, int)>, from: int, to: int) -> Seq<int> {
    Seq::new((to - from) as nat, |k: int| ns[s[from + k].1].2)
}

/// The first file of a list taken earliest, and the last taken latest, as
/// positions in the list.
pub open spec fn earliest_at(es: Seq<PlanEntry>, m: Seq<int>) -> int {
    least_at(Seq::new(m.len(), |k: int| (instant(es[m[k]].taken), k)))
}

pub open spec fn latest_at(es: Seq<PlanEntry>, m: Seq<int>) -> int {
    least_at(Seq::new(m.len(), |k: int| (-instant(es[m[k]].taken), m.len() - 1 - k)))
}

/// Whether the offset `o` is the one the run from `from` to `to` of the sorted
/// differences `s` against source `p` shows.
pub open spec fn shows(es: Seq<PlanEntry>, ns: Seq<(Provider, int, int)>, p: Provider, s: Seq<(int, int)>,
    from: int, to: int, o: Offset) -> bool {
    let m = run_files(ns, s, from, to);
    &&& o.reference == p
    &&& o.seconds == s[from].0
    &&& o.shape == spec_shape(s[from].0)
    &&& sorted_set_of(texts(o.sources@), Seq::new(m.len(), |k: int| es[m[k]].source@))
    &&& o.span == Some((es[m[earliest_at(es, m)]].taken, es[m[latest_at(es, m)]].taken))
}

/// The notes as plain values.
pub open spec fn note_view(v: Seq<(Provider, i64, usize)>) -> Seq<(Provider, int, int)> {
    Seq::new(v.len(), |i: int| (v[i].0, v[i].1 as int, v[i].2 as int))
}

fn note_list(es: &Vec<PlanEntry>) -> (r: Vec<(Provider, i64, usize)>)
    ensures
        note_view(r@) == notes(es@, es@.len() as int),
        forall|k: int| 0 <= k < r@.len() ==> (#[trigger] r@[k]).2 < es@.len()
            && -0x4000_0000_0000_0000 < r@[k].1 < 0x4000_0000_0000_0000,
{
    let mut out: Vec<(Provider, i64, usize)> = Vec::new();
    let mut i: usize = 0;
    while i < es.len()
        invariant
            i <= es@.len(),
            note_view(out@) == notes(es@, i as int),
            forall|k: int| 0 <= k < out@.len() ==> (#[trigger] out@[k]).2 < es@.len()
                && -0x4000_0000_0000_0000 < out@[k].1 < 0x4000_0000_0000_0000,
        decreases es@.len() - i,
    {
        let e = &es[i];
        let ghost head = note_view(out@);
        proof { lemma_instant_bounded(e.taken); }
        let chosen = e.taken.seconds();
        let mut j: usize = 0;
        while j < e.candidates.len()
            invariant
                i < es@.len(),
                *e == es@[i as int],
                j <= e.candidates@.len(),
                chosen == instant(e.taken),
                -instant_bound() < chosen < instant_bound(),
                head == notes(es@, i as int),
                note_view(out@) == head + candidate_notes(*e, i as int, j as int),
                forall|k: int| 0 <= k < out@.len() ==> (#[trigger] out@[k]).2 < es@.len()
                    && -0x4000_0000_0000_0000 < out@[k].1 < 0x4000_0000_0000_0000,
            decreases e.candidates@.len() - j,
        {
            let c = &e.candidates[j];
            proof { lemma_instant_bounded(c.taken); }
            let diff: i64 = chosen - c.taken.seconds();
            let ghost before = out@;
            if c.provider != e.provider && (diff >= MIN_SECONDS || diff <= -MIN_SECONDS) {
                out.push((c.provider, diff, i));
                assert(note_view(out@) =~= note_view(before).push((c.provider, diff as int, i as int)));
            }
            j = j + 1;
        }
        assert(notes(es@, i + 1) == notes(es@, i as int) + candidate_notes(es@[i as int], i as int, es@[i as int].candidates@.len() as int));
        i = i + 1;
    }
    out
}

fn notes_for(ns: &Vec<(Provider, i64, usize)>, p: Provider) -> (r: Vec<(i128, u64)>)
    ensures
        pairs_of(r@) == notes_against(note_view(ns@), p, ns@.len() as int),
{
    let mut out: Vec<(i128, u64)> = Vec::new();
    let mut k: usize = 0;
    while k < ns.len()
        invariant
            k <= ns@.len(),
            pairs_of(out@) == notes_against(note_view(ns@), p, k as int),
        decreases ns@.len() - k,
    {
        let ghost before = out@;
        if ns[k].0 == p {
            out.push((ns[k].1 as i128, k as u64));
            assert(pairs_of(out@) =~= pairs_of(before).push((ns@[k as int].1 as int, k as int)));
        }
        k = k + 1;
    }
    out
}

/// `list` with `x` put in its place, if it is not there yet.
pub(crate) fn insert_sorted(list: &mut Vec<Vec<char>>, x: Vec<char>)
    requires
        forall|a: int, b: int| 0 <= a < b < old(list)@.len() ==> text_lt(old(list)@[a]@, old(list)@[b]@),
    ensures
        forall|a: int, b: int| 0 <= a < b < final(list)@.len() ==> text_lt(final(list)@[a]@, final(list)@[b]@),
        forall|y: Seq<char>| #[trigger] views(final(list)@).contains(y) <==> (views(old(list)@).contains(y) || y == x@),
{
    let ghost before = list@;
    let ghost xv = x@;
    let mut i: usize = 0;
    while i < list.len() && text_less(&list[i], &x)
        invariant
            i <= list@.len(),
            list@ == before,
            forall|a: int| 0 <= a < i ==> text_lt(#[trigger] list@[a]@, x@),
        decreases list@.len() - i,
    {
        i = i + 1;
    }
    if i < list.len() && same_chars(&list[i], &x) {
        proof {
            assert(views(list@)[i as int] == x@);
            assert forall|y: Seq<char>| #[trigger] views(list@).contains(y) <==> (views(before).contains(y) || y == xv) by {
                if y == xv {
                    assert(views(list@)[i as int] == y);
                }
            }
        }
        return;
    }
    proof {
        if i < list@.len() {
            lemma_text_lt_total(list@[i as int]@, x@);
        }
    }
    list.insert(i, x);
    proof {
        lemma_inserted(before, i as int, list@, xv);
    }
}

proof fn lemma_inserted(before: Seq<Vec<char>>, i: int, after: Seq<Vec<char>>, xv: Seq<char>)
    requires
        0 <= i <= before.len(),
        after == before.insert(i, after[i]),
        after[i]@ == xv,
        forall|a: int, b: int| 0 <= a < b < before.len() ==> text_lt(before[a]@, before[b]@),
        forall|a: int| 0 <= a < i ==> text_lt(#[trigger] before[a]@, xv),
        i < before.len() ==> text_lt(xv, before[i]@),
    ensures
        forall|a: int, b: int| 0 <= a < b < after.len() ==> text_lt(after[a]@, after[b]@),
        forall|y: Seq<char>| #[trigger] views(after).contains(y) <==> (views(before).contains(y) || y == xv),
{
    assert forall|a: int, b: int| 0 <= a < b < after.len() implies text_lt(after[a]@, after[b]@) by {
        if b < i {
            assert(after[a] == before[a] && after[b] == before[b]);
        } else if b == i {
            assert(after[a] == before[a]);
        } else if a == i {
            assert(after[b] == before[b - 1]);
            if b - 1 > i {
                lemma_text_lt_transitive(xv, before[i]@, before[b - 1]@);
            }
        } else if a < i {
            assert(after[a] == before[a] && after[b] == before[b - 1]);
            lemma_text_lt_transitive(before[a]@, xv, before[i]@);
            if b - 1 > i {
                lemma_text_lt_transitive(before[a]@, before[i]@, before[b - 1]@);
            }
        } else {
            assert(after[a] == before[a - 1] && after[b] == before[b - 1]);
        }
    }
    assert forall|y: Seq<char>| #[trigger] views(after).contains(y) <==> (views(before).contains(y) || y == xv) by {
        if views(after).contains(y) {
            let k = choose|k: int| 0 <= k < views(after).len() && views(after)[k] == y;
            if k < i {
                assert(after[k] == before[k]);
                assert(views(before)[k] == y);
            } else if k > i {
                assert(after[k] == before[k - 1]);
                assert(views(before)[k - 1] == y);
            }
        }
        if views(before).contains(y) {
            let k = choose|k: int| 0 <= k < views(before).len() && views(before)[k] == y;
            if k < i {
                assert(after[k] == before[k]);
                assert(views(after)[k] == y);
            } else {
                assert(after[k + 1] == before[k]);
                assert(views(after)[k + 1] == y);
            }
        }
        if y == xv {
            assert(views(after)[i] == y);
        }
    }
}

/// The offset a run of sorted differences shows.
fn run_offset(
    es: &Vec<PlanEntry>,
    ns: &Vec<(Provider, i64, usize)>,
    p: Provider,
    sorted: &Vec<(i128, u64)>,
    from: usize,
    to: usize,
) -> (o: Offset)
    requires
        from < to <= sorted@.len(),
        forall|k: int| 0 <= k < sorted@.len() ==> (#[trigger] sorted@[k]).1 < ns@.len(),
        forall|k: int| 0 <= k < ns@.len() ==> (#[trigger] ns@[k]).2 < es@.len(),
        i64::MIN < sorted@[from as int].0 <= i64::MAX,
    ensures
        shows(es@, note_view(ns@), p, pairs_of(sorted@), from as int, to as int, o),
{
    let ghost nv = note_view(ns@);
    let ghost sv = pairs_of(sorted@);
    let ghost m = run_files(nv, sv, from as int, to as int);
    let count = to - from;
    let note_count = ns.len();
    let mut members: Vec<usize> = Vec::new();
    let mut k: usize = 0;
    while k < count
        invariant
            k <= count,
            count == to - from,
            note_count == ns@.len(),
            from < to <= sorted@.len(),
            nv == note_view(ns@),
            sv == pairs_of(sorted@),
            m == run_files(nv, sv, from as int, to as int),
            forall|x: int| 0 <= x < sorted@.len() ==> (#[trigger] sorted@[x]).1 < ns@.len(),
            forall|x: int| 0 <= x < ns@.len() ==> (#[trigger] ns@[x]).2 < es@.len(),
            members@.len() == k,
            forall|x: int| 0 <= x < k ==> #[trigger] members@[x] as int == m[x] && members@[x] < es@.len(),
        decreases count - k,
    {
        let at = sorted[from + k].1 as usize;
        assert(at as int == sv[from + k].1);
        members.push(ns[at].2);
        k = k + 1;
    }
    let mut list: Vec<Vec<char>> = Vec::new();
    let mut k: usize = 0;
    while k < count
        invariant
            k <= count,
            count == m.len(),
            members@.len() == count,
            forall|x: int| 0 <= x < count ==> #[trigger] members@[x] as int == m[x] && members@[x] < es@.len(),
            forall|a: int, b: int| 0 <= a < b < list@.len() ==> text_lt(list@[a]@, list@[b]@),
            forall|y: Seq<char>| #[trigger] views(list@).contains(y) <==>
                Seq::new(k as nat, |j: int| es@[m[j]].source@).contains(y),
        decreases count - k,
    {
        let ghost before = Seq::new(k as nat, |j: int| es@[m[j]].source@);
        let ghost after = Seq::new((k + 1) as nat, |j: int| es@[m[j]].source@);
        let text = chars_of(es[members[k]].source.as_str());
        insert_sorted(&mut list, text);
        proof {
            assert forall|y: Seq<char>| #[trigger] after.contains(y) <==> (before.contains(y) || y == es@[m[k as int]].source@) by {
                if after.contains(y) {
                    let j = choose|j: int| 0 <= j < after.len() && after[j] == y;
                    if j < k {
                        assert(before[j] == y);
                    }
                }
                if before.contains(y) {
                    let j = choose|j: int| 0 <= j < before.len() && before[j] == y;
                    assert(after[j] == y);
                }
                if y == es@[m[k as int]].source@ {
                    assert(after[k as int] == y);
                }
            }
        }
        k = k + 1;
    }
    let mut sources: Vec<String> = Vec::new();
    let mut k: usize = 0;
    while k < list.len()
        invariant
            k <= list@.len(),
            sources@.len() == k,
            forall|x: int| 0 <= x < k ==> (#[trigger] sources@[x])@ == list@[x]@,
        decreases list@.len() - k,
    {
        sources.push(string_of(&list[k]));
        k = k + 1;
    }
    assert(texts(sources@) =~= views(list@));
    let mut early: Vec<(i128, u64)> = Vec::new();
    let mut late: Vec<(i128, u64)> = Vec::new();
    let mut k: usize = 0;
    while k < count
        invariant
            k <= count,
            count == m.len(),
            members@.len() == count,
            forall|x: int| 0 <= x < count ==> #[trigger] members@[x] as int == m[x] && members@[x] < es@.len(),
            early@.len() == k,
            late@.len() == k,
            forall|x: int| 0 <= x < k ==> (#[trigger] early@[x]).0 == instant(es@[m[x]].taken) && early@[x].1 == x,
            forall|x: int| 0 <= x < k ==> (#[trigger] late@[x]).0 == -instant(es@[m[x]].taken) && late@[x].1 == count - 1 - x,
        decreases count - k,
    {
        proof { lemma_instant_bounded(es@[m[k as int]].taken); }
        let t = es[members[k]].taken.seconds() as i128;
        early.push((t, k as u64));
        late.push((-t, (count - 1 - k) as u64));
        k = k + 1;
    }
    assert(pairs_of(early@) =~= Seq::new(m.len(), |x: int| (instant(es@[m[x]].taken), x)));
    assert(pairs_of(late@) =~= Seq::new(m.len(), |x: int| (-instant(es@[m[x]].taken), m.len() - 1 - x)));
    let first = least_position(&early);
    let last = least_position(&late);
    let seconds = sorted[from].0 as i64;
    Offset {
        reference: p,
        seconds,
        shape: Shape::of(seconds),
        sources,
        span: Some((es[members[first]].taken, es[members[last]].taken)),
    }
}

/// The differences against the `k`-th source, sorted.
pub open spec fn sorted_notes(es: Seq<PlanEntry>, k: nat) -> Seq<(int, int)> {
    let ns = notes(es, es.len() as int);
    ascending(notes_against(ns, provider_at(k), ns.len() as int))
}

/// The runs of at least the minimum number of files.
pub open spec fn kept_runs(rs: Seq<(int, int)>) -> Seq<(int, int)>
    decreases rs.len(),
{
    if rs.len() == 0 {
        seq![]
    } else {
        (if rs[0].1 - rs[0].0 >= MIN_FILES { seq![rs[0]] } else { seq![] }) + kept_runs(rs.drop_first())
    }
}

/// The runs of the sources from the `k`-th on, each with the number of its source.
pub open spec fn runs_of_sources(es: Seq<PlanEntry>, k: nat) -> Seq<(nat, int, int)>
    decreases 5 - k,
{
    if k >= 5 {
        seq![]
    } else {
        let rs = kept_runs(runs_from(sorted_notes(es, k), 0));
        Seq::new(rs.len(), |j: int| (k, rs[j].0, rs[j].1)) + runs_of_sources(es, k + 1)
    }
}

/// Whether offset `a` is listed before offset `b`: more files, then a larger
/// offset, then a source earlier in the order, then a smaller offset.
pub open spec fn listed_before(a: Offset, b: Offset) -> bool {
    let fa = a.sources@.len();
    let fb = b.sources@.len();
    let sa = a.seconds as int;
    let sb = b.seconds as int;
    let pa = provider_order(a.reference);
    let pb = provider_order(b.reference);
    fa > fb || (fa == fb && (abs(sa) > abs(sb) || (abs(sa) == abs(sb) && (pa < pb || (pa == pb && sa < sb)))))
}

/// Whether offset `o` is the one the run `run` shows.
pub open spec fn shows_run(es: Seq<PlanEntry>, run: (nat, int, int), o: Offset) -> bool {
    shows(es, notes(es, es.len() as int), provider_at(run.0), sorted_notes(es, run.0), run.1, run.2, o)
}

fn order_of(p: Provider) -> (r: u8)
    ensures
        r == provider_order(p),
{
    match p {
        Provider::Filename => 0,
        Provider::Exif => 1,
        Provider::Media => 2,
        Provider::Vision => 3,
        Provider::Filesystem => 4,
    }
}

fn comes_before(a: &Offset, b: &Offset) -> (r: bool)
    ensures
        r == listed_before(*a, *b),
{
    let fa = a.sources.len();
    let fb = b.sources.len();
    if fa != fb {
        return fa > fb;
    }
    let sa: i128 = if a.seconds < 0 { -(a.seconds as i128) } else { a.seconds as i128 };
    let sb: i128 = if b.seconds < 0 { -(b.seconds as i128) } else { b.seconds as i128 };
    if sa != sb {
        return sa > sb;
    }
    let pa = order_of(a.reference);
    let pb = order_of(b.reference);
    if pa != pb {
        return pa < pb;
    }
    a.seconds < b.seconds
}

proof fn lemma_listed_order(a: Offset, b: Offset, c: Offset)
    ensures
        !listed_before(a, a),
        listed_before(a, b) && listed_before(b, c) ==> listed_before(a, c),
        !listed_before(a, b) && !listed_before(b, c) ==> !listed_before(a, c),
{
}

proof fn lemma_notes_against(ns: Seq<(Provider, int, int)>, p: Provider, n: int)
    requires
        0 <= n <= ns.len(),
    ensures
        forall|k: int| 0 <= k < notes_against(ns, p, n).len() ==> {
            let x = #[trigger] notes_against(ns, p, n)[k];
            0 <= x.1 < n && x.0 == ns[x.1].1
        },
    decreases n,
{
    if n > 0 {
        lemma_notes_against(ns, p, n - 1);
        let before = notes_against(ns, p, n - 1);
        assert forall|k: int| 0 <= k < notes_against(ns, p, n).len() implies {
            let x = #[trigger] notes_against(ns, p, n)[k];
            0 <= x.1 < n && x.0 == ns[x.1].1
        } by {
            if k < before.len() {
                assert(notes_against(ns, p, n)[k] == before[k]);
            }
        }
    }
}

proof fn lemma_kept_runs_cons(x: (int, int), rest: Seq<(int, int)>)
    ensures
        kept_runs(seq![x] + rest) == (if x.1 - x.0 >= MIN_FILES { seq![x] } else { seq![] }) + kept_runs(rest),
{
    assert((seq![x] + rest).drop_first() =~= rest);
}

proof fn lemma_runs_bounded(s: Seq<(int, int)>, start: int)
    requires
        0 <= start,
    ensures
        forall|j: int| 0 <= j < runs_from(s, start).len() ==> {
            let r = #[trigger] runs_from(s, start)[j];
            start <= r.0 < r.1 <= s.len()
        },
    decreases s.len() - start,
{
    if start < s.len() {
        let stop = run_stop(s, start, start + 1);
        lemma_run_stop(s, start, start + 1);
        lemma_runs_bounded(s, stop);
        assert forall|j: int| 0 <= j < runs_from(s, start).len() implies {
            let r = #[trigger] runs_from(s, start)[j];
            start <= r.0 < r.1 <= s.len()
        } by {
            if j > 0 {
                assert(runs_from(s, start)[j] == runs_from(s, stop)[j - 1]);
            }
        }
    }
}

proof fn lemma_kept_bounded(rs: Seq<(int, int)>, len: int)
    requires
        forall|j: int| 0 <= j < rs.len() ==> 0 <= (#[trigger] rs[j]).0 < rs[j].1 <= len,
    ensures
        forall|j: int| 0 <= j < kept_runs(rs).len() ==> 0 <= (#[trigger] kept_runs(rs)[j]).0 < kept_runs(rs)[j].1 <= len,
    decreases rs.len(),
{
    if rs.len() > 0 {
        assert forall|j: int| 0 <= j < rs.drop_first().len() implies 0 <= (#[trigger] rs.drop_first()[j]).0 < rs.drop_first()[j].1 <= len by {
            assert(rs.drop_first()[j] == rs[j + 1]);
        }
        lemma_kept_bounded(rs.drop_first(), len);
        let head: Seq<(int, int)> = if rs[0].1 - rs[0].0 >= MIN_FILES { seq![rs[0]] } else { seq![] };
        assert forall|j: int| 0 <= j < kept_runs(rs).len() implies 0 <= (#[trigger] kept_runs(rs)[j]).0 < kept_runs(rs)[j].1 <= len by {
            if j >= head.len() {
                assert(kept_runs(rs)[j] == kept_runs(rs.drop_first())[j - head.len()]);
            }
        }
    }
}

/// The offsets of one source: one for each run of at least the minimum number of
/// files among its sorted differences.
fn source_offsets(es: &Vec<PlanEntry>, ns: &Vec<(Provider, i64, usize)>, k: usize, out: &mut Vec<Offset>)
    requires
        k < 5,
        note_view(ns@) == notes(es@, es@.len() as int),
        forall|x: int| 0 <= x < ns@.len() ==> (#[trigger] ns@[x]).2 < es@.len()
            && -0x4000_0000_0000_0000 < ns@[x].1 < 0x4000_0000_0000_0000,
    ensures
        final(out)@.len() == old(out)@.len() + kept_runs(runs_from(sorted_notes(es@, k as nat), 0)).len(),
        forall|j: int| 0 <= j < old(out)@.len() ==> #[trigger] final(out)@[j] == old(out)@[j],
        forall|j: int| 0 <= j < kept_runs(runs_from(sorted_notes(es@, k as nat), 0)).len() ==> {
            let r = kept_runs(runs_from(sorted_notes(es@, k as nat), 0))[j];
            shows_run(es@, (k as nat, r.0, r.1), #[trigger] final(out)@[old(out)@.len() + j])
        },
{
    let all = Provider::all();
    let p = all[k];
    assert(p == provider_at(k as nat));
    let pairs = notes_for(ns, p);
    let ghost nv = note_view(ns@);
    proof {
        lemma_notes_against(nv, p, nv.len() as int);
        lemma_ascending_members(pairs_of(pairs@));
    }
    let ghost raw = pairs_of(pairs@);
    let sorted = sort_ascending(pairs);
    let ghost s = pairs_of(sorted@);
    assert(s == sorted_notes(es@, k as nat));
    let note_count = ns.len();
    proof {
        assert forall|x: int| 0 <= x < sorted@.len() implies (#[trigger] sorted@[x]).1 < ns@.len()
            && -0x4000_0000_0000_0000 < sorted@[x].0 < 0x4000_0000_0000_0000 by {
            assert(s[x] == ascending(raw)[x]);
            let y = choose|y: int| 0 <= y < raw.len() && #[trigger] ascending(raw)[x] == raw[y];
            assert(raw[y] == notes_against(nv, p, nv.len() as int)[y]);
        }
        lemma_runs_bounded(s, 0);
    }
    let ghost start_len = out@.len();
    let ghost all_kept = kept_runs(runs_from(s, 0));
    let ghost mut done: Seq<(int, int)> = seq![];
    let n = sorted.len();
    let mut start: usize = 0;
    while start < n
        invariant
            start <= n,
            n == sorted@.len(),
            s == pairs_of(sorted@),
            s == sorted_notes(es@, k as nat),
            nv == note_view(ns@),
            note_view(ns@) == notes(es@, es@.len() as int),
            note_count == ns@.len(),
            p == provider_at(k as nat),
            forall|x: int| 0 <= x < sorted@.len() ==> (#[trigger] sorted@[x]).1 < ns@.len()
                && -0x4000_0000_0000_0000 < sorted@[x].0 < 0x4000_0000_0000_0000,
            forall|x: int| 0 <= x < ns@.len() ==> (#[trigger] ns@[x]).2 < es@.len(),
            all_kept == kept_runs(runs_from(s, 0)),
            all_kept == done + kept_runs(runs_from(s, start as int)),
            out@.len() == start_len + done.len(),
            forall|j: int| 0 <= j < start_len ==> #[trigger] out@[j] == old(out)@[j],
            start_len == old(out)@.len(),
            forall|j: int| 0 <= j < done.len() ==>
                shows_run(es@, (k as nat, done[j].0, done[j].1), #[trigger] out@[start_len + j]),
        decreases n - start,
    {
        let mut stop: usize = start + 1;
        proof { lemma_run_stop(s, start as int, start + 1); }
        while stop < n && sorted[stop].0 - sorted[start].0 <= MERGE_TOLERANCE_SECONDS as i128
            invariant
                start < stop <= n,
                n == sorted@.len(),
                s == pairs_of(sorted@),
                forall|x: int| 0 <= x < sorted@.len() ==> (#[trigger] sorted@[x]).1 < note_count
                    && -0x4000_0000_0000_0000 < sorted@[x].0 < 0x4000_0000_0000_0000,
                run_stop(s, start as int, start + 1) == run_stop(s, start as int, stop as int),
            decreases n - stop,
        {
            stop = stop + 1;
        }
        assert(run_stop(s, start as int, stop as int) == stop);
        assert(runs_from(s, start as int) == seq![(start as int, stop as int)] + runs_from(s, stop as int));
        proof { lemma_kept_runs_cons((start as int, stop as int), runs_from(s, stop as int)); }
        if stop - start >= MIN_FILES {
            let o = run_offset(es, ns, p, &sorted, start, stop);
            let ghost before = out@;
            out.push(o);
            proof {
                let old_done = done;
                done = done.push((start as int, stop as int));
                assert(all_kept =~= done + kept_runs(runs_from(s, stop as int)));
                assert forall|j: int| 0 <= j < done.len() implies
                    shows_run(es@, (k as nat, done[j].0, done[j].1), #[trigger] out@[start_len + j]) by {
                    if j < old_done.len() {
                        assert(out@[start_len + j] == before[start_len + j]);
                    }
                }
            }
        } else {
            proof {
                assert(all_kept =~= done + kept_runs(runs_from(s, stop as int)));
            }
        }
        start = stop;
    }
    assert(runs_from(s, n as int) =~= Seq::<(int, int)>::empty());
    assert(kept_runs(Seq::<(int, int)>::empty()) =~= Seq::<(int, int)>::empty());
    assert(all_kept =~= done);
}

/// Whether each offset is the one some run shows.
pub open spec fn every_offset_shown(es: Seq<PlanEntry>, r: Seq<Offset>) -> bool {
    forall|i: int| #![trigger r[i]] 0 <= i < r.len() ==> shown_by_some_run(es, r[i])
}

/// Whether an offset is the one some run shows.
pub open spec fn shown_by_some_run(es: Seq<PlanEntry>, o: Offset) -> bool {
    exists|t: int| #![trigger runs_of_sources(es, 0)[t]] 0 <= t < runs_of_sources(es, 0).len()
        && shows_run(es, runs_of_sources(es, 0)[t], o)
}

/// Whether a run is shown by some offset.
pub open spec fn shows_some_offset(es: Seq<PlanEntry>, run: (nat, int, int), r: Seq<Offset>) -> bool {
    exists|i: int| #![trigger r[i]] 0 <= i < r.len() && shows_run(es, run, r[i])
}

/// Whether each run is shown by some offset.
pub open spec fn every_run_shown(es: Seq<PlanEntry>, r: Seq<Offset>) -> bool {
    forall|t: int| #![trigger runs_of_sources(es, 0)[t]] 0 <= t < runs_of_sources(es, 0).len()
        ==> shows_some_offset(es, runs_of_sources(es, 0)[t], r)
}

/// The clock offsets a plan shows: for each source other than the one a file's
/// date was chosen from, the differences of at least a minute between the two
/// dates, sorted, grouped in runs that stay within two seconds of their first; each
/// run of at least five differences is an offset of its first difference. Listed
/// by the most files first, then the largest offset, then the source, then the
/// smaller offset.
pub fn propose(entries: &Vec<PlanEntry>) -> (r: Vec<Offset>)
    ensures
        r@.len() == runs_of_sources(entries@, 0).len(),
        forall|i: int, j: int| 0 <= i < j < r@.len() ==> !listed_before(r@[j], r@[i]),
        every_offset_shown(entries@, r@),
        every_run_shown(entries@, r@),
{
    let ghost es = entries@;
    let ghost all_runs = runs_of_sources(es, 0);
    let ns = note_list(entries);
    let mut built: Vec<Offset> = Vec::new();
    let ghost mut done: Seq<(nat, int, int)> = seq![];
    let mut k: usize = 0;
    assert(all_runs =~= done + runs_of_sources(es, 0));
    while k < 5
        invariant
            k <= 5,
            es == entries@,
            all_runs == runs_of_sources(es, 0),
            note_view(ns@) == notes(es, es.len() as int),
            forall|x: int| 0 <= x < ns@.len() ==> (#[trigger] ns@[x]).2 < es.len()
                && -0x4000_0000_0000_0000 < ns@[x].1 < 0x4000_0000_0000_0000,
            all_runs == done + runs_of_sources(es, k as nat),
            built@.len() == done.len(),
            forall|j: int| 0 <= j < done.len() ==> shows_run(es, done[j], #[trigger] built@[j]),
        decreases 5 - k,
    {
        let ghost before = built@;
        let ghost rs = kept_runs(runs_from(sorted_notes(es, k as nat), 0));
        source_offsets(entries, &ns, k, &mut built);
        proof {
            let added = Seq::new(rs.len(), |j: int| (k as nat, rs[j].0, rs[j].1));
            assert(runs_of_sources(es, k as nat) == added + runs_of_sources(es, (k + 1) as nat));
            let old_done = done;
            done = done + added;
            assert(all_runs =~= done + runs_of_sources(es, (k + 1) as nat));
            assert forall|j: int| 0 <= j < done.len() implies shows_run(es, done[j], #[trigger] built@[j]) by {
                if j < old_done.len() {
                    assert(built@[j] == before[j]);
                } else {
                    let x = j - old_done.len();
                    assert(done[j] == added[x]);
                    assert(built@[before.len() + x] == built@[j]);
                }
            }
        }
        k = k + 1;
    }
    assert(runs_of_sources(es, 5) =~= Seq::<(nat, int, int)>::empty());
    assert(all_runs =~= done);
    let total = built.len();
    let mut rest = built;
    let ghost mut tags: Seq<int> = Seq::new(total as nat, |j: int| j);
    let ghost mut out_tags: Seq<int> = seq![];
    let mut out: Vec<Offset> = Vec::new();
    proof {
        assert forall|t: int| 0 <= t < total implies tags.contains(t) || out_tags.contains(t) by {
            assert(tags[t] == t);
        }
    }
    while rest.len() > 0
        invariant
            total == all_runs.len(),
            all_runs == runs_of_sources(entries@, 0),
            es == entries@,
            tags.len() == rest@.len(),
            out_tags.len() == out@.len(),
            rest@.len() + out@.len() == total,
            forall|j: int| 0 <= j < rest@.len() ==> 0 <= #[trigger] tags[j] < total
                && shows_run(es, all_runs[tags[j]], rest@[j]),
            forall|j: int| 0 <= j < out@.len() ==> 0 <= #[trigger] out_tags[j] < total
                && shows_run(es, all_runs[out_tags[j]], out@[j]),
            forall|t: int| 0 <= t < total ==> tags.contains(t) || out_tags.contains(t),
            forall|a: int, b: int| 0 <= a < b < out@.len() ==> !listed_before(out@[b], out@[a]),
            forall|a: int, b: int| 0 <= a < out@.len() && 0 <= b < rest@.len() ==> !listed_before(rest@[b], out@[a]),
        decreases rest@.len(),
    {
        let mut best: usize = 0;
        let mut i: usize = 1;
        proof { lemma_listed_order(rest@[0], rest@[0], rest@[0]); }
        while i < rest.len()
            invariant
                1 <= i <= rest@.len(),
                best < i,
                forall|x: int| 0 <= x < i ==> !listed_before(#[trigger] rest@[x], rest@[best as int]),
            decreases rest@.len() - i,
        {
            if comes_before(&rest[i], &rest[best]) {
                proof {
                    assert forall|x: int| 0 <= x <= i implies !listed_before(#[trigger] rest@[x], rest@[i as int]) by {
                        lemma_listed_order(rest@[x], rest@[best as int], rest@[i as int]);
                        lemma_listed_order(rest@[x], rest@[i as int], rest@[best as int]);
                        lemma_listed_order(rest@[i as int], rest@[i as int], rest@[i as int]);
                    }
                }
                best = i;
            }
            i = i + 1;
        }
        let ghost before_rest = rest@;
        let ghost before_out = out@;
        let ghost t = tags[best as int];
        let o = rest.remove(best);
        out.push(o);
        proof {
            let old_tags = tags;
            let old_out = out_tags;
            tags = tags.remove(best as int);
            out_tags = out_tags.push(t);
            assert forall|j: int| 0 <= j < rest@.len() implies 0 <= #[trigger] tags[j] < total
                && shows_run(es, all_runs[tags[j]], rest@[j]) by {
                if j < best {
                    assert(rest@[j] == before_rest[j] && tags[j] == old_tags[j]);
                } else {
                    assert(rest@[j] == before_rest[j + 1] && tags[j] == old_tags[j + 1]);
                }
            }
            assert forall|j: int| 0 <= j < out@.len() implies 0 <= #[trigger] out_tags[j] < total
                && shows_run(es, all_runs[out_tags[j]], out@[j]) by {
                if j < before_out.len() {
                    assert(out@[j] == before_out[j]);
                }
            }
            assert forall|x: int| 0 <= x < total implies tags.contains(x) || out_tags.contains(x) by {
                if old_tags.contains(x) {
                    let y = choose|y: int| 0 <= y < old_tags.len() && old_tags[y] == x;
                    if y < best {
                        assert(tags[y] == x);
                    } else if y > best {
                        assert(tags[y - 1] == x);
                    } else {
                        assert(out_tags[out_tags.len() - 1] == x);
                    }
                } else {
                    let y = choose|y: int| 0 <= y < old_out.len() && old_out[y] == x;
                    assert(out_tags[y] == x);
                }
            }
            assert forall|a: int, b: int| 0 <= a < b < out@.len() implies !listed_before(out@[b], out@[a]) by {
                if b < before_out.len() {
                    assert(out@[a] == before_out[a] && out@[b] == before_out[b]);
                } else {
                    assert(out@[a] == before_out[a]);
                    assert(out@[b] == before_rest[best as int]);
                }
            }
            assert forall|a: int, b: int| 0 <= a < out@.len() && 0 <= b < rest@.len() implies !listed_before(rest@[b], out@[a]) by {
                let rb = if b < best { b } else { b + 1 };
                assert(rest@[b] == before_rest[rb]);
                if a < before_out.len() {
                    assert(out@[a] == before_out[a]);
                } else {
                    assert(out@[a] == before_rest[best as int]);
                }
            }
        }
    }
    proof {
        lemma_shown(entries@, out@, tags, out_tags, all_runs);
    }
    out
}

proof fn lemma_shown(es: Seq<PlanEntry>, out: Seq<Offset>, tags: Seq<int>, out_tags: Seq<int>, all_runs: Seq<(nat, int, int)>)
    requires
        all_runs == runs_of_sources(es, 0),
        tags.len() == 0,
        out_tags.len() == out.len(),
        forall|j: int| 0 <= j < out.len() ==> 0 <= #[trigger] out_tags[j] < all_runs.len()
            && shows_run(es, all_runs[out_tags[j]], out[j]),
        forall|t: int| 0 <= t < all_runs.len() ==> tags.contains(t) || out_tags.contains(t),
    ensures
        every_offset_shown(es, out),
        every_run_shown(es, out),
{
    assert forall|x: int| 0 <= x < all_runs.len() implies #[trigger] shows_some_offset(es, all_runs[x], out) by {
        assert(!tags.contains(x));
        assert(out_tags.contains(x));
        let y = choose|y: int| 0 <= y < out_tags.len() && out_tags[y] == x;
        assert(shows_run(es, all_runs[out_tags[y]], out[y]));
        assert(out[y] == out[y]);
    }
    assert forall|i: int| 0 <= i < out.len() implies #[trigger] shown_by_some_run(es, out[i]) by {
        let t = out_tags[i];
        assert(shows_run(es, all_runs[t], out[i]));
        assert(all_runs[t] == runs_of_sources(es, 0)[t]);
    }
}

// ---------------------------------------------------------------------------
// Reading offsets
// ---------------------------------------------------------------------------
/// The position of the first offset that covers the file at `source`.
pub open spec fn first_covering(offsets: Seq<Offset>, source: Seq<char>, n: int) -> Option<int>
    decreases n,
{
    if n <= 0 {
        None
    } else {
        match first_covering(offsets, source, n - 1) {
            Some(i) => Some(i),
            None => if texts(offsets[n - 1].sources@).contains(source) { Some(n - 1) } else { None },
        }
    }
}

/// The first offset that covers the file at `source`, if any.
pub fn covering<'a>(offsets: &'a Vec<Offset>, source: &str) -> (r: Option<&'a Offset>)
    ensures
        match first_covering(offsets@, source@, offsets@.len() as int) {
            Some(i) => r matches Some(o) && *o == offsets@[i],
            None => r is None,
        },
{
    let want = chars_of(source);
    let count = offsets.len();
    let mut i: usize = 0;
    while i < count
        invariant
            i <= count,
            count == offsets@.len(),
            want@ == source@,
            first_covering(offsets@, source@, i as int) is None,
        decreases count - i,
    {
        let o = &offsets[i];
        let mut j: usize = 0;
        let mut found = false;
        while j < o.sources.len() && !found
            invariant
                j <= o.sources@.len(),
                want@ == source@,
                found ==> j < o.sources@.len() && o.sources@[j as int]@ == source@,
                !found ==> forall|x: int| 0 <= x < j ==> (#[trigger] o.sources@[x])@ != source@,
            decreases (o.sources@.len() - j) * 2 + if found { 0int } else { 1int },
        {
            let other = chars_of(o.sources[j].as_str());
            if same_chars(&other, &want) {
                found = true;
            } else {
                j = j + 1;
            }
        }
        proof {
            if found {
                assert(texts(o.sources@)[j as int] == source@);
            } else if texts(o.sources@).contains(source@) {
                let x = choose|x: int| 0 <= x < texts(o.sources@).len() && texts(o.sources@)[x] == source@;
                assert(o.sources@[x]@ == source@);
            }
        }
        if found {
            proof { lemma_first_covering_stays(offsets@, source@, i + 1, count as int); }
            return Some(o);
        }
        i = i + 1;
    }
    None
}

proof fn lemma_first_covering_stays(offsets: Seq<Offset>, source: Seq<char>, n: int, m: int)
    requires
        n <= m,
        first_covering(offsets, source, n) is Some,
    ensures
        first_covering(offsets, source, m) == first_covering(offsets, source, n),
    decreases m - n,
{
    if n < m {
        lemma_first_covering_stays(offsets, source, n, m - 1);
    }
}

/// How a whole number of hours between two clocks is put: the number, `hour` or
/// `hours`, and `behind` or `ahead of`.
pub open spec fn hours_words(h: int) -> Seq<char> {
    decimal(abs(h) as nat) + (if abs(h) == 1 { " hour "@ } else { " hours "@ })
        + (if h < 0 { "behind"@ } else { "ahead of"@ })
}

/// What a report says of an offset.
pub open spec fn offset_words(o: Offset) -> Seq<char> {
    let files = o.sources@.len();
    let plural = if files == 1 { "file"@ } else { "files"@ };
    let correction = spec_humanise(-(o.seconds as int));
    match o.shape {
        Shape::Timezone { hours } => decimal(files) + " "@ + plural + " read exactly "@ + hours_words(hours as int)
            + " from "@ + label_of(o.reference) + ", which is the shape of a time zone; correcting them means "@
            + correction,
        Shape::Drift => decimal(files) + " "@ + plural + " run "@ + spec_humanise(o.seconds as int) + " ahead of "@
            + label_of(o.reference) + "; correcting them means "@ + correction,
    }
}

impl Offset {
    /// What a report says of the offset: how many files, how far they are off and
    /// from which source, and the shift that corrects them.
    pub fn describe(&self) -> (r: String)
        requires
            self.seconds > i64::MIN,
        ensures
            r@ == offset_words(*self),
    {
        let files = self.sources.len();
        let mut out: Vec<char> = decimal_of(files as u64);
        extend_str(&mut out, " ");
        if files == 1 {
            extend_str(&mut out, "file");
        } else {
            extend_str(&mut out, "files");
        }
        match self.shape {
            Shape::Timezone { hours } => {
                extend_str(&mut out, " read exactly ");
                let size = magnitude(hours);
                let digits = decimal_of(size);
                crate::text::extend(&mut out, &digits);
                if size == 1 {
                    extend_str(&mut out, " hour ");
                } else {
                    extend_str(&mut out, " hours ");
                }
                if hours < 0 {
                    extend_str(&mut out, "behind");
                } else {
                    extend_str(&mut out, "ahead of");
                }
                extend_str(&mut out, " from ");
                extend_str(&mut out, self.reference.label());
                extend_str(&mut out, ", which is the shape of a time zone; correcting them means ");
            },
            Shape::Drift => {
                extend_str(&mut out, " run ");
                let shift = humanise(self.seconds);
                extend_str(&mut out, shift.as_str());
                extend_str(&mut out, " ahead of ");
                extend_str(&mut out, self.reference.label());
                extend_str(&mut out, "; correcting them means ");
            },
        }
        let ghost head = out@;
        let correction = humanise(-self.seconds);
        assert(correction@ == spec_humanise(-(self.seconds as int)));
        extend_str(&mut out, correction.as_str());
        proof {
            let files = self.sources@.len();
            let plural = if files == 1 { "file"@ } else { "files"@ };
            match self.shape {
                Shape::Timezone { hours } => {
                    assert(head =~= decimal(files) + " "@ + plural + " read exactly "@ + hours_words(hours as int)
                        + " from "@ + label_of(self.reference) + ", which is the shape of a time zone; correcting them means "@);
                },
                Shape::Drift => {
                    assert(head =~= decimal(files) + " "@ + plural + " run "@ + spec_humanise(self.seconds as int) + " ahead of "@
                        + label_of(self.reference) + "; correcting them means "@);
                },
            }
        }
        assert(out@ =~= offset_words(*self));
        string_of(&out)
    }
}

} // verus!
