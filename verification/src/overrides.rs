//! Corrections a person makes to a plan, kept in files beside it: where those files
//! sit, and how a correction describes where it came from.
use vstd::prelude::*;
use vstd::hash_map::StringHashMap;
use crate::error::Error;
use crate::model::{destination_spec, entry_facts, facts_alike, lemma_destination_alike, PlanEntry, PlanHeader};
use crate::moment::Moment;
use crate::naming::Facts;
use crate::offset::abs;
use crate::paths::{with_extension, with_extension_of};
use crate::plan::Plan;
use crate::providers::Provider;
use crate::rotate::Transform;
use crate::text::{decimal, decimal_of, extend, extend_str, magnitude, string_of};

verus! {

/// Where a corrected date came from.
#[derive(Debug, Clone, PartialEq, Eq, Structural)]
pub enum OverrideOrigin {
    /// One of the dates a source offered, chosen over the one picked.
    Candidate { provider: Provider },
    /// Typed in by hand.
    Manual,
    /// The picked date moved by a number of seconds.
    Shift { seconds: i64 },
}

/// A shift of `s` seconds as whole days, hours and minutes with its sign, such as
/// `+1d 1h 0m`; leftover seconds are not shown.
pub open spec fn spec_humanise_shift(s: int) -> Seq<char> {
    let total = abs(s) as nat;
    seq![if s < 0 { '-' } else { '+' }] + decimal(total / 86_400) + "d "@ + decimal(
        (total % 86_400) / 3_600,
    ) + "h "@ + decimal((total % 3_600) / 60) + "m"@
}

/// A shift of `seconds` in days, hours and minutes.
pub fn humanise_shift(seconds: i64) -> (r: Vec<char>)
    ensures
        r@ == spec_humanise_shift(seconds as int),
{
    let total: u64 = magnitude(seconds);
    let mut r: Vec<char> = Vec::new();
    r.push(if seconds < 0 { '-' } else { '+' });
    extend(&mut r, &decimal_of(total / 86_400));
    extend_str(&mut r, "d ");
    extend(&mut r, &decimal_of((total % 86_400) / 3_600));
    extend_str(&mut r, "h ");
    extend(&mut r, &decimal_of((total % 3_600) / 60));
    extend_str(&mut r, "m");
    r
}

/// What a correction says of its origin.
pub open spec fn spec_describe(origin: OverrideOrigin) -> Seq<char> {
    match origin {
        OverrideOrigin::Candidate { provider } => "taken from "@ + crate::providers::label_of(provider),
        OverrideOrigin::Manual => "set by hand"@,
        OverrideOrigin::Shift { seconds } => "shifted by "@ + spec_humanise_shift(seconds as int),
    }
}

impl OverrideOrigin {
    /// Where the corrected date came from, for a person.
    pub fn describe(&self) -> (r: String)
        ensures
            r@ == spec_describe(*self),
    {
        match self {
            OverrideOrigin::Candidate { provider } => {
                let mut v = crate::text::chars_of("taken from ");
                extend_str(&mut v, provider.label());
                string_of(&v)
            },
            OverrideOrigin::Manual => crate::text::owned("set by hand"),
            OverrideOrigin::Shift { seconds } => {
                let mut v = crate::text::chars_of("shifted by ");
                extend(&mut v, &humanise_shift(*seconds));
                string_of(&v)
            },
        }
    }
}

/// The file that keeps the corrected dates of the plan at `plan_path`: the plan's
/// path with the extension `overrides.json`.
pub fn overrides_path(plan_path: &str) -> (r: String)
    ensures
        r@ == with_extension_of(plan_path@, "overrides.json"@),
{
    proof {
        reveal_strlit("overrides.json");
    }
    with_extension(plan_path, "overrides.json")
}

/// The file that keeps the corrected turns of the plan at `plan_path`.
pub fn rotations_path(plan_path: &str) -> (r: String)
    ensures
        r@ == with_extension_of(plan_path@, "rotations.json"@),
{
    proof {
        reveal_strlit("rotations.json");
    }
    with_extension(plan_path, "rotations.json")
}

/// The file that keeps the files left out of the plan at `plan_path`.
pub fn excluded_path(plan_path: &str) -> (r: String)
    ensures
        r@ == with_extension_of(plan_path@, "excluded.json"@),
{
    proof {
        reveal_strlit("excluded.json");
    }
    with_extension(plan_path, "excluded.json")
}

// ---------------------------------------------------------------------------
// Corrections by path
// ---------------------------------------------------------------------------
/// A date a person put in place of the one the plan picked.
#[derive(Debug, Clone, PartialEq, Eq)]
pub struct DateOverride {
    pub taken: Moment,
    pub origin: OverrideOrigin,
    pub at: Moment,
}

/// A turn a person asked for, and whether the file may be re-encoded for it.
#[derive(Debug, Clone, Copy, PartialEq, Eq)]
pub struct RotationOverride {
    pub transform: Transform,
    pub reencode: bool,
    pub at: Moment,
}

/// Corrections kept by the path of the file they correct, in a hash map from path to
/// correction.
#[verifier::reject_recursive_types(V)]
pub struct SourceMap<V> {
    map: StringHashMap<V>,
}

/// The corrected dates of a plan, by path.
pub type Overrides = SourceMap<DateOverride>;

/// The corrected turns of a plan, by path.
pub type Rotations = SourceMap<RotationOverride>;

impl<V> SourceMap<V> {
    /// The corrections, by path.
    pub closed spec fn view(&self) -> Map<Seq<char>, V> {
        self.map@
    }

    /// Whether the corrections are finitely many, so that they can be counted.
    pub closed spec fn wf(&self) -> bool {
        self.map@.dom().finite()
    }

    /// No corrections.
    pub fn new() -> (r: Self)
        ensures
            r.wf(),
            r@ == Map::<Seq<char>, V>::empty(),
    {
        SourceMap { map: StringHashMap::new() }
    }

    /// The correction for `source`, if there is one.
    pub fn get(&self, source: &str) -> (r: Option<&V>)
        requires
            self.wf(),
        ensures
            match r {
                Some(v) => self@.contains_key(source@) && *v == self@[source@],
                None => !self@.contains_key(source@),
            },
    {
        self.map.get(source)
    }

    /// Puts `value` in place for `source`, over any correction it had.
    pub fn set(&mut self, source: String, value: V)
        requires
            old(self).wf(),
        ensures
            final(self).wf(),
            final(self)@ == old(self)@.insert(source@, value),
    {
        self.map.insert(source, value);
    }

    /// Takes away the correction for `source`; says whether there was one.
    pub fn clear(&mut self, source: &str) -> (r: bool)
        requires
            old(self).wf(),
        ensures
            final(self).wf(),
            r == old(self)@.contains_key(source@),
            final(self)@ == old(self)@.remove(source@),
    {
        let had = self.map.contains_key(source);
        self.map.remove(source);
        had
    }

    /// How many paths have a correction.
    pub fn len(&self) -> (r: usize)
        requires
            self.wf(),
        ensures
            r == self@.dom().len(),
    {
        self.map.len()
    }

    /// Whether no path has a correction.
    pub fn is_empty(&self) -> (r: bool)
        requires
            self.wf(),
        ensures
            r == (self@.dom().len() == 0),
    {
        self.map.len() == 0
    }
}

impl<V> Default for SourceMap<V> {
    fn default() -> (r: Self)
        ensures
            r.wf(),
            r@ == Map::<Seq<char>, V>::empty(),
    {
        SourceMap::new()
    }
}

// ---------------------------------------------------------------------------
// Corrections applied to a plan
// ---------------------------------------------------------------------------
/// The folder a plan copies into.
pub open spec fn root_of(h: PlanHeader) -> Seq<char> {
    match h.destination {
        Some(d) => d@,
        None => ""@,
    }
}

/// Where entry `e` lands under the plan's root and patterns if it was taken at
/// `taken`.
pub open spec fn lands(h: PlanHeader, e: PlanEntry, taken: Moment) -> Option<Seq<char>> {
    let f = choose|f: Facts| entry_facts(f, e);
    destination_spec(taken, f, root_of(h), h.folder_pattern@, h.name_pattern@)
}

/// Whether `a` and `b` agree on all but the date, the destination, the turn and
/// whether to re-encode.
pub open spec fn same_but_correctable(a: PlanEntry, b: PlanEntry) -> bool {
    &&& a.source == b.source
    &&& a.provider == b.provider
    &&& a.provider_info == b.provider_info
    &&& a.size == b.size
    &&& a.candidates == b.candidates
    &&& a.flags == b.flags
    &&& a.subject == b.subject
    &&& a.place == b.place
    &&& a.tags == b.tags
    &&& a.caption == b.caption
    &&& a.orientation == b.orientation
    &&& a.rotate_reason == b.rotate_reason
}

/// Whether `now` is `was` with its corrected date, if it has one, and the
/// destination that date gives it.
pub open spec fn redated(h: PlanHeader, ovs: Map<Seq<char>, DateOverride>, was: PlanEntry, now: PlanEntry) -> bool {
    if ovs.contains_key(was.source@) {
        &&& same_but_correctable(now, was)
        &&& now.rotate == was.rotate && now.reencode == was.reencode
        &&& now.taken == ovs[was.source@].taken
        &&& lands(h, was, now.taken) == Some(now.destination@)
    } else {
        now == was
    }
}

/// Whether `now` is `was` with its corrected turn, if it has one.
pub open spec fn turned(rots: Map<Seq<char>, RotationOverride>, was: PlanEntry, now: PlanEntry) -> bool {
    if rots.contains_key(was.source@) {
        &&& same_but_correctable(now, was)
        &&& now.taken == was.taken && now.destination == was.destination
        &&& now.rotate == rots[was.source@].transform
        &&& now.reencode == rots[was.source@].reencode
    } else {
        now == was
    }
}

/// Puts the corrected dates in place: every entry with a correction takes its date
/// and the destination that date gives it. Fails, with the pattern's error, when a
/// destination cannot be made; entries may then have changed already.
pub fn apply(plan: &mut Plan, overrides: &Overrides) -> (r: Result<(), Error>)
    requires
        overrides.wf(),
    ensures
        final(plan).header == old(plan).header,
        final(plan).skipped == old(plan).skipped,
        final(plan).entries@.len() == old(plan).entries@.len(),
        r is Ok <==> forall|i: int| 0 <= i < old(plan).entries@.len()
            && overrides@.contains_key(#[trigger] old(plan).entries@[i].source@)
            ==> lands(old(plan).header, old(plan).entries@[i], overrides@[old(plan).entries@[i].source@].taken) is Some,
        r is Ok ==> forall|i: int| 0 <= i < old(plan).entries@.len()
            ==> redated(old(plan).header, overrides@, old(plan).entries@[i], #[trigger] final(plan).entries@[i]),
        r matches Err(e) ==> e matches Error::InvalidFolderPattern(_),
{
    let ghost start = plan.entries@;
    let ghost h = plan.header;
    let ghost ovs = overrides@;
    let n = plan.entries.len();
    let mut i: usize = 0;
    while i < n
        invariant
            i <= n,
            n == start.len(),
            start == old(plan).entries@,
            h == old(plan).header,
            ovs == overrides@,
            overrides.wf(),
            plan.header == h,
            plan.skipped == old(plan).skipped,
            plan.entries@.len() == n,
            forall|x: int| i <= x < n ==> #[trigger] plan.entries@[x] == start[x],
            forall|x: int| 0 <= x < i ==> redated(h, ovs, start[x], #[trigger] plan.entries@[x]),
            forall|x: int| 0 <= x < i && ovs.contains_key(#[trigger] start[x].source@)
                ==> lands(h, start[x], ovs[start[x].source@].taken) is Some,
        decreases n - i,
    {
        let ghost before = plan.entries@;
        assert(plan.entries@[i as int] == start[i as int]);
        match overrides.get(plan.entries[i].source.as_str()) {
            None => {},
            Some(applied) => {
                let taken = applied.taken;
                let witness = plan.entries[i].facts();
                let dest = plan.header.destination_of(&plan.entries[i], &taken);
                match dest {
                    Ok(d) => {
                        proof {
                            assert(entry_facts(witness, start[i as int]));
                            assert(lands(h, start[i as int], taken) == Some(d@));
                        }
                        let mut entry = plan.entries.remove(i);
                        entry.taken = taken;
                        entry.destination = d;
                        plan.entries.insert(i, entry);
                        assert forall|x: int| 0 <= x < n && x != i implies #[trigger] plan.entries@[x] == before[x] by {}
                    },
                    Err(e) => {
                        proof {
                            assert(entry_facts(witness, start[i as int]));
                            assert(lands(h, start[i as int], taken) is None);
                        }
                        let mut entry = plan.entries.remove(i);
                        entry.taken = taken;
                        plan.entries.insert(i, entry);
                        return Err(e);
                    },
                }
            },
        }
        i = i + 1;
    }
    Ok(())
}

/// Puts the corrected turns in place: every entry with one takes its turn and
/// whether it may be re-encoded; its date and destination stay.
pub fn apply_rotations(plan: &mut Plan, rotations: &Rotations)
    requires
        rotations.wf(),
    ensures
        final(plan).header == old(plan).header,
        final(plan).skipped == old(plan).skipped,
        final(plan).entries@.len() == old(plan).entries@.len(),
        forall|i: int| 0 <= i < old(plan).entries@.len()
            ==> turned(rotations@, old(plan).entries@[i], #[trigger] final(plan).entries@[i]),
{
    let ghost start = plan.entries@;
    let n = plan.entries.len();
    let mut i: usize = 0;
    while i < n
        invariant
            i <= n,
            n == start.len(),
            start == old(plan).entries@,
            rotations.wf(),
            plan.header == old(plan).header,
            plan.skipped == old(plan).skipped,
            plan.entries@.len() == n,
            forall|x: int| i <= x < n ==> #[trigger] plan.entries@[x] == start[x],
            forall|x: int| 0 <= x < i ==> turned(rotations@, start[x], #[trigger] plan.entries@[x]),
        decreases n - i,
    {
        let ghost before = plan.entries@;
        assert(plan.entries@[i as int] == start[i as int]);
        match rotations.get(plan.entries[i].source.as_str()) {
            None => {},
            Some(applied) => {
                let transform = applied.transform;
                let reencode = applied.reencode;
                let mut entry = plan.entries.remove(i);
                entry.rotate = transform;
                entry.reencode = reencode;
                plan.entries.insert(i, entry);
                assert forall|x: int| 0 <= x < n && x != i implies #[trigger] plan.entries@[x] == before[x] by {}
            },
        }
        i = i + 1;
    }
}

/// The positions of the entries whose path is not among `excluded`.
pub open spec fn kept(es: Seq<PlanEntry>, excluded: Seq<Seq<char>>, n: int) -> Seq<int>
    decreases n,
{
    if n <= 0 {
        seq![]
    } else {
        kept(es, excluded, n - 1) + if excluded.contains(es[n - 1].source@) { seq![] } else { seq![n - 1] }
    }
}

/// Whether `now` is `was` with its corrected date and destination, and its
/// corrected turn, where it has them.
pub open spec fn settled(
    h: PlanHeader,
    ovs: Map<Seq<char>, DateOverride>,
    rots: Map<Seq<char>, RotationOverride>,
    was: PlanEntry,
    now: PlanEntry,
) -> bool {
    &&& same_but_correctable(now, was)
    &&& if ovs.contains_key(was.source@) {
        now.taken == ovs[was.source@].taken && lands(h, was, now.taken) == Some(now.destination@)
    } else {
        now.taken == was.taken && now.destination == was.destination
    }
    &&& if rots.contains_key(was.source@) {
        now.rotate == rots[was.source@].transform && now.reencode == rots[was.source@].reencode
    } else {
        now.rotate == was.rotate && now.reencode == was.reencode
    }
}

/// Whether `path` is among `excluded`.
fn is_excluded(excluded: &Vec<String>, path: &String) -> (r: bool)
    ensures
        r == crate::offset::texts(excluded@).contains(path@),
{
    let mut i: usize = 0;
    while i < excluded.len()
        invariant
            i <= excluded@.len(),
            forall|j: int| 0 <= j < i ==> (#[trigger] excluded@[j])@ != path@,
        decreases excluded@.len() - i,
    {
        if excluded[i] == *path {
            assert(crate::offset::texts(excluded@)[i as int] == path@);
            return true;
        }
        i = i + 1;
    }
    proof {
        if crate::offset::texts(excluded@).contains(path@) {
            let j = choose|j: int| 0 <= j < crate::offset::texts(excluded@).len() && crate::offset::texts(excluded@)[j] == path@;
            assert(excluded@[j]@ == path@);
        }
    }
    false
}

/// A plan as it is worked on: read back, with the corrected dates and turns put in
/// place and the files a person left out dropped.
pub fn load_plan(plan: Plan, overrides: &Overrides, rotations: &Rotations, excluded: &Vec<String>) -> (r: Result<Plan, Error>)
    requires
        overrides.wf(),
        rotations.wf(),
    ensures
        r is Ok <==> forall|i: int| 0 <= i < plan.entries@.len()
            && overrides@.contains_key(#[trigger] plan.entries@[i].source@)
            ==> lands(plan.header, plan.entries@[i], overrides@[plan.entries@[i].source@].taken) is Some,
        r matches Err(e) ==> e matches Error::InvalidFolderPattern(_),
        r matches Ok(p) ==> {
            let k = kept(plan.entries@, crate::offset::texts(excluded@), plan.entries@.len() as int);
            &&& p.header == plan.header
            &&& p.skipped == plan.skipped
            &&& p.entries@.len() == k.len()
            &&& forall|j: int| 0 <= j < k.len()
                ==> settled(plan.header, overrides@, rotations@, plan.entries@[k[j]], #[trigger] p.entries@[j])
        },
{
    let ghost start = plan.entries@;
    let ghost h = plan.header;
    let ghost ex = crate::offset::texts(excluded@);
    let mut plan = plan;
    match apply(&mut plan, overrides) {
        Ok(()) => {},
        Err(e) => return Err(e),
    }
    let ghost mid = plan.entries@;
    apply_rotations(&mut plan, rotations);
    let ghost fin = plan.entries@;
    let n = plan.entries.len();
    proof {
        assert forall|x: int| 0 <= x < n implies settled(h, overrides@, rotations@, start[x], #[trigger] fin[x]) by {
            assert(redated(h, overrides@, start[x], mid[x]));
            assert(turned(rotations@, mid[x], fin[x]));
        }
    }
    let mut rest = plan.entries;
    let mut out: Vec<PlanEntry> = Vec::new();
    let mut i: usize = 0;
    while i < n
        invariant
            i <= n,
            n == fin.len(),
            n == start.len(),
            rest@ == fin.subrange(i as int, n as int),
            ex == crate::offset::texts(excluded@),
            forall|x: int| 0 <= x < n ==> start[x].source == (#[trigger] fin[x]).source,
            out@.len() == kept(start, ex, i as int).len(),
            forall|j: int| 0 <= j < out@.len() ==> #[trigger] out@[j] == fin[kept(start, ex, i as int)[j]],
        decreases n - i,
    {
        let e = rest.remove(0);
        assert(e == fin[i as int]);
        let ghost before = out@;
        if !is_excluded(excluded, &e.source) {
            out.push(e);
            assert forall|j: int| 0 <= j < out@.len() implies #[trigger] out@[j] == fin[kept(start, ex, i + 1)[j]] by {
                if j < before.len() {
                    assert(out@[j] == before[j]);
                }
            }
        }
        assert(rest@ =~= fin.subrange(i + 1, n as int));
        i = i + 1;
    }
    proof {
        let k = kept(start, ex, n as int);
        assert forall|j: int| 0 <= j < k.len() implies settled(h, overrides@, rotations@, start[k[j]], #[trigger] out@[j]) by {
            lemma_kept_in_range(start, ex, n as int);
            assert(0 <= k[j] < n);
        }
    }
    Ok(Plan { header: plan.header, entries: out, skipped: plan.skipped })
}

proof fn lemma_kept_in_range(es: Seq<PlanEntry>, excluded: Seq<Seq<char>>, n: int)
    ensures
        forall|j: int| 0 <= j < kept(es, excluded, n).len() ==> 0 <= #[trigger] kept(es, excluded, n)[j] < n,
    decreases n,
{
    if n > 0 {
        lemma_kept_in_range(es, excluded, n - 1);
        let k = kept(es, excluded, n);
        let prior = kept(es, excluded, n - 1);
        assert forall|j: int| 0 <= j < k.len() implies 0 <= #[trigger] k[j] < n by {
            if j < prior.len() {
                assert(k[j] == prior[j]);
            }
        }
    }
}

/// A correction put in place for a path is the one read back for it, a cleared one
/// is gone, and every other path keeps what it had.
pub proof fn law_a_correction_reads_back<V>(before: Map<Seq<char>, V>, path: Seq<char>, value: V, other: Seq<char>)
    requires
        other != path,
    ensures
        before.insert(path, value).contains_key(path),
        before.insert(path, value)[path] == value,
        !before.remove(path).contains_key(path),
        before.insert(path, value).contains_key(other) == before.contains_key(other),
        before.remove(path).contains_key(other) == before.contains_key(other),
        before.contains_key(other) ==> before.insert(path, value)[other] == before[other]
            && before.remove(path)[other] == before[other],
{
}

/// Two entries that agree on their path, subject and place land in the same place
/// at the same date.
proof fn lemma_lands_alike(h: PlanHeader, a: PlanEntry, b: PlanEntry, t: Moment)
    requires
        a.source == b.source,
        a.subject == b.subject,
        a.place == b.place,
        exists|f: Facts| entry_facts(f, a),
    ensures
        lands(h, a, t) == lands(h, b, t),
{
    let fa = choose|f: Facts| entry_facts(f, a);
    assert(entry_facts(fa, b));
    let fb = choose|f: Facts| entry_facts(f, b);
    assert(facts_alike(fa, fb));
    lemma_destination_alike(t, fa, fb, root_of(h), h.folder_pattern@, h.name_pattern@);
}

/// Putting the corrected dates in place a second time changes nothing more.
pub proof fn law_corrections_settle_at_once(
    h: PlanHeader,
    ovs: Map<Seq<char>, DateOverride>,
    a: PlanEntry,
    b: PlanEntry,
    c: PlanEntry,
)
    requires
        exists|f: Facts| entry_facts(f, a),
        redated(h, ovs, a, b),
        redated(h, ovs, b, c),
    ensures
        c.taken == b.taken,
        c.destination@ == b.destination@,
        same_but_correctable(c, b),
        c.rotate == b.rotate && c.reencode == b.reencode,
{
    if ovs.contains_key(a.source@) {
        lemma_lands_alike(h, a, b, b.taken);
    }
}

} // verus!
