//! A plan as a whole: its header, the files it will copy and the files it passed
//! over; what it adds up to; the name a plan file gets; and how the records of a
//! plan file, once read, make a plan.
use vstd::prelude::*;
use crate::digest::{blake3_digest, blake3_of, hex, hex_of};
use crate::error::Error;
use crate::model::{first_from, PlanEntry, PlanHeader, PlanRecord, SkippedEntry, PLAN_VERSION};
use crate::providers::Provider;
use crate::suspect::{cross_file_flags, spec_cross_flags, EntryFacts, Flag};
use crate::offset::texts;
use crate::text::{chars_of, extend, extend_str, put_text, slice_chars, string_of, utf8};

verus! {

/// A plan read back from its file.
#[derive(Debug)]
pub struct Plan {
    pub header: PlanHeader,
    pub entries: Vec<PlanEntry>,
    pub skipped: Vec<SkippedEntry>,
}

/// The bytes of the entries, added up.
pub open spec fn sum_sizes(es: Seq<PlanEntry>) -> int
    decreases es.len(),
{
    if es.len() == 0 {
        0
    } else {
        sum_sizes(es.drop_last()) + es.last().size
    }
}

pub proof fn lemma_sum_prefix(es: Seq<PlanEntry>, n: int)
    requires
        0 <= n <= es.len(),
    ensures
        sum_sizes(es.take(n)) <= sum_sizes(es),
    decreases es.len() - n,
{
    if n < es.len() {
        lemma_sum_prefix(es, n + 1);
        assert(es.take(n + 1).drop_last() =~= es.take(n));
    } else {
        assert(es.take(n) =~= es);
    }
}

/// Every path the plan looked at: its entries, then the files it passed over.
pub open spec fn looked_at(entries: Seq<PlanEntry>, skipped: Seq<SkippedEntry>) -> Seq<Seq<char>> {
    Seq::new(entries.len(), |i: int| entries[i].source@) + Seq::new(skipped.len(), |i: int| skipped[i].source@)
}

impl Plan {
    /// The bytes the plan will copy.
    pub fn total_bytes(&self) -> (r: u64)
        requires
            sum_sizes(self.entries@) <= u64::MAX,
        ensures
            r == sum_sizes(self.entries@),
    {
        let mut sum: u64 = 0;
        let mut i: usize = 0;
        while i < self.entries.len()
            invariant
                i <= self.entries@.len(),
                sum_sizes(self.entries@) <= u64::MAX,
                sum == sum_sizes(self.entries@.take(i as int)),
            decreases self.entries@.len() - i,
        {
            assert(self.entries@.take(i + 1).drop_last() =~= self.entries@.take(i as int));
            proof { lemma_sum_prefix(self.entries@, i + 1); }
            sum = sum + self.entries[i].size;
            i = i + 1;
        }
        assert(self.entries@.take(i as int) =~= self.entries@);
        sum
    }

    /// Every path the plan looked at, each once, in the order first met: entries
    /// first, then the files passed over.
    pub fn analysed_sources(&self) -> (r: Vec<String>)
        ensures
            texts(r@).no_duplicates(),
            texts(r@).to_set() == looked_at(self.entries@, self.skipped@).to_set(),
    {
        let ghost all = looked_at(self.entries@, self.skipped@);
        let ne = self.entries.len();
        let mut r: Vec<String> = Vec::new();
        let mut k: usize = 0;
        while k < ne
            invariant
                k <= ne,
                ne == self.entries@.len(),
                all == looked_at(self.entries@, self.skipped@),
                texts(r@).no_duplicates(),
                texts(r@).to_set() == all.take(k as int).to_set(),
            decreases ne - k,
        {
            assert(all.take(k + 1) =~= all.take(k as int).push(self.entries@[k as int].source@));
            proof { all.take(k as int).lemma_push_to_set_commute(self.entries@[k as int].source@); }
            add_once(&mut r, &self.entries[k].source);
            k = k + 1;
        }
        let ns = self.skipped.len();
        let mut j: usize = 0;
        while j < ns
            invariant
                j <= ns,
                ne == self.entries@.len(),
                ns == self.skipped@.len(),
                all == looked_at(self.entries@, self.skipped@),
                texts(r@).no_duplicates(),
                texts(r@).to_set() == all.take(ne + j).to_set(),
            decreases ns - j,
        {
            assert(all.take(ne + j + 1) =~= all.take(ne + j).push(self.skipped@[j as int].source@));
            proof { all.take(ne + j).lemma_push_to_set_commute(self.skipped@[j as int].source@); }
            add_once(&mut r, &self.skipped[j].source);
            j = j + 1;
        }
        assert(all.take(ne + ns) =~= all);
        r
    }
}

/// `s` added to the list `r` of distinct paths, unless it is there already.
fn add_once(r: &mut Vec<String>, s: &String)
    requires
        texts(old(r)@).no_duplicates(),
    ensures
        texts(final(r)@).no_duplicates(),
        texts(final(r)@).to_set() == texts(old(r)@).to_set().insert(s@),
{
    let ghost before = texts(r@);
    let mut seen = false;
    let mut j: usize = 0;
    while j < r.len()
        invariant
            j <= r@.len(),
            seen == exists|x: int| 0 <= x < j && #[trigger] r@[x]@ == s@,
        decreases r@.len() - j,
    {
        if r[j] == *s {
            seen = true;
        }
        j = j + 1;
    }
    if !seen {
        r.push(s.clone());
        proof {
            assert(texts(r@) =~= before.push(s@));
            before.lemma_push_to_set_commute(s@);
            assert forall|a: int, b: int| 0 <= a < b < texts(r@).len() implies texts(r@)[a] != texts(r@)[b] by {
                if b == before.len() {
                    assert(before[a] == texts(r@)[a]);
                    assert(r@[a]@ != s@);
                } else {
                    assert(before[a] == texts(r@)[a] && before[b] == texts(r@)[b]);
                }
            }
        }
    } else {
        proof {
            let x = choose|x: int| 0 <= x < r@.len() && #[trigger] r@[x]@ == s@;
            assert(before[x] == s@);
            assert(before.to_set().contains(s@));
            assert(before.to_set().insert(s@) =~= before.to_set());
        }
    }
}

// ---------------------------------------------------------------------------
// The name of a plan file
// ---------------------------------------------------------------------------
/// What a plan's name is made from: each source followed by a zero byte, then
/// `->`, then the destination.
pub open spec fn name_bytes(sources: Seq<Seq<char>>, destination: Seq<char>) -> Seq<u8>
    decreases sources.len(),
{
    if sources.len() == 0 {
        utf8("->"@) + utf8(destination)
    } else {
        utf8(sources[0]) + seq![0u8] + name_bytes(sources.drop_first(), destination)
    }
}

pub open spec fn source_bytes(sources: Seq<Seq<char>>) -> Seq<u8>
    decreases sources.len(),
{
    if sources.len() == 0 {
        seq![]
    } else {
        source_bytes(sources.drop_last()) + utf8(sources.last()) + seq![0u8]
    }
}

proof fn lemma_name_bytes(sources: Seq<Seq<char>>, destination: Seq<char>)
    ensures
        name_bytes(sources, destination) == source_bytes(sources) + utf8("->"@) + utf8(destination),
    decreases sources.len(),
{
    if sources.len() > 0 {
        lemma_name_bytes(sources.drop_first(), destination);
        lemma_source_bytes_cons(sources);
        assert(name_bytes(sources, destination) =~= source_bytes(sources) + utf8("->"@) + utf8(destination));
    }
}

proof fn lemma_source_bytes_cons(sources: Seq<Seq<char>>)
    requires
        sources.len() > 0,
    ensures
        source_bytes(sources) == utf8(sources[0]) + seq![0u8] + source_bytes(sources.drop_first()),
    decreases sources.len(),
{
    if sources.len() == 1 {
        assert(sources.drop_last() =~= Seq::<Seq<char>>::empty());
        assert(sources.drop_first() =~= Seq::<Seq<char>>::empty());
        assert(source_bytes(sources) =~= utf8(sources[0]) + seq![0u8] + source_bytes(sources.drop_first()));
    } else {
        lemma_source_bytes_cons(sources.drop_last());
        assert(sources.drop_last().drop_first() =~= sources.drop_first().drop_last());
        assert(sources.drop_first().last() == sources.last());
        assert(source_bytes(sources) =~= utf8(sources[0]) + seq![0u8] + source_bytes(sources.drop_first()));
    }
}

/// The name a plan of `sources` into `destination` gets by default: `plan-`, the
/// first eight hexadecimal digits of the BLAKE3 digest of the sources and the
/// destination, and `.jsonl`.
pub open spec fn spec_plan_name(sources: Seq<Seq<char>>, destination: Seq<char>) -> Seq<char> {
    "plan-"@ + hex(blake3_of(name_bytes(sources, destination))).take(8) + ".jsonl"@
}

/// The name a plan of `sources` into `destination` gets by default, the same for
/// the same sources and destination.
pub fn default_plan_name(sources: &Vec<String>, destination: &str) -> (r: String)
    ensures
        r@ == spec_plan_name(texts(sources@), destination@),
{
    let mut bytes: Vec<u8> = Vec::new();
    let mut i: usize = 0;
    while i < sources.len()
        invariant
            i <= sources@.len(),
            bytes@ == source_bytes(texts(sources@).take(i as int)),
        decreases sources@.len() - i,
    {
        put_text(&mut bytes, sources[i].as_str());
        bytes.push(0u8);
        proof {
            assert(texts(sources@).take(i + 1).drop_last() =~= texts(sources@).take(i as int));
            assert(texts(sources@).take(i + 1).last() == sources@[i as int]@);
        }
        i = i + 1;
        assert(bytes@ =~= source_bytes(texts(sources@).take(i as int)));
    }
    assert(texts(sources@).take(i as int) =~= texts(sources@));
    put_text(&mut bytes, "->");
    put_text(&mut bytes, destination);
    proof { lemma_name_bytes(texts(sources@), destination@); }
    let digest = blake3_digest(bytes.as_slice());
    let h = hex_of(digest.as_slice());
    let first = slice_chars(&h, 0, 8);
    assert(first@ =~= h@.take(8));
    let mut name = chars_of("plan-");
    extend(&mut name, &first);
    extend_str(&mut name, ".jsonl");
    string_of(&name)
}

// ---------------------------------------------------------------------------
// Records into a plan
// ---------------------------------------------------------------------------
/// A plan being read back, record by record.
#[derive(Debug)]
pub struct PlanReader {
    pub header: Option<PlanHeader>,
    pub entries: Vec<PlanEntry>,
    pub skipped: Vec<SkippedEntry>,
}

impl PlanReader {
    /// A reader that has seen no record yet.
    pub fn new() -> (r: PlanReader)
        ensures
            r.header is None,
            r.entries@.len() == 0,
            r.skipped@.len() == 0,
    {
        PlanReader { header: None, entries: Vec::new(), skipped: Vec::new() }
    }

    /// Takes the next record of the file: a header replaces any earlier one unless
    /// it comes from a later version than this one reads, entries and files passed
    /// over are kept in order.
    pub fn take(&mut self, record: PlanRecord) -> (r: Result<(), Error>)
        ensures
            match record {
                PlanRecord::Header(h) => if h.version > PLAN_VERSION {
                    &&& r == Err::<(), Error>(Error::UnsupportedPlanVersion(h.version))
                    &&& *final(self) == *old(self)
                } else {
                    &&& r is Ok
                    &&& final(self).header == Some(h)
                    &&& final(self).entries == old(self).entries
                    &&& final(self).skipped == old(self).skipped
                },
                PlanRecord::Entry(e) => {
                    &&& r is Ok
                    &&& final(self).header == old(self).header
                    &&& final(self).entries@ == old(self).entries@.push(e)
                    &&& final(self).skipped == old(self).skipped
                },
                PlanRecord::Skipped(s) => {
                    &&& r is Ok
                    &&& final(self).header == old(self).header
                    &&& final(self).entries == old(self).entries
                    &&& final(self).skipped@ == old(self).skipped@.push(s)
                },
            },
    {
        match record {
            PlanRecord::Header(h) => {
                if h.version > PLAN_VERSION {
                    return Err(Error::UnsupportedPlanVersion(h.version));
                }
                self.header = Some(h);
            },
            PlanRecord::Entry(e) => self.entries.push(e),
            PlanRecord::Skipped(s) => self.skipped.push(s),
        }
        Ok(())
    }

    /// The plan the records made; a file without a header is no plan.
    pub fn finish(self) -> (r: Result<Plan, Error>)
        ensures
            match self.header {
                None => r == Err::<Plan, Error>(Error::MissingPlanHeader),
                Some(h) => r matches Ok(p) && p.header == h && p.entries == self.entries && p.skipped == self.skipped,
            },
    {
        match self.header {
            None => Err(Error::MissingPlanHeader),
            Some(h) => Ok(Plan { header: h, entries: self.entries, skipped: self.skipped }),
        }
    }
}

// ---------------------------------------------------------------------------
// Doubts that only the whole plan shows
// ---------------------------------------------------------------------------
/// What the checks across files read of an entry.
pub open spec fn facts_of(e: PlanEntry) -> EntryFacts {
    EntryFacts {
        source: e.source,
        taken: e.taken,
        provider: e.provider,
        filesystem: match first_from(e.candidates@, Provider::Filesystem) {
            Some(k) => Some(e.candidates@[k].taken),
            None => None,
        },
    }
}

/// What the checks across files read of each entry.
pub open spec fn all_facts(es: Seq<PlanEntry>) -> Seq<EntryFacts> {
    Seq::new(es.len(), |i: int| facts_of(es[i]))
}

/// Adds to every entry the doubts that only the files around it show: the same
/// time as others in its folder, far from its neighbours, a clock that jumped, a
/// counter out of step.
pub fn flag_across_folders(plan: &mut Plan)
    ensures
        final(plan).header == old(plan).header,
        final(plan).skipped == old(plan).skipped,
        final(plan).entries@.len() == old(plan).entries@.len(),
        forall|i: int| 0 <= i < old(plan).entries@.len() ==> {
            let was = old(plan).entries@[i];
            let now = #[trigger] final(plan).entries@[i];
            &&& now.flags@ == was.flags@ + spec_cross_flags(all_facts(old(plan).entries@), i)
            &&& now == (PlanEntry { flags: now.flags, ..was })
        },
{
    let ghost start = plan.entries@;
    let n = plan.entries.len();
    let mut facts: Vec<EntryFacts> = Vec::new();
    let mut i: usize = 0;
    while i < n
        invariant
            i <= n,
            n == plan.entries@.len(),
            plan.entries@ == start,
            facts@.len() == i,
            forall|x: int| 0 <= x < i ==> #[trigger] facts@[x] == facts_of(start[x]),
        decreases n - i,
    {
        let e = &plan.entries[i];
        let filesystem = e.filesystem_time();
        facts.push(EntryFacts { source: e.source.clone(), taken: e.taken, provider: e.provider, filesystem });
        i = i + 1;
    }
    assert(facts@ =~= all_facts(start));
    let extra = cross_file_flags(&facts);
    let mut j: usize = 0;
    while j < n
        invariant
            j <= n,
            n == start.len(),
            extra@.len() == n,
            forall|x: int| 0 <= x < n ==> (#[trigger] extra@[x])@ == spec_cross_flags(all_facts(start), x),
            plan.header == old(plan).header,
            plan.skipped == old(plan).skipped,
            plan.entries@.len() == n,
            start == old(plan).entries@,
            forall|x: int| j <= x < n ==> #[trigger] plan.entries@[x] == start[x],
            forall|x: int| 0 <= x < j ==> {
                let now = #[trigger] plan.entries@[x];
                &&& now.flags@ == start[x].flags@ + spec_cross_flags(all_facts(start), x)
                &&& now == (PlanEntry { flags: now.flags, ..start[x] })
            },
        decreases n - j,
    {
        let ghost before = plan.entries@;
        let mut entry = plan.entries.remove(j);
        let ghost was = entry;
        let added = &extra[j];
        let mut k: usize = 0;
        while k < added.len()
            invariant
                k <= added@.len(),
                entry == (PlanEntry { flags: entry.flags, ..was }),
                entry.flags@ == was.flags@ + added@.take(k as int),
            decreases added@.len() - k,
        {
            entry.flags.push(added[k]);
            k = k + 1;
            assert(entry.flags@ =~= was.flags@ + added@.take(k as int));
        }
        assert(added@.take(k as int) =~= added@);
        plan.entries.insert(j, entry);
        assert forall|x: int| 0 <= x < n && x != j implies #[trigger] plan.entries@[x] == before[x] by {}
        j = j + 1;
    }
}

} // verus!
