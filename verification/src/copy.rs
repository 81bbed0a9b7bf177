//! Carrying out a plan: the options of a copy, what became of each file, the running
//! tally of a copy, and the choices made while finding a free name at the
//! destination. The files themselves are read, compared and written by the caller.
use vstd::prelude::*;
use crate::model::{duplicate_name, duplicate_variant};
use crate::model::with_file_name_of;
use crate::paths::{with_extension, with_extension_of};
use crate::rotate::Written;
use crate::text::owned;
use crate::model::PlanEntry;
use crate::plan::{lemma_sum_prefix, sum_sizes};

verus! {

/// The extension of a file still being written.
pub const TEMP_EXTENSION: &'static str = "eonsort-part";
/// The folder, under the destination, that files are written in before they move
/// to their place.
pub const STAGING_DIR: &'static str = ".eonsort-tmp";
/// How many names a file may try before the copy gives up on it.
pub const MAX_DUPLICATE_ATTEMPTS: usize = 10_000;

/// How a copy runs: how many files at a time, and whether the copies keep the times
/// of their sources.
#[derive(Debug, Clone, PartialEq, Eq)]
pub struct CopyOptions {
    pub concurrency: usize,
    pub preserve_times: bool,
}

/// How many files to copy at a time on a machine that can run `available` threads:
/// that many, held between one and eight, or four when the machine does not say.
pub open spec fn spec_default_concurrency(available: Option<usize>) -> usize {
    match available {
        Some(n) => if n < 1 {
            1
        } else if n > 8 {
            8
        } else {
            n
        },
        None => 4,
    }
}

/// How many files to copy at a time on a machine that can run `available` threads.
pub fn default_concurrency(available: Option<usize>) -> (r: usize)
    ensures
        r == spec_default_concurrency(available),
{
    match available {
        Some(n) => if n < 1 {
            1
        } else if n > 8 {
            8
        } else {
            n
        },
        None => 4,
    }
}

/// Files whose average size is at least this many bytes are copied at most two at a
/// time: each one already keeps the disks busy.
pub const LARGE_FILE_BYTES: u64 = 67_108_864;
/// Files whose average size is at least this many bytes are copied at most four at a
/// time.
pub const MEDIUM_FILE_BYTES: u64 = 8_388_608;

/// How many files to copy at a time when the files about to be copied are `es`, on a
/// machine that can run `available` threads: the machine's number, held to two when
/// the files are large on average and to four when they are of middling size; the
/// machine's number when there is nothing to copy.
pub open spec fn spec_concurrency_for(es: Seq<PlanEntry>, available: Option<usize>) -> usize {
    let machine = spec_default_concurrency(available);
    if es.len() == 0 {
        machine
    } else {
        let average = sum_sizes(es) / (es.len() as int);
        if average >= LARGE_FILE_BYTES {
            if machine < 2 { machine } else { 2 }
        } else if average >= MEDIUM_FILE_BYTES {
            if machine < 4 { machine } else { 4 }
        } else {
            machine
        }
    }
}

/// How many files to copy at a time, picked from the sizes of the files about to be
/// copied (see `spec_concurrency_for`). Always at least one and at most eight.
pub fn concurrency_for(entries: &[PlanEntry], available: Option<usize>) -> (r: usize)
    ensures
        r == spec_concurrency_for(entries@, available),
        1 <= r <= 8,
{
    let machine = default_concurrency(available);
    let n = entries.len();
    if n == 0 {
        return machine;
    }
    let mut sum: u128 = 0;
    let mut i: usize = 0;
    while i < n
        invariant
            i <= n,
            n == entries@.len(),
            sum == sum_sizes(entries@.take(i as int)),
            sum <= i * 0xffff_ffff_ffff_ffffu64,
        decreases n - i,
    {
        assert(entries@.take(i + 1).drop_last() =~= entries@.take(i as int));
        proof {
            assert((i + 1) * 0xffff_ffff_ffff_ffffu64 < 0x1_0000_0000_0000_0000_0000_0000_0000_0000int) by (nonlinear_arith)
                requires
                    i < 0x1_0000_0000_0000_0000int,
            ;
        }
        sum = sum + entries[i].size as u128;
        i = i + 1;
    }
    assert(entries@.take(n as int) =~= entries@);
    let average: u128 = sum / (n as u128);
    if average >= LARGE_FILE_BYTES as u128 {
        if machine < 2 { machine } else { 2 }
    } else if average >= MEDIUM_FILE_BYTES as u128 {
        if machine < 4 { machine } else { 4 }
    } else {
        machine
    }
}

impl CopyOptions {
    /// The options a copy of the files `entries` runs with when nobody says
    /// otherwise, on a machine that can run `available` threads: as many at a time as
    /// the sizes of the files call for, and times kept.
    pub fn for_files(entries: &[PlanEntry], available: Option<usize>) -> (r: CopyOptions)
        ensures
            r.concurrency == spec_concurrency_for(entries@, available),
            r.preserve_times,
    {
        CopyOptions { concurrency: concurrency_for(entries, available), preserve_times: true }
    }

    /// The options a copy runs with when nobody says otherwise, on a machine that can
    /// run `available` threads: times are kept.
    pub fn for_machine(available: Option<usize>) -> (r: CopyOptions)
        ensures
            r.concurrency == spec_default_concurrency(available),
            r.preserve_times,
    {
        CopyOptions { concurrency: default_concurrency(available), preserve_times: true }
    }
}

/// What became of one file.
#[derive(Debug, Clone, PartialEq, Eq)]
pub enum Outcome {
    Copied { destination: String },
    Duplicate { destination: String },
    AlreadyPresent { destination: String },
    Failed { error: String },
}

/// One line of the journal: the source, what became of it, and what a turn wrote.
#[derive(Debug, Clone, PartialEq, Eq)]
pub struct JournalRecord {
    pub source: String,
    pub outcome: Outcome,
    pub written: Option<Written>,
}

/// How far a copy has come.
#[derive(Debug, Clone, PartialEq, Eq)]
pub struct CopyProgress {
    pub files_done: u64,
    pub files_total: u64,
    pub bytes_done: u64,
    pub bytes_total: u64,
    pub copied: u64,
    pub duplicates: u64,
    pub already_present: u64,
    pub failed: u64,
    pub turned: u64,
    pub not_turned: u64,
    pub current: Option<String>,
}

impl Default for CopyProgress {
    fn default() -> (r: CopyProgress)
        ensures
            r.files_done == 0 && r.files_total == 0 && r.bytes_done == 0 && r.bytes_total == 0,
            r.copied == 0 && r.duplicates == 0 && r.already_present == 0 && r.failed == 0,
            r.turned == 0 && r.not_turned == 0 && r.current is None,
    {
        CopyProgress {
            files_done: 0,
            files_total: 0,
            bytes_done: 0,
            bytes_total: 0,
            copied: 0,
            duplicates: 0,
            already_present: 0,
            failed: 0,
            turned: 0,
            not_turned: 0,
            current: None,
        }
    }
}

impl CopyProgress {
    /// Counts one finished file of `size` bytes from `source`: one more of its outcome,
    /// one more turned where a turn was written, one more left unturned where a turn
    /// was refused, one more file and its bytes done; the file becomes the current one.
    /// The counters wrap as the atomic counters of a running copy do.
    pub fn record(&mut self, outcome: &Outcome, turned: bool, refused: bool, size: u64, source: &str)
        ensures
            final(self).copied == if outcome is Copied { old(self).copied.wrapping_add(1) } else { old(self).copied },
            final(self).duplicates == if outcome is Duplicate {
                old(self).duplicates.wrapping_add(1)
            } else {
                old(self).duplicates
            },
            final(self).already_present == if outcome is AlreadyPresent {
                old(self).already_present.wrapping_add(1)
            } else {
                old(self).already_present
            },
            final(self).failed == if outcome is Failed { old(self).failed.wrapping_add(1) } else { old(self).failed },
            final(self).turned == if turned { old(self).turned.wrapping_add(1) } else { old(self).turned },
            final(self).not_turned == if refused {
                old(self).not_turned.wrapping_add(1)
            } else {
                old(self).not_turned
            },
            final(self).files_done == old(self).files_done.wrapping_add(1),
            final(self).bytes_done == old(self).bytes_done.wrapping_add(size),
            final(self).files_total == old(self).files_total,
            final(self).bytes_total == old(self).bytes_total,
            final(self).current matches Some(c) && c@ == source@,
    {
        match outcome {
            Outcome::Copied { .. } => self.copied = self.copied.wrapping_add(1),
            Outcome::Duplicate { .. } => self.duplicates = self.duplicates.wrapping_add(1),
            Outcome::AlreadyPresent { .. } => self.already_present = self.already_present.wrapping_add(1),
            Outcome::Failed { .. } => self.failed = self.failed.wrapping_add(1),
        }
        if turned {
            self.turned = self.turned.wrapping_add(1);
        }
        if refused {
            self.not_turned = self.not_turned.wrapping_add(1);
        }
        self.files_done = self.files_done.wrapping_add(1);
        self.bytes_done = self.bytes_done.wrapping_add(size);
        self.current = Some(owned(source));
    }
}

/// What a copy hands back: how far it came, and the files that failed.
#[derive(Debug, Clone, PartialEq, Eq)]
pub struct CopyReport {
    pub progress: CopyProgress,
    pub failures: Vec<JournalRecord>,
}

/// The journal of the plan at `plan_path`: the plan's path with the extension
/// `journal.jsonl`.
pub fn journal_path(plan_path: &str) -> (r: String)
    ensures
        r@ == with_extension_of(plan_path@, "journal.jsonl"@),
{
    proof {
        reveal_strlit("journal.jsonl");
    }
    with_extension(plan_path, "journal.jsonl")
}

/// The name a file tries at its `index`-th attempt: the planned destination first,
/// then its numbered duplicates.
pub fn candidate(destination: &str, index: usize) -> (r: String)
    ensures
        index == 0 ==> r@ == destination@,
        index > 0 ==> r@ == with_file_name_of(destination@, duplicate_name(destination@, index as nat)),
{
    if index == 0 {
        owned(destination)
    } else {
        duplicate_variant(destination, index)
    }
}

/// What was found at a name a file tries.
#[derive(Debug, Clone, Copy, PartialEq, Eq, Structural)]
pub enum Probe {
    /// Nothing is there; `reserved` when another file of this copy has claimed it.
    Absent { reserved: bool },
    /// A file of `size` bytes is there.
    Present { size: u64 },
}

/// What a file does with a name it tried.
#[derive(Debug, Clone, Copy, PartialEq, Eq, Structural)]
pub enum Step {
    /// Write the file there; `duplicate` when it is not the planned name.
    Write { duplicate: bool },
    /// The file may already be there: compare the contents.
    Compare,
    /// Try the next name.
    Next,
}

/// What a file of `expected_size` bytes does at its `index`-th name, given what is
/// there: an unclaimed free name is taken; a file of another size means trying the
/// next name; a file of the same size has to be compared.
pub fn step(index: usize, probe: Probe, expected_size: u64) -> (r: Step)
    ensures
        r == match probe {
            Probe::Absent { reserved } => if reserved {
                Step::Next
            } else {
                Step::Write { duplicate: index > 0 }
            },
            Probe::Present { size } => if size != expected_size {
                Step::Next
            } else {
                Step::Compare
            },
        },
{
    match probe {
        Probe::Absent { reserved } => if reserved {
            Step::Next
        } else {
            Step::Write { duplicate: index > 0 }
        },
        Probe::Present { size } => if size != expected_size {
            Step::Next
        } else {
            Step::Compare
        },
    }
}

// ---------------------------------------------------------------------------
// Carrying on after a stop
// ---------------------------------------------------------------------------
/// Whether some record of the journal names `source`.
pub open spec fn named(journal: Seq<JournalRecord>, source: Seq<char>) -> bool {
    exists|j: int| 0 <= j < journal.len() && #[trigger] journal[j].source@ == source
}

/// Whether the `j`-th record is the last that names its source: the one whose outcome
/// stands.
pub open spec fn is_last(journal: Seq<JournalRecord>, j: int) -> bool {
    forall|k: int| j < k < journal.len() ==> (#[trigger] journal[k]).source@ != journal[j].source@
}

/// The outcomes told apart: copied, a duplicate, already there, failed.
pub open spec fn kind_of(o: Outcome) -> int {
    match o {
        Outcome::Copied { .. } => 0,
        Outcome::Duplicate { .. } => 1,
        Outcome::AlreadyPresent { .. } => 2,
        Outcome::Failed { .. } => 3,
    }
}

/// How many sources among the first `n` records have a last record of kind `kind`.
pub open spec fn last_count(journal: Seq<JournalRecord>, kind: int, n: int) -> int
    decreases n,
{
    if n <= 0 {
        0
    } else {
        last_count(journal, kind, n - 1) + if is_last(journal, n - 1) && kind_of(journal[n - 1].outcome) == kind {
            1int
        } else {
            0int
        }
    }
}

/// The positions among the first `n` entries whose source no record names, in order.
pub open spec fn pending(entries: Seq<PlanEntry>, journal: Seq<JournalRecord>, n: int) -> Seq<int>
    decreases n,
{
    if n <= 0 {
        seq![]
    } else {
        pending(entries, journal, n - 1) + if named(journal, entries[n - 1].source@) { seq![] } else { seq![n - 1] }
    }
}

/// The bytes of the entries that some record names.
pub open spec fn done_bytes(entries: Seq<PlanEntry>, journal: Seq<JournalRecord>) -> int
    decreases entries.len(),
{
    if entries.len() == 0 {
        0
    } else {
        done_bytes(entries.drop_last(), journal) + if named(journal, entries.last().source@) {
            entries.last().size as int
        } else {
            0int
        }
    }
}

proof fn lemma_done_bytes(entries: Seq<PlanEntry>, journal: Seq<JournalRecord>)
    ensures
        0 <= done_bytes(entries, journal) <= sum_sizes(entries),
    decreases entries.len(),
{
    if entries.len() > 0 {
        lemma_done_bytes(entries.drop_last(), journal);
    }
}

proof fn lemma_last_count_bound(journal: Seq<JournalRecord>, kind: int, n: int)
    ensures
        0 <= last_count(journal, kind, n) <= if n < 0 { 0 } else { n },
    decreases n,
{
    if n > 0 {
        lemma_last_count_bound(journal, kind, n - 1);
    }
}

/// Whether some record names `source`.
fn is_named(journal: &Vec<JournalRecord>, source: &String) -> (b: bool)
    ensures
        b == named(journal@, source@),
{
    let mut j: usize = 0;
    while j < journal.len()
        invariant
            j <= journal@.len(),
            forall|k: int| 0 <= k < j ==> (#[trigger] journal@[k]).source@ != source@,
        decreases journal@.len() - j,
    {
        if journal[j].source == *source {
            return true;
        }
        j = j + 1;
    }
    false
}

/// Whether the `j`-th record is the last that names its source.
fn last_at(journal: &Vec<JournalRecord>, j: usize) -> (b: bool)
    requires
        j < journal@.len(),
    ensures
        b == is_last(journal@, j as int),
{
    let m = journal.len();
    let mut k: usize = j + 1;
    while k < m
        invariant
            j < k <= journal@.len(),
            m == journal@.len(),
            forall|x: int| j < x < k ==> (#[trigger] journal@[x]).source@ != journal@[j as int].source@,
        decreases journal@.len() - k,
    {
        if journal[k].source == journal[j].source {
            return false;
        }
        k = k + 1;
    }
    true
}

/// The position of the record whose outcome stands for `source`: the last that
/// names it.
pub fn last_record(journal: &Vec<JournalRecord>, source: &str) -> (r: Option<usize>)
    ensures
        match r {
            Some(j) => j < journal@.len() && journal@[j as int].source@ == source@ && is_last(journal@, j as int),
            None => !named(journal@, source@),
        },
{
    let mut j: usize = journal.len();
    let wanted = owned(source);
    while j > 0
        invariant
            j <= journal@.len(),
            wanted@ == source@,
            forall|k: int| j <= k < journal@.len() ==> (#[trigger] journal@[k]).source@ != source@,
        decreases j,
    {
        j = j - 1;
        if journal[j].source == wanted {
            return Some(j);
        }
    }
    None
}

/// Where a stopped copy stands once its journal is read back: the positions of the
/// entries no record names, which are still to copy, and the tally so far. Every
/// entry and its bytes count towards the totals; those a record names are done;
/// each source the journal names counts once, under the outcome of its last record.
pub fn resume(entries: &Vec<PlanEntry>, journal: &Vec<JournalRecord>) -> (r: (Vec<usize>, CopyProgress))
    requires
        sum_sizes(entries@) <= u64::MAX,
    ensures
        r.0@.len() == pending(entries@, journal@, entries@.len() as int).len(),
        forall|k: int| 0 <= k < r.0@.len() ==> r.0@[k] as int == #[trigger] pending(entries@, journal@, entries@.len() as int)[k],
        r.1.files_total == entries@.len(),
        r.1.bytes_total == sum_sizes(entries@),
        r.1.files_done == entries@.len() - r.0@.len(),
        r.1.bytes_done == done_bytes(entries@, journal@),
        r.1.copied == last_count(journal@, 0, journal@.len() as int),
        r.1.duplicates == last_count(journal@, 1, journal@.len() as int),
        r.1.already_present == last_count(journal@, 2, journal@.len() as int),
        r.1.failed == last_count(journal@, 3, journal@.len() as int),
        r.1.turned == 0 && r.1.not_turned == 0 && r.1.current is None,
{
    let n = entries.len();
    let mut waiting: Vec<usize> = Vec::new();
    let mut bytes: u64 = 0;
    let mut total: u64 = 0;
    let mut i: usize = 0;
    while i < n
        invariant
            i <= n,
            n == entries@.len(),
            sum_sizes(entries@) <= u64::MAX,
            waiting@.len() == pending(entries@, journal@, i as int).len(),
            waiting@.len() <= i,
            forall|k: int| 0 <= k < waiting@.len() ==> waiting@[k] as int == #[trigger] pending(entries@, journal@, i as int)[k],
            bytes == done_bytes(entries@.take(i as int), journal@),
            total == sum_sizes(entries@.take(i as int)),
        decreases n - i,
    {
        proof {
            lemma_sum_prefix(entries@, i + 1);
            lemma_done_bytes(entries@.take(i + 1), journal@);
            assert(entries@.take(i + 1).drop_last() =~= entries@.take(i as int));
        }
        let size = entries[i].size;
        total = total + size;
        let ghost before = waiting@;
        if is_named(journal, &entries[i].source) {
            bytes = bytes + size;
        } else {
            waiting.push(i);
            assert forall|k: int| 0 <= k < waiting@.len() implies waiting@[k] as int == #[trigger] pending(entries@, journal@, i + 1)[k] by {
                if k < before.len() {
                    assert(waiting@[k] == before[k]);
                }
            }
        }
        i = i + 1;
    }
    assert(entries@.take(n as int) =~= entries@);
    let m = journal.len();
    let mut counts: [u64; 4] = [0, 0, 0, 0];
    let mut j: usize = 0;
    while j < m
        invariant
            j <= m,
            m == journal@.len(),
            forall|x: int| 0 <= x < 4 ==> counts[x] == last_count(journal@, x, j as int),
        decreases m - j,
    {
        proof {
            lemma_last_count_bound(journal@, 0, j as int);
            lemma_last_count_bound(journal@, 1, j as int);
            lemma_last_count_bound(journal@, 2, j as int);
            lemma_last_count_bound(journal@, 3, j as int);
        }
        if last_at(journal, j) {
            let kind: usize = match &journal[j].outcome {
                Outcome::Copied { .. } => 0,
                Outcome::Duplicate { .. } => 1,
                Outcome::AlreadyPresent { .. } => 2,
                Outcome::Failed { .. } => 3,
            };
            assert(kind as int == kind_of(journal@[j as int].outcome));
            counts.set(kind, counts[kind] + 1);
        }
        j = j + 1;
    }
    let progress = CopyProgress {
        files_done: (n - waiting.len()) as u64,
        files_total: n as u64,
        bytes_done: bytes,
        bytes_total: total,
        copied: counts[0],
        duplicates: counts[1],
        already_present: counts[2],
        failed: counts[3],
        turned: 0,
        not_turned: 0,
        current: None,
    };
    (waiting, progress)
}

} // verus!
