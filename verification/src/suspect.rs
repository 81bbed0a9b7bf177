//! How far a date can be trusted, and the camera counter at the end of a file's name
//! that puts the pictures of one folder in the order they were taken.
use vstd::prelude::*;
use crate::moment::{
    at_year_start, days_apart, days_between, hours_apart, hours_between, instant, instant_bound,
    lemma_instant_bounded, starts_year, strftime, strftime_text, Moment,
};
use crate::providers::{Detection, Provider};
use crate::paths::{parent, parent_of};
use crate::text::{chars_of, decimal, decimal_of, extend, extend_str, same_chars, string_of};
use crate::selection::{
    ascending, pair_lt, count_true, lemma_ascending_members, lemma_count_true_bound, lemma_count_true_step,
    pairs_of, sort_ascending,
};
use crate::paths::{stem, stem_of};
use crate::text::{digits_value, parse_digits, slice_chars, spec_is_digit};

verus! {

/// A date on a camera's factory-reset day is suspect when it falls this many seconds
/// after midnight or earlier.
pub const EPOCH_WINDOW_SECONDS: i64 = 60;
pub const RESET_WINDOW_SECONDS: i64 = 86_399;
pub const RUN_GAP_DAYS: i64 = 30;
/// Sources that disagree by more days than this flag the file.
pub const SPREAD_DAYS: i64 = 180;
pub const WRITE_TOLERANCE_HOURS: i64 = 48;
/// Two dates this many hours apart or closer back each other up.
pub const CONSENSUS_HOURS: i64 = 24;
pub const NEIGHBOUR_DRIFT_DAYS: i64 = 730;
pub const IDENTICAL_CLUSTER_MIN: usize = 5;
pub const SEQUENCE_MIN: usize = 5;
pub const NEIGHBOUR_MIN: usize = 5;

/// Something about a file's date that makes it doubtful.
#[derive(Debug, Clone, Copy, PartialEq, Eq, Structural)]
pub enum Flag {
    /// The date sits on a camera's factory-reset day, just after midnight.
    CameraEpoch,
    /// The date lies after the moment the file was looked at.
    FutureDate,
    /// The date lies well after the file was last written.
    TakenAfterFileWrite,
    /// The sources disagree by this many days.
    ProviderSpread { days: i64 },
    /// The file belongs to a run of files counting up from a reset clock.
    ClockResetRun { anchor: Moment, files: usize },
    /// This many files of the folder share the date to the second.
    IdenticalTimestampCluster { files: usize },
    /// The date breaks the camera counter order of the folder.
    SequenceOutlier,
    /// The date lies this many years from the rest of the folder.
    FarFromNeighbours { years: i64 },
}

/// The weight of a flag: only a spread between sources is soft.
pub open spec fn spec_severity(f: Flag) -> Severity {
    match f {
        Flag::ProviderSpread { .. } => Severity::Soft,
        _ => Severity::Hard,
    }
}

impl Flag {
    /// How much the flag weighs.
    pub fn severity(&self) -> (r: Severity)
        ensures
            r == spec_severity(*self),
    {
        match self {
            Flag::ProviderSpread { .. } => Severity::Soft,
            _ => Severity::Hard,
        }
    }
}

/// How much a flag weighs: a hard one makes the date unreliable, a soft one only
/// stops it being certain.
#[derive(Debug, Clone, Copy, PartialEq, Eq, Structural)]
pub enum Severity {
    Hard,
    Soft,
}

/// How far the date chosen for a file can be trusted.
#[derive(Debug, Clone, Copy, PartialEq, Eq, PartialOrd, Ord)]
pub enum Confidence {
    Low,
    Medium,
    High,
}

impl Confidence {
    /// The word a report uses for the confidence.
    pub fn label(self) -> (r: &'static str)
        ensures
            r@ == match self {
                Confidence::Low => "low"@,
                Confidence::Medium => "medium"@,
                Confidence::High => "high"@,
            },
    {
        match self {
            Confidence::Low => "low",
            Confidence::Medium => "medium",
            Confidence::High => "high",
        }
    }
}

/// How many ASCII digits end `s`.
pub open spec fn trailing_digits(s: Seq<char>) -> nat
    decreases s.len(),
{
    if s.len() == 0 || !spec_is_digit(s.last()) {
        0
    } else {
        1 + trailing_digits(s.drop_last())
    }
}

/// The camera counter of the file at `p`: the number that the digits ending its stem
/// spell, when there are at least three of them and the number fits in a `u64`.
pub open spec fn spec_counter(p: Seq<char>) -> Option<nat> {
    match stem_of(p) {
        None => None,
        Some(st) => {
            let k = trailing_digits(st);
            let v = digits_value(st.skip(st.len() - k));
            if k < 3 || v > u64::MAX {
                None
            } else {
                Some(v)
            }
        },
    }
}

proof fn lemma_trailing_digits(s: Seq<char>)
    ensures
        trailing_digits(s) <= s.len(),
        forall|j: int| 0 <= j < trailing_digits(s) ==> spec_is_digit(#[trigger] s[s.len() - 1 - j]),
        trailing_digits(s) < s.len() ==> !spec_is_digit(s[s.len() - 1 - trailing_digits(s)]),
    decreases s.len(),
{
    if s.len() > 0 && spec_is_digit(s.last()) {
        let t = s.drop_last();
        lemma_trailing_digits(t);
        assert forall|j: int| 0 <= j < trailing_digits(s) implies spec_is_digit(#[trigger] s[s.len() - 1 - j]) by {
            if j > 0 {
                assert(s[s.len() - 1 - j] == t[t.len() - 1 - (j - 1)]);
            }
        }
        if trailing_digits(s) < s.len() {
            assert(s[s.len() - 1 - trailing_digits(s)] == t[t.len() - 1 - trailing_digits(t)]);
        }
    }
}

/// The camera counter at the end of the file name of `path`, such as `123` in
/// `DSC_0123.jpg`.
pub fn counter(path: &str) -> (r: Option<u64>)
    ensures
        match r {
            Some(n) => spec_counter(path@) == Some(n as nat),
            None => spec_counter(path@) is None,
        },
{
    let st = match stem(path) {
        Some(s) => s,
        None => return None,
    };
    let n = st.len();
    let mut k: usize = 0;
    while k < n && st[n - 1 - k] >= '0' && st[n - 1 - k] <= '9'
        invariant
            k <= n,
            n == st.len(),
            forall|j: int| 0 <= j < k ==> spec_is_digit(#[trigger] st@[n - 1 - j]),
        decreases n - k,
    {
        k = k + 1;
    }
    proof {
        lemma_trailing_digits(st@);
        let t = trailing_digits(st@);
        if k < t {
            assert(spec_is_digit(st@[n - 1 - k]));
        }
        if t < k {
            assert(spec_is_digit(st@[n - 1 - t]));
        }
        assert(k == t);
    }
    if k < 3 {
        return None;
    }
    let tail = slice_chars(&st, n - k, n);
    assert(tail@ =~= st@.skip(n - k));
    assert forall|i: int| 0 <= i < tail.len() implies spec_is_digit(#[trigger] tail@[i]) by {
        assert(tail@[i] == st@[n - 1 - (k - 1 - i)]);
    }
    parse_digits(&tail)
}

// ---------------------------------------------------------------------------
// One file
// ---------------------------------------------------------------------------
/// Whether a date sits on a camera's factory-reset day: the first of January, at
/// most a minute after midnight.
pub open spec fn spec_camera_epoch(t: Moment) -> bool {
    at_year_start(t, EPOCH_WINDOW_SECONDS as int)
}

/// Whether a date sits on a camera's factory-reset day, the first minute of it.
pub fn is_camera_epoch(taken: &Moment) -> (b: bool)
    ensures
        b == spec_camera_epoch(*taken),
{
    starts_year(taken, EPOCH_WINDOW_SECONDS)
}

/// The flags a date earns by itself: a reset day, a future date, a date well after
/// the file was last written. They come in that order.
pub open spec fn spec_date_flags(taken: Moment, latest: Option<Moment>, now: Moment) -> Seq<Flag> {
    let epoch: Seq<Flag> = if spec_camera_epoch(taken) { seq![Flag::CameraEpoch] } else { seq![] };
    let future: Seq<Flag> = if instant(taken) > instant(now) { seq![Flag::FutureDate] } else { seq![] };
    let written: Seq<Flag> = match latest {
        Some(l) => if instant(taken) - instant(l) > WRITE_TOLERANCE_HOURS * 3600 {
            seq![Flag::TakenAfterFileWrite]
        } else {
            seq![]
        },
        None => seq![],
    };
    epoch + future + written
}

/// The flags a date earns by itself, against the time the file was last written and
/// the present moment.
pub fn date_flags(taken: &Moment, filesystem_latest: Option<Moment>, now: &Moment) -> (r: Vec<Flag>)
    ensures
        r@ == spec_date_flags(*taken, filesystem_latest, *now),
{
    proof {
        lemma_instant_bounded(*taken);
        lemma_instant_bounded(*now);
    }
    let mut flags: Vec<Flag> = Vec::new();
    if is_camera_epoch(taken) {
        flags.push(Flag::CameraEpoch);
    }
    let at = taken.seconds();
    if at > now.seconds() {
        flags.push(Flag::FutureDate);
    }
    match filesystem_latest {
        Some(latest) => {
            proof { lemma_instant_bounded(latest); }
            if at - latest.seconds() > WRITE_TOLERANCE_HOURS * 3600 {
                flags.push(Flag::TakenAfterFileWrite);
            }
        },
        None => {},
    }
    assert(flags@ =~= spec_date_flags(*taken, filesystem_latest, *now));
    flags
}

/// Whether the instant `x` is the least among the candidates' dates.
pub open spec fn least_taken(c: Seq<Detection>, x: int) -> bool {
    (exists|i: int| 0 <= i < c.len() && instant(c[i].taken) == x)
        && forall|i: int| 0 <= i < c.len() ==> x <= instant(#[trigger] c[i].taken)
}

/// Whether the instant `x` is the greatest among the candidates' dates.
pub open spec fn greatest_taken(c: Seq<Detection>, x: int) -> bool {
    (exists|i: int| 0 <= i < c.len() && instant(c[i].taken) == x)
        && forall|i: int| 0 <= i < c.len() ==> instant(#[trigger] c[i].taken) <= x
}

/// The whole days between the earliest and the latest date the sources gave.
pub open spec fn spec_spread_days(c: Seq<Detection>) -> int {
    let lo = choose|x: int| least_taken(c, x);
    let hi = choose|x: int| greatest_taken(c, x);
    days_between(hi, lo)
}

/// The earliest and the latest of the candidates' dates, as instants.
fn taken_range(candidates: &Vec<Detection>) -> (r: (i64, i64))
    requires
        candidates@.len() > 0,
    ensures
        least_taken(candidates@, r.0 as int),
        greatest_taken(candidates@, r.1 as int),
{
    let c = candidates;
    proof { lemma_instant_bounded(c@[0].taken); }
    let first = c[0].taken.seconds();
    let mut lo: i64 = first;
    let mut hi: i64 = first;
    let mut i: usize = 1;
    while i < c.len()
        invariant
            1 <= i <= c.len(),
            exists|j: int| 0 <= j < i && instant(c@[j].taken) == lo,
            exists|j: int| 0 <= j < i && instant(c@[j].taken) == hi,
            forall|j: int| 0 <= j < i ==> lo <= instant(#[trigger] c@[j].taken) <= hi,
        decreases c.len() - i,
    {
        let t = c[i].taken.seconds();
        if t < lo {
            lo = t;
        }
        if t > hi {
            hi = t;
        }
        i = i + 1;
    }
    (lo, hi)
}

/// The flag for sources that disagree by more than half a year, with the number of
/// days between the earliest and the latest date; `None` when they agree or when
/// there is no source.
pub fn spread(candidates: &Vec<Detection>) -> (r: Option<Flag>)
    ensures
        candidates@.len() == 0 ==> r is None,
        candidates@.len() > 0 ==> {
            let days = spec_spread_days(candidates@);
            if days > SPREAD_DAYS { r == Some(Flag::ProviderSpread { days: days as i64 }) } else { r is None }
        },
{
    if candidates.len() == 0 {
        return None;
    }
    let (lo, hi) = taken_range(candidates);
    proof {
        let a = choose|x: int| least_taken(candidates@, x);
        let b = choose|x: int| greatest_taken(candidates@, x);
        assert(least_taken(candidates@, a));
        assert(greatest_taken(candidates@, b));
        let ia = choose|i: int| 0 <= i < candidates@.len() && instant(candidates@[i].taken) == a;
        let ib = choose|i: int| 0 <= i < candidates@.len() && instant(candidates@[i].taken) == b;
        let ja = choose|i: int| 0 <= i < candidates@.len() && instant(candidates@[i].taken) == lo;
        let jb = choose|i: int| 0 <= i < candidates@.len() && instant(candidates@[i].taken) == hi;
        assert(lo <= instant(candidates@[ia].taken));
        assert(a <= instant(candidates@[ja].taken));
        assert(hi >= instant(candidates@[ib].taken));
        assert(b >= instant(candidates@[jb].taken));
        assert(a == lo && b == hi);
        lemma_instant_bounded(candidates@[ja].taken);
        lemma_instant_bounded(candidates@[jb].taken);
    }
    let days = days_apart(hi, lo);
    if days > SPREAD_DAYS {
        Some(Flag::ProviderSpread { days })
    } else {
        None
    }
}

/// The flags of the date chosen for a file: those of the date by itself, then the
/// spread between the sources if they disagree.
pub open spec fn spec_entry_flags(chosen: Moment, c: Seq<Detection>, latest: Option<Moment>, now: Moment) -> Seq<Flag> {
    let own = spec_date_flags(chosen, latest, now);
    if c.len() > 0 && spec_spread_days(c) > SPREAD_DAYS {
        own.push(Flag::ProviderSpread { days: spec_spread_days(c) as i64 })
    } else {
        own
    }
}

/// What a date earns by itself, flag by flag: a reset day when it falls on the first
/// of January no more than a minute after midnight; a future date when it lies after
/// the moment the file is looked at; a date after the file was written when it lies
/// more than 48 hours after the file's last write time, if that is known. It earns
/// nothing else, and each flag at most once.
pub proof fn law_a_date_earns_exactly_its_own_flags(taken: Moment, latest: Option<Moment>, now: Moment)
    ensures
        spec_date_flags(taken, latest, now).contains(Flag::CameraEpoch) <==> (taken.month == 1 && taken.day == 1
            && taken.hour * 3600 + taken.minute * 60 + taken.second <= 60),
        spec_date_flags(taken, latest, now).contains(Flag::FutureDate) <==> instant(taken) > instant(now),
        spec_date_flags(taken, latest, now).contains(Flag::TakenAfterFileWrite) <==> (latest matches Some(l)
            && instant(taken) - instant(l) > 48 * 3600),
        spec_date_flags(taken, latest, now).len() <= 3,
        spec_date_flags(taken, latest, now).no_duplicates(),
        forall|i: int| 0 <= i < spec_date_flags(taken, latest, now).len() ==> {
            let f = #[trigger] spec_date_flags(taken, latest, now)[i];
            f == Flag::CameraEpoch || f == Flag::FutureDate || f == Flag::TakenAfterFileWrite
        },
{
    let f = spec_date_flags(taken, latest, now);
    assert(f.contains(Flag::CameraEpoch) ==> spec_camera_epoch(taken));
    if spec_camera_epoch(taken) {
        assert(f[0] == Flag::CameraEpoch);
    }
    let e: Seq<Flag> = if spec_camera_epoch(taken) { seq![Flag::CameraEpoch] } else { seq![] };
    let u: Seq<Flag> = if instant(taken) > instant(now) { seq![Flag::FutureDate] } else { seq![] };
    if instant(taken) > instant(now) {
        assert(f[e.len() as int] == Flag::FutureDate);
    }
    if latest matches Some(l) && instant(taken) - instant(l) > 48 * 3600 {
        assert(f[(e.len() + u.len()) as int] == Flag::TakenAfterFileWrite);
    }
}

/// Among candidates that are not all empty, an earliest and a latest date are there.
proof fn lemma_extremes_exist(c: Seq<Detection>)
    requires
        c.len() > 0,
    ensures
        exists|x: int| least_taken(c, x),
        exists|x: int| greatest_taken(c, x),
    decreases c.len(),
{
    let last = instant(c.last().taken);
    if c.len() == 1 {
        assert(least_taken(c, last));
        assert(greatest_taken(c, last));
    } else {
        let r = c.drop_last();
        lemma_extremes_exist(r);
        let lo = choose|x: int| least_taken(r, x);
        let hi = choose|x: int| greatest_taken(r, x);
        let nlo = if last < lo { last } else { lo };
        let nhi = if last > hi { last } else { hi };
        assert forall|i: int| 0 <= i < c.len() implies nlo <= instant(#[trigger] c[i].taken) by {
            if i < r.len() {
                assert(r[i] == c[i]);
            }
        }
        assert forall|i: int| 0 <= i < c.len() implies instant(#[trigger] c[i].taken) <= nhi by {
            if i < r.len() {
                assert(r[i] == c[i]);
            }
        }
        if last < lo {
            assert(instant(c[c.len() - 1].taken) == nlo);
        } else {
            let i = choose|i: int| 0 <= i < r.len() && instant(r[i].taken) == lo;
            assert(c[i] == r[i]);
        }
        if last > hi {
            assert(instant(c[c.len() - 1].taken) == nhi);
        } else {
            let i = choose|i: int| 0 <= i < r.len() && instant(r[i].taken) == hi;
            assert(c[i] == r[i]);
        }
        assert(least_taken(c, nlo));
        assert(greatest_taken(c, nhi));
    }
}

/// The seconds from the `i`-th candidate's date to the `j`-th's.
pub open spec fn seconds_apart(c: Seq<Detection>, i: int, j: int) -> int {
    instant(c[j].taken) - instant(c[i].taken)
}

/// Whether the `i`-th and `j`-th candidates hold the earliest and the latest date.
pub open spec fn bounds_all(c: Seq<Detection>, i: int, j: int) -> bool {
    forall|k: int| 0 <= k < c.len() ==> seconds_apart(c, i, k) >= 0 && #[trigger] seconds_apart(c, k, j) >= 0
}

/// The sources disagree, and say so in a flag, exactly when two of them lie more than
/// 180 whole days apart (181 days' worth of seconds or more); the flag then counts the
/// whole days from the earliest to the latest of them. Nothing else is added to the
/// date's own flags.
pub proof fn law_sources_far_apart_are_flagged(chosen: Moment, c: Seq<Detection>, latest: Option<Moment>, now: Moment)
    ensures
        spec_entry_flags(chosen, c, latest, now).len() > spec_date_flags(chosen, latest, now).len()
            <==> exists|i: int, j: int| 0 <= i < c.len() && 0 <= j < c.len()
                && #[trigger] seconds_apart(c, i, j) >= 181 * 86400,
        spec_entry_flags(chosen, c, latest, now).len() > spec_date_flags(chosen, latest, now).len() ==> {
            let f = spec_entry_flags(chosen, c, latest, now);
            &&& f.drop_last() == spec_date_flags(chosen, latest, now)
            &&& f.last() matches Flag::ProviderSpread { days } && exists|i: int, j: int|
                0 <= i < c.len() && 0 <= j < c.len() && #[trigger] bounds_all(c, i, j)
                && days == seconds_apart(c, i, j) / 86400
        },
        spec_entry_flags(chosen, c, latest, now).len() <= spec_date_flags(chosen, latest, now).len()
            ==> spec_entry_flags(chosen, c, latest, now) == spec_date_flags(chosen, latest, now),
{
    if c.len() > 0 {
        lemma_extremes_exist(c);
        let lo = choose|x: int| least_taken(c, x);
        let hi = choose|x: int| greatest_taken(c, x);
        let il = choose|i: int| 0 <= i < c.len() && instant(c[i].taken) == lo;
        let ih = choose|i: int| 0 <= i < c.len() && instant(c[i].taken) == hi;
        assert(bounds_all(c, il, ih)) by {
            assert forall|k: int| 0 <= k < c.len() implies seconds_apart(c, il, k) >= 0 && #[trigger] seconds_apart(c, k, ih) >= 0 by {
                assert(lo <= instant(c[k].taken));
                assert(instant(c[k].taken) <= hi);
            }
        }
        assert(spec_spread_days(c) == days_between(hi, lo));
        let d = hi - lo;
        assert(d == seconds_apart(c, il, ih));
        assert(d >= 0) by {
            assert(seconds_apart(c, il, il) >= 0 && seconds_apart(c, il, ih) >= 0);
        }
        assert(days_between(hi, lo) == d / 86400);
        assert(d / 86400 > 180 <==> d >= 181 * 86400);
        if exists|i: int, j: int| 0 <= i < c.len() && 0 <= j < c.len() && #[trigger] seconds_apart(c, i, j) >= 181 * 86400 {
            let (i, j) = choose|i: int, j: int| 0 <= i < c.len() && 0 <= j < c.len() && #[trigger] seconds_apart(c, i, j) >= 181 * 86400;
            assert(seconds_apart(c, il, i) >= 0 && seconds_apart(c, j, ih) >= 0);
        }
        if d >= 181 * 86400 {
            assert(seconds_apart(c, il, ih) >= 181 * 86400);
            let f = spec_entry_flags(chosen, c, latest, now);
            assert(f.drop_last() =~= spec_date_flags(chosen, latest, now));
        }
    }
}

/// The flags of the date chosen for a file, given what all its sources said.
pub fn entry_flags(chosen: &Moment, candidates: &Vec<Detection>, filesystem_latest: Option<Moment>, now: &Moment) -> (r: Vec<Flag>)
    ensures
        r@ == spec_entry_flags(*chosen, candidates@, filesystem_latest, *now),
{
    let mut flags = date_flags(chosen, filesystem_latest, now);
    match spread(candidates) {
        Some(f) => flags.push(f),
        None => {},
    }
    flags
}

/// Whether two of the sources gave dates less than a day apart, counted in whole
/// hours.
pub open spec fn spec_corroborated(c: Seq<Detection>) -> bool {
    exists|i: int, j: int| 0 <= i < j < c.len()
        && -CONSENSUS_HOURS < #[trigger] hours_between(instant(c[i].taken), instant(c[j].taken)) < CONSENSUS_HOURS
}

fn corroborated(candidates: &Vec<Detection>) -> (b: bool)
    ensures
        b == spec_corroborated(candidates@),
{
    let c = candidates;
    let n = c.len();
    let mut i: usize = 0;
    while i < n
        invariant
            i <= n,
            n == c@.len(),
            c@ == candidates@,
            forall|a: int, b: int| 0 <= a < i && a < b < n ==>
                !(-CONSENSUS_HOURS < #[trigger] hours_between(instant(c@[a].taken), instant(c@[b].taken)) < CONSENSUS_HOURS),
        decreases n - i,
    {
        proof { lemma_instant_bounded(c@[i as int].taken); }
        let ti = c[i].taken.seconds();
        let mut j: usize = i + 1;
        while j < n
            invariant
                i < n,
                i + 1 <= j <= n,
                n == c@.len(),
                c@ == candidates@,
                ti == instant(c@[i as int].taken),
                -instant_bound() < ti < instant_bound(),
                forall|a: int, b: int| 0 <= a < i && a < b < n ==>
                    !(-CONSENSUS_HOURS < #[trigger] hours_between(instant(c@[a].taken), instant(c@[b].taken)) < CONSENSUS_HOURS),
                forall|b: int| i < b < j ==>
                    !(-CONSENSUS_HOURS < #[trigger] hours_between(instant(c@[i as int].taken), instant(c@[b].taken)) < CONSENSUS_HOURS),
            decreases n - j,
        {
            proof { lemma_instant_bounded(c@[j as int].taken); }
            let h = hours_apart(ti, c[j].taken.seconds());
            if -CONSENSUS_HOURS < h && h < CONSENSUS_HOURS {
                assert(-CONSENSUS_HOURS < hours_between(instant(c@[i as int].taken), instant(c@[j as int].taken)) < CONSENSUS_HOURS);
                assert(spec_corroborated(candidates@)) by {
                    assert(0 <= i < j < candidates@.len());
                    assert(candidates@[i as int] == c@[i as int] && candidates@[j as int] == c@[j as int]);
                }
                return true;
            }
            j = j + 1;
        }
        i = i + 1;
    }
    false
}

/// How far a date can be trusted: low with any hard flag, high with no flag at all
/// and two sources that agree, medium otherwise.
pub open spec fn spec_confidence(c: Seq<Detection>, flags: Seq<Flag>) -> Confidence {
    if exists|i: int| 0 <= i < flags.len() && spec_severity(#[trigger] flags[i]) == Severity::Hard {
        Confidence::Low
    } else if flags.len() == 0 && spec_corroborated(c) {
        Confidence::High
    } else {
        Confidence::Medium
    }
}

/// What confidence means, in terms of the sources and flags themselves: low exactly
/// when some flag is hard; high exactly when there is no flag at all and two of the
/// sources put the date less than a day (24 whole hours) apart; medium otherwise.
pub proof fn law_confidence_rests_on_flags_and_agreement(c: Seq<Detection>, flags: Seq<Flag>)
    ensures
        (spec_confidence(c, flags) == Confidence::Low) <==> (exists|i: int| 0 <= i < flags.len()
            && !(#[trigger] flags[i] is ProviderSpread)),
        (spec_confidence(c, flags) == Confidence::High) <==> (flags.len() == 0 && exists|i: int, j: int|
            0 <= i < j < c.len() && -24 < #[trigger] hours_between(instant(c[i].taken), instant(c[j].taken)) < 24),
{
    if exists|i: int| 0 <= i < flags.len() && !(#[trigger] flags[i] is ProviderSpread) {
        let i = choose|i: int| 0 <= i < flags.len() && !(#[trigger] flags[i] is ProviderSpread);
        assert(spec_severity(flags[i]) == Severity::Hard);
    }
}

/// How far the date chosen for a file can be trusted, from its sources and flags.
pub fn confidence(candidates: &Vec<Detection>, flags: &Vec<Flag>) -> (r: Confidence)
    ensures
        r == spec_confidence(candidates@, flags@),
{
    let mut i: usize = 0;
    while i < flags.len()
        invariant
            i <= flags.len(),
            forall|j: int| 0 <= j < i ==> spec_severity(#[trigger] flags@[j]) != Severity::Hard,
        decreases flags.len() - i,
    {
        if flags[i].severity() == Severity::Hard {
            return Confidence::Low;
        }
        i = i + 1;
    }
    if flags.len() == 0 && corroborated(candidates) {
        return Confidence::High;
    }
    Confidence::Medium
}

// ---------------------------------------------------------------------------
// The files of one folder
// ---------------------------------------------------------------------------
/// What the checks across a folder read of one file: where it is, the date chosen
/// for it and its source, and when its file system says it was written.
#[derive(Debug)]
pub struct EntryFacts {
    pub source: String,
    pub taken: Moment,
    pub provider: Provider,
    pub filesystem: Option<Moment>,
}

/// The folder a file is grouped by: its parent, or the empty path for none.
pub open spec fn folder_key(source: Seq<char>) -> Seq<char> {
    match parent_of(source) {
        Some(p) => p,
        None => ""@,
    }
}

/// The positions, among the first `n` entries, of those in the folder `key`.
pub open spec fn indices_with(e: Seq<EntryFacts>, key: Seq<char>, n: int) -> Seq<int>
    decreases n,
{
    if n <= 0 {
        seq![]
    } else {
        indices_with(e, key, n - 1) + if folder_key(e[n - 1].source@) == key { seq![n - 1] } else { seq![] }
    }
}

/// The positions of the entries in the same folder as the `i`-th, in order.
pub open spec fn folder_of(e: Seq<EntryFacts>, i: int) -> Seq<int> {
    indices_with(e, folder_key(e[i].source@), e.len() as int)
}

/// The flag for a file that shares its date, to the second, with at least five files
/// of its folder (itself counted), with their number.
pub open spec fn identical_part(e: Seq<EntryFacts>, g: Seq<int>, j: int) -> Seq<Flag> {
    let c = count_true(Seq::new(g.len(), |m: int| e[g[m]].taken == e[j].taken));
    if c >= IDENTICAL_CLUSTER_MIN { seq![Flag::IdenticalTimestampCluster { files: c as usize }] } else { seq![] }
}

/// The dates of the files at `g`, as pairs that order by instant.
pub open spec fn taken_pairs(e: Seq<EntryFacts>, g: Seq<int>) -> Seq<(int, int)> {
    Seq::new(g.len(), |m: int| (instant(e[g[m]].taken), 0int))
}

/// The magnitude of an integer.
pub open spec fn magnitude(x: int) -> int {
    if x < 0 { -x } else { x }
}

/// The flag for a file of a folder of at least five whose date lies two years or
/// more from the folder's median date while its file system date does not, with
/// the whole years between.
pub open spec fn far_part(e: Seq<EntryFacts>, g: Seq<int>, j: int) -> Seq<Flag> {
    if g.len() < NEIGHBOUR_MIN {
        seq![]
    } else {
        let median = ascending(taken_pairs(e, g))[(g.len() / 2) as int].0;
        let drift = magnitude(days_between(instant(e[j].taken), median));
        if drift < NEIGHBOUR_DRIFT_DAYS {
            seq![]
        } else {
            match e[j].filesystem {
                None => seq![],
                Some(w) => if magnitude(days_between(instant(w), median)) < NEIGHBOUR_DRIFT_DAYS {
                    seq![Flag::FarFromNeighbours { years: (drift / 365) as i64 }]
                } else {
                    seq![]
                },
            }
        }
    }
}

fn count_same_taken(e: &Vec<EntryFacts>, g: &Vec<usize>, j: usize) -> (r: usize)
    requires
        j < e@.len(),
        forall|m: int| 0 <= m < g@.len() ==> #[trigger] g@[m] < e@.len(),
    ensures
        r == count_true(Seq::new(g@.len(), |m: int| e@[g@[m] as int].taken == e@[j as int].taken)),
{
    let ghost flags = Seq::new(g@.len(), |m: int| e@[g@[m] as int].taken == e@[j as int].taken);
    let mut c: usize = 0;
    let mut m: usize = 0;
    while m < g.len()
        invariant
            m <= g@.len(),
            j < e@.len(),
            forall|x: int| 0 <= x < g@.len() ==> #[trigger] g@[x] < e@.len(),
            flags == Seq::new(g@.len(), |x: int| e@[g@[x] as int].taken == e@[j as int].taken),
            c == count_true(flags.take(m as int)),
            c <= m,
        decreases g@.len() - m,
    {
        proof { lemma_count_true_step(flags, m as int); }
        if e[g[m]].taken == e[j].taken {
            c = c + 1;
        }
        m = m + 1;
    }
    assert(flags.take(g@.len() as int) =~= flags);
    c
}

fn instants_of(e: &Vec<EntryFacts>, g: &Vec<usize>) -> (r: Vec<(i128, u64)>)
    requires
        forall|m: int| 0 <= m < g@.len() ==> #[trigger] g@[m] < e@.len(),
    ensures
        pairs_of(r@) == taken_pairs(e@, Seq::new(g@.len(), |m: int| g@[m] as int)),
{
    let mut out: Vec<(i128, u64)> = Vec::new();
    let mut m: usize = 0;
    while m < g.len()
        invariant
            m <= g@.len(),
            forall|x: int| 0 <= x < g@.len() ==> #[trigger] g@[x] < e@.len(),
            out@.len() == m,
            forall|x: int| 0 <= x < m ==> (#[trigger] out@[x]).0 == instant(e@[g@[x] as int].taken) && out@[x].1 == 0,
        decreases g@.len() - m,
    {
        let t = e[g[m]].taken.seconds();
        out.push((t as i128, 0u64));
        m = m + 1;
    }
    assert(pairs_of(out@) =~= taken_pairs(e@, Seq::new(g@.len(), |m: int| g@[m] as int)));
    out
}

/// The positions of a group as integers.
pub open spec fn as_ints(g: Seq<usize>) -> Seq<int> {
    Seq::new(g.len(), |m: int| g[m] as int)
}

/// The flags an optional flag stands for.
pub open spec fn listed_flag(f: Option<Flag>) -> Seq<Flag> {
    match f {
        Some(x) => seq![x],
        None => seq![],
    }
}

fn identical_flag(e: &Vec<EntryFacts>, g: &Vec<usize>, j: usize) -> (r: Option<Flag>)
    requires
        j < e@.len(),
        forall|m: int| 0 <= m < g@.len() ==> #[trigger] g@[m] < e@.len(),
    ensures
        listed_flag(r) == identical_part(e@, as_ints(g@), j as int),
{
    let c = count_same_taken(e, g, j);
    assert(Seq::new(g@.len(), |m: int| e@[g@[m] as int].taken == e@[j as int].taken)
        =~= Seq::new(as_ints(g@).len(), |m: int| e@[as_ints(g@)[m]].taken == e@[j as int].taken));
    if c >= IDENTICAL_CLUSTER_MIN {
        Some(Flag::IdenticalTimestampCluster { files: c })
    } else {
        None
    }
}

/// The median date of a group, as an instant.
fn group_median(e: &Vec<EntryFacts>, g: &Vec<usize>) -> (r: i64)
    requires
        g@.len() > 0,
        forall|m: int| 0 <= m < g@.len() ==> #[trigger] g@[m] < e@.len(),
    ensures
        r == ascending(taken_pairs(e@, as_ints(g@)))[(g@.len() / 2) as int].0,
        -instant_bound() < r < instant_bound(),
{
    let pairs = instants_of(e, g);
    let ghost s = taken_pairs(e@, as_ints(g@));
    assert(Seq::new(g@.len(), |m: int| g@[m] as int) =~= as_ints(g@));
    let sorted = sort_ascending(pairs);
    proof {
        lemma_ascending_members(s);
        let k = (g@.len() / 2) as int;
        let m = choose|m: int| 0 <= m < s.len() && #[trigger] ascending(s)[k] == s[m];
        lemma_instant_bounded(e@[g@[m] as int].taken);
        assert(pairs_of(sorted@)[k] == ascending(s)[k]);
    }
    let k = g.len() / 2;
    sorted[k].0 as i64
}

fn far_flag(e: &Vec<EntryFacts>, g: &Vec<usize>, median: i64, j: usize) -> (r: Option<Flag>)
    requires
        j < e@.len(),
        g@.len() >= NEIGHBOUR_MIN ==> median == ascending(taken_pairs(e@, as_ints(g@)))[(g@.len() / 2) as int].0,
        -instant_bound() < median < instant_bound(),
    ensures
        listed_flag(r) == far_part(e@, as_ints(g@), j as int),
{
    if g.len() < NEIGHBOUR_MIN {
        return None;
    }
    proof { lemma_instant_bounded(e@[j as int].taken); }
    let days = days_apart(e[j].taken.seconds(), median);
    let drift: i64 = if days < 0 { -days } else { days };
    if drift < NEIGHBOUR_DRIFT_DAYS {
        return None;
    }
    match e[j].filesystem {
        None => None,
        Some(w) => {
            proof { lemma_instant_bounded(w); }
            let away = days_apart(w.seconds(), median);
            let apart: i64 = if away < 0 { -away } else { away };
            if apart < NEIGHBOUR_DRIFT_DAYS {
                Some(Flag::FarFromNeighbours { years: drift / 365 })
            } else {
                None
            }
        },
    }
}

/// The files of a group whose date came from the camera rather than the file
/// system, in the group's order.
pub open spec fn device_of(e: Seq<EntryFacts>, g: Seq<int>) -> Seq<int>
    decreases g.len(),
{
    if g.len() == 0 {
        seq![]
    } else {
        device_of(e, g.drop_last()) + if e[g.last()].provider != Provider::Filesystem { seq![g.last()] } else { seq![] }
    }
}

/// The dates of the files at `d` with their positions, which order them by date and
/// then by position.
pub open spec fn device_pairs(e: Seq<EntryFacts>, d: Seq<int>) -> Seq<(int, int)> {
    Seq::new(d.len(), |m: int| (instant(e[d[m]].taken), d[m]))
}

/// Where a run of dates starting at the first ends: at the first step of more than
/// a month from the `p`-th date on, or at the end.
pub open spec fn run_end(s: Seq<(int, int)>, p: int) -> int
    decreases s.len() - p,
{
    if p >= s.len() || p < 1 {
        s.len() as int
    } else if days_between(s[p].0, s[p - 1].0) > RUN_GAP_DAYS {
        p
    } else {
        run_end(s, p + 1)
    }
}

/// The file system dates of the first `p` files of a run, as pairs that order by
/// instant.
pub open spec fn written_upto(e: Seq<EntryFacts>, s: Seq<(int, int)>, p: int) -> Seq<(int, int)>
    decreases p,
{
    if p <= 0 {
        seq![]
    } else {
        written_upto(e, s, p - 1) + match e[s[p - 1].1].filesystem {
            Some(w) => seq![(instant(w), 0int)],
            None => seq![],
        }
    }
}

/// A run of files counting up from a camera clock that was reset: the earliest
/// camera date of the group sits on the first day of a year; the files that follow
/// it, each less than a month after the one before, are the run, of two files or
/// more; and the median of their file system dates lies more than half a year after
/// the run's last date. The anchor and the positions of the run's files.
pub open spec fn clock_run(e: Seq<EntryFacts>, g: Seq<int>) -> Option<(Moment, Seq<int>)> {
    let d = device_of(e, g);
    if d.len() < 2 {
        None
    } else {
        let s = ascending(device_pairs(e, d));
        let anchor = e[s[0].1].taken;
        let l = run_end(s, 1);
        let w = written_upto(e, s, l);
        if !at_year_start(anchor, RESET_WINDOW_SECONDS as int) || l < 2 || w.len() == 0 {
            None
        } else if days_between(ascending(w)[(w.len() / 2) as int].0, s[l - 1].0) <= SPREAD_DAYS {
            None
        } else {
            Some((anchor, Seq::new(l as nat, |p: int| s[p].1)))
        }
    }
}

/// The flag for a file of a run counting up from a reset clock.
pub open spec fn clock_part(e: Seq<EntryFacts>, g: Seq<int>, j: int) -> Seq<Flag> {
    match clock_run(e, g) {
        Some((anchor, run)) => if run.contains(j) {
            seq![Flag::ClockResetRun { anchor, files: run.len() as usize }]
        } else {
            seq![]
        },
        None => seq![],
    }
}

proof fn lemma_run_end(s: Seq<(int, int)>, p: int)
    requires
        1 <= p,
    ensures
        p <= s.len() ==> p <= run_end(s, p) <= s.len(),
    decreases s.len() - p,
{
    if p < s.len() && days_between(s[p].0, s[p - 1].0) <= RUN_GAP_DAYS {
        lemma_run_end(s, p + 1);
    }
}

fn reset_run(e: &Vec<EntryFacts>, g: &Vec<usize>) -> (r: Option<(Moment, Vec<usize>)>)
    requires
        forall|m: int| 0 <= m < g@.len() ==> #[trigger] g@[m] < e@.len(),
    ensures
        match clock_run(e@, as_ints(g@)) {
            Some((anchor, run)) => r matches Some(x) && x.0 == anchor && as_ints(x.1@) == run,
            None => r is None,
        },
{
    let ghost gi = as_ints(g@);
    let total = e.len();
    let mut device: Vec<usize> = Vec::new();
    let mut m: usize = 0;
    while m < g.len()
        invariant
            m <= g@.len(),
            gi == as_ints(g@),
            forall|x: int| 0 <= x < g@.len() ==> #[trigger] g@[x] < e@.len(),
            as_ints(device@) == device_of(e@, gi.take(m as int)),
            forall|x: int| 0 <= x < device@.len() ==> #[trigger] device@[x] < e@.len(),
        decreases g@.len() - m,
    {
        assert(gi.take(m + 1).drop_last() =~= gi.take(m as int));
        let ghost before = device@;
        if e[g[m]].provider != Provider::Filesystem {
            device.push(g[m]);
            assert(as_ints(device@) =~= as_ints(before) + seq![gi[m as int]]);
        } else {
            assert(as_ints(device@) =~= as_ints(before) + Seq::<int>::empty());
        }
        m = m + 1;
    }
    assert(gi.take(g@.len() as int) =~= gi);
    let ghost d = as_ints(device@);
    if device.len() < 2 {
        return None;
    }
    let mut pairs: Vec<(i128, u64)> = Vec::new();
    let mut k: usize = 0;
    while k < device.len()
        invariant
            k <= device@.len(),
            d == as_ints(device@),
            forall|x: int| 0 <= x < device@.len() ==> #[trigger] device@[x] < e@.len(),
            pairs@.len() == k,
            forall|x: int| 0 <= x < k ==> (#[trigger] pairs@[x]).0 == instant(e@[device@[x] as int].taken)
                && pairs@[x].1 == device@[x],
        decreases device@.len() - k,
    {
        let t = e[device[k]].taken.seconds();
        pairs.push((t as i128, device[k] as u64));
        k = k + 1;
    }
    let ghost dp = device_pairs(e@, d);
    assert(pairs_of(pairs@) =~= dp);
    let sorted = sort_ascending(pairs);
    let ghost s = ascending(dp);
    proof {
        lemma_ascending_members(dp);
        assert forall|x: int| 0 <= x < s.len() implies 0 <= #[trigger] s[x].1 < e@.len()
            && -instant_bound() < s[x].0 < instant_bound() by {
            let y = choose|y: int| 0 <= y < dp.len() && #[trigger] s[x] == dp[y];
            lemma_instant_bounded(e@[d[y]].taken);
        }
        assert(pairs_of(sorted@) == s);
    }
    let n = sorted.len();
    assert(n == s.len());
    let first = sorted[0].1 as usize;
    assert(first as int == s[0].1);
    let anchor = e[first].taken;
    let mut l: usize = 1;
    proof { lemma_run_end(s, 1); }
    let mut going: bool = true;
    while going && l < n
        invariant
            1 <= l <= n,
            n == s.len(),
            pairs_of(sorted@) == s,
            forall|x: int| 0 <= x < s.len() ==> 0 <= #[trigger] s[x].1 < e@.len()
                && -instant_bound() < s[x].0 < instant_bound(),
            total == e@.len(),
            going ==> run_end(s, 1) == run_end(s, l as int),
            !going ==> run_end(s, 1) == l,
        decreases (n - l) * 2 + if going { 1int } else { 0int },
    {
        assert(s[l as int] == pairs_of(sorted@)[l as int]);
        assert(s[l - 1] == pairs_of(sorted@)[l - 1]);
        let gap = days_apart(sorted[l].0 as i64, sorted[l - 1].0 as i64);
        if gap <= RUN_GAP_DAYS {
            l = l + 1;
        } else {
            going = false;
        }
    }
    assert(run_end(s, 1) == l);
    if !starts_year(&anchor, RESET_WINDOW_SECONDS) || l < 2 {
        return None;
    }
    let mut written: Vec<(i128, u64)> = Vec::new();
    let mut run: Vec<usize> = Vec::new();
    let mut p: usize = 0;
    while p < l
        invariant
            p <= l <= n,
            n == s.len(),
            pairs_of(sorted@) == s,
            forall|x: int| 0 <= x < s.len() ==> 0 <= #[trigger] s[x].1 < e@.len()
                && -instant_bound() < s[x].0 < instant_bound(),
            total == e@.len(),
            pairs_of(written@) == written_upto(e@, s, p as int),
            as_ints(run@) == Seq::new(p as nat, |x: int| s[x].1),
            run@.len() == p,
        decreases l - p,
    {
        assert(s[p as int] == pairs_of(sorted@)[p as int]);
        let at = sorted[p].1 as usize;
        assert(at as int == s[p as int].1);
        let ghost before = written@;
        let ghost run_before = run@;
        run.push(at);
        assert forall|x: int| 0 <= x < p + 1 implies #[trigger] as_ints(run@)[x] == s[x].1 by {
            if x < p {
                assert(run@[x] == run_before[x]);
                assert(as_ints(run_before)[x] == s[x].1);
            }
        }
        assert(as_ints(run@) =~= Seq::new((p + 1) as nat, |x: int| s[x].1));
        match e[at].filesystem {
            Some(w) => {
                let t = w.seconds();
                written.push((t as i128, 0u64));
                assert(pairs_of(written@) =~= pairs_of(before) + seq![(instant(w), 0int)]);
            },
            None => {
                assert(pairs_of(written@) =~= pairs_of(before) + Seq::<(int, int)>::empty());
            },
        }
        p = p + 1;
    }
    if written.len() == 0 {
        return None;
    }
    let ghost w = pairs_of(written@);
    let count = written.len();
    let ordered = sort_ascending(written);
    proof {
        lemma_ascending_members(w);
        let k = (w.len() / 2) as int;
        let y = choose|y: int| 0 <= y < w.len() && #[trigger] ascending(w)[k] == w[y];
        lemma_written_bounded(e@, s, l as int, y);
        assert(pairs_of(ordered@)[k] == ascending(w)[k]);
    }
    let reference = ordered[count / 2].0 as i64;
    assert(s[l - 1] == pairs_of(sorted@)[l - 1]);
    let latest = sorted[l - 1].0 as i64;
    if days_apart(reference, latest) <= SPREAD_DAYS {
        return None;
    }
    Some((anchor, run))
}

proof fn lemma_written_bounded(e: Seq<EntryFacts>, s: Seq<(int, int)>, p: int, y: int)
    requires
        0 <= y < written_upto(e, s, p).len(),
        forall|x: int| 0 <= x < s.len() ==> 0 <= #[trigger] s[x].1 < e.len(),
        p <= s.len(),
    ensures
        -instant_bound() < written_upto(e, s, p)[y].0 < instant_bound(),
    decreases p,
{
    if p > 0 {
        let head = written_upto(e, s, p - 1);
        if y < head.len() {
            lemma_written_bounded(e, s, p - 1, y);
        } else {
            match e[s[p - 1].1].filesystem {
                Some(w) => { lemma_instant_bounded(w); },
                None => {},
            }
        }
    }
}

/// The files of a group that carry a camera counter and whose date did not come
/// from their name, in the group's order.
pub open spec fn numbered_of(e: Seq<EntryFacts>, g: Seq<int>) -> Seq<int>
    decreases g.len(),
{
    if g.len() == 0 {
        seq![]
    } else {
        numbered_of(e, g.drop_last()) + if e[g.last()].provider != Provider::Filename
            && spec_counter(e[g.last()].source@) is Some { seq![g.last()] } else { seq![] }
    }
}

/// The camera counter of the `k`-th file, or zero.
pub open spec fn counter_at(e: Seq<EntryFacts>, k: int) -> int {
    match spec_counter(e[k].source@) {
        Some(c) => c as int,
        None => 0,
    }
}

/// Where the `j`-th file stands among the numbered files ordered by counter, then by
/// position: how many come before it.
pub open spec fn counter_rank(e: Seq<EntryFacts>, n: Seq<int>, j: int) -> int {
    count_true(Seq::new(n.len(), |m: int| pair_lt((counter_at(e, n[m]), n[m]), (counter_at(e, j), j)))) as int
}

/// Where the `j`-th file stands among the numbered files ordered by date, equal
/// dates in counter order: how many come before it.
pub open spec fn date_rank(e: Seq<EntryFacts>, n: Seq<int>, j: int) -> int {
    count_true(Seq::new(n.len(), |m: int|
        instant(e[n[m]].taken) < instant(e[j].taken)
            || (instant(e[n[m]].taken) == instant(e[j].taken) && counter_rank(e, n, n[m]) < counter_rank(e, n, j)))) as int
}

/// The flag for a numbered file of a group of at least five numbered files whose
/// place by date lies more than half the group away from its place by counter.
pub open spec fn sequence_part(e: Seq<EntryFacts>, g: Seq<int>, j: int) -> Seq<Flag> {
    let n = numbered_of(e, g);
    if n.len() < SEQUENCE_MIN || !n.contains(j) {
        seq![]
    } else if magnitude(date_rank(e, n, j) - counter_rank(e, n, j)) > n.len() / 2 {
        seq![Flag::SequenceOutlier]
    } else {
        seq![]
    }
}

fn numbered(e: &Vec<EntryFacts>, g: &Vec<usize>) -> (r: (Vec<usize>, Vec<u64>))
    requires
        forall|m: int| 0 <= m < g@.len() ==> #[trigger] g@[m] < e@.len(),
    ensures
        as_ints(r.0@) == numbered_of(e@, as_ints(g@)),
        r.1@.len() == r.0@.len(),
        forall|m: int| 0 <= m < r.0@.len() ==> #[trigger] r.0@[m] < e@.len()
            && r.1@[m] as int == counter_at(e@, r.0@[m] as int),
{
    let ghost gi = as_ints(g@);
    let mut out: Vec<usize> = Vec::new();
    let mut counts: Vec<u64> = Vec::new();
    let mut m: usize = 0;
    while m < g.len()
        invariant
            m <= g@.len(),
            gi == as_ints(g@),
            forall|x: int| 0 <= x < g@.len() ==> #[trigger] g@[x] < e@.len(),
            as_ints(out@) == numbered_of(e@, gi.take(m as int)),
            counts@.len() == out@.len(),
            forall|x: int| 0 <= x < out@.len() ==> #[trigger] out@[x] < e@.len()
                && counts@[x] as int == counter_at(e@, out@[x] as int),
        decreases g@.len() - m,
    {
        assert(gi.take(m + 1).drop_last() =~= gi.take(m as int));
        let ghost before = out@;
        let j = g[m];
        if e[j].provider != Provider::Filename {
            match counter(e[j].source.as_str()) {
                Some(c) => {
                    out.push(j);
                    counts.push(c);
                    assert(as_ints(out@) =~= as_ints(before) + seq![gi[m as int]]);
                },
                None => {
                    assert(as_ints(out@) =~= as_ints(before) + Seq::<int>::empty());
                },
            }
        } else {
            assert(as_ints(out@) =~= as_ints(before) + Seq::<int>::empty());
        }
        m = m + 1;
    }
    assert(gi.take(g@.len() as int) =~= gi);
    (out, counts)
}

fn counter_ranks(n: &Vec<usize>, counts: &Vec<u64>, e: &Vec<EntryFacts>) -> (r: Vec<usize>)
    requires
        counts@.len() == n@.len(),
        forall|m: int| 0 <= m < n@.len() ==> #[trigger] n@[m] < e@.len()
            && counts@[m] as int == counter_at(e@, n@[m] as int),
    ensures
        r@.len() == n@.len(),
        forall|m: int| 0 <= m < n@.len() ==> #[trigger] r@[m] as int == counter_rank(e@, as_ints(n@), n@[m] as int),
{
    let ghost ni = as_ints(n@);
    let mut ranks: Vec<usize> = Vec::new();
    let mut a: usize = 0;
    while a < n.len()
        invariant
            a <= n@.len(),
            ni == as_ints(n@),
            counts@.len() == n@.len(),
            forall|m: int| 0 <= m < n@.len() ==> #[trigger] n@[m] < e@.len()
                && counts@[m] as int == counter_at(e@, n@[m] as int),
            ranks@.len() == a,
            forall|m: int| 0 <= m < a ==> #[trigger] ranks@[m] as int == counter_rank(e@, ni, n@[m] as int),
        decreases n@.len() - a,
    {
        let ghost j = n@[a as int] as int;
        let ghost flags = Seq::new(ni.len(), |m: int| pair_lt((counter_at(e@, ni[m]), ni[m]), (counter_at(e@, j), j)));
        let mut c: usize = 0;
        let mut b: usize = 0;
        while b < n.len()
            invariant
                a < n@.len(),
                b <= n@.len(),
                ni == as_ints(n@),
                j == n@[a as int] as int,
                counts@.len() == n@.len(),
                forall|m: int| 0 <= m < n@.len() ==> #[trigger] n@[m] < e@.len()
                    && counts@[m] as int == counter_at(e@, n@[m] as int),
                flags == Seq::new(ni.len(), |m: int| pair_lt((counter_at(e@, ni[m]), ni[m]), (counter_at(e@, j), j))),
                c == count_true(flags.take(b as int)),
                c <= b,
            decreases n@.len() - b,
        {
            proof { lemma_count_true_step(flags, b as int); }
            if counts[b] < counts[a] || (counts[b] == counts[a] && n[b] < n[a]) {
                c = c + 1;
            }
            b = b + 1;
        }
        assert(flags.take(n@.len() as int) =~= flags);
        ranks.push(c);
        a = a + 1;
    }
    ranks
}

fn date_ranks(n: &Vec<usize>, ranks: &Vec<usize>, e: &Vec<EntryFacts>) -> (r: Vec<usize>)
    requires
        ranks@.len() == n@.len(),
        forall|m: int| 0 <= m < n@.len() ==> #[trigger] n@[m] < e@.len(),
        forall|m: int| 0 <= m < n@.len() ==> #[trigger] ranks@[m] as int == counter_rank(e@, as_ints(n@), n@[m] as int),
    ensures
        r@.len() == n@.len(),
        forall|m: int| 0 <= m < n@.len() ==> #[trigger] r@[m] as int == date_rank(e@, as_ints(n@), n@[m] as int),
{
    let ghost ni = as_ints(n@);
    let mut out: Vec<usize> = Vec::new();
    let mut a: usize = 0;
    while a < n.len()
        invariant
            a <= n@.len(),
            ni == as_ints(n@),
            ranks@.len() == n@.len(),
            forall|m: int| 0 <= m < n@.len() ==> #[trigger] n@[m] < e@.len(),
            forall|m: int| 0 <= m < n@.len() ==> #[trigger] ranks@[m] as int == counter_rank(e@, ni, n@[m] as int),
            out@.len() == a,
            forall|m: int| 0 <= m < a ==> #[trigger] out@[m] as int == date_rank(e@, ni, n@[m] as int),
        decreases n@.len() - a,
    {
        let ghost j = n@[a as int] as int;
        let ghost flags = Seq::new(ni.len(), |m: int|
            instant(e@[ni[m]].taken) < instant(e@[j].taken)
                || (instant(e@[ni[m]].taken) == instant(e@[j].taken) && counter_rank(e@, ni, ni[m]) < counter_rank(e@, ni, j)));
        let ta = e[n[a]].taken.seconds();
        let mut c: usize = 0;
        let mut b: usize = 0;
        while b < n.len()
            invariant
                a < n@.len(),
                b <= n@.len(),
                ni == as_ints(n@),
                j == n@[a as int] as int,
                ta == instant(e@[j].taken),
                ranks@.len() == n@.len(),
                forall|m: int| 0 <= m < n@.len() ==> #[trigger] n@[m] < e@.len(),
                forall|m: int| 0 <= m < n@.len() ==> #[trigger] ranks@[m] as int == counter_rank(e@, ni, n@[m] as int),
                flags == Seq::new(ni.len(), |m: int|
                    instant(e@[ni[m]].taken) < instant(e@[j].taken)
                        || (instant(e@[ni[m]].taken) == instant(e@[j].taken) && counter_rank(e@, ni, ni[m]) < counter_rank(e@, ni, j))),
                c == count_true(flags.take(b as int)),
                c <= b,
            decreases n@.len() - b,
        {
            proof { lemma_count_true_step(flags, b as int); }
            let tb = e[n[b]].taken.seconds();
            if tb < ta || (tb == ta && ranks[b] < ranks[a]) {
                c = c + 1;
            }
            b = b + 1;
        }
        assert(flags.take(n@.len() as int) =~= flags);
        out.push(c);
        a = a + 1;
    }
    out
}

/// For each numbered file of a group, whether it breaks the counter order.
fn sequence_outliers(e: &Vec<EntryFacts>, g: &Vec<usize>) -> (r: (Vec<usize>, Vec<bool>))
    requires
        forall|m: int| 0 <= m < g@.len() ==> #[trigger] g@[m] < e@.len(),
    ensures
        as_ints(r.0@) == numbered_of(e@, as_ints(g@)),
        r.1@.len() == r.0@.len(),
        forall|m: int| 0 <= m < r.0@.len() ==> #[trigger] r.1@[m] == (sequence_part(e@, as_ints(g@), r.0@[m] as int) == seq![Flag::SequenceOutlier]),
{
    let (n, counts) = numbered(e, g);
    let ghost ni = as_ints(n@);
    let ranks = counter_ranks(&n, &counts, e);
    let dates = date_ranks(&n, &ranks, e);
    let tolerance = n.len() / 2;
    let mut out: Vec<bool> = Vec::new();
    let mut m: usize = 0;
    while m < n.len()
        invariant
            m <= n@.len(),
            ni == as_ints(n@),
            ni == numbered_of(e@, as_ints(g@)),
            tolerance == n@.len() / 2,
            ranks@.len() == n@.len(),
            dates@.len() == n@.len(),
            forall|x: int| 0 <= x < n@.len() ==> #[trigger] ranks@[x] as int == counter_rank(e@, ni, n@[x] as int),
            forall|x: int| 0 <= x < n@.len() ==> #[trigger] dates@[x] as int == date_rank(e@, ni, n@[x] as int),
            out@.len() == m,
            forall|x: int| 0 <= x < m ==> #[trigger] out@[x] == (sequence_part(e@, as_ints(g@), n@[x] as int) == seq![Flag::SequenceOutlier]),
        decreases n@.len() - m,
    {
        let a = ranks[m];
        let b = dates[m];
        let apart: usize = if a > b { a - b } else { b - a };
        let flagged = n.len() >= SEQUENCE_MIN && apart > tolerance;
        proof {
            assert(ni[m as int] == n@[m as int] as int);
            assert(ni.contains(n@[m as int] as int));
            if n.len() >= SEQUENCE_MIN && apart <= tolerance {
                assert(seq![Flag::SequenceOutlier].len() == 1 && Seq::<Flag>::empty().len() == 0);
            }
            if n.len() < SEQUENCE_MIN {
                assert(seq![Flag::SequenceOutlier].len() == 1 && Seq::<Flag>::empty().len() == 0);
            }
        }
        out.push(flagged);
        m = m + 1;
    }
    (n, out)
}

/// The flags the folder of the `i`-th file gives it: a cluster of identical dates,
/// a run from a reset clock, a date far from the folder's, a break in the counter
/// order, in that order.
pub open spec fn spec_cross_flags(e: Seq<EntryFacts>, i: int) -> Seq<Flag> {
    let g = folder_of(e, i);
    identical_part(e, g, i) + clock_part(e, g, i) + far_part(e, g, i) + sequence_part(e, g, i)
}

/// What one of two joined lists holds, one of them holds.
proof fn lemma_joined_holds(a: Seq<Flag>, b: Seq<Flag>, x: Flag)
    requires
        (a + b).contains(x),
    ensures
        a.contains(x) || b.contains(x),
{
    let k = choose|k: int| 0 <= k < (a + b).len() && (a + b)[k] == x;
    if k < a.len() {
        assert(a[k] == x);
    } else {
        assert(b[k - a.len()] == x);
    }
}

/// A file is only called far from its neighbours in a folder of at least five whose
/// median date lies two years (730 days) or more from its own date, and only when its
/// file system time is known and lies less than 730 days from that median: a file
/// whose file system also says it is old keeps its date unflagged.
pub proof fn law_a_far_date_needs_a_near_file_time(e: Seq<EntryFacts>, i: int, years: i64)
    requires
        0 <= i < e.len(),
        spec_cross_flags(e, i).contains(Flag::FarFromNeighbours { years }),
    ensures
        folder_of(e, i).len() >= 5,
        ({
            let g = folder_of(e, i);
            let median = ascending(taken_pairs(e, g))[(g.len() / 2) as int].0;
            &&& !(-730 < days_between(instant(e[i].taken), median) < 730)
            &&& e[i].filesystem matches Some(w) && -730 < days_between(instant(w), median) < 730
        }),
{
    let g = folder_of(e, i);
    let x = Flag::FarFromNeighbours { years };
    let p1 = identical_part(e, g, i);
    let p2 = clock_part(e, g, i);
    let p3 = far_part(e, g, i);
    let p4 = sequence_part(e, g, i);
    assert(spec_cross_flags(e, i) == p1 + p2 + p3 + p4);
    lemma_joined_holds(p1 + p2 + p3, p4, x);
    if (p1 + p2 + p3).contains(x) {
        lemma_joined_holds(p1 + p2, p3, x);
        if (p1 + p2).contains(x) {
            lemma_joined_holds(p1, p2, x);
            if p1.contains(x) {
                let k = choose|k: int| 0 <= k < p1.len() && p1[k] == x;
            }
            if p2.contains(x) {
                let k = choose|k: int| 0 <= k < p2.len() && p2[k] == x;
            }
        }
    } else {
        let k = choose|k: int| 0 <= k < p4.len() && p4[k] == x;
    }
    assert(p3.contains(x));
    let k = choose|k: int| 0 <= k < p3.len() && p3[k] == x;
}

/// And the other way: a file of a folder of at least five whose date lies 730 days
/// or more from the folder's median date, while its file system time lies less than
/// 730 days from it, is called far from its neighbours, by the whole years (of 365
/// days) between its date and the median.
pub proof fn law_a_far_date_with_a_near_file_time_is_flagged(e: Seq<EntryFacts>, i: int)
    requires
        0 <= i < e.len(),
        folder_of(e, i).len() >= 5,
        ({
            let g = folder_of(e, i);
            let median = ascending(taken_pairs(e, g))[(g.len() / 2) as int].0;
            &&& !(-730 < days_between(instant(e[i].taken), median) < 730)
            &&& e[i].filesystem matches Some(w) && -730 < days_between(instant(w), median) < 730
        }),
    ensures
        ({
            let g = folder_of(e, i);
            let median = ascending(taken_pairs(e, g))[(g.len() / 2) as int].0;
            let days = days_between(instant(e[i].taken), median);
            let away = if days < 0 { -days } else { days };
            spec_cross_flags(e, i).contains(Flag::FarFromNeighbours { years: (away / 365) as i64 })
        }),
{
    let g = folder_of(e, i);
    let median = ascending(taken_pairs(e, g))[(g.len() / 2) as int].0;
    let days = days_between(instant(e[i].taken), median);
    let away = if days < 0 { -days } else { days };
    let x = Flag::FarFromNeighbours { years: (away / 365) as i64 };
    let p1 = identical_part(e, g, i);
    let p2 = clock_part(e, g, i);
    let p3 = far_part(e, g, i);
    let p4 = sequence_part(e, g, i);
    assert(p3 == seq![x]);
    let all = p1 + p2 + p3 + p4;
    assert(spec_cross_flags(e, i) == all);
    assert(all[(p1.len() + p2.len()) as int] == x);
}

/// A file is said to share its date with a cluster exactly when at least five files of
/// its folder (itself counted) carry its date to the second, and the flag counts them.
pub proof fn law_a_cluster_is_five_identical_dates_or_more(e: Seq<EntryFacts>, i: int, files: usize)
    requires
        0 <= i < e.len(),
        folder_of(e, i).len() <= usize::MAX,
    ensures
        spec_cross_flags(e, i).contains(Flag::IdenticalTimestampCluster { files }) <==> ({
            let g = folder_of(e, i);
            let same = count_true(Seq::new(g.len(), |m: int| e[g[m]].taken == e[i].taken));
            same >= 5 && files == same
        }),
{
    let g = folder_of(e, i);
    let x = Flag::IdenticalTimestampCluster { files };
    let p1 = identical_part(e, g, i);
    let p2 = clock_part(e, g, i);
    let p3 = far_part(e, g, i);
    let p4 = sequence_part(e, g, i);
    let all = p1 + p2 + p3 + p4;
    assert(spec_cross_flags(e, i) == all);
    if all.contains(x) {
        lemma_joined_holds(p1 + p2 + p3, p4, x);
        if (p1 + p2 + p3).contains(x) {
            lemma_joined_holds(p1 + p2, p3, x);
            if (p1 + p2).contains(x) {
                lemma_joined_holds(p1, p2, x);
                if p2.contains(x) {
                    let k = choose|k: int| 0 <= k < p2.len() && p2[k] == x;
                }
                if p1.contains(x) {
                    let k = choose|k: int| 0 <= k < p1.len() && p1[k] == x;
                }
            } else {
                let k = choose|k: int| 0 <= k < p3.len() && p3[k] == x;
            }
        } else {
            let k = choose|k: int| 0 <= k < p4.len() && p4[k] == x;
        }
    }
    let same = count_true(Seq::new(g.len(), |m: int| e[g[m]].taken == e[i].taken));
    crate::selection::lemma_count_true_bound(Seq::new(g.len(), |m: int| e[g[m]].taken == e[i].taken));
    if same >= 5 && files == same {
        assert(p1 == seq![x]);
        assert(all[0] == x);
    }
}

fn folder_key_of(source: &str) -> (r: Vec<char>)
    ensures
        r@ == folder_key(source@),
{
    match parent(source) {
        Some(p) => chars_of(p.as_str()),
        None => {
            proof { reveal_strlit(""); }
            let v: Vec<char> = Vec::new();
            assert(v@ =~= ""@);
            v
        },
    }
}

fn listed_in(v: &Vec<usize>, j: usize) -> (b: bool)
    ensures
        b == as_ints(v@).contains(j as int),
{
    let mut k: usize = 0;
    while k < v.len()
        invariant
            k <= v@.len(),
            forall|x: int| 0 <= x < k ==> v@[x] != j,
        decreases v@.len() - k,
    {
        if v[k] == j {
            assert(as_ints(v@)[k as int] == j as int);
            return true;
        }
        k = k + 1;
    }
    proof {
        if as_ints(v@).contains(j as int) {
            let x = choose|x: int| 0 <= x < as_ints(v@).len() && as_ints(v@)[x] == j as int;
            assert(v@[x] == j);
        }
    }
    false
}

/// The flags of one member of a group, from what the group settled.
fn member_flags(
    e: &Vec<EntryFacts>,
    g: &Vec<usize>,
    j: usize,
    median: i64,
    run: &Option<(Moment, Vec<usize>)>,
    numbered: &Vec<usize>,
    outliers: &Vec<bool>,
) -> (r: Vec<Flag>)
    requires
        j < e@.len(),
        as_ints(g@).contains(j as int),
        forall|m: int| 0 <= m < g@.len() ==> #[trigger] g@[m] < e@.len(),
        g@.len() >= NEIGHBOUR_MIN ==> median == ascending(taken_pairs(e@, as_ints(g@)))[(g@.len() / 2) as int].0,
        -instant_bound() < median < instant_bound(),
        match clock_run(e@, as_ints(g@)) {
            Some((anchor, members)) => run matches Some(x) && x.0 == anchor && as_ints(x.1@) == members,
            None => run is None,
        },
        as_ints(numbered@) == numbered_of(e@, as_ints(g@)),
        outliers@.len() == numbered@.len(),
        forall|m: int| 0 <= m < numbered@.len() ==> #[trigger] outliers@[m]
            == (sequence_part(e@, as_ints(g@), numbered@[m] as int) == seq![Flag::SequenceOutlier]),
    ensures
        r@ == identical_part(e@, as_ints(g@), j as int) + clock_part(e@, as_ints(g@), j as int)
            + far_part(e@, as_ints(g@), j as int) + sequence_part(e@, as_ints(g@), j as int),
{
    let ghost gi = as_ints(g@);
    let mut flags: Vec<Flag> = Vec::new();
    match identical_flag(e, g, j) {
        Some(f) => flags.push(f),
        None => {},
    }
    let ghost one = flags@;
    assert(one =~= identical_part(e@, gi, j as int));
    match run {
        Some(x) => {
            if listed_in(&x.1, j) {
                flags.push(Flag::ClockResetRun { anchor: x.0, files: x.1.len() });
                assert(flags@ =~= one + clock_part(e@, gi, j as int));
            } else {
                assert(flags@ =~= one + clock_part(e@, gi, j as int));
            }
        },
        None => {
            assert(flags@ =~= one + clock_part(e@, gi, j as int));
        },
    }
    let ghost two = flags@;
    match far_flag(e, g, median, j) {
        Some(f) => flags.push(f),
        None => {},
    }
    assert(flags@ =~= two + far_part(e@, gi, j as int));
    let ghost three = flags@;
    let mut k: usize = 0;
    let mut found: bool = false;
    while k < numbered.len() && !found
        invariant
            k <= numbered@.len(),
            found ==> k < numbered@.len() && numbered@[k as int] == j,
            !found ==> forall|x: int| 0 <= x < k ==> numbered@[x] != j,
        decreases (numbered@.len() - k) * 2 + if found { 0int } else { 1int },
    {
        if numbered[k] == j {
            found = true;
        } else {
            k = k + 1;
        }
    }
    proof {
        if !found {
            if numbered_of(e@, gi).contains(j as int) {
                let x = choose|x: int| 0 <= x < numbered_of(e@, gi).len() && numbered_of(e@, gi)[x] == j as int;
                assert(as_ints(numbered@)[x] == numbered@[x] as int);
            }
        }
    }
    if found && outliers[k] {
        flags.push(Flag::SequenceOutlier);
    }
    proof {
        if found {
            assert(numbered@[k as int] == j);
            let sp = sequence_part(e@, gi, j as int);
            assert(sp.len() == 0 || sp =~= seq![Flag::SequenceOutlier]);
        }
    }
    assert(flags@ =~= three + sequence_part(e@, gi, j as int));
    flags
}

proof fn lemma_indices_with(e: Seq<EntryFacts>, key: Seq<char>, n: int)
    requires
        0 <= n <= e.len(),
    ensures
        forall|m: int| 0 <= m < indices_with(e, key, n).len() ==> {
            let j = #[trigger] indices_with(e, key, n)[m];
            0 <= j < n && folder_key(e[j].source@) == key
        },
        forall|j: int| 0 <= j < n && folder_key(e[j].source@) == key ==> #[trigger] indices_with(e, key, n).contains(j),
    decreases n,
{
    if n > 0 {
        lemma_indices_with(e, key, n - 1);
        let before = indices_with(e, key, n - 1);
        let now = indices_with(e, key, n);
        assert forall|j: int| 0 <= j < n && folder_key(e[j].source@) == key implies #[trigger] now.contains(j) by {
            if j < n - 1 {
                assert(before.contains(j));
                let x = choose|x: int| 0 <= x < before.len() && before[x] == j;
                assert(now[x] == j);
            } else {
                assert(now[before.len() as int] == j);
            }
        }
    }
}

/// For each file, the flags that the other files of its folder give it: a cluster
/// of identical dates, a run counting up from a reset clock, a date far from the
/// rest of the folder, a break in the folder's camera counter order.
pub fn cross_file_flags(entries: &Vec<EntryFacts>) -> (r: Vec<Vec<Flag>>)
    ensures
        r@.len() == entries@.len(),
        forall|i: int| 0 <= i < entries@.len() ==> (#[trigger] r@[i])@ == spec_cross_flags(entries@, i),
{
    let e = entries;
    let n = e.len();
    let mut keys: Vec<Vec<char>> = Vec::new();
    let mut out: Vec<Vec<Flag>> = Vec::new();
    let mut assigned: Vec<bool> = Vec::new();
    let mut k: usize = 0;
    while k < n
        invariant
            k <= n,
            n == e@.len(),
            keys@.len() == k,
            out@.len() == k,
            assigned@.len() == k,
            forall|x: int| 0 <= x < k ==> (#[trigger] keys@[x])@ == folder_key(e@[x].source@),
            forall|x: int| 0 <= x < k ==> !(#[trigger] assigned@[x]),
        decreases n - k,
    {
        keys.push(folder_key_of(e[k].source.as_str()));
        out.push(Vec::new());
        assigned.push(false);
        k = k + 1;
    }
    let mut i: usize = 0;
    while i < n
        invariant
            i <= n,
            n == e@.len(),
            keys@.len() == n,
            out@.len() == n,
            assigned@.len() == n,
            forall|x: int| 0 <= x < n ==> (#[trigger] keys@[x])@ == folder_key(e@[x].source@),
            forall|x: int| 0 <= x < n ==> (#[trigger] assigned@[x]
                <==> exists|y: int| 0 <= y < i && folder_key(e@[y].source@) == folder_key(e@[x].source@)),
            forall|x: int| 0 <= x < n && #[trigger] assigned@[x] ==> out@[x]@ == spec_cross_flags(e@, x),
        decreases n - i,
    {
        if !assigned[i] {
            let ghost key = folder_key(e@[i as int].source@);
            let mut g: Vec<usize> = Vec::new();
            let mut j: usize = 0;
            while j < n
                invariant
                    j <= n,
                    i < n,
                    n == e@.len(),
                    keys@.len() == n,
                    key == folder_key(e@[i as int].source@),
                    forall|x: int| 0 <= x < n ==> (#[trigger] keys@[x])@ == folder_key(e@[x].source@),
                    as_ints(g@) == indices_with(e@, key, j as int),
                    forall|x: int| 0 <= x < g@.len() ==> #[trigger] g@[x] < j,
                decreases n - j,
            {
                let ghost before = g@;
                if same_chars(&keys[j], &keys[i]) {
                    g.push(j);
                    assert(as_ints(g@) =~= as_ints(before) + seq![j as int]);
                } else {
                    assert(as_ints(g@) =~= as_ints(before) + Seq::<int>::empty());
                }
                j = j + 1;
            }
            let ghost gi = as_ints(g@);
            assert(gi == folder_of(e@, i as int));
            proof { lemma_indices_with(e@, key, n as int); }
            let median: i64 = if g.len() > 0 { group_median(e, &g) } else { 0 };
            let run = reset_run(e, &g);
            let (numbered, outliers) = sequence_outliers(e, &g);
            let mut m: usize = 0;
            while m < g.len()
                invariant
                    m <= g@.len(),
                    i < n,
                    n == e@.len(),
                    out@.len() == n,
                    assigned@.len() == n,
                    keys@.len() == n,
                    gi == as_ints(g@),
                    gi == indices_with(e@, key, n as int),
                    key == folder_key(e@[i as int].source@),
                    forall|x: int| 0 <= x < g@.len() ==> #[trigger] g@[x] < n,
                    forall|x: int| 0 <= x < gi.len() ==> {
                        let y = #[trigger] gi[x];
                        0 <= y < n && folder_key(e@[y].source@) == key
                    },
                    forall|y: int| 0 <= y < n && folder_key(e@[y].source@) == key ==> #[trigger] gi.contains(y),
                    g@.len() >= NEIGHBOUR_MIN ==> median == ascending(taken_pairs(e@, gi))[(g@.len() / 2) as int].0,
                    -instant_bound() < median < instant_bound(),
                    match clock_run(e@, gi) {
                        Some((anchor, members)) => run matches Some(x) && x.0 == anchor && as_ints(x.1@) == members,
                        None => run is None,
                    },
                    as_ints(numbered@) == numbered_of(e@, gi),
                    outliers@.len() == numbered@.len(),
                    forall|x: int| 0 <= x < numbered@.len() ==> #[trigger] outliers@[x]
                        == (sequence_part(e@, gi, numbered@[x] as int) == seq![Flag::SequenceOutlier]),
                    forall|x: int| 0 <= x < n ==> (#[trigger] assigned@[x]
                        <==> (exists|y: int| 0 <= y < i && folder_key(e@[y].source@) == folder_key(e@[x].source@))
                            || (folder_key(e@[x].source@) == key && exists|z: int| 0 <= z < m && gi[z] == x)),
                    forall|x: int| 0 <= x < n && #[trigger] assigned@[x] ==> out@[x]@ == spec_cross_flags(e@, x),
                decreases g@.len() - m,
            {
                let at = g[m];
                assert(gi[m as int] == at as int);
                assert(gi.contains(at as int));
                assert(folder_of(e@, at as int) == gi);
                let flags = member_flags(e, &g, at, median, &run, &numbered, &outliers);
                out.set(at, flags);
                assigned.set(at, true);
                m = m + 1;
            }
            proof {
                assert forall|x: int| 0 <= x < n implies (#[trigger] assigned@[x]
                    <==> exists|y: int| 0 <= y < i + 1 && folder_key(e@[y].source@) == folder_key(e@[x].source@)) by {
                    if folder_key(e@[x].source@) == key {
                        assert(gi.contains(x));
                        let z = choose|z: int| 0 <= z < gi.len() && gi[z] == x;
                        assert(exists|z: int| 0 <= z < g@.len() && gi[z] == x);
                    }
                    if exists|z: int| 0 <= z < g@.len() && gi[z] == x {
                        let z = choose|z: int| 0 <= z < g@.len() && gi[z] == x;
                        assert(folder_key(e@[gi[z]].source@) == key);
                    }
                }
            }
        } else {
            proof {
                assert forall|x: int| 0 <= x < n implies (#[trigger] assigned@[x]
                    <==> exists|y: int| 0 <= y < i + 1 && folder_key(e@[y].source@) == folder_key(e@[x].source@)) by {
                    if folder_key(e@[i as int].source@) == folder_key(e@[x].source@) {
                        let y = choose|y: int| 0 <= y < i && folder_key(e@[y].source@) == folder_key(e@[i as int].source@);
                        assert(folder_key(e@[y].source@) == folder_key(e@[x].source@));
                    }
                }
            }
        }
        i = i + 1;
    }
    proof {
        assert forall|x: int| 0 <= x < n implies (#[trigger] out@[x])@ == spec_cross_flags(entries@, x) by {
            assert(folder_key(e@[x].source@) == folder_key(e@[x].source@));
            assert(assigned@[x]);
        }
    }
    out
}

// ---------------------------------------------------------------------------
// Words for a flag
// ---------------------------------------------------------------------------
/// The decimal digits of an integer, with a minus sign before a negative one.
pub open spec fn signed_decimal(i: int) -> Seq<char> {
    if i < 0 { seq!['-'] + decimal((-i) as nat) } else { decimal(i as nat) }
}

fn signed_decimal_of(i: i64) -> (r: Vec<char>)
    ensures
        r@ == signed_decimal(i as int),
{
    if i < 0 {
        let magnitude: u64 = (-(i as i128)) as u64;
        let digits = decimal_of(magnitude);
        let mut out: Vec<char> = Vec::new();
        out.push('-');
        extend(&mut out, &digits);
        assert(out@ =~= seq!['-'] + decimal((-i) as nat));
        out
    } else {
        decimal_of(i as u64)
    }
}

/// How the anchor of a run is written.
pub const ANCHOR_PATTERN: &'static str = "%Y-%m-%d %H:%M";

/// What a report says of a flag.
pub open spec fn flag_words(f: Flag) -> Seq<char> {
    match f {
        Flag::CameraEpoch => "sits on a camera factory-reset date"@,
        Flag::FutureDate => "lies in the future"@,
        Flag::TakenAfterFileWrite => "is later than the file was written"@,
        Flag::ProviderSpread { days } => "sources disagree by "@ + signed_decimal(days as int) + " days"@,
        Flag::ClockResetRun { anchor, files } => "part of a "@ + decimal(files as nat) + match strftime_text(
            anchor.year, anchor.month, anchor.day, anchor.hour, anchor.minute, anchor.second, ANCHOR_PATTERN@,
        ) {
            Some(t) => "-file run counting up from "@ + t,
            None => "-file run counting up from a reset clock"@,
        },
        Flag::IdenticalTimestampCluster { files } => "shared to the second with "@ + decimal(files as nat) + " files"@,
        Flag::SequenceOutlier => "breaks the camera counter order of its folder"@,
        Flag::FarFromNeighbours { years } => signed_decimal(years as int) + " years away from the rest of its folder"@,
    }
}

impl Flag {
    /// What a report says of the flag.
    pub fn describe(&self) -> (r: String)
        ensures
            r@ == flag_words(*self),
    {
        let mut out: Vec<char> = Vec::new();
        match self {
            Flag::CameraEpoch => extend_str(&mut out, "sits on a camera factory-reset date"),
            Flag::FutureDate => extend_str(&mut out, "lies in the future"),
            Flag::TakenAfterFileWrite => extend_str(&mut out, "is later than the file was written"),
            Flag::ProviderSpread { days } => {
                extend_str(&mut out, "sources disagree by ");
                let d = signed_decimal_of(*days);
                extend(&mut out, &d);
                extend_str(&mut out, " days");
            },
            Flag::ClockResetRun { anchor, files } => {
                extend_str(&mut out, "part of a ");
                let d = decimal_of(*files as u64);
                extend(&mut out, &d);
                match strftime(anchor, ANCHOR_PATTERN) {
                    Some(t) => {
                        extend_str(&mut out, "-file run counting up from ");
                        extend_str(&mut out, t.as_str());
                    },
                    None => extend_str(&mut out, "-file run counting up from a reset clock"),
                }
            },
            Flag::IdenticalTimestampCluster { files } => {
                extend_str(&mut out, "shared to the second with ");
                let d = decimal_of(*files as u64);
                extend(&mut out, &d);
                extend_str(&mut out, " files");
            },
            Flag::SequenceOutlier => extend_str(&mut out, "breaks the camera counter order of its folder"),
            Flag::FarFromNeighbours { years } => {
                let d = signed_decimal_of(*years);
                extend(&mut out, &d);
                extend_str(&mut out, " years away from the rest of its folder");
            },
        }
        assert(out@ =~= flag_words(*self));
        string_of(&out)
    }
}

} // verus!
