//! Where a date comes from: the sources that can be asked, how they are trusted, and
//! which of their answers is chosen.
use vstd::prelude::*;
use crate::moment::{hours_apart, hours_between, instant, instant_bound, lemma_instant_bounded, Moment};
use crate::model::{first_from, lemma_first_from, position_of};
use crate::naming::opt_chars;
use crate::suspect::{date_flags, entry_flags, spec_date_flags, spec_entry_flags, Flag, CONSENSUS_HOURS};
use crate::ai::prompt::Reading;
use crate::text::owned;

pub mod exif;
pub mod filename;
pub mod filesystem;
pub mod gps;
pub mod media;
pub mod takeout;
pub mod xmp;
pub mod vision;
pub mod windows;

verus! {

/// How far a source is trusted when sources disagree.
pub open spec fn spec_trust_rank(p: Provider) -> int {
    match p {
        Provider::Exif | Provider::Media => 40,
        Provider::Filename => 30,
        Provider::Vision => 25,
        Provider::Filesystem => 10,
    }
}

/// Where a source stands in the order of the sources: the order they are declared
/// in, which is the order they are listed and compared in.
pub open spec fn provider_order(p: Provider) -> int {
    match p {
        Provider::Filename => 0,
        Provider::Exif => 1,
        Provider::Media => 2,
        Provider::Vision => 3,
        Provider::Filesystem => 4,
    }
}

/// A source of the date a picture was taken.
#[derive(Debug, Clone, Copy, PartialEq, Eq, Structural, Hash, PartialOrd, Ord)]
pub enum Provider {
    Filename,
    Exif,
    Media,
    Vision,
    Filesystem,
}

/// The name of a source in reports and options.
pub open spec fn label_of(p: Provider) -> Seq<char> {
    match p {
        Provider::Filename => "filename"@,
        Provider::Exif => "exif"@,
        Provider::Media => "media"@,
        Provider::Vision => "vision"@,
        Provider::Filesystem => "filesystem"@,
    }
}

impl Provider {
    /// Every source, in the order they are tried.
    pub fn all() -> (r: [Provider; 5])
        ensures
            r@ == seq![Provider::Filename, Provider::Exif, Provider::Media, Provider::Vision, Provider::Filesystem],
    {
        let r = [Provider::Filename, Provider::Exif, Provider::Media, Provider::Vision, Provider::Filesystem];
        assert(r@ =~= seq![Provider::Filename, Provider::Exif, Provider::Media, Provider::Vision, Provider::Filesystem]);
        r
    }

    /// The sources asked when nobody says otherwise: all but the one that needs a model.
    pub fn defaults() -> (r: [Provider; 4])
        ensures
            r@ == seq![Provider::Filename, Provider::Exif, Provider::Media, Provider::Filesystem],
    {
        let r = [Provider::Filename, Provider::Exif, Provider::Media, Provider::Filesystem];
        assert(r@ =~= seq![Provider::Filename, Provider::Exif, Provider::Media, Provider::Filesystem]);
        r
    }

    /// The name of the source in reports and options.
    pub fn label(self) -> (r: &'static str)
        ensures
            r@ == label_of(self),
    {
        match self {
            Provider::Filename => "filename",
            Provider::Exif => "exif",
            Provider::Media => "media",
            Provider::Vision => "vision",
            Provider::Filesystem => "filesystem",
        }
    }

    /// Whether asking this source needs the vision model.
    pub fn needs_model(self) -> (b: bool)
        ensures
            b == (self == Provider::Vision),
    {
        match self {
            Provider::Vision => true,
            _ => false,
        }
    }

    /// How far the source is trusted when sources disagree: the camera's own record
    /// most, then the file name, the vision model, and the file system least.
    pub fn trust_rank(self) -> (r: i64)
        ensures
            r == spec_trust_rank(self),
    {
        match self {
            Provider::Exif | Provider::Media => 40,
            Provider::Filename => 30,
            Provider::Vision => 25,
            Provider::Filesystem => 10,
        }
    }
}

/// A date one source gave, with what it read it from.
#[derive(Debug, Clone, PartialEq, Eq)]
pub struct Detection {
    pub provider: Provider,
    pub info: Option<String>,
    pub taken: Moment,
}

/// How the date of a file is chosen among its sources.
#[derive(Debug, Clone, Copy, PartialEq, Eq, Structural)]
pub enum Strategy {
    Smart,
    Oldest,
    Priority,
}

impl Default for Strategy {
    fn default() -> (r: Strategy)
        ensures
            r == Strategy::Smart,
    {
        Strategy::Smart
    }
}

impl Strategy {
    /// The name of the strategy in reports and options.
    pub fn label(self) -> (r: &'static str)
        ensures
            r@ == match self {
                Strategy::Smart => "smart"@,
                Strategy::Oldest => "oldest"@,
                Strategy::Priority => "priority"@,
            },
    {
        match self {
            Strategy::Smart => "smart",
            Strategy::Oldest => "oldest",
            Strategy::Priority => "priority",
        }
    }
}

/// Which sources to ask, and how to choose among their answers.
#[derive(Debug, Clone, PartialEq, Eq)]
pub struct DetectOptions {
    pub providers: Vec<Provider>,
    pub strategy: Strategy,
}

impl Default for DetectOptions {
    fn default() -> (r: DetectOptions)
        ensures
            r.providers@ == seq![Provider::Filename, Provider::Exif, Provider::Media, Provider::Filesystem],
            r.strategy == Strategy::Smart,
    {
        let d = Provider::defaults();
        let mut providers: Vec<Provider> = Vec::new();
        providers.push(d[0]);
        providers.push(d[1]);
        providers.push(d[2]);
        providers.push(d[3]);
        assert(providers@ =~= seq![Provider::Filename, Provider::Exif, Provider::Media, Provider::Filesystem]);
        DetectOptions { providers, strategy: Strategy::Smart }
    }
}

/// What is known of a file beyond its sources: when its file system says it was
/// last written, and the present moment.
#[derive(Debug, Clone, Copy, PartialEq, Eq)]
pub struct DetectContext {
    pub filesystem_latest: Option<Moment>,
    pub now: Moment,
}

/// The date chosen for a file, the sources it was chosen from, the flags it earned,
/// and what the vision model read, if it was asked.
#[derive(Debug)]
pub struct Resolved {
    pub chosen: Detection,
    pub candidates: Vec<Detection>,
    pub flags: Vec<Flag>,
    pub reading: Option<Reading>,
}

/// What each flag a date earns by itself costs its score.
pub const HARD_FLAG_PENALTY: i64 = 1000;
/// What each other source that backs a date adds to its score.
pub const CONSENSUS_BONUS: i64 = 25;

/// Whether two detections hold the same source, text and date.
pub open spec fn same_detection(a: Detection, b: Detection) -> bool {
    a.provider == b.provider && a.taken == b.taken && opt_chars(a.info) == opt_chars(b.info)
}

impl Detection {
    /// A copy of the detection.
    pub fn copied(&self) -> (r: Detection)
        ensures
            same_detection(r, *self),
    {
        Detection {
            provider: self.provider,
            info: match &self.info {
                Some(s) => Some(owned(s.as_str())),
                None => None,
            },
            taken: self.taken,
        }
    }
}

// ---------------------------------------------------------------------------
// The order sources are kept in
// ---------------------------------------------------------------------------
/// The first detection of each source, the sources in their own order.
pub open spec fn arranged(found: Seq<Detection>) -> Seq<Detection> {
    arranged_from(found, 0)
}

/// The first detection of each source from the `k`-th source on.
pub open spec fn arranged_from(found: Seq<Detection>, k: nat) -> Seq<Detection>
    decreases 5 - k,
{
    if k >= 5 {
        seq![]
    } else {
        let p = provider_at(k);
        let rest = arranged_from(found, k + 1);
        match first_from(found, p) {
            Some(i) => seq![found[i]].add(rest),
            None => rest,
        }
    }
}

/// The `k`-th source in their order.
pub open spec fn provider_at(k: nat) -> Provider {
    if k == 0 { Provider::Filename }
    else if k == 1 { Provider::Exif }
    else if k == 2 { Provider::Media }
    else if k == 3 { Provider::Vision }
    else { Provider::Filesystem }
}

/// The detections of a file sorted by source, each source kept once: the first
/// detection it gave.
pub fn arrange(found: &Vec<Detection>) -> (r: Vec<Detection>)
    ensures
        r@.len() == arranged(found@).len(),
        forall|i: int| 0 <= i < r@.len() ==> same_detection(#[trigger] r@[i], arranged(found@)[i]),
{
    let all = Provider::all();
    let mut out: Vec<Detection> = Vec::new();
    let mut k: usize = 5;
    let ghost mut tail: Seq<Detection> = seq![];
    // The sources are walked from the last, so that each step puts one in front.
    let mut rev: Vec<Detection> = Vec::new();
    while k > 0
        invariant
            k <= 5,
            all@ == seq![Provider::Filename, Provider::Exif, Provider::Media, Provider::Vision, Provider::Filesystem],
            rev@.len() == arranged_from(found@, k as nat).len(),
            forall|i: int| 0 <= i < rev@.len() ==>
                same_detection(#[trigger] rev@[i], arranged_from(found@, k as nat)[rev@.len() - 1 - i]),
        decreases k,
    {
        k = k - 1;
        let p = all[k];
        assert(p == provider_at(k as nat));
        proof { lemma_first_from(found@, p); }
        let count = found.len();
        match position_of(found, p) {
            Some(i) => {
                let d = found[i].copied();
                let ghost before = rev@;
                rev.push(d);
                proof {
                    let a = arranged_from(found@, k as nat);
                    let b = arranged_from(found@, (k + 1) as nat);
                    assert(a == seq![found@[i as int]].add(b));
                    assert forall|j: int| 0 <= j < rev@.len() implies
                        same_detection(#[trigger] rev@[j], a[rev@.len() - 1 - j]) by {
                        if j < before.len() {
                            assert(rev@[j] == before[j]);
                            assert(a[rev@.len() - 1 - j] == b[before.len() - 1 - j]);
                        }
                    }
                }
            },
            None => {},
        }
    }
    let n = rev.len();
    let mut j: usize = 0;
    while j < n
        invariant
            j <= n,
            n == rev@.len(),
            k == 0,
            rev@.len() == arranged_from(found@, 0).len(),
            forall|i: int| 0 <= i < rev@.len() ==>
                same_detection(#[trigger] rev@[i], arranged_from(found@, 0)[rev@.len() - 1 - i]),
            out@.len() == j,
            forall|i: int| 0 <= i < j ==> same_detection(#[trigger] out@[i], arranged_from(found@, 0)[i]),
        decreases n - j,
    {
        let d = rev[n - 1 - j].copied();
        out.push(d);
        j = j + 1;
    }
    out
}

// ---------------------------------------------------------------------------
// Choosing a date
// ---------------------------------------------------------------------------
/// What the choice of a date reads of each candidate: its source and its date.
pub open spec fn keys(c: Seq<Detection>) -> Seq<(Provider, Moment)> {
    Seq::new(c.len(), |i: int| (c[i].provider, c[i].taken))
}

/// The position of the first key from `p`.
pub open spec fn first_key(c: Seq<(Provider, Moment)>, p: Provider) -> Option<int>
    decreases c.len(),
{
    if c.len() == 0 {
        None
    } else if c[0].0 == p {
        Some(0)
    } else {
        match first_key(c.drop_first(), p) {
            Some(k) => Some(k + 1),
            None => None,
        }
    }
}

proof fn lemma_first_key(c: Seq<Detection>, p: Provider)
    ensures
        first_key(keys(c), p) == first_from(c, p),
    decreases c.len(),
{
    if c.len() > 0 {
        assert(keys(c).drop_first() =~= keys(c.drop_first()));
        lemma_first_key(c.drop_first(), p);
    }
}

/// Whether the `j`-th candidate comes within a day of the `k`-th, counted in whole
/// hours, from another source.
pub open spec fn backs(c: Seq<(Provider, Moment)>, k: int, j: int) -> bool {
    c[j].0 != c[k].0
        && -CONSENSUS_HOURS < hours_between(instant(c[j].1), instant(c[k].1)) < CONSENSUS_HOURS
}

/// How many of the first `n` candidates back the `k`-th.
pub open spec fn backers(c: Seq<(Provider, Moment)>, k: int, n: int) -> int
    decreases n,
{
    if n <= 0 {
        0
    } else {
        backers(c, k, n - 1) + if backs(c, k, n - 1) { 1int } else { 0int }
    }
}

/// Among the first `n` candidates, none backing the `k`-th counts nothing, and one
/// backing it counts at least one.
proof fn lemma_backers_count(c: Seq<(Provider, Moment)>, k: int, n: int)
    requires
        0 <= n <= c.len(),
    ensures
        0 <= backers(c, k, n) <= n,
        (exists|j: int| 0 <= j < n && #[trigger] backs(c, k, j)) ==> backers(c, k, n) >= 1,
        (forall|j: int| 0 <= j < n ==> !#[trigger] backs(c, k, j)) ==> backers(c, k, n) == 0,
    decreases n,
{
    if n > 0 {
        lemma_backers_count(c, k, n - 1);
        if exists|j: int| 0 <= j < n && #[trigger] backs(c, k, j) {
            let j = choose|j: int| 0 <= j < n && #[trigger] backs(c, k, j);
            if j < n - 1 {
                assert(exists|i: int| 0 <= i < n - 1 && #[trigger] backs(c, k, i));
            }
        }
    }
}

/// Agreement between sources outweighs trust in one: under the smart strategy, a date
/// that earns no flag of its own and that a second source puts less than a day (24
/// whole hours) away is never passed over for a date that no other source comes
/// near, unless that lone date's source is trusted by the bonus for one backer (25)
/// or more above the backed date's source.
pub proof fn law_a_backed_date_beats_a_lone_one(c: Seq<(Provider, Moment)>, ctx: DetectContext, k: int, j: int, x: int)
    requires
        0 <= k < c.len(),
        0 <= j < c.len(),
        0 <= x < c.len(),
        c[j].0 != c[k].0,
        -24 < hours_between(instant(c[j].1), instant(c[k].1)) < 24,
        spec_date_flags(c[k].1, ctx.filesystem_latest, ctx.now).len() == 0,
        forall|i: int| 0 <= i < c.len() && c[i].0 != c[x].0
            ==> !(-24 < #[trigger] hours_between(instant(c[i].1), instant(c[x].1)) < 24),
        spec_trust_rank(c[x].0) < spec_trust_rank(c[k].0) + 25,
    ensures
        !smart_pick(c, ctx, x),
{
    let n = c.len() as int;
    assert(backs(c, k, j));
    lemma_backers_count(c, k, n);
    assert forall|i: int| 0 <= i < n implies !#[trigger] backs(c, x, i) by {
        if c[i].0 != c[x].0 {
            assert(!(-24 < hours_between(instant(c[i].1), instant(c[x].1)) < 24));
        }
    }
    lemma_backers_count(c, x, n);
    assert(spec_score(c, k, ctx) >= spec_trust_rank(c[k].0) + 25);
    assert(spec_score(c, x, ctx) <= spec_trust_rank(c[x].0));
    assert(beats(c, ctx, k, x));
}

/// A date that earns a flag of its own is never taken over one that earns none, under
/// the smart strategy, among at most thirty-six candidates: one flag costs more
/// (1000) than any source's trust (at most 40) and every backer's bonus (25 each)
/// together.
pub proof fn law_a_flagged_date_loses_to_a_clean_one(c: Seq<(Provider, Moment)>, ctx: DetectContext, k: int, x: int)
    requires
        0 <= k < c.len(),
        0 <= x < c.len(),
        c.len() <= 36,
        spec_date_flags(c[k].1, ctx.filesystem_latest, ctx.now).len() == 0,
        spec_date_flags(c[x].1, ctx.filesystem_latest, ctx.now).len() > 0,
    ensures
        !smart_pick(c, ctx, x),
{
    let n = c.len() as int;
    lemma_backers_count(c, k, n);
    lemma_backers_count(c, x, n);
    let fx = spec_date_flags(c[x].1, ctx.filesystem_latest, ctx.now).len() as int;
    let bk = backers(c, k, n);
    let bx = backers(c, x, n);
    lemma_score_bounds(spec_trust_rank(c[k].0), 0, bk, spec_trust_rank(c[x].0), fx, bx);
    assert(spec_score(c, k, ctx) > spec_score(c, x, ctx));
    assert(beats(c, ctx, k, x));
}

/// The arithmetic behind it: one flag outweighs any trust and thirty-six backers.
proof fn lemma_score_bounds(rk: int, fk: int, bk: int, rx: int, fx: int, bx: int)
    by (nonlinear_arith)
    requires
        10 <= rk <= 40,
        10 <= rx <= 40,
        fk == 0,
        fx >= 1,
        0 <= bk,
        0 <= bx <= 36,
    ensures
        rk - 1000 * fk + 25 * bk > rx - 1000 * fx + 25 * bx,
{
}

/// The score of the `k`-th candidate: its source's trust, less a heavy penalty for
/// each flag its date earns by itself, plus a bonus for each other source that
/// backs it.
pub open spec fn spec_score(c: Seq<(Provider, Moment)>, k: int, ctx: DetectContext) -> int {
    spec_trust_rank(c[k].0)
        - HARD_FLAG_PENALTY * spec_date_flags(c[k].1, ctx.filesystem_latest, ctx.now).len()
        + CONSENSUS_BONUS * backers(c, k, c.len() as int)
}

/// Whether the `a`-th candidate beats the `b`-th: a higher score, then an earlier
/// date, then a more trusted source.
pub open spec fn beats(c: Seq<(Provider, Moment)>, ctx: DetectContext, a: int, b: int) -> bool {
    let sa = spec_score(c, a, ctx);
    let sb = spec_score(c, b, ctx);
    let ta = instant(c[a].1);
    let tb = instant(c[b].1);
    let ra = spec_trust_rank(c[a].0);
    let rb = spec_trust_rank(c[b].0);
    sa > sb || (sa == sb && (ta < tb || (ta == tb && ra > rb)))
}

/// The candidate the smart strategy takes: one that none beats, the last such.
pub open spec fn smart_pick(c: Seq<(Provider, Moment)>, ctx: DetectContext, k: int) -> bool {
    &&& 0 <= k < c.len()
    &&& forall|j: int| 0 <= j < c.len() ==> !beats(c, ctx, j, k)
    &&& forall|j: int| k < j < c.len() ==> beats(c, ctx, k, j)
}

/// Whether the `a`-th candidate is older than the `b`-th: an earlier date, then a
/// source earlier in the order.
pub open spec fn older(c: Seq<(Provider, Moment)>, a: int, b: int) -> bool {
    let ta = instant(c[a].1);
    let tb = instant(c[b].1);
    ta < tb || (ta == tb && provider_order(c[a].0) < provider_order(c[b].0))
}

/// The candidate the oldest strategy takes: one that none is older than, the first
/// such.
pub open spec fn oldest_pick(c: Seq<(Provider, Moment)>, k: int) -> bool {
    &&& 0 <= k < c.len()
    &&& forall|j: int| 0 <= j < c.len() ==> !older(c, j, k)
    &&& forall|j: int| 0 <= j < k ==> older(c, k, j)
}

/// The candidate the priority strategy takes: the first one from the first source in
/// `order` that gave any.
pub open spec fn priority_pick(c: Seq<(Provider, Moment)>, order: Seq<Provider>) -> Option<int>
    decreases order.len(),
{
    if order.len() == 0 {
        None
    } else {
        match first_key(c, order[0]) {
            Some(k) => Some(k),
            None => priority_pick(c, order.drop_first()),
        }
    }
}

/// Whether `r` is the position the strategy takes among the candidates.
pub open spec fn picked(c: Seq<(Provider, Moment)>, opts: DetectOptions, ctx: DetectContext, r: Option<usize>) -> bool {
    match opts.strategy {
        Strategy::Priority => match priority_pick(c, opts.providers@) {
            Some(k) => r == Some(k as usize),
            None => r is None,
        },
        Strategy::Oldest => if c.len() == 0 { r is None } else { r matches Some(k) && oldest_pick(c, k as int) },
        Strategy::Smart => if c.len() == 0 { r is None } else { r matches Some(k) && smart_pick(c, ctx, k as int) },
    }
}

fn count_backers(c: &Vec<Detection>, k: usize) -> (r: u64)
    requires
        k < c@.len(),
    ensures
        r == backers(keys(c@), k as int, c@.len() as int),
{
    let ghost ks = keys(c@);
    proof { lemma_instant_bounded(c@[k as int].taken); }
    let tk = c[k].taken.seconds();
    let mut n: u64 = 0;
    let mut j: usize = 0;
    while j < c.len()
        invariant
            j <= c@.len(),
            k < c@.len(),
            ks == keys(c@),
            tk == instant(c@[k as int].taken),
            -instant_bound() < tk < instant_bound(),
            n == backers(ks, k as int, j as int),
            n <= j,
        decreases c@.len() - j,
    {
        proof { lemma_instant_bounded(c@[j as int].taken); }
        if c[j].provider != c[k].provider {
            let h = hours_apart(c[j].taken.seconds(), tk);
            if -CONSENSUS_HOURS < h && h < CONSENSUS_HOURS {
                n = n + 1;
            }
        }
        j = j + 1;
    }
    n
}

fn score(c: &Vec<Detection>, k: usize, ctx: &DetectContext) -> (r: i128)
    requires
        k < c@.len(),
    ensures
        r == spec_score(keys(c@), k as int, *ctx),
{
    let flags = date_flags(&c[k].taken, ctx.filesystem_latest, &ctx.now);
    let backing = count_backers(c, k);
    c[k].provider.trust_rank() as i128 - HARD_FLAG_PENALTY as i128 * flags.len() as i128
        + CONSENSUS_BONUS as i128 * backing as i128
}

fn beats_at(c: &Vec<Detection>, ctx: &DetectContext, a: usize, sa: i128, b: usize, sb: i128) -> (r: bool)
    requires
        a < c@.len(),
        b < c@.len(),
        sa == spec_score(keys(c@), a as int, *ctx),
        sb == spec_score(keys(c@), b as int, *ctx),
    ensures
        r == beats(keys(c@), *ctx, a as int, b as int),
{
    if sa != sb {
        return sa > sb;
    }
    let ta = c[a].taken.seconds();
    let tb = c[b].taken.seconds();
    if ta != tb {
        return ta < tb;
    }
    c[a].provider.trust_rank() > c[b].provider.trust_rank()
}

/// Beating is a strict order on the candidates' keys.
proof fn lemma_beats_order(c: Seq<(Provider, Moment)>, ctx: DetectContext, a: int, b: int, x: int)
    ensures
        !beats(c, ctx, a, b) && !beats(c, ctx, b, x) ==> !beats(c, ctx, a, x),
        beats(c, ctx, b, x) ==> !beats(c, ctx, x, b),
        !beats(c, ctx, a, a),
{
}

fn smart_index(c: &Vec<Detection>, ctx: &DetectContext) -> (r: Option<usize>)
    ensures
        if c@.len() == 0 { r is None } else { r matches Some(k) && smart_pick(keys(c@), *ctx, k as int) },
{
    let ghost ks = keys(c@);
    if c.len() == 0 {
        return None;
    }
    let mut best: usize = 0;
    let mut best_score = score(c, 0, ctx);
    let mut i: usize = 1;
    while i < c.len()
        invariant
            1 <= i <= c@.len(),
            ks == keys(c@),
            best < i,
            best_score == spec_score(ks, best as int, *ctx),
            forall|j: int| 0 <= j < i ==> !beats(ks, *ctx, j, best as int),
            forall|j: int| best < j < i ==> beats(ks, *ctx, best as int, j),
        decreases c@.len() - i,
    {
        let si = score(c, i, ctx);
        if !beats_at(c, ctx, best, best_score, i, si) {
            proof {
                assert forall|j: int| 0 <= j <= i implies !beats(ks, *ctx, j, i as int) by {
                    lemma_beats_order(ks, *ctx, j, best as int, i as int);
                }
            }
            best = i;
            best_score = si;
        } else {
            proof {
                lemma_beats_order(ks, *ctx, i as int, best as int, i as int);
            }
        }
        i = i + 1;
    }
    Some(best)
}

fn order_number(p: Provider) -> (r: u8)
    ensures
        r == provider_order(p),
{
    match p {
        Provider::Filename => 0,
        Provider::Exif => 1,
        Provider::Media => 2,
        Provider::Vision => 3,
        Provider::Filesystem => 4,
    }
}

fn older_at(c: &Vec<Detection>, a: usize, b: usize) -> (r: bool)
    requires
        a < c@.len(),
        b < c@.len(),
    ensures
        r == older(keys(c@), a as int, b as int),
{
    let ta = c[a].taken.seconds();
    let tb = c[b].taken.seconds();
    if ta != tb {
        return ta < tb;
    }
    order_number(c[a].provider) < order_number(c[b].provider)
}

/// Being older is a strict total order on the candidates' keys.
proof fn lemma_older_order(c: Seq<(Provider, Moment)>, a: int, b: int, x: int)
    ensures
        older(c, a, b) && older(c, b, x) ==> older(c, a, x),
        older(c, a, b) && !older(c, x, b) ==> older(c, a, x),
        older(c, x, a) && older(c, a, b) ==> older(c, x, b),
        !older(c, a, a),
{
}

fn oldest_index(c: &Vec<Detection>) -> (r: Option<usize>)
    ensures
        if c@.len() == 0 { r is None } else { r matches Some(k) && oldest_pick(keys(c@), k as int) },
{
    let ghost ks = keys(c@);
    if c.len() == 0 {
        return None;
    }
    let mut best: usize = 0;
    let mut i: usize = 1;
    while i < c.len()
        invariant
            1 <= i <= c@.len(),
            ks == keys(c@),
            best < i,
            forall|j: int| 0 <= j < i ==> !older(ks, j, best as int),
            forall|j: int| 0 <= j < best ==> older(ks, best as int, j),
        decreases c@.len() - i,
    {
        if older_at(c, i, best) {
            proof {
                assert forall|j: int| 0 <= j <= i implies !older(ks, j, i as int) by {
                    lemma_older_order(ks, j, i as int, best as int);
                }
                assert forall|j: int| 0 <= j < i implies older(ks, i as int, j) by {
                    lemma_older_order(ks, i as int, best as int, j);
                }
            }
            best = i;
        }
        i = i + 1;
    }
    Some(best)
}

proof fn lemma_priority_pick(c: Seq<(Provider, Moment)>, order: Seq<Provider>)
    ensures
        priority_pick(c, order) matches Some(k) ==> 0 <= k < c.len(),
    decreases order.len(),
{
    if order.len() > 0 {
        lemma_first_key_range(c, order[0]);
        lemma_priority_pick(c, order.drop_first());
    }
}

proof fn lemma_first_key_range(c: Seq<(Provider, Moment)>, p: Provider)
    ensures
        first_key(c, p) matches Some(k) ==> 0 <= k < c.len(),
    decreases c.len(),
{
    if c.len() > 0 {
        lemma_first_key_range(c.drop_first(), p);
    }
}

fn priority_index(c: &Vec<Detection>, order: &Vec<Provider>) -> (r: Option<usize>)
    ensures
        match priority_pick(keys(c@), order@) {
            Some(k) => r == Some(k as usize),
            None => r is None,
        },
{
    let ghost ks = keys(c@);
    let mut i: usize = 0;
    assert(order@.skip(0) =~= order@);
    while i < order.len()
        invariant
            i <= order@.len(),
            ks == keys(c@),
            priority_pick(ks, order@) == priority_pick(ks, order@.skip(i as int)),
        decreases order@.len() - i,
    {
        let ghost rest = order@.skip(i as int);
        assert(rest.drop_first() =~= order@.skip(i + 1));
        assert(rest[0] == order@[i as int]);
        proof {
            lemma_first_from(c@, order@[i as int]);
            lemma_first_key(c@, order@[i as int]);
        }
        let n = c.len();
        match position_of(c, order[i]) {
            Some(k) => {
                return Some(k);
            },
            None => {},
        }
        i = i + 1;
    }
    assert(order@.skip(i as int) =~= Seq::<Provider>::empty());
    None
}

/// The position of the candidate the strategy of `opts` takes.
pub fn choose_index(candidates: &Vec<Detection>, opts: &DetectOptions, ctx: &DetectContext) -> (r: Option<usize>)
    ensures
        picked(keys(candidates@), *opts, *ctx, r),
        r matches Some(k) ==> k < candidates@.len(),
{
    let r = match opts.strategy {
        Strategy::Priority => priority_index(candidates, &opts.providers),
        Strategy::Oldest => oldest_index(candidates),
        Strategy::Smart => smart_index(candidates, ctx),
    };
    proof { lemma_priority_pick(keys(candidates@), opts.providers@); }
    r
}

/// The date the strategy of `opts` takes among the candidates, if any: under
/// `Priority` the first candidate of the first listed source that gave one; under
/// `Oldest` the earliest date; under `Smart` the best score, then the earlier date,
/// then the more trusted source.
pub fn choose_detection(candidates: &Vec<Detection>, opts: &DetectOptions, ctx: &DetectContext) -> (r: Option<Detection>)
    ensures
        exists|k: Option<usize>| #![auto] picked(keys(candidates@), *opts, *ctx, k) && match k {
            Some(i) => r matches Some(d) && i < candidates@.len() && same_detection(d, candidates@[i as int]),
            None => r is None,
        },
{
    let k = choose_index(candidates, opts, ctx);
    match k {
        Some(i) => Some(candidates[i].copied()),
        None => None,
    }
}

/// What the sources of a file settle: the sources kept once each, the date the
/// strategy takes among them, and the flags that date earns; `None` when the
/// strategy takes none.
pub fn resolve_found(found: &Vec<Detection>, opts: &DetectOptions, ctx: &DetectContext, reading: Option<Reading>) -> (r: Option<Resolved>)
    ensures
        match r {
            None => picked(keys(arranged(found@)), *opts, *ctx, None),
            Some(res) => {
                &&& res.candidates@.len() == arranged(found@).len()
                &&& forall|i: int| 0 <= i < res.candidates@.len() ==> same_detection(#[trigger] res.candidates@[i], arranged(found@)[i])
                &&& exists|k: usize| picked(keys(arranged(found@)), *opts, *ctx, Some(k)) && k < res.candidates@.len()
                    && same_detection(res.chosen, res.candidates@[k as int])
                &&& res.flags@ == spec_entry_flags(res.chosen.taken, res.candidates@, ctx.filesystem_latest, ctx.now)
                &&& res.reading == reading
            },
        },
{
    let candidates = arrange(found);
    assert(keys(candidates@) =~= keys(arranged(found@)));
    let k = choose_index(&candidates, opts, ctx);
    let chosen = match k {
        Some(i) => candidates[i].copied(),
        None => return None,
    };
    let flags = entry_flags(&chosen.taken, &candidates, ctx.filesystem_latest, &ctx.now);
    Some(Resolved { chosen, candidates, flags, reading })
}


/// The first candidate from a source is from that source, and none before it is.
proof fn lemma_first_key_is_first(c: Seq<(Provider, Moment)>, p: Provider)
    ensures
        match first_key(c, p) {
            Some(k) => 0 <= k < c.len() && c[k].0 == p && forall|j: int| 0 <= j < k ==> c[j].0 != p,
            None => forall|j: int| 0 <= j < c.len() ==> c[j].0 != p,
        },
    decreases c.len(),
{
    if c.len() > 0 {
        lemma_first_key_is_first(c.drop_first(), p);
        assert forall|j: int| 1 <= j < c.len() implies c[j] == c.drop_first()[j - 1] by {}
    }
}

/// The priority strategy takes the first candidate from the first source in its order
/// that gave any: that candidate's source is in the order, no source before it in the
/// order gave a candidate, and no earlier candidate came from its source. It takes
/// none exactly when no candidate comes from a source in the order.
pub proof fn law_priority_takes_the_first_date_of_the_first_source(c: Seq<(Provider, Moment)>, order: Seq<Provider>)
    ensures
        match priority_pick(c, order) {
            Some(k) => 0 <= k < c.len() && exists|i: int| 0 <= i < order.len() && order[i] == c[k].0 && {
                &&& forall|h: int, j: int| 0 <= h < i && 0 <= j < c.len() ==> #[trigger] c[j].0 != #[trigger] order[h]
                &&& forall|j: int| 0 <= j < k ==> c[j].0 != c[k].0
            },
            None => forall|h: int, j: int| 0 <= h < order.len() && 0 <= j < c.len() ==> #[trigger] c[j].0 != #[trigger] order[h],
        },
    decreases order.len(),
{
    if order.len() > 0 {
        lemma_first_key_is_first(c, order[0]);
        law_priority_takes_the_first_date_of_the_first_source(c, order.drop_first());
        match first_key(c, order[0]) {
            Some(k) => {
                assert(order[0] == c[k].0);
            },
            None => {
                match priority_pick(c, order.drop_first()) {
                    Some(k) => {
                        let i = choose|i: int| 0 <= i < order.drop_first().len() && order.drop_first()[i] == c[k].0 && {
                            &&& forall|h: int, j: int| 0 <= h < i && 0 <= j < c.len() ==> #[trigger] c[j].0 != #[trigger] order.drop_first()[h]
                            &&& forall|j: int| 0 <= j < k ==> c[j].0 != c[k].0
                        };
                        assert(order[i + 1] == c[k].0);
                        assert forall|h: int, j: int| 0 <= h < i + 1 && 0 <= j < c.len() implies #[trigger] c[j].0 != #[trigger] order[h] by {
                            if h > 0 {
                                assert(order[h] == order.drop_first()[h - 1]);
                            }
                        }
                    },
                    None => {
                        assert forall|h: int, j: int| 0 <= h < order.len() && 0 <= j < c.len() implies #[trigger] c[j].0 != #[trigger] order[h] by {
                            if h > 0 {
                                assert(order[h] == order.drop_first()[h - 1]);
                            }
                        }
                    },
                }
            },
        }
    }
}

/// The oldest strategy takes the earliest date: no candidate lies before it, and
/// among dates at the same instant it takes the one from the source listed first.
pub proof fn law_oldest_takes_the_earliest_date(c: Seq<(Provider, Moment)>, k: int)
    requires
        oldest_pick(c, k),
    ensures
        forall|j: int| 0 <= j < c.len() ==> instant(c[k].1) <= #[trigger] instant(c[j].1),
        forall|j: int| 0 <= j < c.len() && instant(c[j].1) == instant(c[k].1)
            ==> provider_order(c[k].0) <= #[trigger] provider_order(c[j].0),
{
    assert forall|j: int| 0 <= j < c.len() implies instant(c[k].1) <= #[trigger] instant(c[j].1) by {
        assert(!older(c, j, k));
    }
    assert forall|j: int| 0 <= j < c.len() && instant(c[j].1) == instant(c[k].1)
        implies provider_order(c[k].0) <= #[trigger] provider_order(c[j].0) by {
        assert(!older(c, j, k));
    }
}

/// Where no date earns a flag and no two sources come within a day of each other,
/// the smart strategy takes a date from the most trusted source there is; and the
/// sources are trusted in this order: the camera's EXIF block and a movie's own box
/// alike, then the file name, then the vision model, then the file system.
pub proof fn law_trust_decides_among_lone_dates(c: Seq<(Provider, Moment)>, ctx: DetectContext, k: int, x: int)
    requires
        smart_pick(c, ctx, k),
        0 <= x < c.len(),
        forall|i: int| 0 <= i < c.len() ==> (#[trigger] spec_date_flags(c[i].1, ctx.filesystem_latest, ctx.now)).len() == 0,
        forall|i: int, j: int| 0 <= i < c.len() && 0 <= j < c.len() && c[i].0 != c[j].0
            ==> !(-24 < #[trigger] hours_between(instant(c[i].1), instant(#[trigger] c[j].1)) < 24),
    ensures
        spec_trust_rank(c[k].0) >= spec_trust_rank(c[x].0),
        spec_trust_rank(Provider::Exif) == spec_trust_rank(Provider::Media),
        spec_trust_rank(Provider::Media) > spec_trust_rank(Provider::Filename),
        spec_trust_rank(Provider::Filename) > spec_trust_rank(Provider::Vision),
        spec_trust_rank(Provider::Vision) > spec_trust_rank(Provider::Filesystem),
{
    let n = c.len() as int;
    assert forall|i: int| 0 <= i < n implies !#[trigger] backs(c, k, i) by {
        if c[i].0 != c[k].0 {
            assert(!(-24 < hours_between(instant(c[i].1), instant(c[k].1)) < 24));
        }
    }
    assert forall|i: int| 0 <= i < n implies !#[trigger] backs(c, x, i) by {
        if c[i].0 != c[x].0 {
            assert(!(-24 < hours_between(instant(c[i].1), instant(c[x].1)) < 24));
        }
    }
    lemma_backers_count(c, k, n);
    lemma_backers_count(c, x, n);
    assert(spec_date_flags(c[k].1, ctx.filesystem_latest, ctx.now).len() == 0);
    assert(spec_date_flags(c[x].1, ctx.filesystem_latest, ctx.now).len() == 0);
    assert(spec_score(c, k, ctx) == spec_trust_rank(c[k].0));
    assert(spec_score(c, x, ctx) == spec_trust_rank(c[x].0));
    assert(!beats(c, ctx, x, k));
}

} // verus!
