//! The models a user can choose between for each job, smallest first.
use vstd::prelude::*;
use crate::weights::Weight;
use crate::text::{chars_of, extend_str, same_chars, string_of};

verus! {

/// A job that more than one model can do.
#[derive(Debug, Clone, Copy, PartialEq, Eq, Structural)]
pub enum Kind {
    Upright,
}

impl Kind {
    /// The name of the job.
    pub fn label(self) -> (s: &'static str)
        ensures
            s@ == "upright"@,
    {
        match self {
            Kind::Upright => "upright",
        }
    }
}

/// Every job.
pub fn all_kinds() -> (r: Vec<Kind>)
    ensures
        r@ == seq![Kind::Upright],
{
    let mut r: Vec<Kind> = Vec::new();
    r.push(Kind::Upright);
    r
}

/// One model that can do a job.
#[derive(Debug, Clone, PartialEq, Eq)]
pub struct Variant {
    pub id: &'static str,
    pub kind: Kind,
    pub label: &'static str,
    pub note: &'static str,
    pub weights: Vec<Weight>,
}

pub const REPO: &'static str = "lmz/candle-yolo-v8";
pub const REVISION: &'static str = "be388c6fab95ae3035a039070e1b883b9c5a1325";

/// The names of the models, smallest first.
pub open spec fn variant_ids() -> Seq<Seq<char>> {
    seq!["yolov8n"@, "yolov8s"@, "yolov8m"@, "yolov8l"@, "yolov8x"@]
}

/// What each model is called for a person, smallest first.
pub open spec fn variant_labels() -> Seq<Seq<char>> {
    seq!["Smallest"@, "Small"@, "Middling"@, "Large"@, "Largest"@]
}

/// What each model is good for, smallest first.
pub open spec fn variant_notes() -> Seq<Seq<char>> {
    seq![
        "Quick enough for a whole library on any machine"@,
        "A little slower, surer about what it sees"@,
        "The even trade between the time it takes and what it finds"@,
        "Finds the awkward ones, and takes its time over the rest"@,
        "Slowest by far, for an archive you only turn once"@,
    ]
}

/// The file each model's weights are kept in, smallest first.
pub open spec fn variant_files() -> Seq<Seq<char>> {
    seq![
        "yolov8n.safetensors"@,
        "yolov8s.safetensors"@,
        "yolov8m.safetensors"@,
        "yolov8l.safetensors"@,
        "yolov8x.safetensors"@,
    ]
}

/// How many bytes each model's weights take, smallest first.
pub open spec fn variant_sizes() -> Seq<u64> {
    seq![6_369_332u64, 22_407_580u64, 51_918_852u64, 87_536_380u64, 136_636_180u64]
}

/// Whether `v` is the `i`-th model of the list, every field as listed.
pub open spec fn is_listed_variant(v: Variant, i: int) -> bool {
    &&& 0 <= i < 5
    &&& v.id@ == variant_ids()[i]
    &&& v.kind == Kind::Upright
    &&& v.label@ == variant_labels()[i]
    &&& v.note@ == variant_notes()[i]
    &&& v.weights@.len() == 1
    &&& v.weights@[0].repo@ == REPO@
    &&& v.weights@[0].revision@ == REVISION@
    &&& v.weights@[0].file@ == variant_files()[i]
    &&& v.weights@[0].bytes == variant_sizes()[i]
}

/// The name of the model to fall back on for a job: the smallest of its kind.
pub open spec fn default_id(kind: Kind) -> Seq<char> {
    "yolov8n"@
}

fn one_weight(file: &'static str, bytes: u64) -> (r: Vec<Weight>)
    ensures
        r@.len() == 1,
        r@[0].repo == REPO && r@[0].revision == REVISION && r@[0].file == file && r@[0].bytes == bytes,
{
    let mut r: Vec<Weight> = Vec::new();
    r.push(Weight { repo: REPO, revision: REVISION, file, bytes });
    r
}

/// Every model there is to choose from, smallest first.
pub fn variants() -> (r: Vec<Variant>)
    ensures
        r@.len() == 5,
        forall|i: int| 0 <= i < 5 ==> (#[trigger] r@[i]).id@ == variant_ids()[i] && r@[i].kind == Kind::Upright
            && r@[i].weights@.len() == 1 && r@[i].weights@[0].revision == REVISION,
        forall|i: int| 0 <= i < 5 ==> is_listed_variant(#[trigger] r@[i], i),
        r@[0].weights@[0].bytes < r@[1].weights@[0].bytes,
        r@[1].weights@[0].bytes < r@[2].weights@[0].bytes,
        r@[2].weights@[0].bytes < r@[3].weights@[0].bytes,
        r@[3].weights@[0].bytes < r@[4].weights@[0].bytes,
{
    let mut r: Vec<Variant> = Vec::new();
    r.push(Variant {
        id: "yolov8n",
        kind: Kind::Upright,
        label: "Smallest",
        note: "Quick enough for a whole library on any machine",
        weights: one_weight("yolov8n.safetensors", 6_369_332),
    });
    r.push(Variant {
        id: "yolov8s",
        kind: Kind::Upright,
        label: "Small",
        note: "A little slower, surer about what it sees",
        weights: one_weight("yolov8s.safetensors", 22_407_580),
    });
    r.push(Variant {
        id: "yolov8m",
        kind: Kind::Upright,
        label: "Middling",
        note: "The even trade between the time it takes and what it finds",
        weights: one_weight("yolov8m.safetensors", 51_918_852),
    });
    r.push(Variant {
        id: "yolov8l",
        kind: Kind::Upright,
        label: "Large",
        note: "Finds the awkward ones, and takes its time over the rest",
        weights: one_weight("yolov8l.safetensors", 87_536_380),
    });
    r.push(Variant {
        id: "yolov8x",
        kind: Kind::Upright,
        label: "Largest",
        note: "Slowest by far, for an archive you only turn once",
        weights: one_weight("yolov8x.safetensors", 136_636_180),
    });
    r
}

/// The stamp that names a model and the revision of its weights: the name, `@`,
/// and the first twelve characters of the revision (`none` when it has no weights).
pub open spec fn stamp_text(id: Seq<char>, weights: Seq<Weight>) -> Seq<char> {
    let revision = if weights.len() == 0 {
        "none"@
    } else if weights[0].revision@.len() <= 12 {
        weights[0].revision@
    } else {
        weights[0].revision@.take(12)
    };
    id + seq!['@'] + revision
}

impl Variant {
    /// The stamp recorded beside what this model found, so a later run knows whether
    /// the same weights looked.
    pub fn stamp(&self) -> (s: String)
        ensures
            s@ == stamp_text(self.id@, self.weights@),
    {
        let mut out = chars_of(self.id);
        out.push('@');
        if self.weights.len() == 0 {
            extend_str(&mut out, "none");
        } else {
            let revision = chars_of(self.weights[0].revision);
            let n = if revision.len() <= 12 { revision.len() } else { 12 };
            let mut i: usize = 0;
            while i < n
                invariant
                    n <= revision.len(),
                    i <= n,
                    out@ == self.id@ + seq!['@'] + revision@.take(i as int),
                decreases n - i,
            {
                out.push(revision[i]);
                i = i + 1;
                assert(out@ =~= self.id@ + seq!['@'] + revision@.take(i as int));
            }
            assert(revision@.len() <= 12 ==> revision@.take(n as int) =~= revision@);
        }
        string_of(&out)
    }
}

/// The models that can do `kind`, smallest first.
pub fn of(kind: Kind) -> (r: Vec<Variant>)
    ensures
        r@.len() == 5,
        forall|i: int| 0 <= i < 5 ==> (#[trigger] r@[i]).id@ == variant_ids()[i] && r@[i].kind == kind,
        forall|i: int| 0 <= i < 5 ==> is_listed_variant(#[trigger] r@[i], i),
{
    let mut all = variants();
    let ghost start = all@;
    let mut r: Vec<Variant> = Vec::new();
    while all.len() > 0
        invariant
            start.len() == 5,
            forall|i: int| 0 <= i < 5 ==> (#[trigger] start[i]).id@ == variant_ids()[i] && start[i].kind == Kind::Upright,
            forall|i: int| 0 <= i < 5 ==> is_listed_variant(#[trigger] start[i], i),
            r@.len() + all@.len() == 5,
            all@ == start.skip(r@.len() as int),
            forall|i: int| 0 <= i < r@.len() ==> #[trigger] r@[i] == start[i],
        decreases all.len(),
    {
        let ghost before = all@;
        let v = all.remove(0);
        assert(v == start[r@.len() as int]);
        assert(all@ =~= start.skip(r@.len() as int + 1));
        if v.kind == kind {
            r.push(v);
        }
    }
    r
}

/// The model called `id`, if there is one.
pub fn find(id: &str) -> (r: Option<Variant>)
    ensures
        match r {
            Some(v) => v.id@ == id@ && variant_ids().contains(id@)
                && exists|i: int| 0 <= i < 5 && #[trigger] is_listed_variant(v, i),
            None => !variant_ids().contains(id@),
        },
{
    let wanted = chars_of(id);
    let mut all = variants();
    let ghost start = all@;
    let mut i: usize = 0;
    while all.len() > 0
        invariant
            start.len() == 5,
            forall|k: int| 0 <= k < 5 ==> (#[trigger] start[k]).id@ == variant_ids()[k],
            forall|k: int| 0 <= k < 5 ==> is_listed_variant(#[trigger] start[k], k),
            i + all@.len() == 5,
            all@ == start.skip(i as int),
            wanted@ == id@,
            forall|k: int| 0 <= k < i ==> variant_ids()[k] != id@,
        decreases all.len(),
    {
        let v = all.remove(0);
        assert(v == start[i as int]);
        assert(all@ =~= start.skip(i + 1));
        let name = chars_of(v.id);
        if same_chars(&name, &wanted) {
            assert(variant_ids()[i as int] == id@);
            assert(is_listed_variant(v, i as int));
            return Some(v);
        }
        i = i + 1;
    }
    assert(!variant_ids().contains(id@)) by {
        if variant_ids().contains(id@) {
            let k = choose|k: int| 0 <= k < variant_ids().len() && variant_ids()[k] == id@;
            assert(variant_ids()[k] != id@);
        }
    }
    None
}

/// The model a job falls back on: the smallest of its kind.
pub fn default_of(kind: Kind) -> (r: Variant)
    ensures
        r.id@ == default_id(kind),
        r.kind == kind,
        is_listed_variant(r, 0),
{
    let mut all = of(kind);
    all.remove(0)
}

/// The model to use for `kind`: the one called `id` when there is such a model of
/// that kind, the smallest of the kind otherwise.
pub fn chosen(kind: Kind, id: Option<&str>) -> (r: Variant)
    ensures
        r.kind == kind,
        r.id@ == (match id {
            Some(x) => if variant_ids().contains(x@) { x@ } else { default_id(kind) },
            None => default_id(kind),
        }),
        exists|i: int| 0 <= i < 5 && #[trigger] is_listed_variant(r, i),
{
    match id {
        Some(x) => match find(x) {
            Some(v) => {
                if v.kind == kind {
                    v
                } else {
                    default_of(kind)
                }
            },
            None => default_of(kind),
        },
        None => default_of(kind),
    }
}

} // verus!
