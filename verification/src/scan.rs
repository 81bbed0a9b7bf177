//! The decisions of a scan: which files are left alone, whether a plan file on
//! disk can be carried on, and the record a file makes once its date is known.
use vstd::prelude::*;
use crate::copy::TEMP_EXTENSION;
use crate::error::spec_message;
use crate::model::{destination_named, destination_spec, source_facts, subject_text, PlanEntry, PlanHeader, PlanRecord, SkippedEntry};
use crate::naming::{opt_chars, Facts};
use crate::offset::texts;
use crate::paths::{lowered_extension, lowered_extension_of};
use crate::providers::Detection;
use crate::text::{chars_of, owned, same_chars};

verus! {

/// Whether the file at `p` is a copy still being written: its extension, in either
/// case, is the one copies carry until they are complete.
pub open spec fn spec_is_temp_artifact(p: Seq<char>) -> bool {
    lowered_extension_of(p) == Some(TEMP_EXTENSION@)
}

/// Whether the file at `path` is a copy still being written, which a scan leaves
/// alone.
pub fn is_temp_artifact(path: &str) -> (b: bool)
    ensures
        b == spec_is_temp_artifact(path@),
{
    match lowered_extension(path) {
        Some(e) => {
            let t = chars_of(TEMP_EXTENSION);
            same_chars(&e, &t)
        },
        None => false,
    }
}

/// Whether a plan made with header `old` can be carried on by a scan with header
/// `new`: the same sources, destination, folder pattern and way of choosing dates.
pub open spec fn spec_compatible(old: PlanHeader, new: PlanHeader) -> bool {
    &&& texts(old.sources@) == texts(new.sources@)
    &&& opt_chars(old.destination) == opt_chars(new.destination)
    &&& old.folder_pattern@ == new.folder_pattern@
    &&& old.detect.providers@ == new.detect.providers@
    &&& old.detect.strategy == new.detect.strategy
}

fn same_texts(a: &Vec<String>, b: &Vec<String>) -> (r: bool)
    ensures
        r == (texts(a@) == texts(b@)),
{
    if a.len() != b.len() {
        proof {
            assert(texts(a@).len() != texts(b@).len());
        }
        return false;
    }
    let mut i: usize = 0;
    while i < a.len()
        invariant
            i <= a@.len(),
            a@.len() == b@.len(),
            forall|k: int| 0 <= k < i ==> (#[trigger] a@[k])@ == b@[k]@,
        decreases a@.len() - i,
    {
        if a[i] != b[i] {
            proof {
                assert(texts(a@)[i as int] != texts(b@)[i as int]);
            }
            return false;
        }
        i = i + 1;
    }
    assert(texts(a@) =~= texts(b@));
    true
}

/// Whether a plan made with header `old` can be carried on by a scan with header
/// `new`; otherwise the scan starts over.
pub fn compatible(old: &PlanHeader, new: &PlanHeader) -> (r: bool)
    ensures
        r == spec_compatible(*old, *new),
{
    if !same_texts(&old.sources, &new.sources) {
        return false;
    }
    let same_destination = match (&old.destination, &new.destination) {
        (Some(a), Some(b)) => *a == *b,
        (None, None) => true,
        _ => false,
    };
    if !same_destination || old.folder_pattern != new.folder_pattern {
        return false;
    }
    let a = &old.detect.providers;
    let b = &new.detect.providers;
    if a.len() != b.len() {
        assert(a@.len() != b@.len());
        return false;
    }
    let mut i: usize = 0;
    while i < a.len()
        invariant
            i <= a@.len(),
            a@.len() == b@.len(),
            a@ == old.detect.providers@,
            b@ == new.detect.providers@,
            forall|k: int| 0 <= k < i ==> a@[k] == b@[k],
        decreases a@.len() - i,
    {
        if a[i] != b[i] {
            assert(a@[i as int] != b@[i as int]);
            return false;
        }
        i = i + 1;
    }
    assert(a@ =~= b@);
    old.detect.strategy == new.detect.strategy
}

/// Where a file lands at `taken` under `root`, the folder pattern `pattern` and the
/// name pattern `name_pattern`.
pub open spec fn placed(source: Seq<char>, taken: crate::moment::Moment, root: Seq<char>, pattern: Seq<char>, name_pattern: Seq<char>) -> Option<Seq<char>> {
    let f = choose|f: Facts| source_facts(f, source, None);
    destination_spec(taken, f, root, pattern, name_pattern)
}

/// The reason a file without a date is passed over.
pub const NO_DATE: &'static str = "no creation date found";

/// The record a file of `size` bytes at `source` makes, once its date is known (or
/// is known to be unknown): passed over without a date, or where no destination can
/// be made for it, with the error told as the reason; planned otherwise, with the
/// date, its source and the destination that date gives it.
pub fn analyse(source: &str, size: u64, found: Option<Detection>, root: &str, pattern: &str, name_pattern: &str) -> (r: PlanRecord)
    ensures
        match found {
            None => r matches PlanRecord::Skipped(s) && s.source@ == source@ && s.reason@ == NO_DATE@,
            Some(d) => match placed(source@, d.taken, root@, pattern@, name_pattern@) {
                Some(dest) => r matches PlanRecord::Entry(e) && e.source@ == source@ && e.destination@ == dest
                    && e.taken == d.taken && e.provider == d.provider && e.provider_info == d.info && e.size == size
                    && e.candidates@.len() == 0 && e.flags@.len() == 0,
                None => r matches PlanRecord::Skipped(s) && s.source@ == source@
                    && s.reason@ == "invalid folder pattern: "@ + (
                        if crate::model::expanded(pattern@, choose|f: Facts| source_facts(f, source@, None), d.taken) is None {
                            pattern@
                        } else {
                            name_pattern@
                        }),
            },
        },
{
    let d = match found {
        None => return PlanRecord::Skipped(SkippedEntry { source: owned(source), reason: owned(NO_DATE) }),
        Some(d) => d,
    };
    let dest = destination_named(source, &d.taken, None, root, pattern, name_pattern);
    proof {
        let f = choose|f: Facts| #[trigger] source_facts(f, source@, subject_text(None));
        assert(subject_text(None) == None::<Seq<char>>);
        assert(source_facts(f, source@, None));
    }
    match dest {
        Ok(destination) => {
            let mut e = PlanEntry::default();
            e.source = owned(source);
            e.destination = destination;
            e.taken = d.taken;
            e.provider = d.provider;
            e.provider_info = d.info;
            e.size = size;
            PlanRecord::Entry(e)
        },
        Err(err) => PlanRecord::Skipped(SkippedEntry { source: owned(source), reason: err.message() }),
    }
}

} // verus!
