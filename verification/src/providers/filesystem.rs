//! The file system's own times as a source of the date: the earlier of when a file
//! was created and when it was last modified. Reading the times is left to the
//! caller; what is decided from them is here.
use vstd::prelude::*;
use crate::moment::{instant, Moment};
use crate::naming::opt_chars;
use crate::text::owned;
use super::{Detection, Provider};

verus! {

/// The time the file system gives for a file, and the name of the time it is: the
/// earlier of the creation and modification times, `created` when they are the same
/// instant, and whichever one is known when the other is not.
pub open spec fn filesystem_pick(created: Option<Moment>, modified: Option<Moment>) -> Option<(Moment, Seq<char>)> {
    match (created, modified) {
        (Some(c), Some(m)) => if instant(m) < instant(c) {
            Some((m, "modified"@))
        } else {
            Some((c, "created"@))
        },
        (Some(c), None) => Some((c, "created"@)),
        (None, Some(m)) => Some((m, "modified"@)),
        (None, None) => None,
    }
}

/// The later of the creation and modification times, or whichever one is known: the
/// time after which nothing in the file can have been taken.
pub open spec fn later_time(created: Option<Moment>, modified: Option<Moment>) -> Option<Moment> {
    match (created, modified) {
        (Some(c), Some(m)) => if instant(m) < instant(c) {
            Some(c)
        } else {
            Some(m)
        },
        (Some(c), None) => Some(c),
        (None, Some(m)) => Some(m),
        (None, None) => None,
    }
}

/// What the file system says of a file whose creation and modification times, as
/// far as they could be read, are `created` and `modified`.
pub fn resolve(created: Option<Moment>, modified: Option<Moment>) -> (r: Option<Detection>)
    ensures
        match filesystem_pick(created, modified) {
            None => r is None,
            Some((t, info)) => r matches Some(d) && d.provider == Provider::Filesystem && d.taken == t
                && opt_chars(d.info) == Some(info),
        },
{
    let (taken, info) = match (created, modified) {
        (Some(c), Some(m)) => if m.seconds() < c.seconds() {
            (m, owned("modified"))
        } else {
            (c, owned("created"))
        },
        (Some(c), None) => (c, owned("created")),
        (None, Some(m)) => (m, owned("modified")),
        (None, None) => return None,
    };
    Some(Detection { provider: Provider::Filesystem, info: Some(info), taken })
}

/// The later of the two times, or whichever one is known.
pub fn latest(created: Option<Moment>, modified: Option<Moment>) -> (r: Option<Moment>)
    ensures
        r == later_time(created, modified),
{
    match (created, modified) {
        (Some(c), Some(m)) => if m.seconds() < c.seconds() {
            Some(c)
        } else {
            Some(m)
        },
        (Some(c), None) => Some(c),
        (None, Some(m)) => Some(m),
        (None, None) => None,
    }
}

/// Whatever the times, the file system's date is one of them and never later than
/// either: it is the earlier one.
pub proof fn law_the_filesystem_date_is_the_earlier_time(created: Option<Moment>, modified: Option<Moment>)
    ensures
        filesystem_pick(created, modified) matches Some((t, info)) ==> {
            &&& (created == Some(t) || modified == Some(t))
            &&& (created matches Some(c) ==> instant(t) <= instant(c))
            &&& (modified matches Some(m) ==> instant(t) <= instant(m))
        },
        filesystem_pick(created, modified) is None <==> (created is None && modified is None),
{
}

} // verus!
