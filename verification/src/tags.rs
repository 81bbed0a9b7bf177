//! What the tagger has already seen. Pictures are known by the digest of their
//! bytes; for each the library remembers whether it was looked at (and by which
//! model), rated, and searched for faces, so that a second run does not redo work.
use vstd::prelude::*;
use crate::paths::{join_path, joined_path, with_extension, with_extension_of};
use crate::text::{chars_of, owned, same_chars};
use vstd::hash_map::StringHashMap;
use vstd::hash_set::StringHashSet;

verus! {

/// The library of sightings shared by every plan: `sightings.db` in the data folder.
pub fn library_path(data_dir: &str) -> (r: String)
    ensures
        r@ == joined_path(data_dir@, "sightings.db"@),
{
    join_path(data_dir, "sightings.db")
}

/// The tag store of the plan at `plan_path`: the plan's path with the extension
/// `tags.db`.
pub fn store_path(plan_path: &str) -> (r: String)
    ensures
        r@ == with_extension_of(plan_path@, "tags.db"@),
{
    proof {
        reveal_strlit("tags.db");
    }
    with_extension(plan_path, "tags.db")
}

/// The tags of the plan at `plan_path` as a file for other programs: the plan's path
/// with the extension `tags.json`.
pub fn sidecar_path(plan_path: &str) -> (r: String)
    ensures
        r@ == with_extension_of(plan_path@, "tags.json"@),
{
    proof {
        reveal_strlit("tags.json");
    }
    with_extension(plan_path, "tags.json")
}

/// The model named by `m`, as characters.
pub open spec fn model_view(m: Option<String>) -> Option<Seq<char>> {
    match m {
        Some(s) => Some(s@),
        None => None,
    }
}

/// What the tagger already knows of the pictures it met before, each kept by the
/// digest of its bytes.
pub struct Known {
    looked: StringHashMap<Option<String>>,
    rated: StringHashSet,
    faced: StringHashSet,
}

impl Known {
    /// The digests looked at, each with the model that looked, where one is known.
    pub closed spec fn looked_view(&self) -> Map<Seq<char>, Option<Seq<char>>> {
        self.looked@.map_values(|m: Option<String>| model_view(m))
    }

    /// The digests rated.
    pub closed spec fn rated_view(&self) -> Set<Seq<char>> {
        self.rated@
    }

    /// The digests searched for faces.
    pub closed spec fn faced_view(&self) -> Set<Seq<char>> {
        self.faced@
    }

    /// What is known is finitely much, so that it can be counted.
    #[verifier::type_invariant]
    spec fn well_formed(&self) -> bool {
        self.looked@.dom().finite() && self.rated@.finite() && self.faced@.finite()
    }

    /// Nothing known yet.
    pub fn new() -> (k: Known)
        ensures
            k.looked_view() == Map::<Seq<char>, Option<Seq<char>>>::empty(),
            k.rated_view() == Set::<Seq<char>>::empty(),
            k.faced_view() == Set::<Seq<char>>::empty(),
    {
        let k = Known { looked: StringHashMap::new(), rated: StringHashSet::new(), faced: StringHashSet::new() };
        assert(k.looked_view() =~= Map::empty());
        k
    }

    /// Whether the picture with `digest` was looked at before.
    pub fn looked(&self, digest: &str) -> (b: bool)
        ensures
            b == self.looked_view().dom().contains(digest@),
    {
        self.looked.contains_key(digest)
    }

    /// Whether the picture with `digest` was looked at by `model`.
    pub fn looked_with(&self, digest: &str, model: &str) -> (b: bool)
        ensures
            b == (self.looked_view().dom().contains(digest@) && self.looked_view()[digest@] == Some(model@)),
    {
        match self.looked.get(digest) {
            Some(Some(held)) => {
                let h = chars_of(held.as_str());
                let m = chars_of(model);
                same_chars(&h, &m)
            },
            Some(None) => false,
            None => false,
        }
    }

    /// Whether the picture with `digest` was rated.
    pub fn rated(&self, digest: &str) -> (b: bool)
        ensures
            b == self.rated_view().contains(digest@),
    {
        self.rated.contains(digest)
    }

    /// Whether the picture with `digest` was searched for faces.
    pub fn faced(&self, digest: &str) -> (b: bool)
        ensures
            b == self.faced_view().contains(digest@),
    {
        self.faced.contains(digest)
    }

    /// Remembers that the picture with `digest` was searched for faces.
    pub fn saw_faces(&mut self, digest: &str)
        ensures
            final(self).faced_view() == old(self).faced_view().insert(digest@),
            final(self).looked_view() == old(self).looked_view(),
            final(self).rated_view() == old(self).rated_view(),
    {
        proof { use_type_invariant(&*self); }
        let mut faced = StringHashSet::new();
        std::mem::swap(&mut faced, &mut self.faced);
        faced.insert(owned(digest));
        self.faced = faced;
    }

    /// Remembers that the picture with `digest` was rated.
    pub fn saw_rating(&mut self, digest: &str)
        ensures
            final(self).rated_view() == old(self).rated_view().insert(digest@),
            final(self).looked_view() == old(self).looked_view(),
            final(self).faced_view() == old(self).faced_view(),
    {
        proof { use_type_invariant(&*self); }
        let mut rated = StringHashSet::new();
        std::mem::swap(&mut rated, &mut self.rated);
        rated.insert(owned(digest));
        self.rated = rated;
    }

    fn remember(&mut self, digest: &str, model: Option<String>)
        ensures
            final(self).looked_view() == old(self).looked_view().insert(digest@, model_view(model)),
            final(self).rated_view() == old(self).rated_view(),
            final(self).faced_view() == old(self).faced_view(),
    {
        proof { use_type_invariant(&*self); }
        let ghost value = model_view(model);
        let mut looked = StringHashMap::new();
        std::mem::swap(&mut looked, &mut self.looked);
        let ghost before = looked@;
        looked.insert(owned(digest), model);
        self.looked = looked;
        assert(self.looked_view() =~= before.map_values(|m: Option<String>| model_view(m)).insert(digest@, value));
    }

    /// Remembers that the picture with `digest` was looked at, by a model not named.
    pub fn saw(&mut self, digest: &str)
        ensures
            final(self).looked_view() == old(self).looked_view().insert(digest@, None),
            final(self).rated_view() == old(self).rated_view(),
            final(self).faced_view() == old(self).faced_view(),
    {
        self.remember(digest, None);
    }

    /// Remembers that the picture with `digest` was looked at by `model`.
    pub fn saw_with(&mut self, digest: &str, model: &str)
        ensures
            final(self).looked_view() == old(self).looked_view().insert(digest@, Some(model@)),
            final(self).rated_view() == old(self).rated_view(),
            final(self).faced_view() == old(self).faced_view(),
    {
        self.remember(digest, Some(owned(model)));
    }

    /// How many pictures were looked at.
    pub fn len(&self) -> (n: usize)
        ensures
            self.looked_view().dom().finite(),
            n == self.looked_view().dom().len(),
    {
        proof { use_type_invariant(self); }
        assert(self.looked_view().dom() =~= self.looked@.dom());
        self.looked.len()
    }

    /// Whether no picture was looked at yet.
    pub fn is_empty(&self) -> (b: bool)
        ensures
            self.looked_view().dom().finite(),
            b == (self.looked_view().dom().len() == 0),
    {
        proof { use_type_invariant(self); }
        assert(self.looked_view().dom() =~= self.looked@.dom());
        self.looked.len() == 0
    }
}

impl Default for Known {
    fn default() -> (k: Known)
        ensures
            k.looked_view() == Map::<Seq<char>, Option<Seq<char>>>::empty(),
            k.rated_view() == Set::<Seq<char>>::empty(),
            k.faced_view() == Set::<Seq<char>>::empty(),
    {
        Known::new()
    }
}

/// What the tagger is told it saw with a model (`saw_with`), it then knows it saw with
/// that model (`looked_with` holds), and what it knew of every other picture stays.
pub proof fn law_a_sighting_is_remembered(before: Known, after: Known, digest: Seq<char>, model: Seq<char>, other: Seq<char>)
    requires
        after.looked_view() == before.looked_view().insert(digest, Some(model)),
        other != digest,
    ensures
        after.looked_view().dom().contains(digest) && after.looked_view()[digest] == Some(model),
        after.looked_view().dom().contains(other) == before.looked_view().dom().contains(other),
        before.looked_view().dom().contains(other) ==> after.looked_view()[other] == before.looked_view()[other],
{
}

} // verus!
