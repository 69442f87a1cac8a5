//! Maps from names and from node ids to positions.
//!
//! Both are `FxHashMap`s of the `rustc-hash` crate. What they hold is named by `names_of` and
//! `ids_of`; the functions here say what the map's own operations do to it.

use vstd::prelude::*;

use rustc_hash::FxHashMap;

verus! {

/// A map from names to positions.
#[verifier::external_body]
#[derive(Debug)]
pub struct NameIndex {
    map: FxHashMap<String, usize>,
}

/// What a `NameIndex` holds.
pub uninterp spec fn names_of(index: NameIndex) -> Map<Seq<char>, usize>;

/// A map in which no name stands for anything.
pub open spec fn no_names() -> Map<Seq<char>, usize> {
    Map::empty()
}

impl View for NameIndex {
    type V = Map<Seq<char>, usize>;

    open spec fn view(&self) -> Map<Seq<char>, usize> {
        names_of(*self)
    }
}

impl NameIndex {
    /// `FxHashMap::default`: a map without entries.
    #[verifier::external_body]
    pub(crate) fn new() -> (r: Self)
        ensures
            names_of(r) == no_names(),
    {
        NameIndex { map: FxHashMap::default() }
    }

    /// `HashMap::insert`: afterwards the name stands for the position, whatever it stood for
    /// before, and every other name stands for what it did.
    #[verifier::external_body]
    pub(crate) fn insert(&mut self, name: String, at: usize)
        ensures
            names_of(*final(self)) == names_of(*old(self)).insert(name@, at),
    {
        self.map.insert(name, at);
    }

    /// `HashMap::get`: the position that the name stands for, if it stands for one.
    #[verifier::external_body]
    pub(crate) fn get(&self, name: &str) -> (r: Option<usize>)
        ensures
            r == (if names_of(*self).dom().contains(name@) {
                Some(names_of(*self)[name@])
            } else {
                None
            }),
    {
        self.map.get(name).copied()
    }

    /// `HashMap::remove`: afterwards the name stands for nothing, and every other name for what
    /// it did.
    #[verifier::external_body]
    pub(crate) fn remove(&mut self, name: &str)
        ensures
            names_of(*final(self)) == names_of(*old(self)).remove(name@),
    {
        self.map.remove(name);
    }
}

impl Clone for NameIndex {
    /// `HashMap::clone`: a map with the same entries.
    #[verifier::external_body]
    fn clone(&self) -> (r: Self)
        ensures
            names_of(r) == names_of(*self),
    {
        NameIndex { map: self.map.clone() }
    }
}

/// A map from node ids to positions.
#[verifier::external_body]
#[derive(Debug)]
pub struct IdIndex {
    map: FxHashMap<i64, usize>,
}

/// What an `IdIndex` holds.
pub uninterp spec fn ids_of(index: IdIndex) -> Map<i64, usize>;

/// A map in which no id stands for anything.
pub open spec fn no_ids() -> Map<i64, usize> {
    Map::empty()
}

impl View for IdIndex {
    type V = Map<i64, usize>;

    open spec fn view(&self) -> Map<i64, usize> {
        ids_of(*self)
    }
}

impl IdIndex {
    /// `FxHashMap::default`: a map without entries.
    #[verifier::external_body]
    pub(crate) fn new() -> (r: Self)
        ensures
            ids_of(r) == no_ids(),
    {
        IdIndex { map: FxHashMap::default() }
    }

    /// `HashMap::insert`: afterwards the id stands for the position, whatever it stood for
    /// before, and every other id stands for what it did.
    #[verifier::external_body]
    pub(crate) fn insert(&mut self, id: i64, at: usize)
        ensures
            ids_of(*final(self)) == ids_of(*old(self)).insert(id, at),
    {
        self.map.insert(id, at);
    }

    /// `HashMap::get`: the position that the id stands for, if it stands for one.
    #[verifier::external_body]
    pub(crate) fn get(&self, id: i64) -> (r: Option<usize>)
        ensures
            r == (if ids_of(*self).dom().contains(id) {
                Some(ids_of(*self)[id])
            } else {
                None
            }),
    {
        self.map.get(&id).copied()
    }
}

} // verus!
