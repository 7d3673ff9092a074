//! The map from labels to symbols, kept in a hash map of the `fxhash` crate.
use fxhash::FxHashMap;
use vstd::prelude::*;

verus! {

/// A map from labels to symbols, held in a hash map of the `fxhash` crate.
#[verifier::external_body]
pub struct LabelMap {
    map: FxHashMap<String, u32>,
}

/// The label to symbol pairs that a `LabelMap` holds.
pub uninterp spec fn label_map_contents(m: LabelMap) -> Map<Seq<char>, u32>;

/// The map without entries.
pub open spec fn no_labels() -> Map<Seq<char>, u32> {
    Map::empty()
}

impl View for LabelMap {
    type V = Map<Seq<char>, u32>;

    open spec fn view(&self) -> Map<Seq<char>, u32> {
        label_map_contents(*self)
    }
}

impl LabelMap {
    /// Relies on `FxHashMap::default`: a new map is empty.
    #[verifier::external_body]
    pub fn new() -> (r: LabelMap)
        ensures
            label_map_contents(r) == no_labels(),
    {
        LabelMap { map: FxHashMap::default() }
    }

    /// Relies on `HashMap::get`: the symbol stored under `key`, if any.
    #[verifier::external_body]
    pub fn get(&self, key: &str) -> (r: Option<u32>)
        ensures
            r == (if label_map_contents(*self).contains_key(key@) {
                Some(label_map_contents(*self)[key@])
            } else {
                None
            }),
    {
        self.map.get(key).copied()
    }

    /// Relies on `HashMap::clone`: the copy holds the same pairs.
    #[verifier::external_body]
    pub fn duplicate(&self) -> (r: LabelMap)
        ensures
            label_map_contents(r) == label_map_contents(*self),
    {
        LabelMap { map: self.map.clone() }
    }

    /// Relies on `HashMap::insert`: `key` now maps to `value`.
    #[verifier::external_body]
    pub fn insert(&mut self, key: String, value: u32)
        ensures
            label_map_contents(*final(self)) == label_map_contents(*old(self)).insert(key@, value),
    {
        self.map.insert(key, value);
    }
}

} // verus!
