//! Sets of symbols, kept in a hash set of the `fxhash` crate.
use fxhash::FxHashSet;
use vstd::prelude::*;

verus! {

/// A set of symbols, held in a hash set of the `fxhash` crate.
#[verifier::external_body]
pub struct SymSet {
    set: FxHashSet<u32>,
}

/// The symbols that a `SymSet` holds.
pub uninterp spec fn sym_set_contents(s: SymSet) -> Set<u32>;

impl View for SymSet {
    type V = Set<u32>;

    open spec fn view(&self) -> Set<u32> {
        sym_set_contents(*self)
    }
}

impl SymSet {
    /// Relies on `FxHashSet::default`: a new set is empty.
    #[verifier::external_body]
    pub fn new() -> (r: SymSet)
        ensures
            sym_set_contents(r) == Set::<u32>::empty(),
            sym_set_contents(r).finite(),
    {
        SymSet { set: FxHashSet::default() }
    }

    /// Relies on `HashSet::insert`: adds `v`, and tells whether it was absent.
    #[verifier::external_body]
    pub fn insert(&mut self, v: u32) -> (r: bool)
        ensures
            sym_set_contents(*final(self)) == sym_set_contents(*old(self)).insert(v),
            r == !sym_set_contents(*old(self)).contains(v),
    {
        self.set.insert(v)
    }

    /// Relies on `HashSet::remove`: takes `v` out, and tells whether it was there.
    #[verifier::external_body]
    pub fn remove(&mut self, v: u32) -> (r: bool)
        ensures
            sym_set_contents(*final(self)) == sym_set_contents(*old(self)).remove(v),
            r == sym_set_contents(*old(self)).contains(v),
    {
        self.set.remove(&v)
    }

    /// Relies on `HashSet::contains`.
    #[verifier::external_body]
    pub fn contains(&self, v: u32) -> (r: bool)
        ensures
            r == sym_set_contents(*self).contains(v),
    {
        self.set.contains(&v)
    }

    /// Relies on `HashSet::is_empty`.
    #[verifier::external_body]
    pub fn is_empty(&self) -> (r: bool)
        ensures
            r == (sym_set_contents(*self) == Set::<u32>::empty()),
    {
        self.set.is_empty()
    }

    /// Relies on `HashSet::iter`: each member once, in the set's own order.
    #[verifier::external_body]
    pub fn to_vec(&self) -> (r: Vec<u32>)
        ensures
            r@.no_duplicates(),
            r@.to_set() == sym_set_contents(*self),
    {
        self.set.iter().copied().collect()
    }

    /// Relies on `HashSet::clone`: the copy holds the same members.
    #[verifier::external_body]
    pub fn duplicate(&self) -> (r: SymSet)
        ensures
            sym_set_contents(r) == sym_set_contents(*self),
            sym_set_contents(r).finite(),
    {
        SymSet { set: self.set.clone() }
    }
}

} // verus!

verus! {

/// A set of symbols below `n` is finite and holds at most `n` of them.
pub proof fn lemma_bounded_set(s: Set<u32>, n: u32)
    requires
        forall|x: u32| #[trigger] s.contains(x) ==> x < n,
    ensures
        s.finite(),
        s.len() <= n,
{
    let full = Set::<u32>::range(0, n);
    vstd::set_lib::range_set_properties::<u32>(0, n);
    assert(s.subset_of(full));
    vstd::set_lib::lemma_set_subset_finite(full, s);
    vstd::set_lib::lemma_len_subset(s, full);
}

} // verus!
