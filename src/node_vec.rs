//! Lists of node labels returned by queries.
use crate::interner::label_seq;
use vstd::prelude::*;

verus! {

/// An owned list of node labels, the result of a query.
#[derive(Clone, Debug)]
pub struct NodeVec {
    pub(crate) values: Vec<String>,
}

impl View for NodeVec {
    type V = Seq<Seq<char>>;

    open(crate) spec fn view(&self) -> Seq<Seq<char>> {
        label_seq(self.values@)
    }
}

/// Walks the labels of a `NodeVec` one by one.
pub struct NodeVecIter {
    pub(crate) values: Vec<String>,
    pub(crate) i: usize,
}

impl View for NodeVecIter {
    /// All labels, and the index of the next one.
    type V = (Seq<Seq<char>>, int);

    open(crate) spec fn view(&self) -> (Seq<Seq<char>>, int) {
        (label_seq(self.values@), self.i as int)
    }
}

impl NodeVec {
    pub(crate) fn from_values(values: Vec<String>) -> (r: NodeVec)
        ensures
            r@ == label_seq(values@),
    {
        NodeVec { values }
    }

    pub fn as_slice(&self) -> (r: &[String])
        ensures
            label_seq(r@) == self@,
    {
        self.values.as_slice()
    }

    pub fn as_vec(&self) -> (r: Vec<String>)
        ensures
            label_seq(r@) == self@,
    {
        self.values.clone()
    }

    pub fn iter(&self) -> (r: NodeVecIter)
        ensures
            r@ == (self@, 0int),
    {
        NodeVecIter { values: self.values.clone(), i: 0 }
    }

    pub fn len(&self) -> (r: usize)
        ensures
            r == self@.len(),
    {
        self.values.len()
    }

    pub fn get(&self, index: usize) -> (r: Option<&str>)
        ensures
            index < self@.len() ==> (r matches Some(s) && s@ == self@[index as int]),
            index >= self@.len() ==> r is None,
    {
        if index < self.values.len() {
            Some(self.values[index].as_str())
        } else {
            None
        }
    }

    pub fn is_empty(&self) -> (r: bool)
        ensures
            r == (self@.len() == 0),
    {
        self.len() == 0
    }
}

impl NodeVecIter {
    /// The next label, or `None` once all were handed out.
    pub fn next(&mut self) -> (r: Option<String>)
        ensures
            final(self)@.0 == old(self)@.0,
            old(self)@.1 < old(self)@.0.len() ==> final(self)@.1 == old(self)@.1 + 1,
            old(self)@.1 < old(self)@.0.len() ==> (r matches Some(s) && s@ == old(
                self,
            )@.0[old(self)@.1]),
            old(self)@.1 >= old(self)@.0.len() ==> r is None && final(self)@.1 == old(self)@.1,
    {
        if self.i < self.values.len() {
            let s = self.values[self.i].clone();
            self.i = self.i + 1;
            Some(s)
        } else {
            None
        }
    }
}

} // verus!
