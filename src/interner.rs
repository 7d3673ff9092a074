//! Interning labels into dense symbols, and the frozen label table.
use crate::label_map::LabelMap;
use crate::node_vec::NodeVec;
use crate::sym::RESERVED_SYMBOL;
use vstd::prelude::*;

verus! {

/// The labels in symbol order, as character sequences.
pub open spec fn label_seq(strs: Seq<String>) -> Seq<Seq<char>> {
    strs.map_values(|s: String| s@)
}

/// Symbol `i` is the label `strs[i]`, and the map agrees with that numbering.
pub open spec fn numbering_agrees(strs: Seq<String>, map: Map<Seq<char>, u32>) -> bool {
    &&& strs.len() < RESERVED_SYMBOL
    &&& forall|i: int|
        0 <= i < strs.len() ==> #[trigger] map.contains_key(strs[i]@) && map[strs[i]@] == i
    &&& forall|k: Seq<char>|
        #[trigger] map.contains_key(k) ==> map[k] < strs.len() && strs[map[k] as int]@ == k
}

/// Interns labels during building: each new label gets the next symbol.
pub struct InternerBuilder {
    pub(crate) strs: Vec<String>,
    pub(crate) map: LabelMap,
}

/// The finalized, immutable label table of a graph.
pub struct Resolver {
    pub(crate) strs: Vec<String>,
    pub(crate) map: LabelMap,
}

impl InternerBuilder {
    pub open(crate) spec fn wf(&self) -> bool {
        numbering_agrees(self.strs@, self.map@)
    }

    /// The labels interned so far, in symbol order.
    pub open(crate) spec fn labels(&self) -> Seq<Seq<char>> {
        label_seq(self.strs@)
    }

    pub fn new() -> (r: InternerBuilder)
        ensures
            r.wf(),
            r.labels() == Seq::<Seq<char>>::empty(),
    {
        InternerBuilder { strs: Vec::new(), map: LabelMap::new() }
    }

    /// The number of labels interned so far.
    pub fn len(&self) -> (r: usize)
        ensures
            r == self.labels().len(),
    {
        self.strs.len()
    }

    /// The symbol of `val`: the one it already has, or else the next one.
    pub fn get_or_intern(&mut self, val: &str) -> (r: u32)
        requires
            old(self).wf(),
            old(self).labels().len() + 1 < RESERVED_SYMBOL,
        ensures
            final(self).wf(),
            old(self).labels().contains(val@) ==> final(self).labels() == old(self).labels(),
            !old(self).labels().contains(val@) ==> final(self).labels() == old(self).labels().push(
                val@,
            ),
            r < final(self).labels().len(),
            final(self).labels()[r as int] == val@,
    {
        match self.map.get(val) {
            Some(sym) => {
                proof {
                    let i = sym as int;
                    assert(self.labels()[i] == val@);
                }
                sym
            },
            None => {
                proof {
                    if self.labels().contains(val@) {
                        let i = choose|i: int| 0 <= i < self.labels().len() && self.labels()[i] == val@;
                        assert(self.map@.contains_key(self.strs@[i]@));
                    }
                }
                let sym = self.strs.len() as u32;
                self.strs.push(val.to_owned());
                self.map.insert(val.to_owned(), sym);
                proof {
                    assert(self.labels() =~= old(self).labels().push(val@));
                }
                sym
            },
        }
    }

    /// Freezes the table.
    pub fn build(self) -> (r: Resolver)
        requires
            self.wf(),
        ensures
            r.wf(),
            r.labels() == self.labels(),
    {
        Resolver { strs: self.strs, map: self.map }
    }
}

impl Clone for InternerBuilder {
    fn clone(&self) -> (r: InternerBuilder)
        ensures
            r.labels() == self.labels(),
            self.wf() ==> r.wf(),
    {
        let strs = self.strs.clone();
        proof {
            assert(strs@ =~= self.strs@);
        }
        InternerBuilder { strs, map: self.map.duplicate() }
    }
}

impl Resolver {
    pub open(crate) spec fn wf(&self) -> bool {
        numbering_agrees(self.strs@, self.map@)
    }

    /// The labels in symbol order.
    pub open(crate) spec fn labels(&self) -> Seq<Seq<char>> {
        label_seq(self.strs@)
    }

    /// The symbol of `val`, if it was interned.
    pub fn get(&self, val: &str) -> (r: Option<u32>)
        requires
            self.wf(),
        ensures
            r matches Some(s) ==> s < self.labels().len() && self.labels()[s as int] == val@,
            r is None <==> !self.labels().contains(val@),
    {
        let r = self.map.get(val);
        proof {
            if r is None && self.labels().contains(val@) {
                let i = choose|i: int| 0 <= i < self.labels().len() && self.labels()[i] == val@;
                assert(self.map@.contains_key(self.strs@[i]@));
            }
        }
        r
    }

    /// The number of symbols.
    pub fn len(&self) -> (r: usize)
        ensures
            r == self.labels().len(),
    {
        self.strs.len()
    }

    /// All labels, in symbol order.
    pub fn strs(&self) -> (r: &[String])
        ensures
            label_seq(r@) == self.labels(),
    {
        self.strs.as_slice()
    }

    /// The label of symbol `sym`.
    pub fn resolve(&self, sym: u32) -> (r: &str)
        requires
            sym < self.labels().len(),
        ensures
            r@ == self.labels()[sym as int],
    {
        self.strs[sym as usize].as_str()
    }

    /// The labels of `syms`, in order.
    pub fn resolve_many(&self, syms: &[u32]) -> (r: NodeVec)
        requires
            forall|i: int| 0 <= i < syms@.len() ==> syms@[i] < self.labels().len(),
        ensures
            r@ == syms@.map_values(|s: u32| self.labels()[s as int]),
    {
        let mut values: Vec<String> = Vec::new();
        let mut i: usize = 0;
        while i < syms.len()
            invariant
                i <= syms@.len(),
                forall|j: int| 0 <= j < syms@.len() ==> syms@[j] < self.labels().len(),
                label_seq(values@) == syms@.subrange(0, i as int).map_values(
                    |s: u32| self.labels()[s as int],
                ),
            decreases syms.len() - i,
        {
            let ghost before = values@;
            values.push(self.strs[syms[i] as usize].clone());
            proof {
                assert(values@ == before.push(self.strs@[syms@[i as int] as int]));
                assert(label_seq(values@) =~= label_seq(before).push(self.labels()[syms@[i as int] as int]));
                assert(label_seq(values@) =~= syms@.subrange(0, i + 1).map_values(
                    |s: u32| self.labels()[s as int],
                ));
            }
            i = i + 1;
        }
        proof {
            assert(syms@.subrange(0, syms@.len() as int) =~= syms@);
        }
        NodeVec::from_values(values)
    }
}

} // verus!
