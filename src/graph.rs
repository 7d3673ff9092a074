//! The immutable graph, its model and its well-formedness.
use crate::error::GraphInteractionError;
use crate::interner::Resolver;
use crate::node_map::{members_total, some_member, total, NodeMap, Slot};
use crate::node_vec::NodeVec;
use crate::sorted::strictly_sorted;
use std::rc::Rc;
use vstd::prelude::*;

verus! {

/// The labels that the string slices hold.
pub open spec fn label_list(nodes: Seq<&str>) -> Seq<Seq<char>> {
    nodes.map_values(|s: &str| s@)
}

/// An immutable directed graph over interned labels, with adjacency in both
/// directions.
pub struct DirectedGraph {
    pub(crate) interner: Rc<Resolver>,
    pub(crate) leaves: Vec<u32>,
    pub(crate) roots: Vec<u32>,
    pub(crate) nodes: Vec<u32>,
    /// Maps parents to their children.
    pub(crate) children_map: NodeMap,
    /// Maps children to their parents.
    pub(crate) parent_map: NodeMap,
    pub(crate) n_edges: usize,
}

impl DirectedGraph {
    /// The number of symbols, known nodes or not.
    pub open(crate) spec fn n(&self) -> nat {
        self.children_map@.len()
    }

    /// The labels in symbol order.
    pub open(crate) spec fn labels(&self) -> Seq<Seq<char>> {
        self.interner.labels()
    }

    pub open(crate) spec fn children_of(&self, p: u32) -> Set<u32> {
        if p < self.n() {
            self.children_map@[p as int].members()
        } else {
            Set::empty()
        }
    }

    pub open(crate) spec fn parents_of(&self, c: u32) -> Set<u32> {
        if c < self.parent_map@.len() {
            self.parent_map@[c as int].members()
        } else {
            Set::empty()
        }
    }

    /// The graph has the edge `p -> c`.
    pub open(crate) spec fn has_edge(&self, p: u32, c: u32) -> bool {
        self.children_of(p).contains(c)
    }

    pub open(crate) spec fn is_node(&self, x: u32) -> bool {
        x < self.n() && !(self.children_map@[x as int] is Unknown)
    }

    /// A node without parents.
    pub open(crate) spec fn is_root(&self, x: u32) -> bool {
        x < self.n() && self.parent_map@[x as int] is Empty
    }

    /// A node without children.
    pub open(crate) spec fn is_leaf(&self, x: u32) -> bool {
        x < self.n() && self.children_map@[x as int] is Empty
    }

    /// The set of edges.
    pub open(crate) spec fn edges(&self) -> Set<(u32, u32)> {
        Set::new(|e: (u32, u32)| self.has_edge(e.0, e.1))
    }

    /// The nodes, ascending.
    pub open(crate) spec fn node_list(&self) -> Seq<u32> {
        self.nodes@
    }

    /// The roots, ascending.
    pub open(crate) spec fn root_list(&self) -> Seq<u32> {
        self.roots@
    }

    /// The leaves, ascending.
    pub open(crate) spec fn leaf_list(&self) -> Seq<u32> {
        self.leaves@
    }

    /// The child slot of each symbol.
    pub open(crate) spec fn children_slots(&self) -> Seq<Slot> {
        self.children_map@
    }

    /// The parent slot of each symbol.
    pub open(crate) spec fn parent_slots(&self) -> Seq<Slot> {
        self.parent_map@
    }

    /// The edge count kept with the graph.
    pub open(crate) spec fn edge_count(&self) -> int {
        self.n_edges as int
    }

    /// The graph's invariant, established when it is built.
    pub open(crate) spec fn wf(&self) -> bool {
        &&& self.interner.wf()
        &&& self.children_map@.len() == self.labels().len()
        &&& self.parent_map@.len() == self.labels().len()
        &&& self.children_map.finite()
        &&& self.parent_map.finite()
        &&& forall|p: u32, c: u32| #[trigger]
            self.children_of(p).contains(c) ==> self.parents_of(c).contains(p)
        &&& forall|p: u32, c: u32| #[trigger]
            self.parents_of(c).contains(p) ==> self.children_of(p).contains(c)
        &&& forall|p: u32, c: u32| #[trigger] self.children_of(p).contains(c) ==> c < self.n()
        &&& forall|p: u32, c: u32| #[trigger] self.parents_of(c).contains(p) ==> p < self.n()
        &&& forall|x: int|
            0 <= x < self.n() ==> (#[trigger] self.children_map@[x] is Unknown <==> self.parent_map@[x] is Unknown)
        &&& forall|x: int|
            0 <= x < self.n() ==> (#[trigger] self.children_map@[x] is Members
                ==> self.children_map@[x].members() != Set::<u32>::empty())
        &&& forall|x: int|
            0 <= x < self.n() ==> (#[trigger] self.parent_map@[x] is Members
                ==> self.parent_map@[x].members() != Set::<u32>::empty())
        &&& strictly_sorted(self.nodes@)
        &&& forall|x: u32| #[trigger] self.nodes@.contains(x) <==> self.is_node(x)
        &&& strictly_sorted(self.roots@)
        &&& forall|x: u32| #[trigger] self.roots@.contains(x) <==> self.is_root(x)
        &&& strictly_sorted(self.leaves@)
        &&& forall|x: u32| #[trigger] self.leaves@.contains(x) <==> self.is_leaf(x)
        &&& self.n_edges == total(self.children_map@)
        &&& self.n_edges == total(self.parent_map@)
    }

    /// Some symbol carries the label `l`.
    pub open(crate) spec fn knows(&self, l: Seq<char>) -> bool {
        self.labels().contains(l)
    }

    /// The symbol of a known label.
    pub open(crate) spec fn sym_of(&self, l: Seq<char>) -> u32 {
        choose|s: u32| s < self.labels().len() && self.labels()[s as int] == l
    }

    /// The labels of a sequence of symbols.
    pub open(crate) spec fn labels_of(&self, syms: Seq<u32>) -> Seq<Seq<char>> {
        syms.map_values(|s: u32| self.labels()[s as int])
    }

    /// All labels are known.
    pub open(crate) spec fn all_known(&self, ls: Seq<Seq<char>>) -> bool {
        forall|i: int| 0 <= i < ls.len() ==> #[trigger] self.knows(ls[i])
    }

    /// `e` is the error for the first unknown label of `ls`.
    pub open(crate) spec fn first_unknown_error(
        &self,
        ls: Seq<Seq<char>>,
        e: GraphInteractionError,
    ) -> bool {
        exists|i: int|
            0 <= i < ls.len() && !self.knows(ls[i]) && e.is_node_not_exist(ls[i]) && forall|j: int|
                0 <= j < i ==> #[trigger] self.knows(ls[j])
    }

    /// The symbols of the labels in order.
    pub open(crate) spec fn syms_of(&self, ls: Seq<Seq<char>>) -> Seq<u32> {
        ls.map_values(|l: Seq<char>| self.sym_of(l))
    }

    /// With a well-formed table, a known label has exactly one symbol.
    pub(crate) proof fn lemma_sym_of(&self, s: u32)
        requires
            self.interner.wf(),
            s < self.labels().len(),
        ensures
            self.knows(self.labels()[s as int]),
            self.sym_of(self.labels()[s as int]) == s,
    {
        let l = self.labels()[s as int];
        assert(self.interner.strs@[s as int]@ == l);
        assert(self.interner.map@.contains_key(self.interner.strs@[s as int]@));
        let t = self.sym_of(l);
        assert(self.labels()[t as int] == l);
        assert(self.labels()[t as int] == self.interner.strs@[t as int]@);
        assert(self.interner.map@.contains_key(self.interner.strs@[t as int]@));
    }

    /// The symbol of `val`, or the error that names it.
    pub(crate) fn get_internal(&self, val: &str) -> (r: Result<u32, GraphInteractionError>)
        requires
            self.interner.wf(),
        ensures
            r is Ok <==> self.knows(val@),
            r matches Ok(s) ==> s < self.labels().len() && self.labels()[s as int] == val@
                && s == self.sym_of(val@),
            r matches Err(e) ==> e.is_node_not_exist(val@),
    {
        match self.interner.get(val) {
            Some(s) => {
                proof {
                    self.lemma_sym_of(s);
                }
                Ok(s)
            },
            None => Err(GraphInteractionError::node_not_exists(val)),
        }
    }

    /// The symbols of all of `nodes`, or the error for the first unknown one.
    pub(crate) fn get_internal_mul(&self, nodes: &[&str]) -> (r: Result<
        Vec<u32>,
        GraphInteractionError,
    >)
        requires
            self.interner.wf(),
        ensures
            r is Ok <==> self.all_known(label_list(nodes@)),
            r matches Ok(v) ==> v@ == self.syms_of(label_list(nodes@)),
            r matches Ok(v) ==> forall|i: int| 0 <= i < v@.len() ==> v@[i] < self.labels().len(),
            r matches Err(e) ==> self.first_unknown_error(label_list(nodes@), e),
    {
        let ghost ls = label_list(nodes@);
        let mut out: Vec<u32> = Vec::new();
        let mut i: usize = 0;
        while i < nodes.len()
            invariant
                i <= nodes@.len(),
                ls == label_list(nodes@),
                self.interner.wf(),
                out@ == self.syms_of(ls.subrange(0, i as int)),
                forall|j: int| 0 <= j < i ==> #[trigger] self.knows(ls[j]),
                forall|j: int| 0 <= j < out@.len() ==> out@[j] < self.labels().len(),
            decreases nodes.len() - i,
        {
            match self.get_internal(nodes[i]) {
                Ok(s) => {
                    out.push(s);
                    proof {
                        assert(self.syms_of(ls.subrange(0, i + 1)) =~= self.syms_of(
                            ls.subrange(0, i as int),
                        ).push(s));
                    }
                },
                Err(e) => {
                    proof {
                        assert(!self.knows(ls[i as int]));
                    }
                    return Err(e);
                },
            }
            i = i + 1;
        }
        proof {
            assert(ls.subrange(0, nodes@.len() as int) =~= ls);
        }
        Ok(out)
    }

    /// The labels of `syms`.
    pub(crate) fn resolve_mul_slice(&self, syms: &[u32]) -> (r: NodeVec)
        requires
            forall|i: int| 0 <= i < syms@.len() ==> syms@[i] < self.labels().len(),
        ensures
            r@ == self.labels_of(syms@),
    {
        self.interner.resolve_many(syms)
    }

    pub(crate) fn share_interner(&self) -> (r: Rc<Resolver>)
        ensures
            r.labels() == self.labels(),
            r.wf() == self.interner.wf(),
    {
        Rc::clone(&self.interner)
    }

    /// All nodes, in symbol order.
    pub fn nodes(&self) -> (r: NodeVec)
        requires
            self.wf(),
        ensures
            r@ == self.labels_of(self.node_list()),
    {
        proof {
            assert forall|i: int| 0 <= i < self.nodes@.len() implies self.nodes@[i] < self.labels().len() by {
                assert(self.nodes@.contains(self.nodes@[i]));
            }
        }
        self.resolve_mul_slice(self.nodes.as_slice())
    }

    /// The number of nodes.
    pub fn len(&self) -> (r: usize)
        requires
            self.wf(),
        ensures
            r == self.node_list().len(),
    {
        self.nodes.len()
    }

    #[must_use]
    pub fn is_empty(&self) -> (r: bool)
        requires
            self.wf(),
        ensures
            r == (self.node_list().len() == 0),
    {
        self.len() == 0
    }

    /// The number of distinct edges.
    pub fn n_edges(&self) -> (r: usize)
        ensures
            r == self.edge_count(),
    {
        self.n_edges
    }

    /// All nodes without children, in symbol order.
    pub fn get_all_leaves(&self) -> (r: NodeVec)
        requires
            self.wf(),
        ensures
            r@ == self.labels_of(self.leaf_list()),
    {
        proof {
            assert forall|i: int| 0 <= i < self.leaves@.len() implies self.leaves@[i] < self.labels().len() by {
                assert(self.leaves@.contains(self.leaves@[i]));
            }
        }
        self.resolve_mul_slice(self.leaves.as_slice())
    }

    /// All nodes without parents, in symbol order.
    pub fn get_all_roots(&self) -> (r: NodeVec)
        requires
            self.wf(),
        ensures
            r@ == self.labels_of(self.root_list()),
    {
        proof {
            assert forall|i: int| 0 <= i < self.roots@.len() implies self.roots@[i] < self.labels().len() by {
                assert(self.roots@.contains(self.roots@[i]));
            }
        }
        self.resolve_mul_slice(self.roots.as_slice())
    }
}

} // verus!
