//! Neighbour queries, least common parents, and the leaves below and roots above nodes.
use crate::error::GraphInteractionError;
use crate::graph::{label_list, DirectedGraph};
use crate::node_map::{members_count, members_total, some_member};
use crate::node_vec::NodeVec;
use crate::sorted::{sorted_unique, strictly_sorted};
use crate::sym_set::{lemma_bounded_set, SymSet};
use vstd::prelude::*;

verus! {

impl DirectedGraph {
    /// The neighbour list `out` of `ids` in `m`: each neighbour of each id in
    /// turn, repeats kept, as labels.
    pub open(crate) spec fn neighbour_labels(
        &self,
        children: bool,
        ids: Seq<u32>,
        out: Seq<Seq<char>>,
    ) -> bool {
        let m = if children {
            self.children_map@
        } else {
            self.parent_map@
        };
        &&& out.len() == members_total(m, ids)
        &&& forall|y: u32|
            y < self.labels().len() ==> #[trigger] out.to_multiset().count(self.labels()[y as int])
                == members_count(m, ids, y)
        &&& forall|l: Seq<char>|
            out.contains(l) <==> exists|y: u32|
                some_member(m, ids, y) && y < self.labels().len() && #[trigger] self.labels()[y as int]
                    == l
    }

    pub(crate) fn neighbours_u32(&self, children: bool, ids: &[u32]) -> (r: Vec<u32>)
        requires
            self.wf(),
            forall|i: int| 0 <= i < ids@.len() ==> ids@[i] < self.labels().len(),
        ensures
            r@.len() == members_total(
                if children {
                    self.children_map@
                } else {
                    self.parent_map@
                },
                ids@,
            ),
            forall|y: u32|
                r@.contains(y) <==> some_member(
                    if children {
                        self.children_map@
                    } else {
                        self.parent_map@
                    },
                    ids@,
                    y,
                ),
            forall|i: int| 0 <= i < r@.len() ==> r@[i] < self.labels().len(),
            forall|y: u32|
                #[trigger] r@.to_multiset().count(y) == members_count(
                    if children {
                        self.children_map@
                    } else {
                        self.parent_map@
                    },
                    ids@,
                    y,
                ),
    {
        let mut out: Vec<u32> = Vec::new();
        if children {
            self.children_map.collect_members(ids, &mut out);
            proof {
                assert(out@.subrange(0, out@.len() as int) =~= out@);
                assert forall|i: int| 0 <= i < out@.len() implies out@[i] < self.labels().len() by {
                    let y = out@[i];
                    assert(out@.contains(y));
                    assert(some_member(self.children_map@, ids@, y));
                    let q = choose|q: int|
                        0 <= q < ids@.len() && #[trigger] self.children_map@[ids@[q] as int].members().contains(y);
                    assert(self.children_of(ids@[q]).contains(y));
                }
            }
        } else {
            self.parent_map.collect_members(ids, &mut out);
            proof {
                assert(out@.subrange(0, out@.len() as int) =~= out@);
                assert forall|i: int| 0 <= i < out@.len() implies out@[i] < self.labels().len() by {
                    let y = out@[i];
                    assert(out@.contains(y));
                    assert(some_member(self.parent_map@, ids@, y));
                    let q = choose|q: int|
                        0 <= q < ids@.len() && #[trigger] self.parent_map@[ids@[q] as int].members().contains(y);
                    assert(self.parents_of(ids@[q]).contains(y));
                }
            }
        }
        out
    }

    /// The labels of symbols `syms` that satisfy `neighbour_labels`.
    proof fn lemma_neighbour_labels(&self, children: bool, ids: Seq<u32>, syms: Seq<u32>)
        requires
            self.wf(),
            syms.len() == members_total(
                if children {
                    self.children_map@
                } else {
                    self.parent_map@
                },
                ids,
            ),
            forall|y: u32|
                syms.contains(y) <==> some_member(
                    if children {
                        self.children_map@
                    } else {
                        self.parent_map@
                    },
                    ids,
                    y,
                ),
            forall|i: int| 0 <= i < syms.len() ==> syms[i] < self.labels().len(),
            forall|y: u32|
                #[trigger] syms.to_multiset().count(y) == members_count(
                    if children {
                        self.children_map@
                    } else {
                        self.parent_map@
                    },
                    ids,
                    y,
                ),
        ensures
            self.neighbour_labels(children, ids, self.labels_of(syms)),
    {
        self.lemma_label_counts(syms);
        let out = self.labels_of(syms);
        let m = if children {
            self.children_map@
        } else {
            self.parent_map@
        };
        assert forall|l: Seq<char>|
            out.contains(l) <==> exists|y: u32|
                some_member(m, ids, y) && y < self.labels().len() && #[trigger] self.labels()[y as int]
                    == l by {
            if out.contains(l) {
                let i = choose|i: int| 0 <= i < out.len() && out[i] == l;
                let y = syms[i];
                assert(syms.contains(y));
                assert(some_member(m, ids, y) && y < self.labels().len() && self.labels()[y as int] == l);
            }
            if exists|y: u32|
                some_member(m, ids, y) && y < self.labels().len() && #[trigger] self.labels()[y as int]
                    == l {
                let y = choose|y: u32|
                    some_member(m, ids, y) && y < self.labels().len() && #[trigger] self.labels()[y as int]
                        == l;
                assert(syms.contains(y));
                let i = choose|i: int| 0 <= i < syms.len() && syms[i] == y;
                assert(out[i] == l);
            }
        }
    }

    /// Distinct symbols have distinct labels, so a label occurs among the
    /// labels of `syms` as often as its symbol occurs in `syms`.
    proof fn lemma_label_counts(&self, syms: Seq<u32>)
        requires
            self.wf(),
            forall|i: int| 0 <= i < syms.len() ==> syms[i] < self.labels().len(),
        ensures
            forall|y: u32|
                y < self.labels().len() ==> #[trigger] self.labels_of(syms).to_multiset().count(
                    self.labels()[y as int],
                ) == syms.to_multiset().count(y),
        decreases syms.len(),
    {
        broadcast use vstd::seq_lib::group_to_multiset_ensures;

        if syms.len() == 0 {
            assert(self.labels_of(syms) =~= Seq::<Seq<char>>::empty());
            assert forall|y: u32|
                y < self.labels().len() implies #[trigger] self.labels_of(syms).to_multiset().count(
                    self.labels()[y as int],
                ) == syms.to_multiset().count(y) by {
                assert(Seq::<Seq<char>>::empty().to_multiset().len() == 0);
                assert(syms.to_multiset().len() == 0);
            }
        } else {
            let pre = syms.drop_last();
            let z = syms.last();
            self.lemma_label_counts(pre);
            assert(syms =~= pre.push(z));
            assert(self.labels_of(syms) =~= self.labels_of(pre).push(self.labels()[z as int]));
            assert forall|y: u32|
                y < self.labels().len() implies #[trigger] self.labels_of(syms).to_multiset().count(
                    self.labels()[y as int],
                ) == syms.to_multiset().count(y) by {
                assert(self.labels_of(pre).to_multiset().count(self.labels()[y as int]) == pre.to_multiset().count(y));
                self.lemma_sym_of(y);
                self.lemma_sym_of(z);
            }
        }
    }

    /// The children of each of `nodes` in turn. A node that is the child of
    /// two of them comes twice: removing repeats is left to the caller.
    pub fn children(&self, nodes: &[&str]) -> (r: Result<NodeVec, GraphInteractionError>)
        requires
            self.wf(),
        ensures
            r is Ok <==> self.all_known(label_list(nodes@)),
            r matches Ok(v) ==> self.neighbour_labels(
                true,
                self.syms_of(label_list(nodes@)),
                v@,
            ),
            r matches Err(e) ==> self.first_unknown_error(label_list(nodes@), e),
    {
        let ids = self.get_internal_mul(nodes)?;
        let res = self.neighbours_u32(true, ids.as_slice());
        proof {
            self.lemma_neighbour_labels(true, ids@, res@);
        }
        Ok(self.resolve_mul_slice(res.as_slice()))
    }

    /// The parents of each of `nodes` in turn. A node that is the parent of
    /// two of them comes twice: removing repeats is left to the caller.
    pub fn parents(&self, nodes: &[&str]) -> (r: Result<NodeVec, GraphInteractionError>)
        requires
            self.wf(),
        ensures
            r is Ok <==> self.all_known(label_list(nodes@)),
            r matches Ok(v) ==> self.neighbour_labels(
                false,
                self.syms_of(label_list(nodes@)),
                v@,
            ),
            r matches Err(e) ==> self.first_unknown_error(label_list(nodes@), e),
    {
        let ids = self.get_internal_mul(nodes)?;
        let res = self.neighbours_u32(false, ids.as_slice());
        proof {
            self.lemma_neighbour_labels(false, ids@, res@);
        }
        Ok(self.resolve_mul_slice(res.as_slice()))
    }

    /// For each of `nodes`, whether it has at least one parent.
    pub fn has_parents(&self, nodes: &[&str]) -> (r: Result<Vec<bool>, GraphInteractionError>)
        requires
            self.wf(),
        ensures
            r is Ok <==> self.all_known(label_list(nodes@)),
            r matches Ok(v) ==> v@.len() == nodes@.len() && forall|i: int|
                0 <= i < v@.len() ==> #[trigger] v@[i] == (self.parents_of(
                    self.syms_of(label_list(nodes@))[i],
                ) != Set::<u32>::empty()),
            r matches Err(e) ==> self.first_unknown_error(label_list(nodes@), e),
    {
        let ids = self.get_internal_mul(nodes)?;
        let mut out: Vec<bool> = Vec::new();
        let mut i: usize = 0;
        while i < ids.len()
            invariant
                self.wf(),
                i <= ids@.len(),
                out@.len() == i,
                forall|j: int| 0 <= j < ids@.len() ==> ids@[j] < self.labels().len(),
                forall|j: int|
                    0 <= j < i ==> #[trigger] out@[j] == (self.parents_of(ids@[j]) != Set::<
                        u32,
                    >::empty()),
            decreases ids.len() - i,
        {
            let b = self.parent_map.contains_key(ids[i]);
            proof {
                let x = ids@[i as int] as int;
                if !b {
                    assert(self.parents_of(ids@[i as int]) =~= Set::<u32>::empty());
                }
            }
            out.push(b);
            i = i + 1;
        }
        Ok(out)
    }

    /// For each of `nodes`, whether it has at least one child.
    pub fn has_children(&self, nodes: &[&str]) -> (r: Result<Vec<bool>, GraphInteractionError>)
        requires
            self.wf(),
        ensures
            r is Ok <==> self.all_known(label_list(nodes@)),
            r matches Ok(v) ==> v@.len() == nodes@.len() && forall|i: int|
                0 <= i < v@.len() ==> #[trigger] v@[i] == (self.children_of(
                    self.syms_of(label_list(nodes@))[i],
                ) != Set::<u32>::empty()),
            r matches Err(e) ==> self.first_unknown_error(label_list(nodes@), e),
    {
        let ids = self.get_internal_mul(nodes)?;
        let mut out: Vec<bool> = Vec::new();
        let mut i: usize = 0;
        while i < ids.len()
            invariant
                self.wf(),
                i <= ids@.len(),
                out@.len() == i,
                forall|j: int| 0 <= j < ids@.len() ==> ids@[j] < self.labels().len(),
                forall|j: int|
                    0 <= j < i ==> #[trigger] out@[j] == (self.children_of(ids@[j]) != Set::<
                        u32,
                    >::empty()),
            decreases ids.len() - i,
        {
            let b = self.children_map.contains_key(ids[i]);
            proof {
                if !b {
                    assert(self.children_of(ids@[i as int]) =~= Set::<u32>::empty());
                }
            }
            out.push(b);
            i = i + 1;
        }
        Ok(out)
    }

    /// Whether the graph has the edge `from -> to`.
    pub(crate) fn edge_exists(&self, from: u32, to: u32) -> (r: bool)
        requires
            self.wf(),
            from < self.labels().len(),
        ensures
            r == self.has_edge(from, to),
    {
        match self.children_map.get(from) {
            crate::node_map::LazySet::Initialized(s) => s.contains(to),
            _ => false,
        }
    }

    /// `x` is among `ids` and none of `ids` is a parent of it.
    pub open(crate) spec fn lcp_member(&self, ids: Seq<u32>, x: u32) -> bool {
        ids.contains(x) && forall|s: u32| ids.contains(s) ==> !#[trigger] self.parents_of(x).contains(s)
    }

    /// `v` is, ascending, the labels of the members of `ids` that have no
    /// parent among `ids`.
    pub open(crate) spec fn is_lcp_labels(&self, ids: Seq<u32>, v: Seq<Seq<char>>) -> bool {
        exists|syms: Seq<u32>|
            strictly_sorted(syms) && v == self.labels_of(syms) && forall|x: u32|
                #[trigger] syms.contains(x) <==> self.lcp_member(ids, x)
    }

    /// The members of `selected` that have no parent in `selected`: the
    /// upper frontier of the selection, in symbol order.
    pub fn least_common_parents(&self, selected: &[&str]) -> (r: Result<NodeVec, GraphInteractionError>)
        requires
            self.wf(),
        ensures
            r is Ok <==> self.all_known(label_list(selected@)),
            r matches Ok(v) ==> self.is_lcp_labels(self.syms_of(label_list(selected@)), v@),
            r matches Err(e) ==> self.first_unknown_error(label_list(selected@), e),
    {
        let ids = self.get_internal_mul(selected)?;
        let mut set = SymSet::new();
        let mut i: usize = 0;
        while i < ids.len()
            invariant
                i <= ids@.len(),
                forall|x: u32| set@.contains(x) <==> exists|j: int| 0 <= j < i && ids@[j] == x,
            decreases ids.len() - i,
        {
            let ghost s0 = set@;
            set.insert(ids[i]);
            proof {
                assert forall|x: u32| set@.contains(x) <==> exists|j: int| 0 <= j < i + 1 && ids@[j] == x by {
                    assert(set@.contains(x) <==> (s0.contains(x) || x == ids@[i as int]));
                    if s0.contains(x) {
                        let j = choose|j: int| 0 <= j < i && ids@[j] == x;
                        assert(0 <= j < i + 1 && ids@[j] == x);
                    }
                    if x == ids@[i as int] {
                        assert(0 <= i < i + 1 && ids@[i as int] == x);
                    }
                    if exists|j: int| 0 <= j < i + 1 && ids@[j] == x {
                        let j = choose|j: int| 0 <= j < i + 1 && ids@[j] == x;
                        if j < i {
                            assert(exists|j: int| 0 <= j < i && ids@[j] == x);
                        }
                    }
                }
            }
            i = i + 1;
        }
        proof {
            assert forall|x: u32| set@.contains(x) <==> ids@.contains(x) by {
                if ids@.contains(x) {
                    let j = choose|j: int| 0 <= j < ids@.len() && ids@[j] == x;
                    assert(exists|j: int| 0 <= j < ids@.len() && ids@[j] == x);
                }
            }
        }
        let mut found: Vec<u32> = Vec::new();
        let mut i: usize = 0;
        while i < ids.len()
            invariant
                self.wf(),
                i <= ids@.len(),
                forall|j: int| 0 <= j < ids@.len() ==> ids@[j] < self.labels().len(),
                forall|x: u32| set@.contains(x) <==> ids@.contains(x),
                forall|x: u32|
                    found@.contains(x) <==> (exists|j: int| 0 <= j < i && ids@[j] == x) && self.lcp_member(
                        ids@,
                        x,
                    ),
            decreases ids.len() - i,
        {
            let child = ids[i];
            let ps = self.parent_map.members_vec(child);
            let mut k: usize = 0;
            let mut any = false;
            while k < ps.len() && !any
                invariant
                    k <= ps@.len(),
                    forall|x: u32| set@.contains(x) <==> ids@.contains(x),
                    any ==> exists|s: u32| ids@.contains(s) && ps@.contains(s),
                    !any ==> forall|q: int| 0 <= q < k ==> !ids@.contains(#[trigger] ps@[q]),
                decreases ps.len() - k,
            {
                if set.contains(ps[k]) {
                    any = true;
                    proof {
                        assert(ps@.contains(ps@[k as int]));
                    }
                }
                k = k + 1;
            }
            proof {
                assert(ps@.to_set() == self.parents_of(child));
                if any {
                    let s = choose|s: u32| ids@.contains(s) && ps@.contains(s);
                    assert(ps@.to_set().contains(s));
                    assert(!self.lcp_member(ids@, child));
                } else {
                    assert forall|s: u32| ids@.contains(s) implies !#[trigger] self.parents_of(child).contains(s) by {
                        if ps@.to_set().contains(s) {
                            let q = choose|q: int| 0 <= q < ps@.len() && ps@[q] == s;
                        }
                    }
                    assert(ids@.contains(child)) by {
                        assert(ids@[i as int] == child);
                    }
                    assert(self.lcp_member(ids@, child));
                }
            }
            let ghost f0 = found@;
            if !any {
                found.push(child);
            }
            proof {
                assert forall|x: u32|
                    found@.contains(x) <==> (exists|j: int| 0 <= j < i + 1 && ids@[j] == x) && self.lcp_member(
                        ids@,
                        x,
                    ) by {
                    if found@.contains(x) && x != child {
                        let q = choose|q: int| 0 <= q < found@.len() && found@[q] == x;
                        assert(f0[q] == x);
                        assert(f0.contains(x));
                        let j = choose|j: int| 0 <= j < i && ids@[j] == x;
                        assert(0 <= j < i + 1 && ids@[j] == x);
                    }
                    if x == child && !any {
                        assert(found@[found@.len() - 1] == x);
                        assert(0 <= i < i + 1 && ids@[i as int] == x);
                    }
                    if (exists|j: int| 0 <= j < i + 1 && ids@[j] == x) && self.lcp_member(ids@, x) {
                        let j = choose|j: int| 0 <= j < i + 1 && ids@[j] == x;
                        if j < i {
                            assert(exists|j: int| 0 <= j < i && ids@[j] == x);
                            assert(f0.contains(x));
                            let q = choose|q: int| 0 <= q < f0.len() && f0[q] == x;
                            assert(found@[q] == x);
                        } else {
                            assert(x == child);
                        }
                    }
                }
            }
            i = i + 1;
        }
        let res = sorted_unique(&found);
        proof {
            assert forall|x: u32| #[trigger] res@.contains(x) <==> self.lcp_member(ids@, x) by {
                if self.lcp_member(ids@, x) {
                    let j = choose|j: int| 0 <= j < ids@.len() && ids@[j] == x;
                    assert(exists|j: int| 0 <= j < ids@.len() && ids@[j] == x);
                }
            }
            assert forall|k: int| 0 <= k < res@.len() implies res@[k] < self.labels().len() by {
                assert(res@.contains(res@[k]));
                let j = choose|j: int| 0 <= j < ids@.len() && ids@[j] == res@[k];
            }
        }
        let out = self.resolve_mul_slice(res.as_slice());
        proof {
            assert(strictly_sorted(res@) && out@ == self.labels_of(res@));
        }
        Ok(out)
    }

    /// A leaf, going down; a root, going up.
    pub open(crate) spec fn is_end(&self, down: bool, x: u32) -> bool {
        if down {
            self.is_leaf(x)
        } else {
            self.is_root(x)
        }
    }

    /// Some of `ids` reaches `x` in the direction.
    pub open(crate) spec fn reached_from(&self, down: bool, ids: Seq<u32>, x: u32) -> bool {
        exists|i: int| 0 <= i < ids.len() && #[trigger] self.reaches(down, ids[i], x)
    }

    /// `v` holds, each once and in some order, the labels of the ends that
    /// `ids` reach in the direction.
    pub open(crate) spec fn is_ends_labels(&self, down: bool, ids: Seq<u32>, v: Seq<Seq<char>>) -> bool {
        exists|syms: Seq<u32>|
            syms.no_duplicates() && v == self.labels_of(syms) && forall|x: u32|
                #[trigger] syms.contains(x) <==> (self.is_end(down, x) && self.reached_from(down, ids, x))
    }

    /// Along a path whose start a closed set holds, the set holds node `k`.
    proof fn lemma_closed_down(&self, vis: Set<u32>, p: Seq<u32>, a: u32, b: u32, k: int)
        requires
            self.is_path_from_to(p, a, b),
            vis.contains(a),
            forall|x: u32, y: u32| vis.contains(x) && #[trigger] self.dir_edge(true, x, y) ==> vis.contains(y),
            0 <= k < p.len(),
        ensures
            vis.contains(p[k]),
        decreases k,
    {
        if k > 0 {
            self.lemma_closed_down(vis, p, a, b, k - 1);
            assert(self.has_edge(p[k - 1], p[k - 1 + 1]));
            assert(self.dir_edge(true, p[k - 1], p[k]));
        }
    }

    /// Along a path whose end a closed set holds, the set holds node `k`.
    proof fn lemma_closed_up(&self, vis: Set<u32>, p: Seq<u32>, a: u32, b: u32, k: int)
        requires
            self.is_path_from_to(p, a, b),
            vis.contains(b),
            forall|x: u32, y: u32| vis.contains(x) && #[trigger] self.dir_edge(false, x, y) ==> vis.contains(y),
            0 <= k < p.len(),
        ensures
            vis.contains(p[k]),
        decreases p.len() - k,
    {
        if k < p.len() - 1 {
            self.lemma_closed_up(vis, p, a, b, k + 1);
            assert(self.has_edge(p[k], p[k + 1]));
            assert(self.dir_edge(false, p[k + 1], p[k]));
        }
    }

    /// A set closed under steps in the direction holds all that its members reach.
    pub(crate) proof fn lemma_closed_holds_reached(&self, down: bool, vis: Set<u32>, s: u32, x: u32)
        requires
            vis.contains(s),
            forall|a: u32, b: u32| vis.contains(a) && #[trigger] self.dir_edge(down, a, b) ==> vis.contains(b),
            self.reaches(down, s, x),
        ensures
            vis.contains(x),
    {
        if down {
            let p = choose|p: Seq<u32>| self.is_path_from_to(p, s, x);
            self.lemma_closed_down(vis, p, s, x, p.len() - 1);
        } else {
            let p = choose|p: Seq<u32>| self.is_path_from_to(p, x, s);
            self.lemma_closed_up(vis, p, x, s, 0);
        }
    }

    /// Depth-first search from `seeds` in the direction, collecting the ends
    /// (leaves going down, roots going up) that it meets, each once.
    fn ends_from(&self, down: bool, seeds: Vec<u32>) -> (r: Vec<u32>)
        requires
            self.wf(),
            forall|i: int| 0 <= i < seeds@.len() ==> seeds@[i] < self.labels().len(),
        ensures
            r@.no_duplicates(),
            forall|x: u32| #[trigger] r@.contains(x) <==> (self.is_end(down, x) && self.reached_from(down, seeds@, x)),
            forall|i: int| 0 <= i < r@.len() ==> r@[i] < self.labels().len(),
    {
        let ghost ids = seeds@;
        let n = self.children_map.len() as u32;
        let mut stack = seeds;
        let mut visited = SymSet::new();
        let mut out: Vec<u32> = Vec::new();
        proof {
            lemma_bounded_set(visited@, n);
            assert forall|i: int| 0 <= i < stack@.len() implies self.reached_from(down, ids, #[trigger] stack@[i]) by {
                self.lemma_reaches_self(down, ids[i]);
            }
        }
        while stack.len() > 0
            invariant
                self.wf(),
                n == self.n(),
                forall|x: u32| #[trigger] visited@.contains(x) ==> x < n,
                visited@.finite(),
                visited@.len() <= n,
                forall|i: int| 0 <= i < stack@.len() ==> #[trigger] stack@[i] < n,
                forall|i: int| 0 <= i < stack@.len() ==> self.reached_from(down, ids, #[trigger] stack@[i]),
                forall|x: u32| #[trigger] visited@.contains(x) ==> self.reached_from(down, ids, x),
                forall|i: int| 0 <= i < ids.len() ==> visited@.contains(#[trigger] ids[i]) || stack@.contains(ids[i]),
                forall|a: u32, b: u32|
                    visited@.contains(a) && #[trigger] self.dir_edge(down, a, b) ==> visited@.contains(b) || stack@.contains(b),
                out@.no_duplicates(),
                forall|x: u32| #[trigger] out@.contains(x) <==> (visited@.contains(x) && self.is_end(down, x)),
            decreases n - visited@.len(), stack@.len(),
        {
            let ghost st0 = stack@;
            let ghost v0 = visited@;
            let node = stack.pop().unwrap();
            proof {
                assert(st0[st0.len() - 1] == node);
                assert(self.reached_from(down, ids, node));
                assert forall|y: u32| st0.contains(y) implies stack@.contains(y) || y == node by {
                    let q = choose|q: int| 0 <= q < st0.len() && st0[q] == y;
                    if q < st0.len() - 1 {
                        assert(stack@[q] == y);
                    }
                }
            }
            if visited.insert(node) {
                proof {
                    lemma_bounded_set(visited@, n);
                }
                let slot = if down {
                    self.children_map.get(node)
                } else {
                    self.parent_map.get(node)
                };
                let nexts = slot.members_vec();
                let ghost o0 = out@;
                if slot.is_empty() {
                    out.push(node);
                }
                proof {
                    assert forall|x: u32| #[trigger] out@.contains(x) <==> (visited@.contains(x) && self.is_end(down, x)) by {
                        if out@.contains(x) && x != node {
                            let q = choose|q: int| 0 <= q < out@.len() && out@[q] == x;
                            assert(o0[q] == x);
                        }
                        if o0.contains(x) {
                            let q = choose|q: int| 0 <= q < o0.len() && o0[q] == x;
                            assert(out@[q] == x);
                        }
                        if x == node && self.is_end(down, x) {
                            assert(out@[out@.len() - 1] == x);
                        }
                    }
                    assert(!o0.contains(node));
                }
                let mut k: usize = 0;
                let ghost st1 = stack@;
                while k < nexts.len()
                    invariant
                        self.wf(),
                        n == self.n(),
                        node < n,
                        k <= nexts@.len(),
                        nexts@.to_set() == (if down {
                            self.children_map@[node as int]
                        } else {
                            self.parent_map@[node as int]
                        }).members(),
                        self.reached_from(down, ids, node),
                        stack@.len() == st1.len() + k,
                        forall|i: int| 0 <= i < st1.len() ==> stack@[i] == st1[i],
                        forall|i: int| 0 <= i < k ==> stack@[st1.len() + i] == nexts@[i],
                        forall|i: int| 0 <= i < stack@.len() ==> #[trigger] stack@[i] < n,
                        forall|i: int| 0 <= i < stack@.len() ==> self.reached_from(down, ids, #[trigger] stack@[i]),
                    decreases nexts.len() - k,
                {
                    let y = nexts[k];
                    proof {
                        assert(nexts@.to_set().contains(y));
                        if down {
                            assert(self.children_of(node).contains(y));
                        } else {
                            assert(self.parents_of(node).contains(y));
                            assert(self.children_of(y).contains(node));
                        }
                        assert(self.dir_edge(down, node, y));
                        let i0 = choose|i: int| 0 <= i < ids.len() && #[trigger] self.reaches(down, ids[i], node);
                        self.lemma_reaches_step(down, ids[i0], node, y);
                    }
                    stack.push(y);
                    k = k + 1;
                }
                proof {
                    assert forall|b: u32| #[trigger] self.dir_edge(down, node, b) implies stack@.contains(b) by {
                        if down {
                            assert(self.children_of(node).contains(b));
                        } else {
                            assert(self.parents_of(node).contains(b));
                        }
                        assert(nexts@.to_set().contains(b));
                        let q = choose|q: int| 0 <= q < nexts@.len() && nexts@[q] == b;
                        assert(stack@[st1.len() + q] == b);
                    }
                    assert forall|y: u32| st1.contains(y) implies stack@.contains(y) by {
                        let q = choose|q: int| 0 <= q < st1.len() && st1[q] == y;
                        assert(stack@[q] == y);
                    }
                }
            } else {
                proof {
                    assert(out@.no_duplicates());
                }
            }
            proof {
                assert forall|a: u32, b: u32|
                    visited@.contains(a) && #[trigger] self.dir_edge(down, a, b) implies visited@.contains(b) || stack@.contains(b) by {
                    if a != node || v0.contains(a) {
                        assert(v0.contains(a));
                        assert(v0.contains(b) || st0.contains(b));
                    }
                }
                assert forall|i: int| 0 <= i < ids.len() implies visited@.contains(#[trigger] ids[i]) || stack@.contains(ids[i]) by {
                    assert(v0.contains(ids[i]) || st0.contains(ids[i]));
                }
            }
        }
        proof {
            assert forall|x: u32| #[trigger] out@.contains(x) <==> (self.is_end(down, x) && self.reached_from(down, ids, x)) by {
                if self.is_end(down, x) && self.reached_from(down, ids, x) {
                    let i = choose|i: int| 0 <= i < ids.len() && #[trigger] self.reaches(down, ids[i], x);
                    assert(visited@.contains(ids[i]) || stack@.contains(ids[i]));
                    assert forall|a: u32, b: u32| visited@.contains(a) && #[trigger] self.dir_edge(down, a, b) implies visited@.contains(b) by {
                        assert(visited@.contains(b) || stack@.contains(b));
                    }
                    self.lemma_closed_holds_reached(down, visited@, ids[i], x);
                }
            }
            assert forall|i: int| 0 <= i < out@.len() implies out@[i] < self.labels().len() by {
                assert(out@.contains(out@[i]));
            }
        }
        out
    }

    /// The leaves found below `nodes`, each once; a node that is a leaf
    /// itself is one of them.
    pub fn get_leaves_under(&self, nodes: &[&str]) -> (r: Result<NodeVec, GraphInteractionError>)
        requires
            self.wf(),
        ensures
            r is Ok <==> self.all_known(label_list(nodes@)),
            r matches Ok(v) ==> self.is_ends_labels(true, self.syms_of(label_list(nodes@)), v@),
            r matches Err(e) ==> self.first_unknown_error(label_list(nodes@), e),
    {
        let ids = self.get_internal_mul(nodes)?;
        let found = self.ends_from(true, ids);
        let out = self.resolve_mul_slice(found.as_slice());
        proof {
            assert(found@.no_duplicates() && out@ == self.labels_of(found@));
        }
        Ok(out)
    }

    /// The roots found above `nodes`, each once; a node that is a root
    /// itself is one of them.
    pub fn get_roots_over(&self, nodes: &[&str]) -> (r: Result<NodeVec, GraphInteractionError>)
        requires
            self.wf(),
        ensures
            r is Ok <==> self.all_known(label_list(nodes@)),
            r matches Ok(v) ==> self.is_ends_labels(false, self.syms_of(label_list(nodes@)), v@),
            r matches Err(e) ==> self.first_unknown_error(label_list(nodes@), e),
    {
        let ids = self.get_internal_mul(nodes)?;
        let found = self.ends_from(false, ids);
        let out = self.resolve_mul_slice(found.as_slice());
        proof {
            assert(found@.no_duplicates() && out@ == self.labels_of(found@));
        }
        Ok(out)
    }

    /// Whether `x` is a node of the graph.
    pub(crate) fn is_known(&self, x: u32) -> (r: bool)
        requires
            self.wf(),
        ensures
            r == self.is_node(x),
    {
        (x as usize) < self.children_map.len() && !self.children_map.get(x).is_uninitialized()
    }
}

} // verus!
