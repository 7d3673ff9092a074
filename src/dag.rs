//! Graphs known to have no cycle, with their topological order.
use crate::error::{GraphHasCycle, GraphInteractionError};
use crate::graph::DirectedGraph;
use crate::node_vec::NodeVec;
use crate::paths::lists_labels;
use crate::sym_set::SymSet;
use vstd::prelude::*;

verus! {

/// Every entry of `all` from index `lo` on starts with `pre`.
pub open spec fn entries_extend(all: Seq<Vec<u32>>, lo: int, pre: Seq<u32>) -> bool {
    forall|k: int|
        lo <= k < all.len() ==> (#[trigger] all[k]@).len() >= pre.len() && all[k]@.subrange(
            0,
            pre.len() as int,
        ) == pre
}

/// No two entries of `all` from index `lo` on are equal.
pub open spec fn entries_distinct(all: Seq<Vec<u32>>, lo: int) -> bool {
    forall|a: int, b: int| lo <= a < b < all.len() ==> #[trigger] all[a]@ != #[trigger] all[b]@
}

/// In an order without repeats, the index of an element is its position.
pub proof fn lemma_position_unique(order: Seq<u32>, x: u32, r: int)
    requires
        order.no_duplicates(),
        0 <= r < order.len(),
        order[r] == x,
    ensures
        position_of(order, x) == r,
{
    assert(order.contains(x));
    let q = position_of(order, x);
    assert(order[q] == x);
}

/// Some entry of `all` from index `lo` on is `q`.
pub open spec fn listed_from(all: Seq<Vec<u32>>, lo: int, q: Seq<u32>) -> bool {
    exists|k: int| lo <= k < all.len() && all[k]@ == q
}

/// The index of `x` in `order`.
pub open spec fn position_of(order: Seq<u32>, x: u32) -> int {
    choose|i: int| 0 <= i < order.len() && order[i] == x
}

impl DirectedGraph {
    /// `v` holds the labels of a path from `a` to `b`.
    pub open(crate) spec fn labels_of_path(&self, v: Seq<Seq<char>>, a: u32, b: u32) -> bool {
        exists|p: Seq<u32>| self.is_path_from_to(p, a, b) && v == self.labels_of(p)
    }

    /// No path leads from a node back to itself.
    pub open(crate) spec fn is_acyclic(&self) -> bool {
        forall|p: Seq<u32>, a: u32| #[trigger] self.is_path_from_to(p, a, a) ==> p.len() == 1
    }

    /// Along an edge the position in a topological order goes down.
    pub(crate) proof fn lemma_edge_goes_down(&self, order: Seq<u32>, a: u32, b: u32)
        requires
            self.wf(),
            self.is_topological_order(order),
            self.has_edge(a, b),
        ensures
            order.contains(a),
            order.contains(b),
            position_of(order, b) < position_of(order, a),
            0 <= position_of(order, b),
            position_of(order, a) < order.len(),
            order[position_of(order, a)] == a,
            order[position_of(order, b)] == b,
    {
        assert(self.is_node(a)) by {
            assert(self.children_of(a).contains(b));
        }
        assert(self.is_node(b)) by {
            assert(self.parents_of(b).contains(a));
            assert(!(self.parent_map@[b as int] is Unknown));
        }
        assert(order.contains(a));
        assert(order.contains(b));
        let i = position_of(order, a);
        let j = position_of(order, b);
        if i <= j {
            assert(!self.has_edge(order[i], order[j]));
        }
    }

    /// Positions go down along a path: node `k` sits at least `k` places
    /// below the start.
    proof fn lemma_path_goes_down(&self, order: Seq<u32>, p: Seq<u32>, a: u32, b: u32, k: int)
        requires
            self.wf(),
            self.is_topological_order(order),
            self.is_path_from_to(p, a, b),
            p.len() > 1,
            1 <= k < p.len(),
        ensures
            position_of(order, p[k]) <= position_of(order, a) - k,
        decreases k,
    {
        assert(self.has_edge(p[k - 1], p[k - 1 + 1]));
        self.lemma_edge_goes_down(order, p[k - 1], p[k]);
        if k > 1 {
            self.lemma_path_goes_down(order, p, a, b, k - 1);
        }
    }

    /// A graph with a topological order has no cycle.
    pub(crate) proof fn lemma_ordered_is_acyclic(&self, order: Seq<u32>)
        requires
            self.wf(),
            self.is_topological_order(order),
        ensures
            self.is_acyclic(),
    {
        assert forall|p: Seq<u32>, a: u32| #[trigger] self.is_path_from_to(p, a, a) implies p.len() == 1 by {
            if p.len() > 1 {
                self.lemma_path_goes_down(order, p, a, a, p.len() - 1);
            }
        }
    }
}

/// A directed graph known to have no cycle, with a topological order of it.
pub struct DirectedAcyclicGraph {
    pub(crate) dg: DirectedGraph,
    /// Leaves first: every node after all of its children.
    pub(crate) topological_sort: Vec<u32>,
}

impl DirectedAcyclicGraph {
    pub open(crate) spec fn wf(&self) -> bool {
        &&& self.dg.wf()
        &&& self.dg.is_topological_order(self.topological_sort@)
    }

    /// The underlying graph.
    pub open(crate) spec fn graph(&self) -> DirectedGraph {
        self.dg
    }

    /// Wraps `dg` after computing its topological order; fails where `dg`
    /// has a cycle.
    pub fn build(dg: DirectedGraph) -> (r: Result<DirectedAcyclicGraph, GraphHasCycle>)
        requires
            dg.wf(),
        ensures
            r matches Ok(d) ==> d.wf() && d.graph() == dg,
            r is Ok <==> dg.is_acyclic(),
    {
        let order = dg.topological_order()?;
        proof {
            dg.lemma_ordered_is_acyclic(order@);
        }
        Ok(DirectedAcyclicGraph { dg, topological_sort: order })
    }

    /// The underlying graph.
    pub fn into_inner(self) -> (r: DirectedGraph)
        ensures
            r == self.graph(),
    {
        self.dg
    }

    /// The underlying graph, for the queries of any directed graph.
    pub fn as_graph(&self) -> (r: &DirectedGraph)
        ensures
            *r == self.graph(),
    {
        &self.dg
    }

    /// The index of `x` in the topological order.
    fn position(&self, x: u32) -> (r: usize)
        requires
            self.wf(),
            self.dg.is_node(x),
        ensures
            r < self.topological_sort@.len(),
            self.topological_sort@[r as int] == x,
    {
        let ghost order = self.topological_sort@;
        assert(order.contains(x));
        let ghost bound = position_of(order, x);
        let mut i: usize = 0;
        while i < self.topological_sort.len() && self.topological_sort[i] != x
            invariant
                0 <= i <= bound,
                bound < order.len(),
                order == self.topological_sort@,
                order[bound] == x,
            decreases bound - i,
        {
            i = i + 1;
        }
        i
    }

    /// The nodes that `f` reaches, among positions `lo..=hi` of the
    /// topological order, found by one sweep down the order: a node is
    /// reached where it is `f` or where one of its parents was.
    fn mark_reached(&self, f: u32, lo: usize, hi: usize) -> (r: SymSet)
        requires
            self.wf(),
            lo <= hi < self.topological_sort@.len(),
            self.topological_sort@[hi as int] == f,
        ensures
            forall|y: u32|
                #[trigger] r@.contains(y) <==> (exists|q: int|
                    lo <= q <= hi && self.topological_sort@[q] == y) && self.dg.reachable(f, y),
    {
        let ghost order = self.topological_sort@;
        let total = self.topological_sort.len();
        let mut marked = SymSet::new();
        let mut k: usize = hi + 1;
        while k > lo
            invariant
                self.wf(),
                order == self.topological_sort@,
                lo <= hi < order.len(),
                order[hi as int] == f,
                lo <= k <= hi + 1,
                forall|y: u32|
                    #[trigger] marked@.contains(y) <==> (exists|q: int| k <= q <= hi && order[q] == y)
                        && self.dg.reachable(f, y),
            decreases k,
        {
            k = k - 1;
            let x = self.topological_sort[k];
            proof {
                assert(order.contains(x));
                assert(self.dg.is_node(x));
            }
            let mut hit = x == f;
            if !hit {
                let parents = self.dg.parent_map.members_vec(x);
                let mut m: usize = 0;
                while m < parents.len() && !hit
                    invariant
                        m <= parents@.len(),
                        hit ==> exists|p: u32| marked@.contains(p) && self.dg.has_edge(p, x),
                        !hit ==> forall|q: int| 0 <= q < m ==> !marked@.contains(#[trigger] parents@[q]),
                        parents@.to_set() == self.dg.parent_map@[x as int].members(),
                        self.wf(),
                        order.contains(x),
                        self.dg.is_node(x),
                    decreases parents.len() - m,
                {
                    if marked.contains(parents[m]) {
                        hit = true;
                        proof {
                            let pm = parents@[m as int];
                            assert(parents@.to_set().contains(pm));
                            assert(self.dg.parents_of(x).contains(pm));
                            assert(self.dg.children_of(pm).contains(x));
                            assert(marked@.contains(pm) && self.dg.has_edge(pm, x));
                        }
                    }
                    m = m + 1;
                }
                proof {
                    if !hit {
                        assert forall|p: u32| marked@.contains(p) implies !self.dg.has_edge(p, x) by {
                            if self.dg.has_edge(p, x) {
                                assert(self.dg.parents_of(x).contains(p));
                                assert(parents@.to_set().contains(p));
                                let q = choose|q: int| 0 <= q < parents@.len() && parents@[q] == p;
                            }
                        }
                    }
                }
            }
            let ghost m0 = marked@;
            if hit {
                marked.insert(x);
            }
            proof {
                self.dg.lemma_reaches_self(true, f);
                assert forall|y: u32|
                    #[trigger] marked@.contains(y) <==> (exists|q: int| k <= q <= hi && order[q] == y)
                        && self.dg.reachable(f, y) by {
                    if y == x {
                        assert(order[k as int] == y);
                        if hit && x != f {
                            let p = choose|p: u32| m0.contains(p) && self.dg.has_edge(p, x);
                            assert(self.dg.reaches(true, f, p));
                            self.dg.lemma_reaches_step(true, f, p, x);
                        }
                        if self.dg.reachable(f, x) && x != f {
                            self.lemma_last_parent(f, x);
                            let p = choose|p: u32| self.dg.reachable(f, p) && self.dg.has_edge(p, x);
                            self.dg.lemma_edge_goes_down(order, p, x);
                            crate::dag::lemma_position_unique(order, x, k as int);
                            if p != f {
                                self.lemma_reach_position(order, f, p);
                            }
                            crate::dag::lemma_position_unique(order, f, hi as int);
                            let qp = position_of(order, p);
                            assert(k < qp <= hi);
                            assert(m0.contains(p));
                        }
                    } else {
                        if (exists|q: int| k <= q <= hi && order[q] == y) {
                            let q = choose|q: int| k <= q <= hi && order[q] == y;
                            assert(q != k);
                            assert(k + 1 <= q <= hi);
                        }
                        if (exists|q: int| k + 1 <= q <= hi && order[q] == y) {
                            let q = choose|q: int| k + 1 <= q <= hi && order[q] == y;
                            assert(k <= q <= hi);
                        }
                    }
                }
            }
        }
        marked
    }

    /// A node that `f` reaches, other than `f`, has a parent that `f` reaches.
    proof fn lemma_last_parent(&self, f: u32, y: u32)
        requires
            self.dg.reachable(f, y),
            y != f,
        ensures
            exists|p: u32| self.dg.reachable(f, p) && self.dg.has_edge(p, y),
    {
        let path = choose|path: Seq<u32>| self.dg.is_path_from_to(path, f, y);
        assert(path.len() >= 2);
        let pre = path.drop_last();
        let w = pre.last();
        assert(self.dg.is_path_from_to(pre, f, w)) by {
            assert forall|i: int| 0 <= i < pre.len() - 1 implies #[trigger] self.dg.has_edge(pre[i], pre[i + 1]) by {
                assert(self.dg.has_edge(path[i], path[i + 1]));
            }
        }
        assert(self.dg.has_edge(path[path.len() - 2], path[path.len() - 2 + 1]));
        assert(self.dg.reachable(f, w) && self.dg.has_edge(w, y));
    }

    /// A node that `f` reaches, other than `f`, comes before `f` in the order.
    proof fn lemma_reach_position(&self, order: Seq<u32>, f: u32, y: u32)
        requires
            self.wf(),
            self.dg.is_topological_order(order),
            self.dg.reachable(f, y),
            y != f,
        ensures
            order.contains(y),
            order.contains(f),
            0 <= position_of(order, y) < position_of(order, f) < order.len(),
            order[position_of(order, y)] == y,
            order[position_of(order, f)] == f,
    {
        let path = choose|path: Seq<u32>| self.dg.is_path_from_to(path, f, y);
        assert(path.len() > 1);
        self.dg.lemma_path_goes_down(order, path, f, y, path.len() - 1);
        assert(self.dg.has_edge(path[0], path[0int + 1]));
        self.dg.lemma_edge_goes_down(order, path[0], path[1]);
        let m = path.len() - 2;
        assert(self.dg.has_edge(path[m], path[m + 1]));
        self.dg.lemma_edge_goes_down(order, path[m], path[m + 1]);
    }

    /// Some path from `from` to `to`, found by a walk through the
    /// topological order: from `to` upwards, each step goes to the first
    /// later node that is a parent of the walk's end and that `from`
    /// reaches; not always a shortest path. Empty exactly where there is none.
    pub fn find_path(&self, from: &str, to: &str) -> (r: Result<NodeVec, GraphInteractionError>)
        requires
            self.wf(),
        ensures
            r is Ok <==> (self.graph().knows(from@) && self.graph().knows(to@)),
            r matches Err(e) ==> (!self.graph().knows(from@) && e.is_node_not_exist(from@)) || (
            self.graph().knows(from@) && !self.graph().knows(to@) && e.is_node_not_exist(to@)),
            r matches Ok(v) ==> (v@.len() == 0 || exists|p: Seq<u32>|
                self.graph().is_path_from_to(p, self.graph().sym_of(from@), self.graph().sym_of(to@))
                    && v@ == self.graph().labels_of(p)),
            r matches Ok(v) ==> (from@ == to@ ==> v@ == seq![from@]),
            r matches Ok(v) ==> (v@.len() == 0 <==> !self.graph().reachable(
                self.graph().sym_of(from@),
                self.graph().sym_of(to@),
            )),
    {
        let f = self.dg.get_internal(from)?;
        let t = self.dg.get_internal(to)?;
        if f == t {
            let one = vec![f];
            let r = self.dg.resolve_mul_slice(one.as_slice());
            proof {
                assert(self.dg.is_path_from_to(one@, f, t));
                assert(self.graph().is_path_from_to(one@, self.graph().sym_of(from@), self.graph().sym_of(to@)));
                assert(r@ =~= seq![from@]);
                assert(self.dg.reachable(f, t));
            }
            return Ok(r);
        }
        let empty: Vec<u32> = Vec::new();
        let ghost order = self.topological_sort@;
        if !self.dg.is_known(f) || !self.dg.is_known(t) {
            proof {
                if self.dg.reachable(f, t) {
                    self.lemma_reach_position(order, f, t);
                }
            }
            return Ok(self.dg.resolve_mul_slice(empty.as_slice()));
        }
        let i = self.position(f);
        let j = self.position(t);
        proof {
            lemma_position_unique(order, f, i as int);
            lemma_position_unique(order, t, j as int);
        }
        if j > i {
            proof {
                if self.dg.reachable(f, t) {
                    self.lemma_reach_position(order, f, t);
                }
            }
            return Ok(self.dg.resolve_mul_slice(empty.as_slice()));
        }
        let marked = self.mark_reached(f, j, i);
        if !marked.contains(t) {
            proof {
                assert(order[j as int] == t);
                if self.dg.reachable(f, t) {
                    assert(j <= j as int <= i && order[j as int] == t);
                    assert(marked@.contains(t));
                }
            }
            return Ok(self.dg.resolve_mul_slice(empty.as_slice()));
        }
        let mut back: Vec<u32> = Vec::new();
        back.push(t);
        let mut current = t;
        let ghost mut ci: int = j as int;
        let len = self.topological_sort.len();
        let mut k: usize = j;
        while k <= i
            invariant
                len == self.topological_sort@.len(),
                order == self.topological_sort@,
                self.wf(),
                self.graph().knows(from@),
                self.graph().knows(to@),
                f == self.graph().sym_of(from@),
                t == self.graph().sym_of(to@),
                f != t,
                f < self.dg.labels().len(),
                j <= k <= i + 1,
                i < self.topological_sort@.len(),
                order[i as int] == f,
                back@.len() > 0,
                back@[0] == t,
                back@.last() == current,
                current < self.dg.labels().len(),
                forall|q: int| 0 <= q < back@.len() ==> #[trigger] back@[q] < self.dg.labels().len(),
                forall|q: int| 0 <= q < back@.len() - 1 ==> #[trigger] self.dg.has_edge(back@[q + 1], back@[q]),
                forall|y: u32|
                    #[trigger] marked@.contains(y) <==> (exists|q: int|
                        j <= q <= i && order[q] == y) && self.dg.reachable(f, y),
                marked@.contains(current),
                j <= ci <= k,
                ci <= i,
                order[ci] == current,
                current != f,
                forall|q: int|
                    ci < q < k ==> !(marked@.contains(#[trigger] order[q]) && self.dg.has_edge(order[q], current)),
            decreases i + 1 - k,
        {
            let node = self.topological_sort[k];
            proof {
                assert(self.topological_sort@.contains(node));
            }
            if self.dg.edge_exists(node, current) && marked.contains(node) {
                let ghost b0 = back@;
                back.push(node);
                proof {
                    assert forall|q: int| 0 <= q < back@.len() - 1 implies #[trigger] self.dg.has_edge(back@[q + 1], back@[q]) by {
                        if q < b0.len() - 1 {
                            assert(self.dg.has_edge(b0[q + 1], b0[q]));
                        }
                    }
                }
                current = node;
                proof {
                    ci = k as int;
                }
                if current == f {
                    let path = DirectedGraph::reversed(&back);
                    proof {
                        assert forall|q: int| 0 <= q < path@.len() - 1 implies #[trigger] self.dg.has_edge(path@[q], path@[q + 1]) by {
                            let m = back@.len() - 2 - q;
                            assert(self.dg.has_edge(back@[m + 1], back@[m]));
                            assert(path@[q] == back@[back@.len() - 1 - q]);
                            assert(path@[q + 1] == back@[back@.len() - 1 - (q + 1)]);
                        }
                        assert(self.dg.is_path_from_to(path@, f, t));
                        assert(self.graph().is_path_from_to(path@, self.graph().sym_of(from@), self.graph().sym_of(to@)));
                        assert(self.dg.reachable(f, t));
                        assert forall|q: int| 0 <= q < path@.len() implies path@[q] < self.dg.labels().len() by {
                            assert(path@[q] == back@[back@.len() - 1 - q]);
                        }
                    }
                    return Ok(self.dg.resolve_mul_slice(path.as_slice()));
                }
            }
            k = k + 1;
        }
        proof {
            assert(self.dg.reachable(f, current));
            self.lemma_last_parent(f, current);
            let p = choose|p: u32| self.dg.reachable(f, p) && self.dg.has_edge(p, current);
            self.dg.lemma_edge_goes_down(order, p, current);
            lemma_position_unique(order, current, ci);
            let qp = position_of(order, p);
            if p != f {
                self.lemma_reach_position(order, f, p);
            }
            lemma_position_unique(order, f, i as int);
            assert(ci < qp <= i);
            assert(marked@.contains(p));
            assert(!(marked@.contains(order[qp]) && self.dg.has_edge(order[qp], current)));
        }
        Ok(self.dg.resolve_mul_slice(empty.as_slice()))
    }
}

} // verus!

verus! {

impl DirectedAcyclicGraph {
    /// Depth-first search from `current`, which ends the path so far, for
    /// `goal`: every path found is appended to `all_paths`.
    fn dfs(
        &self,
        current: u32,
        goal: u32,
        current_path: &mut Vec<u32>,
        all_paths: &mut Vec<Vec<u32>>,
        Ghost(from): Ghost<u32>,
    )
        requires
            self.wf(),
            current < self.dg.labels().len(),
            self.dg.is_path_from_to(old(current_path)@.push(current), from, current),
        ensures
            final(current_path)@ == old(current_path)@,
            final(all_paths)@.len() >= old(all_paths)@.len(),
            forall|k: int| 0 <= k < old(all_paths)@.len() ==> #[trigger] final(all_paths)@[k] == old(all_paths)@[k],
            forall|k: int|
                old(all_paths)@.len() <= k < final(all_paths)@.len() ==> self.dg.is_path_from_to(
                    #[trigger] final(all_paths)@[k]@,
                    from,
                    goal,
                ),
            forall|s: Seq<u32>|
                #[trigger] self.dg.is_path_from_to(s, current, goal) ==> listed_from(
                    final(all_paths)@,
                    old(all_paths)@.len() as int,
                    old(current_path)@ + s,
                ),
            entries_extend(
                final(all_paths)@,
                old(all_paths)@.len() as int,
                old(current_path)@.push(current),
            ),
            entries_distinct(final(all_paths)@, old(all_paths)@.len() as int),
        decreases position_of(self.topological_sort@, current),
    {
        let ghost cp0 = current_path@;
        let ghost ap0 = all_paths@;
        current_path.push(current);
        if current == goal {
            let found = current_path.clone();
            proof {
                assert(found@ =~= current_path@);
            }
            all_paths.push(found);
            proof {
                self.dg.lemma_ordered_is_acyclic(self.topological_sort@);
                assert forall|s: Seq<u32>| #[trigger] self.dg.is_path_from_to(s, current, goal) implies listed_from(
                    all_paths@,
                    ap0.len() as int,
                    cp0 + s,
                ) by {
                    assert(s.len() == 1);
                    assert(s =~= seq![current]);
                    assert(cp0 + s =~= cp0.push(current));
                    assert(all_paths@[ap0.len() as int]@ == cp0 + s);
                }
                assert(all_paths@[ap0.len() as int]@.subrange(0, cp0.len() as int + 1) =~= cp0.push(current));
                assert(entries_extend(all_paths@, ap0.len() as int, cp0.push(current)));
            }
        } else {
            let kids = self.dg.children_map.members_vec(current);
            let mut k: usize = kids.len();
            while k > 0
                invariant
                    self.wf(),
                    current < self.dg.labels().len(),
                    k <= kids@.len(),
                    kids@.to_set() == self.dg.children_map@[current as int].members(),
                    current_path@ == cp0.push(current),
                    self.dg.is_path_from_to(cp0.push(current), from, current),
                    all_paths@.len() >= ap0.len(),
                    forall|q: int| 0 <= q < ap0.len() ==> #[trigger] all_paths@[q] == ap0[q],
                    forall|q: int|
                        ap0.len() <= q < all_paths@.len() ==> self.dg.is_path_from_to(
                            #[trigger] all_paths@[q]@,
                            from,
                            goal,
                        ),
                    kids@.no_duplicates(),
                    forall|kk: int, s: Seq<u32>|
                        k <= kk < kids@.len() && #[trigger] self.dg.is_path_from_to(s, kids@[kk], goal)
                            ==> listed_from(all_paths@, ap0.len() as int, cp0.push(current) + s),
                    forall|q: int|
                        ap0.len() <= q < all_paths@.len() ==> (#[trigger] all_paths@[q]@).len() > cp0.len() as int + 1
                            && all_paths@[q]@.subrange(0, cp0.len() as int + 1) == cp0.push(current) && exists|kk: int|
                            k <= kk < kids@.len() && all_paths@[q]@[cp0.len() as int + 1] == kids@[kk],
                    forall|a: int, b: int|
                        ap0.len() <= a < b < all_paths@.len() ==> #[trigger] all_paths@[a]@
                            != #[trigger] all_paths@[b]@,
                decreases k,
            {
                k = k - 1;
                let child = kids[k];
                proof {
                    assert(kids@.to_set().contains(child));
                    assert(self.dg.has_edge(current, child));
                    self.dg.lemma_edge_goes_down(self.topological_sort@, current, child);
                    assert(child < self.dg.labels().len());
                    self.dg.lemma_path_append(cp0.push(current), from, current, child);
                }
                let ghost ap1 = all_paths@;
                self.dfs(child, goal, current_path, all_paths, Ghost(from));
                proof {
                    let pre = cp0.push(current);
                    assert forall|q: int|
                        ap0.len() <= q < all_paths@.len() implies (#[trigger] all_paths@[q]@).len() > cp0.len() as int + 1
                            && all_paths@[q]@.subrange(0, cp0.len() as int + 1) == cp0.push(current) && exists|kk: int|
                            k <= kk < kids@.len() && all_paths@[q]@[cp0.len() as int + 1] == kids@[kk] by {
                        if q < ap1.len() {
                            assert(all_paths@[q] == ap1[q]);
                            let kk = choose|kk: int|
                                k < kk < kids@.len() && ap1[q]@[cp0.len() as int + 1] == kids@[kk];
                        } else {
                            let e = all_paths@[q]@;
                            assert(entries_extend(all_paths@, ap1.len() as int, pre.push(child)));
                            assert(e.len() >= pre.push(child).len());
                            assert(e.subrange(0, pre.len() as int + 1) == pre.push(child));
                            assert(e.subrange(0, pre.len() as int + 1)[pre.len() as int] == child);
                            assert(e[cp0.len() as int + 1] == child);
                            assert forall|x: int| 0 <= x < cp0.len() as int + 1 implies e.subrange(0, cp0.len() as int + 1)[x]
                                == pre[x] by {
                                assert(e.subrange(0, pre.len() as int + 1)[x] == pre.push(child)[x]);
                            }
                            assert(e.subrange(0, cp0.len() as int + 1) =~= pre);
                        }
                    }
                    assert forall|a: int, b: int|
                        ap0.len() <= a < b < all_paths@.len() implies #[trigger] all_paths@[a]@
                            != #[trigger] all_paths@[b]@ by {
                        if b < ap1.len() {
                            assert(all_paths@[a] == ap1[a] && all_paths@[b] == ap1[b]);
                        } else if a >= ap1.len() {
                            assert(entries_distinct(all_paths@, ap1.len() as int));
                        } else {
                            assert(entries_extend(all_paths@, ap1.len() as int, pre.push(child)));
                            assert(all_paths@[a] == ap1[a]);
                            let kk = choose|kk: int|
                                k < kk < kids@.len() && ap1[a]@[cp0.len() as int + 1] == kids@[kk];
                            let e = all_paths@[b]@;
                            assert(e.subrange(0, pre.len() as int + 1)[pre.len() as int] == child);
                            assert(kids@[kk] != kids@[k as int]);
                        }
                    }
                    assert forall|kk: int, s: Seq<u32>|
                        k <= kk < kids@.len() && #[trigger] self.dg.is_path_from_to(s, kids@[kk], goal)
                            implies listed_from(all_paths@, ap0.len() as int, cp0.push(current) + s) by {
                        if kk > k {
                            assert(listed_from(ap1, ap0.len() as int, cp0.push(current) + s));
                            let q = choose|q: int| ap0.len() <= q < ap1.len() && ap1[q]@ == cp0.push(current) + s;
                            assert(all_paths@[q] == ap1[q]);
                        } else {
                            assert(listed_from(all_paths@, ap1.len() as int, cp0.push(current) + s));
                            let q = choose|q: int| ap1.len() <= q < all_paths@.len() && all_paths@[q]@ == cp0.push(current) + s;
                        }
                    }
                    assert forall|q: int| 0 <= q < ap0.len() implies #[trigger] all_paths@[q] == ap0[q] by {
                        assert(all_paths@[q] == ap1[q]);
                    }
                    assert forall|q: int|
                        ap0.len() <= q < all_paths@.len() implies self.dg.is_path_from_to(
                            #[trigger] all_paths@[q]@,
                            from,
                            goal,
                        ) by {
                        if q < ap1.len() {
                            assert(all_paths@[q] == ap1[q]);
                        }
                    }
                }
            }
        }
        proof {
            if current != goal {
                assert(entries_extend(all_paths@, ap0.len() as int, cp0.push(current))) by {
                    assert forall|q: int| ap0.len() <= q < all_paths@.len() implies (#[trigger] all_paths@[q]@).len()
                        >= cp0.push(current).len() && all_paths@[q]@.subrange(0, cp0.push(current).len() as int)
                        == cp0.push(current) by {
                        assert(all_paths@[q]@.subrange(0, cp0.len() as int + 1) == cp0.push(current));
                    }
                }
                assert(entries_distinct(all_paths@, ap0.len() as int));
                assert forall|s: Seq<u32>| #[trigger] self.dg.is_path_from_to(s, current, goal) implies listed_from(
                    all_paths@,
                    ap0.len() as int,
                    cp0 + s,
                ) by {
                    assert(s.len() >= 2);
                    let c = s[1];
                    assert(self.dg.has_edge(s[0int], s[0int + 1]));
                    assert(self.dg.children_of(current).contains(c));
                    let kids_now = self.dg.children_map@[current as int].members();
                    let rest = s.subrange(1, s.len() as int);
                    assert(self.dg.is_path_from_to(rest, c, goal)) by {
                        assert forall|i: int| 0 <= i < rest.len() - 1 implies #[trigger] self.dg.has_edge(rest[i], rest[i + 1]) by {
                            assert(self.dg.has_edge(s[i + 1], s[i + 1 + 1]));
                        }
                    }
                    assert(cp0.push(current) + rest =~= cp0 + s);
                }
            }
        }
        current_path.pop();
        proof {
            assert(current_path@ =~= cp0);
        }
    }

    /// Every path from `from` to `to`, by depth-first search; on a graph
    /// without cycles no node repeats on a path.
    pub fn find_all_paths(&self, from: &str, to: &str) -> (r: Result<
        Vec<NodeVec>,
        GraphInteractionError,
    >)
        requires
            self.wf(),
        ensures
            r is Ok <==> (self.graph().knows(from@) && self.graph().knows(to@)),
            r matches Err(e) ==> (!self.graph().knows(from@) && e.is_node_not_exist(from@)) || (
            self.graph().knows(from@) && !self.graph().knows(to@) && e.is_node_not_exist(to@)),
            r matches Ok(v) ==> forall|i: int|
                0 <= i < v@.len() ==> #[trigger] self.graph().labels_of_path(
                    v@[i]@,
                    self.graph().sym_of(from@),
                    self.graph().sym_of(to@),
                ),
            r matches Ok(v) ==> forall|q: Seq<u32>|
                #[trigger] self.graph().is_path_from_to(q, self.graph().sym_of(from@), self.graph().sym_of(to@))
                    ==> lists_labels(v@, self.graph().labels_of(q)),
            r matches Ok(v) ==> forall|a: int, b: int|
                0 <= a < b < v@.len() ==> #[trigger] v@[a]@ != #[trigger] v@[b]@,
    {
        let f = self.dg.get_internal(from)?;
        let t = self.dg.get_internal(to)?;
        let mut current_path: Vec<u32> = Vec::new();
        let mut all_paths: Vec<Vec<u32>> = Vec::new();
        proof {
            assert(current_path@.push(f) =~= seq![f]);
            assert(self.dg.is_path_from_to(seq![f], f, f));
        }
        self.dfs(f, t, &mut current_path, &mut all_paths, Ghost(f));
        proof {
            assert forall|s: Seq<u32>| #[trigger] self.dg.is_path_from_to(s, f, t) implies listed_from(
                all_paths@,
                0,
                s,
            ) by {
                assert(listed_from(all_paths@, 0, Seq::<u32>::empty() + s));
                assert(Seq::<u32>::empty() + s =~= s);
            }
        }
        let mut out: Vec<NodeVec> = Vec::new();
        let mut i: usize = 0;
        while i < all_paths.len()
            invariant
                self.wf(),
                f == self.graph().sym_of(from@),
                t == self.graph().sym_of(to@),
                f < self.dg.labels().len(),
                i <= all_paths@.len(),
                out@.len() == i,
                forall|q: int| 0 <= q < all_paths@.len() ==> self.dg.is_path_from_to(#[trigger] all_paths@[q]@, f, t),
                forall|q: int|
                    0 <= q < i ==> #[trigger] self.graph().labels_of_path(
                        out@[q]@,
                        self.graph().sym_of(from@),
                        self.graph().sym_of(to@),
                    ),
                forall|q: int| 0 <= q < i ==> #[trigger] out@[q]@ == self.dg.labels_of(all_paths@[q]@),
            decreases all_paths.len() - i,
        {
            let p = &all_paths[i];
            proof {
                assert(self.dg.is_path_from_to(all_paths@[i as int]@, f, t));
                assert forall|q: int| 0 <= q < p@.len() implies p@[q] < self.dg.labels().len() by {
                    if q < p@.len() - 1 {
                        assert(self.dg.has_edge(p@[q], p@[q + 1]));
                    } else if q > 0 {
                        assert(self.dg.has_edge(p@[q - 1], p@[q - 1 + 1]));
                        assert(self.dg.parents_of(p@[q]).contains(p@[q - 1]));
                    } else {
                        assert(p@[q] == f);
                    }
                }
            }
            let labels = self.dg.resolve_mul_slice(p.as_slice());
            out.push(labels);
            proof {
                assert(self.graph().is_path_from_to(p@, self.graph().sym_of(from@), self.graph().sym_of(to@)));
                assert(out@[i as int]@ == self.graph().labels_of(p@));
                assert(self.graph().labels_of_path(out@[i as int]@, self.graph().sym_of(from@), self.graph().sym_of(to@)));
            }
            i = i + 1;
        }
        proof {
            assert forall|q: Seq<u32>|
                #[trigger] self.graph().is_path_from_to(q, self.graph().sym_of(from@), self.graph().sym_of(to@))
                    implies lists_labels(out@, self.graph().labels_of(q)) by {
                assert(self.dg.is_path_from_to(q, f, t));
                assert(listed_from(all_paths@, 0, q));
                let k = choose|k: int| 0 <= k < all_paths@.len() && all_paths@[k]@ == q;
                assert(out@[k]@ == self.dg.labels_of(all_paths@[k]@));
            }
            assert forall|a: int, b: int| 0 <= a < b < out@.len() implies #[trigger] out@[a]@ != #[trigger] out@[b]@ by {
                assert(entries_distinct(all_paths@, 0));
                assert(all_paths@[a]@ != all_paths@[b]@);
                assert(self.dg.is_path_from_to(all_paths@[a]@, f, t));
                assert(self.dg.is_path_from_to(all_paths@[b]@, f, t));
                self.dg.lemma_path_below_n(all_paths@[a]@, f, t);
                self.dg.lemma_path_below_n(all_paths@[b]@, f, t);
                assert(out@[a]@ == self.dg.labels_of(all_paths@[a]@));
                assert(out@[b]@ == self.dg.labels_of(all_paths@[b]@));
                if out@[a]@ == out@[b]@ {
                    self.dg.lemma_labels_of_injective(all_paths@[a]@, all_paths@[b]@);
                }
            }
        }
        Ok(out)
    }
}

} // verus!

verus! {

impl DirectedAcyclicGraph {
    /// The subgraph that `node` reaches, with the topological order narrowed
    /// to its nodes; a subgraph of a graph without cycles has none either.
    pub fn subset(&self, node: &str) -> (r: Result<DirectedAcyclicGraph, GraphInteractionError>)
        requires
            self.wf(),
        ensures
            r is Ok <==> self.graph().knows(node@),
            r matches Err(e) ==> e.is_node_not_exist(node@),
            r matches Ok(d) ==> d.wf() && self.graph().is_subset_from(
                seq![self.graph().sym_of(node@)],
                d.graph(),
            ),
    {
        let s = self.dg.get_internal(node)?;
        let seeds = vec![s];
        let sub = self.dg.subset_core(seeds.as_slice(), None);
        proof {
            self.dg.lemma_core_unlimited(seeds@, sub);
            assert(seeds@ =~= seq![self.graph().sym_of(node@)]);
        }
        let ghost order = self.topological_sort@;
        let mut out: Vec<u32> = Vec::new();
        let ghost mut idx: Seq<int> = Seq::empty();
        let mut k: usize = 0;
        while k < self.topological_sort.len()
            invariant
                self.wf(),
                sub.wf(),
                order == self.topological_sort@,
                k <= order.len(),
                out@.len() == idx.len(),
                forall|m: int| 0 <= m < idx.len() ==> 0 <= #[trigger] idx[m] < k,
                forall|m: int| 0 <= m < idx.len() ==> out@[m] == order[#[trigger] idx[m]],
                forall|a: int, b: int| 0 <= a < b < idx.len() ==> #[trigger] idx[a] < #[trigger] idx[b],
                forall|x: u32|
                    #[trigger] out@.contains(x) <==> (exists|q: int| 0 <= q < k && order[q] == x) && sub.is_node(x),
            decreases order.len() - k,
        {
            let x = self.topological_sort[k];
            let ghost o0 = out@;
            if sub.is_known(x) {
                out.push(x);
                proof {
                    idx = idx.push(k as int);
                }
            }
            proof {
                assert forall|y: u32|
                    #[trigger] out@.contains(y) <==> (exists|q: int| 0 <= q < k + 1 && order[q] == y) && sub.is_node(y) by {
                    if out@.contains(y) && !o0.contains(y) {
                        let m = choose|m: int| 0 <= m < out@.len() && out@[m] == y;
                        if m < o0.len() {
                            assert(o0[m] == y);
                        }
                        assert(order[k as int] == y);
                    }
                    if o0.contains(y) {
                        let m = choose|m: int| 0 <= m < o0.len() && o0[m] == y;
                        assert(out@[m] == y);
                        let q = choose|q: int| 0 <= q < k && order[q] == y;
                        assert(0 <= q < k + 1 && order[q] == y);
                    }
                    if (exists|q: int| 0 <= q < k + 1 && order[q] == y) && sub.is_node(y) {
                        let q = choose|q: int| 0 <= q < k + 1 && order[q] == y;
                        if q < k {
                            assert(o0.contains(y));
                            let m = choose|m: int| 0 <= m < o0.len() && o0[m] == y;
                            assert(out@[m] == y);
                        } else {
                            assert(out@[out@.len() - 1] == y);
                        }
                    }
                }
            }
            k = k + 1;
        }
        let ghost filtered = out@;
        let extra = !self.dg.is_known(s);
        if extra {
            out.push(s);
        }
        proof {
            assert forall|x: u32| #[trigger] sub.is_node(x) && x != s implies self.dg.is_node(x) by {
                assert(self.dg.reached_from(true, seeds@, x));
                let i = choose|i: int| 0 <= i < seeds@.len() && #[trigger] self.dg.reaches(true, seeds@[i], x);
                let p = choose|p: Seq<u32>| self.dg.is_path_from_to(p, s, x);
                assert(p.len() > 1);
                let m = p.len() - 2;
                assert(self.dg.has_edge(p[m], p[m + 1]));
                assert(self.dg.parents_of(x).contains(p[m]));
            }
            assert forall|x: u32| #[trigger] filtered.contains(x) <==> self.dg.is_node(x) && sub.is_node(x) by {
                if self.dg.is_node(x) && sub.is_node(x) {
                    assert(order.contains(x));
                    let q = choose|q: int| 0 <= q < order.len() && order[q] == x;
                }
                if filtered.contains(x) {
                    let q = choose|q: int| 0 <= q < order.len() && order[q] == x;
                    assert(order.contains(x));
                }
            }
            assert(sub.is_node(s));
            assert forall|x: u32| #[trigger] out@.contains(x) <==> sub.is_node(x) by {
                if out@.contains(x) {
                    let m = choose|m: int| 0 <= m < out@.len() && out@[m] == x;
                    if m < filtered.len() {
                        assert(filtered[m] == x);
                        assert(filtered.contains(x));
                    } else {
                        assert(x == s);
                    }
                }
                if sub.is_node(x) {
                    if x == s && extra {
                        assert(out@[out@.len() - 1] == x);
                    } else {
                        if x != s {
                            assert(self.dg.is_node(x));
                        } else {
                            assert(self.dg.is_node(s));
                        }
                        assert(filtered.contains(x));
                        let m = choose|m: int| 0 <= m < filtered.len() && filtered[m] == x;
                        assert(out@[m] == x);
                    }
                }
            }
            assert(out@.no_duplicates()) by {
                assert forall|a: int, b: int| 0 <= a < out@.len() && 0 <= b < out@.len() && a != b implies out@[a] != out@[b] by {
                    if a < filtered.len() && b < filtered.len() {
                        if idx[a] < idx[b] || idx[b] < idx[a] {
                            assert(order[idx[a]] != order[idx[b]]);
                        } else {
                            if a < b {
                                assert(idx[a] < idx[b]);
                            } else {
                                assert(idx[b] < idx[a]);
                            }
                        }
                    } else if a < filtered.len() {
                        assert(filtered.contains(out@[a]));
                    } else if b < filtered.len() {
                        assert(filtered.contains(out@[b]));
                    }
                }
            }
            assert forall|a: int, b: int|
                0 <= a <= b < out@.len() implies !#[trigger] sub.has_edge(out@[a], out@[b]) by {
                if sub.has_edge(out@[a], out@[b]) {
                    assert(self.dg.has_edge(out@[a], out@[b]));
                    if b < filtered.len() {
                        if a < b {
                            assert(idx[a] < idx[b]);
                        }
                        assert(!self.dg.has_edge(order[idx[a]], order[idx[b]]));
                    } else {
                        assert(out@[b] == s);
                        assert(self.dg.parents_of(s).contains(out@[a]));
                        assert(!self.dg.is_node(s));
                    }
                }
            }
            assert(sub.is_topological_order(out@));
        }
        Ok(DirectedAcyclicGraph { dg: sub, topological_sort: out })
    }
}

} // verus!

verus! {

/// Steps from `z0` to a child that is a node outside `done`, `k` times.
pub open spec fn walk_outside(g: DirectedGraph, done: Seq<u32>, z0: u32, k: nat) -> u32
    decreases k,
{
    if k == 0 {
        z0
    } else {
        let prev = walk_outside(g, done, z0, (k - 1) as nat);
        choose|c: u32| g.has_edge(prev, c) && g.is_node(c) && !done.contains(c)
    }
}

impl DirectedGraph {
    /// The walk stays outside `done` and follows edges, while every node
    /// outside it has a child outside it.
    proof fn lemma_walk_outside(&self, done: Seq<u32>, z0: u32, k: nat)
        requires
            self.is_node(z0),
            !done.contains(z0),
            forall|z: u32|
                self.is_node(z) && !done.contains(z) ==> exists|c: u32|
                    #[trigger] self.has_edge(z, c) && self.is_node(c) && !done.contains(c),
        ensures
            self.is_node(walk_outside(*self, done, z0, k)),
            !done.contains(walk_outside(*self, done, z0, k)),
            k > 0 ==> self.has_edge(
                walk_outside(*self, done, z0, (k - 1) as nat),
                walk_outside(*self, done, z0, k),
            ),
        decreases k,
    {
        if k > 0 {
            self.lemma_walk_outside(done, z0, (k - 1) as nat);
            let prev = walk_outside(*self, done, z0, (k - 1) as nat);
            assert(exists|c: u32| #[trigger] self.has_edge(prev, c) && self.is_node(c) && !done.contains(c));
        }
    }

    /// Where some node lies outside `done` and every node outside it has a
    /// child outside it, the graph has a cycle.
    #[verifier::rlimit(40)]
    pub(crate) proof fn lemma_outside_has_cycle(&self, done: Seq<u32>, z0: u32)
        requires
            self.wf(),
            self.is_node(z0),
            !done.contains(z0),
            forall|z: u32|
                self.is_node(z) && !done.contains(z) ==> exists|c: u32|
                    #[trigger] self.has_edge(z, c) && self.is_node(c) && !done.contains(c),
        ensures
            !self.is_acyclic(),
    {
        let n = self.n();
        let s = Seq::new(n + 1, |k: int| walk_outside(*self, done, z0, k as nat));
        assert forall|k: int| 0 <= k < s.len() implies #[trigger] s[k] < n by {
            self.lemma_walk_outside(done, z0, k as nat);
        }
        if s.no_duplicates() {
            s.unique_seq_to_set();
            assert forall|x: u32| #[trigger] s.to_set().contains(x) implies x < n as u32 by {
                let k = choose|k: int| 0 <= k < s.len() && s[k] == x;
                assert(s[k] < n);
            }
            assert(n < 0xFFFF_FFFFu32) by {
                assert(self.interner.strs@.len() < 0xFFFF_FFFFu32);
            }
            crate::sym_set::lemma_bounded_set(s.to_set(), n as u32);
            assert(false);
        }
        let (i, j) = choose|i: int, j: int| 0 <= i < s.len() && 0 <= j < s.len() && i != j && s[i] == s[j];
        let (a, b) = if i < j {
            (i, j)
        } else {
            (j, i)
        };
        let p = s.subrange(a, b + 1);
        assert forall|q: int| 0 <= q < p.len() - 1 implies #[trigger] self.has_edge(p[q], p[q + 1]) by {
            self.lemma_walk_outside(done, z0, (a + q + 1) as nat);
            assert(p[q] == s[a + q]);
            assert(p[q + 1] == s[a + q + 1]);
        }
        assert(self.is_path_from_to(p, s[a], s[a]));
    }
}

impl Clone for DirectedAcyclicGraph {
    fn clone(&self) -> (r: DirectedAcyclicGraph)
        ensures
            self.graph().same_graph(r.graph()),
            self.wf() ==> r.wf(),
    {
        let order = self.topological_sort.clone();
        proof {
            assert(order@ =~= self.topological_sort@);
        }
        let r = DirectedAcyclicGraph { dg: self.dg.duplicate(), topological_sort: order };
        proof {
            if self.wf() {
                assert forall|x: u32| #[trigger] r.topological_sort@.contains(x) <==> r.dg.is_node(x) by {
                    assert(self.topological_sort@.contains(x) <==> self.dg.is_node(x));
                }
                assert forall|i: int, j: int|
                    0 <= i <= j < r.topological_sort@.len() implies !#[trigger] r.dg.has_edge(
                        r.topological_sort@[i],
                        r.topological_sort@[j],
                    ) by {
                    assert(!self.dg.has_edge(self.topological_sort@[i], self.topological_sort@[j]));
                }
            }
        }
        r
    }
}

} // verus!
