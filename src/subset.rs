//! Subgraphs reached from given nodes, with or without a depth limit.
use crate::error::GraphInteractionError;
use crate::graph::{label_list, DirectedGraph};
use crate::node_map::{total, LazySet, NodeMap, Slot};
use crate::sorted::{sorted_unique, strictly_sorted};
use crate::sym_set::{lemma_bounded_set, SymSet};
use std::collections::VecDeque;
use vstd::prelude::*;

verus! {

/// The queue holds a pair for the edge `p -> c`.
pub open spec fn pending(q: Seq<(usize, u32, u32)>, p: u32, c: u32) -> bool {
    exists|k: int| 0 <= k < q.len() && q[k].1 == p && q[k].2 == c
}

} // verus!

verus! {

impl DirectedGraph {
    /// What holds of the search from the single seed `s0` with depth limit
    /// `k`: `lvl` gives each visited node its depth, which no path beats;
    /// the queue is in depth order; nodes above the limit have all their
    /// children recorded or queued; nodes at the limit, and nodes without
    /// children, have an empty child slot.
    pub open(crate) spec fn limited_state(
        &self,
        s0: u32,
        k: int,
        vis: Set<u32>,
        q: Seq<(usize, u32, u32)>,
        cm: Seq<Slot>,
        lvl: Map<u32, nat>,
    ) -> bool {
        &&& forall|x: u32|
            #[trigger] vis.contains(x) ==> lvl.contains_key(x) && lvl[x] <= k && self.reached_within(
                seq![s0],
                x,
                lvl[x] as int,
            )
        &&& forall|x: u32, p: Seq<u32>|
            #[trigger] vis.contains(x) && #[trigger] self.is_path_from_to(p, s0, x) ==> p.len()
                >= lvl[x] + 1
        &&& forall|j: int|
            0 <= j < q.len() ==> lvl.contains_key((#[trigger] q[j]).1) && q[j].0 == lvl[q[j].1] + 1
        &&& forall|a: int, b: int| 0 <= a <= b < q.len() ==> (#[trigger] q[a]).0 <= (#[trigger] q[b]).0
        &&& q.len() > 0 ==> q.last().0 <= q[0].0 + 1
        &&& forall|x: u32, c: u32|
            #[trigger] vis.contains(x) && #[trigger] self.has_edge(x, c) && lvl[x] < k
                ==> cm[x as int].members().contains(c) || pending(q, x, c)
        &&& forall|x: u32, c: u32|
            x < self.n() && #[trigger] cm[x as int].members().contains(c) ==> lvl[x] < k
        &&& forall|x: u32|
            #[trigger] vis.contains(x) && (lvl[x] == k || self.children_of(x) == Set::<u32>::empty())
                ==> cm[x as int] is Empty
        &&& forall|x: u32|
            x < self.n() && #[trigger] cm[x as int] is Empty ==> lvl[x] == k || self.children_of(x)
                == Set::<u32>::empty()
    }

    /// In that search, once every queued pair is at depth `b` or more, a
    /// node that a path of at most `b` nodes reaches is visited, at a depth
    /// no greater than that path's.
    proof fn lemma_limited_short(
        &self,
        s0: u32,
        k: int,
        vis: Set<u32>,
        q: Seq<(usize, u32, u32)>,
        cm: Seq<Slot>,
        lvl: Map<u32, nat>,
        b: int,
        p: Seq<u32>,
        x: u32,
    )
        requires
            self.limited_state(s0, k, vis, q, cm, lvl),
            vis.contains(s0),
            lvl[s0] == 0,
            forall|c: u32, y: u32| y < self.n() && #[trigger] cm[y as int].members().contains(c) ==> vis.contains(c),
            forall|j: int| 0 <= j < q.len() ==> (#[trigger] q[j]).0 >= b,
            b <= k + 1,
            self.is_path_from_to(p, s0, x),
            1 <= p.len() <= b,
        ensures
            vis.contains(x),
            lvl[x] + 1 <= p.len(),
        decreases p.len(),
    {
        if p.len() == 1 {
            assert(x == s0);
        } else {
            let pre = p.drop_last();
            let w = pre.last();
            assert(self.is_path_from_to(pre, s0, w)) by {
                assert forall|i: int| 0 <= i < pre.len() - 1 implies #[trigger] self.has_edge(pre[i], pre[i + 1]) by {
                    assert(self.has_edge(p[i], p[i + 1]));
                }
            }
            self.lemma_limited_short(s0, k, vis, q, cm, lvl, b, pre, w);
            assert(self.has_edge(p[p.len() - 2], p[p.len() - 2 + 1]));
            assert(vis.contains(w) && self.has_edge(w, x) && lvl[w] < k);
            if pending(q, w, x) {
                let j = choose|j: int| 0 <= j < q.len() && q[j].1 == w && q[j].2 == x;
                assert(q[j].0 == lvl[w] + 1);
                assert(q[j].0 >= b);
            }
            assert(self.children_of(w).contains(x));
            assert(w < self.n());
            assert(cm[w as int].members().contains(x));
            assert(vis.contains(x));
        }
    }
}

impl DirectedGraph {
    /// Some seed reaches `x` by a path of at most `l` edges.
    pub open(crate) spec fn reached_within(&self, seeds: Seq<u32>, x: u32, l: int) -> bool {
        exists|i: int, p: Seq<u32>|
            0 <= i < seeds.len() && #[trigger] self.is_path_from_to(p, seeds[i], x) && p.len() <= l + 1
    }

    /// What holds between the search state of a subset and the graph it is taken from.
    pub open(crate) spec fn subset_state(
        &self,
        unlimited: bool,
        vis: Set<u32>,
        q: Seq<(usize, u32, u32)>,
        cm: Seq<Slot>,
        pm: Seq<Slot>,
    ) -> bool {
        &&& cm.len() == self.n()
        &&& pm.len() == self.n()
        &&& forall|x: u32| #[trigger] vis.contains(x) ==> x < self.n()
        &&& forall|k: int| 0 <= k < q.len() ==> #[trigger] self.has_edge(q[k].1, q[k].2)
        &&& forall|k: int| 0 <= k < q.len() ==> vis.contains(#[trigger] q[k].1)
        &&& forall|k: int| 0 <= k < q.len() ==> !(cm[#[trigger] q[k].1 as int] is Empty)
        &&& forall|k: int| 0 <= k < q.len() ==> #[trigger] q[k].2 < self.n()
        &&& forall|p: u32, c: u32|
            p < self.n() && #[trigger] cm[p as int].members().contains(c) ==> c < self.n()
                && pm[c as int].members().contains(p)
        &&& forall|p: u32, c: u32|
            c < self.n() && #[trigger] pm[c as int].members().contains(p) ==> p < self.n()
                && cm[p as int].members().contains(c)
        &&& forall|p: u32, c: u32|
            p < self.n() && #[trigger] cm[p as int].members().contains(c) ==> self.has_edge(p, c)
                && vis.contains(p) && vis.contains(c)
        &&& forall|x: int|
            0 <= x < self.n() ==> (!(#[trigger] cm[x] is Unknown) ==> vis.contains(x as u32))
        &&& forall|x: int|
            0 <= x < self.n() ==> (!(#[trigger] pm[x] is Unknown) <==> vis.contains(x as u32))
        &&& forall|x: u32|
            #[trigger] vis.contains(x) ==> !(cm[x as int] is Unknown) || exists|k: int|
                0 <= k < q.len() && q[k].1 == x
        &&& forall|x: int|
            0 <= x < self.n() ==> (#[trigger] cm[x] is Members ==> cm[x].members() != Set::<
                u32,
            >::empty())
        &&& forall|x: int|
            0 <= x < self.n() ==> (#[trigger] pm[x] is Members ==> pm[x].members() != Set::<
                u32,
            >::empty())
        &&& unlimited ==> forall|x: int|
            0 <= x < self.n() ==> (#[trigger] cm[x] is Empty ==> !self.is_node(x as u32)
                || self.is_leaf(x as u32))
        &&& unlimited ==> forall|x: u32, c: u32|
            #[trigger] vis.contains(x) && #[trigger] self.has_edge(x, c) ==> cm[x as int].members().contains(c)
                || pending(q, x, c)
    }
}

} // verus!

verus! {

impl DirectedGraph {
    /// Pushes the pairs `(level, node, c)` for each child `c` of `node`.
    fn push_children(
        &self,
        queue: &mut VecDeque<(usize, u32, u32)>,
        kids: &Vec<u32>,
        level: usize,
        node: u32,
    )
        requires
            self.wf(),
            node < self.n(),
            kids@.to_set() == self.children_of(node),
        ensures
            final(queue)@.len() == old(queue)@.len() + kids@.len(),
            forall|k: int| 0 <= k < old(queue)@.len() ==> #[trigger] final(queue)@[k] == old(queue)@[k],
            forall|k: int|
                old(queue)@.len() <= k < final(queue)@.len() ==> (#[trigger] final(queue)@[k]).1 == node
                    && final(queue)@[k].0 == level && self.has_edge(node, final(queue)@[k].2)
                    && final(queue)@[k].2 < self.n(),
            forall|c: u32| #[trigger] self.has_edge(node, c) ==> pending(final(queue)@, node, c),
    {
        let ghost q0 = queue@;
        let mut k: usize = 0;
        while k < kids.len()
            invariant
                self.wf(),
                node < self.n(),
                kids@.to_set() == self.children_of(node),
                k <= kids@.len(),
                queue@.len() == q0.len() + k,
                forall|j: int| 0 <= j < q0.len() ==> #[trigger] queue@[j] == q0[j],
                forall|j: int|
                    q0.len() <= j < queue@.len() ==> #[trigger] queue@[j] == (level, node, kids@[j - q0.len()]),
            decreases kids.len() - k,
        {
            queue.push_back((level, node, kids[k]));
            k = k + 1;
        }
        proof {
            assert forall|j: int|
                q0.len() <= j < queue@.len() implies (#[trigger] queue@[j]).1 == node && queue@[j].0 == level
                    && self.has_edge(node, queue@[j].2) && queue@[j].2 < self.n() by {
                assert(queue@[j] == (level, node, kids@[j - q0.len()]));
                assert(kids@.to_set().contains(kids@[j - q0.len()]));
            }
            assert forall|c: u32| #[trigger] self.has_edge(node, c) implies pending(queue@, node, c) by {
                assert(kids@.to_set().contains(c));
                let j = choose|j: int| 0 <= j < kids@.len() && kids@[j] == c;
                assert(queue@[q0.len() + j] == (level, node, kids@[j]));
            }
        }
    }

    /// What the subset search from `seeds` yields.
    #[verifier::opaque]
    pub open(crate) spec fn core_post(&self, seeds: Seq<u32>, limit: Option<usize>, r: DirectedGraph) -> bool {
        &&& r.wf()
        &&& r.labels() == self.labels()
        &&& forall|p: u32, c: u32| #[trigger] r.has_edge(p, c) ==> self.has_edge(p, c)
        &&& forall|x: u32| #[trigger] r.is_node(x) ==> self.reached_from(true, seeds, x)
        &&& forall|x: u32| #[trigger] r.is_root(x) ==> seeds.contains(x)
        &&& forall|i: int| 0 <= i < seeds.len() ==> r.is_node(#[trigger] seeds[i])
        &&& limit is None ==> forall|x: u32| #[trigger] r.is_node(x) <==> self.reached_from(true, seeds, x)
        &&& limit is None ==> forall|p: u32, c: u32|
                #[trigger] r.has_edge(p, c) <==> (self.has_edge(p, c) && r.is_node(p))
        &&& limit is None ==> forall|x: u32| #[trigger] r.is_leaf(x) ==> (self.is_leaf(x) || !self.is_node(x))
        &&& limit is None ==> forall|x: u32| #[trigger] r.is_root(x) <==> self.unreached_seed(seeds, x)
        &&& limit matches Some(k) ==> forall|x: u32|
                #[trigger] r.is_node(x) ==> self.reached_within(seeds, x, k as int)
        &&& limit matches Some(k) ==> seeds.len() == 1 ==> self.is_exact_limited(seeds, k as int, r)
    }

    /// `g` is exactly the subgraph within `k` edges of `seeds`: its nodes are
    /// those within `k` edges, its edges those leaving nodes within `k - 1`
    /// edges, and its leaves the nodes without children here or at exactly
    /// `k` edges.
    pub open(crate) spec fn is_exact_limited(&self, seeds: Seq<u32>, k: int, g: DirectedGraph) -> bool {
        &&& forall|x: u32| #[trigger] g.is_node(x) <==> self.reached_within(seeds, x, k)
        &&& forall|p: u32, c: u32|
            #[trigger] g.has_edge(p, c) <==> (self.has_edge(p, c) && self.reached_within(seeds, p, k - 1))
        &&& forall|x: u32|
            #[trigger] g.is_leaf(x) <==> (g.is_node(x) && (self.children_of(x) == Set::<u32>::empty()
                || !self.reached_within(seeds, x, k - 1)))
    }

    /// The subgraph that a breadth-first search from `seeds` over children
    /// finds; with a limit, nodes at that depth are not searched further and
    /// become leaves. Seeds reached from an earlier seed are not roots.
    pub(crate) fn subset_core(&self, seeds: &[u32], limit: Option<usize>) -> (r: DirectedGraph)
        requires
            self.wf(),
            forall|i: int| 0 <= i < seeds@.len() ==> seeds@[i] < self.labels().len(),
            limit matches Some(k) ==> k > 0,
        ensures
            self.core_post(seeds@, limit, r),
    {
        let n = self.children_map.len();
        let ghost nn = n as u32;
        let mut children_map = NodeMap::new(n);
        let mut parent_map = NodeMap::new(n);
        let mut visited = SymSet::new();
        let mut visited_list: Vec<u32> = Vec::new();
        let mut leaves_list: Vec<u32> = Vec::new();
        let mut queue: VecDeque<(usize, u32, u32)> = VecDeque::new();
        let mut n_edges: usize = 0;
        let unlimited = limit.is_none();
        let ghost single = limit is Some && seeds@.len() == 1;
        let ghost kk: int = match limit {
            Some(k) => k as int,
            None => 0,
        };
        let ghost s0: u32 = if seeds@.len() > 0 {
            seeds@[0]
        } else {
            0
        };
        let ghost mut lvl: Map<u32, nat> = Map::empty().insert(s0, 0nat);
        proof {
            lemma_bounded_set(visited@, nn);
            if single {
                assert(self.limited_state(s0, kk, visited@, queue@, children_map@, lvl));
            }
        }
        let mut i: usize = 0;
        while i < seeds.len()
            invariant
                self.wf(),
                n == self.n(),
                nn == n,
                n < 0xFFFF_FFFFusize,
                unlimited == (limit is None),
                limit matches Some(k) ==> k > 0,
                forall|j: int| 0 <= j < seeds@.len() ==> seeds@[j] < n,
                i <= seeds@.len(),
                queue@.len() == 0,
                self.subset_state(unlimited, visited@, queue@, children_map@, parent_map@),
                children_map.finite(),
                parent_map.finite(),
                visited@.finite(),
                visited@.len() <= n,
                n_edges == total(children_map@),
                n_edges == total(parent_map@),
                forall|x: u32| #[trigger] visited_list@.contains(x) <==> visited@.contains(x),
                forall|x: u32| #[trigger] leaves_list@.contains(x) <==> (x < n && children_map@[x as int] is Empty),
                forall|x: u32| #[trigger] visited@.contains(x) ==> self.reached_from(true, seeds@, x),
                forall|j: int| 0 <= j < i ==> visited@.contains(#[trigger] seeds@[j]),
                forall|x: u32| x < n && #[trigger] parent_map@[x as int] is Empty ==> seeds@.contains(x),
                n_edges <= self.n_edges,
                limit matches Some(k) ==> forall|x: u32|
                    #[trigger] visited@.contains(x) ==> self.reached_within(seeds@, x, k as int),
                single ==> (i == 0 ==> visited@ == Set::<u32>::empty()),
                single ==> self.limited_state(s0, kk, visited@, queue@, children_map@, lvl),
                single ==> lvl.contains_key(s0) && lvl[s0] == 0,
                single ==> seeds@ == seq![s0],
                single ==> (limit matches Some(k) && kk == k as int && kk > 0),
            decreases seeds.len() - i,
        {
            let s = seeds[i];
            if !visited.contains(s) {
                let ghost cm0 = children_map@;
                let ghost pm0 = parent_map@;
                parent_map.into_empty(s);
                let ghost vl0 = visited_list@;
                let ghost vv0 = visited@;
                assert(forall|x: u32| vl0.contains(x) <==> vv0.contains(x));
                visited.insert(s);
                visited_list.push(s);
                proof {
                    assert forall|x: u32| #[trigger] visited_list@.contains(x) <==> visited@.contains(x) by {
                        if x != s {
                            assert(visited_list@.contains(x) <==> vl0.contains(x)) by {
                                if visited_list@.contains(x) {
                                    let q = choose|q: int| 0 <= q < visited_list@.len() && visited_list@[q] == x;
                                    assert(vl0[q] == x);
                                }
                                if vl0.contains(x) {
                                    let q = choose|q: int| 0 <= q < vl0.len() && vl0[q] == x;
                                    assert(visited_list@[q] == x);
                                }
                            }
                        } else {
                            assert(visited_list@[visited_list@.len() - 1] == x);
                        }
                    }
                    lemma_bounded_set(visited@, nn);
                    if let Some(k) = limit {
                        assert(self.is_path_from_to(seq![s], seeds@[i as int], s));
                        assert(self.reached_within(seeds@, s, k as int));
                        assert forall|x: u32| #[trigger] visited@.contains(x) implies self.reached_within(seeds@, x, k as int) by {
                            if x != s {
                                assert(vv0.contains(x));
                            }
                        }
                    }
                    self.lemma_reaches_self(true, s);
                    assert(self.reaches(true, seeds@[i as int], s));
                    assert(pm0[s as int] is Unknown);
                    assert(cm0[s as int] is Unknown);
                }
                let ghost v0 = visited@;
                let ghost cm1 = children_map@;
                let ghost pm1 = parent_map@;
                let ghost ll0 = leaves_list@;
                assert(forall|x: u32| ll0.contains(x) <==> (x < n && cm1[x as int] is Empty));
                match self.children_map.get(s) {
                    LazySet::Initialized(set) => {
                        let kids = set.to_vec();
                        proof {
                            assert(self.children_of(s) == self.children_map@[s as int].members());
                        }
                        self.push_children(&mut queue, &kids, 1, s);
                        proof {
                            if let Some(k) = limit {
                                assert forall|j: int| 0 <= j < queue@.len() implies self.reached_within(
                                    seeds@,
                                    (#[trigger] queue@[j]).2,
                                    queue@[j].0 as int,
                                ) by {
                                    let c = queue@[j].2;
                                    assert(self.has_edge(s, c));
                                    assert(self.is_path_from_to(seq![s], s, s));
                                    self.lemma_path_append(seq![s], s, s, c);
                                    assert(seq![s].push(c).len() == 2);
                                    assert(self.is_path_from_to(seq![s].push(c), seeds@[i as int], c));
                                }
                            }
                            assert(children_map@ == cm1);
                            assert(cm1[s as int] is Unknown);
                            let m = self.children_map@[s as int].members();
                            assert(m != Set::<u32>::empty());
                            if !(exists|c: u32| m.contains(c)) {
                                assert(m =~= Set::<u32>::empty());
                            }
                            let c = choose|c: u32| m.contains(c);
                            assert(self.has_edge(s, c));
                            assert(pending(queue@, s, c));
                        }
                    },
                    _ => {
                        children_map.into_empty(s);
                        leaves_list.push(s);
                        proof {
                            assert(!(self.children_map@[s as int] is Members));
                            assert(self.children_of(s) =~= Set::<u32>::empty());
                            assert forall|x: u32| #[trigger] leaves_list@.contains(x) <==> (x < n && children_map@[x as int] is Empty) by {
                                if x != s && x < n {
                                    assert(children_map@[x as int] == cm1[x as int]);
                                }
                                if leaves_list@.contains(x) && x != s {
                                    let q = choose|q: int| 0 <= q < leaves_list@.len() && leaves_list@[q] == x;
                                    assert(ll0[q] == x);
                                }
                                if x < n && children_map@[x as int] is Empty && x != s {
                                    assert(ll0.contains(x));
                                    let q = choose|q: int| 0 <= q < ll0.len() && ll0[q] == x;
                                    assert(leaves_list@[q] == x);
                                }
                                if x == s {
                                    assert(leaves_list@[leaves_list@.len() - 1] == x);
                                }
                                if x != s {
                                    assert(leaves_list@.contains(x) <==> ll0.contains(x));
                                    assert(ll0.contains(x) <==> (x < n && cm1[x as int] is Empty));
                                }
                            }
                        }
                    },
                }
                proof {
                    assert forall|x: int| 0 <= x < n implies #[trigger] children_map@[x].members() == cm0[x].members() by {
                        if x == s as int {
                            assert(children_map@[x].members() =~= Set::<u32>::empty());
                        }
                    }
                    assert forall|x: int| 0 <= x < n implies #[trigger] parent_map@[x].members() == pm0[x].members() by {
                        if x == s as int {
                            assert(parent_map@[x].members() =~= Set::<u32>::empty());
                        }
                    }
                    assert forall|x: u32| #[trigger] visited@.contains(x) implies !(children_map@[x as int] is Unknown) || exists|k: int|
                        0 <= k < queue@.len() && queue@[k].1 == x by {
                        if x != s {
                            assert(v0.contains(x));
                            assert(!(cm0[x as int] is Unknown));
                        }
                    }
                    if unlimited {
                        assert forall|x: u32, c: u32|
                            #[trigger] visited@.contains(x) && #[trigger] self.has_edge(x, c) implies children_map@[x as int].members().contains(c)
                                || pending(queue@, x, c) by {
                            if x != s {
                                assert(v0.contains(x));
                                assert(cm0[x as int].members().contains(c) || pending(Seq::<(usize, u32, u32)>::empty(), x, c));
                            } else if self.children_map@[s as int] is Members {
                                assert(pending(queue@, s, c));
                            } else {
                                assert(self.children_of(s).contains(c));
                            }
                        }
                    }
                    if unlimited {
                    assert forall|x: int|
                        0 <= x < n implies (#[trigger] children_map@[x] is Empty ==> !self.is_node(x as u32)
                            || self.is_leaf(x as u32)) by {
                        if unlimited && x != s as int {
                            assert(cm0[x] == children_map@[x]);
                        }
                        if unlimited && children_map@[x] is Empty {
                            if x == s as int {
                                assert(!(self.children_map@[x] is Members));
                                if self.children_map@[x] is Empty {
                                    assert(self.is_leaf(x as u32));
                                } else {
                                    assert(!self.is_node(x as u32));
                                }
                            } else {
                                assert(cm0[x] is Empty);
                            }
                        }
                    }
                    }
                    assert(forall|x: u32| #[trigger] visited@.contains(x) ==> x < self.n());
                    assert(forall|k: int| 0 <= k < queue@.len() ==> #[trigger] self.has_edge(queue@[k].1, queue@[k].2));
                    assert(forall|k: int| 0 <= k < queue@.len() ==> visited@.contains(#[trigger] queue@[k].1));
                    assert(forall|k: int| 0 <= k < queue@.len() ==> !(children_map@[#[trigger] queue@[k].1 as int] is Empty));
                    assert(forall|k: int| 0 <= k < queue@.len() ==> #[trigger] queue@[k].2 < self.n());
                    assert(forall|p: u32, c: u32|
                        p < self.n() && #[trigger] children_map@[p as int].members().contains(c) ==> c < self.n()
                            && parent_map@[c as int].members().contains(p));
                    assert(forall|p: u32, c: u32|
                        c < self.n() && #[trigger] parent_map@[c as int].members().contains(p) ==> p < self.n()
                            && children_map@[p as int].members().contains(c));
                    assert(forall|p: u32, c: u32|
                        p < self.n() && #[trigger] children_map@[p as int].members().contains(c) ==> self.has_edge(p, c)
                            && visited@.contains(p) && visited@.contains(c));
                    assert(forall|x: int|
                        0 <= x < self.n() ==> (!(#[trigger] children_map@[x] is Unknown) ==> visited@.contains(x as u32)));
                    assert(forall|x: int|
                        0 <= x < self.n() ==> (!(#[trigger] parent_map@[x] is Unknown) <==> visited@.contains(x as u32)));
                    assert(forall|x: int|
                        0 <= x < self.n() ==> (#[trigger] children_map@[x] is Members ==> children_map@[x].members() != Set::<
                            u32,
                        >::empty()));
                    assert(forall|x: int|
                        0 <= x < self.n() ==> (#[trigger] parent_map@[x] is Members ==> parent_map@[x].members() != Set::<
                            u32,
                        >::empty()));
                    assert(self.subset_state(unlimited, visited@, queue@, children_map@, parent_map@));
                }
                while queue.len() > 0
                    invariant
                        self.wf(),
                        n == self.n(),
                        nn == n,
                        n < 0xFFFF_FFFFusize,
                        unlimited == (limit is None),
                        limit matches Some(k) ==> k > 0,
                limit matches Some(k) ==> k > 0,
                        forall|j: int| 0 <= j < seeds@.len() ==> seeds@[j] < n,
                        i < seeds@.len(),
                        limit matches Some(k) ==> forall|j: int| 0 <= j < queue@.len() ==> #[trigger] queue@[j].0 <= k,
                        self.subset_state(unlimited, visited@, queue@, children_map@, parent_map@),
                        children_map.finite(),
                        parent_map.finite(),
                        visited@.finite(),
                        visited@.len() <= n,
                        n_edges == total(children_map@),
                        n_edges == total(parent_map@),
                        forall|x: u32| #[trigger] visited_list@.contains(x) <==> visited@.contains(x),
                        forall|x: u32| #[trigger] leaves_list@.contains(x) <==> (x < n && children_map@[x as int] is Empty),
                        forall|x: u32| #[trigger] visited@.contains(x) ==> self.reached_from(true, seeds@, x),
                        forall|j: int| 0 <= j <= i ==> visited@.contains(#[trigger] seeds@[j]),
                        forall|x: u32| x < n && #[trigger] parent_map@[x as int] is Empty ==> seeds@.contains(x),
                        n_edges <= self.n_edges,
                        limit matches Some(k) ==> forall|x: u32|
                            #[trigger] visited@.contains(x) ==> self.reached_within(seeds@, x, k as int),
                        limit matches Some(k) ==> forall|j: int|
                            0 <= j < queue@.len() ==> self.reached_within(
                                seeds@,
                                (#[trigger] queue@[j]).2,
                                queue@[j].0 as int,
                            ),
                        single ==> i == 0,
                        single ==> self.limited_state(s0, kk, visited@, queue@, children_map@, lvl),
                        single ==> lvl.contains_key(s0) && lvl[s0] == 0,
                        single ==> seeds@ == seq![s0],
                        single ==> (limit matches Some(k) && kk == k as int && kk > 0),
                    decreases n - visited@.len(), queue@.len(),
                {
                    let ghost q0 = queue@;
                    let ghost cm0 = children_map@;
                    let ghost pm0 = parent_map@;
                    let ghost v0 = visited@;
                    let (level, parent, node) = queue.pop_front().unwrap();
                    proof {
                        assert(q0[0] == (level, parent, node));
                        assert(self.has_edge(q0[0].1, q0[0].2));
                        assert(v0.contains(q0[0].1));
                        assert(!(cm0[q0[0].1 as int] is Empty));
                        assert(node < n);
                        assert(forall|k: int| 0 <= k < queue@.len() ==> queue@[k] == q0[k + 1]);
                    }
                    let added = children_map.insert(parent, node);
                    let added2 = parent_map.insert(node, parent);
                    proof {
                        assert(added == added2);
                        assert forall|x: int| 0 <= x < n implies #[trigger] children_map@[x].members().subset_of(
                            self.children_map@[x].members(),
                        ) by {
                            assert forall|c: u32| children_map@[x].members().contains(c) implies self.children_map@[x].members().contains(c) by {
                                if x != parent as int || c != node {
                                    assert(cm0[x].members().contains(c));
                                    assert(self.has_edge(x as u32, c));
                                }
                            }
                        }
                        crate::node_map::lemma_total_mono(children_map@, self.children_map@);
                    }
                    if added {
                        n_edges = n_edges + 1;
                    }
                    let ghost cm2 = children_map@;
                    let ghost q1 = queue@;
                    let ghost ll0 = leaves_list@;
                    let ghost vl0 = visited_list@;
                    assert(forall|x: u32| vl0.contains(x) <==> v0.contains(x));
                    assert(forall|x: u32| ll0.contains(x) <==> (x < n && cm2[x as int] is Empty)) by {
                        assert forall|x: u32| x < n && x != parent implies cm2[x as int] == cm0[x as int] by {}
                    }
                    let ghost lvl0 = lvl;
                    proof {
                        if single {
                            assert(forall|j: int| 0 <= j < q0.len() ==> (#[trigger] q0[j]).0 >= level) by {
                                assert forall|j: int| 0 <= j < q0.len() implies (#[trigger] q0[j]).0 >= level by {
                                    assert(q0[0].0 <= q0[j].0);
                                }
                            }
                        }
                    }
                    let newly = visited.insert(node);
                    if newly {
                        proof {
                            if single {
                                assert forall|pp: Seq<u32>| #[trigger] self.is_path_from_to(pp, s0, node) implies pp.len()
                                    >= level + 1 by {
                                    if pp.len() <= level {
                                        assert(forall|c: u32, y: u32| y < self.n() && #[trigger] cm0[y as int].members().contains(c) ==> v0.contains(c));
                                        assert(v0.contains(seeds@[0]));
                                        self.lemma_limited_short(s0, kk, v0, q0, cm0, lvl0, level as int, pp, node);
                                    }
                                }
                                lvl = lvl0.insert(node, level as nat);
                            }
                        }
                        visited_list.push(node);
                        proof {
                            lemma_bounded_set(visited@, nn);
                            assert(!v0.contains(node));
                            assert(cm0[node as int] is Unknown);
                            assert(node != parent);
                            assert(cm2[node as int] is Unknown);
                            assert(self.parents_of(node).contains(parent));
                            assert(!(self.children_map@[node as int] is Unknown));
                            let i0 = choose|i0: int| 0 <= i0 < seeds@.len() && #[trigger] self.reaches(true, seeds@[i0], parent);
                            self.lemma_reaches_step(true, seeds@[i0], parent, node);
                            assert(self.reaches(true, seeds@[i0], node));
                            assert forall|x: u32| #[trigger] visited_list@.contains(x) <==> visited@.contains(x) by {
                                if visited_list@.contains(x) && x != node {
                                    let q = choose|q: int| 0 <= q < visited_list@.len() && visited_list@[q] == x;
                                    assert(vl0[q] == x);
                                }
                                if v0.contains(x) {
                                    assert(vl0.contains(x));
                                    let q = choose|q: int| 0 <= q < vl0.len() && vl0[q] == x;
                                    assert(visited_list@[q] == x);
                                }
                                if x == node {
                                    assert(visited_list@[visited_list@.len() - 1] == x);
                                }
                            }
                        }
                        let expand = match limit {
                            Some(k) => level < k,
                            None => true,
                        };
                        match self.children_map.get(node) {
                            LazySet::Initialized(set) => {
                                if expand {
                                    let kids = set.to_vec();
                                    let next = if unlimited {
                                        level
                                    } else {
                                        level + 1
                                    };
                                    proof {
                                        assert(self.children_of(node) == self.children_map@[node as int].members());
                                    }
                                    self.push_children(&mut queue, &kids, next, node);
                                    proof {
                                        let m = self.children_map@[node as int].members();
                                        if !(exists|c: u32| m.contains(c)) {
                                            assert(m =~= Set::<u32>::empty());
                                        }
                                        let c = choose|c: u32| m.contains(c);
                                        assert(self.has_edge(node, c));
                                        assert(pending(queue@, node, c));
                                    }
                                } else {
                                    children_map.into_empty(node);
                                    leaves_list.push(node);
                                }
                            },
                            LazySet::Empty => {
                                children_map.into_empty(node);
                                leaves_list.push(node);
                                proof {
                                    assert(self.children_of(node) =~= Set::<u32>::empty());
                                }
                            },
                            LazySet::Uninitialized => {
                                proof {
                                    assert(false);
                                }
                            },
                        }
                        proof {
                            assert forall|x: u32| #[trigger] leaves_list@.contains(x) <==> (x < n && children_map@[x as int] is Empty) by {
                                if x != node && x < n {
                                    assert(children_map@[x as int] == cm2[x as int]);
                                }
                                if leaves_list@.contains(x) && x != node {
                                    let q = choose|q: int| 0 <= q < leaves_list@.len() && leaves_list@[q] == x;
                                    assert(ll0[q] == x);
                                }
                                if x < n && cm2[x as int] is Empty && x != node {
                                    assert(ll0.contains(x));
                                    let q = choose|q: int| 0 <= q < ll0.len() && ll0[q] == x;
                                    assert(leaves_list@[q] == x);
                                }
                                if x == node && children_map@[x as int] is Empty {
                                    assert(leaves_list@[leaves_list@.len() - 1] == x);
                                }
                                if x != node {
                                    assert(leaves_list@.contains(x) <==> ll0.contains(x)) by {
                                        if leaves_list@.contains(x) {
                                            let q = choose|q: int| 0 <= q < leaves_list@.len() && leaves_list@[q] == x;
                                            assert(ll0[q] == x);
                                        }
                                        if ll0.contains(x) {
                                            let q = choose|q: int| 0 <= q < ll0.len() && ll0[q] == x;
                                            assert(leaves_list@[q] == x);
                                        }
                                    }
                                    assert(ll0.contains(x) <==> (x < n && cm2[x as int] is Empty));
                                }
                            }
                        }
                    }
                    proof {
                        assert forall|k: int| 0 <= k < q1.len() implies #[trigger] queue@[k] == q1[k] by {
                        }
                        assert forall|x: int| 0 <= x < n && x != node as int implies #[trigger] children_map@[x] == cm2[x] by {
                        }
                        assert forall|x: u32| #[trigger] visited@.contains(x) implies !(children_map@[x as int] is Unknown) || exists|k: int|
                            0 <= k < queue@.len() && queue@[k].1 == x by {
                            if x == parent {
                                assert(cm2[x as int] is Members);
                                if x != node {
                                    assert(children_map@[x as int] == cm2[x as int]);
                                }
                            } else if x == node && newly {
                                if self.children_map@[node as int] is Members && (limit is None || level < limit.unwrap()) {
                                    let m = self.children_map@[node as int].members();
                                    if !(exists|c: u32| m.contains(c)) {
                                        assert(m =~= Set::<u32>::empty());
                                    }
                                    let c = choose|c: u32| m.contains(c);
                                    assert(self.has_edge(node, c));
                                    assert(pending(queue@, node, c));
                                    let k = choose|k: int| 0 <= k < queue@.len() && queue@[k].1 == node && queue@[k].2 == c;
                                }
                            } else {
                                assert(v0.contains(x));
                                assert(children_map@[x as int] == cm0[x as int]);
                                if cm0[x as int] is Unknown {
                                    let k = choose|k: int| 0 <= k < q0.len() && q0[k].1 == x;
                                    assert(k != 0);
                                    assert(queue@[k - 1] == q0[k]);
                                }
                            }
                        }
                        if unlimited {
                        assert forall|x: u32, c: u32|
                            #[trigger] visited@.contains(x) && #[trigger] self.has_edge(x, c) implies children_map@[x as int].members().contains(c)
                                || pending(queue@, x, c) by {
                            if x == node && newly {
                                if self.children_map@[node as int] is Members {
                                    assert(pending(queue@, node, c));
                                } else {
                                    assert(self.children_of(node).contains(c));
                                }
                            } else if x == parent && c == node {
                                assert(cm2[x as int].members().contains(c));
                                if x != node {
                                    assert(children_map@[x as int] == cm2[x as int]);
                                }
                            } else {
                                assert(v0.contains(x));
                                if !cm0[x as int].members().contains(c) {
                                    assert(pending(q0, x, c));
                                    let k = choose|k: int| 0 <= k < q0.len() && q0[k].1 == x && q0[k].2 == c;
                                    if k > 0 {
                                        assert(queue@[k - 1] == q0[k]);
                                    }
                                }
                            }
                        }
                        }
                        assert(forall|x: u32| #[trigger] visited@.contains(x) ==> x < self.n());
                        assert(forall|k: int| 0 <= k < queue@.len() ==> #[trigger] self.has_edge(queue@[k].1, queue@[k].2));
                        assert(forall|k: int| 0 <= k < queue@.len() ==> visited@.contains(#[trigger] queue@[k].1));
                        assert(forall|k: int| 0 <= k < queue@.len() ==> !(children_map@[#[trigger] queue@[k].1 as int] is Empty));
                        assert(forall|k: int| 0 <= k < queue@.len() ==> #[trigger] queue@[k].2 < self.n());
                        assert(forall|p: u32, c: u32|
                            p < self.n() && #[trigger] children_map@[p as int].members().contains(c) ==> c < self.n()
                                && parent_map@[c as int].members().contains(p));
                        assert(forall|p: u32, c: u32|
                            c < self.n() && #[trigger] parent_map@[c as int].members().contains(p) ==> p < self.n()
                                && children_map@[p as int].members().contains(c));
                        assert(forall|p: u32, c: u32|
                            p < self.n() && #[trigger] children_map@[p as int].members().contains(c) ==> self.has_edge(p, c)
                                && visited@.contains(p) && visited@.contains(c));
                        assert(forall|x: int|
                            0 <= x < self.n() ==> (!(#[trigger] children_map@[x] is Unknown) ==> visited@.contains(x as u32)));
                        assert(forall|x: int|
                            0 <= x < self.n() ==> (!(#[trigger] parent_map@[x] is Unknown) <==> visited@.contains(x as u32)));
                        assert forall|x: int|
                            0 <= x < self.n() implies (#[trigger] children_map@[x] is Members ==> children_map@[x].members() != Set::<
                                u32,
                            >::empty()) by {
                            if x == parent as int {
                                assert(cm2[x].members().contains(node));
                                if x != node as int || !newly {
                                    assert(children_map@[x] == cm2[x]);
                                }
                            } else if x != node as int || !newly {
                                assert(children_map@[x] == cm0[x]);
                            }
                        }
                        assert forall|x: int|
                            0 <= x < self.n() implies (#[trigger] parent_map@[x] is Members ==> parent_map@[x].members() != Set::<
                                u32,
                            >::empty()) by {
                            if x == node as int {
                                assert(parent_map@[x].members().contains(parent));
                            } else {
                                assert(parent_map@[x] == pm0[x]);
                            }
                        }
                        assert(unlimited ==> forall|x: int|
                            0 <= x < self.n() ==> (#[trigger] children_map@[x] is Empty ==> !self.is_node(x as u32)
                                || self.is_leaf(x as u32)));
                        if let Some(k) = limit {
                            assert(self.reached_within(seeds@, (q0[0]).2, q0[0].0 as int));
                            assert forall|j: int| 0 <= j < queue@.len() implies self.reached_within(
                                seeds@,
                                (#[trigger] queue@[j]).2,
                                queue@[j].0 as int,
                            ) by {
                                if j < q1.len() {
                                    assert(queue@[j] == q1[j]);
                                    assert(q1[j] == q0[j + 1]);
                                    assert(self.reached_within(seeds@, (q0[j + 1]).2, q0[j + 1].0 as int));
                                } else {
                                    let c = queue@[j].2;
                                    assert(queue@[j].1 == node);
                                    assert(self.has_edge(node, c));
                                    let (si, sp) = choose|si: int, sp: Seq<u32>|
                                        0 <= si < seeds@.len() && #[trigger] self.is_path_from_to(sp, seeds@[si], node)
                                            && sp.len() <= level + 1;
                                    self.lemma_path_append(sp, seeds@[si], node, c);
                                    assert(self.is_path_from_to(sp.push(c), seeds@[si], c));
                                }
                            }
                            assert forall|x: u32| #[trigger] visited@.contains(x) implies self.reached_within(seeds@, x, k as int) by {
                                if x != node || v0.contains(x) {
                                    assert(v0.contains(x));
                                } else {
                                    let (si, sp) = choose|si: int, sp: Seq<u32>|
                                        0 <= si < seeds@.len() && #[trigger] self.is_path_from_to(sp, seeds@[si], node)
                                            && sp.len() <= level + 1;
                                    assert(self.is_path_from_to(sp, seeds@[si], x));
                                }
                            }
                        }
                        assert(self.subset_state(unlimited, visited@, queue@, children_map@, parent_map@));
                        if single {
                            let k = kk;
                            assert(seeds@ == seq![s0]);
                            assert(q0[0].0 == lvl0[parent] + 1);
                            assert(level as int <= k);
                            assert(v0.contains(parent));
                            assert(newly ==> !v0.contains(node));
                            assert forall|x: u32| v0.contains(x) implies lvl[x] == lvl0[x] by {
                                if newly {
                                    assert(x != node);
                                }
                            }
                            assert forall|x: u32|
                                #[trigger] visited@.contains(x) implies lvl.contains_key(x) && lvl[x] <= k
                                    && self.reached_within(seq![s0], x, lvl[x] as int) by {
                                if newly && x == node {
                                    assert(self.reached_within(seeds@, (q0[0]).2, q0[0].0 as int));
                                } else {
                                    assert(v0.contains(x));
                                }
                            }
                            assert forall|x: u32, pp: Seq<u32>|
                                #[trigger] visited@.contains(x) && #[trigger] self.is_path_from_to(pp, s0, x)
                                    implies pp.len() >= lvl[x] + 1 by {
                                if !(newly && x == node) {
                                    assert(v0.contains(x));
                                }
                            }
                            assert forall|j: int|
                                0 <= j < queue@.len() implies lvl.contains_key((#[trigger] queue@[j]).1)
                                    && queue@[j].0 == lvl[queue@[j].1] + 1 by {
                                if j < q1.len() {
                                    assert(queue@[j] == q1[j]);
                                    assert(q1[j] == q0[j + 1]);
                                    assert(v0.contains(q0[j + 1].1));
                                } else {
                                    assert(queue@[j].1 == node);
                                }
                            }
                            assert forall|a: int, b: int|
                                0 <= a <= b < queue@.len() implies (#[trigger] queue@[a]).0 <= (#[trigger] queue@[b]).0 by {
                                if b < q1.len() {
                                    assert(queue@[a] == q0[a + 1] && queue@[b] == q0[b + 1]);
                                } else if a < q1.len() {
                                    assert(queue@[a] == q0[a + 1]);
                                    assert(q0[a + 1].0 <= q0[q0.len() - 1].0);
                                    assert(queue@[b].0 == level + 1);
                                }
                            }
                            if queue@.len() > 0 {
                                if q1.len() > 0 {
                                    assert(queue@[0] == q0[1]);
                                    assert(q0[0].0 <= q0[1].0);
                                    if queue@.len() - 1 < q1.len() {
                                        assert(queue@[queue@.len() - 1] == q0[q0.len() - 1]);
                                    }
                                }
                            }
                            assert forall|x: u32, c: u32|
                                #[trigger] visited@.contains(x) && #[trigger] self.has_edge(x, c) && lvl[x] < k
                                    implies children_map@[x as int].members().contains(c) || pending(queue@, x, c) by {
                                if newly && x == node {
                                    assert(self.children_of(node).contains(c));
                                    assert(self.children_map@[node as int] is Members);
                                    assert(lvl[node] == level);
                                    assert(level < kk);
                                    assert(pending(queue@, node, c));
                                } else {
                                    assert(v0.contains(x));
                                    if x == parent && c == node {
                                        assert(cm2[x as int].members().contains(c));
                                        if x != node {
                                            assert(children_map@[x as int] == cm2[x as int]);
                                        }
                                    } else if cm0[x as int].members().contains(c) {
                                        assert(cm2[x as int].members().contains(c));
                                        if newly {
                                            assert(x != node);
                                            assert(children_map@[x as int] == cm2[x as int]);
                                        }
                                    } else {
                                        assert(pending(q0, x, c));
                                        let jj = choose|jj: int| 0 <= jj < q0.len() && q0[jj].1 == x && q0[jj].2 == c;
                                        assert(jj != 0);
                                        assert(queue@[jj - 1] == q0[jj]);
                                    }
                                }
                            }
                            assert forall|x: u32, c: u32|
                                x < self.n() && #[trigger] children_map@[x as int].members().contains(c) implies lvl[x] < k by {
                                if x == parent && c == node {
                                } else if newly && x == node {
                                    assert(children_map@[x as int].members().contains(c) ==> false) by {
                                        if children_map@[x as int].members().contains(c) {
                                            assert(cm2[x as int] == cm0[x as int]);
                                        }
                                    }
                                } else {
                                    if newly {
                                        assert(x != node || children_map@[x as int] == cm2[x as int]);
                                    }
                                    assert(cm0[x as int].members().contains(c));
                                    assert(v0.contains(x));
                                }
                            }
                            assert forall|x: u32|
                                #[trigger] visited@.contains(x) && (lvl[x] == k || self.children_of(x) == Set::<u32>::empty())
                                    implies children_map@[x as int] is Empty by {
                                if newly && x == node {
                                    if self.children_map@[node as int] is Members {
                                        let m = self.children_map@[node as int].members();
                                        if !(exists|c: u32| m.contains(c)) {
                                            assert(m =~= Set::<u32>::empty());
                                        }
                                        let c = choose|c: u32| m.contains(c);
                                        assert(self.children_of(node).contains(c));
                                        assert(level as int == k);
                                    }
                                } else {
                                    assert(v0.contains(x));
                                    if x == parent {
                                        assert(self.children_of(parent).contains(node));
                                    } else if newly {
                                        assert(children_map@[x as int] == cm2[x as int]);
                                    }
                                }
                            }
                            assert forall|x: u32|
                                x < self.n() && #[trigger] children_map@[x as int] is Empty implies lvl[x] == k
                                    || self.children_of(x) == Set::<u32>::empty() by {
                                if newly && x == node {
                                    if !(self.children_of(node) == Set::<u32>::empty()) {
                                        assert(self.children_map@[node as int] is Members);
                                    }
                                } else {
                                    if x != parent {
                                        if newly {
                                            assert(children_map@[x as int] == cm2[x as int]);
                                        }
                                        assert(cm0[x as int] is Empty);
                                        assert(v0.contains(x));
                                    } else {
                                        assert(cm2[x as int] is Members);
                                        if newly {
                                            assert(children_map@[x as int] == cm2[x as int]);
                                        }
                                    }
                                }
                            }
                            assert(self.limited_state(s0, kk, visited@, queue@, children_map@, lvl));
                        }
                    }
                }
            }
            i = i + 1;
        }
        proof {
            assert forall|x: u32| #[trigger] visited_list@.contains(x) implies x < n by {
                assert(visited@.contains(x));
            }
        }
        let nodes = sorted_unique(&visited_list);
        let leaves = sorted_unique(&leaves_list);
        let mut roots: Vec<u32> = Vec::new();
        let mut j: usize = 0;
        while j < nodes.len()
            invariant
                j <= nodes@.len(),
                strictly_sorted(nodes@),
                strictly_sorted(roots@),
                forall|x: u32| #[trigger] nodes@.contains(x) ==> x < n,
                parent_map@.len() == n,
                forall|x: u32|
                    #[trigger] roots@.contains(x) <==> (exists|k: int| 0 <= k < j && nodes@[k] == x)
                        && parent_map@[x as int] is Empty,
                forall|k: int| 0 <= k < roots@.len() ==> exists|q: int| 0 <= q < j && nodes@[q] == #[trigger] roots@[k],
            decreases nodes.len() - j,
        {
            let x = nodes[j];
            proof {
                assert(nodes@.contains(x));
            }
            let ghost r0 = roots@;
            if parent_map.get(x).is_empty() {
                roots.push(x);
                proof {
                    assert forall|a: int, b: int| 0 <= a < b < roots@.len() implies roots@[a] < roots@[b] by {
                        if b == roots@.len() - 1 {
                            let q = choose|q: int| 0 <= q < j && nodes@[q] == #[trigger] r0[a];
                            assert(nodes@[q] < nodes@[j as int]);
                        } else {
                            assert(r0[a] < r0[b]);
                        }
                    }
                }
            }
            proof {
                assert forall|x2: u32|
                    #[trigger] roots@.contains(x2) <==> (exists|k: int| 0 <= k < j + 1 && nodes@[k] == x2)
                        && parent_map@[x2 as int] is Empty by {
                    if roots@.contains(x2) && x2 != x {
                        let q = choose|q: int| 0 <= q < roots@.len() && roots@[q] == x2;
                        assert(r0[q] == x2);
                        assert(r0.contains(x2));
                        let k = choose|k: int| 0 <= k < j && nodes@[k] == x2;
                        assert(0 <= k < j + 1 && nodes@[k] == x2);
                    }
                    if roots@.contains(x2) && x2 == x {
                        assert(0 <= j < j + 1 && nodes@[j as int] == x2);
                        if !(parent_map@[x2 as int] is Empty) {
                            let q = choose|q: int| 0 <= q < roots@.len() && roots@[q] == x2;
                            assert(r0[q] == x2);
                            assert(r0.contains(x2));
                        }
                    }
                    if (exists|k: int| 0 <= k < j + 1 && nodes@[k] == x2) && parent_map@[x2 as int] is Empty {
                        let k = choose|k: int| 0 <= k < j + 1 && nodes@[k] == x2;
                        if k < j {
                            assert(exists|k: int| 0 <= k < j && nodes@[k] == x2);
                            assert(r0.contains(x2));
                            let q = choose|q: int| 0 <= q < r0.len() && r0[q] == x2;
                            assert(roots@[q] == x2);
                        } else {
                            assert(roots@[roots@.len() - 1] == x2);
                        }
                    }
                }
                assert forall|k: int| 0 <= k < roots@.len() implies exists|q: int| 0 <= q < j + 1 && nodes@[q] == #[trigger] roots@[k] by {
                    if k < r0.len() {
                        assert(roots@[k] == r0[k]);
                        let q = choose|q: int| 0 <= q < j && nodes@[q] == #[trigger] r0[k];
                        assert(0 <= q < j + 1 && nodes@[q] == roots@[k]);
                    } else {
                        assert(0 <= j < j + 1 && nodes@[j as int] == roots@[k]);
                    }
                }
            }
            j = j + 1;
        }
        let ghost cmf = children_map@;
        let ghost pmf = parent_map@;
        let ghost vf = visited@;
        let r = DirectedGraph {
            interner: self.share_interner(),
            leaves,
            roots,
            nodes,
            children_map,
            parent_map,
            n_edges,
        };
        proof {
            assert(r.children_map@ == cmf);
            assert(r.parent_map@ == pmf);
            assert forall|x: int| 0 <= x < n implies (#[trigger] cmf[x] is Unknown <==> !vf.contains(x as u32)) by {
                if vf.contains(x as u32) {
                    assert(!(cmf[x] is Unknown) || exists|k: int| 0 <= k < 0 && queue@[k].1 == x as u32);
                }
            }
            assert forall|x: u32| #[trigger] r.is_node(x) <==> vf.contains(x) by {
                if x < n {
                    assert(cmf[x as int] is Unknown <==> !vf.contains(x));
                }
            }
            assert forall|p: u32, c: u32| #[trigger] r.children_of(p).contains(c) implies r.parents_of(c).contains(p) && c < r.n() && self.has_edge(p, c) by {
                assert(p < n);
                assert(cmf[p as int].members().contains(c));
            }
            assert forall|p: u32, c: u32| #[trigger] r.parents_of(c).contains(p) implies r.children_of(p).contains(c) && p < r.n() by {
                assert(c < n);
                assert(pmf[c as int].members().contains(p));
            }
            assert forall|x: int|
                0 <= x < r.n() implies (#[trigger] r.children_map@[x] is Unknown <==> r.parent_map@[x] is Unknown) by {
                assert(cmf[x] is Unknown <==> !vf.contains(x as u32));
                assert(!(pmf[x] is Unknown) <==> vf.contains(x as u32));
            }
            assert forall|x: u32| #[trigger] r.nodes@.contains(x) <==> r.is_node(x) by {
                assert(visited_list@.contains(x) <==> vf.contains(x));
            }
            assert forall|x: u32| #[trigger] r.roots@.contains(x) <==> r.is_root(x) by {
                if r.roots@.contains(x) {
                    let k = choose|k: int| 0 <= k < nodes@.len() && nodes@[k] == x;
                    assert(nodes@.contains(x));
                }
                if r.is_root(x) {
                    assert(!(pmf[x as int] is Unknown));
                    assert(vf.contains(x));
                    assert(nodes@.contains(x));
                    let k = choose|k: int| 0 <= k < nodes@.len() && nodes@[k] == x;
                }
            }
            assert forall|x: u32| #[trigger] r.leaves@.contains(x) <==> r.is_leaf(x) by {
                assert(leaves_list@.contains(x) <==> (x < n && cmf[x as int] is Empty));
            }
            assert(r.wf());
            assert forall|i: int| 0 <= i < seeds@.len() implies r.is_node(#[trigger] seeds@[i]) by {
                assert(vf.contains(seeds@[i]));
            }
            assert forall|x: u32| #[trigger] r.is_root(x) implies seeds@.contains(x) by {
                assert(pmf[x as int] is Empty);
            }
            if unlimited {
                assert forall|a: u32, b: u32| vf.contains(a) && #[trigger] self.dir_edge(true, a, b) implies vf.contains(b) by {
                    assert(self.has_edge(a, b));
                    assert(cmf[a as int].members().contains(b) || pending(queue@, a, b));
                }
                assert forall|x: u32| #[trigger] r.is_node(x) <==> self.reached_from(true, seeds@, x) by {
                    if self.reached_from(true, seeds@, x) {
                        let i = choose|i: int| 0 <= i < seeds@.len() && #[trigger] self.reaches(true, seeds@[i], x);
                        assert(vf.contains(seeds@[i]));
                        self.lemma_closed_holds_reached(true, vf, seeds@[i], x);
                    }
                }
                assert forall|p: u32, c: u32| #[trigger] r.has_edge(p, c) <==> (self.has_edge(p, c) && r.is_node(p)) by {
                    if self.has_edge(p, c) && r.is_node(p) {
                        assert(vf.contains(p));
                        assert(cmf[p as int].members().contains(c) || pending(queue@, p, c));
                    }
                }
                assert forall|x: u32| #[trigger] r.is_leaf(x) implies (self.is_leaf(x) || !self.is_node(x)) by {
                    assert(cmf[x as int] is Empty);
                }
                assert forall|x: u32| #[trigger] r.is_root(x) <==> self.unreached_seed(seeds@, x) by {
                    if r.is_root(x) {
                        assert(seeds@.contains(x));
                        if exists|p: u32| self.reached_from(true, seeds@, p) && #[trigger] self.has_edge(p, x) {
                            let p = choose|p: u32| self.reached_from(true, seeds@, p) && #[trigger] self.has_edge(p, x);
                            assert(r.is_node(p));
                            assert(r.has_edge(p, x));
                            assert(r.parents_of(x).contains(p));
                        }
                    }
                    if self.unreached_seed(seeds@, x) {
                        let i = choose|i: int| 0 <= i < seeds@.len() && seeds@[i] == x;
                        assert(r.is_node(seeds@[i]));
                        assert(x < r.n());
                        if r.parent_map@[x as int] is Members {
                            let m = r.parent_map@[x as int].members();
                            if !(exists|q: u32| m.contains(q)) {
                                assert(m =~= Set::<u32>::empty());
                            }
                            let q = choose|q: u32| m.contains(q);
                            assert(r.parents_of(x).contains(q));
                            assert(r.has_edge(q, x));
                            assert(r.is_node(q));
                            assert(self.reached_from(true, seeds@, q) && self.has_edge(q, x));
                        }
                        assert(!(r.parent_map@[x as int] is Unknown));
                    }
                }
            }
        }
        proof {
            if single {
                let k = kk;
                assert(queue@.len() == 0);
                assert(seeds@ == seq![s0]);
                assert(vf.contains(s0)) by {
                    assert(vf.contains(seeds@[0]));
                }
                assert(forall|c: u32, y: u32| y < self.n() && #[trigger] cmf[y as int].members().contains(c) ==> vf.contains(c));
                assert(forall|j: int| 0 <= j < queue@.len() ==> (#[trigger] queue@[j]).0 >= k + 1);
                // A node reached within `m` edges has depth at most `m`, and conversely.
                assert forall|x: u32, m: int| 0 <= m <= k && #[trigger] self.reached_within(seeds@, x, m) implies vf.contains(x)
                    && lvl[x] <= m by {
                    let (si, pp) = choose|si: int, pp: Seq<u32>|
                        0 <= si < seeds@.len() && #[trigger] self.is_path_from_to(pp, seeds@[si], x) && pp.len() <= m + 1;
                    assert(si == 0);
                    self.lemma_limited_short(s0, k, vf, queue@, cmf, lvl, k + 1, pp, x);
                }
                assert forall|x: u32| #[trigger] r.is_node(x) <==> self.reached_within(seeds@, x, k) by {
                    if r.is_node(x) {
                        assert(vf.contains(x));
                        let (si, pp) = choose|si: int, pp: Seq<u32>|
                            0 <= si < seq![s0].len() && #[trigger] self.is_path_from_to(pp, seq![s0][si], x)
                                && pp.len() <= lvl[x] + 1;
                        assert(self.is_path_from_to(pp, seeds@[si], x) && pp.len() <= k + 1);
                    }
                    if self.reached_within(seeds@, x, k) {
                        assert(vf.contains(x));
                    }
                }
                assert forall|p: u32, c: u32|
                    #[trigger] r.has_edge(p, c) <==> (self.has_edge(p, c) && self.reached_within(seeds@, p, k - 1)) by {
                    if r.has_edge(p, c) {
                        assert(r.children_of(p).contains(c));
                        assert(cmf[p as int].members().contains(c));
                        assert(lvl[p] < k);
                        assert(vf.contains(p));
                        let (si, pp) = choose|si: int, pp: Seq<u32>|
                            0 <= si < seq![s0].len() && #[trigger] self.is_path_from_to(pp, seq![s0][si], p)
                                && pp.len() <= lvl[p] + 1;
                        assert(self.is_path_from_to(pp, seeds@[si], p) && pp.len() <= (k - 1) + 1);
                    }
                    if self.has_edge(p, c) && self.reached_within(seeds@, p, k - 1) {
                        assert(vf.contains(p) && lvl[p] <= k - 1);
                        assert(cmf[p as int].members().contains(c) || pending(queue@, p, c));
                        assert(p < self.n());
                        assert(r.children_of(p).contains(c));
                    }
                }
                assert forall|x: u32|
                    #[trigger] r.is_leaf(x) <==> (r.is_node(x) && (self.children_of(x) == Set::<u32>::empty()
                        || !self.reached_within(seeds@, x, k - 1))) by {
                    if r.is_leaf(x) {
                        assert(cmf[x as int] is Empty);
                        assert(vf.contains(x));
                        if lvl[x] == k && self.reached_within(seeds@, x, k - 1) {
                            assert(lvl[x] <= k - 1);
                        }
                    }
                    if r.is_node(x) && (self.children_of(x) == Set::<u32>::empty()
                        || !self.reached_within(seeds@, x, k - 1)) {
                        assert(vf.contains(x));
                        if !self.reached_within(seeds@, x, k - 1) {
                            if lvl[x] < k {
                                let (si, pp) = choose|si: int, pp: Seq<u32>|
                                    0 <= si < seq![s0].len() && #[trigger] self.is_path_from_to(pp, seq![s0][si], x)
                                        && pp.len() <= lvl[x] + 1;
                                assert(self.is_path_from_to(pp, seeds@[si], x) && pp.len() <= (k - 1) + 1);
                            }
                        }
                        assert(cmf[x as int] is Empty);
                    }
                }
                assert(self.is_exact_limited(seeds@, k, r));
            }
            reveal(DirectedGraph::core_post);
        }
        r
    }
}


impl DirectedGraph {
    /// `g` is the subgraph that `seeds` reach: its nodes are what they reach,
    /// its edges all edges out of those nodes, its roots the seeds that no
    /// other node reached is a parent of, and its leaves leaves of this graph.
    /// A seed whose label is in the table but that is no node of this graph
    /// (as in a subset of a subset) becomes an isolated node of `g`: a root
    /// and a leaf of `g`, though no leaf here.
    pub open(crate) spec fn is_subset_from(&self, seeds: Seq<u32>, g: DirectedGraph) -> bool {
        &&& g.wf()
        &&& g.labels() == self.labels()
        &&& forall|x: u32| #[trigger] g.is_node(x) <==> self.reached_from(true, seeds, x)
        &&& forall|p: u32, c: u32| #[trigger] g.has_edge(p, c) <==> (self.has_edge(p, c) && g.is_node(p))
        &&& forall|x: u32| #[trigger] g.is_root(x) <==> self.unreached_seed(seeds, x)
        &&& forall|x: u32| #[trigger] g.is_leaf(x) ==> (self.is_leaf(x) || !self.is_node(x))
    }

    /// `x` is one of `seeds`, and no node that the seeds reach is a parent
    /// of it: no seed reaches it by a path of one or more edges.
    pub open(crate) spec fn unreached_seed(&self, seeds: Seq<u32>, x: u32) -> bool {
        &&& seeds.contains(x)
        &&& !exists|p: u32| self.reached_from(true, seeds, p) && #[trigger] self.has_edge(p, x)
    }

    /// `g` is a subgraph found from `seeds` with the depth limit `limit`:
    /// a seed reaches each of its nodes in at most `limit` edges, each of its
    /// edges is an edge here, and its roots are seeds.
    pub open(crate) spec fn is_limited_subset_from(
        &self,
        seeds: Seq<u32>,
        limit: int,
        g: DirectedGraph,
    ) -> bool {
        &&& g.wf()
        &&& g.labels() == self.labels()
        &&& forall|x: u32| #[trigger] g.is_node(x) ==> self.reached_within(seeds, x, limit)
        &&& forall|p: u32, c: u32| #[trigger] g.has_edge(p, c) ==> self.has_edge(p, c)
        &&& forall|x: u32| #[trigger] g.is_root(x) ==> seeds.contains(x)
        &&& forall|i: int| 0 <= i < seeds.len() ==> g.is_node(#[trigger] seeds[i])
    }

    /// `g` has the same symbols, slots, node lists and edge count as this graph.
    pub open(crate) spec fn same_graph(&self, g: DirectedGraph) -> bool {
        &&& g.labels() == self.labels()
        &&& g.interner.wf() == self.interner.wf()
        &&& g.children_map@ == self.children_map@
        &&& g.parent_map@ == self.parent_map@
        &&& g.nodes@ == self.nodes@
        &&& g.roots@ == self.roots@
        &&& g.leaves@ == self.leaves@
        &&& g.n_edges == self.n_edges
    }

    /// The unlimited search yields the subset that the seeds reach.
    pub(crate) proof fn lemma_core_unlimited(&self, seeds: Seq<u32>, r: DirectedGraph)
        requires
            self.core_post(seeds, None, r),
        ensures
            self.is_subset_from(seeds, r),
            forall|i: int| 0 <= i < seeds.len() ==> r.is_node(#[trigger] seeds[i]),
    {
        reveal(DirectedGraph::core_post);
    }

    /// The limited search yields a subset within the limit.
    proof fn lemma_core_limited(&self, seeds: Seq<u32>, k: usize, r: DirectedGraph)
        requires
            self.core_post(seeds, Some(k), r),
        ensures
            self.is_limited_subset_from(seeds, k as int, r),
            seeds.len() == 1 ==> self.is_exact_limited(seeds, k as int, r),
    {
        reveal(DirectedGraph::core_post);
    }

    /// A copy of the graph; the label table is shared.
    pub fn duplicate(&self) -> (r: DirectedGraph)
        ensures
            self.same_graph(r),
            self.wf() ==> r.wf(),
    {
        let r = DirectedGraph {
            interner: self.share_interner(),
            leaves: self.leaves.clone(),
            roots: self.roots.clone(),
            nodes: self.nodes.clone(),
            children_map: self.children_map.duplicate(),
            parent_map: self.parent_map.duplicate(),
            n_edges: self.n_edges,
        };
        proof {
            assert(r.leaves@ =~= self.leaves@);
            assert(r.roots@ =~= self.roots@);
            assert(r.nodes@ =~= self.nodes@);
            if self.wf() {
                assert forall|x: u32| #[trigger] r.nodes@.contains(x) <==> r.is_node(x) by {
                    assert(self.nodes@.contains(x) <==> self.is_node(x));
                }
                assert forall|x: u32| #[trigger] r.roots@.contains(x) <==> r.is_root(x) by {
                    assert(self.roots@.contains(x) <==> self.is_root(x));
                }
                assert forall|x: u32| #[trigger] r.leaves@.contains(x) <==> r.is_leaf(x) by {
                    assert(self.leaves@.contains(x) <==> self.is_leaf(x));
                }
                assert forall|p: u32, c: u32| #[trigger] r.children_of(p).contains(c) implies r.parents_of(c).contains(p) && c < r.n() by {
                    assert(self.children_of(p).contains(c));
                }
                assert forall|p: u32, c: u32| #[trigger] r.parents_of(c).contains(p) implies r.children_of(p).contains(c) && p < r.n() by {
                    assert(self.parents_of(c).contains(p));
                }
            }
        }
        r
    }

    /// The subgraph of all that `node` reaches.
    pub fn subset(&self, node: &str) -> (r: Result<DirectedGraph, GraphInteractionError>)
        requires
            self.wf(),
        ensures
            r is Ok <==> self.knows(node@),
            r matches Err(e) ==> e.is_node_not_exist(node@),
            r matches Ok(g) ==> self.is_subset_from(seq![self.sym_of(node@)], g),
    {
        let s = self.get_internal(node)?;
        let seeds = vec![s];
        let g = self.subset_core(seeds.as_slice(), None);
        proof {
            self.lemma_core_unlimited(seeds@, g);
            assert(seeds@ =~= seq![self.sym_of(node@)]);
        }
        Ok(g)
    }

    /// The subgraph that `node` reaches in at most `limit` edges; nodes at
    /// that depth become leaves. A limit of zero is refused.
    pub fn subset_with_limit(&self, node: &str, limit: usize) -> (r: Result<
        DirectedGraph,
        GraphInteractionError,
    >)
        requires
            self.wf(),
        ensures
            r is Ok <==> (limit > 0 && self.knows(node@)),
            r matches Err(e) ==> (limit == 0 && e is ZeroSubsetLimit) || (limit > 0 && e.is_node_not_exist(node@)),
            r matches Ok(g) ==> self.is_limited_subset_from(seq![self.sym_of(node@)], limit as int, g),
            r matches Ok(g) ==> self.is_exact_limited(seq![self.sym_of(node@)], limit as int, g),
    {
        if limit == 0 {
            return Err(GraphInteractionError::ZeroSubsetLimit);
        }
        let s = self.get_internal(node)?;
        let seeds = vec![s];
        let g = self.subset_core(seeds.as_slice(), Some(limit));
        proof {
            self.lemma_core_limited(seeds@, limit, g);
            assert(seeds@ =~= seq![self.sym_of(node@)]);
        }
        Ok(g)
    }

    /// The subgraph that `nodes` reach; its roots are those of `nodes` that
    /// no other of them reaches. With no nodes, a copy of the whole graph.
    pub fn subset_multi(&self, nodes: &[&str]) -> (r: Result<DirectedGraph, GraphInteractionError>)
        requires
            self.wf(),
        ensures
            r is Ok <==> self.all_known(label_list(nodes@)),
            r matches Err(e) ==> self.first_unknown_error(label_list(nodes@), e),
            r matches Ok(g) ==> nodes@.len() == 0 ==> self.same_graph(g) && g.wf(),
            r matches Ok(g) ==> nodes@.len() > 0 ==> self.is_subset_from(
                self.syms_of(label_list(nodes@)),
                g,
            ),
    {
        let ids = self.get_internal_mul(nodes)?;
        if ids.len() == 0 {
            return Ok(self.duplicate());
        }
        let g = self.subset_core(ids.as_slice(), None);
        proof {
            self.lemma_core_unlimited(ids@, g);
        }
        Ok(g)
    }

    /// As `subset_multi`, searching at most `limit` edges deep from each of
    /// `nodes`. A limit of zero is refused.
    pub fn subset_multi_with_limit(&self, nodes: &[&str], limit: usize) -> (r: Result<
        DirectedGraph,
        GraphInteractionError,
    >)
        requires
            self.wf(),
        ensures
            r is Ok <==> (limit > 0 && self.all_known(label_list(nodes@))),
            r matches Err(e) ==> (limit == 0 && e is ZeroSubsetLimit) || (limit > 0
                && self.first_unknown_error(label_list(nodes@), e)),
            r matches Ok(g) ==> nodes@.len() == 0 ==> self.same_graph(g) && g.wf(),
            r matches Ok(g) ==> nodes@.len() > 0 ==> self.is_limited_subset_from(
                self.syms_of(label_list(nodes@)),
                limit as int,
                g,
            ),
            r matches Ok(g) ==> nodes@.len() == 1 ==> self.is_exact_limited(
                self.syms_of(label_list(nodes@)),
                limit as int,
                g,
            ),
    {
        if limit == 0 {
            return Err(GraphInteractionError::ZeroSubsetLimit);
        }
        let ids = self.get_internal_mul(nodes)?;
        if ids.len() == 0 {
            return Ok(self.duplicate());
        }
        let g = self.subset_core(ids.as_slice(), Some(limit));
        proof {
            self.lemma_core_limited(ids@, limit, g);
        }
        Ok(g)
    }
}

impl Clone for DirectedGraph {
    /// A copy of the graph; the label table is shared.
    fn clone(&self) -> (r: DirectedGraph)
        ensures
            self.same_graph(r),
            self.wf() ==> r.wf(),
    {
        self.duplicate()
    }
}

} // verus!
