//! Topological sort by Kahn's algorithm, starting from the leaves.
use crate::error::GraphHasCycle;
use crate::graph::DirectedGraph;
use crate::node_map::{lemma_total_zero, total, NodeMap};
use crate::sym::Sym;
use crate::sym_set::lemma_bounded_set;
use vstd::prelude::*;

verus! {

/// One more element of a prefix: the prefix holds what it held, and that element.
proof fn lemma_prefix_step(ps: Seq<u32>, k: int, x: u32)
    requires
        0 <= k < ps.len(),
    ensures
        ps.subrange(0, k + 1).contains(x) <==> (ps.subrange(0, k).contains(x) || x == ps[k]),
{
    let s0 = ps.subrange(0, k);
    let s1 = ps.subrange(0, k + 1);
    if s1.contains(x) {
        let q = choose|q: int| 0 <= q < s1.len() && s1[q] == x;
        if q < k {
            assert(s0[q] == x);
        }
    }
    if s0.contains(x) {
        let q = choose|q: int| 0 <= q < s0.len() && s0[q] == x;
        assert(s1[q] == x);
    }
    if x == ps[k] {
        assert(s1[k] == x);
    }
}

impl DirectedGraph {
    /// `order` lists every node once, each after all of its children: the
    /// leaves-first order that Kahn's algorithm yields.
    pub open(crate) spec fn is_topological_order(&self, order: Seq<u32>) -> bool {
        &&& order.no_duplicates()
        &&& forall|x: u32| #[trigger] order.contains(x) <==> self.is_node(x)
        &&& forall|i: int, j: int|
            0 <= i <= j < order.len() ==> !#[trigger] self.has_edge(order[i], order[j])
    }

    /// Kahn's algorithm from the leaves, on working copies of the adjacency:
    /// a node is taken once all of its children were. Fails where edges are
    /// left over, that is where the graph has a cycle.
    pub(crate) fn topological_order(&self) -> (r: Result<Vec<u32>, GraphHasCycle>)
        requires
            self.wf(),
        ensures
            r matches Ok(order) ==> self.is_topological_order(order@),
            r is Err ==> !self.is_acyclic(),
    {
        let n = self.children_map.len();
        let ghost nn = n as u32;
        let mut wcm = self.children_map.duplicate();
        let mut wpm = self.parent_map.duplicate();
        let mut n_edges = self.n_edges;
        let mut res: Vec<u32> = Vec::new();
        let mut no_deps = self.leaves.clone();
        proof {
            assert(res@ =~= Seq::<u32>::empty());
            assert forall|x: u32, y: u32|
                x < n implies (#[trigger] wcm@[x as int].members().contains(y) <==> self.has_edge(x, y)
                    && !res@.contains(y)) by {}
            assert forall|x: u32, y: u32|
                y < n implies (#[trigger] wpm@[y as int].members().contains(x) <==> self.has_edge(x, y)
                    && !res@.contains(y)) by {
                assert(self.parents_of(y).contains(x) <==> self.children_of(x).contains(y));
            }
            assert(no_deps@ =~= self.leaves@);
            assert forall|a: int, b: int| 0 <= a < no_deps@.len() && 0 <= b < no_deps@.len() && a != b implies no_deps@[a] != no_deps@[b] by {
                if a < b {
                    assert(no_deps@[a] < no_deps@[b]);
                } else {
                    assert(no_deps@[b] < no_deps@[a]);
                }
            }
            assert forall|k: int| 0 <= k < no_deps@.len() implies self.is_node(#[trigger] no_deps@[k]) && forall|y: u32|
                self.has_edge(no_deps@[k], y) ==> res@.contains(y) by {
                assert(self.leaves@.contains(no_deps@[k]));
            }
            assert forall|x: u32| self.is_node(x) && (forall|y: u32| self.has_edge(x, y) ==> res@.contains(y)) implies res@.contains(x)
                || #[trigger] no_deps@.contains(x) by {
                if !(self.children_map@[x as int] is Empty) {
                    assert(self.children_map@[x as int] is Members);
                    let m = self.children_map@[x as int].members();
                    if !(exists|c: u32| m.contains(c)) {
                        assert(m =~= Set::<u32>::empty());
                    }
                    let c = choose|c: u32| m.contains(c);
                    assert(self.has_edge(x, c));
                }
                assert(self.leaves@.contains(x));
            }
        }
        while no_deps.len() > 0
            invariant
                self.wf(),
                n == self.n(),
                nn == n,
                n < 0xFFFF_FFFFusize,
                wcm@.len() == n,
                wpm@.len() == n,
                wcm.finite(),
                wpm.finite(),
                forall|x: u32, y: u32|
                    x < n ==> (#[trigger] wcm@[x as int].members().contains(y) <==> self.has_edge(x, y)
                        && !res@.contains(y)),
                forall|x: u32, y: u32|
                    y < n ==> (#[trigger] wpm@[y as int].members().contains(x) <==> self.has_edge(x, y)
                        && !res@.contains(y)),
                n_edges == total(wpm@),
                res@.no_duplicates(),
                forall|i: int| 0 <= i < res@.len() ==> self.is_node(#[trigger] res@[i]),
                forall|i: int, y: u32|
                    0 <= i < res@.len() && #[trigger] self.has_edge(res@[i], y) ==> exists|j: int|
                        0 <= j < i && res@[j] == y,
                no_deps@.no_duplicates(),
                forall|k: int| 0 <= k < no_deps@.len() ==> self.is_node(#[trigger] no_deps@[k]),
                forall|k: int| 0 <= k < no_deps@.len() ==> !res@.contains(#[trigger] no_deps@[k]),
                forall|k: int, y: u32|
                    0 <= k < no_deps@.len() && #[trigger] self.has_edge(no_deps@[k], y) ==> res@.contains(y),
                forall|x: u32|
                    self.is_node(x) && (forall|y: u32| self.has_edge(x, y) ==> res@.contains(y)) ==> res@.contains(x)
                        || #[trigger] no_deps@.contains(x),
            decreases n - res@.len(),
        {
            let ghost res0 = res@;
            let ghost nd0 = no_deps@;
            let node = no_deps.pop().unwrap();
            proof {
                assert(nd0[nd0.len() - 1] == node);
                assert(self.is_node(node));
                assert(!res0.contains(node));
                assert(forall|y: u32| self.has_edge(node, y) ==> res0.contains(y)) by {
                    assert forall|y: u32| self.has_edge(node, y) implies res0.contains(y) by {
                        assert(self.has_edge(nd0[nd0.len() - 1], y));
                    }
                }
            }
            res.push(node);
            proof {
                assert forall|i: int, y: u32|
                    0 <= i < res@.len() && #[trigger] self.has_edge(res@[i], y) implies exists|j: int|
                        0 <= j < i && res@[j] == y by {
                    if i < res0.len() {
                        assert(res0[i] == res@[i]);
                        let j = choose|j: int| 0 <= j < i && res0[j] == y;
                        assert(res@[j] == y);
                    } else {
                        assert(self.has_edge(nd0[nd0.len() - 1], y));
                        assert(res0.contains(y));
                        let j = choose|j: int| 0 <= j < res0.len() && res0[j] == y;
                        assert(res@[j] == y);
                    }
                }
                assert(res@.no_duplicates()) by {
                    assert forall|a: int, b: int| 0 <= a < res@.len() && 0 <= b < res@.len() && a != b implies res@[a] != res@[b] by {
                        if a == res0.len() as int {
                            assert(res@[b] == res0[b]);
                            assert(res0.contains(res0[b]));
                        } else if b == res0.len() as int {
                            assert(res@[a] == res0[a]);
                            assert(res0.contains(res0[a]));
                        } else {
                            assert(res@[a] == res0[a] && res@[b] == res0[b]);
                        }
                    }
                }
                assert forall|x: u32| res@.contains(x) implies x < n by {
                    let i = choose|i: int| 0 <= i < res@.len() && res@[i] == x;
                    assert(self.is_node(res@[i]));
                }
                res@.unique_seq_to_set();
                lemma_bounded_set(res@.to_set(), nn);
            }
            let parents = wpm.members_vec(node);
            let ghost ps = parents@;
            let ghost nd1 = no_deps@;
            proof {
                assert(nd1 =~= nd0.subrange(0, nd0.len() - 1));
                assert forall|y: u32| #[trigger] res@.contains(y) <==> res0.contains(y) || y == node by {
                    if res@.contains(y) {
                        let i = choose|i: int| 0 <= i < res@.len() && res@[i] == y;
                        if i < res0.len() {
                            assert(res0[i] == y);
                        }
                    }
                    if res0.contains(y) {
                        let i = choose|i: int| 0 <= i < res0.len() && res0[i] == y;
                        assert(res@[i] == y);
                    }
                    if y == node {
                        assert(res@[res0.len() as int] == y);
                    }
                }
                assert forall|i: int| 0 <= i < nd1.len() implies !res@.contains(#[trigger] nd1[i]) by {
                    assert(nd1[i] == nd0[i]);
                    assert(!res0.contains(nd0[i]));
                    assert(nd0[i] != nd0[nd0.len() - 1]);
                }
                assert forall|i: int, y: u32|
                    0 <= i < nd1.len() && #[trigger] self.has_edge(nd1[i], y) implies res0.contains(y) by {
                    assert(nd1[i] == nd0[i]);
                    assert(self.has_edge(nd0[i], y));
                }
                assert forall|i: int| 0 <= i < nd1.len() implies self.is_node(#[trigger] nd1[i]) by {
                    assert(nd1[i] == nd0[i]);
                }
                assert forall|x: u32| #[trigger] ps.contains(x) <==> self.has_edge(x, node) by {
                    assert(ps.to_set().contains(x) <==> ps.contains(x));
                }
            }
            let mut k: usize = 0;
            while k < parents.len()
                invariant
                    self.wf(),
                    n == self.n(),
                    node < n,
                    !res0.contains(node),
                    res@ == res0.push(node),
                    ps == parents@,
                    ps.no_duplicates(),
                    forall|x: u32| #[trigger] ps.contains(x) <==> self.has_edge(x, node),
                    k <= ps.len(),
                    wcm@.len() == n,
                    wpm@.len() == n,
                    wcm.finite(),
                    wpm.finite(),
                    forall|x: u32, y: u32|
                        x < n ==> (#[trigger] wcm@[x as int].members().contains(y) <==> self.has_edge(x, y)
                            && !res0.contains(y) && !(y == node && ps.subrange(0, k as int).contains(x))),
                    forall|x: u32, y: u32|
                        y < n ==> (#[trigger] wpm@[y as int].members().contains(x) <==> self.has_edge(x, y)
                            && !res0.contains(y) && !(y == node && ps.subrange(0, k as int).contains(x))),
                    n_edges == total(wpm@),
                    forall|i: int, y: u32|
                        0 <= i < res@.len() && #[trigger] self.has_edge(res@[i], y) ==> exists|j: int|
                            0 <= j < i && res@[j] == y,
                    forall|y: u32| #[trigger] res@.contains(y) <==> res0.contains(y) || y == node,
                    forall|y: u32| self.has_edge(node, y) ==> res0.contains(y),
                    forall|i: int, y: u32|
                        0 <= i < nd1.len() && #[trigger] self.has_edge(nd1[i], y) ==> res0.contains(y),
                    no_deps@.len() >= nd1.len(),
                    forall|i: int| 0 <= i < nd1.len() ==> #[trigger] no_deps@[i] == nd1[i],
                    forall|i: int| nd1.len() <= i < no_deps@.len() ==> ps.subrange(0, k as int).contains(#[trigger] no_deps@[i]),
                    no_deps@.no_duplicates(),
                    forall|i: int| 0 <= i < no_deps@.len() ==> self.is_node(#[trigger] no_deps@[i]),
                    forall|i: int| 0 <= i < no_deps@.len() ==> !res@.contains(#[trigger] no_deps@[i]),
                    forall|i: int, y: u32|
                        0 <= i < no_deps@.len() && #[trigger] self.has_edge(no_deps@[i], y) ==> res@.contains(y),
                    forall|j: int|
                        0 <= j < k ==> (forall|y: u32| self.has_edge(ps[j], y) ==> res@.contains(y)) ==> #[trigger] no_deps@.contains(ps[j]),
                decreases ps.len() - k,
            {
                let p = parents[k];
                proof {
                    assert(ps.contains(p));
                    assert(self.has_edge(p, node));
                    assert(self.parents_of(node).contains(p));
                }
                let ghost wc0 = wcm@;
                let ghost wp0 = wpm@;
                wcm.remove(p, node);
                let removed = wpm.remove(node, p);
                proof {
                    crate::node_map::lemma_total_nonneg(wpm@);
                }
                if removed {
                    n_edges = n_edges - 1;
                }
                proof {
                    assert(ps.subrange(0, k + 1) =~= ps.subrange(0, k as int).push(p));
                    assert(!ps.subrange(0, k as int).contains(p)) by {
                        if ps.subrange(0, k as int).contains(p) {
                            let q = choose|q: int| 0 <= q < k && ps.subrange(0, k as int)[q] == p;
                            assert(ps[q] == ps[k as int]);
                        }
                    }
                }
                let ghost nd2 = no_deps@;
                if !wcm.has_members(p) {
                    proof {
                        assert(wcm@[p as int].members() == Set::<u32>::empty());
                        assert forall|y: u32| self.has_edge(p, y) implies res@.contains(y) by {
                            if !res0.contains(y) && y != node {
                                assert(wc0[p as int].members().contains(y));
                                assert(wcm@[p as int].members().contains(y));
                            }
                        }
                        assert(!res@.contains(p)) by {
                            if res0.contains(p) {
                                let i = choose|i: int| 0 <= i < res0.len() && res0[i] == p;
                                assert(res@[i] == p);
                                assert(self.has_edge(res@[i], node));
                                let j = choose|j: int| 0 <= j < i && res@[j] == node;
                                assert(res0[j] == node);
                                assert(res0.contains(node));
                            }
                            if p == node {
                                assert(res0.contains(node));
                            }
                        }
                        assert(!nd2.contains(p)) by {
                            if nd2.contains(p) {
                                let i = choose|i: int| 0 <= i < nd2.len() && nd2[i] == p;
                                if i < nd1.len() {
                                    assert(nd2[i] == nd1[i]);
                                    assert(self.has_edge(nd1[i], node));
                                    assert(res0.contains(node));
                                } else {
                                    assert(ps.subrange(0, k as int).contains(nd2[i]));
                                }
                            }
                        }
                    }
                    no_deps.push(p);
                    proof {
                        assert(no_deps@.no_duplicates()) by {
                            assert forall|a: int, b: int| 0 <= a < no_deps@.len() && 0 <= b < no_deps@.len() && a != b implies no_deps@[a] != no_deps@[b] by {
                                if a == nd2.len() as int {
                                    assert(nd2[b] == no_deps@[b]);
                                } else if b == nd2.len() as int {
                                    assert(nd2[a] == no_deps@[a]);
                                } else {
                                    assert(nd2[a] == no_deps@[a] && nd2[b] == no_deps@[b]);
                                }
                            }
                        }
                    }
                }
                proof {
                    assert forall|x: u32, y: u32|
                        x < n implies (#[trigger] wcm@[x as int].members().contains(y) <==> self.has_edge(x, y)
                            && !res0.contains(y) && !(y == node && ps.subrange(0, k + 1).contains(x))) by {
                        lemma_prefix_step(ps, k as int, x);
                        if x != p {
                            assert(wcm@[x as int] == wc0[x as int]);
                        }
                    }
                    assert forall|x: u32, y: u32|
                        y < n implies (#[trigger] wpm@[y as int].members().contains(x) <==> self.has_edge(x, y)
                            && !res0.contains(y) && !(y == node && ps.subrange(0, k + 1).contains(x))) by {
                        lemma_prefix_step(ps, k as int, x);
                        if y != node {
                            assert(wpm@[y as int] == wp0[y as int]);
                        }
                    }
                    assert forall|i: int| nd1.len() <= i < no_deps@.len() implies ps.subrange(0, k + 1).contains(#[trigger] no_deps@[i]) by {
                        if i < nd2.len() {
                            assert(no_deps@[i] == nd2[i]);
                            assert(ps.subrange(0, k as int).contains(nd2[i]));
                            let q = choose|q: int| 0 <= q < k && ps.subrange(0, k as int)[q] == nd2[i];
                            assert(ps.subrange(0, k + 1)[q] == nd2[i]);
                        } else {
                            assert(ps.subrange(0, k + 1)[k as int] == p);
                        }
                    }
                    assert forall|j: int|
                        0 <= j < k + 1 implies (forall|y: u32| self.has_edge(ps[j], y) ==> res@.contains(y)) ==> #[trigger] no_deps@.contains(ps[j]) by {
                        if j < k {
                            if forall|y: u32| self.has_edge(ps[j], y) ==> res@.contains(y) {
                                assert(nd2.contains(ps[j]));
                                let q = choose|q: int| 0 <= q < nd2.len() && nd2[q] == ps[j];
                                assert(no_deps@[q] == ps[j]);
                            }
                        } else if forall|y: u32| self.has_edge(ps[j], y) ==> res@.contains(y) {
                            if wcm@[p as int].members() != Set::<u32>::empty() {
                                let m = wcm@[p as int].members();
                                if !(exists|c: u32| m.contains(c)) {
                                    assert(m =~= Set::<u32>::empty());
                                }
                                let c = choose|c: u32| m.contains(c);
                                assert(self.has_edge(p, c));
                                assert(res@.contains(c));
                                if c != node {
                                    let i = choose|i: int| 0 <= i < res@.len() && res@[i] == c;
                                    assert(res0[i] == c);
                                }
                            }
                            assert(no_deps@[no_deps@.len() - 1] == p);
                        }
                    }
                }
                k = k + 1;
            }
            proof {
                assert(ps.subrange(0, ps.len() as int) =~= ps);
                assert forall|x: u32, y: u32|
                    x < n implies (#[trigger] wcm@[x as int].members().contains(y) <==> self.has_edge(x, y)
                        && !res@.contains(y)) by {
                    if y == node && self.has_edge(x, y) {
                        assert(ps.contains(x));
                    }
                }
                assert forall|x: u32, y: u32|
                    y < n implies (#[trigger] wpm@[y as int].members().contains(x) <==> self.has_edge(x, y)
                        && !res@.contains(y)) by {
                    if y == node && self.has_edge(x, y) {
                        assert(ps.contains(x));
                    }
                }
                assert forall|x: u32|
                    self.is_node(x) && (forall|y: u32| self.has_edge(x, y) ==> res@.contains(y)) implies res@.contains(x)
                        || #[trigger] no_deps@.contains(x) by {
                    if !res@.contains(x) {
                        if forall|y: u32| self.has_edge(x, y) ==> res0.contains(y) {
                            assert(nd0.contains(x));
                            let q = choose|q: int| 0 <= q < nd0.len() && nd0[q] == x;
                            if q < nd0.len() - 1 {
                                assert(nd1[q] == x);
                                assert(no_deps@[q] == x);
                            }
                        } else {
                            let y = choose|y: u32| self.has_edge(x, y) && !res0.contains(y);
                            assert(res@.contains(y));
                            assert(y == node) by {
                                let i = choose|i: int| 0 <= i < res@.len() && res@[i] == y;
                                if i < res0.len() {
                                    assert(res0[i] == y);
                                }
                            }
                            assert(ps.contains(x));
                            let j = choose|j: int| 0 <= j < ps.len() && ps[j] == x;
                        }
                    }
                }
            }
        }
        if n_edges != 0 {
            proof {
                if forall|i: int| 0 <= i < wpm@.len() ==> #[trigger] wpm@[i].members() == Set::<u32>::empty() {
                    crate::node_map::lemma_total_of_empty(wpm@);
                }
                let y = choose|y: int| 0 <= y < wpm@.len() && #[trigger] wpm@[y].members() != Set::<u32>::empty();
                let m = wpm@[y].members();
                if !(exists|x: u32| m.contains(x)) {
                    assert(m =~= Set::<u32>::empty());
                }
                let x = choose|x: u32| m.contains(x);
                assert(self.has_edge(x, y as u32));
                assert(self.parents_of(y as u32).contains(x));
                assert(!(self.parent_map@[y] is Unknown));
                assert(self.is_node(y as u32));
                assert forall|z: u32| self.is_node(z) && !res@.contains(z) implies exists|c: u32|
                    #[trigger] self.has_edge(z, c) && self.is_node(c) && !res@.contains(c) by {
                    assert(!no_deps@.contains(z));
                    let c = choose|c: u32| self.has_edge(z, c) && !res@.contains(c);
                    assert(self.parents_of(c).contains(z));
                    assert(c < n);
                    assert(!(self.parent_map@[c as int] is Unknown));
                }
                self.lemma_outside_has_cycle(res@, y as u32);
            }
            return Err(GraphHasCycle);
        }
        proof {
            lemma_total_zero(wpm@);
            assert forall|x: u32| #[trigger] res@.contains(x) <==> self.is_node(x) by {
                if res@.contains(x) {
                    let i = choose|i: int| 0 <= i < res@.len() && res@[i] == x;
                    assert(self.is_node(res@[i]));
                }
                if self.is_node(x) {
                    assert(!no_deps@.contains(x));
                    assert forall|y: u32| self.has_edge(x, y) implies res@.contains(y) by {
                        assert(y < n);
                        assert(!wpm@[y as int].members().contains(x));
                    }
                }
            }
            assert forall|i: int, j: int| 0 <= i <= j < res@.len() implies !#[trigger] self.has_edge(res@[i], res@[j]) by {
                if self.has_edge(res@[i], res@[j]) {
                    let q = choose|q: int| 0 <= q < i && res@[q] == res@[j];
                }
            }
        }
        Ok(res)
    }
}

/// A topological order of the graph, leaves first: each node comes after
/// all of its children. Fails on a graph with a cycle.
pub fn topological_sort(dg: &DirectedGraph) -> (r: Result<Vec<Sym>, GraphHasCycle>)
    requires
        dg.wf(),
    ensures
        r is Ok <==> dg.is_acyclic(),
        r matches Ok(order) ==> exists|syms: Seq<u32>|
            dg.is_topological_order(syms) && syms.len() == order@.len() && forall|i: int|
                0 <= i < syms.len() ==> #[trigger] order@[i].value() == syms[i],
{
    let order = dg.topological_order()?;
    proof {
        dg.lemma_ordered_is_acyclic(order@);
    }
    let mut out: Vec<Sym> = Vec::new();
    let mut i: usize = 0;
    while i < order.len()
        invariant
            i <= order@.len(),
            out@.len() == i,
            forall|j: int| 0 <= j < i ==> #[trigger] out@[j].value() == order@[j],
        decreases order.len() - i,
    {
        out.push(Sym::new(order[i]));
        i = i + 1;
    }
    Ok(out)
}

} // verus!
