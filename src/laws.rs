//! Properties that hold of every graph this library builds, stated over the
//! same model as the contracts of the operations and proved from them.
use crate::dag::{position_of, DirectedAcyclicGraph};
use crate::builder::DirectedGraphBuilder;
use crate::graph::DirectedGraph;
use crate::interner::label_seq;
use crate::node_map::total;
use vstd::prelude::*;

verus! {

impl DirectedAcyclicGraph {
    /// The topological order kept with the graph, leaves first.
    pub open(crate) spec fn order(&self) -> Seq<u32> {
        self.topological_sort@
    }
}

/// The edges whose source is below `k`.
pub open spec fn edges_below(g: DirectedGraph, k: int) -> Set<(u32, u32)> {
    Set::new(|e: (u32, u32)| e.0 < k && g.has_edge(e.0, e.1))
}

/// The edges below `k` are as many as the children of the symbols below `k`.
proof fn lemma_edges_below(g: DirectedGraph, k: int)
    requires
        g.wf(),
        0 <= k <= g.n(),
    ensures
        edges_below(g, k).finite(),
        edges_below(g, k).len() == total(g.children_slots().subrange(0, k)),
    decreases k,
{
    let s = g.children_slots();
    if k == 0 {
        assert(edges_below(g, 0) =~= Set::<(u32, u32)>::empty());
        assert(s.subrange(0, 0) =~= Seq::<crate::node_map::Slot>::empty());
    } else {
        let j = k - 1;
        lemma_edges_below(g, j);
        let p = j as u32;
        let kids = g.children_of(p);
        assert(kids == s[j].members());
        assert(s[j].finite());
        let f = |c: u32| (p, c);
        let row = kids.map(f);
        assert(vstd::relations::injective_on(f, kids)) by {
            assert forall|a: u32, b: u32| kids.contains(a) && kids.contains(b) && #[trigger] f(a) == #[trigger] f(b) implies a == b by {}
        }
        vstd::set_lib::lemma_map_size(kids, row, f);
        assert(edges_below(g, k) =~= edges_below(g, j) + row) by {
            assert forall|e: (u32, u32)| edges_below(g, k).contains(e) implies (edges_below(g, j) + row).contains(e) by {
                if e.0 as int == j {
                    assert(kids.contains(e.1));
                    assert(f(e.1) == e);
                }
            }
            assert forall|e: (u32, u32)| (edges_below(g, j) + row).contains(e) implies edges_below(g, k).contains(e) by {
                if row.contains(e) {
                    let c = choose|c: u32| kids.contains(c) && f(c) == e;
                }
            }
        }
        assert(edges_below(g, j).disjoint(row)) by {
            assert forall|e: (u32, u32)| edges_below(g, j).contains(e) implies !row.contains(e) by {
                if row.contains(e) {
                    let c = choose|c: u32| kids.contains(c) && f(c) == e;
                }
            }
        }
        vstd::set_lib::lemma_set_disjoint_lens(edges_below(g, j), row);
        assert(s.subrange(0, k).drop_last() =~= s.subrange(0, j));
        assert(s.subrange(0, k).last() == s[j]);
    }
}

/// The edge count kept with a graph is the number of its edges, the number
/// of children summed over all nodes, and the number of parents summed over
/// all nodes.
pub proof fn law_edge_count(g: &DirectedGraph)
    requires
        g.wf(),
    ensures
        g.edges().finite(),
        g.edges().len() == g.edge_count(),
        g.edge_count() == total(g.children_slots()),
        g.edge_count() == total(g.parent_slots()),
{
    lemma_edges_below(*g, g.n() as int);
    assert(g.children_slots().subrange(0, g.n() as int) =~= g.children_slots());
    assert(edges_below(*g, g.n() as int) =~= g.edges());
}

/// `c` is a child of `p` exactly when `p` is a parent of `c`.
pub proof fn law_adjacency_duality(g: &DirectedGraph, p: u32, c: u32)
    requires
        g.wf(),
    ensures
        g.children_of(p).contains(c) <==> g.parents_of(c).contains(p),
{
}

/// A node is listed as a root exactly when its parent slot is empty, and
/// as a leaf exactly when its child slot is empty.
pub proof fn law_roots_and_leaves(g: &DirectedGraph, x: u32)
    requires
        g.wf(),
    ensures
        g.root_list().contains(x) <==> (x < g.n() && g.parent_slots()[x as int] is Empty),
        g.leaf_list().contains(x) <==> (x < g.n() && g.children_slots()[x as int] is Empty),
{
}

/// In the topological order of a graph without cycles, every edge leads
/// from a later position to an earlier one: children come first.
pub proof fn law_topological_soundness(d: &DirectedAcyclicGraph, p: u32, c: u32)
    requires
        d.wf(),
        d.graph().has_edge(p, c),
    ensures
        d.order().contains(p),
        d.order().contains(c),
        position_of(d.order(), c) != position_of(d.order(), p),
        position_of(d.order(), c) < position_of(d.order(), p),
{
    d.dg.lemma_edge_goes_down(d.topological_sort@, p, c);
}

/// The subset from a node holds exactly the nodes that it reaches; where
/// the node lies on no cycle it is the only root; every leaf of the subset
/// is a leaf of the whole graph.
pub proof fn law_subset_closure(g: &DirectedGraph, node: Seq<char>, sub: DirectedGraph)
    requires
        g.wf(),
        g.knows(node),
        g.is_node(g.sym_of(node)),
        g.is_subset_from(seq![g.sym_of(node)], sub),
        forall|p: Seq<u32>|
            g.is_path_from_to(p, g.sym_of(node), g.sym_of(node)) ==> p.len() == 1,
    ensures
        forall|x: u32| sub.is_node(x) <==> g.reachable(g.sym_of(node), x),
        forall|x: u32| sub.is_root(x) <==> x == g.sym_of(node),
        forall|x: u32| sub.is_leaf(x) ==> g.is_leaf(x),
{
    let s = g.sym_of(node);
    let seeds = seq![s];
    assert forall|x: u32| sub.is_node(x) <==> g.reachable(s, x) by {
        if g.reachable(s, x) {
            assert(g.reaches(true, seeds[0], x));
        }
        if sub.is_node(x) {
            let i = choose|i: int| 0 <= i < seeds.len() && #[trigger] g.reaches(true, seeds[i], x);
        }
    }
    g.lemma_reaches_self(true, s);
    assert(sub.is_node(s));
    assert forall|x: u32| sub.is_root(x) <==> x == s by {
        if sub.is_root(x) {
            assert(seeds.contains(x));
        }
        if x == s && !sub.is_root(x) {
            assert(!(sub.parent_map@[s as int] is Unknown));
            assert(sub.parent_map@[s as int] is Members);
            let m = sub.parent_map@[s as int].members();
            if !(exists|q: u32| m.contains(q)) {
                assert(m =~= Set::<u32>::empty());
            }
            let q = choose|q: u32| m.contains(q);
            assert(sub.parents_of(s).contains(q));
            assert(sub.has_edge(q, s));
            assert(g.has_edge(q, s));
            assert(sub.is_node(q));
            let p = choose|p: Seq<u32>| g.is_path_from_to(p, s, q);
            g.lemma_path_append(p, s, q, s);
            assert(g.is_path_from_to(p.push(s), s, s));
        }
    }
    assert forall|x: u32| sub.is_leaf(x) implies g.is_leaf(x) by {
        assert(sub.is_node(x));
        if x != s {
            let p = choose|p: Seq<u32>| g.is_path_from_to(p, s, x);
            assert(p.len() > 1);
            let m = p.len() - 2;
            assert(g.has_edge(p[m], p[m + 1]));
            assert(g.parents_of(x).contains(p[m]));
            assert(g.is_node(x));
        }
    }
}

/// A path of `g` from the seed stays inside the subset from the seed.
proof fn lemma_path_in_subset(g: &DirectedGraph, s: u32, sub: DirectedGraph, p: Seq<u32>, x: u32, k: int)
    requires
        g.wf(),
        g.is_subset_from(seq![s], sub),
        g.is_path_from_to(p, s, x),
        0 <= k < p.len(),
    ensures
        sub.is_path_from_to(p.subrange(0, k + 1), s, p[k]),
    decreases k,
{
    let q = p.subrange(0, k + 1);
    if k == 0 {
        assert(q =~= seq![s]);
    } else {
        lemma_path_in_subset(g, s, sub, p, x, k - 1);
        let q0 = p.subrange(0, k);
        assert(g.has_edge(p[k - 1], p[k - 1 + 1]));
        assert(g.is_path_from_to(q0, s, p[k - 1])) by {
            assert forall|i: int| 0 <= i < q0.len() - 1 implies #[trigger] g.has_edge(q0[i], q0[i + 1]) by {
                assert(g.has_edge(p[i], p[i + 1]));
            }
        }
        assert(g.reaches(true, seq![s][0], p[k - 1]));
        assert(sub.is_node(p[k - 1]));
        assert(sub.has_edge(p[k - 1], p[k]));
        sub.lemma_path_append(q0, s, p[k - 1], p[k]);
        assert(q0.push(p[k]) =~= q);
    }
}

/// Taking the subset from the same node twice gives the same edges as
/// taking it once.
pub proof fn law_subset_idempotent(
    g: &DirectedGraph,
    node: Seq<char>,
    sub: DirectedGraph,
    sub2: DirectedGraph,
)
    requires
        g.wf(),
        g.knows(node),
        g.is_subset_from(seq![g.sym_of(node)], sub),
        sub.is_subset_from(seq![sub.sym_of(node)], sub2),
    ensures
        forall|p: u32, c: u32| sub2.has_edge(p, c) <==> sub.has_edge(p, c),
{
    let s = g.sym_of(node);
    assert(sub.sym_of(node) == s);
    assert forall|p: u32, c: u32| sub2.has_edge(p, c) <==> sub.has_edge(p, c) by {
        if sub.has_edge(p, c) {
            assert(sub.is_node(p));
            assert(g.reached_from(true, seq![s], p));
            let i = choose|i: int| 0 <= i < 1 && #[trigger] g.reaches(true, seq![s][i], p);
            let path = choose|path: Seq<u32>| g.is_path_from_to(path, s, p);
            lemma_path_in_subset(g, s, sub, path, p, path.len() - 1);
            assert(path.subrange(0, path.len() as int) =~= path);
            assert(sub.reaches(true, seq![s][0], p));
            assert(sub2.is_node(p));
        }
    }
}

/// The least common parents `m` of a selection `ids` lie in the selection,
/// have no parent in it, and every other member of the selection has a
/// parent, hence an ancestor, in it.
pub proof fn law_least_common_parents(g: &DirectedGraph, ids: Seq<u32>, m: Seq<u32>)
    requires
        g.wf(),
        forall|x: u32| #[trigger] m.contains(x) <==> g.lcp_member(ids, x),
    ensures
        forall|x: u32| #[trigger] m.contains(x) ==> ids.contains(x),
        forall|x: u32, s: u32| #[trigger] m.contains(x) && #[trigger] ids.contains(s) ==> !g.has_edge(s, x),
        forall|x: u32|
            #[trigger] ids.contains(x) && !m.contains(x) ==> exists|a: u32| ids.contains(a) && g.has_edge(a, x),
{
    assert forall|x: u32, s: u32| #[trigger] m.contains(x) && #[trigger] ids.contains(s) implies !g.has_edge(s, x) by {
        assert(!g.parents_of(x).contains(s));
    }
    assert forall|x: u32| #[trigger] ids.contains(x) && !m.contains(x) implies exists|a: u32|
        ids.contains(a) && g.has_edge(a, x) by {
        assert(!g.lcp_member(ids, x));
        let a = choose|a: u32| ids.contains(a) && g.parents_of(x).contains(a);
        assert(g.has_edge(a, x));
    }
}


/// A snapshot of a graph names each label once and only symbols of its
/// labels, so the builder accepts it back wherever the labels leave room.
pub proof fn law_snapshot_is_accepted(
    g: &DirectedGraph,
    labels: Seq<String>,
    parents: Seq<u32>,
    children: Seq<u32>,
)
    requires
        g.wf(),
        label_seq(labels) == g.labels(),
        parents.len() == children.len(),
        forall|k: int| 0 <= k < parents.len() ==> g.has_edge(#[trigger] parents[k], children[k]),
    ensures
        label_seq(labels).no_duplicates(),
        forall|k: int| 0 <= k < parents.len() ==> #[trigger] parents[k] < labels.len(),
        forall|k: int| 0 <= k < children.len() ==> #[trigger] children[k] < labels.len(),
{
    assert forall|i: int, j: int|
        0 <= i < labels.len() && 0 <= j < labels.len() && i != j implies label_seq(labels)[i]
        != label_seq(labels)[j] by {
        g.lemma_sym_of(i as u32);
        g.lemma_sym_of(j as u32);
    }
    assert forall|k: int| 0 <= k < parents.len() implies #[trigger] parents[k] < labels.len() by {
        assert(g.has_edge(parents[k], children[k]));
        assert(g.children_of(parents[k]).contains(children[k]));
    }
    assert forall|k: int| 0 <= k < children.len() implies #[trigger] children[k] < labels.len() by {
        assert(g.has_edge(parents[k], children[k]));
    }
}

/// A graph rebuilt from a snapshot of another graph has the same labels and
/// the same edges.
pub proof fn law_snapshot_round_trip(
    g: &DirectedGraph,
    labels: Seq<String>,
    parents: Seq<u32>,
    children: Seq<u32>,
    b: DirectedGraphBuilder,
    h: DirectedGraph,
)
    requires
        g.wf(),
        label_seq(labels) == g.labels(),
        parents.len() == children.len(),
        forall|k: int| 0 <= k < parents.len() ==> g.has_edge(#[trigger] parents[k], children[k]),
        forall|p: u32, c: u32|
            #[trigger] g.has_edge(p, c) ==> exists|k: int|
                0 <= k < parents.len() && parents[k] == p && children[k] == c,
        b.labels() == label_seq(labels),
        b.parent_syms() == parents,
        b.child_syms() == children,
        h.labels() == b.labels(),
        forall|p: u32, c: u32| h.has_edge(p, c) <==> b.has_input_edge(p, c),
    ensures
        h.labels() == g.labels(),
        forall|p: u32, c: u32| h.has_edge(p, c) <==> g.has_edge(p, c),
{
    assert forall|p: u32, c: u32| h.has_edge(p, c) <==> g.has_edge(p, c) by {
        if g.has_edge(p, c) {
            let k = choose|k: int| 0 <= k < parents.len() && parents[k] == p && children[k] == c;
            assert(b.has_input_edge(p, c));
        }
        if h.has_edge(p, c) {
            assert(b.has_input_edge(p, c));
            let k = choose|k: int| 0 <= k < parents.len() && parents[k] == p && children[k] == c;
            assert(g.has_edge(parents[k], children[k]));
        }
    }
}

} // verus!
