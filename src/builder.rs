//! Collecting edges and finalizing them into a graph.
use crate::dag::DirectedAcyclicGraph;
use crate::error::GraphHasCycle;
use crate::graph::{label_list, DirectedGraph};
use crate::interner::InternerBuilder;
use crate::node_map::{total, NodeMap, Slot};
use crate::sorted::{concat, difference_sorted, sorted_unique, strictly_sorted};
use crate::sym::{Sym, RESERVED_SYMBOL};
use std::rc::Rc;
use vstd::prelude::*;

verus! {

/// Among the first `i` input edges there is `x -> y`.
pub open spec fn edge_among(pa: Seq<u32>, ch: Seq<u32>, i: int, x: u32, y: u32) -> bool {
    exists|k: int| 0 <= k < i && pa[k] == x && ch[k] == y
}

/// The labels after interning `l`: unchanged where `l` is there, else `l` appended.
pub open spec fn append_new(ls: Seq<Seq<char>>, l: Seq<char>) -> Seq<Seq<char>> {
    if ls.contains(l) {
        ls
    } else {
        ls.push(l)
    }
}

/// The labels after interning each of `path` in turn.
pub open spec fn append_all(ls: Seq<Seq<char>>, path: Seq<Seq<char>>) -> Seq<Seq<char>>
    decreases path.len(),
{
    if path.len() == 0 {
        ls
    } else {
        append_new(append_all(ls, path.drop_last()), path.last())
    }
}

/// `x` occurs among the first `i` entries of `s`.
pub open spec fn among(s: Seq<u32>, i: int, x: u32) -> bool {
    exists|k: int| 0 <= k < i && s[k] == x
}

/// Edge `m + k` of `pa`/`ch` joins the labels `path[k]` and `path[k + 1]`.
pub open spec fn step_holds(
    labels: Seq<Seq<char>>,
    pa: Seq<u32>,
    ch: Seq<u32>,
    m: int,
    path: Seq<Seq<char>>,
    k: int,
) -> bool {
    &&& labels[pa[m + k] as int] == path[k]
    &&& labels[ch[m + k] as int] == path[k + 1]
}

/// One more input edge: the pairs seen grow by that edge.
pub proof fn lemma_edge_among_step(pa: Seq<u32>, ch: Seq<u32>, i: int, x: u32, y: u32)
    requires
        0 <= i < pa.len(),
        pa.len() == ch.len(),
    ensures
        edge_among(pa, ch, i + 1, x, y) <==> (edge_among(pa, ch, i, x, y) || (pa[i] == x && ch[i]
            == y)),
{
    if edge_among(pa, ch, i + 1, x, y) {
        let k = choose|k: int| 0 <= k < i + 1 && pa[k] == x && ch[k] == y;
        if k < i {
            assert(edge_among(pa, ch, i, x, y));
        }
    }
    if edge_among(pa, ch, i, x, y) {
        let k = choose|k: int| 0 <= k < i && pa[k] == x && ch[k] == y;
        assert(0 <= k < i + 1 && pa[k] == x && ch[k] == y);
    }
    if pa[i] == x && ch[i] == y {
        assert(0 <= i < i + 1 && pa[i] == x && ch[i] == y);
    }
}

/// One more entry: the values seen grow by that entry.
pub proof fn lemma_among_step(s: Seq<u32>, i: int, x: u32)
    requires
        0 <= i < s.len(),
    ensures
        among(s, i + 1, x) <==> (among(s, i, x) || s[i] == x),
{
    if among(s, i + 1, x) {
        let k = choose|k: int| 0 <= k < i + 1 && s[k] == x;
        if k < i {
            assert(among(s, i, x));
        }
    }
    if among(s, i, x) {
        let k = choose|k: int| 0 <= k < i && s[k] == x;
        assert(0 <= k < i + 1 && s[k] == x);
    }
    if s[i] == x {
        assert(0 <= i < i + 1 && s[i] == x);
    }
}

/// Among all entries means contained.
pub proof fn lemma_among_all(s: Seq<u32>, x: u32)
    ensures
        among(s, s.len() as int, x) <==> s.contains(x),
{
    if s.contains(x) {
        let k = choose|k: int| 0 <= k < s.len() && s[k] == x;
        assert(among(s, s.len() as int, x));
    }
}

/// Collects edges between labels, then finalizes them into a graph.
pub struct DirectedGraphBuilder {
    pub(crate) parents: Vec<u32>,
    pub(crate) children: Vec<u32>,
    pub(crate) interner: InternerBuilder,
}

impl Clone for DirectedGraphBuilder {
    fn clone(&self) -> (r: DirectedGraphBuilder)
        ensures
            r.labels() == self.labels(),
            r.parent_syms() == self.parent_syms(),
            r.child_syms() == self.child_syms(),
            self.wf() ==> r.wf(),
    {
        let parents = self.parents.clone();
        let children = self.children.clone();
        proof {
            assert(parents@ =~= self.parents@);
            assert(children@ =~= self.children@);
        }
        DirectedGraphBuilder { parents, children, interner: self.interner.clone() }
    }
}

impl DirectedGraphBuilder {
    pub open(crate) spec fn wf(&self) -> bool {
        &&& self.interner.wf()
        &&& self.parents@.len() == self.children@.len()
        &&& forall|i: int| 0 <= i < self.parents@.len() ==> #[trigger] self.parents@[i] < self.labels().len()
        &&& forall|i: int| 0 <= i < self.children@.len() ==> #[trigger] self.children@[i] < self.labels().len()
    }

    /// The labels interned so far, in symbol order.
    pub open(crate) spec fn labels(&self) -> Seq<Seq<char>> {
        self.interner.labels()
    }

    /// The source of each edge added so far, in order.
    pub open(crate) spec fn parent_syms(&self) -> Seq<u32> {
        self.parents@
    }

    /// The target of each edge added so far, in order.
    pub open(crate) spec fn child_syms(&self) -> Seq<u32> {
        self.children@
    }

    /// Edge `m + k` joins the labels `path[k]` and `path[k + 1]`.
    pub open(crate) spec fn path_step(&self, m: int, path: Seq<Seq<char>>, k: int) -> bool {
        step_holds(self.labels(), self.parents@, self.children@, m, path, k)
    }

    /// The edge `p -> c` was added.
    pub open(crate) spec fn has_input_edge(&self, p: u32, c: u32) -> bool {
        edge_among(self.parents@, self.children@, self.parents@.len() as int, p, c)
    }

    /// `x` is an end of an added edge.
    pub open(crate) spec fn has_input_node(&self, x: u32) -> bool {
        among(self.parents@, self.parents@.len() as int, x) || among(
            self.children@,
            self.children@.len() as int,
            x,
        )
    }

    pub fn new() -> (r: DirectedGraphBuilder)
        ensures
            r.wf(),
            r.labels().len() == 0,
            r.parent_syms().len() == 0,
    {
        DirectedGraphBuilder { parents: Vec::new(), children: Vec::new(), interner: InternerBuilder::new() }
    }

    /// How many labels were interned so far.
    pub fn label_count(&self) -> (r: usize)
        ensures
            r == self.labels().len(),
    {
        self.interner.len()
    }

    /// The symbols of the sources of the added edges, in order.
    pub fn parent_symbols(&self) -> (r: Vec<Sym>)
        ensures
            r@.len() == self.parent_syms().len(),
            forall|i: int| 0 <= i < r@.len() ==> #[trigger] r@[i].value() == self.parent_syms()[i],
    {
        let mut r: Vec<Sym> = Vec::new();
        let mut i: usize = 0;
        while i < self.parents.len()
            invariant
                i <= self.parents@.len(),
                r@.len() == i,
                forall|j: int| 0 <= j < i ==> #[trigger] r@[j].value() == self.parents@[j],
            decreases self.parents.len() - i,
        {
            r.push(Sym::new(self.parents[i]));
            i = i + 1;
        }
        r
    }

    /// The symbols of the targets of the added edges, in order.
    pub fn child_symbols(&self) -> (r: Vec<Sym>)
        ensures
            r@.len() == self.child_syms().len(),
            forall|i: int| 0 <= i < r@.len() ==> #[trigger] r@[i].value() == self.child_syms()[i],
    {
        let mut r: Vec<Sym> = Vec::new();
        let mut i: usize = 0;
        while i < self.children.len()
            invariant
                i <= self.children@.len(),
                r@.len() == i,
                forall|j: int| 0 <= j < i ==> #[trigger] r@[j].value() == self.children@[j],
            decreases self.children.len() - i,
        {
            r.push(Sym::new(self.children[i]));
            i = i + 1;
        }
        r
    }

    /// Adds the edge `from -> to`, interning both labels.
    pub fn add_edge(&mut self, from: &str, to: &str)
        requires
            old(self).wf(),
            old(self).labels().len() + 2 < RESERVED_SYMBOL,
        ensures
            final(self).wf(),
            final(self).labels() == append_new(append_new(old(self).labels(), from@), to@),
            final(self).labels().len() <= old(self).labels().len() + (if old(self).labels().contains(
                from@,
            ) {
                0int
            } else {
                1int
            }) + 1,
            final(self).labels().len() >= old(self).labels().len(),
            final(self).labels().subrange(0, old(self).labels().len() as int) == old(self).labels(),
            final(self).parent_syms() == old(self).parent_syms().push(
                final(self).parent_syms().last(),
            ),
            final(self).child_syms() == old(self).child_syms().push(
                final(self).child_syms().last(),
            ),
            final(self).labels()[final(self).parent_syms().last() as int] == from@,
            final(self).labels()[final(self).child_syms().last() as int] == to@,
    {
        let ghost l0 = self.labels();
        let f = self.interner.get_or_intern(from);
        let ghost l1 = self.labels();
        let t = self.interner.get_or_intern(to);
        proof {
            assert(l1.subrange(0, l0.len() as int) =~= l0);
            assert(self.labels().subrange(0, l1.len() as int) =~= l1);
            assert(self.labels().subrange(0, l0.len() as int) =~= l0);
        }
        self.parents.push(f);
        self.children.push(t);
    }

    /// Adds an edge between each two neighbouring labels of `path`.
    pub fn add_path(&mut self, path: &[&str])
        requires
            old(self).wf(),
            old(self).labels().len() + path@.len() + 1 < RESERVED_SYMBOL,
        ensures
            final(self).wf(),
            path@.len() >= 2 ==> final(self).labels() == append_all(old(self).labels(), label_list(path@)),
            path@.len() < 2 ==> final(self).labels() == old(self).labels(),
            final(self).labels().subrange(0, old(self).labels().len() as int) == old(self).labels(),
            final(self).parent_syms().subrange(0, old(self).parent_syms().len() as int)
                == old(self).parent_syms(),
            final(self).child_syms().subrange(0, old(self).child_syms().len() as int)
                == old(self).child_syms(),
            final(self).parent_syms().len() == old(self).parent_syms().len() + if path@.len() == 0 {
                0
            } else {
                path@.len() - 1
            },
            forall|k: int|
                0 <= k < path@.len() - 1 ==> #[trigger] final(self).path_step(
                    old(self).parent_syms().len() as int,
                    label_list(path@),
                    k,
                ),
    {
        let ghost m = self.parents@.len() as int;
        if path.len() < 2 {
            proof {
                assert(self.labels().subrange(0, self.labels().len() as int) =~= self.labels());
                assert(self.parents@.subrange(0, m) =~= self.parents@);
                assert(self.children@.subrange(0, m) =~= self.children@);
            }
            return;
        }
        let mut i: usize = 0;
        while i + 1 < path.len()
            invariant
                i + 1 <= path@.len(),
                self.wf(),
                self.parents@.len() == m + i,
                0 <= m,
                m == old(self).parents@.len(),
                self.labels().len() <= old(self).labels().len() + i + 1,
                self.labels().len() >= old(self).labels().len(),
                i == 0 ==> self.labels() == old(self).labels(),
                i > 0 ==> self.labels() == append_all(old(self).labels(), label_list(path@).subrange(0, i + 1)),
                i > 0 ==> self.labels().contains(path@[i as int]@),
                i > 0 ==> self.labels()[self.children@[m + i - 1] as int] == path@[i as int]@,
                old(self).labels().len() + path@.len() + 1 < RESERVED_SYMBOL,
                self.labels().subrange(0, old(self).labels().len() as int) == old(self).labels(),
                self.parents@.subrange(0, m) == old(self).parents@,
                self.children@.subrange(0, m) == old(self).children@,
                forall|k: int| 0 <= k < i ==> #[trigger] self.path_step(m, label_list(path@), k),
            decreases path.len() - i,
        {
            proof {
                if i == 0 {
                    assert(self.labels() =~= old(self).labels());
                }
            }
            let ghost before = self.labels();
            let ghost ps = self.parents@;
            let ghost cs = self.children@;
            assert forall|k: int| 0 <= k < i implies #[trigger] step_holds(
                before,
                ps,
                cs,
                m,
                label_list(path@),
                k,
            ) by {
                assert(self.path_step(m, label_list(path@), k));
            }
            self.add_edge(path[i], path[i + 1]);
            proof {
                let lp = label_list(path@);
                let s2 = lp.subrange(0, i + 2);
                assert(s2.drop_last() =~= lp.subrange(0, i + 1));
                assert(s2.last() == path@[i + 1]@);
                if i == 0 {
                    assert(lp.subrange(0, 1).drop_last() =~= Seq::<Seq<char>>::empty());
                    assert(lp.subrange(0, 1).last() == path@[0]@);
                    assert(append_all(before, lp.subrange(0, 1)) == append_new(append_all(before, Seq::<Seq<char>>::empty()), path@[0]@));
                    assert(append_all(before, Seq::<Seq<char>>::empty()) == before);
                } else {
                    assert(append_new(before, path@[i as int]@) == before);
                }
                assert(self.labels() == append_all(old(self).labels(), s2));
                assert(self.parents@ == ps.push(self.parents@.last()));
                assert(self.children@ == cs.push(self.children@.last()));
                let c = self.children@[self.children@.len() - 1];
                assert(c < self.labels().len());
                assert(self.labels()[c as int] == path@[i + 1]@);

                assert forall|k: int| 0 <= k < i + 1 implies #[trigger] self.path_step(
                    m,
                    label_list(path@),
                    k,
                ) by {
                    if k < i {
                        assert(step_holds(before, ps, cs, m, label_list(path@), k));
                        assert(ps.len() == m + i);
                        assert(0 <= m + k < ps.len());
                        assert(ps.push(self.parents@.last())[m + k] == ps[m + k]);
                        assert(ps[m + k] == self.parents@[m + k]);
                        assert(cs[m + k] == self.children@[m + k]);
                        assert(ps[m + k] < before.len());
                        assert(cs[m + k] < before.len());
                        assert(self.labels().subrange(0, before.len() as int)[ps[m + k] as int]
                            == before[ps[m + k] as int]);
                        assert(self.labels().subrange(0, before.len() as int)[cs[m + k] as int]
                            == before[cs[m + k] as int]);
                    }
                }
                assert(self.parents@.subrange(0, m) =~= old(self).parents@);
                assert(self.children@.subrange(0, m) =~= old(self).children@);
                assert forall|j: int| 0 <= j < old(self).labels().len() implies self.labels()[j] == old(
                    self,
                ).labels()[j] by {
                    assert(self.labels().subrange(0, before.len() as int)[j] == before[j]);
                    assert(before.subrange(0, old(self).labels().len() as int)[j] == old(
                        self,
                    ).labels()[j]);
                }
                assert(self.labels().subrange(0, old(self).labels().len() as int) =~= old(self).labels());
            }
            i = i + 1;
        }
        proof {
            assert(label_list(path@).subrange(0, path@.len() as int) =~= label_list(path@));
        }
    }

    /// Finalizes the added edges into a graph: duplicate edges count once,
    /// every end of an edge is a node, and the label table is frozen.
    pub fn build_directed(self) -> (r: DirectedGraph)
        requires
            self.wf(),
        ensures
            r.wf(),
            r.labels() == self.labels(),
            forall|p: u32, c: u32| r.has_edge(p, c) <==> self.has_input_edge(p, c),
            forall|x: u32| r.is_node(x) <==> self.has_input_node(x),
    {
        let ghost labels0 = self.labels();
        let DirectedGraphBuilder { parents, children, interner } = self;
        let ghost pa = parents@;
        let ghost ch = children@;
        let ghost len = pa.len() as int;
        let unique_parents = sorted_unique(&parents);
        let unique_children = sorted_unique(&children);
        let both = concat(&unique_parents, &unique_children);
        let nodes = sorted_unique(&both);
        let leaves = difference_sorted(&unique_children, &unique_parents);
        let roots = difference_sorted(&unique_parents, &unique_children);
        let resolver = interner.build();
        let n = resolver.len();
        let mut children_map = NodeMap::new(n);
        let mut parent_map = NodeMap::new(n);
        let mut n_edges: usize = 0;
        let mut i: usize = 0;
        while i < parents.len()
            invariant
                i <= len,
                parents@ == pa,
                children@ == ch,
                pa.len() == ch.len(),
                len == pa.len(),
                forall|k: int| 0 <= k < len ==> #[trigger] pa[k] < n,
                forall|k: int| 0 <= k < len ==> #[trigger] ch[k] < n,
                children_map@.len() == n,
                parent_map@.len() == n,
                n < RESERVED_SYMBOL,
                children_map.finite(),
                parent_map.finite(),
                n_edges <= i,
                n_edges == total(children_map@),
                n_edges == total(parent_map@),
                forall|x: int, y: u32|
                    0 <= x < n ==> (#[trigger] children_map@[x].members().contains(y) <==> edge_among(
                        pa,
                        ch,
                        i as int,
                        x as u32,
                        y,
                    )),
                forall|x: u32, y: int|
                    0 <= y < n ==> (#[trigger] parent_map@[y].members().contains(x) <==> edge_among(
                        pa,
                        ch,
                        i as int,
                        x,
                        y as u32,
                    )),
                forall|x: int|
                    0 <= x < n ==> (#[trigger] children_map@[x] is Members <==> among(
                        pa,
                        i as int,
                        x as u32,
                    )),
                forall|x: int|
                    0 <= x < n ==> (#[trigger] parent_map@[x] is Members <==> among(
                        ch,
                        i as int,
                        x as u32,
                    )),
                forall|x: int| 0 <= x < n ==> !(#[trigger] children_map@[x] is Empty),
                forall|x: int| 0 <= x < n ==> !(#[trigger] parent_map@[x] is Empty),
            decreases len - i,
        {
            let p = parents[i];
            let c = children[i];
            let ghost cm0 = children_map@;
            let ghost pm0 = parent_map@;
            let added = children_map.insert(p, c);
            let added2 = parent_map.insert(c, p);
            proof {
                assert(added == added2);
            }
            if added {
                n_edges = n_edges + 1;
            }
            proof {
                assert forall|x: int, y: u32|
                    0 <= x < n implies (#[trigger] children_map@[x].members().contains(y)
                        <==> edge_among(pa, ch, i + 1, x as u32, y)) by {
                    lemma_edge_among_step(pa, ch, i as int, x as u32, y);
                    assert(cm0[x].members().contains(y) <==> edge_among(pa, ch, i as int, x as u32, y));
                    assert(pa[i as int] == p && ch[i as int] == c);
                    if x == p as int {
                        assert(children_map@[x].members() == cm0[x].members().insert(c));
                    } else {
                        assert(children_map@[x] == cm0[x]);
                    }
                }
                assert forall|x: u32, y: int|
                    0 <= y < n implies (#[trigger] parent_map@[y].members().contains(x)
                        <==> edge_among(pa, ch, i + 1, x, y as u32)) by {
                    lemma_edge_among_step(pa, ch, i as int, x, y as u32);
                    assert(pm0[y].members().contains(x) <==> edge_among(pa, ch, i as int, x, y as u32));
                    assert(pa[i as int] == p && ch[i as int] == c);
                    if y == c as int {
                        assert(parent_map@[y].members() == pm0[y].members().insert(p));
                    } else {
                        assert(parent_map@[y] == pm0[y]);
                    }
                }
                assert forall|x: int| 0 <= x < n implies (#[trigger] children_map@[x] is Members
                    <==> among(pa, i + 1, x as u32)) by {
                    lemma_among_step(pa, i as int, x as u32);
                    assert(cm0[x] is Members <==> among(pa, i as int, x as u32));
                }
                assert forall|x: int| 0 <= x < n implies (#[trigger] parent_map@[x] is Members
                    <==> among(ch, i + 1, x as u32)) by {
                    lemma_among_step(ch, i as int, x as u32);
                    assert(pm0[x] is Members <==> among(ch, i as int, x as u32));
                }
                assert forall|x: int| 0 <= x < n implies !(#[trigger] children_map@[x] is Empty) by {
                    assert(!(cm0[x] is Empty));
                }
                assert forall|x: int| 0 <= x < n implies !(#[trigger] parent_map@[x] is Empty) by {
                    assert(!(pm0[x] is Empty));
                }
            }
            i = i + 1;
        }
        let ghost nl = nodes@.len() as int;
        proof {
            assert forall|x: u32| #[trigger] nodes@.contains(x) <==> (pa.contains(x) || ch.contains(x)) by {
                assert(nodes@.contains(x) <==> both@.contains(x));
                if both@.contains(x) {
                    let k = choose|k: int| 0 <= k < both@.len() && both@[k] == x;
                    if k < unique_parents@.len() {
                        assert(unique_parents@[k] == x);
                        assert(unique_parents@.contains(x));
                    } else {
                        assert(unique_children@[k - unique_parents@.len()] == x);
                        assert(unique_children@.contains(x));
                    }
                }
                if unique_parents@.contains(x) {
                    let k = choose|k: int| 0 <= k < unique_parents@.len() && unique_parents@[k] == x;
                    assert(both@[k] == x);
                }
                if unique_children@.contains(x) {
                    let k = choose|k: int| 0 <= k < unique_children@.len() && unique_children@[k] == x;
                    assert(both@[unique_parents@.len() + k] == x);
                }
            }
        }
        let mut j: usize = 0;
        while j < nodes.len()
            invariant
                j <= nl,
                nl == nodes@.len(),
                forall|x: u32| #[trigger] nodes@.contains(x) <==> (pa.contains(x) || ch.contains(x)),
                forall|k: int| 0 <= k < len ==> #[trigger] pa[k] < n,
                forall|k: int| 0 <= k < len ==> #[trigger] ch[k] < n,
                pa.len() == len,
                ch.len() == len,
                children_map@.len() == n,
                parent_map@.len() == n,
                n < RESERVED_SYMBOL,
                children_map.finite(),
                parent_map.finite(),
                n_edges == total(children_map@),
                n_edges == total(parent_map@),
                forall|x: int, y: u32|
                    0 <= x < n ==> (#[trigger] children_map@[x].members().contains(y) <==> edge_among(
                        pa,
                        ch,
                        len,
                        x as u32,
                        y,
                    )),
                forall|x: u32, y: int|
                    0 <= y < n ==> (#[trigger] parent_map@[y].members().contains(x) <==> edge_among(
                        pa,
                        ch,
                        len,
                        x,
                        y as u32,
                    )),
                forall|x: int|
                    0 <= x < n ==> (#[trigger] children_map@[x] is Members <==> among(
                        pa,
                        len,
                        x as u32,
                    )),
                forall|x: int|
                    0 <= x < n ==> (#[trigger] parent_map@[x] is Members <==> among(
                        ch,
                        len,
                        x as u32,
                    )),
                forall|x: int|
                    0 <= x < n ==> (#[trigger] children_map@[x] is Empty <==> (!among(
                        pa,
                        len,
                        x as u32,
                    ) && among(nodes@, j as int, x as u32))),
                forall|x: int|
                    0 <= x < n ==> (#[trigger] parent_map@[x] is Empty <==> (!among(
                        ch,
                        len,
                        x as u32,
                    ) && among(nodes@, j as int, x as u32))),
            decreases nl - j,
        {
            let x = nodes[j];
            proof {
                assert(nodes@.contains(x));
                if pa.contains(x) {
                    let k = choose|k: int| 0 <= k < pa.len() && pa[k] == x;
                    assert(pa[k] < n);
                } else {
                    let k = choose|k: int| 0 <= k < ch.len() && ch[k] == x;
                    assert(ch[k] < n);
                }
            }
            let ghost cm0 = children_map@;
            let ghost pm0 = parent_map@;
            parent_map.into_empty_if_unknown(x);
            children_map.into_empty_if_unknown(x);
            proof {
                assert forall|y: int, z: u32|
                    0 <= y < n implies (#[trigger] children_map@[y].members().contains(z)
                        <==> cm0[y].members().contains(z)) by {
                    if y == x as int && cm0[y] is Unknown {
                        assert(children_map@[y] is Empty);
                    }
                }
                assert forall|z: u32, y: int|
                    0 <= y < n implies (#[trigger] parent_map@[y].members().contains(z)
                        <==> pm0[y].members().contains(z)) by {
                    if y == x as int && pm0[y] is Unknown {
                        assert(parent_map@[y] is Empty);
                    }
                }
                assert forall|y: int| 0 <= y < n implies (#[trigger] children_map@[y] is Empty <==> (
                !among(pa, len, y as u32) && among(nodes@, j + 1, y as u32))) by {
                    lemma_among_step(nodes@, j as int, y as u32);
                    assert(cm0[y] is Empty <==> (!among(pa, len, y as u32) && among(nodes@, j as int, y as u32)));
                    assert(cm0[y] is Members <==> among(pa, len, y as u32));
                    assert(nodes@[j as int] == x);
                    if y != x as int {
                        assert(children_map@[y] == cm0[y]);
                    }
                }
                assert forall|y: int| 0 <= y < n implies (#[trigger] parent_map@[y] is Empty <==> (
                !among(ch, len, y as u32) && among(nodes@, j + 1, y as u32))) by {
                    lemma_among_step(nodes@, j as int, y as u32);
                    assert(pm0[y] is Empty <==> (!among(ch, len, y as u32) && among(nodes@, j as int, y as u32)));
                    assert(pm0[y] is Members <==> among(ch, len, y as u32));
                    assert(nodes@[j as int] == x);
                    if y != x as int {
                        assert(parent_map@[y] == pm0[y]);
                    }
                }
                assert forall|y: int| 0 <= y < n implies (#[trigger] children_map@[y] is Members
                    <==> among(pa, len, y as u32)) by {
                    assert(cm0[y] is Members <==> among(pa, len, y as u32));
                }
                assert forall|y: int| 0 <= y < n implies (#[trigger] parent_map@[y] is Members
                    <==> among(ch, len, y as u32)) by {
                    assert(pm0[y] is Members <==> among(ch, len, y as u32));
                }
            }
            j = j + 1;
        }
        let r = DirectedGraph {
            interner: Rc::new(resolver),
            leaves,
            roots,
            nodes,
            children_map,
            parent_map,
            n_edges,
        };
        proof {
            assert forall|x: u32| x < n implies (r.children_map@[x as int] is Unknown <==> !(
            pa.contains(x) || ch.contains(x))) by {
                lemma_among_all(pa, x);
                lemma_among_all(nodes@, x);
                assert(!(r.children_map@[x as int] is Members) <==> !among(pa, len, x));
                assert(r.children_map@[x as int] is Empty <==> (!among(pa, len, x) && among(nodes@, nl, x)));
            }
            assert forall|x: u32| x < n implies (r.parent_map@[x as int] is Unknown <==> !(
            pa.contains(x) || ch.contains(x))) by {
                lemma_among_all(ch, x);
                lemma_among_all(nodes@, x);
                assert(!(r.parent_map@[x as int] is Members) <==> !among(ch, len, x));
                assert(r.parent_map@[x as int] is Empty <==> (!among(ch, len, x) && among(nodes@, nl, x)));
            }
            assert forall|x: u32| (pa.contains(x) || ch.contains(x)) implies x < n by {
                if pa.contains(x) {
                    let k = choose|k: int| 0 <= k < pa.len() && pa[k] == x;
                    assert(pa[k] < n);
                } else {
                    let k = choose|k: int| 0 <= k < ch.len() && ch[k] == x;
                    assert(ch[k] < n);
                }
            }
            assert forall|x: u32| r.is_node(x) <==> (pa.contains(x) || ch.contains(x)) by {
                if x < n {
                    assert(r.children_map@[x as int] is Unknown <==> !(pa.contains(x) || ch.contains(x)));
                }
            }
            assert forall|x: u32| r.is_node(x) <==> self.has_input_node(x) by {
                lemma_among_all(pa, x);
                lemma_among_all(ch, x);
            }
            assert forall|p: u32, c: u32| r.has_edge(p, c) <==> edge_among(pa, ch, len, p, c) by {
                if edge_among(pa, ch, len, p, c) {
                    let k = choose|k: int| 0 <= k < len && pa[k] == p && ch[k] == c;
                    assert(pa[k] < n);
                }
            }
            assert forall|p: u32, c: u32| r.parents_of(c).contains(p) <==> edge_among(pa, ch, len, p, c) by {
                if edge_among(pa, ch, len, p, c) {
                    let k = choose|k: int| 0 <= k < len && pa[k] == p && ch[k] == c;
                    assert(ch[k] < n);
                }
            }
            assert forall|p: u32, c: u32| #[trigger] r.children_of(p).contains(c) implies c < r.n() by {
                assert(r.has_edge(p, c));
                let k = choose|k: int| 0 <= k < len && pa[k] == p && ch[k] == c;
                assert(ch[k] < n);
            }
            assert forall|p: u32, c: u32| #[trigger] r.parents_of(c).contains(p) implies p < r.n() by {
                assert(edge_among(pa, ch, len, p, c));
                let k = choose|k: int| 0 <= k < len && pa[k] == p && ch[k] == c;
                assert(pa[k] < n);
            }
            assert forall|x: int| 0 <= x < r.n() implies (#[trigger] r.children_map@[x] is Members
                ==> r.children_map@[x].members() != Set::<u32>::empty()) by {
                if r.children_map@[x] is Members {
                    assert(among(pa, len, x as u32));
                    let k = choose|k: int| 0 <= k < len && pa[k] == x as u32;
                    assert(edge_among(pa, ch, len, x as u32, ch[k]));
                    assert(r.children_map@[x].members().contains(ch[k]));
                }
            }
            assert forall|x: int| 0 <= x < r.n() implies (#[trigger] r.parent_map@[x] is Members
                ==> r.parent_map@[x].members() != Set::<u32>::empty()) by {
                if r.parent_map@[x] is Members {
                    assert(among(ch, len, x as u32));
                    let k = choose|k: int| 0 <= k < len && ch[k] == x as u32;
                    assert(edge_among(pa, ch, len, pa[k], x as u32));
                    assert(r.parent_map@[x].members().contains(pa[k]));
                }
            }
            assert forall|x: int|
                0 <= x < r.n() implies (#[trigger] r.children_map@[x] is Unknown <==> r.parent_map@[x] is Unknown) by {
                assert(r.children_map@[x as u32 as int] is Unknown <==> !(pa.contains(x as u32) || ch.contains(x as u32)));
            }
            assert forall|x: u32| #[trigger] r.roots@.contains(x) <==> r.is_root(x) by {
                lemma_among_all(ch, x);
                lemma_among_all(nodes@, x);
                assert(unique_parents@.contains(x) <==> pa.contains(x));
                assert(unique_children@.contains(x) <==> ch.contains(x));
                if x < n {
                    assert(r.parent_map@[x as int] is Empty <==> (!among(ch, len, x) && among(nodes@, nl, x)));
                }
            }
            assert forall|x: u32| #[trigger] r.leaves@.contains(x) <==> r.is_leaf(x) by {
                lemma_among_all(pa, x);
                lemma_among_all(nodes@, x);
                assert(unique_parents@.contains(x) <==> pa.contains(x));
                assert(unique_children@.contains(x) <==> ch.contains(x));
                if x < n {
                    assert(r.children_map@[x as int] is Empty <==> (!among(pa, len, x) && among(nodes@, nl, x)));
                }
            }
            assert(r.labels() == labels0);
        }
        r
    }

    /// `p` walks along added edges back to where it started.
    pub open(crate) spec fn is_input_round_walk(&self, p: Seq<u32>) -> bool {
        &&& p.len() > 0
        &&& p[0] == p.last()
        &&& forall|i: int| 0 <= i < p.len() - 1 ==> #[trigger] self.has_input_edge(p[i], p[i + 1])
    }

    /// No walk along added edges returns to where it started.
    pub open(crate) spec fn input_acyclic(&self) -> bool {
        forall|p: Seq<u32>| #[trigger] self.is_input_round_walk(p) ==> p.len() == 1
    }

    /// Finalizes the added edges into a graph and checks that it has no
    /// cycle; fails with `GraphHasCycle` where it has one.
    pub fn build_acyclic(self) -> (r: Result<DirectedAcyclicGraph, GraphHasCycle>)
        requires
            self.wf(),
        ensures
            r matches Ok(d) ==> d.wf() && d.graph().labels() == self.labels() && forall|p: u32, c: u32|
                d.graph().has_edge(p, c) <==> self.has_input_edge(p, c),
            r is Ok <==> self.input_acyclic(),
    {
        let ghost input = self;
        let dg = self.build_directed();
        proof {
            assert forall|p: Seq<u32>| #[trigger] input.is_input_round_walk(p) <==> dg.is_path_from_to(p, p[0], p[0]) by {
                if p.len() > 0 {
                    assert((forall|i: int| 0 <= i < p.len() - 1 ==> #[trigger] dg.has_edge(p[i], p[i + 1]))
                        <==> (forall|i: int| 0 <= i < p.len() - 1 ==> #[trigger] input.has_input_edge(p[i], p[i + 1])));
                }
            }
            if dg.is_acyclic() {
                assert forall|p: Seq<u32>| #[trigger] input.is_input_round_walk(p) implies p.len() == 1 by {
                    assert(dg.is_path_from_to(p, p[0], p[0]));
                }
            }
            if input.input_acyclic() {
                assert forall|p: Seq<u32>, a: u32| #[trigger] dg.is_path_from_to(p, a, a) implies p.len() == 1 by {
                    assert(input.is_input_round_walk(p));
                }
            }
        }
        DirectedAcyclicGraph::build(dg)
    }
}

} // verus!
