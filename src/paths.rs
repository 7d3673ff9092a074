//! Path searches: shortest path, all simple paths, and one source to many targets.
use crate::error::GraphInteractionError;
use crate::graph::{label_list, DirectedGraph};
use crate::node_vec::NodeVec;
use crate::sym_set::{lemma_bounded_set, SymSet};
use std::collections::VecDeque;
use vstd::prelude::*;

verus! {

/// Some entry of `v` holds the labels `l`.
pub open spec fn lists_labels(v: Seq<NodeVec>, l: Seq<Seq<char>>) -> bool {
    exists|i: int| 0 <= i < v.len() && v[i]@ == l
}

/// No two entries of a search log are for the same node.
pub open spec fn log_nodes_distinct(log: Seq<(u32, u32)>) -> bool {
    forall|a: int, b: int| 0 <= a < b < log.len() ==> #[trigger] log[a].0 != #[trigger] log[b].0
}

/// The log holds the entry `(x, y)`.
pub open spec fn is_log_entry(log: Seq<(u32, u32)>, x: u32, y: u32) -> bool {
    exists|k: int| 0 <= k < log.len() && log[k].0 == x && log[k].1 == y
}

/// The queue's levels do not go down and span at most one level.
pub open spec fn queue_levels(q: Seq<u32>, dist: Map<u32, nat>) -> bool {
    &&& forall|i: int, j: int| 0 <= i <= j < q.len() ==> #[trigger] dist[q[i]] <= #[trigger] dist[q[j]]
    &&& q.len() > 0 ==> dist[q.last()] <= dist[q[0]] + 1
}

impl DirectedGraph {
    /// `p` walks along edges from `a` to `b`.
    pub open(crate) spec fn is_path_from_to(&self, p: Seq<u32>, a: u32, b: u32) -> bool {
        &&& p.len() > 0
        &&& p[0] == a
        &&& p.last() == b
        &&& forall|i: int| 0 <= i < p.len() - 1 ==> #[trigger] self.has_edge(p[i], p[i + 1])
    }

    /// Some path leads from `a` to `b`.
    pub open(crate) spec fn reachable(&self, a: u32, b: u32) -> bool {
        exists|p: Seq<u32>| self.is_path_from_to(p, a, b)
    }

    /// One step of a search log: forward, `y -> x` is an edge; backward, `x -> y` is.
    pub open(crate) spec fn log_step(&self, x: u32, y: u32, forward: bool) -> bool {
        if forward {
            self.has_edge(y, x)
        } else {
            self.has_edge(x, y)
        }
    }

    /// Each entry `(x, y)` of a search log was found from `y`, which is the
    /// root or an earlier entry's node; no entry is the root.
    pub open(crate) spec fn log_ok(&self, log: Seq<(u32, u32)>, root: u32, forward: bool) -> bool {
        &&& forall|k: int| 0 <= k < log.len() ==> #[trigger] self.log_step(log[k].0, log[k].1, forward)
        &&& forall|k: int| 0 <= k < log.len() ==> #[trigger] log[k].0 != root
        &&& forall|k: int|
            0 <= k < log.len() ==> (#[trigger] log[k].1 == root || exists|j: int|
                0 <= j < k && log[j].0 == log[k].1)
    }

    /// The first entry of `log` whose node is `x`.
    fn find_first(log: &Vec<(u32, u32)>, x: u32, Ghost(bound): Ghost<int>) -> (r: usize)
        requires
            0 <= bound < log@.len(),
            log@[bound].0 == x,
        ensures
            r <= bound,
            log@[r as int].0 == x,
            forall|j: int| 0 <= j < r ==> log@[j].0 != x,
    {
        let mut k: usize = 0;
        while k < log.len() && log[k].0 != x
            invariant
                0 <= k <= bound,
                bound < log@.len(),
                log@[bound].0 == x,
                forall|j: int| 0 <= j < k ==> log@[j].0 != x,
            decreases bound - k,
        {
            assert(k < bound);
            k = k + 1;
        }
        k
    }

    /// Follows a search log from `start` back to its root: each step goes
    /// from an entry's node to the node it was found from.
    pub(crate) fn walk_log(
        &self,
        log: &Vec<(u32, u32)>,
        root: u32,
        start: u32,
        Ghost(forward): Ghost<bool>,
    ) -> (r: Vec<u32>)
        requires
            self.log_ok(log@, root, forward),
            start == root || exists|k: int| 0 <= k < log@.len() && log@[k].0 == start,
        ensures
            r@.len() > 0,
            r@[0] == start,
            r@.last() == root,
            forall|i: int| 0 <= i < r@.len() - 1 ==> #[trigger] self.log_step(r@[i], r@[i + 1], forward),
            forall|i: int| 0 <= i < r@.len() - 1 ==> #[trigger] is_log_entry(log@, r@[i], r@[i + 1]),
            log_nodes_distinct(log@) ==> r@.no_duplicates(),
    {
        let mut out: Vec<u32> = Vec::new();
        out.push(start);
        let mut cur = start;
        let ghost mut bound: int = if start == root {
            -1
        } else {
            choose|k: int| 0 <= k < log@.len() && log@[k].0 == start
        };
        let ghost mut bs: Seq<int> = seq![bound];
        while cur != root
            invariant
                self.log_ok(log@, root, forward),
                cur != root ==> 0 <= bound < log@.len() && log@[bound].0 == cur,
                out@.len() > 0,
                out@[0] == start,
                out@.last() == cur,
                bound >= -1,
                forall|i: int| 0 <= i < out@.len() - 1 ==> #[trigger] self.log_step(out@[i], out@[i + 1], forward),
                forall|i: int| 0 <= i < out@.len() - 1 ==> #[trigger] is_log_entry(log@, out@[i], out@[i + 1]),
                bs.len() == out@.len(),
                bs.last() == bound,
                forall|m: int|
                    0 <= m < out@.len() - 1 ==> 0 <= #[trigger] bs[m] < log@.len() && log@[bs[m]].0 == out@[m],
                forall|m: int| 0 <= m < out@.len() - 1 ==> #[trigger] out@[m] != root,
                forall|a: int, b: int| 0 <= a < b < bs.len() ==> #[trigger] bs[a] > #[trigger] bs[b],
            decreases bound + 1,
        {
            let k = Self::find_first(log, cur, Ghost(bound));
            let next = log[k].1;
            let ghost bs0 = bs;
            proof {
                assert(self.log_step(log@[k as int].0, log@[k as int].1, forward));
                if next != root {
                    assert(log@[k as int].1 == root || exists|j: int| 0 <= j < k && log@[j].0 == log@[k as int].1);
                    bound = choose|j: int| 0 <= j < k && log@[j].0 == next;
                } else {
                    bound = -1;
                }
                bs = bs0.update(bs0.len() - 1, k as int).push(bound);
                assert(log@[k as int].0 != root);
            }
            let ghost before = out@;
            out.push(next);
            proof {
                assert forall|i: int| 0 <= i < out@.len() - 1 implies #[trigger] self.log_step(out@[i], out@[i + 1], forward) by {
                    if i < before.len() - 1 {
                        assert(self.log_step(before[i], before[i + 1], forward));
                    }
                }
                assert forall|i: int| 0 <= i < out@.len() - 1 implies #[trigger] is_log_entry(log@, out@[i], out@[i + 1]) by {
                    if i < before.len() - 1 {
                        assert(is_log_entry(log@, before[i], before[i + 1]));
                    } else {
                        assert(log@[k as int].0 == out@[i] && log@[k as int].1 == out@[i + 1]);
                    }
                }
            }
            proof {
                assert forall|a: int, b: int| 0 <= a < b < bs.len() implies #[trigger] bs[a] > #[trigger] bs[b] by {
                    if b < bs0.len() - 1 {
                        assert(bs0[a] > bs0[b]);
                    } else if b == bs0.len() - 1 {
                        assert(bs0[a] > bs0[b]);
                    } else if a < bs0.len() - 1 {
                        assert(bs0[a] > bs0[bs0.len() - 1]);
                    }
                }
                assert forall|m: int|
                    0 <= m < out@.len() - 1 implies 0 <= #[trigger] bs[m] < log@.len() && log@[bs[m]].0 == out@[m] by {
                    if m < before.len() - 1 {
                        assert(bs[m] == bs0[m]);
                    }
                }
                assert forall|m: int| 0 <= m < out@.len() - 1 implies #[trigger] out@[m] != root by {
                    if m < before.len() - 1 {
                        assert(out@[m] == before[m]);
                    }
                }
            }
            cur = next;
        }
        proof {
            if log_nodes_distinct(log@) {
                assert forall|a: int, b: int| 0 <= a < out@.len() && 0 <= b < out@.len() && a != b implies out@[a] != out@[b] by {
                    let (x, y) = if a < b { (a, b) } else { (b, a) };
                    if y == out@.len() - 1 {
                        assert(out@[x] != root);
                    } else {
                        assert(bs[x] > bs[y]);
                        assert(log@[bs[x]].0 == out@[x] && log@[bs[y]].0 == out@[y]);
                    }
                }
            }
        }
        out
    }

    /// `v` backwards.
    pub(crate) fn reversed(v: &Vec<u32>) -> (r: Vec<u32>)
        ensures
            r@.len() == v@.len(),
            forall|i: int| 0 <= i < v@.len() ==> #[trigger] r@[i] == v@[v@.len() - 1 - i],
    {
        let mut r: Vec<u32> = Vec::new();
        let mut k: usize = v.len();
        while k > 0
            invariant
                k <= v@.len(),
                r@.len() == v@.len() - k,
                forall|i: int| 0 <= i < r@.len() ==> #[trigger] r@[i] == v@[v@.len() - 1 - i],
            decreases k,
        {
            k = k - 1;
            r.push(v[k]);
        }
        r
    }

    /// A shortest path from `from` to `to` by breadth-first search over
    /// children: empty where none was found, `[from]` where the two agree.
    pub fn find_path(&self, from: &str, to: &str) -> (r: Result<NodeVec, GraphInteractionError>)
        requires
            self.wf(),
        ensures
            r is Ok <==> (self.knows(from@) && self.knows(to@)),
            r matches Err(e) ==> (!self.knows(from@) && e.is_node_not_exist(from@)) || (self.knows(
                from@,
            ) && !self.knows(to@) && e.is_node_not_exist(to@)),
            r matches Ok(v) ==> (v@.len() == 0 || exists|p: Seq<u32>|
                self.is_path_from_to(p, self.sym_of(from@), self.sym_of(to@)) && v@ == self.labels_of(
                    p,
                )),
            r matches Ok(v) ==> (from@ == to@ ==> v@ == seq![from@]),
            r matches Ok(v) ==> (v@.len() == 0 <==> !self.reachable(self.sym_of(from@), self.sym_of(to@))),
            r matches Ok(v) ==> forall|q: Seq<u32>|
                #[trigger] self.is_path_from_to(q, self.sym_of(from@), self.sym_of(to@)) ==> v@.len() <= q.len(),
    {
        let f = self.get_internal(from)?;
        let t = self.get_internal(to)?;
        let n = self.children_map.len() as u32;
        if f == t {
            let one = vec![f];
            let r = self.resolve_mul_slice(one.as_slice());
            proof {
                assert(self.is_path_from_to(one@, f, t));
                assert(r@ =~= seq![from@]);
            }
            return Ok(r);
        }
        let mut queue: VecDeque<u32> = VecDeque::new();
        let mut visited = SymSet::new();
        let mut log: Vec<(u32, u32)> = Vec::new();
        queue.push_back(f);
        visited.insert(f);
        let ghost mut dist: Map<u32, nat> = Map::empty().insert(f, 0nat);
        proof {
            lemma_bounded_set(visited@, n);
            assert(queue@[0] == f);
            assert(queue@.contains(f));
            assert forall|x: u32| visited@.contains(x) implies x == f by {}
        }
        let mut found = false;
        while !found && queue.len() > 0
            invariant
                self.wf(),
                n == self.n(),
                f < n,
                t < n,
                f != t,
                visited@.contains(f),
                forall|x: u32| #[trigger] visited@.contains(x) ==> x < n,
                visited@.finite(),
                visited@.len() <= n,
                self.log_ok(log@, f, true),
                forall|k: int| 0 <= k < log@.len() ==> #[trigger] log@[k].0 < n,
                forall|q: int|
                    0 <= q < queue@.len() ==> (#[trigger] queue@[q] == f || exists|k: int|
                        0 <= k < log@.len() && log@[k].0 == queue@[q]),
                forall|q: int| 0 <= q < queue@.len() ==> #[trigger] queue@[q] < n,
                found ==> exists|k: int| 0 <= k < log@.len() && log@[k].0 == t,
                !found ==> !visited@.contains(t),
                !found ==> forall|x: u32, c: u32|
                    #[trigger] visited@.contains(x) && #[trigger] self.has_edge(x, c) ==> visited@.contains(c)
                        || queue@.contains(x),
                forall|q: int| 0 <= q < queue@.len() ==> visited@.contains(#[trigger] queue@[q]),
                forall|x: u32| #[trigger] visited@.contains(x) ==> dist.contains_key(x),
                dist.contains_key(f),
                dist[f] == 0,
                forall|k: int| 0 <= k < log@.len() ==> dist[(#[trigger] log@[k]).0] == dist[log@[k].1] + 1,
                forall|k: int| 0 <= k < log@.len() ==> visited@.contains((#[trigger] log@[k]).0) && visited@.contains(log@[k].1),
                forall|v: u32, p: Seq<u32>|
                    #[trigger] visited@.contains(v) && #[trigger] self.is_path_from_to(p, f, v) ==> p.len()
                        >= dist[v] + 1,
                queue_levels(queue@, dist),
                found ==> visited@.contains(t),
            decreases n - visited@.len(), queue@.len(),
        {
            let ghost q_before = queue@;
            let current = queue.pop_front().unwrap();
            let ghost q_after = queue@;
            proof {
                assert forall|x: u32| q_before.contains(x) && x != current implies q_after.contains(x) by {
                    let k = choose|k: int| 0 <= k < q_before.len() && q_before[k] == x;
                    assert(k != 0);
                    assert(q_after[k - 1] == x);
                }
                assert(visited@.contains(q_before[0]));
                assert forall|q: int| 0 <= q < queue@.len() implies visited@.contains(#[trigger] queue@[q]) by {
                    assert(queue@[q] == q_before[q + 1]);
                }
                assert forall|i1: int, j1: int|
                    0 <= i1 <= j1 < queue@.len() implies #[trigger] dist[queue@[i1]] <= #[trigger] dist[queue@[j1]] by {
                    assert(queue@[i1] == q_before[i1 + 1] && queue@[j1] == q_before[j1 + 1]);
                    assert(dist[q_before[i1 + 1]] <= dist[q_before[j1 + 1]]);
                }
                assert forall|q: int|
                    0 <= q < queue@.len() implies dist[current] <= #[trigger] dist[queue@[q]] <= dist[current] + 1 by {
                    assert(queue@[q] == q_before[q + 1]);
                    assert(dist[q_before[0]] <= dist[q_before[q + 1]]);
                    assert(dist[q_before[q + 1]] <= dist[q_before[q_before.len() - 1]]);
                }
            }
            let kids = self.children_map.members_vec(current);
            let mut i: usize = 0;
            let ghost size0 = visited@.len();
            let ghost qlen0 = queue@.len();
            while i < kids.len() && !found
                invariant
                    self.wf(),
                    n == self.n(),
                    f < n,
                    t < n,
                    f != t,
                    current < n,
                    current == f || exists|k: int| 0 <= k < log@.len() && log@[k].0 == current,
                    kids@.to_set() == self.children_map@[current as int].members(),
                    i <= kids@.len(),
                    visited@.contains(f),
                    forall|x: u32| #[trigger] visited@.contains(x) ==> x < n,
                    visited@.finite(),
                    visited@.len() <= n,
                    visited@.len() >= size0,
                    visited@.len() == size0 ==> queue@.len() == qlen0,
                    self.log_ok(log@, f, true),
                    forall|k: int| 0 <= k < log@.len() ==> #[trigger] log@[k].0 < n,
                    forall|q: int|
                        0 <= q < queue@.len() ==> (#[trigger] queue@[q] == f || exists|k: int|
                            0 <= k < log@.len() && log@[k].0 == queue@[q]),
                    forall|q: int| 0 <= q < queue@.len() ==> #[trigger] queue@[q] < n,
                    forall|q: int| 0 <= q < queue@.len() ==> visited@.contains(#[trigger] queue@[q]),
                    found ==> exists|k: int| 0 <= k < log@.len() && log@[k].0 == t,
                    found ==> visited@.len() > size0,
                    !found ==> !visited@.contains(t),
                    visited@.contains(current),
                    forall|x: u32| q_after.contains(x) ==> queue@.contains(x),
                    !found ==> forall|x: u32, c: u32|
                        #[trigger] visited@.contains(x) && #[trigger] self.has_edge(x, c) ==> visited@.contains(c)
                            || queue@.contains(x) || x == current,
                    !found ==> forall|k: int| 0 <= k < i ==> visited@.contains(#[trigger] kids@[k]),
                    forall|x: u32| #[trigger] visited@.contains(x) ==> dist.contains_key(x),
                    dist.contains_key(f),
                    dist[f] == 0,
                    dist.contains_key(current),
                    forall|k: int| 0 <= k < log@.len() ==> dist[(#[trigger] log@[k]).0] == dist[log@[k].1] + 1,
                    forall|k: int| 0 <= k < log@.len() ==> visited@.contains((#[trigger] log@[k]).0) && visited@.contains(log@[k].1),
                    visited@.contains(current),
                    forall|v: u32, p: Seq<u32>|
                        #[trigger] visited@.contains(v) && #[trigger] self.is_path_from_to(p, f, v) ==> p.len()
                            >= dist[v] + 1,
                    forall|i1: int, j1: int|
                        0 <= i1 <= j1 < queue@.len() ==> #[trigger] dist[queue@[i1]] <= #[trigger] dist[queue@[j1]],
                    forall|q: int|
                        0 <= q < queue@.len() ==> dist[current] <= #[trigger] dist[queue@[q]] <= dist[current] + 1,
                    found ==> visited@.contains(t),
                decreases kids.len() - i,
            {
                let child = kids[i];
                proof {
                    assert(kids@.to_set().contains(child));
                    assert(self.children_of(current).contains(child));
                }
                let ghost v_old = visited@;
                let ghost q_old = queue@;
                let ghost log_pre = log@;
                let ghost dist0 = dist;
                if visited.insert(child) {
                    proof {
                        assert forall|p: Seq<u32>| #[trigger] self.is_path_from_to(p, f, child) implies p.len()
                            >= dist0[current] + 2 by {
                            if p.len() < dist0[current] + 2 {
                                assert(p.len() >= 2) by {
                                    if p.len() == 1 {
                                        assert(v_old.contains(f));
                                    }
                                }
                                let pre = p.drop_last();
                                let w = pre.last();
                                assert(self.is_path_from_to(pre, f, w)) by {
                                    assert forall|i: int| 0 <= i < pre.len() - 1 implies #[trigger] self.has_edge(pre[i], pre[i + 1]) by {
                                        assert(self.has_edge(p[i], p[i + 1]));
                                    }
                                }
                                self.lemma_short_paths_expanded(f, current, v_old, q_old, dist0, pre, w);
                                assert(self.has_edge(p[p.len() - 2], p[p.len() - 2 + 1]));
                                assert(v_old.contains(w) && self.has_edge(w, child));
                            }
                        }
                        dist = dist0.insert(child, (dist0[current] + 1) as nat);
                    }
                    let ghost log0 = log@;
                    log.push((child, current));
                    proof {
                        lemma_bounded_set(visited@, n);
                        assert(self.log_step(child, current, true));
                        assert forall|k: int| 0 <= k < log@.len() implies (#[trigger] log@[k].1 == f
                            || exists|j: int| 0 <= j < k && log@[j].0 == log@[k].1) by {
                            if k < log0.len() {
                                assert(log0[k].1 == f || exists|j: int| 0 <= j < k && log0[j].0 == log0[k].1);
                                if log0[k].1 != f {
                                    let j = choose|j: int| 0 <= j < k && log0[j].0 == log0[k].1;
                                    assert(log@[j].0 == log@[k].1);
                                }
                            } else if current != f {
                                let j = choose|j: int| 0 <= j < log0.len() && log0[j].0 == current;
                                assert(log@[j].0 == log@[k].1);
                            }
                        }
                        assert forall|k: int| 0 <= k < log@.len() implies #[trigger] self.log_step(log@[k].0, log@[k].1, true) by {
                            if k < log0.len() {
                                assert(self.log_step(log0[k].0, log0[k].1, true));
                            }
                        }
                        assert forall|k: int| 0 <= k < log@.len() implies #[trigger] log@[k].0 != f by {
                            if k < log0.len() {
                                assert(log0[k].0 != f);
                            }
                        }
                        assert(log@[log0.len() as int].0 == child);
                        assert forall|q: int| 0 <= q < queue@.len() implies (#[trigger] queue@[q] == f
                            || exists|k: int| 0 <= k < log@.len() && log@[k].0 == queue@[q]) by {
                            if queue@[q] != f {
                                let k = choose|k: int| 0 <= k < log0.len() && log0[k].0 == queue@[q];
                                assert(log@[k].0 == queue@[q]);
                            }
                        }
                        if current != f {
                            let j = choose|j: int| 0 <= j < log0.len() && log0[j].0 == current;
                            assert(log@[j].0 == current);
                        }
                    }
                    if child == t {
                        found = true;
                    } else {
                        let ghost qq = queue@;
                        queue.push_back(child);
                        proof {
                            assert forall|q: int| 0 <= q < queue@.len() implies (#[trigger] queue@[q] == f
                                || exists|k: int| 0 <= k < log@.len() && log@[k].0 == queue@[q]) by {
                                if q < qq.len() {
                                    assert(qq[q] == f || exists|k: int| 0 <= k < log@.len() && log@[k].0 == qq[q]);
                                } else {
                                    assert(log@[log@.len() - 1].0 == queue@[q]);
                                }
                            }
                            assert(queue@[queue@.len() - 1] == child);
                        }
                    }
                }
                proof {
                    assert forall|x: u32| q_old.contains(x) implies queue@.contains(x) by {
                        let k = choose|k: int| 0 <= k < q_old.len() && q_old[k] == x;
                        assert(queue@[k] == x);
                    }
                    assert forall|x: u32| #[trigger] visited@.contains(x) implies dist.contains_key(x) by {
                        if x != child {
                            assert(v_old.contains(x));
                        }
                    }
                    assert forall|k: int| 0 <= k < log@.len() implies dist[(#[trigger] log@[k]).0] == dist[log@[k].1] + 1 by {
                        if k < log_pre.len() {
                            assert(log@[k] == log_pre[k]);
                            assert(v_old.contains(log_pre[k].0) && v_old.contains(log_pre[k].1));
                            assert(dist0[log_pre[k].0] == dist0[log_pre[k].1] + 1);
                        } else {
                            assert(log@[k] == (child, current));
                            assert(v_old.contains(current));
                        }
                    }
                    assert forall|k: int| 0 <= k < log@.len() implies visited@.contains((#[trigger] log@[k]).0)
                        && visited@.contains(log@[k].1) by {
                        if k < log_pre.len() {
                            assert(log@[k] == log_pre[k]);
                        }
                    }
                    assert forall|v: u32, p: Seq<u32>|
                        #[trigger] visited@.contains(v) && #[trigger] self.is_path_from_to(p, f, v) implies p.len()
                            >= dist[v] + 1 by {
                        if v != child || v_old.contains(v) {
                            assert(v_old.contains(v));
                        }
                    }
                    assert forall|i1: int, j1: int|
                        0 <= i1 <= j1 < queue@.len() implies #[trigger] dist[queue@[i1]] <= #[trigger] dist[queue@[j1]] by {
                        if j1 < q_old.len() {
                            assert(queue@[i1] == q_old[i1] && queue@[j1] == q_old[j1]);
                        } else if i1 < q_old.len() {
                            assert(queue@[i1] == q_old[i1]);
                        }
                    }
                    assert forall|q: int|
                        0 <= q < queue@.len() implies dist[current] <= #[trigger] dist[queue@[q]] <= dist[current] + 1 by {
                        if q < q_old.len() {
                            assert(queue@[q] == q_old[q]);
                        }
                    }
                    assert forall|q: int| 0 <= q < queue@.len() implies visited@.contains(#[trigger] queue@[q]) by {
                        if q < q_old.len() {
                            assert(queue@[q] == q_old[q]);
                        }
                    }
                    if !found {
                        assert forall|x: u32, c: u32|
                            #[trigger] visited@.contains(x) && #[trigger] self.has_edge(x, c) implies visited@.contains(c)
                                || queue@.contains(x) || x == current by {
                            if x == child && !v_old.contains(child) {
                                assert(queue@.contains(child));
                            } else {
                                assert(v_old.contains(x));
                                if !v_old.contains(c) && !(x == current) {
                                    assert(q_old.contains(x));
                                }
                            }
                        }
                        assert forall|k: int| 0 <= k < i + 1 implies visited@.contains(#[trigger] kids@[k]) by {
                            if k < i {
                                assert(v_old.contains(kids@[k]));
                            }
                        }
                    }
                }
                i = i + 1;
            }
            proof {
                if !found {
                    assert forall|c: u32| #[trigger] self.has_edge(current, c) implies visited@.contains(c) by {
                        assert(self.children_of(current).contains(c));
                        assert(kids@.to_set().contains(c));
                        let k = choose|k: int| 0 <= k < kids@.len() && kids@[k] == c;
                    }
                }
            }
        }
        if found {
            let back = self.walk_log(&log, f, t, Ghost(true));
            let path = Self::reversed(&back);
            proof {
                assert forall|i: int| 0 <= i < back@.len() implies #[trigger] back@[i] < n by {
                    if i > 0 {
                        let j = i - 1;
                        assert(self.log_step(back@[j], back@[j + 1], true));
                        assert(self.children_of(back@[i]).contains(back@[j]));
                    }
                }
                assert forall|i: int| 0 <= i < path@.len() - 1 implies #[trigger] self.has_edge(path@[i], path@[i + 1]) by {
                    let j = back@.len() - 2 - i;
                    assert(self.log_step(back@[j], back@[j + 1], true));
                    assert(path@[i] == back@[back@.len() - 1 - i]);
                    assert(path@[i + 1] == back@[back@.len() - 1 - (i + 1)]);
                }
                assert(self.is_path_from_to(path@, f, t));
                assert forall|i: int| 0 <= i < path@.len() implies path@[i] < self.labels().len() by {
                    assert(path@[i] == back@[back@.len() - 1 - i]);
                }
                lemma_log_chain_len(log@, dist, back@, back@.len() - 1);
                assert forall|q: Seq<u32>| #[trigger] self.is_path_from_to(q, f, t) implies path@.len() <= q.len() by {
                    assert(visited@.contains(t));
                }
            }
            Ok(self.resolve_mul_slice(path.as_slice()))
        } else {
            proof {
                assert forall|a: u32, b: u32| visited@.contains(a) && #[trigger] self.dir_edge(true, a, b) implies visited@.contains(b) by {
                    assert(self.has_edge(a, b));
                }
                if self.reachable(f, t) {
                    self.lemma_closed_holds_reached(true, visited@, f, t);
                }
            }
            let empty: Vec<u32> = Vec::new();
            Ok(self.resolve_mul_slice(empty.as_slice()))
        }
    }

    /// `p` is a path from `a` to `b` that visits no node twice.
    pub open(crate) spec fn is_simple_path(&self, p: Seq<u32>, a: u32, b: u32) -> bool {
        self.is_path_from_to(p, a, b) && p.no_duplicates()
    }

    /// `v` holds the labels of a simple path from `a` to `b`.
    pub open(crate) spec fn labels_of_simple_path(&self, v: Seq<Seq<char>>, a: u32, b: u32) -> bool {
        exists|p: Seq<u32>| self.is_simple_path(p, a, b) && v == self.labels_of(p)
    }

    /// Whether `v` holds `x`, by a scan.
    fn vec_contains(v: &Vec<u32>, x: u32) -> (r: bool)
        ensures
            r == v@.contains(x),
    {
        let mut i: usize = 0;
        while i < v.len()
            invariant
                i <= v@.len(),
                forall|j: int| 0 <= j < i ==> v@[j] != x,
            decreases v.len() - i,
        {
            if v[i] == x {
                return true;
            }
            i = i + 1;
        }
        false
    }

    /// `v` with `x` appended.
    fn extended(v: &Vec<u32>, x: u32) -> (r: Vec<u32>)
        ensures
            r@ == v@.push(x),
    {
        let mut r = v.clone();
        proof {
            assert(r@ =~= v@);
        }
        r.push(x);
        r
    }

    /// No element but the last is `t`.
    pub open(crate) spec fn avoids_before_end(q: Seq<u32>, t: u32) -> bool {
        forall|i: int| 0 <= i < q.len() - 1 ==> q[i] != t
    }

    /// Without its last node, `q` is one of the first `j` entries of `fr`.
    pub open(crate) spec fn from_earlier(q: Seq<u32>, fr: Seq<Vec<u32>>, j: int) -> bool {
        exists|jj: int| 0 <= jj < j && q.drop_last() == fr[jj]@
    }

    /// Some entry of `next` is `p` followed by `c`.
    pub open(crate) spec fn extended_in(next: Seq<Vec<u32>>, p: Seq<u32>, c: u32) -> bool {
        exists|k: int| 0 <= k < next.len() && next[k]@ == p.push(c)
    }

    /// `q` is a simple path from `f` of `len` nodes that meets `t` at most at its end.
    pub open(crate) spec fn is_candidate(&self, q: Seq<u32>, f: u32, t: u32, len: int) -> bool {
        &&& self.is_simple_path(q, f, q.last())
        &&& q.len() == len
        &&& Self::avoids_before_end(q, t)
    }

    /// Every node of a path from a symbol is a symbol.
    pub(crate) proof fn lemma_path_below_n(&self, q: Seq<u32>, a: u32, b: u32)
        requires
            self.wf(),
            self.is_path_from_to(q, a, b),
            a < self.n(),
        ensures
            forall|i: int| 0 <= i < q.len() ==> #[trigger] q[i] < self.n(),
    {
        assert forall|i: int| 0 <= i < q.len() implies #[trigger] q[i] < self.n() by {
            if i > 0 {
                assert(self.has_edge(q[i - 1], q[i - 1 + 1]));
            }
        }
    }

    /// Distinct symbols have distinct labels, so the labels of a path give the path.
    pub(crate) proof fn lemma_labels_of_injective(&self, p: Seq<u32>, q: Seq<u32>)
        requires
            self.wf(),
            forall|i: int| 0 <= i < p.len() ==> #[trigger] p[i] < self.n(),
            forall|i: int| 0 <= i < q.len() ==> #[trigger] q[i] < self.n(),
            self.labels_of(p) == self.labels_of(q),
        ensures
            p == q,
    {
        assert(p.len() == self.labels_of(p).len());
        assert(q.len() == self.labels_of(q).len());
        assert forall|i: int| 0 <= i < p.len() implies p[i] == q[i] by {
            assert(self.labels_of(p)[i] == self.labels_of(q)[i]);
            self.lemma_sym_of(p[i]);
            self.lemma_sym_of(q[i]);
        }
        assert(p =~= q);
    }

    /// A path that visits no node twice has at most as many nodes as there are symbols.
    pub(crate) proof fn lemma_simple_path_len(&self, q: Seq<u32>, a: u32, b: u32)
        requires
            self.wf(),
            self.is_simple_path(q, a, b),
            a < self.n(),
        ensures
            q.len() <= self.n(),
    {
        assert forall|x: u32| #[trigger] q.to_set().contains(x) implies x < self.n() as u32 by {
            let i = choose|i: int| 0 <= i < q.len() && q[i] == x;
            if i > 0 {
                assert(self.has_edge(q[i - 1], q[i - 1 + 1]));
            }
        }
        assert(self.n() < 0xFFFF_FFFFu32) by {
            assert(self.interner.strs@.len() < 0xFFFF_FFFFu32);
        }
        q.unique_seq_to_set();
        crate::sym_set::lemma_bounded_set(q.to_set(), self.n() as u32);
    }

    /// The first `k` nodes of a simple path from `f` that ends at `t` form a
    /// candidate.
    proof fn lemma_prefix_candidate(&self, q: Seq<u32>, f: u32, t: u32, k: int)
        requires
            self.is_simple_path(q, f, t),
            1 <= k <= q.len(),
        ensures
            self.is_candidate(q.subrange(0, k), f, t, k),
    {
        let pre = q.subrange(0, k);
        assert forall|i: int| 0 <= i < pre.len() - 1 implies #[trigger] self.has_edge(pre[i], pre[i + 1]) by {
            assert(self.has_edge(q[i], q[i + 1]));
        }
        assert forall|i: int| 0 <= i < pre.len() - 1 implies pre[i] != t by {
            assert(q[i] != q[q.len() - 1]);
        }
    }

    /// A candidate without its last node is a candidate one shorter.
    proof fn lemma_candidate_drop_last(&self, q: Seq<u32>, f: u32, t: u32, len: int)
        requires
            self.is_candidate(q, f, t, len),
            len >= 2,
        ensures
            self.is_candidate(q.drop_last(), f, t, len - 1),
            q.drop_last().last() != t,
            self.has_edge(q.drop_last().last(), q.last()),
            !q.drop_last().contains(q.last()),
            q.drop_last().push(q.last()) == q,
    {
        let pre = q.drop_last();
        assert forall|i: int| 0 <= i < pre.len() - 1 implies #[trigger] self.has_edge(pre[i], pre[i + 1]) by {
            assert(self.has_edge(q[i], q[i + 1]));
        }
        assert(self.has_edge(q[len - 2], q[len - 2 + 1]));
        if pre.contains(q.last()) {
            let i = choose|i: int| 0 <= i < pre.len() && pre[i] == q.last();
            assert(q[i] == q[len - 1]);
        }
        assert(pre.push(q.last()) =~= q);
    }

    /// Every path from `from` to `to` that visits no node twice, found
    /// breadth first: shorter paths come first.
    pub fn find_all_paths(&self, from: &str, to: &str) -> (r: Result<
        Vec<NodeVec>,
        GraphInteractionError,
    >)
        requires
            self.wf(),
        ensures
            r is Ok <==> (self.knows(from@) && self.knows(to@)),
            r matches Err(e) ==> (!self.knows(from@) && e.is_node_not_exist(from@)) || (self.knows(
                from@,
            ) && !self.knows(to@) && e.is_node_not_exist(to@)),
            r matches Ok(v) ==> forall|i: int|
                0 <= i < v@.len() ==> #[trigger] self.labels_of_simple_path(
                    v@[i]@,
                    self.sym_of(from@),
                    self.sym_of(to@),
                ),
            r matches Ok(v) ==> forall|q: Seq<u32>|
                #[trigger] self.is_simple_path(q, self.sym_of(from@), self.sym_of(to@)) ==> lists_labels(
                    v@,
                    self.labels_of(q),
                ),
            r matches Ok(v) ==> forall|a: int, b: int|
                0 <= a < b < v@.len() ==> #[trigger] v@[a]@ != #[trigger] v@[b]@,
    {
        let f = self.get_internal(from)?;
        let t = self.get_internal(to)?;
        let n = self.children_map.len();
        let mut results: Vec<NodeVec> = Vec::new();
        let ghost mut found: Seq<Seq<u32>> = Seq::empty();
        let mut frontier: Vec<Vec<u32>> = Vec::new();
        let start = vec![f];
        proof {
            assert(self.is_simple_path(start@, f, f));
        }
        frontier.push(start);
        proof {
            assert forall|q: Seq<u32>| #[trigger] self.is_candidate(q, f, t, 1) implies exists|j: int|
                0 <= j < frontier@.len() && frontier@[j]@ == q by {
                assert(q =~= seq![f]);
                assert(frontier@[0]@ == q);
            }
        }
        let mut depth: usize = 0;
        while frontier.len() > 0 && depth <= n
            invariant
                self.wf(),
                n == self.n(),
                f < n,
                t < n,
                f == self.sym_of(from@),
                t == self.sym_of(to@),
                depth <= n + 1,
                forall|j: int|
                    0 <= j < frontier@.len() ==> #[trigger] self.is_simple_path(
                        frontier@[j]@,
                        f,
                        frontier@[j]@.last(),
                    ),
                forall|q: Seq<u32>| #[trigger] self.is_candidate(q, f, t, depth + 1) ==> exists|j: int|
                    0 <= j < frontier@.len() && frontier@[j]@ == q,
                results@.len() == found.len(),
                forall|i: int| 0 <= i < found.len() ==> #[trigger] self.is_simple_path(found[i], f, t),
                forall|i: int| 0 <= i < found.len() ==> #[trigger] results@[i]@ == self.labels_of(found[i]),
                forall|q: Seq<u32>|
                    #[trigger] self.is_simple_path(q, f, t) && q.len() <= depth ==> exists|i: int|
                        0 <= i < found.len() && found[i] == q,
                forall|a: int, b: int|
                    0 <= a < b < frontier@.len() ==> #[trigger] frontier@[a]@ != #[trigger] frontier@[b]@,
                forall|a: int| 0 <= a < frontier@.len() ==> (#[trigger] frontier@[a]@).len() == depth + 1,
                found.no_duplicates(),
                forall|i: int| 0 <= i < found.len() ==> (#[trigger] found[i]).len() <= depth,
            decreases n + 1 - depth,
        {
            let mut next: Vec<Vec<u32>> = Vec::new();
            let ghost found0 = found;
            let mut j: usize = 0;
            while j < frontier.len()
                invariant
                    self.wf(),
                    n == self.n(),
                    f < n,
                    t < n,
                    j <= frontier@.len(),
                    forall|j: int|
                        0 <= j < frontier@.len() ==> #[trigger] self.is_simple_path(
                            frontier@[j]@,
                            f,
                            frontier@[j]@.last(),
                        ),
                    forall|j: int|
                        0 <= j < next@.len() ==> #[trigger] self.is_simple_path(
                            next@[j]@,
                            f,
                            next@[j]@.last(),
                        ),
                    results@.len() == found.len(),
                    found.len() >= found0.len(),
                    forall|i: int| 0 <= i < found0.len() ==> #[trigger] found[i] == found0[i],
                    forall|i: int| 0 <= i < found.len() ==> #[trigger] self.is_simple_path(found[i], f, t),
                    forall|i: int| 0 <= i < found.len() ==> #[trigger] results@[i]@ == self.labels_of(found[i]),
                    forall|jj: int, c: u32|
                        0 <= jj < j && frontier@[jj]@.last() != t && #[trigger] self.has_edge(
                            frontier@[jj]@.last(),
                            c,
                        ) && !frontier@[jj]@.contains(c) ==> Self::extended_in(next@, frontier@[jj]@, c),
                    forall|jj: int|
                        0 <= jj < j && #[trigger] frontier@[jj]@.last() == t ==> exists|i: int|
                            0 <= i < found.len() && found[i] == frontier@[jj]@,
                    forall|a: int, b: int|
                        0 <= a < b < frontier@.len() ==> #[trigger] frontier@[a]@ != #[trigger] frontier@[b]@,
                    forall|a: int| 0 <= a < frontier@.len() ==> (#[trigger] frontier@[a]@).len() == depth + 1,
                    found.no_duplicates(),
                    forall|i: int| 0 <= i < found0.len() ==> (#[trigger] found0[i]).len() <= depth,
                    forall|i: int|
                        found0.len() <= i < found.len() ==> exists|jj: int|
                            0 <= jj < j && #[trigger] found[i] == frontier@[jj]@,
                    forall|m: int| 0 <= m < next@.len() ==> Self::from_earlier(#[trigger] next@[m]@, frontier@, j as int),
                    forall|m: int| 0 <= m < next@.len() ==> (#[trigger] next@[m]@).len() == depth + 2,
                    forall|a: int, b: int|
                        0 <= a < b < next@.len() ==> #[trigger] next@[a]@ != #[trigger] next@[b]@,
                decreases frontier.len() - j,
            {
                let p = &frontier[j];
                proof {
                    assert(self.is_simple_path(frontier@[j as int]@, f, frontier@[j as int]@.last()));
                }
                let last = p[p.len() - 1];
                proof {
                    assert forall|k: int| 0 <= k < p@.len() implies p@[k] < n by {
                        if k < p@.len() - 1 {
                            assert(self.has_edge(p@[k], p@[k + 1]));
                        } else if k > 0 {
                            assert(self.has_edge(p@[k - 1], p@[k - 1 + 1]));
                        }
                    }
                }
                let ghost next0 = next@;
                if last == t {
                    let labels = self.resolve_mul_slice(p.as_slice());
                    results.push(labels);
                    proof {
                        let f1 = found;
                        found = found.push(p@);
                        assert forall|i: int| 0 <= i < found0.len() implies #[trigger] found[i] == found0[i] by {
                            assert(found[i] == f1[i]);
                        }
                        assert forall|i: int| 0 <= i < found.len() implies #[trigger] results@[i]@ == self.labels_of(found[i]) by {
                            if i < f1.len() {
                                assert(found[i] == f1[i]);
                            }
                        }
                        assert forall|jj: int|
                            0 <= jj < j + 1 && #[trigger] frontier@[jj]@.last() == t implies exists|i: int|
                                0 <= i < found.len() && found[i] == frontier@[jj]@ by {
                            if jj < j {
                                let i = choose|i: int| 0 <= i < f1.len() && f1[i] == frontier@[jj]@;
                                assert(found[i] == f1[i]);
                            } else {
                                assert(found[found.len() - 1] == frontier@[jj]@);
                            }
                        }
                        assert(found.no_duplicates()) by {
                            assert forall|a: int, b: int|
                                0 <= a < found.len() && 0 <= b < found.len() && a != b implies found[a] != found[b] by {
                                if a < f1.len() && b < f1.len() {
                                    assert(found[a] == f1[a] && found[b] == f1[b]);
                                } else {
                                    let (o, x) = if a < f1.len() { (a, b) } else { (b, a) };
                                    if o < f1.len() {
                                        assert(found[o] == f1[o]);
                                        if o < found0.len() {
                                            assert(f1[o] == found0[o]);
                                            assert(found0[o].len() <= depth);
                                            assert(frontier@[j as int]@.len() == depth + 1);
                                        } else {
                                            let jj = choose|jj: int| 0 <= jj < j && #[trigger] f1[o] == frontier@[jj]@;
                                            assert(frontier@[jj]@ != frontier@[j as int]@);
                                        }
                                    }
                                }
                            }
                        }
                        assert forall|i: int|
                            found0.len() <= i < found.len() implies exists|jj: int|
                                0 <= jj < j + 1 && #[trigger] found[i] == frontier@[jj]@ by {
                            if i < f1.len() {
                                let jj = choose|jj: int| 0 <= jj < j && #[trigger] f1[i] == frontier@[jj]@;
                                assert(found[i] == f1[i]);
                            } else {
                                assert(found[i] == frontier@[j as int]@);
                            }
                        }
                    }
                } else {
                    let kids = self.children_map.members_vec(last);
                    let mut k: usize = 0;
                    while k < kids.len()
                        invariant
                            self.wf(),
                            n == self.n(),
                            k <= kids@.len(),
                            kids@.to_set() == self.children_map@[last as int].members(),
                            last < n,
                            *p == frontier@[j as int],
                            self.is_simple_path(p@, f, last),
                            forall|j: int|
                                0 <= j < next@.len() ==> #[trigger] self.is_simple_path(
                                    next@[j]@,
                                    f,
                                    next@[j]@.last(),
                                ),
                            next@.len() >= next0.len(),
                            forall|m: int| 0 <= m < next0.len() ==> #[trigger] next@[m] == next0[m],
                            forall|kk: int|
                                0 <= kk < k && !p@.contains(#[trigger] kids@[kk]) ==> exists|m: int|
                                    0 <= m < next@.len() && next@[m]@ == p@.push(kids@[kk]),
                            kids@.no_duplicates(),
                            p@.len() == depth + 1,
                            j < frontier@.len(),
                            forall|a: int, b: int|
                                0 <= a < b < frontier@.len() ==> #[trigger] frontier@[a]@ != #[trigger] frontier@[b]@,
                            forall|m: int| 0 <= m < next0.len() ==> Self::from_earlier(#[trigger] next0[m]@, frontier@, j as int),
                            forall|m: int|
                                next0.len() <= m < next@.len() ==> (#[trigger] next@[m]@).drop_last() == p@
                                    && exists|kk: int| 0 <= kk < k && next@[m]@.last() == kids@[kk],
                            forall|m: int| 0 <= m < next@.len() ==> (#[trigger] next@[m]@).len() == depth + 2,
                            forall|a: int, b: int|
                                0 <= a < b < next@.len() ==> #[trigger] next@[a]@ != #[trigger] next@[b]@,
                        decreases kids.len() - k,
                    {
                        let child = kids[k];
                        let ghost nx = next@;
                        if !Self::vec_contains(p, child) {
                            let q = Self::extended(p, child);
                            proof {
                                assert(kids@.to_set().contains(child));
                                assert(self.has_edge(last, child));
                                assert forall|i: int| 0 <= i < q@.len() - 1 implies #[trigger] self.has_edge(q@[i], q@[i + 1]) by {
                                    if i < p@.len() - 1 {
                                        assert(self.has_edge(p@[i], p@[i + 1]));
                                    }
                                }
                                assert(q@.no_duplicates()) by {
                                    assert forall|a: int, b: int| 0 <= a < q@.len() && 0 <= b < q@.len() && a != b implies q@[a] != q@[b] by {
                                        if a < p@.len() && b < p@.len() {
                                        } else if a == p@.len() {
                                            assert(p@[b] == q@[b]);
                                        } else {
                                            assert(p@[a] == q@[a]);
                                        }
                                    }
                                }
                                assert(self.is_simple_path(q@, f, q@.last()));
                            }
                            next.push(q);
                        }
                        proof {
                            assert forall|m: int| 0 <= m < next0.len() implies #[trigger] next@[m] == next0[m] by {
                                assert(next@[m] == nx[m]);
                            }
                            if next@.len() > nx.len() {
                                let q = next@[next@.len() - 1]@;
                                assert(q == p@.push(child));
                                assert(q.drop_last() =~= p@);
                                assert(q.last() == kids@[k as int]);
                                assert forall|m: int| 0 <= m < nx.len() implies #[trigger] nx[m]@ != q by {
                                    if m < next0.len() {
                                        assert(nx[m] == next0[m]);
                                        assert(Self::from_earlier(next0[m]@, frontier@, j as int));
                                        let jj = choose|jj: int| 0 <= jj < j && next0[m]@.drop_last() == frontier@[jj]@;
                                        assert(frontier@[jj]@ != frontier@[j as int]@);
                                    } else {
                                        assert(nx[m]@.drop_last() == p@);
                                        let kk = choose|kk: int| 0 <= kk < k && nx[m]@.last() == kids@[kk];
                                        assert(kids@[kk] != kids@[k as int]);
                                    }
                                }
                            }
                            assert forall|m: int|
                                next0.len() <= m < next@.len() implies (#[trigger] next@[m]@).drop_last() == p@
                                    && exists|kk: int| 0 <= kk < k + 1 && next@[m]@.last() == kids@[kk] by {
                                if m < nx.len() {
                                    assert(next@[m] == nx[m]);
                                    let kk = choose|kk: int| 0 <= kk < k && nx[m]@.last() == kids@[kk];
                                } else {
                                    assert(next@[m]@ == p@.push(child));
                                    assert(next@[m]@.drop_last() =~= p@);
                                }
                            }
                            assert forall|m: int| 0 <= m < next@.len() implies (#[trigger] next@[m]@).len() == depth + 2 by {
                                if m < nx.len() {
                                    assert(next@[m] == nx[m]);
                                }
                            }
                            assert forall|a: int, b: int|
                                0 <= a < b < next@.len() implies #[trigger] next@[a]@ != #[trigger] next@[b]@ by {
                                if b < nx.len() {
                                    assert(next@[a] == nx[a] && next@[b] == nx[b]);
                                } else {
                                    assert(next@[a] == nx[a]);
                                }
                            }
                            assert forall|kk: int|
                                0 <= kk < k + 1 && !p@.contains(#[trigger] kids@[kk]) implies exists|m: int|
                                    0 <= m < next@.len() && next@[m]@ == p@.push(kids@[kk]) by {
                                if kk < k {
                                    let m = choose|m: int| 0 <= m < nx.len() && nx[m]@ == p@.push(kids@[kk]);
                                    assert(next@[m] == nx[m]);
                                } else {
                                    assert(next@[next@.len() - 1]@ == p@.push(kids@[kk]));
                                }
                            }
                        }
                        k = k + 1;
                    }
                    proof {
                        assert forall|c: u32|
                            #[trigger] self.has_edge(last, c) && !p@.contains(c) implies exists|m: int|
                                0 <= m < next@.len() && next@[m]@ == p@.push(c) by {
                            assert(self.children_of(last).contains(c));
                            assert(kids@.to_set().contains(c));
                            let kk = choose|kk: int| 0 <= kk < kids@.len() && kids@[kk] == c;
                        }
                    }
                }
                proof {
                    assert forall|m: int| 0 <= m < next@.len() implies Self::from_earlier(#[trigger] next@[m]@, frontier@, j + 1) by {
                        if m < next0.len() {
                            assert(next@[m] == next0[m]);
                            assert(Self::from_earlier(next0[m]@, frontier@, j as int));
                            let jj = choose|jj: int| 0 <= jj < j && next0[m]@.drop_last() == frontier@[jj]@;
                            assert(0 <= jj < j + 1 && next@[m]@.drop_last() == frontier@[jj]@);
                        } else {
                            assert(next@[m]@.drop_last() == frontier@[j as int]@);
                            assert(0 <= j < j + 1 && next@[m]@.drop_last() == frontier@[j as int]@);
                        }
                    }
                    assert forall|jj: int, c: u32|
                        0 <= jj < j + 1 && frontier@[jj]@.last() != t && #[trigger] self.has_edge(
                            frontier@[jj]@.last(),
                            c,
                        ) && !frontier@[jj]@.contains(c) implies Self::extended_in(next@, frontier@[jj]@, c) by {
                        if jj < j {
                            assert(Self::extended_in(next0, frontier@[jj]@, c));
                            let k = choose|k: int| 0 <= k < next0.len() && next0[k]@ == frontier@[jj]@.push(c);
                            assert(next@[k] == next0[k]);
                        } else {
                            assert(frontier@[jj]@ == p@);
                            assert(frontier@[jj]@.last() == last);
                            assert(self.has_edge(last, c));
                        }
                    }
                }
                j = j + 1;
            }
            let ghost fr_old = frontier@;
            let ghost d0 = depth as int;
            frontier = next;
            depth = depth + 1;
            proof {
                assert forall|q: Seq<u32>| #[trigger] self.is_candidate(q, f, t, depth + 1) implies exists|k: int|
                    0 <= k < frontier@.len() && frontier@[k]@ == q by {
                    self.lemma_candidate_drop_last(q, f, t, depth + 1);
                    let pre = q.drop_last();
                    assert(self.is_candidate(pre, f, t, d0 + 1));
                    let jj = choose|jj: int| 0 <= jj < fr_old.len() && fr_old[jj]@ == pre;
                    assert(self.has_edge(fr_old[jj]@.last(), q.last()));
                    assert(Self::extended_in(frontier@, fr_old[jj]@, q.last()));
                }
                assert forall|q: Seq<u32>|
                    #[trigger] self.is_simple_path(q, f, t) && q.len() <= depth implies exists|i: int|
                        0 <= i < found.len() && found[i] == q by {
                    if q.len() <= d0 {
                        let i = choose|i: int| 0 <= i < found0.len() && found0[i] == q;
                        assert(found[i] == found0[i]);
                    } else {
                        self.lemma_prefix_candidate(q, f, t, q.len() as int);
                        assert(q.subrange(0, q.len() as int) =~= q);
                        assert(self.is_candidate(q, f, t, d0 + 1));
                        let jj = choose|jj: int| 0 <= jj < fr_old.len() && fr_old[jj]@ == q;
                        assert(fr_old[jj]@.last() == t);
                    }
                }
            }
        }
        proof {
            assert forall|q: Seq<u32>| #[trigger] self.is_simple_path(q, f, t) implies exists|i: int|
                0 <= i < found.len() && found[i] == q by {
                self.lemma_simple_path_len(q, f, t);
                if q.len() > depth {
                    assert(frontier@.len() == 0);
                    self.lemma_prefix_candidate(q, f, t, depth + 1);
                    let pre = q.subrange(0, depth + 1);
                    assert(self.is_candidate(pre, f, t, depth + 1));
                }
            }
            assert forall|i: int| 0 <= i < results@.len() implies #[trigger] self.labels_of_simple_path(
                results@[i]@,
                f,
                t,
            ) by {
                assert(self.is_simple_path(found[i], f, t));
            }
            assert forall|q: Seq<u32>| #[trigger] self.is_simple_path(q, f, t) implies exists|i: int|
                0 <= i < results@.len() && results@[i]@ == self.labels_of(q) by {
                let i = choose|i: int| 0 <= i < found.len() && found[i] == q;
                assert(results@[i]@ == self.labels_of(found[i]));
            }
            assert forall|q: Seq<u32>|
                #[trigger] self.is_simple_path(q, self.sym_of(from@), self.sym_of(to@)) implies lists_labels(
                    results@,
                    self.labels_of(q),
                ) by {
                assert(self.is_simple_path(q, f, t));
            }
            assert forall|a: int, b: int|
                0 <= a < b < results@.len() implies #[trigger] results@[a]@ != #[trigger] results@[b]@ by {
                assert(found[a] != found[b]);
                assert(self.is_simple_path(found[a], f, t));
                assert(self.is_simple_path(found[b], f, t));
                self.lemma_path_below_n(found[a], f, t);
                self.lemma_path_below_n(found[b], f, t);
                if results@[a]@ == results@[b]@ {
                    self.lemma_labels_of_injective(found[a], found[b]);
                }
            }
        }
        Ok(results)
    }

    /// A path extended by one edge at its end.
    pub(crate) proof fn lemma_path_append(&self, p: Seq<u32>, a: u32, b: u32, c: u32)
        requires
            self.is_path_from_to(p, a, b),
            self.has_edge(b, c),
        ensures
            self.is_path_from_to(p.push(c), a, c),
    {
        let q = p.push(c);
        assert forall|i: int| 0 <= i < q.len() - 1 implies #[trigger] self.has_edge(q[i], q[i + 1]) by {
            if i < p.len() - 1 {
                assert(self.has_edge(p[i], p[i + 1]));
            }
        }
    }

    /// A path extended by one edge at its start.
    pub(crate) proof fn lemma_path_prepend(&self, p: Seq<u32>, a: u32, b: u32, c: u32)
        requires
            self.is_path_from_to(p, a, b),
            self.has_edge(c, a),
        ensures
            self.is_path_from_to(seq![c] + p, c, b),
    {
        let q = seq![c] + p;
        assert forall|i: int| 0 <= i < q.len() - 1 implies #[trigger] self.has_edge(q[i], q[i + 1]) by {
            if i > 0 {
                assert(self.has_edge(p[i - 1], p[i - 1 + 1]));
            }
        }
    }

    /// `x` is reached from `s` following children, or reaches `s` following
    /// parents backwards.
    pub open(crate) spec fn reaches(&self, down: bool, s: u32, x: u32) -> bool {
        if down {
            self.reachable(s, x)
        } else {
            self.reachable(x, s)
        }
    }

    /// One step along the direction: to a child, or to a parent.
    pub open(crate) spec fn dir_edge(&self, down: bool, a: u32, b: u32) -> bool {
        if down {
            self.has_edge(a, b)
        } else {
            self.has_edge(b, a)
        }
    }

    /// Reaching `x` and stepping on from it reaches the next node.
    pub(crate) proof fn lemma_reaches_step(&self, down: bool, s: u32, x: u32, y: u32)
        requires
            self.reaches(down, s, x),
            self.dir_edge(down, x, y),
        ensures
            self.reaches(down, s, y),
    {
        if down {
            let p = choose|p: Seq<u32>| self.is_path_from_to(p, s, x);
            self.lemma_path_append(p, s, x, y);
        } else {
            let p = choose|p: Seq<u32>| self.is_path_from_to(p, x, s);
            self.lemma_path_prepend(p, x, s, y);
        }
    }

    /// Every node reaches itself.
    pub(crate) proof fn lemma_reaches_self(&self, down: bool, s: u32)
        ensures
            self.reaches(down, s, s),
    {
        assert(self.is_path_from_to(seq![s], s, s));
    }

    /// Two paths joined where the first ends and the second starts.
    pub(crate) proof fn lemma_path_concat(&self, p: Seq<u32>, q: Seq<u32>, a: u32, b: u32, c: u32)
        requires
            self.is_path_from_to(p, a, b),
            self.is_path_from_to(q, b, c),
        ensures
            self.is_path_from_to(p + q.subrange(1, q.len() as int), a, c),
    {
        let r = p + q.subrange(1, q.len() as int);
        assert forall|i: int| 0 <= i < r.len() - 1 implies #[trigger] self.has_edge(r[i], r[i + 1]) by {
            if i < p.len() - 1 {
                assert(self.has_edge(p[i], p[i + 1]));
            } else if i == p.len() - 1 {
                assert(r[i] == b);
                assert(q[0] == b);
                assert(self.has_edge(q[0int], q[0int + 1]));
            } else {
                let j = i - p.len() + 1;
                assert(r[i] == q[j]);
                assert(r[i + 1] == q[j + 1]);
                assert(self.has_edge(q[j], q[j + 1]));
            }
        }
        if q.len() == 1 {
            assert(r =~= p);
        }
    }

    /// `a` followed by `b` without its first element.
    fn joined(a: &Vec<u32>, b: &Vec<u32>) -> (r: Vec<u32>)
        requires
            b@.len() > 0,
        ensures
            r@ == a@ + b@.subrange(1, b@.len() as int),
    {
        let mut r = a.clone();
        proof {
            assert(r@ =~= a@);
        }
        let mut i: usize = 1;
        while i < b.len()
            invariant
                1 <= i <= b@.len(),
                r@ == a@ + b@.subrange(1, i as int),
            decreases b.len() - i,
        {
            r.push(b[i]);
            proof {
                assert(a@ + b@.subrange(1, i + 1) =~= (a@ + b@.subrange(1, i as int)).push(b@[i as int]));
            }
            i = i + 1;
        }
        r
    }

    /// Every entry of the cache is a path from `f` to its index.
    pub open(crate) spec fn cache_ok(&self, cache: Seq<Option<Vec<u32>>>, f: u32) -> bool {
        forall|x: int|
            0 <= x < cache.len() ==> (#[trigger] cache[x] matches Some(p) ==> self.is_simple_path(
                p@,
                f,
                x as u32,
            ))
    }

    /// Whether no element of `b` after its first is in `a`.
    fn disjoint_after_first(a: &Vec<u32>, b: &Vec<u32>) -> (r: bool)
        ensures
            r == forall|m: int| 1 <= m < b@.len() ==> !a@.contains(#[trigger] b@[m]),
    {
        let mut m: usize = 1;
        while m < b.len()
            invariant
                1 <= m,
                forall|q: int| 1 <= q < m && q < b@.len() ==> !a@.contains(#[trigger] b@[q]),
            decreases b.len() - m,
        {
            if Self::vec_contains(a, b[m]) {
                return false;
            }
            m = m + 1;
        }
        true
    }

    /// The path of one target: a breadth-first search backwards over parents
    /// from `t` that stops at `f`, or at a node whose path from `f` is cached.
    fn path_to_target(&self, f: u32, t: u32, cache: &Vec<Option<Vec<u32>>>) -> (r: Vec<u32>)
        requires
            self.wf(),
            f < self.n(),
            t < self.n(),
            f != t,
            cache@.len() == self.n(),
            self.cache_ok(cache@, f),
        ensures
            r@.len() == 0 || self.is_simple_path(r@, f, t),
            r@.len() == 0 ==> !self.reachable(f, t),
    {
        let n = self.children_map.len() as u32;
        let mut queue: VecDeque<u32> = VecDeque::new();
        let mut visited = SymSet::new();
        let mut log: Vec<(u32, u32)> = Vec::new();
        queue.push_back(t);
        visited.insert(t);
        proof {
            lemma_bounded_set(visited@, n);
            assert(queue@[0] == t);
            assert(queue@.contains(t));
            assert forall|x: u32| visited@.contains(x) implies x == t by {}
        }
        while queue.len() > 0
            invariant
                self.wf(),
                n == self.n(),
                f < n,
                t < n,
                f != t,
                cache@.len() == n,
                self.cache_ok(cache@, f),
                visited@.contains(t),
                forall|x: u32| #[trigger] visited@.contains(x) ==> x < n,
                visited@.finite(),
                visited@.len() <= n,
                self.log_ok(log@, t, false),
                forall|k: int| 0 <= k < log@.len() ==> #[trigger] log@[k].0 < n,
                forall|q: int|
                    0 <= q < queue@.len() ==> (#[trigger] queue@[q] == t || exists|k: int|
                        0 <= k < log@.len() && log@[k].0 == queue@[q]),
                forall|q: int| 0 <= q < queue@.len() ==> #[trigger] queue@[q] < n,
                log_nodes_distinct(log@),
                forall|k: int| 0 <= k < log@.len() ==> visited@.contains(#[trigger] log@[k].0),
                !visited@.contains(f),
                forall|x: u32, p: u32|
                    #[trigger] visited@.contains(x) && #[trigger] self.has_edge(p, x) ==> visited@.contains(p)
                        || queue@.contains(x),
            decreases n - visited@.len(), queue@.len(),
        {
            let ghost q_before = queue@;
            let current = queue.pop_front().unwrap();
            let ghost q_after = queue@;
            proof {
                assert forall|x: u32| q_before.contains(x) && x != current implies q_after.contains(x) by {
                    let k = choose|k: int| 0 <= k < q_before.len() && q_before[k] == x;
                    assert(k != 0);
                    assert(q_after[k - 1] == x);
                }
            }
            match &cache[current as usize] {
                Some(pre) => {
                    let tail = self.walk_log(&log, t, current, Ghost(false));
                    if Self::disjoint_after_first(pre, &tail) {
                        proof {
                            assert(self.is_simple_path(pre@, f, current));
                            assert forall|i: int| 0 <= i < tail@.len() - 1 implies #[trigger] self.has_edge(tail@[i], tail@[i + 1]) by {
                                assert(self.log_step(tail@[i], tail@[i + 1], false));
                            }
                            self.lemma_path_concat(pre@, tail@, f, current, t);
                            let whole = pre@ + tail@.subrange(1, tail@.len() as int);
                            assert(whole.no_duplicates()) by {
                                assert forall|a: int, b: int| 0 <= a < whole.len() && 0 <= b < whole.len() && a != b implies whole[a] != whole[b] by {
                                    let pl = pre@.len() as int;
                                    if a < pl && b < pl {
                                    } else if a >= pl && b >= pl {
                                        assert(whole[a] == tail@[a - pl + 1] && whole[b] == tail@[b - pl + 1]);
                                    } else if a < pl {
                                        assert(whole[b] == tail@[b - pl + 1]);
                                        assert(!pre@.contains(tail@[b - pl + 1]));
                                    } else {
                                        assert(whole[a] == tail@[a - pl + 1]);
                                        assert(!pre@.contains(tail@[a - pl + 1]));
                                    }
                                }
                            }
                        }
                        return Self::joined(pre, &tail);
                    }
                },
                None => {},
            }
            let parents = self.parent_map.members_vec(current);
            let ghost size0 = visited@.len();
            let ghost qlen0 = queue@.len();
            let mut i: usize = 0;
            while i < parents.len()
                invariant
                    self.wf(),
                    n == self.n(),
                    f < n,
                    t < n,
                    f != t,
                    current < n,
                    current == t || exists|k: int| 0 <= k < log@.len() && log@[k].0 == current,
                    parents@.to_set() == self.parent_map@[current as int].members(),
                    i <= parents@.len(),
                    cache@.len() == n,
                    self.cache_ok(cache@, f),
                    visited@.contains(t),
                    forall|x: u32| #[trigger] visited@.contains(x) ==> x < n,
                    visited@.finite(),
                    visited@.len() <= n,
                    self.log_ok(log@, t, false),
                    forall|k: int| 0 <= k < log@.len() ==> #[trigger] log@[k].0 < n,
                    forall|q: int|
                        0 <= q < queue@.len() ==> (#[trigger] queue@[q] == t || exists|k: int|
                            0 <= k < log@.len() && log@[k].0 == queue@[q]),
                    forall|q: int| 0 <= q < queue@.len() ==> #[trigger] queue@[q] < n,
                    visited@.len() >= size0,
                    visited@.len() == size0 ==> queue@.len() == qlen0,
                    !visited@.contains(f),
                    log_nodes_distinct(log@),
                    forall|k: int| 0 <= k < log@.len() ==> visited@.contains(#[trigger] log@[k].0),
                    forall|x: u32| q_after.contains(x) ==> queue@.contains(x),
                    forall|x: u32, p: u32|
                        #[trigger] visited@.contains(x) && #[trigger] self.has_edge(p, x) ==> visited@.contains(p)
                            || queue@.contains(x) || x == current,
                    forall|k: int| 0 <= k < i ==> visited@.contains(#[trigger] parents@[k]),
                decreases parents.len() - i,
            {
                let parent = parents[i];
                proof {
                    assert(parents@.to_set().contains(parent));
                    assert(self.parents_of(current).contains(parent));
                    assert(self.has_edge(parent, current));
                }
                let ghost v_old = visited@;
                let ghost q_old = queue@;
                if visited.insert(parent) {
                    let ghost log0 = log@;
                    log.push((parent, current));
                    proof {
                        lemma_bounded_set(visited@, n);
                        assert(self.log_step(parent, current, false));
                        assert forall|k: int| 0 <= k < log@.len() implies (#[trigger] log@[k].1 == t
                            || exists|j: int| 0 <= j < k && log@[j].0 == log@[k].1) by {
                            if k < log0.len() {
                                assert(log0[k].1 == t || exists|j: int| 0 <= j < k && log0[j].0 == log0[k].1);
                                if log0[k].1 != t {
                                    let j = choose|j: int| 0 <= j < k && log0[j].0 == log0[k].1;
                                    assert(log@[j].0 == log@[k].1);
                                }
                            } else if current != t {
                                let j = choose|j: int| 0 <= j < log0.len() && log0[j].0 == current;
                                assert(log@[j].0 == log@[k].1);
                            }
                        }
                        assert forall|k: int| 0 <= k < log@.len() implies #[trigger] self.log_step(log@[k].0, log@[k].1, false) by {
                            if k < log0.len() {
                                assert(self.log_step(log0[k].0, log0[k].1, false));
                            }
                        }
                        assert forall|k: int| 0 <= k < log@.len() implies #[trigger] log@[k].0 != t by {
                            if k < log0.len() {
                                assert(log0[k].0 != t);
                            }
                        }
                        assert(log@[log0.len() as int].0 == parent);
                        assert forall|q: int| 0 <= q < queue@.len() implies (#[trigger] queue@[q] == t
                            || exists|k: int| 0 <= k < log@.len() && log@[k].0 == queue@[q]) by {
                            if queue@[q] != t {
                                let k = choose|k: int| 0 <= k < log0.len() && log0[k].0 == queue@[q];
                                assert(log@[k].0 == queue@[q]);
                            }
                        }
                        if current != t {
                            let j = choose|j: int| 0 <= j < log0.len() && log0[j].0 == current;
                            assert(log@[j].0 == current);
                        }
                    }
                    if parent == f {
                        let path = self.walk_log(&log, t, f, Ghost(false));
                        proof {
                            assert forall|k: int| 0 <= k < path@.len() - 1 implies #[trigger] self.has_edge(path@[k], path@[k + 1]) by {
                                assert(self.log_step(path@[k], path@[k + 1], false));
                            }
                        }
                        return path;
                    }
                    let ghost qq = queue@;
                    queue.push_back(parent);
                    proof {
                        assert forall|q: int| 0 <= q < queue@.len() implies (#[trigger] queue@[q] == t
                            || exists|k: int| 0 <= k < log@.len() && log@[k].0 == queue@[q]) by {
                            if q < qq.len() {
                                assert(qq[q] == t || exists|k: int| 0 <= k < log@.len() && log@[k].0 == qq[q]);
                            } else {
                                assert(log@[log@.len() - 1].0 == queue@[q]);
                            }
                        }
                        assert(queue@[queue@.len() - 1] == parent);
                    }
                }
                proof {
                    assert forall|x: u32| q_old.contains(x) implies queue@.contains(x) by {
                        let k = choose|k: int| 0 <= k < q_old.len() && q_old[k] == x;
                        assert(queue@[k] == x);
                    }
                    assert forall|x: u32, p: u32|
                        #[trigger] visited@.contains(x) && #[trigger] self.has_edge(p, x) implies visited@.contains(p)
                            || queue@.contains(x) || x == current by {
                        if x == parent && !v_old.contains(parent) {
                            assert(queue@.contains(parent));
                        } else {
                            assert(v_old.contains(x));
                            if !v_old.contains(p) && !(x == current) {
                                assert(q_old.contains(x));
                            }
                        }
                    }
                    assert forall|k: int| 0 <= k < i + 1 implies visited@.contains(#[trigger] parents@[k]) by {
                        if k < i {
                            assert(v_old.contains(parents@[k]));
                        }
                    }
                }
                i = i + 1;
            }
            proof {
                assert forall|p: u32| #[trigger] self.has_edge(p, current) implies visited@.contains(p) by {
                    assert(self.parents_of(current).contains(p));
                    assert(parents@.to_set().contains(p));
                    let k = choose|k: int| 0 <= k < parents@.len() && parents@[k] == p;
                }
                assert forall|x: u32, p: u32|
                    #[trigger] visited@.contains(x) && #[trigger] self.has_edge(p, x) implies visited@.contains(p)
                        || queue@.contains(x) by {
                    if x != current {
                        if !visited@.contains(p) {
                            assert(queue@.contains(x) || x == current);
                        }
                    }
                }
            }
        }
        proof {
            assert forall|a: u32, b: u32| visited@.contains(a) && #[trigger] self.dir_edge(false, a, b) implies visited@.contains(b) by {
                assert(self.has_edge(b, a));
            }
            if self.reachable(f, t) {
                assert(self.reaches(false, t, f));
                self.lemma_closed_holds_reached(false, visited@, t, f);
            }
        }
        Vec::new()
    }

    /// For each of `to` in turn, a path from `from` to it, or an empty list
    /// where there is none. The search goes backwards from each target and
    /// stops early at a node whose path from `from` an earlier target found.
    pub fn find_path_one_to_many(&self, from: &str, to: &[&str]) -> (r: Result<
        Vec<NodeVec>,
        GraphInteractionError,
    >)
        requires
            self.wf(),
        ensures
            r is Ok <==> (self.knows(from@) && self.all_known(label_list(to@))),
            r matches Err(e) ==> (!self.knows(from@) && e.is_node_not_exist(from@)) || (self.knows(
                from@,
            ) && self.first_unknown_error(label_list(to@), e)),
            r matches Ok(v) ==> v@.len() == to@.len(),
            r matches Ok(v) ==> forall|i: int|
                0 <= i < v@.len() ==> (#[trigger] v@[i]@).len() == 0 || self.labels_of_simple_path(
                    v@[i]@,
                    self.sym_of(from@),
                    self.sym_of(to@[i]@),
                ),
            r matches Ok(v) ==> forall|i: int|
                0 <= i < v@.len() ==> (to@[i]@ == from@ ==> #[trigger] v@[i]@ == seq![from@]),
            r matches Ok(v) ==> forall|i: int|
                0 <= i < v@.len() ==> ((#[trigger] v@[i]@).len() == 0 <==> !self.reachable(
                    self.sym_of(from@),
                    self.sym_of(to@[i]@),
                )),
    {
        let f = self.get_internal(from)?;
        let n = self.children_map.len();
        let mut cache: Vec<Option<Vec<u32>>> = Vec::new();
        let mut k: usize = 0;
        while k < n
            invariant
                k <= n,
                cache@.len() == k,
                forall|x: int| 0 <= x < k ==> #[trigger] cache@[x] is None,
            decreases n - k,
        {
            cache.push(None);
            k = k + 1;
        }
        let ghost ls = label_list(to@);
        let mut out: Vec<NodeVec> = Vec::new();
        let mut i: usize = 0;
        while i < to.len()
            invariant
                self.wf(),
                n == self.n(),
                f < n,
                f == self.sym_of(from@),
                self.knows(from@),
                self.labels()[f as int] == from@,
                ls == label_list(to@),
                i <= to@.len(),
                cache@.len() == n,
                self.cache_ok(cache@, f),
                out@.len() == i,
                forall|j: int| 0 <= j < i ==> #[trigger] self.knows(ls[j]),
                forall|j: int|
                    0 <= j < i ==> (#[trigger] out@[j]@).len() == 0 || self.labels_of_simple_path(
                        out@[j]@,
                        f,
                        self.sym_of(ls[j]),
                    ),
                forall|j: int| 0 <= j < i ==> (ls[j] == from@ ==> #[trigger] out@[j]@ == seq![from@]),
                forall|j: int|
                    0 <= j < i ==> ((#[trigger] out@[j]@).len() == 0 <==> !self.reachable(f, self.sym_of(ls[j]))),
            decreases to.len() - i,
        {
            let t = match self.get_internal(to[i]) {
                Ok(t) => t,
                Err(e) => {
                    proof {
                        assert(!self.knows(ls[i as int]));
                        assert(self.first_unknown_error(ls, e));
                    }
                    return Err(e);
                },
            };
            let path = if f == t {
                let one = vec![f];
                proof {
                    assert(self.is_path_from_to(one@, f, t));
                }
                one
            } else {
                self.path_to_target(f, t, &cache)
            };
            if path.len() > 0 {
                let ghost c0 = cache@;
                let copy = path.clone();
                proof {
                    assert(copy@ =~= path@);
                }
                cache.set(t as usize, Some(copy));
                proof {
                    assert forall|x: int|
                        0 <= x < cache@.len() implies (#[trigger] cache@[x] matches Some(p) ==> self.is_path_from_to(
                            p@,
                            f,
                            x as u32,
                        )) by {
                        if x != t as int {
                            assert(cache@[x] == c0[x]);
                        }
                    }
                }
            }
            proof {
                assert forall|q: int| 0 <= q < path@.len() implies path@[q] < self.labels().len() by {
                    if q < path@.len() - 1 {
                        assert(self.has_edge(path@[q], path@[q + 1]));
                    } else if q > 0 {
                        assert(self.has_edge(path@[q - 1], path@[q - 1 + 1]));
                    }
                }
            }
            let labels = self.resolve_mul_slice(path.as_slice());
            out.push(labels);
            proof {
                if path@.len() > 0 {
                    assert(self.labels_of_simple_path(out@[i as int]@, f, self.sym_of(ls[i as int])));
                }
                if ls[i as int] == from@ {
                    assert(t == f);
                    assert(out@[i as int]@ =~= seq![from@]);
                }
                if path@.len() > 0 {
                    assert(self.is_path_from_to(path@, f, t));
                    assert(self.reachable(f, t));
                }
                assert(out@[i as int]@.len() == path@.len());
            }
            i = i + 1;
        }
        proof {
            assert(ls.subrange(0, ls.len() as int) =~= ls);
            assert forall|j: int| 0 <= j < out@.len() implies (#[trigger] out@[j]@).len() == 0 || self.labels_of_simple_path(
                out@[j]@,
                self.sym_of(from@),
                self.sym_of(to@[j]@),
            ) by {
                assert(ls[j] == to@[j]@);
            }
            assert forall|j: int| 0 <= j < out@.len() implies ((#[trigger] out@[j]@).len() == 0 <==> !self.reachable(
                self.sym_of(from@),
                self.sym_of(to@[j]@),
            )) by {
                assert(ls[j] == to@[j]@);
            }
        }
        Ok(out)
    }
}

} // verus!

verus! {

/// Along a chain of log entries whose ends differ by one level each, the
/// level drops by one per step.
proof fn lemma_log_chain_len(log: Seq<(u32, u32)>, dist: Map<u32, nat>, r: Seq<u32>, i: int)
    requires
        forall|k: int| 0 <= k < log.len() ==> dist[(#[trigger] log[k]).0] == dist[log[k].1] + 1,
        forall|j: int| 0 <= j < r.len() - 1 ==> #[trigger] is_log_entry(log, r[j], r[j + 1]),
        0 <= i < r.len(),
    ensures
        dist[r[i]] + i == dist[r[0]],
    decreases i,
{
    if i > 0 {
        lemma_log_chain_len(log, dist, r, i - 1);
        assert(is_log_entry(log, r[i - 1], r[i - 1 + 1]));
        let k = choose|k: int| 0 <= k < log.len() && log[k].0 == r[i - 1] && log[k].1 == r[i];
        assert(dist[log[k].0] == dist[log[k].1] + 1);
    }
}

impl DirectedGraph {
    /// During the search, a node that a path of at most the current level's
    /// length reaches is visited, no longer queued, and at a lower level.
    proof fn lemma_short_paths_expanded(
        &self,
        f: u32,
        u: u32,
        vis: Set<u32>,
        q: Seq<u32>,
        dist: Map<u32, nat>,
        p: Seq<u32>,
        x: u32,
    )
        requires
            self.is_path_from_to(p, f, x),
            1 <= p.len() <= dist[u],
            vis.contains(f),
            dist[f] == 0,
            forall|v: u32, pp: Seq<u32>|
                #[trigger] vis.contains(v) && #[trigger] self.is_path_from_to(pp, f, v) ==> pp.len()
                    >= dist[v] + 1,
            forall|i: int| 0 <= i < q.len() ==> dist[u] <= #[trigger] dist[q[i]],
            forall|a: u32, c: u32|
                #[trigger] vis.contains(a) && #[trigger] self.has_edge(a, c) ==> vis.contains(c)
                    || q.contains(a) || a == u,
        ensures
            vis.contains(x),
            !q.contains(x),
            x != u,
            dist[x] + 1 <= p.len(),
        decreases p.len(),
    {
        if p.len() == 1 {
            assert(x == f);
        } else {
            let pre = p.drop_last();
            let w = pre.last();
            assert(self.is_path_from_to(pre, f, w)) by {
                assert forall|i: int| 0 <= i < pre.len() - 1 implies #[trigger] self.has_edge(pre[i], pre[i + 1]) by {
                    assert(self.has_edge(p[i], p[i + 1]));
                }
            }
            self.lemma_short_paths_expanded(f, u, vis, q, dist, pre, w);
            assert(self.has_edge(p[p.len() - 2], p[p.len() - 2 + 1]));
            assert(vis.contains(w) && self.has_edge(w, x));
            assert(vis.contains(x));
            assert(self.is_path_from_to(p, f, x));
        }
        if q.contains(x) {
            let i = choose|i: int| 0 <= i < q.len() && q[i] == x;
            assert(dist[u] <= dist[q[i]]);
        }
    }
}

} // verus!
