//! Adjacency slots indexed by symbol, and the sums of their sizes.
use crate::sym_set::SymSet;
use vstd::prelude::*;

verus! {

/// What a slot of a `NodeMap` says of one symbol.
pub enum Slot {
    /// Not a node known to the map.
    Unknown,
    /// A known node without neighbours in this direction.
    Empty,
    /// A known node and its neighbours in this direction.
    Members(Set<u32>),
}

impl Slot {
    /// The neighbours that the slot holds.
    pub open spec fn members(self) -> Set<u32> {
        match self {
            Slot::Members(s) => s,
            _ => Set::empty(),
        }
    }

    pub open spec fn finite(self) -> bool {
        self.members().finite()
    }
}

/// The sum of the neighbour counts of all slots.
pub open spec fn total(s: Seq<Slot>) -> int
    decreases s.len(),
{
    if s.len() == 0 {
        0
    } else {
        total(s.drop_last()) + s.last().members().len()
    }
}

/// Changing one slot changes the sum by the difference of its counts.
pub proof fn lemma_total_update(s: Seq<Slot>, k: int, x: Slot)
    requires
        0 <= k < s.len(),
    ensures
        total(s.update(k, x)) == total(s) - s[k].members().len() + x.members().len(),
    decreases s.len(),
{
    if k == s.len() - 1 {
        assert(s.update(k, x).drop_last() =~= s.drop_last());
    } else {
        lemma_total_update(s.drop_last(), k, x);
        assert(s.update(k, x).drop_last() =~= s.drop_last().update(k, x));
    }
}

/// Where each slot of `a` holds a subset of the slot of `b`, the sum is no larger.
pub proof fn lemma_total_mono(a: Seq<Slot>, b: Seq<Slot>)
    requires
        a.len() == b.len(),
        forall|i: int| 0 <= i < a.len() ==> a[i].members().subset_of(b[i].members()),
        forall|i: int| 0 <= i < b.len() ==> #[trigger] b[i].finite(),
    ensures
        total(a) <= total(b),
    decreases a.len(),
{
    if a.len() > 0 {
        let k = a.len() - 1;
        assert(b[k].finite());
        vstd::set_lib::lemma_len_subset(a[k].members(), b[k].members());
        lemma_total_mono(a.drop_last(), b.drop_last());
    }
}

/// A three-state adjacency slot: not a known node, no neighbours, or a set of them.
pub enum LazySet {
    Initialized(SymSet),
    Uninitialized,
    Empty,
}

impl View for LazySet {
    type V = Slot;

    open spec fn view(&self) -> Slot {
        match self {
            LazySet::Initialized(s) => Slot::Members(s@),
            LazySet::Uninitialized => Slot::Unknown,
            LazySet::Empty => Slot::Empty,
        }
    }
}

impl LazySet {
    /// Adds `v`, turning a slot without a set into one with a set.
    pub fn or_init_insert(&mut self, v: u32) -> (r: bool)
        requires
            old(self)@.finite(),
        ensures
            final(self)@ == Slot::Members(old(self)@.members().insert(v)),
            final(self)@.finite(),
            r == !old(self)@.members().contains(v),
    {
        match self {
            LazySet::Initialized(s) => s.insert(v),
            _ => {
                let mut s = SymSet::new();
                s.insert(v);
                *self = LazySet::Initialized(s);
                true
            },
        }
    }

    pub fn is_initialized(&self) -> (r: bool)
        ensures
            r == (self@ is Members),
    {
        matches!(self, LazySet::Initialized(_))
    }

    pub fn is_empty(&self) -> (r: bool)
        ensures
            r == (self@ is Empty),
    {
        matches!(self, LazySet::Empty)
    }

    pub fn is_uninitialized(&self) -> (r: bool)
        ensures
            r == (self@ is Unknown),
    {
        matches!(self, LazySet::Uninitialized)
    }

    /// The neighbours, each once, in the set's own order.
    pub fn members_vec(&self) -> (r: Vec<u32>)
        ensures
            r@.no_duplicates(),
            r@.to_set() == self@.members(),
    {
        match self {
            LazySet::Initialized(s) => s.to_vec(),
            _ => {
                let r: Vec<u32> = Vec::new();
                proof {
                    assert(r@.to_set() =~= Set::<u32>::empty());
                }
                r
            },
        }
    }

    pub fn duplicate(&self) -> (r: LazySet)
        ensures
            r@ == self@,
    {
        match self {
            LazySet::Initialized(s) => LazySet::Initialized(s.duplicate()),
            LazySet::Uninitialized => LazySet::Uninitialized,
            LazySet::Empty => LazySet::Empty,
        }
    }
}

/// Adjacency slots indexed directly by symbol.
pub struct NodeMap {
    pub(crate) map: Vec<LazySet>,
}

impl View for NodeMap {
    type V = Seq<Slot>;

    open(crate) spec fn view(&self) -> Seq<Slot> {
        self.map@.map_values(|l: LazySet| l@)
    }
}

impl NodeMap {
    /// Every slot holds a finite set.
    pub open spec fn finite(&self) -> bool {
        forall|i: int| 0 <= i < self@.len() ==> #[trigger] self@[i].finite()
    }

    /// A map of `n` slots, none of them a known node.
    pub fn new(n: usize) -> (r: NodeMap)
        ensures
            r@.len() == n,
            forall|i: int| 0 <= i < n ==> r@[i] is Unknown,
            r.finite(),
            total(r@) == 0,
    {
        let mut map: Vec<LazySet> = Vec::new();
        let mut i: usize = 0;
        while i < n
            invariant
                i <= n,
                map@.len() == i,
                forall|j: int| 0 <= j < i ==> map@[j]@ is Unknown,
                total(map@.map_values(|l: LazySet| l@)) == 0,
            decreases n - i,
        {
            let ghost before = map@;
            map.push(LazySet::Uninitialized);
            proof {
                assert(map@.map_values(|l: LazySet| l@).drop_last() =~= before.map_values(
                    |l: LazySet| l@,
                ));
            }
            i = i + 1;
        }
        let r = NodeMap { map };
        proof {
            assert forall|j: int| 0 <= j < r@.len() implies #[trigger] r@[j].finite() by {
                assert(r@[j].members() =~= Set::<u32>::empty());
            }
        }
        r
    }

    pub fn len(&self) -> (r: usize)
        ensures
            r == self@.len(),
    {
        self.map.len()
    }

    pub fn get(&self, key: u32) -> (r: &LazySet)
        requires
            key < self@.len(),
        ensures
            r@ == self@[key as int],
    {
        &self.map[key as usize]
    }

    /// Adds `v` to the set of `key`, creating the set where there was none;
    /// tells whether `v` was new there.
    pub fn insert(&mut self, key: u32, v: u32) -> (r: bool)
        requires
            key < old(self)@.len(),
            old(self).finite(),
        ensures
            final(self)@ == old(self)@.update(
                key as int,
                Slot::Members(old(self)@[key as int].members().insert(v)),
            ),
            final(self).finite(),
            r == !old(self)@[key as int].members().contains(v),
            total(final(self)@) == total(old(self)@) + (if r {
                1int
            } else {
                0int
            }),
    {
        let ghost k = key as int;
        assert(old(self)@[k].finite());
        let slot = &mut self.map[key as usize];
        let r = slot.or_init_insert(v);
        proof {
            assert(self@ =~= old(self)@.update(k, Slot::Members(old(self)@[k].members().insert(v))));
            lemma_total_update(old(self)@, k, self@[k]);
            if !r {
                assert(old(self)@[k].members().insert(v) =~= old(self)@[k].members());
            }
            assert forall|i: int| 0 <= i < self@.len() implies #[trigger] self@[i].finite() by {
                if i != k {
                    assert(old(self)@[i].finite());
                }
            }
        }
        r
    }

    /// Marks `key` as a known node without neighbours, if it was not known.
    pub fn into_empty_if_unknown(&mut self, key: u32)
        requires
            key < old(self)@.len(),
            old(self).finite(),
        ensures
            old(self)@[key as int] is Unknown ==> final(self)@ == old(self)@.update(
                key as int,
                Slot::Empty,
            ),
            !(old(self)@[key as int] is Unknown) ==> final(self)@ == old(self)@,
            final(self).finite(),
            total(final(self)@) == total(old(self)@),
    {
        let ghost k = key as int;
        if self.map[key as usize].is_uninitialized() {
            self.map.set(key as usize, LazySet::Empty);
            proof {
                assert(self@ =~= old(self)@.update(k, Slot::Empty));
                lemma_total_update(old(self)@, k, Slot::Empty);
                assert forall|i: int| 0 <= i < self@.len() implies #[trigger] self@[i].finite() by {
                    if i != k {
                        assert(old(self)@[i].finite());
                    } else {
                        assert(self@[i].members() =~= Set::<u32>::empty());
                    }
                }
            }
        }
    }

    /// Marks `key` as a known node without neighbours.
    pub fn into_empty(&mut self, key: u32)
        requires
            key < old(self)@.len(),
            old(self).finite(),
        ensures
            final(self)@ == old(self)@.update(key as int, Slot::Empty),
            final(self).finite(),
            total(final(self)@) == total(old(self)@) - old(self)@[key as int].members().len(),
    {
        let ghost k = key as int;
        self.map.set(key as usize, LazySet::Empty);
        proof {
            assert(self@ =~= old(self)@.update(k, Slot::Empty));
            lemma_total_update(old(self)@, k, Slot::Empty);
            assert forall|i: int| 0 <= i < self@.len() implies #[trigger] self@[i].finite() by {
                if i != k {
                    assert(old(self)@[i].finite());
                } else {
                    assert(self@[i].members() =~= Set::<u32>::empty());
                }
            }
        }
    }

    /// Whether `key` is a known node with at least one neighbour slot set.
    pub fn contains_key(&self, key: u32) -> (r: bool)
        ensures
            r == (key < self@.len() && self@[key as int] is Members),
    {
        if (key as usize) < self.map.len() {
            self.map[key as usize].is_initialized()
        } else {
            false
        }
    }

    /// The neighbours of `key`, each once.
    pub fn members_vec(&self, key: u32) -> (r: Vec<u32>)
        requires
            key < self@.len(),
        ensures
            r@.no_duplicates(),
            r@.to_set() == self@[key as int].members(),
    {
        self.map[key as usize].members_vec()
    }

    /// A copy with equal slots.
    pub fn duplicate(&self) -> (r: NodeMap)
        ensures
            r@ == self@,
    {
        let mut map: Vec<LazySet> = Vec::new();
        let mut i: usize = 0;
        while i < self.map.len()
            invariant
                i <= self.map@.len(),
                map@.len() == i,
                forall|j: int| 0 <= j < i ==> map@[j]@ == self.map@[j]@,
            decreases self.map@.len() - i,
        {
            map.push(self.map[i].duplicate());
            i = i + 1;
        }
        let r = NodeMap { map };
        proof {
            assert(r@ =~= self@);
        }
        r
    }
}

} // verus!

verus! {

/// How many neighbours the slots of `ids` hold together, repeats counted.
pub open spec fn members_total(m: Seq<Slot>, ids: Seq<u32>) -> int
    decreases ids.len(),
{
    if ids.len() == 0 {
        0
    } else {
        members_total(m, ids.drop_last()) + m[ids.last() as int].members().len()
    }
}

/// How many of the slots of `ids` hold `y`, repeats of an id counted.
pub open spec fn members_count(m: Seq<Slot>, ids: Seq<u32>, y: u32) -> nat
    decreases ids.len(),
{
    if ids.len() == 0 {
        0
    } else {
        members_count(m, ids.drop_last(), y) + if m[ids.last() as int].members().contains(y) {
            1nat
        } else {
            0nat
        }
    }
}

/// Some slot of `ids` holds `y`.
pub open spec fn some_member(m: Seq<Slot>, ids: Seq<u32>, y: u32) -> bool {
    exists|i: int| 0 <= i < ids.len() && #[trigger] m[ids[i] as int].members().contains(y)
}

impl NodeMap {
    /// The neighbours of each of `ids` in turn, appended to `out`; a value
    /// shared by two of them comes twice.
    pub fn collect_members(&self, ids: &[u32], out: &mut Vec<u32>)
        requires
            forall|i: int| 0 <= i < ids@.len() ==> ids@[i] < self@.len(),
            self.finite(),
        ensures
            final(out)@.len() == old(out)@.len() + members_total(self@, ids@),
            final(out)@.subrange(0, old(out)@.len() as int) == old(out)@,
            forall|y: u32|
                final(out)@.subrange(old(out)@.len() as int, final(out)@.len() as int).contains(y)
                    <==> some_member(self@, ids@, y),
            forall|y: u32|
                #[trigger] final(out)@.subrange(old(out)@.len() as int, final(out)@.len() as int).to_multiset().count(y)
                    == members_count(self@, ids@, y),
    {
        let ghost start = out@.len();
        proof {
            broadcast use vstd::seq_lib::group_to_multiset_ensures;

            assert(out@.subrange(start as int, out@.len() as int) =~= Seq::<u32>::empty());
            assert(ids@.subrange(0, 0) =~= Seq::<u32>::empty());
            assert forall|y: u32|
                #[trigger] out@.subrange(start as int, out@.len() as int).to_multiset().count(y)
                    == members_count(self@, ids@.subrange(0, 0), y) by {
                assert(Seq::<u32>::empty().to_multiset().len() == 0);
            }
        }
        let mut i: usize = 0;
        while i < ids.len()
            invariant
                i <= ids@.len(),
                forall|j: int| 0 <= j < ids@.len() ==> ids@[j] < self@.len(),
                self.finite(),
                out@.len() == start + members_total(self@, ids@.subrange(0, i as int)),
                start <= out@.len(),
                out@.subrange(0, start as int) == old(out)@,
                forall|y: u32|
                    out@.subrange(start as int, out@.len() as int).contains(y) <==> some_member(
                        self@,
                        ids@.subrange(0, i as int),
                        y,
                    ),
                forall|y: u32|
                    #[trigger] out@.subrange(start as int, out@.len() as int).to_multiset().count(y)
                        == members_count(self@, ids@.subrange(0, i as int), y),
            decreases ids.len() - i,
        {
            let id = ids[i];
            let vals = self.members_vec(id);
            let ghost before = out@;
            proof {
                assert(self@[id as int].finite());
                vals@.unique_seq_to_set();
                assert(ids@.subrange(0, i + 1).drop_last() =~= ids@.subrange(0, i as int));
            }
            let ghost seg0 = before.subrange(start as int, before.len() as int);
            proof {
                broadcast use vstd::seq_lib::group_to_multiset_ensures;

                assert(vals@.subrange(0, 0) =~= Seq::<u32>::empty());
                assert(before + vals@.subrange(0, 0) =~= before);
                assert forall|y: u32|
                    #[trigger] out@.subrange(start as int, out@.len() as int).to_multiset().count(y)
                        == seg0.to_multiset().count(y) + vals@.subrange(0, 0).to_multiset().count(y) by {
                    assert(Seq::<u32>::empty().to_multiset().len() == 0);
                }
            }
            let mut k: usize = 0;
            while k < vals.len()
                invariant
                    k <= vals@.len(),
                    start <= before.len(),
                    seg0 == before.subrange(start as int, before.len() as int),
                    out@ == before + vals@.subrange(0, k as int),
                    forall|y: u32|
                        #[trigger] out@.subrange(start as int, out@.len() as int).to_multiset().count(y)
                            == seg0.to_multiset().count(y) + vals@.subrange(0, k as int).to_multiset().count(y),
                decreases vals.len() - k,
            {
                let ghost o0 = out@;
                out.push(vals[k]);
                proof {
                    broadcast use vstd::seq_lib::group_to_multiset_ensures;

                    assert(vals@.subrange(0, k + 1) =~= vals@.subrange(0, k as int).push(vals@[k as int]));
                    assert(out@.subrange(start as int, out@.len() as int) =~= o0.subrange(start as int, o0.len() as int).push(vals@[k as int]));
                    assert forall|y: u32|
                        #[trigger] out@.subrange(start as int, out@.len() as int).to_multiset().count(y)
                            == seg0.to_multiset().count(y) + vals@.subrange(0, k + 1).to_multiset().count(y) by {
                        assert(o0.subrange(start as int, o0.len() as int).to_multiset().count(y)
                            == seg0.to_multiset().count(y) + vals@.subrange(0, k as int).to_multiset().count(y));
                    }
                }
                k = k + 1;
            }
            proof {
                broadcast use vstd::seq_lib::group_to_multiset_ensures;

                vals@.lemma_multiset_has_no_duplicates();
                assert(vals@.subrange(0, vals@.len() as int) =~= vals@);
                assert(before.subrange(start as int, before.len() as int) == seg0);
                assert forall|y: u32|
                    #[trigger] out@.subrange(start as int, out@.len() as int).to_multiset().count(y)
                        == members_count(self@, ids@.subrange(0, i + 1), y) by {
                    assert(seg0.to_multiset().count(y) == members_count(self@, ids@.subrange(0, i as int), y));
                    assert(ids@.subrange(0, i + 1).last() == id);
                    if vals@.contains(y) {
                        assert(vals@.to_multiset().count(y) > 0);
                        assert(vals@.to_set().contains(y));
                    } else {
                        assert(vals@.to_multiset().count(y) == 0);
                        assert(!vals@.to_set().contains(y));
                    }
                }
            }
            proof {
                assert(vals@.subrange(0, vals@.len() as int) =~= vals@);
                assert(out@.subrange(0, start as int) =~= before.subrange(0, start as int));
                let seg = out@.subrange(start as int, out@.len() as int);
                let seg0 = before.subrange(start as int, before.len() as int);
                assert(seg =~= seg0 + vals@);
                assert forall|y: u32| seg.contains(y) <==> some_member(
                    self@,
                    ids@.subrange(0, i + 1),
                    y,
                ) by {
                    let pre = ids@.subrange(0, i as int);
                    let pre1 = ids@.subrange(0, i + 1);
                    if seg.contains(y) {
                        let j = choose|j: int| 0 <= j < seg.len() && seg[j] == y;
                        if j < seg0.len() {
                            assert(seg0[j] == y);
                            assert(some_member(self@, pre, y));
                            let q = choose|q: int| 0 <= q < pre.len() && #[trigger] self@[pre[q] as int].members().contains(y);
                            assert(pre1[q] == pre[q]);
                        } else {
                            assert(vals@[j - seg0.len()] == y);
                            assert(vals@.to_set().contains(y));
                            assert(pre1[i as int] == id);
                        }
                    }
                    if some_member(self@, pre1, y) {
                        let q = choose|q: int| 0 <= q < pre1.len() && #[trigger] self@[pre1[q] as int].members().contains(y);
                        if q < i {
                            assert(pre[q] == pre1[q]);
                            assert(some_member(self@, pre, y));
                            assert(seg0.contains(y));
                            let j = choose|j: int| 0 <= j < seg0.len() && seg0[j] == y;
                            assert(seg[j] == y);
                        } else {
                            assert(vals@.to_set().contains(y));
                            assert(vals@.contains(y));
                            let j = choose|j: int| 0 <= j < vals@.len() && vals@[j] == y;
                            assert(seg[seg0.len() + j] == y);
                        }
                    }
                }
            }
            i = i + 1;
        }
        proof {
            assert(ids@.subrange(0, ids@.len() as int) =~= ids@);
        }
    }
}

} // verus!

verus! {

impl LazySet {
    /// Takes `v` out of the set, if the slot has one.
    pub fn remove(&mut self, v: u32) -> (r: bool)
        requires
            old(self)@.finite(),
        ensures
            final(self)@ == (match old(self)@ {
                Slot::Members(s) => Slot::Members(s.remove(v)),
                other => other,
            }),
            final(self)@.finite(),
            r == old(self)@.members().contains(v),
    {
        match self {
            LazySet::Initialized(s) => s.remove(v),
            _ => false,
        }
    }

    /// Whether the slot holds at least one neighbour.
    pub fn has_members(&self) -> (r: bool)
        ensures
            r == (self@.members() != Set::<u32>::empty()),
    {
        match self {
            LazySet::Initialized(s) => !s.is_empty(),
            _ => false,
        }
    }
}

impl NodeMap {
    /// Takes `v` out of the set of `key`; tells whether it was there.
    pub fn remove(&mut self, key: u32, v: u32) -> (r: bool)
        requires
            key < old(self)@.len(),
            old(self).finite(),
        ensures
            final(self)@.len() == old(self)@.len(),
            final(self)@[key as int].members() == old(self)@[key as int].members().remove(v),
            (final(self)@[key as int] is Unknown) == (old(self)@[key as int] is Unknown),
            forall|i: int| 0 <= i < old(self)@.len() && i != key ==> #[trigger] final(self)@[i] == old(self)@[i],
            final(self).finite(),
            r == old(self)@[key as int].members().contains(v),
            total(final(self)@) == total(old(self)@) - (if r {
                1int
            } else {
                0int
            }),
    {
        let ghost k = key as int;
        assert(old(self)@[k].finite());
        let slot = &mut self.map[key as usize];
        let r = slot.remove(v);
        proof {
            assert(self@ =~= old(self)@.update(k, self@[k]));
            lemma_total_update(old(self)@, k, self@[k]);
            if r {
                assert(old(self)@[k].members().contains(v));
            } else {
                assert(self@[k].members() =~= old(self)@[k].members());
            }
            assert forall|i: int| 0 <= i < self@.len() implies #[trigger] self@[i].finite() by {
                if i != k {
                    assert(old(self)@[i].finite());
                }
            }
        }
        r
    }

    /// Whether `key` has at least one neighbour.
    pub fn has_members(&self, key: u32) -> (r: bool)
        requires
            key < self@.len(),
        ensures
            r == (self@[key as int].members() != Set::<u32>::empty()),
    {
        self.map[key as usize].has_members()
    }
}

/// A sum of zero over finite slots leaves every slot without neighbours.
pub proof fn lemma_total_zero(s: Seq<Slot>)
    requires
        total(s) == 0,
        forall|i: int| 0 <= i < s.len() ==> #[trigger] s[i].finite(),
    ensures
        forall|i: int| 0 <= i < s.len() ==> #[trigger] s[i].members() == Set::<u32>::empty(),
    decreases s.len(),
{
    if s.len() > 0 {
        lemma_total_nonneg(s.drop_last());
        let k = s.len() - 1;
        assert(s[k].finite());
        assert(s.drop_last().len() == k);
        assert forall|i: int| 0 <= i < s.drop_last().len() implies #[trigger] s.drop_last()[i].finite() by {
            assert(s[i].finite());
        }
        lemma_total_zero(s.drop_last());
        assert(s.last().members().len() == 0);
        s.last().members().lemma_len0_is_empty();
        assert forall|i: int| 0 <= i < s.len() implies #[trigger] s[i].members() == Set::<u32>::empty() by {
            if i < k {
                assert(s.drop_last()[i] == s[i]);
            }
        }
    }
}

/// The sum is never negative.
pub proof fn lemma_total_nonneg(s: Seq<Slot>)
    ensures
        total(s) >= 0,
    decreases s.len(),
{
    if s.len() > 0 {
        lemma_total_nonneg(s.drop_last());
    }
}


/// Slots without neighbours sum to zero.
pub proof fn lemma_total_of_empty(s: Seq<Slot>)
    requires
        forall|i: int| 0 <= i < s.len() ==> #[trigger] s[i].members() == Set::<u32>::empty(),
    ensures
        total(s) == 0,
    decreases s.len(),
{
    if s.len() > 0 {
        assert forall|i: int| 0 <= i < s.drop_last().len() implies #[trigger] s.drop_last()[i].members() == Set::<u32>::empty() by {
            assert(s.drop_last()[i] == s[i]);
        }
        lemma_total_of_empty(s.drop_last());
        assert(s.last().members() == s[s.len() - 1].members());
    }
}

} // verus!
