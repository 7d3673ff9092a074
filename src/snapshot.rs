//! The parts of a graph that a snapshot keeps, and the version prefix that
//! precedes a snapshot in binary form.
use crate::builder::DirectedGraphBuilder;
use crate::graph::DirectedGraph;
use crate::interner::{label_seq, InternerBuilder};
use crate::sorted::copy_of;
use crate::sym::RESERVED_SYMBOL;
use vstd::prelude::*;

verus! {

/// The major version of the snapshot layout.
pub const VERSION_MAJOR: u32 = 0;

/// The minor version of the snapshot layout.
pub const VERSION_MINOR: u32 = 14;

/// The number that four bytes give, least significant first.
pub open spec fn le_u32(b: Seq<u8>) -> int {
    b[0] + 256 * b[1] + 65536 * b[2] + 16777216 * b[3]
}

/// The four bytes of `v`, least significant first.
pub fn u32_to_le(v: u32) -> (r: [u8; 4])
    ensures
        le_u32(r@) == v,
{
    let b0 = (v % 256) as u8;
    let b1 = ((v / 256) % 256) as u8;
    let b2 = ((v / 65536) % 256) as u8;
    let b3 = (v / 16777216) as u8;
    proof {
        let x = v as int;
        assert(x == x % 256 + 256 * ((x / 256) % 256) + 65536 * ((x / 65536) % 256) + 16777216 * (x
            / 16777216)) by (nonlinear_arith)
            requires
                0 <= x < 0x1_0000_0000,
        ;
    }
    [b0, b1, b2, b3]
}

/// The number that `b[start..start + 4]` give, least significant first.
pub fn u32_from_le(b: &[u8], start: usize) -> (r: u32)
    requires
        start + 4 <= b@.len(),
    ensures
        r == le_u32(b@.subrange(start as int, start + 4)),
{
    let b0 = b[start] as u32;
    let b1 = b[start + 1] as u32;
    let b2 = b[start + 2] as u32;
    let b3 = b[start + 3] as u32;
    proof {
        assert(b0 + 256 * b1 + 65536 * b2 + 16777216 * b3 <= 0xFFFF_FFFF) by (nonlinear_arith)
            requires
                b0 <= 255,
                b1 <= 255,
                b2 <= 255,
                b3 <= 255,
        ;
    }
    b0 + 256 * b1 + 65536 * b2 + 16777216 * b3
}

/// The eight-byte prefix of a snapshot: the major, then the minor version.
pub fn version_to_bytes() -> (r: [u8; 8])
    ensures
        le_u32(r@.subrange(0, 4)) == VERSION_MAJOR,
        le_u32(r@.subrange(4, 8)) == VERSION_MINOR,
{
    let a = u32_to_le(VERSION_MAJOR);
    let b = u32_to_le(VERSION_MINOR);
    let r = [a[0], a[1], a[2], a[3], b[0], b[1], b[2], b[3]];
    proof {
        assert(r@.subrange(0, 4) =~= a@);
        assert(r@.subrange(4, 8) =~= b@);
    }
    r
}

/// The version that a prefix names, or `None` where it is shorter than eight bytes.
pub fn read_version(prefix: &[u8]) -> (r: Option<(u32, u32)>)
    ensures
        r is None <==> prefix@.len() < 8,
        r matches Some(v) ==> v.0 == le_u32(prefix@.subrange(0, 4)) && v.1 == le_u32(
            prefix@.subrange(4, 8),
        ),
{
    if prefix.len() < 8 {
        None
    } else {
        Some((u32_from_le(prefix, 0), u32_from_le(prefix, 4)))
    }
}

/// Whether a version is the one this library writes.
pub fn is_current_version(version: (u32, u32)) -> (r: bool)
    ensures
        r == (version.0 == VERSION_MAJOR && version.1 == VERSION_MINOR),
{
    version.0 == VERSION_MAJOR && version.1 == VERSION_MINOR
}

impl DirectedGraph {
    /// The labels in symbol order, and every edge once as a pair of symbols
    /// (sources in the first list, targets in the second).
    pub fn snapshot(&self) -> (r: (Vec<String>, Vec<u32>, Vec<u32>))
        requires
            self.wf(),
        ensures
            label_seq(r.0@) == self.labels(),
            r.1@.len() == r.2@.len(),
            forall|k: int| 0 <= k < r.1@.len() ==> self.has_edge(#[trigger] r.1@[k], r.2@[k]),
            forall|p: u32, c: u32|
                #[trigger] self.has_edge(p, c) ==> exists|k: int|
                    0 <= k < r.1@.len() && r.1@[k] == p && r.2@[k] == c,
    {
        let labels = self.interner.strs.clone();
        proof {
            assert(labels@ =~= self.interner.strs@);
        }
        let n = self.children_map.len();
        proof {
            assert(self.interner.strs@.len() < RESERVED_SYMBOL);
        }
        let mut parents: Vec<u32> = Vec::new();
        let mut children: Vec<u32> = Vec::new();
        let mut x: usize = 0;
        while x < n
            invariant
                self.wf(),
                n == self.n(),
                n < 0xFFFF_FFFFusize,
                x <= n,
                parents@.len() == children@.len(),
                forall|k: int| 0 <= k < parents@.len() ==> self.has_edge(#[trigger] parents@[k], children@[k]),
                forall|p: u32, c: u32|
                    p < x && #[trigger] self.has_edge(p, c) ==> exists|k: int|
                        0 <= k < parents@.len() && parents@[k] == p && children@[k] == c,
            decreases n - x,
        {
            let kids = self.children_map.members_vec(x as u32);
            let ghost p0 = parents@;
            let ghost c0 = children@;
            let mut i: usize = 0;
            while i < kids.len()
                invariant
                    self.wf(),
                    x < n,
                    n == self.n(),
                    n < 0xFFFF_FFFFusize,
                    kids@.to_set() == self.children_map@[x as int].members(),
                    i <= kids@.len(),
                    parents@.len() == children@.len(),
                    parents@.len() == p0.len() + i,
                    forall|k: int| 0 <= k < p0.len() ==> parents@[k] == p0[k] && children@[k] == c0[k],
                    forall|k: int|
                        p0.len() <= k < parents@.len() ==> #[trigger] parents@[k] == x as u32 && children@[k]
                            == kids@[k - p0.len()],
                    forall|k: int| 0 <= k < parents@.len() ==> self.has_edge(#[trigger] parents@[k], children@[k]),
                decreases kids.len() - i,
            {
                proof {
                    assert(kids@.to_set().contains(kids@[i as int]));
                    assert(self.children_of(x as u32).contains(kids@[i as int]));
                }
                let ghost p1 = parents@;
                let ghost c1 = children@;
                parents.push(x as u32);
                children.push(kids[i]);
                proof {
                    assert forall|k: int|
                        p0.len() <= k < parents@.len() implies #[trigger] parents@[k] == x as u32 && children@[k]
                            == kids@[k - p0.len()] by {
                        if k < p1.len() {
                            assert(parents@[k] == p1[k]);
                            assert(children@[k] == c1[k]);
                        }
                    }
                    assert forall|k: int| 0 <= k < parents@.len() implies self.has_edge(#[trigger] parents@[k], children@[k]) by {
                        if k < p1.len() {
                            assert(parents@[k] == p1[k] && children@[k] == c1[k]);
                        }
                    }
                }
                i = i + 1;
            }
            proof {
                assert forall|p: u32, c: u32|
                    p < x + 1 && #[trigger] self.has_edge(p, c) implies exists|k: int|
                        0 <= k < parents@.len() && parents@[k] == p && children@[k] == c by {
                    if p < x {
                        let k = choose|k: int| 0 <= k < p0.len() && p0[k] == p && c0[k] == c;
                        assert(parents@[k] == p0[k]);
                    } else {
                        assert(kids@.to_set().contains(c));
                        let j = choose|j: int| 0 <= j < kids@.len() && kids@[j] == c;
                        assert(parents@[p0.len() + j] == x as u32);
                        assert(parents@[p0.len() + j] == p && children@[p0.len() + j] == c);
                    }
                }
            }
            x = x + 1;
        }
        proof {
            assert forall|p: u32, c: u32| #[trigger] self.has_edge(p, c) implies p < x by {
                assert(self.children_of(p).contains(c));
            }
        }
        (labels, parents, children)
    }
}

impl DirectedGraphBuilder {
    /// A builder that holds `labels` in symbol order and the edges
    /// `parents[k] -> children[k]`. `None` where a label repeats, an edge
    /// names a symbol past the labels, the two lists differ in length, or
    /// the labels would not leave a symbol free.
    pub fn from_snapshot(labels: &[String], parents: &[u32], children: &[u32]) -> (r: Option<
        DirectedGraphBuilder,
    >)
        ensures
            r is Some <==> (label_seq(labels@).no_duplicates() && labels@.len() + 2 < RESERVED_SYMBOL
                && parents@.len() == children@.len() && (forall|k: int|
                0 <= k < parents@.len() ==> #[trigger] parents@[k] < labels@.len()) && (forall|k: int|
                0 <= k < children@.len() ==> #[trigger] children@[k] < labels@.len())),
            r matches Some(b) ==> b.wf() && b.labels() == label_seq(labels@) && b.parent_syms()
                == parents@ && b.child_syms() == children@,
    {
        if labels.len() >= RESERVED_SYMBOL as usize - 2 || parents.len() != children.len() {
            proof {
                if labels@.len() + 2 < RESERVED_SYMBOL {
                    assert(parents@.len() != children@.len());
                }
            }
            return None;
        }
        let mut interner = InternerBuilder::new();
        let mut i: usize = 0;
        while i < labels.len()
            invariant
                i <= labels@.len(),
                labels@.len() + 2 < RESERVED_SYMBOL,
                interner.wf(),
                interner.labels() == label_seq(labels@.subrange(0, i as int)),
                label_seq(labels@.subrange(0, i as int)).no_duplicates(),
            decreases labels.len() - i,
        {
            let s = interner.get_or_intern(labels[i].as_str());
            if s as usize != i {
                proof {
                    let l = label_seq(labels@);
                    assert(label_seq(labels@.subrange(0, i as int)) =~= l.subrange(0, i as int));
                    assert(l.subrange(0, i as int).contains(labels@[i as int]@)) by {
                        assert(l.subrange(0, i as int)[s as int] == labels@[i as int]@);
                    }
                    let q = choose|q: int| 0 <= q < i && l.subrange(0, i as int)[q] == labels@[i as int]@;
                    assert(l[q] == l[i as int]);
                }
                return None;
            }
            proof {
                let l = label_seq(labels@);
                assert(label_seq(labels@.subrange(0, i + 1)) =~= label_seq(labels@.subrange(0, i as int)).push(
                    labels@[i as int]@,
                ));
                assert(label_seq(labels@.subrange(0, i + 1)).no_duplicates()) by {
                    let pre = label_seq(labels@.subrange(0, i as int));
                    assert(!pre.contains(labels@[i as int]@));
                }
            }
            i = i + 1;
        }
        proof {
            assert(labels@.subrange(0, labels@.len() as int) =~= labels@);
        }
        let mut k: usize = 0;
        while k < parents.len()
            invariant
                k <= parents@.len(),
                parents@.len() == children@.len(),
                forall|j: int| 0 <= j < k ==> #[trigger] parents@[j] < labels@.len(),
                forall|j: int| 0 <= j < k ==> #[trigger] children@[j] < labels@.len(),
            decreases parents.len() - k,
        {
            if parents[k] as usize >= labels.len() || children[k] as usize >= labels.len() {
                return None;
            }
            k = k + 1;
        }
        let b = DirectedGraphBuilder {
            parents: copy_of(parents),
            children: copy_of(children),
            interner,
        };
        proof {
            assert(b.parents@ =~= parents@);
            assert(b.children@ =~= children@);
        }
        Some(b)
    }
}

} // verus!
