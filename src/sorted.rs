//! Ascending symbol lists: sorting, removing repeats, lookup and difference.
use rayon::iter::{IntoParallelRefIterator, ParallelIterator};
use vstd::prelude::*;

verus! {

/// Ascending, equal neighbours allowed.
pub open spec fn is_sorted(s: Seq<u32>) -> bool {
    forall|i: int, j: int| 0 <= i < j < s.len() ==> s[i] <= s[j]
}

/// Ascending without repeats.
pub open spec fn strictly_sorted(s: Seq<u32>) -> bool {
    forall|i: int, j: int| 0 <= i < j < s.len() ==> s[i] < s[j]
}

/// Both sequences hold the same values.
pub open spec fn same_members(a: Seq<u32>, b: Seq<u32>) -> bool {
    forall|x: u32| a.contains(x) <==> b.contains(x)
}

/// Relies on `slice::sort_unstable`: the same elements, in ascending order.
#[verifier::external_body]
fn sort_ascending(v: &mut Vec<u32>)
    ensures
        is_sorted(final(v)@),
        final(v)@.to_multiset() == old(v)@.to_multiset(),
{
    v.sort_unstable()
}

/// The values of `v` in ascending order, each once.
pub fn sorted_unique(v: &Vec<u32>) -> (r: Vec<u32>)
    ensures
        strictly_sorted(r@),
        same_members(r@, v@),
{
    let mut s = v.clone();
    sort_ascending(&mut s);
    proof {
        broadcast use vstd::seq_lib::group_to_multiset_ensures;

        assert forall|y: u32| s@.contains(y) <==> v@.contains(y) by {
            assert(s@.to_multiset().count(y) == v@.to_multiset().count(y));
        }
    }
    let mut r: Vec<u32> = Vec::new();
    let mut i: usize = 0;
    while i < s.len()
        invariant
            i <= s.len(),
            is_sorted(s@),
            strictly_sorted(r@),
            forall|x: u32| r@.contains(x) <==> exists|k: int| 0 <= k < i && s@[k] == x,
            i > 0 ==> r@.len() > 0 && r@.last() == s@[i - 1],
            i == 0 ==> r@.len() == 0,
        decreases s.len() - i,
    {
        let x = s[i];
        let ghost r0 = r@;
        if r.len() == 0 || r[r.len() - 1] != x {
            r.push(x);
        }
        proof {
            assert forall|y: u32|
                r@.contains(y) <==> exists|k: int| 0 <= k < i + 1 && s@[k] == y by {
                if r@.contains(y) {
                    let j = choose|j: int| 0 <= j < r@.len() && r@[j] == y;
                    if j < r0.len() {
                        assert(r0[j] == y);
                    }
                }
                if r0.contains(y) {
                    let j = choose|j: int| 0 <= j < r0.len() && r0[j] == y;
                    assert(r@[j] == y);
                }
                if r@.len() == r0.len() && r0.len() > 0 {
                    assert(r@[r0.len() - 1] == x);
                }
                if r@.len() > r0.len() {
                    assert(r@[r0.len() as int] == x);
                }
                if y == x {
                    assert(0 <= i < i + 1 && s@[i as int] == y);
                }
                if exists|k: int| 0 <= k < i + 1 && s@[k] == y {
                    let k = choose|k: int| 0 <= k < i + 1 && s@[k] == y;
                    if k < i {
                        assert(exists|k2: int| 0 <= k2 < i && s@[k2] == y);
                    }
                }
            }
        }
        i = i + 1;
    }
    r
}

/// A vector holding the values of `s`.
pub fn copy_of(s: &[u32]) -> (r: Vec<u32>)
    ensures
        r@ == s@,
{
    let mut r: Vec<u32> = Vec::new();
    let mut i: usize = 0;
    while i < s.len()
        invariant
            i <= s@.len(),
            r@ == s@.subrange(0, i as int),
        decreases s.len() - i,
    {
        r.push(s[i]);
        proof {
            assert(s@.subrange(0, i + 1) =~= s@.subrange(0, i as int).push(s@[i as int]));
        }
        i = i + 1;
    }
    proof {
        assert(s@.subrange(0, s@.len() as int) =~= s@);
    }
    r
}

/// `a` followed by `b`.
pub fn concat(a: &Vec<u32>, b: &Vec<u32>) -> (r: Vec<u32>)
    ensures
        r@ == a@ + b@,
{
    let mut r = a.clone();
    let mut i: usize = 0;
    while i < b.len()
        invariant
            i <= b@.len(),
            r@ == a@ + b@.subrange(0, i as int),
        decreases b.len() - i,
    {
        r.push(b[i]);
        proof {
            assert(a@ + b@.subrange(0, i + 1) =~= (a@ + b@.subrange(0, i as int)).push(b@[i as int]));
        }
        i = i + 1;
    }
    proof {
        assert(b@.subrange(0, b@.len() as int) =~= b@);
    }
    r
}

/// Whether the ascending `s` holds `x`, by binary search.
pub fn contains_sorted(s: &Vec<u32>, x: u32) -> (r: bool)
    requires
        is_sorted(s@),
    ensures
        r == s@.contains(x),
{
    let mut lo: usize = 0;
    let mut hi: usize = s.len();
    while lo < hi
        invariant
            lo <= hi <= s.len(),
            is_sorted(s@),
            forall|k: int| 0 <= k < lo ==> s@[k] < x,
            forall|k: int| hi <= k < s.len() ==> s@[k] > x,
        decreases hi - lo,
    {
        let mid = lo + (hi - lo) / 2;
        if s[mid] == x {
            return true;
        } else if s[mid] < x {
            lo = mid + 1;
        } else {
            hi = mid;
        }
    }
    false
}

/// Whether the ascending `s` lacks `x`.
pub fn absent_from_sorted(s: &Vec<u32>, x: u32) -> (r: bool)
    requires
        is_sorted(s@),
    ensures
        r == !s@.contains(x),
{
    !contains_sorted(s, x)
}

/// Relies on rayon's `par_iter`, `filter` and `copied`, collected into a
/// `Vec`: the values of `xs` that `sorted` lacks.
#[verifier::external_body]
fn par_absent_from(xs: &Vec<u32>, sorted: &Vec<u32>) -> (r: Vec<u32>)
    requires
        is_sorted(sorted@),
    ensures
        forall|x: u32| r@.contains(x) <==> (xs@.contains(x) && !sorted@.contains(x)),
{
    xs.par_iter().filter(|x| absent_from_sorted(sorted, **x)).copied().collect()
}

/// The values of `xs` that `other` lacks, ascending, each once.
pub fn difference_sorted(xs: &Vec<u32>, other: &Vec<u32>) -> (r: Vec<u32>)
    requires
        is_sorted(other@),
    ensures
        strictly_sorted(r@),
        forall|x: u32| r@.contains(x) <==> (xs@.contains(x) && !other@.contains(x)),
{
    let absent = par_absent_from(xs, other);
    sorted_unique(&absent)
}

} // verus!
