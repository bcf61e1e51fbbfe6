//! Sorted lists of identifiers.

use rayon::slice::ParallelSliceMut;
use vstd::prelude::*;

verus! {

/// Whether a list ascends strictly, so that nothing occurs twice.
pub open spec fn rising(s: Seq<i64>) -> bool {
    forall|i: int, j: int| 0 <= i < j < s.len() ==> s[i] < s[j]
}

/// `ParallelSliceMut::par_sort_unstable`: puts the same identifiers in ascending order.
#[verifier::external_body]
fn sort_ids(v: &mut Vec<i64>)
    ensures
        final(v)@.to_multiset() == old(v)@.to_multiset(),
        forall|i: int, j: int| 0 <= i <= j < final(v)@.len() ==> final(v)@[i] <= final(v)@[j],
{
    v.par_sort_unstable()
}

/// Sorts a list and leaves out what occurs twice.
pub fn sort_dedup(v: &mut Vec<i64>)
    ensures
        rising(final(v)@),
        forall|x: i64| #[trigger] final(v)@.contains(x) <==> old(v)@.contains(x),
{
    let ghost v0 = v@;
    sort_ids(v);
    let ghost sorted = v@;
    proof {
        broadcast use vstd::seq_lib::group_to_multiset_ensures;

        assert forall|x: i64| #[trigger] sorted.contains(x) <==> v0.contains(x) by {
            assert(sorted.to_multiset().count(x) == v0.to_multiset().count(x));
        }
    }
    let mut r: Vec<i64> = Vec::new();
    let mut i: usize = 0;
    while i < v.len()
        invariant
            v@ == sorted,
            i <= v@.len(),
            forall|a: int, b: int| 0 <= a <= b < sorted.len() ==> sorted[a] <= sorted[b],
            rising(r@),
            r@.len() > 0 ==> i > 0 && r@.last() == sorted[i - 1],
            r@.len() == 0 ==> i == 0,
            forall|x: i64| #[trigger] r@.contains(x) <==> sorted.take(i as int).contains(x),
        decreases v@.len() - i,
    {
        let ghost r0 = r@;
        let fresh = r.len() == 0 || r[r.len() - 1] != v[i];
        if fresh {
            r.push(v[i]);
        }
        proof {
            let t0 = sorted.take(i as int);
            let t1 = sorted.take(i + 1);
            assert(t1 =~= t0.push(sorted[i as int]));
            assert forall|x: i64| #[trigger] r@.contains(x) <==> t1.contains(x) by {
                if t1.contains(x) {
                    let k = choose|k: int| 0 <= k < t1.len() && t1[k] == x;
                    if k < i {
                        assert(t0[k] == x);
                        assert(r0.contains(x));
                        let m = choose|m: int| 0 <= m < r0.len() && r0[m] == x;
                        assert(r@[m] == x);
                    } else {
                        assert(r@[r@.len() - 1] == x);
                    }
                }
                if r@.contains(x) {
                    let m = choose|m: int| 0 <= m < r@.len() && r@[m] == x;
                    if m < r0.len() {
                        assert(r0[m] == x);
                        assert(r0.contains(x));
                        let k = choose|k: int| 0 <= k < t0.len() && t0[k] == x;
                        assert(t1[k] == x);
                    } else {
                        assert(t1[i as int] == x);
                    }
                }
            }
        }
        i = i + 1;
    }
    assert(sorted.take(i as int) =~= sorted);
    *v = r;
}

/// Whether an identifier is in a list.
pub fn contains_id(v: &Vec<i64>, id: i64) -> (r: bool)
    requires
        rising(v@),
    ensures
        r == v@.contains(id),
{
    let mut lo: usize = 0;
    let mut hi: usize = v.len();
    while lo < hi
        invariant
            rising(v@),
            lo <= hi <= v@.len(),
            forall|i: int| 0 <= i < lo ==> v@[i] < id,
            forall|i: int| hi <= i < v@.len() ==> id < v@[i],
        decreases hi - lo,
    {
        let mid: usize = lo + (hi - lo) / 2;
        if v[mid] == id {
            return true;
        }
        if v[mid] < id {
            lo = mid + 1;
        } else {
            hi = mid;
        }
    }
    false
}

} // verus!
