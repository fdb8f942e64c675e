//! Sorting and searching of integer keys.

use vstd::prelude::*;

verus! {

broadcast use vstd::seq_lib::group_to_multiset_ensures;

/// `s` is in non-decreasing order.
pub open spec fn is_sorted(s: Seq<u128>) -> bool {
    forall|i: int, j: int| 0 <= i < j < s.len() ==> s[i] <= s[j]
}

/// `s` is in strictly increasing order.
pub open spec fn is_strictly_sorted(s: Seq<u128>) -> bool {
    forall|i: int, j: int| 0 <= i < j < s.len() ==> s[i] < s[j]
}

/// Sorts the keys in ascending order.
///
/// Calls `<[u128]>::sort_unstable`, which std documents as sorting the slice in
/// ascending order; the contract states that the result is sorted and holds the
/// same keys, each as often as before.
#[verifier::external_body]
pub(crate) fn sort_keys(v: &mut Vec<u128>)
    ensures
        is_sorted(final(v)@),
        final(v)@.to_multiset() == old(v)@.to_multiset(),
{
    v.sort_unstable();
}

/// The distinct keys of a sorted sequence, in ascending order.
pub fn dedup_sorted(v: &Vec<u128>) -> (u: Vec<u128>)
    requires
        is_sorted(v@),
    ensures
        is_strictly_sorted(u@),
        forall|k: u128| u@.contains(k) <==> v@.contains(k),
{
    let mut u: Vec<u128> = Vec::new();
    let mut i: usize = 0;
    while i < v.len()
        invariant
            0 <= i <= v@.len(),
            is_sorted(v@),
            is_strictly_sorted(u@),
            i > 0 ==> u@.len() > 0 && u@.last() == v@[i - 1],
            i == 0 ==> u@.len() == 0,
            forall|k: u128| u@.contains(k) <==> v@.take(i as int).contains(k),
        decreases v@.len() - i,
    {
        let ghost before = u@;
        if u.len() == 0 || u[u.len() - 1] != v[i] {
            u.push(v[i]);
        }
        proof {
            assert(v@.take(i + 1) =~= v@.take(i as int).push(v@[i as int]));
            let t0 = v@.take(i as int);
            let t1 = v@.take(i + 1);
            assert forall|k: u128| u@.contains(k) <==> t1.contains(k) by {
                if t1.contains(k) {
                    let w = choose|w: int| 0 <= w < t1.len() && t1[w] == k;
                    if w < i {
                        assert(t0[w] == k);
                        assert(t0.contains(k));
                        assert(before.contains(k));
                        let w2 = choose|w2: int| 0 <= w2 < before.len() && before[w2] == k;
                        assert(u@[w2] == k);
                    } else {
                        assert(u@.last() == v@[i as int]);
                    }
                }
                if u@.contains(k) {
                    let w = choose|w: int| 0 <= w < u@.len() && u@[w] == k;
                    if w < before.len() {
                        assert(before[w] == k);
                        assert(before.contains(k));
                        assert(t0.contains(k));
                        let w2 = choose|w2: int| 0 <= w2 < t0.len() && t0[w2] == k;
                        assert(t1[w2] == k);
                    } else {
                        assert(t1[i as int] == k);
                    }
                }
            }
        }
        i += 1;
    }
    assert(v@.take(v@.len() as int) =~= v@);
    u
}

/// Index of `k` in a strictly increasing sequence that contains it.
pub fn search_key(u: &Vec<u128>, k: u128) -> (idx: usize)
    requires
        is_strictly_sorted(u@),
        u@.contains(k),
    ensures
        idx < u@.len(),
        u@[idx as int] == k,
{
    let mut lo: usize = 0;
    let mut hi: usize = u.len();
    while lo + 1 < hi
        invariant
            0 <= lo < hi <= u@.len(),
            is_strictly_sorted(u@),
            u@.contains(k),
            u@[lo as int] <= k,
            hi < u@.len() ==> k < u@[hi as int],
        decreases hi - lo,
    {
        let mid = lo + (hi - lo) / 2;
        if u[mid] <= k {
            lo = mid;
        } else {
            hi = mid;
        }
    }
    proof {
        let w = choose|w: int| 0 <= w < u@.len() && u@[w] == k;
        if w < lo {
            assert(u@[w] < u@[lo as int]);
        } else if w > lo {
            if w < hi {
            } else if hi < u@.len() {
                assert(u@[hi as int] <= u@[w]);
            }
        }
    }
    lo
}

} // verus!
