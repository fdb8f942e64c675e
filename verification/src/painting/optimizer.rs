//! 2-opt path optimizer for paint segments.
//!
//! Improves a greedy segment ordering by reversing sub-paths when that shortens
//! the travel between segments, measured as the squared lengths of the moves.

use vstd::prelude::*;
use super::segments::{PaintSegment, seg_start, seg_end};
use super::ordering::{sq_dist, point_dist_sq};
use vstd::seq_lib::lemma_multiset_commutative;

verus! {

/// Squared length of the move from the end of `a` to the start of `b`.
pub open spec fn link(a: PaintSegment, b: PaintSegment) -> int {
    sq_dist(seg_end(a), seg_start(b))
}

/// Squared travel from the end of `s[a]` to the start of `s[b]`.
pub open spec fn hop(s: Seq<PaintSegment>, a: int, b: int) -> int {
    link(s[a], s[b])
}

/// The travel of an ordering: the squared length of each move from the end of a
/// segment to the start of the next, summed.
pub open spec fn travel(s: Seq<PaintSegment>) -> int
    decreases s.len(),
{
    if s.len() < 2 {
        0
    } else {
        travel(s.drop_last()) + link(s[s.len() - 2], s.last())
    }
}

/// The travel of an ordering walked backwards, each segment still painted from its
/// start to its end: the moves from the end of `s[k+1]` to the start of `s[k]`.
pub open spec fn back_travel(s: Seq<PaintSegment>) -> int
    decreases s.len(),
{
    if s.len() < 2 {
        0
    } else {
        back_travel(s.drop_last()) + link(s.last(), s[s.len() - 2])
    }
}

/// Reversing the order of `s[i+1..=j]` shortens the travel of the whole ordering.
pub open spec fn improves(s: Seq<PaintSegment>, i: int, j: int) -> bool {
    travel(reversed_range(s, i + 1, j)) < travel(s)
}

/// `s` with the order of `s[lo..=hi]` reversed.
pub open spec fn reversed_range(s: Seq<PaintSegment>, lo: int, hi: int) -> Seq<PaintSegment> {
    s.take(lo) + s.subrange(lo, hi + 1).reverse() + s.skip(hi + 1)
}

/// Tries the reversals (i, j), (i, j+1), ..., (i, n-1) in turn, applying each that
/// improves; returns the result and whether any reversal was applied.
pub open spec fn scan_reversals(s: Seq<PaintSegment>, n: int, i: int, j: int) -> (Seq<PaintSegment>, bool)
    decreases n - j,
{
    if j >= n {
        (s, false)
    } else {
        let imp = improves(s, i, j);
        let s1 = if imp {
            reversed_range(s, i + 1, j)
        } else {
            s
        };
        let r = scan_reversals(s1, n, i, j + 1);
        (r.0, imp || r.1)
    }
}

/// One full 2-opt pass over all pairs (i, j) with i + 2 <= j < n, from i onward.
pub open spec fn two_opt_pass(s: Seq<PaintSegment>, n: int, i: int) -> (Seq<PaintSegment>, bool)
    decreases n - i,
{
    if i + 1 >= n {
        (s, false)
    } else {
        let a = scan_reversals(s, n, i, i + 2);
        let b = two_opt_pass(a.0, n, i + 1);
        (b.0, a.1 || b.1)
    }
}

/// Up to `k` passes, stopping after the first pass that changes nothing.
pub open spec fn two_opt_passes(s: Seq<PaintSegment>, k: nat) -> Seq<PaintSegment>
    decreases k,
{
    if k == 0 {
        s
    } else {
        let p = two_opt_pass(s, s.len() as int, 0);
        if p.1 {
            two_opt_passes(p.0, (k - 1) as nat)
        } else {
            p.0
        }
    }
}

/// The ordering that 2-opt search produces: at most `max_iterations` passes, where
/// 0 means passes until one changes nothing. As every pass that changes the
/// ordering shortens its travel, `travel(s) + 1` passes always get there.
pub open spec fn two_opt(s: Seq<PaintSegment>, max_iterations: usize) -> Seq<PaintSegment> {
    if s.len() <= 2 {
        s
    } else {
        two_opt_passes(s, two_opt_budget(s, max_iterations))
    }
}

/// The number of passes `two_opt` allows.
pub open spec fn two_opt_budget(s: Seq<PaintSegment>, max_iterations: usize) -> nat {
    if max_iterations > 0 {
        max_iterations as nat
    } else {
        (travel(s) + 1) as nat
    }
}

/// The largest squared length of a move between two points.
pub open spec fn max_link() -> int {
    36893488147419103232
}

proof fn lemma_link_bound(a: PaintSegment, b: PaintSegment)
    ensures
        0 <= link(a, b) <= max_link(),
{
    let p = seg_end(a);
    let q = seg_start(b);
    let dx: int = p.0 - q.0;
    let dy: int = p.1 - q.1;
    assert(0 <= dx * dx <= 18446744065119617025) by (nonlinear_arith)
        requires
            -4294967295 <= dx <= 4294967295,
    ;
    assert(0 <= dy * dy <= 18446744065119617025) by (nonlinear_arith)
        requires
            -4294967295 <= dy <= 4294967295,
    ;
}

proof fn lemma_travel_bounds(s: Seq<PaintSegment>)
    ensures
        0 <= travel(s),
        0 <= back_travel(s),
        s.len() >= 1 ==> travel(s) <= (s.len() - 1) * max_link(),
        s.len() >= 1 ==> back_travel(s) <= (s.len() - 1) * max_link(),
    decreases s.len(),
{
    if s.len() >= 2 {
        lemma_travel_bounds(s.drop_last());
        lemma_link_bound(s[s.len() - 2], s.last());
        lemma_link_bound(s.last(), s[s.len() - 2]);
    }
}

proof fn lemma_travel_concat(a: Seq<PaintSegment>, b: Seq<PaintSegment>)
    ensures
        travel(a + b) == travel(a) + travel(b) + if a.len() > 0 && b.len() > 0 {
            link(a.last(), b[0])
        } else {
            0
        },
        back_travel(a + b) == back_travel(a) + back_travel(b) + if a.len() > 0 && b.len() > 0 {
            link(b[0], a.last())
        } else {
            0
        },
    decreases b.len(),
{
    if b.len() == 0 {
        assert(a + b =~= a);
    } else {
        let ab = a + b;
        let b1 = b.drop_last();
        assert(ab.drop_last() =~= a + b1);
        lemma_travel_concat(a, b1);
        if b.len() == 1 {
            assert(a + b1 =~= a);
            if a.len() > 0 {
                assert(ab[ab.len() - 2] == a.last());
            }
        } else {
            assert(ab[ab.len() - 2] == b[b.len() - 2]);
            assert(b1[0] == b[0]);
        }
    }
}

proof fn lemma_travel_reverse(m: Seq<PaintSegment>)
    ensures
        travel(m.reverse()) == back_travel(m),
    decreases m.len(),
{
    if m.len() >= 2 {
        let r = m.drop_last().reverse();
        assert(m.reverse() =~= seq![m.last()] + r);
        lemma_travel_concat(seq![m.last()], r);
        lemma_travel_reverse(m.drop_last());
        assert(r[0] == m[m.len() - 2]);
    } else {
        assert(m.reverse().len() == m.len());
    }
}

/// The travel of `s` and of `s` with `s[lo..=hi]` reversed, split at the block.
proof fn lemma_reversal_costs(s: Seq<PaintSegment>, lo: int, hi: int)
    requires
        1 <= lo < hi < s.len(),
    ensures
        ({
            let a = s.take(lo);
            let m = s.subrange(lo, hi + 1);
            let c = s.skip(hi + 1);
            let tail_old = if hi + 1 < s.len() { link(s[hi], s[hi + 1]) + travel(c) } else { 0 };
            let tail_new = if hi + 1 < s.len() { link(s[lo], s[hi + 1]) + travel(c) } else { 0 };
            &&& travel(s) == travel(a) + link(s[lo - 1], s[lo]) + travel(m) + tail_old
            &&& travel(reversed_range(s, lo, hi)) == travel(a) + link(s[lo - 1], s[hi]) + back_travel(m)
                + tail_new
        }),
{
    let a = s.take(lo);
    let m = s.subrange(lo, hi + 1);
    let c = s.skip(hi + 1);
    let mr = m.reverse();
    assert(s =~= (a + m) + c);
    lemma_travel_concat(a, m);
    lemma_travel_concat(a + m, c);
    assert((a + m).last() == s[hi]);
    lemma_travel_concat(a, mr);
    lemma_travel_concat(a + mr, c);
    lemma_travel_reverse(m);
    assert((a + mr).last() == s[lo]);
    assert(mr[0] == s[hi]);
    if hi + 1 < s.len() {
        assert(c[0] == s[hi + 1]);
    }
}

/// The travel within `s[lo..=hi]`, forwards and backwards, is a difference of the
/// travels of two prefixes.
proof fn lemma_prefix_diff(s: Seq<PaintSegment>, lo: int, hi: int)
    requires
        1 <= lo <= hi < s.len(),
    ensures
        travel(s.subrange(lo, hi + 1)) == travel(s.take(hi + 1)) - travel(s.take(lo + 1)),
        back_travel(s.subrange(lo, hi + 1)) == back_travel(s.take(hi + 1)) - back_travel(s.take(lo + 1)),
{
    let a = s.take(lo);
    let m = s.subrange(lo, hi + 1);
    assert(s.take(hi + 1) =~= a + m);
    lemma_travel_concat(a, m);
    assert(s.take(lo + 1).drop_last() =~= a);
    assert(s.take(lo + 1)[lo - 1] == a.last());
}

/// Prefix travels of `s`: entry `k` is the travel of `s[..=k]`, forwards or backwards.
fn prefix_travels(s: &Vec<PaintSegment>, backwards: bool) -> (p: Vec<u128>)
    requires
        1 <= s@.len() <= isize::MAX,
    ensures
        p@.len() == s@.len(),
        forall|k: int| 0 <= k < s@.len() ==> (#[trigger] p@[k]) == if backwards {
            back_travel(s@.take(k + 1))
        } else {
            travel(s@.take(k + 1))
        },
{
    let mut p: Vec<u128> = Vec::new();
    p.push(0);
    proof {
        assert(s@.take(1).len() == 1);
    }
    let mut k: usize = 1;
    while k < s.len()
        invariant
            1 <= k <= s@.len(),
            s@.len() <= isize::MAX,
            p@.len() == k,
            forall|t: int| 0 <= t < k ==> (#[trigger] p@[t]) == if backwards {
                back_travel(s@.take(t + 1))
            } else {
                travel(s@.take(t + 1))
            },
        decreases s@.len() - k,
    {
        let ghost pre = s@.take(k as int);
        let ghost cur = s@.take(k + 1);
        proof {
            assert(cur.drop_last() =~= pre);
            assert(cur[k - 1] == s@[k - 1]);
            assert(cur.last() == s@[k as int]);
            lemma_travel_bounds(cur);
            assert((k as int) * max_link() <= (isize::MAX as int) * max_link()) by (nonlinear_arith)
                requires
                    k <= isize::MAX,
            ;
        }
        let h = if backwards {
            hop_cost(s, k, k - 1)
        } else {
            hop_cost(s, k - 1, k)
        };
        let v = p[k - 1] + h;
        p.push(v);
        k += 1;
    }
    p
}

fn hop_cost(s: &Vec<PaintSegment>, a: usize, b: usize) -> (c: u128)
    requires
        a < s@.len(),
        b < s@.len(),
    ensures
        c == hop(s@, a as int, b as int),
        c <= 36893488147419103232,
{
    point_dist_sq(s[a].end_point(), s[b].start_point())
}

/// Whether reversing `s[i+1..=j]` shortens the travel, from the prefix travels of
/// `s` (forwards in `fwd`, backwards in `bwd`): only the moves into, within and out
/// of the block change.
fn reversal_improves(s: &Vec<PaintSegment>, fwd: &Vec<u128>, bwd: &Vec<u128>, i: usize, j: usize) -> (r: bool)
    requires
        i + 1 < j < s@.len(),
        s@.len() <= isize::MAX,
        fwd@.len() == s@.len(),
        bwd@.len() == s@.len(),
        forall|k: int| 0 <= k < s@.len() ==> (#[trigger] fwd@[k]) == travel(s@.take(k + 1)),
        forall|k: int| 0 <= k < s@.len() ==> (#[trigger] bwd@[k]) == back_travel(s@.take(k + 1)),
    ensures
        r == improves(s@, i as int, j as int),
{
    let n = s.len();
    let ghost m = s@.subrange(i + 1, j + 1);
    proof {
        lemma_prefix_diff(s@, i + 1, j as int);
        lemma_reversal_costs(s@, i + 1, j as int);
        lemma_travel_bounds(m);
        assert(m.len() == j - i);
        assert(((j - i + 1) as int) * max_link() <= (isize::MAX as int) * max_link()) by (nonlinear_arith)
            requires
                j - i + 1 <= isize::MAX,
        ;
    }
    let inner_old = fwd[j] - fwd[i + 1];
    let inner_new = bwd[j] - bwd[i + 1];
    let old_cost = hop_cost(s, i, i + 1) + inner_old + if j + 1 < n {
        hop_cost(s, j, j + 1)
    } else {
        0
    };
    let new_cost = hop_cost(s, i, j) + inner_new + if j + 1 < n {
        hop_cost(s, i + 1, j + 1)
    } else {
        0
    };
    new_cost < old_cost
}

/// Reverse the order of `s[lo..=hi]` in place.
fn reverse_range(s: &mut Vec<PaintSegment>, lo: usize, hi: usize)
    requires
        lo <= hi < old(s)@.len(),
    ensures
        final(s)@ == reversed_range(old(s)@, lo as int, hi as int),
{
    let ghost orig = s@;
    let mut a = lo;
    let mut b = hi;
    while a < b
        invariant
            lo <= a,
            b <= hi,
            a + b == lo + hi || a == b + 1 && a + b == lo + hi,
            hi < orig.len(),
            s@.len() == orig.len(),
            forall|t: int| 0 <= t < lo || hi < t < orig.len() ==> s@[t] == orig[t],
            forall|t: int| a <= t <= b ==> s@[t] == orig[t],
            forall|t: int| lo <= t < a ==> s@[t] == orig[lo + hi - t],
            forall|t: int| b < t <= hi ==> s@[t] == orig[lo + hi - t],
        decreases b + 1 - a,
    {
        let x = s[a];
        let y = s[b];
        s.set(a, y);
        s.set(b, x);
        a += 1;
        b -= 1;
    }
    proof {
        let r = reversed_range(orig, lo as int, hi as int);
        assert(r.len() == orig.len());
        assert forall|t: int| 0 <= t < orig.len() implies s@[t] == r[t] by {
            if lo <= t <= hi {
                assert(r[t] == orig.subrange(lo as int, hi + 1).reverse()[t - lo]);
            }
        }
        assert(s@ =~= r);
    }
}

proof fn lemma_reversed_range_multiset(s: Seq<PaintSegment>, lo: int, hi: int)
    requires
        0 <= lo <= hi < s.len(),
    ensures
        reversed_range(s, lo, hi).to_multiset() == s.to_multiset(),
        reversed_range(s, lo, hi).len() == s.len(),
{
    let a = s.take(lo);
    let m = s.subrange(lo, hi + 1);
    let c = s.skip(hi + 1);
    lemma_multiset_commutative(a + m.reverse(), c);
    lemma_multiset_commutative(a, m.reverse());
    m.lemma_reverse_to_multiset();
    lemma_multiset_commutative(a + m, c);
    lemma_multiset_commutative(a, m);
    assert(a + m + c =~= s);
}

proof fn lemma_scan_multiset(s: Seq<PaintSegment>, n: int, i: int, j: int)
    requires
        s.len() == n,
        0 <= i,
        i + 2 <= j,
    ensures
        scan_reversals(s, n, i, j).0.to_multiset() == s.to_multiset(),
        scan_reversals(s, n, i, j).0.len() == n,
    decreases n - j,
{
    if j < n {
        if improves(s, i, j) {
            lemma_reversed_range_multiset(s, i + 1, j);
            lemma_scan_multiset(reversed_range(s, i + 1, j), n, i, j + 1);
        } else {
            lemma_scan_multiset(s, n, i, j + 1);
        }
    }
}

proof fn lemma_pass_multiset(s: Seq<PaintSegment>, n: int, i: int)
    requires
        s.len() == n,
        0 <= i,
    ensures
        two_opt_pass(s, n, i).0.to_multiset() == s.to_multiset(),
        two_opt_pass(s, n, i).0.len() == n,
    decreases n - i,
{
    if i + 1 < n {
        lemma_scan_multiset(s, n, i, i + 2);
        lemma_pass_multiset(scan_reversals(s, n, i, i + 2).0, n, i + 1);
    }
}

proof fn lemma_passes_multiset(s: Seq<PaintSegment>, k: nat)
    ensures
        two_opt_passes(s, k).to_multiset() == s.to_multiset(),
        two_opt_passes(s, k).len() == s.len(),
    decreases k,
{
    if k > 0 {
        lemma_pass_multiset(s, s.len() as int, 0);
        let p = two_opt_pass(s, s.len() as int, 0);
        if p.1 {
            lemma_passes_multiset(p.0, (k - 1) as nat);
        }
    }
}

/// 2-opt only reorders: whatever the iteration cap, the optimized ordering holds
/// exactly the segments it was given, each as often as before.
pub proof fn two_opt_is_permutation(s: Seq<PaintSegment>, max_iterations: usize)
    ensures
        two_opt(s, max_iterations).to_multiset() == s.to_multiset(),
        two_opt(s, max_iterations).len() == s.len(),
{
    if s.len() > 2 {
        lemma_passes_multiset(s, two_opt_budget(s, max_iterations));
    }
}

proof fn lemma_scan_travel(s: Seq<PaintSegment>, n: int, i: int, j: int)
    ensures
        travel(scan_reversals(s, n, i, j).0) <= travel(s),
        scan_reversals(s, n, i, j).1 ==> travel(scan_reversals(s, n, i, j).0) < travel(s),
    decreases n - j,
{
    if j < n {
        if improves(s, i, j) {
            lemma_scan_travel(reversed_range(s, i + 1, j), n, i, j + 1);
        } else {
            lemma_scan_travel(s, n, i, j + 1);
        }
    }
}

proof fn lemma_pass_travel(s: Seq<PaintSegment>, n: int, i: int)
    ensures
        travel(two_opt_pass(s, n, i).0) <= travel(s),
        two_opt_pass(s, n, i).1 ==> travel(two_opt_pass(s, n, i).0) < travel(s),
    decreases n - i,
{
    if i + 1 < n {
        lemma_scan_travel(s, n, i, i + 2);
        lemma_pass_travel(scan_reversals(s, n, i, i + 2).0, n, i + 1);
    }
}

proof fn lemma_passes_travel(s: Seq<PaintSegment>, k: nat)
    ensures
        travel(two_opt_passes(s, k)) <= travel(s),
    decreases k,
{
    if k > 0 {
        lemma_pass_travel(s, s.len() as int, 0);
        let p = two_opt_pass(s, s.len() as int, 0);
        if p.1 {
            lemma_passes_travel(p.0, (k - 1) as nat);
        }
    }
}

/// 2-opt never makes the travel longer: whatever the iteration cap, the optimized
/// ordering's travel is at most the given ordering's, and a pass that applies a
/// reversal shortens it.
pub proof fn two_opt_never_lengthens(s: Seq<PaintSegment>, max_iterations: usize)
    ensures
        travel(two_opt(s, max_iterations)) <= travel(s),
        two_opt_pass(s, s.len() as int, 0).1 ==> travel(two_opt_pass(s, s.len() as int, 0).0) < travel(s),
{
    lemma_pass_travel(s, s.len() as int, 0);
    if s.len() > 2 {
        lemma_passes_travel(s, two_opt_budget(s, max_iterations));
    }
}

proof fn lemma_quiet_scan(s: Seq<PaintSegment>, n: int, i: int, j: int)
    requires
        s.len() == n,
        0 <= i,
        i + 2 <= j,
        !scan_reversals(s, n, i, j).1,
    ensures
        scan_reversals(s, n, i, j).0 == s,
        forall|k: int| j <= k < n ==> !improves(s, i, k),
    decreases n - j,
{
    if j < n {
        lemma_quiet_scan(s, n, i, j + 1);
    }
}

proof fn lemma_quiet_pass(s: Seq<PaintSegment>, n: int, i: int)
    requires
        s.len() == n,
        0 <= i,
        !two_opt_pass(s, n, i).1,
    ensures
        two_opt_pass(s, n, i).0 == s,
        forall|a: int, b: int| i <= a && a + 2 <= b < n ==> !improves(s, a, b),
    decreases n - i,
{
    if i + 1 < n {
        lemma_quiet_scan(s, n, i, i + 2);
        lemma_quiet_pass(s, n, i + 1);
    }
}

/// A pass that applies no reversal leaves the ordering unchanged, and then the
/// ordering is 2-opt optimal: no reversal of a sub-path `s[i+1..=j]` would shorten
/// its travel.
pub proof fn converged_pass_is_locally_optimal(s: Seq<PaintSegment>)
    requires
        !two_opt_pass(s, s.len() as int, 0).1,
    ensures
        two_opt_pass(s, s.len() as int, 0).0 == s,
        forall|i: int, j: int| 0 <= i && i + 2 <= j < s.len() ==> !improves(s, i, j),
{
    lemma_quiet_pass(s, s.len() as int, 0);
}

proof fn lemma_passes_settle(s: Seq<PaintSegment>, k1: nat, k2: nat)
    requires
        k1 > travel(s),
        k2 > travel(s),
    ensures
        two_opt_passes(s, k1) == two_opt_passes(s, k2),
        !two_opt_pass(two_opt_passes(s, k1), s.len() as int, 0).1,
    decreases k1,
{
    let p = two_opt_pass(s, s.len() as int, 0);
    lemma_travel_bounds(s);
    lemma_pass_travel(s, s.len() as int, 0);
    lemma_pass_multiset(s, s.len() as int, 0);
    if p.1 {
        lemma_travel_bounds(p.0);
        lemma_passes_settle(p.0, (k1 - 1) as nat, (k2 - 1) as nat);
    } else {
        lemma_quiet_pass(s, s.len() as int, 0);
    }
}

/// 2-opt without an iteration cap runs to a 2-opt optimal ordering: in the
/// result, no reversal of a sub-path `r[i+1..=j]` would shorten the travel.
pub proof fn two_opt_unlimited_is_locally_optimal(s: Seq<PaintSegment>)
    ensures
        forall|i: int, j: int| 0 <= i && i + 2 <= j < s.len() ==> !#[trigger] improves(two_opt(s, 0), i, j),
{
    if s.len() > 2 {
        lemma_travel_bounds(s);
        let k = two_opt_budget(s, 0);
        lemma_passes_settle(s, k, k);
        lemma_passes_multiset(s, k);
        converged_pass_is_locally_optimal(two_opt(s, 0));
    }
}

/// One full 2-opt pass; returns whether any reversal was applied.
fn run_pass(segments: &mut Vec<PaintSegment>) -> (improved: bool)
    requires
        2 < old(segments)@.len() <= isize::MAX,
    ensures
        (final(segments)@, improved) == two_opt_pass(old(segments)@, old(segments)@.len() as int, 0),
{
    let n = segments.len();
    let ghost target = two_opt_pass(segments@, n as int, 0);
    let mut fwd = prefix_travels(segments, false);
    let mut bwd = prefix_travels(segments, true);
    let mut improved = false;
    let mut i: usize = 0;
    while i + 1 < n
        invariant
            segments@.len() == n,
            2 < n <= isize::MAX,
            0 <= i < n,
            fwd@.len() == n,
            bwd@.len() == n,
            forall|k: int| 0 <= k < n ==> (#[trigger] fwd@[k]) == travel(segments@.take(k + 1)),
            forall|k: int| 0 <= k < n ==> (#[trigger] bwd@[k]) == back_travel(segments@.take(k + 1)),
            two_opt_pass(segments@, n as int, i as int).0 == target.0,
            (improved || two_opt_pass(segments@, n as int, i as int).1) == target.1,
        decreases n - i,
    {
        let mut j: usize = i + 2;
        while j < n
            invariant
                segments@.len() == n,
                2 < n <= isize::MAX,
                i + 1 < n,
                i + 2 <= j <= n,
                fwd@.len() == n,
                bwd@.len() == n,
                forall|k: int| 0 <= k < n ==> (#[trigger] fwd@[k]) == travel(segments@.take(k + 1)),
                forall|k: int| 0 <= k < n ==> (#[trigger] bwd@[k]) == back_travel(segments@.take(k + 1)),
                two_opt_pass(scan_reversals(segments@, n as int, i as int, j as int).0, n as int, i + 1).0
                    == target.0,
                (improved || scan_reversals(segments@, n as int, i as int, j as int).1
                    || two_opt_pass(
                    scan_reversals(segments@, n as int, i as int, j as int).0,
                    n as int,
                    i + 1,
                ).1) == target.1,
            decreases n - j,
        {
            if reversal_improves(segments, &fwd, &bwd, i, j) {
                reverse_range(segments, i + 1, j);
                fwd = prefix_travels(segments, false);
                bwd = prefix_travels(segments, true);
                improved = true;
            }
            j += 1;
        }
        i += 1;
    }
    improved
}

/// Apply 2-opt local search to improve a segment ordering.
///
/// Repeatedly reverses the order of a sub-path when that shortens the travel of
/// the whole ordering (the squared lengths of the moves between segments,
/// summed), so the travel never grows. `max_iterations` caps the number of full
/// passes (0 = run until a pass changes nothing). Orderings of at most two
/// segments are left as they are.
pub fn optimize_2opt(segments: &mut Vec<PaintSegment>, max_iterations: usize)
    requires
        old(segments)@.len() <= isize::MAX,
    ensures
        final(segments)@ == two_opt(old(segments)@, max_iterations),
        travel(final(segments)@) <= travel(old(segments)@),
        max_iterations == 0 ==> forall|i: int, j: int|
            0 <= i && i + 2 <= j < final(segments)@.len() ==> !#[trigger] improves(final(segments)@, i, j),
{
    proof {
        two_opt_never_lengthens(segments@, max_iterations);
        two_opt_unlimited_is_locally_optimal(segments@);
        two_opt_is_permutation(segments@, max_iterations);
    }
    let n = segments.len();
    if n <= 2 {
        return ;
    }
    let ghost target = two_opt(segments@, max_iterations);
    if max_iterations == 0 {
        // passes until one changes nothing; each pass that changes the ordering
        // shortens its travel
        let mut done = false;
        proof {
            lemma_travel_bounds(segments@);
        }
        while !done
            invariant
                segments@.len() == n,
                2 < n <= isize::MAX,
                done ==> segments@ == target,
                !done ==> two_opt_passes(segments@, (travel(segments@) + 1) as nat) == target,
                travel(segments@) >= 0,
            decreases travel(segments@) + if done { 0int } else { 1int },
        {
            let ghost prev = segments@;
            let improved = run_pass(segments);
            proof {
                lemma_pass_multiset(prev, n as int, 0);
                lemma_pass_travel(prev, n as int, 0);
                lemma_travel_bounds(segments@);
                if improved {
                    lemma_passes_settle(segments@, travel(prev) as nat, (travel(segments@) + 1) as nat);
                }
            }
            if !improved {
                done = true;
            }
        }
        return ;
    }
    let cap: usize = max_iterations;
    let mut iteration: usize = 0;
    let mut done = false;
    while !done && iteration < cap
        invariant
            0 <= iteration <= cap,
            done ==> segments@ == target,
            !done ==> segments@.len() == n && two_opt_passes(segments@, (cap - iteration) as nat)
                == target,
            2 < n <= isize::MAX,
        decreases cap - iteration,
    {
        let ghost prev = segments@;
        let improved = run_pass(segments);
        proof {
            lemma_pass_multiset(prev, n as int, 0);
        }
        iteration += 1;
        if !improved {
            done = true;
        }
    }
}

} // verus!
