//! Nearest-neighbor ordering of pixels and segments to shorten mouse travel.

use vstd::prelude::*;
use super::segments::{PaintSegment, seg_start, seg_end};
use vstd::seq_lib::{to_multiset_build, to_multiset_insert, to_multiset_update, to_multiset_contains};

verus! {

/// Squared Euclidean distance between two points.
pub open spec fn sq_dist(a: (u32, u32), b: (u32, u32)) -> int {
    (a.0 - b.0) * (a.0 - b.0) + (a.1 - b.1) * (a.1 - b.1)
}

/// `s` with its element at `i` replaced by its last element, and the last dropped
/// (what `Vec::swap_remove` leaves).
pub open spec fn swap_removed<A>(s: Seq<A>, i: int) -> Seq<A> {
    s.update(i, s.last()).drop_last()
}

/// Index of the first point among `rem[0..n]` nearest to `from`.
pub open spec fn nearest_point(from: (u32, u32), rem: Seq<(u32, u32)>, n: int) -> int
    decreases n,
{
    if n <= 1 {
        0
    } else {
        let b = nearest_point(from, rem, n - 1);
        if sq_dist(from, rem[n - 1]) < sq_dist(from, rem[b]) {
            n - 1
        } else {
            b
        }
    }
}

/// Greedy tour from `from` through all of `rem`: repeatedly take the nearest
/// remaining point (the first of equally near ones), removing it as `swap_remove` does.
pub open spec fn nearest_chain(from: (u32, u32), rem: Seq<(u32, u32)>) -> Seq<(u32, u32)>
    decreases rem.len(),
{
    if rem.len() == 0 {
        Seq::empty()
    } else {
        let i = nearest_point(from, rem, rem.len() as int);
        if 0 <= i < rem.len() {
            seq![rem[i]] + nearest_chain(rem[i], swap_removed(rem, i))
        } else {
            Seq::empty()
        }
    }
}

/// Nearest-neighbor order of pixels: the first pixel, then the greedy tour through the rest.
pub open spec fn nearest_neighbor_pixels(pixels: Seq<(u32, u32)>) -> Seq<(u32, u32)> {
    if pixels.len() <= 1 {
        pixels
    } else {
        seq![pixels[0]] + nearest_chain(pixels[0], swap_removed(pixels, 0))
    }
}

/// Index of the first segment among `rem[0..n]` whose start is nearest to `from`.
pub open spec fn nearest_segment(from: (u32, u32), rem: Seq<PaintSegment>, n: int) -> int
    decreases n,
{
    if n <= 1 {
        0
    } else {
        let b = nearest_segment(from, rem, n - 1);
        if sq_dist(from, seg_start(rem[n - 1])) < sq_dist(from, seg_start(rem[b])) {
            n - 1
        } else {
            b
        }
    }
}

/// Greedy tour through segments: from the end of the last segment drawn to the
/// remaining segment that starts nearest.
pub open spec fn segment_chain(from: (u32, u32), rem: Seq<PaintSegment>) -> Seq<PaintSegment>
    decreases rem.len(),
{
    if rem.len() == 0 {
        Seq::empty()
    } else {
        let i = nearest_segment(from, rem, rem.len() as int);
        if 0 <= i < rem.len() {
            seq![rem[i]] + segment_chain(seg_end(rem[i]), swap_removed(rem, i))
        } else {
            Seq::empty()
        }
    }
}

/// Nearest-neighbor order of segments: the first segment, then the greedy tour.
pub open spec fn nearest_neighbor_segments(segments: Seq<PaintSegment>) -> Seq<PaintSegment> {
    if segments.len() <= 1 {
        segments
    } else {
        seq![segments[0]] + segment_chain(seg_end(segments[0]), swap_removed(segments, 0))
    }
}

proof fn lemma_nearest_point_range(from: (u32, u32), rem: Seq<(u32, u32)>, n: int)
    requires
        n >= 1,
    ensures
        0 <= nearest_point(from, rem, n) < n,
    decreases n,
{
    if n > 1 {
        lemma_nearest_point_range(from, rem, n - 1);
    }
}

proof fn lemma_nearest_segment_range(from: (u32, u32), rem: Seq<PaintSegment>, n: int)
    requires
        n >= 1,
    ensures
        0 <= nearest_segment(from, rem, n) < n,
    decreases n,
{
    if n > 1 {
        lemma_nearest_segment_range(from, rem, n - 1);
    }
}


proof fn lemma_swap_removed_multiset<A>(s: Seq<A>, i: int)
    requires
        0 <= i < s.len(),
    ensures
        swap_removed(s, i).to_multiset().insert(s[i]) == s.to_multiset(),
        swap_removed(s, i).len() == s.len() - 1,
{
    broadcast use vstd::multiset::group_multiset_axioms;

    let u = s.update(i, s.last());
    let r = swap_removed(s, i);
    to_multiset_update(s, i, s.last());
    assert(r.push(u.last()) =~= u);
    to_multiset_build(r, u.last());
    assert(u.last() == s.last());
    to_multiset_contains(s, s[i]);
    assert(s.to_multiset().count(s[i]) > 0);
    assert forall|v: A| #[trigger] r.to_multiset().insert(s[i]).count(v) == s.to_multiset().count(v) by {
        assert(u.to_multiset().count(v) == r.to_multiset().count(v) + if v == s.last() { 1int } else { 0int });
        assert(u.to_multiset().count(v) == s.to_multiset().count(v) + (if v == s.last() { 1int } else { 0int }) - (if v == s[i] { 1int } else { 0int }));
    }
    assert(r.to_multiset().insert(s[i]) =~= s.to_multiset());
}

proof fn lemma_nearest_chain_multiset(from: (u32, u32), rem: Seq<(u32, u32)>)
    ensures
        nearest_chain(from, rem).to_multiset() == rem.to_multiset(),
        nearest_chain(from, rem).len() == rem.len(),
    decreases rem.len(),
{
    broadcast use vstd::multiset::group_multiset_axioms;

    if rem.len() > 0 {
        let i = nearest_point(from, rem, rem.len() as int);
        lemma_nearest_point_range(from, rem, rem.len() as int);
        lemma_swap_removed_multiset(rem, i);
        lemma_nearest_chain_multiset(rem[i], swap_removed(rem, i));
        let tail = nearest_chain(rem[i], swap_removed(rem, i));
        assert(seq![rem[i]] + tail =~= tail.insert(0, rem[i]));
        to_multiset_insert(tail, 0, rem[i]);
        assert(nearest_chain(from, rem).to_multiset() =~= rem.to_multiset());
    } else {
        assert(nearest_chain(from, rem) =~= rem);
    }
}

proof fn lemma_segment_chain_multiset(from: (u32, u32), rem: Seq<PaintSegment>)
    ensures
        segment_chain(from, rem).to_multiset() == rem.to_multiset(),
        segment_chain(from, rem).len() == rem.len(),
    decreases rem.len(),
{
    broadcast use vstd::multiset::group_multiset_axioms;

    if rem.len() > 0 {
        let i = nearest_segment(from, rem, rem.len() as int);
        lemma_nearest_segment_range(from, rem, rem.len() as int);
        lemma_swap_removed_multiset(rem, i);
        lemma_segment_chain_multiset(seg_end(rem[i]), swap_removed(rem, i));
        let tail = segment_chain(seg_end(rem[i]), swap_removed(rem, i));
        assert(seq![rem[i]] + tail =~= tail.insert(0, rem[i]));
        to_multiset_insert(tail, 0, rem[i]);
        assert(segment_chain(from, rem).to_multiset() =~= rem.to_multiset());
    } else {
        assert(segment_chain(from, rem) =~= rem);
    }
}

/// Nearest-neighbor ordering only reorders: every pixel comes out exactly as
/// often as it went in.
pub proof fn nearest_neighbor_pixels_is_permutation(pixels: Seq<(u32, u32)>)
    ensures
        nearest_neighbor_pixels(pixels).to_multiset() == pixels.to_multiset(),
        nearest_neighbor_pixels(pixels).len() == pixels.len(),
        pixels.len() > 0 ==> nearest_neighbor_pixels(pixels)[0] == pixels[0],
{
    broadcast use vstd::multiset::group_multiset_axioms;

    if pixels.len() > 1 {
        lemma_swap_removed_multiset(pixels, 0);
        lemma_nearest_chain_multiset(pixels[0], swap_removed(pixels, 0));
        let tail = nearest_chain(pixels[0], swap_removed(pixels, 0));
        assert(seq![pixels[0]] + tail =~= tail.insert(0, pixels[0]));
        to_multiset_insert(tail, 0, pixels[0]);
        assert(nearest_neighbor_pixels(pixels).to_multiset() =~= pixels.to_multiset());
    }
}

/// Nearest-neighbor ordering of segments only reorders: every segment comes out
/// exactly as often as it went in, and the first one stays first.
pub proof fn nearest_neighbor_segments_is_permutation(segments: Seq<PaintSegment>)
    ensures
        nearest_neighbor_segments(segments).to_multiset() == segments.to_multiset(),
        nearest_neighbor_segments(segments).len() == segments.len(),
        segments.len() > 0 ==> nearest_neighbor_segments(segments)[0] == segments[0],
{
    broadcast use vstd::multiset::group_multiset_axioms;

    if segments.len() > 1 {
        lemma_swap_removed_multiset(segments, 0);
        lemma_segment_chain_multiset(seg_end(segments[0]), swap_removed(segments, 0));
        let tail = segment_chain(seg_end(segments[0]), swap_removed(segments, 0));
        assert(seq![segments[0]] + tail =~= tail.insert(0, segments[0]));
        to_multiset_insert(tail, 0, segments[0]);
        assert(nearest_neighbor_segments(segments).to_multiset() =~= segments.to_multiset());
    }
}

/// Exact squared distance between two points.
pub fn point_dist_sq(a: (u32, u32), b: (u32, u32)) -> (d: u128)
    ensures
        d == sq_dist(a, b),
        d <= 36893488147419103232,
{
    let dx: u128 = if a.0 >= b.0 {
        (a.0 - b.0) as u128
    } else {
        (b.0 - a.0) as u128
    };
    let dy: u128 = if a.1 >= b.1 {
        (a.1 - b.1) as u128
    } else {
        (b.1 - a.1) as u128
    };
    assert(dx * dx <= 18446744073709551616 && dy * dy <= 18446744073709551616) by (nonlinear_arith)
        requires
            dx < 4294967296,
            dy < 4294967296,
    ;
    assert(dx * dx == (a.0 - b.0) * (a.0 - b.0)) by (nonlinear_arith)
        requires
            dx == (a.0 - b.0) || dx == (b.0 - a.0),
    ;
    assert(dy * dy == (a.1 - b.1) * (a.1 - b.1)) by (nonlinear_arith)
        requires
            dy == (a.1 - b.1) || dy == (b.1 - a.1),
    ;
    dx * dx + dy * dy
}

fn nearest_point_index(from: (u32, u32), rem: &Vec<(u32, u32)>) -> (best: usize)
    requires
        rem@.len() > 0,
    ensures
        best == nearest_point(from, rem@, rem@.len() as int),
        best < rem@.len(),
{
    let mut best: usize = 0;
    let mut best_dist: u128 = u128::MAX;
    let mut i: usize = 0;
    while i < rem.len()
        invariant
            0 <= i <= rem@.len(),
            i == 0 ==> best == 0 && best_dist == u128::MAX,
            i > 0 ==> best == nearest_point(from, rem@, i as int) && best < i && best_dist == sq_dist(
                from,
                rem@[best as int],
            ),
        decreases rem@.len() - i,
    {
        let d = point_dist_sq(from, rem[i]);
        proof {
            if i > 0 {
                lemma_nearest_point_range(from, rem@, i as int);
            }
            assert(d <= 36893488147419103232);
        }
        if d < best_dist {
            best = i;
            best_dist = d;
        }
        i += 1;
    }
    best
}

fn nearest_segment_index(from: (u32, u32), rem: &Vec<PaintSegment>) -> (best: usize)
    requires
        rem@.len() > 0,
    ensures
        best == nearest_segment(from, rem@, rem@.len() as int),
        best < rem@.len(),
{
    let mut best: usize = 0;
    let mut best_dist: u128 = u128::MAX;
    let mut i: usize = 0;
    while i < rem.len()
        invariant
            0 <= i <= rem@.len(),
            i == 0 ==> best == 0 && best_dist == u128::MAX,
            i > 0 ==> best == nearest_segment(from, rem@, i as int) && best < i && best_dist
                == sq_dist(from, seg_start(rem@[best as int])),
        decreases rem@.len() - i,
    {
        let d = point_dist_sq(from, rem[i].start_point());
        proof {
            assert(d <= 36893488147419103232);
        }
        if d < best_dist {
            best = i;
            best_dist = d;
        }
        i += 1;
    }
    best
}

/// Order pixels using the nearest-neighbor heuristic to shorten total mouse travel:
/// start at the first pixel and repeatedly move to the nearest remaining one.
pub fn nearest_neighbor_order(pixels: &[(u32, u32)]) -> (ordered: Vec<(u32, u32)>)
    ensures
        ordered@ == nearest_neighbor_pixels(pixels@),
{
    let mut remaining: Vec<(u32, u32)> = Vec::new();
    let mut k: usize = 0;
    while k < pixels.len()
        invariant
            0 <= k <= pixels@.len(),
            remaining@ == pixels@.take(k as int),
        decreases pixels@.len() - k,
    {
        remaining.push(pixels[k]);
        proof {
            assert(remaining@ =~= pixels@.take(k + 1));
        }
        k += 1;
    }
    proof {
        assert(remaining@ =~= pixels@);
    }
    if remaining.len() <= 1 {
        return remaining;
    }
    let mut result: Vec<(u32, u32)> = Vec::new();
    let first = remaining.swap_remove(0);
    result.push(first);
    while remaining.len() > 0
        invariant
            result@.len() > 0,
            nearest_neighbor_pixels(pixels@) == result@ + nearest_chain(result@.last(), remaining@),
        decreases remaining@.len(),
    {
        let last = result[result.len() - 1];
        let best = nearest_point_index(last, &remaining);
        let ghost rem = remaining@;
        let ghost res = result@;
        let p = remaining.swap_remove(best);
        result.push(p);
        proof {
            assert(nearest_chain(last, rem) == seq![p] + nearest_chain(p, remaining@));
            assert(result@ + nearest_chain(p, remaining@) =~= res + (seq![p] + nearest_chain(p, remaining@)));
        }
    }
    proof {
        assert(result@ + nearest_chain(result@.last(), remaining@) =~= result@);
    }
    result
}

/// Order segments using the nearest-neighbor heuristic: after the first segment,
/// repeatedly take the remaining segment whose start is nearest to where the
/// previous segment ended.
pub fn nearest_neighbor_order_segments(segments: &[PaintSegment]) -> (ordered: Vec<PaintSegment>)
    ensures
        ordered@ == nearest_neighbor_segments(segments@),
{
    let mut remaining: Vec<PaintSegment> = Vec::new();
    let mut k: usize = 0;
    while k < segments.len()
        invariant
            0 <= k <= segments@.len(),
            remaining@ == segments@.take(k as int),
        decreases segments@.len() - k,
    {
        remaining.push(segments[k]);
        proof {
            assert(remaining@ =~= segments@.take(k + 1));
        }
        k += 1;
    }
    proof {
        assert(remaining@ =~= segments@);
    }
    if remaining.len() <= 1 {
        return remaining;
    }
    let mut result: Vec<PaintSegment> = Vec::new();
    let first = remaining.swap_remove(0);
    result.push(first);
    while remaining.len() > 0
        invariant
            result@.len() > 0,
            nearest_neighbor_segments(segments@) == result@ + segment_chain(
                seg_end(result@.last()),
                remaining@,
            ),
        decreases remaining@.len(),
    {
        let last = result[result.len() - 1].end_point();
        let best = nearest_segment_index(last, &remaining);
        let ghost rem = remaining@;
        let ghost res = result@;
        let p = remaining.swap_remove(best);
        result.push(p);
        proof {
            assert(segment_chain(last, rem) == seq![p] + segment_chain(seg_end(p), remaining@));
            assert(result@ + segment_chain(seg_end(p), remaining@) =~= res + (seq![p] + segment_chain(
                seg_end(p),
                remaining@,
            )));
        }
    }
    proof {
        assert(result@ + segment_chain(seg_end(result@.last()), remaining@) =~= result@);
    }
    result
}

// ── each step goes to a nearest unvisited item ─────────────────────────

proof fn lemma_nearest_point_min(from: (u32, u32), rem: Seq<(u32, u32)>, n: int, t: int)
    requires
        0 <= t < n <= rem.len(),
    ensures
        sq_dist(from, rem[nearest_point(from, rem, n)]) <= sq_dist(from, rem[t]),
    decreases n,
{
    if n > 1 {
        lemma_nearest_point_range(from, rem, n - 1);
        if t < n - 1 {
            lemma_nearest_point_min(from, rem, n - 1, t);
        }
    }
}

proof fn lemma_nearest_segment_min(from: (u32, u32), rem: Seq<PaintSegment>, n: int, t: int)
    requires
        0 <= t < n <= rem.len(),
    ensures
        sq_dist(from, seg_start(rem[nearest_segment(from, rem, n)])) <= sq_dist(from, seg_start(rem[t])),
    decreases n,
{
    if n > 1 {
        lemma_nearest_segment_range(from, rem, n - 1);
        if t < n - 1 {
            lemma_nearest_segment_min(from, rem, n - 1, t);
        }
    }
}

/// An item of a sequence with the same items as `s` is an item of `s`.
proof fn lemma_same_items<A>(a: Seq<A>, s: Seq<A>, m: int) -> (t: int)
    requires
        a.to_multiset() == s.to_multiset(),
        0 <= m < a.len(),
    ensures
        0 <= t < s.len(),
        s[t] == a[m],
{
    to_multiset_contains(a, a[m]);
    assert(a.contains(a[m]));
    to_multiset_contains(s, a[m]);
    choose|t: int| 0 <= t < s.len() && s[t] == a[m]
}

proof fn lemma_chain_greedy(from: (u32, u32), rem: Seq<(u32, u32)>)
    ensures
        ({
            let c = nearest_chain(from, rem);
            &&& forall|m: int| 0 <= m < c.len() ==> sq_dist(from, c[0]) <= #[trigger] sq_dist(from, c[m])
            &&& forall|k: int, m: int|
                0 <= k && k + 1 < m < c.len() ==> sq_dist(c[k], c[k + 1]) <= #[trigger] sq_dist(c[k], c[m])
        }),
    decreases rem.len(),
{
    let c = nearest_chain(from, rem);
    lemma_nearest_chain_multiset(from, rem);
    if rem.len() > 0 {
        let i = nearest_point(from, rem, rem.len() as int);
        lemma_nearest_point_range(from, rem, rem.len() as int);
        let sr = swap_removed(rem, i);
        let tail = nearest_chain(rem[i], sr);
        lemma_chain_greedy(rem[i], sr);
        assert(c == seq![rem[i]] + tail);
        assert forall|m: int| 0 <= m < c.len() implies sq_dist(from, c[0]) <= #[trigger] sq_dist(from, c[m]) by {
            let t = lemma_same_items(c, rem, m);
            lemma_nearest_point_min(from, rem, rem.len() as int, t);
        }
        assert forall|k: int, m: int|
            0 <= k && k + 1 < m < c.len() implies sq_dist(c[k], c[k + 1]) <= #[trigger] sq_dist(c[k], c[m]) by {
            assert(c[k + 1] == tail[k]);
            assert(c[m] == tail[m - 1]);
            if k == 0 {
                assert(sq_dist(rem[i], tail[0]) <= sq_dist(rem[i], tail[m - 1]));
            } else {
                assert(c[k] == tail[k - 1]);
                assert(sq_dist(tail[k - 1], tail[k]) <= sq_dist(tail[k - 1], tail[m - 1]));
            }
        }
    }
}

proof fn lemma_segment_chain_greedy(from: (u32, u32), rem: Seq<PaintSegment>)
    ensures
        ({
            let c = segment_chain(from, rem);
            &&& forall|m: int| 0 <= m < c.len() ==> sq_dist(from, seg_start(c[0])) <= #[trigger] sq_dist(from, seg_start(c[m]))
            &&& forall|k: int, m: int|
                0 <= k && k + 1 < m < c.len() ==> sq_dist(seg_end(c[k]), seg_start(c[k + 1]))
                    <= #[trigger] sq_dist(seg_end(c[k]), seg_start(c[m]))
        }),
    decreases rem.len(),
{
    let c = segment_chain(from, rem);
    lemma_segment_chain_multiset(from, rem);
    if rem.len() > 0 {
        let i = nearest_segment(from, rem, rem.len() as int);
        lemma_nearest_segment_range(from, rem, rem.len() as int);
        let sr = swap_removed(rem, i);
        let tail = segment_chain(seg_end(rem[i]), sr);
        lemma_segment_chain_greedy(seg_end(rem[i]), sr);
        assert(c == seq![rem[i]] + tail);
        assert forall|m: int| 0 <= m < c.len() implies sq_dist(from, seg_start(c[0])) <= #[trigger] sq_dist(
            from,
            seg_start(c[m]),
        ) by {
            let t = lemma_same_items(c, rem, m);
            lemma_nearest_segment_min(from, rem, rem.len() as int, t);
        }
        assert forall|k: int, m: int|
            0 <= k && k + 1 < m < c.len() implies sq_dist(seg_end(c[k]), seg_start(c[k + 1]))
                <= #[trigger] sq_dist(seg_end(c[k]), seg_start(c[m])) by {
            assert(c[k + 1] == tail[k]);
            assert(c[m] == tail[m - 1]);
            if k == 0 {
                assert(sq_dist(seg_end(rem[i]), seg_start(tail[0])) <= sq_dist(seg_end(rem[i]), seg_start(tail[m - 1])));
            } else {
                assert(c[k] == tail[k - 1]);
                assert(sq_dist(seg_end(tail[k - 1]), seg_start(tail[k])) <= sq_dist(
                    seg_end(tail[k - 1]),
                    seg_start(tail[m - 1]),
                ));
            }
        }
    }
}

/// Each step of the nearest-neighbor pixel order goes to a nearest pixel not yet
/// visited: no later pixel is closer to the current one than the next.
pub proof fn nearest_neighbor_pixels_is_greedy(pixels: Seq<(u32, u32)>)
    ensures
        ({
            let r = nearest_neighbor_pixels(pixels);
            forall|k: int, m: int|
                0 <= k && k + 1 < m < r.len() ==> sq_dist(r[k], r[k + 1]) <= #[trigger] sq_dist(r[k], r[m])
        }),
{
    let r = nearest_neighbor_pixels(pixels);
    if pixels.len() > 1 {
        let sr = swap_removed(pixels, 0);
        let tail = nearest_chain(pixels[0], sr);
        lemma_chain_greedy(pixels[0], sr);
        assert forall|k: int, m: int|
            0 <= k && k + 1 < m < r.len() implies sq_dist(r[k], r[k + 1]) <= #[trigger] sq_dist(r[k], r[m]) by {
            assert(r[k + 1] == tail[k]);
            assert(r[m] == tail[m - 1]);
            if k == 0 {
                assert(sq_dist(pixels[0], tail[0]) <= sq_dist(pixels[0], tail[m - 1]));
            } else {
                assert(r[k] == tail[k - 1]);
                assert(sq_dist(tail[k - 1], tail[k]) <= sq_dist(tail[k - 1], tail[m - 1]));
            }
        }
    }
}

/// Each step of the nearest-neighbor segment order goes, from the end of the
/// current segment, to a segment not yet drawn whose start is nearest.
pub proof fn nearest_neighbor_segments_is_greedy(segments: Seq<PaintSegment>)
    ensures
        ({
            let r = nearest_neighbor_segments(segments);
            forall|k: int, m: int|
                0 <= k && k + 1 < m < r.len() ==> sq_dist(seg_end(r[k]), seg_start(r[k + 1]))
                    <= #[trigger] sq_dist(seg_end(r[k]), seg_start(r[m]))
        }),
{
    let r = nearest_neighbor_segments(segments);
    if segments.len() > 1 {
        let sr = swap_removed(segments, 0);
        let tail = segment_chain(seg_end(segments[0]), sr);
        lemma_segment_chain_greedy(seg_end(segments[0]), sr);
        assert forall|k: int, m: int|
            0 <= k && k + 1 < m < r.len() implies sq_dist(seg_end(r[k]), seg_start(r[k + 1]))
                <= #[trigger] sq_dist(seg_end(r[k]), seg_start(r[m])) by {
            assert(r[k + 1] == tail[k]);
            assert(r[m] == tail[m - 1]);
            if k == 0 {
                assert(sq_dist(seg_end(segments[0]), seg_start(tail[0])) <= sq_dist(
                    seg_end(segments[0]),
                    seg_start(tail[m - 1]),
                ));
            } else {
                assert(r[k] == tail[k - 1]);
                assert(sq_dist(seg_end(tail[k - 1]), seg_start(tail[k])) <= sq_dist(
                    seg_end(tail[k - 1]),
                    seg_start(tail[m - 1]),
                ));
            }
        }
    }
}

} // verus!
