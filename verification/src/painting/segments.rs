//! Paint segments: single pixels and horizontal line runs, and their detection.

use vstd::prelude::*;
use crate::sorted::{is_sorted, is_strictly_sorted, sort_keys, dedup_sorted, search_key};

verus! {

broadcast use vstd::seq_lib::group_to_multiset_ensures;

/// A paint segment - either a single pixel or a horizontal line run.
#[derive(Debug, Clone, Copy, PartialEq, Eq)]
pub enum PaintSegment {
    /// Single pixel at (x, y).
    Pixel(u32, u32),
    /// Horizontal line from (x_start, y) to (x_end, y) inclusive.
    HLine { y: u32, x_start: u32, x_end: u32 },
}

/// Where painting of the segment starts.
pub open spec fn seg_start(s: PaintSegment) -> (u32, u32) {
    match s {
        PaintSegment::Pixel(x, y) => (x, y),
        PaintSegment::HLine { y, x_start, .. } => (x_start, y),
    }
}

/// Where painting of the segment ends.
pub open spec fn seg_end(s: PaintSegment) -> (u32, u32) {
    match s {
        PaintSegment::Pixel(x, y) => (x, y),
        PaintSegment::HLine { y, x_end, .. } => (x_end, y),
    }
}

/// Number of pixels painted by the segment.
pub open spec fn seg_pixel_count(s: PaintSegment) -> int {
    match s {
        PaintSegment::Pixel(_, _) => 1,
        PaintSegment::HLine { x_start, x_end, .. } => x_end - x_start + 1,
    }
}

impl PaintSegment {
    pub fn start_point(&self) -> (p: (u32, u32))
        ensures
            p == seg_start(*self),
    {
        match self {
            PaintSegment::Pixel(x, y) => (*x, *y),
            PaintSegment::HLine { y, x_start, .. } => (*x_start, *y),
        }
    }

    pub fn end_point(&self) -> (p: (u32, u32))
        ensures
            p == seg_end(*self),
    {
        match self {
            PaintSegment::Pixel(x, y) => (*x, *y),
            PaintSegment::HLine { y, x_end, .. } => (*x_end, *y),
        }
    }

    pub fn pixel_count(&self) -> (n: u32)
        requires
            *self matches PaintSegment::HLine { x_start, x_end, .. } ==> x_start <= x_end
                && x_end - x_start < u32::MAX,
        ensures
            n == seg_pixel_count(*self),
    {
        match self {
            PaintSegment::Pixel(_, _) => 1,
            PaintSegment::HLine { x_start, x_end, .. } => *x_end - *x_start + 1,
        }
    }
}

// ── runs ────────────────────────────────────────────────────────────────

/// Pixels (a..=b, y) form a maximal horizontal run of `pixels`: all present,
/// with the neighbours on either side absent.
pub open spec fn is_run(pixels: Seq<(u32, u32)>, y: u32, a: u32, b: u32) -> bool {
    &&& a <= b
    &&& forall|x: u32| a <= x <= b ==> #[trigger] pixels.contains((x, y))
    &&& a == 0 || !pixels.contains(((a - 1) as u32, y))
    &&& b == u32::MAX || !pixels.contains(((b + 1) as u32, y))
}

/// A maximal run long enough to be drawn as a line.
pub open spec fn is_line_run(pixels: Seq<(u32, u32)>, min_run: u32, y: u32, a: u32, b: u32) -> bool {
    is_run(pixels, y, a, b) && b - a + 1 >= min_run
}

/// The pixel lies on a run long enough to be drawn as a line.
pub open spec fn on_line_run(pixels: Seq<(u32, u32)>, min_run: u32, p: (u32, u32)) -> bool {
    exists|a: u32, b: u32| #[trigger] is_line_run(pixels, min_run, p.1, a, b) && a <= p.0 <= b
}

/// Sort key of a position: row first, then column.
pub open spec fn pos_key(x: u32, y: u32) -> int {
    y * 4294967296 + x
}

/// Sort key of the first pixel of a line.
pub open spec fn line_key(s: PaintSegment) -> int {
    pos_key(seg_start(s).0, seg_start(s).1)
}

/// `lines` are exactly the line runs of `pixels`, ordered by row and then column.
pub open spec fn are_line_runs_of(pixels: Seq<(u32, u32)>, min_run: u32, lines: Seq<PaintSegment>) -> bool {
    &&& forall|k: int|
        0 <= k < lines.len() ==> (#[trigger] lines[k] matches PaintSegment::HLine { y, x_start, x_end }
            && is_line_run(pixels, min_run, y, x_start, x_end))
    &&& forall|k: int, l: int|
        0 <= k < l < lines.len() ==> line_key(#[trigger] lines[k]) < line_key(#[trigger] lines[l])
    &&& forall|y: u32, a: u32, b: u32|
        #[trigger] is_line_run(pixels, min_run, y, a, b) ==> lines.contains(
            PaintSegment::HLine { y, x_start: a, x_end: b },
        )
}

/// Single-pixel segments for the pixels of `s` that lie on no line run of `all`, in order.
pub open spec fn single_pixels(all: Seq<(u32, u32)>, min_run: u32, s: Seq<(u32, u32)>) -> Seq<PaintSegment>
    decreases s.len(),
{
    if s.len() == 0 {
        Seq::empty()
    } else {
        let rest = single_pixels(all, min_run, s.drop_last());
        if on_line_run(all, min_run, s.last()) {
            rest
        } else {
            rest.push(PaintSegment::Pixel(s.last().0, s.last().1))
        }
    }
}


/// The line runs of `pixels`, ordered by row and then column.
pub open spec fn line_runs(pixels: Seq<(u32, u32)>, min_run: u32) -> Seq<PaintSegment> {
    choose|lines: Seq<PaintSegment>| are_line_runs_of(pixels, min_run, lines)
}

/// What line detection yields: the line runs, ordered by row and then column,
/// followed by the pixels on no line run, in input order, as single pixels.
pub open spec fn detected_segments(pixels: Seq<(u32, u32)>, min_run: u32) -> Seq<PaintSegment> {
    line_runs(pixels, min_run) + single_pixels(pixels, min_run, pixels)
}

/// The segment paints position `p`.
pub open spec fn covers(seg: PaintSegment, p: (u32, u32)) -> bool {
    match seg {
        PaintSegment::Pixel(x, y) => p == (x, y),
        PaintSegment::HLine { y, x_start, x_end } => p.1 == y && x_start <= p.0 <= x_end,
    }
}


proof fn lemma_single_pixels_members(all: Seq<(u32, u32)>, min_run: u32, s: Seq<(u32, u32)>)
    ensures
        forall|k: int|
            0 <= k < single_pixels(all, min_run, s).len() ==> {
                let seg = #[trigger] single_pixels(all, min_run, s)[k];
                seg matches PaintSegment::Pixel(x, y) && s.contains((x, y)) && !on_line_run(
                    all,
                    min_run,
                    (x, y),
                )
            },
        forall|i: int|
            0 <= i < s.len() && !on_line_run(all, min_run, #[trigger] s[i]) ==> single_pixels(
                all,
                min_run,
                s,
            ).contains(PaintSegment::Pixel(s[i].0, s[i].1)),
    decreases s.len(),
{
    if s.len() > 0 {
        let t = s.drop_last();
        lemma_single_pixels_members(all, min_run, t);
        let rest = single_pixels(all, min_run, t);
        let sp = single_pixels(all, min_run, s);
        assert forall|k: int| 0 <= k < sp.len() implies {
            let seg = #[trigger] sp[k];
            seg matches PaintSegment::Pixel(x, y) && s.contains((x, y)) && !on_line_run(all, min_run, (x, y))
        } by {
            if k < rest.len() {
                assert(sp[k] == rest[k]);
                if let PaintSegment::Pixel(x, y) = rest[k] {
                    let w = choose|w: int| 0 <= w < t.len() && t[w] == (x, y);
                    assert(s[w] == (x, y));
                }
            } else {
                assert(s[s.len() - 1] == s.last());
            }
        }
        assert forall|i: int| 0 <= i < s.len() && !on_line_run(all, min_run, #[trigger] s[i]) implies sp.contains(
            PaintSegment::Pixel(s[i].0, s[i].1),
        ) by {
            if i < t.len() {
                assert(t[i] == s[i]);
                let w = choose|w: int| 0 <= w < rest.len() && rest[w] == PaintSegment::Pixel(s[i].0, s[i].1);
                assert(sp[w] == rest[w]);
            } else {
                assert(sp[sp.len() - 1] == PaintSegment::Pixel(s[i].0, s[i].1));
            }
        }
    }
}

/// Two sequences strictly ordered by `line_key`, with the same members, where
/// members with equal keys are equal, are the same sequence.
proof fn lemma_sorted_same_members(l1: Seq<PaintSegment>, l2: Seq<PaintSegment>)
    requires
        forall|k: int, l: int| 0 <= k < l < l1.len() ==> line_key(#[trigger] l1[k]) < line_key(#[trigger] l1[l]),
        forall|k: int, l: int| 0 <= k < l < l2.len() ==> line_key(#[trigger] l2[k]) < line_key(#[trigger] l2[l]),
        forall|x: PaintSegment| l1.contains(x) <==> l2.contains(x),
        forall|x: PaintSegment, z: PaintSegment|
            l1.contains(x) && l1.contains(z) && line_key(x) == line_key(z) ==> x == z,
    ensures
        l1 == l2,
    decreases l1.len(),
{
    if l1.len() == 0 {
        if l2.len() > 0 {
            assert(l2.contains(l2[0]));
        }
        assert(l1 =~= l2);
    } else {
        let s1 = l1[0];
        assert(l1.contains(s1));
        let s2 = l2[0];
        assert(l2.contains(s2));
        let i = choose|i: int| 0 <= i < l1.len() && l1[i] == s2;
        let j = choose|j: int| 0 <= j < l2.len() && l2[j] == s1;
        if i > 0 {
            assert(line_key(l1[0]) < line_key(l1[i]));
        }
        if j > 0 {
            assert(line_key(l2[0]) < line_key(l2[j]));
        }
        assert(s1 == s2);
        let t1 = l1.drop_first();
        let t2 = l2.drop_first();
        assert forall|x: PaintSegment| t1.contains(x) <==> t2.contains(x) by {
            if t1.contains(x) {
                let u = choose|u: int| 0 <= u < t1.len() && t1[u] == x;
                assert(line_key(l1[0]) < line_key(l1[u + 1]));
                assert(l1.contains(x));
                let w = choose|w: int| 0 <= w < l2.len() && l2[w] == x;
                assert(w != 0);
                assert(t2[w - 1] == x);
            }
            if t2.contains(x) {
                let u = choose|u: int| 0 <= u < t2.len() && t2[u] == x;
                assert(line_key(l2[0]) < line_key(l2[u + 1]));
                assert(l2.contains(x));
                let w = choose|w: int| 0 <= w < l1.len() && l1[w] == x;
                assert(w != 0);
                assert(t1[w - 1] == x);
            }
        }
        assert forall|x: PaintSegment, z: PaintSegment|
            t1.contains(x) && t1.contains(z) && line_key(x) == line_key(z) implies x == z by {
            let u = choose|u: int| 0 <= u < t1.len() && t1[u] == x;
            let w = choose|w: int| 0 <= w < t1.len() && t1[w] == z;
            assert(l1.contains(x) && l1[u + 1] == x);
            assert(l1.contains(z) && l1[w + 1] == z);
        }
        lemma_sorted_same_members(t1, t2);
        assert(l1 =~= seq![s1] + t1);
        assert(l2 =~= seq![s2] + t2);
    }
}

/// Two orderings of the line runs of `pixels` are the same ordering.
proof fn lemma_line_runs_unique(pixels: Seq<(u32, u32)>, min_run: u32, l1: Seq<PaintSegment>, l2: Seq<PaintSegment>)
    requires
        are_line_runs_of(pixels, min_run, l1),
        are_line_runs_of(pixels, min_run, l2),
    ensures
        l1 == l2,
{
    assert forall|x: PaintSegment| l1.contains(x) implies l2.contains(x) by {
        let u = choose|u: int| 0 <= u < l1.len() && l1[u] == x;
        assert(l1[u] matches PaintSegment::HLine { .. });
    }
    assert forall|x: PaintSegment| l2.contains(x) implies l1.contains(x) by {
        let u = choose|u: int| 0 <= u < l2.len() && l2[u] == x;
        assert(l2[u] matches PaintSegment::HLine { .. });
    }
    assert forall|x: PaintSegment, z: PaintSegment|
        l1.contains(x) && l1.contains(z) && line_key(x) == line_key(z) implies x == z by {
        let u = choose|u: int| 0 <= u < l1.len() && l1[u] == x;
        let w = choose|w: int| 0 <= w < l1.len() && l1[w] == z;
        assert(l1[u] matches PaintSegment::HLine { .. });
        assert(l1[w] matches PaintSegment::HLine { .. });
        if let PaintSegment::HLine { y, x_start, x_end } = x {
            if let PaintSegment::HLine { y: y2, x_start: a2, x_end: b2 } = z {
                lemma_key_injective(x_start, y, a2, y2);
                lemma_runs_unique(pixels, y, x_start, x_end, a2, b2, x_start);
            }
        }
    }
    lemma_sorted_same_members(l1, l2);
}

/// Two maximal runs of the same row that share a pixel are the same run.
proof fn lemma_runs_unique(pixels: Seq<(u32, u32)>, y: u32, a: u32, b: u32, a2: u32, b2: u32, x: u32)
    requires
        is_run(pixels, y, a, b),
        is_run(pixels, y, a2, b2),
        a <= x <= b,
        a2 <= x <= b2,
    ensures
        a == a2,
        b == b2,
{
    if a2 < a {
        assert(pixels.contains(((a - 1) as u32, y)));
    }
    if a < a2 {
        assert(pixels.contains(((a2 - 1) as u32, y)));
    }
    if b2 > b {
        assert(pixels.contains(((b + 1) as u32, y)));
    }
    if b > b2 {
        assert(pixels.contains(((b2 + 1) as u32, y)));
    }
}

pub(crate) proof fn lemma_key_decode(x: u32, y: u32)
    ensures
        pos_key(x, y) / 4294967296 == y,
        pos_key(x, y) % 4294967296 == x,
        0 <= pos_key(x, y) < 18446744073709551616,
{
    vstd::arithmetic::div_mod::lemma_fundamental_div_mod_converse(
        pos_key(x, y),
        4294967296,
        y as int,
        x as int,
    );
}

proof fn lemma_key_injective(x1: u32, y1: u32, x2: u32, y2: u32)
    requires
        pos_key(x1, y1) == pos_key(x2, y2),
    ensures
        x1 == x2,
        y1 == y2,
{
    lemma_key_decode(x1, y1);
    lemma_key_decode(x2, y2);
}

/// Row of a key.
pub open spec fn key_y(k: int) -> u32 {
    (k / 4294967296) as u32
}

/// Column of a key.
pub open spec fn key_x(k: int) -> u32 {
    (k % 4294967296) as u32
}

proof fn lemma_key_roundtrip(k: int)
    requires
        0 <= k < 18446744073709551616,
    ensures
        pos_key(key_x(k), key_y(k)) == k,
        0 <= k / 4294967296 <= u32::MAX,
{
    vstd::arithmetic::div_mod::lemma_fundamental_div_mod(k, 4294967296);
    vstd::arithmetic::div_mod::lemma_div_pos_is_pos(k, 4294967296);
    vstd::arithmetic::div_mod::lemma_div_is_ordered(k, 18446744073709551615, 4294967296);
    assert(18446744073709551615int / 4294967296 == 4294967295);
}

/// The distinct keys of `pixels`, ascending.
pub open spec fn keys_of(pixels: Seq<(u32, u32)>, uniq: Seq<u128>) -> bool {
    &&& is_strictly_sorted(uniq)
    &&& forall|k: int| 0 <= k < uniq.len() ==> (#[trigger] uniq[k]) < 18446744073709551616
    &&& forall|x: u32, y: u32| #[trigger] pixels.contains((x, y)) <==> uniq.contains(pos_key(x, y) as u128)
}

fn sorted_distinct_keys(pixels: &[(u32, u32)]) -> (uniq: Vec<u128>)
    ensures
        keys_of(pixels@, uniq@),
{
    let mut keys: Vec<u128> = Vec::new();
    let mut i: usize = 0;
    while i < pixels.len()
        invariant
            0 <= i <= pixels@.len(),
            keys@.len() == i,
            forall|t: int| 0 <= t < i ==> keys@[t] == pos_key(pixels@[t].0, pixels@[t].1),
        decreases pixels@.len() - i,
    {
        let (x, y) = pixels[i];
        proof {
            lemma_key_decode(x, y);
        }
        keys.push(y as u128 * 4294967296 + x as u128);
        i += 1;
    }
    let ghost unsorted = keys@;
    sort_keys(&mut keys);
    let uniq = dedup_sorted(&keys);
    proof {
        assert forall|k: int| 0 <= k < uniq@.len() implies (#[trigger] uniq@[k]) < 18446744073709551616 by {
            assert(uniq@.contains(uniq@[k]));
            assert(keys@.contains(uniq@[k]));
            assert(keys@.to_multiset().count(uniq@[k]) > 0);
            assert(unsorted.to_multiset().count(uniq@[k]) > 0);
            assert(unsorted.contains(uniq@[k]));
            let t = choose|t: int| 0 <= t < unsorted.len() && unsorted[t] == uniq@[k];
            lemma_key_decode(pixels@[t].0, pixels@[t].1);
        }
        assert forall|x: u32, y: u32| #[trigger] pixels@.contains((x, y)) <==> uniq@.contains(pos_key(x, y) as u128) by {
            lemma_key_decode(x, y);
            if pixels@.contains((x, y)) {
                let t = choose|t: int| 0 <= t < pixels@.len() && pixels@[t] == (x, y);
                assert(unsorted[t] == pos_key(x, y));
                assert(unsorted.contains(pos_key(x, y) as u128));
                assert(unsorted.to_multiset().count(pos_key(x, y) as u128) > 0);
                assert(keys@.to_multiset().count(pos_key(x, y) as u128) > 0);
                assert(keys@.contains(pos_key(x, y) as u128));
            }
            if uniq@.contains(pos_key(x, y) as u128) {
                assert(keys@.contains(pos_key(x, y) as u128));
                assert(keys@.to_multiset().count(pos_key(x, y) as u128) > 0);
                assert(unsorted.to_multiset().count(pos_key(x, y) as u128) > 0);
                assert(unsorted.contains(pos_key(x, y) as u128));
                let t = choose|t: int| 0 <= t < unsorted.len() && unsorted[t] == pos_key(x, y) as u128;
                lemma_key_injective(x, y, pixels@[t].0, pixels@[t].1);
                assert(pixels@[t] == (x, y));
            }
        }
    }
    uniq
}


/// Index `i` of the sorted keys begins a run: its left neighbour in the row is absent.
pub open spec fn starts_run(uniq: Seq<u128>, i: int) -> bool {
    i == 0 || !(key_x(uniq[i - 1] as int) < u32::MAX && uniq[i - 1] + 1 == uniq[i])
}

/// Keys `uniq[i..=j]` are consecutive columns of one row.
pub open spec fn consecutive_keys(uniq: Seq<u128>, i: int, j: int) -> bool {
    &&& 0 <= i <= j < uniq.len()
    &&& forall|t: int| i <= t <= j ==> #[trigger] uniq[t] == uniq[i] + (t - i)
    &&& key_x(uniq[i] as int) + (j - i) <= u32::MAX
}

/// `lines` holds, in order, the line runs whose first key is below `bound`.
pub open spec fn line_runs_below(pixels: Seq<(u32, u32)>, min_run: u32, lines: Seq<PaintSegment>, bound: int) -> bool {
    &&& forall|k: int|
        0 <= k < lines.len() ==> (#[trigger] lines[k] matches PaintSegment::HLine { y, x_start, x_end }
            && is_line_run(pixels, min_run, y, x_start, x_end))
    &&& forall|k: int| 0 <= k < lines.len() ==> line_key(#[trigger] lines[k]) < bound
    &&& forall|k: int, l: int|
        0 <= k < l < lines.len() ==> line_key(#[trigger] lines[k]) < line_key(#[trigger] lines[l])
    &&& forall|y: u32, a: u32, b: u32|
        #[trigger] is_line_run(pixels, min_run, y, a, b) && pos_key(a, y) < bound ==> lines.contains(
            PaintSegment::HLine { y, x_start: a, x_end: b },
        )
}

proof fn lemma_strictly_sorted_index(uniq: Seq<u128>, w: int, i: int)
    requires
        is_strictly_sorted(uniq),
        0 <= w < uniq.len(),
        0 <= i < uniq.len(),
    ensures
        uniq[w] < uniq[i] ==> w < i,
        uniq[w] == uniq[i] ==> w == i,
{
    if w < i {
        assert(uniq[w] < uniq[i]);
    } else if w > i {
        assert(uniq[i] < uniq[w]);
    }
}

proof fn lemma_decode_offset(k: int, d: int)
    requires
        0 <= k < 18446744073709551616,
        0 <= d,
        key_x(k) + d <= u32::MAX,
    ensures
        key_x(k + d) == key_x(k) + d,
        key_y(k + d) == key_y(k),
{
    lemma_key_roundtrip(k);
    let x = key_x(k);
    let y = key_y(k);
    lemma_key_decode((x + d) as u32, y);
    assert(pos_key((x + d) as u32, y) == k + d);
}

/// The keys `uniq[i..=j]` found by the scan form a maximal run of the pixels.
proof fn lemma_scanned_run(pixels: Seq<(u32, u32)>, uniq: Seq<u128>, i: int, j: int)
    requires
        keys_of(pixels, uniq),
        starts_run(uniq, i),
        consecutive_keys(uniq, i, j),
        j + 1 == uniq.len() || key_x(uniq[j] as int) == u32::MAX || uniq[j] + 1 != uniq[j + 1],
    ensures
        is_run(pixels, key_y(uniq[i] as int), key_x(uniq[i] as int), key_x(uniq[j] as int)),
        key_x(uniq[j] as int) == key_x(uniq[i] as int) + (j - i),
        key_y(uniq[j] as int) == key_y(uniq[i] as int),
        forall|t: int|
            i <= t <= j ==> key_x(#[trigger] uniq[t] as int) == key_x(uniq[i] as int) + (t - i)
                && key_y(uniq[t] as int) == key_y(uniq[i] as int),
{
    let k = uniq[i] as int;
    let y = key_y(k);
    let a = key_x(k);
    lemma_key_roundtrip(k);
    assert forall|t: int| i <= t <= j implies key_x(#[trigger] uniq[t] as int) == a + (t - i)
        && key_y(uniq[t] as int) == y by {
        lemma_decode_offset(k, t - i);
    }
    let b = key_x(uniq[j] as int);
    assert forall|x: u32| a <= x <= b implies #[trigger] pixels.contains((x, y)) by {
        let t = i + (x - a);
        lemma_decode_offset(k, t - i);
        lemma_key_roundtrip(uniq[t] as int);
        assert(pos_key(x, y) == uniq[t]);
        assert(uniq.contains(pos_key(x, y) as u128));
    }
    if a > 0 && pixels.contains(((a - 1) as u32, y)) {
        let km = pos_key((a - 1) as u32, y);
        assert(km == k - 1);
        assert(uniq.contains(km as u128));
        let w = choose|w: int| 0 <= w < uniq.len() && uniq[w] == km as u128;
        lemma_strictly_sorted_index(uniq, w, i);
        if w < i - 1 {
            assert(uniq[w] < uniq[i - 1]);
        }
        lemma_key_decode((a - 1) as u32, y);
        assert(false);
    }
    if b < u32::MAX && pixels.contains(((b + 1) as u32, y)) {
        let kp = pos_key((b + 1) as u32, y);
        lemma_key_roundtrip(uniq[j] as int);
        assert(kp == uniq[j] + 1);
        assert(uniq.contains(kp as u128));
        let w = choose|w: int| 0 <= w < uniq.len() && uniq[w] == kp as u128;
        lemma_strictly_sorted_index(uniq, j, w);
        if w > j + 1 {
            assert(uniq[j + 1] < uniq[w]);
            assert(uniq[j] < uniq[j + 1]);
        }
        assert(false);
    }
}

/// A line run whose first key lies in the scanned keys `uniq[i..=j]` is the scanned run.
proof fn lemma_only_scanned_run(
    pixels: Seq<(u32, u32)>,
    min_run: u32,
    uniq: Seq<u128>,
    i: int,
    j: int,
    y2: u32,
    a2: u32,
    b2: u32,
)
    requires
        keys_of(pixels, uniq),
        starts_run(uniq, i),
        consecutive_keys(uniq, i, j),
        j + 1 == uniq.len() || key_x(uniq[j] as int) == u32::MAX || uniq[j] + 1 != uniq[j + 1],
        is_run(pixels, y2, a2, b2),
        uniq[i] <= pos_key(a2, y2),
        j + 1 < uniq.len() ==> pos_key(a2, y2) < uniq[j + 1],
    ensures
        y2 == key_y(uniq[i] as int),
        a2 == key_x(uniq[i] as int),
        b2 == key_x(uniq[j] as int),
{
    lemma_scanned_run(pixels, uniq, i, j);
    let s = pos_key(a2, y2);
    lemma_key_decode(a2, y2);
    assert(pixels.contains((a2, y2)));
    assert(uniq.contains(s as u128));
    let w = choose|w: int| 0 <= w < uniq.len() && uniq[w] == s as u128;
    lemma_strictly_sorted_index(uniq, w, i);
    if w > j {
        if j + 1 < uniq.len() {
            lemma_strictly_sorted_index(uniq, j + 1, w);
        }
        assert(false);
    }
    if w > i {
        assert(key_x(uniq[w] as int) == key_x(uniq[i] as int) + (w - i));
        assert(key_x(s) == a2);
        assert(a2 > 0);
        lemma_key_roundtrip(uniq[w - 1] as int);
        assert(uniq[w - 1] == uniq[w] - 1);
        assert(pos_key((a2 - 1) as u32, y2) == uniq[w - 1]);
        assert(uniq.contains(pos_key((a2 - 1) as u32, y2) as u128));
        assert(pixels.contains(((a2 - 1) as u32, y2)));
        assert(false);
    }
    assert(w == i);
    lemma_runs_unique(pixels, y2, a2, b2, key_x(uniq[i] as int), key_x(uniq[j] as int), a2);
}

/// Detect horizontal runs of pixels that can be drawn as lines.
///
/// The result lists every maximal horizontal run of at least `min_run_length` pixels as
/// a line, ordered by row and then column, followed by the remaining pixels, in input
/// order, as single-pixel segments.
pub fn detect_line_segments(pixels: &[(u32, u32)], min_run_length: u32) -> (segments: Vec<PaintSegment>)
    ensures
        exists|n: int|
            0 <= n <= segments@.len() && are_line_runs_of(pixels@, min_run_length, segments@.take(n))
                && segments@.skip(n) == single_pixels(pixels@, min_run_length, pixels@),
        segments@ == detected_segments(pixels@, min_run_length),
        forall|p: (u32, u32)|
            pixels@.contains(p) <==> exists|k: int| 0 <= k < segments@.len() && covers(#[trigger] segments@[k], p),
        forall|k: int|
            0 <= k < segments@.len() ==> covers(#[trigger] segments@[k], seg_start(segments@[k]))
                && covers(segments@[k], seg_end(segments@[k])),
{
    let uniq = sorted_distinct_keys(pixels);
    let ghost px = pixels@;
    let ghost min = min_run_length;
    let mut lines: Vec<PaintSegment> = Vec::new();
    let mut flags: Vec<bool> = Vec::new();
    let mut i: usize = 0;
    proof {
        let bound0 = if uniq@.len() > 0 { uniq@[0] as int } else { 18446744073709551616 };
        assert forall|y2: u32, a2: u32, b2: u32|
            #[trigger] is_line_run(px, min, y2, a2, b2) && pos_key(a2, y2) < bound0 implies lines@.contains(
            PaintSegment::HLine { y: y2, x_start: a2, x_end: b2 },
        ) by {
            lemma_key_decode(a2, y2);
            assert(px.contains((a2, y2)));
            assert(uniq@.contains(pos_key(a2, y2) as u128));
            let w = choose|w: int| 0 <= w < uniq@.len() && uniq@[w] == pos_key(a2, y2) as u128;
            if w > 0 {
                assert(uniq@[0] < uniq@[w]);
            }
        }
    }
    while i < uniq.len()
        invariant
            keys_of(px, uniq@),
            px == pixels@,
            min == min_run_length,
            0 <= i <= uniq@.len(),
            flags@.len() == i,
            i < uniq@.len() ==> starts_run(uniq@, i as int),
            forall|t: int|
                0 <= t < i ==> #[trigger] flags@[t] == on_line_run(
                    px,
                    min,
                    (key_x(uniq@[t] as int), key_y(uniq@[t] as int)),
                ),
            line_runs_below(
                px,
                min,
                lines@,
                if i < uniq@.len() {
                    uniq@[i as int] as int
                } else {
                    18446744073709551616
                },
            ),
        decreases uniq@.len() - i,
    {
        let mut j: usize = i;
        while j < uniq.len() - 1 && uniq[j] % 4294967296 < 4294967295 && uniq[j + 1] == uniq[j] + 1
            invariant
                keys_of(px, uniq@),
                i <= j < uniq@.len(),
                uniq@[j as int] < 18446744073709551616,
                consecutive_keys(uniq@, i as int, j as int),
            decreases uniq@.len() - j,
        {
            proof {
                lemma_decode_offset(uniq@[i as int] as int, (j - i) as int);
                assert(uniq@[j + 1] < 18446744073709551616);
            }
            j += 1;
        }
        proof {
            lemma_scanned_run(px, uniq@, i as int, j as int);
        }
        let y = (uniq[i] / 4294967296) as u32;
        let a = (uniq[i] % 4294967296) as u32;
        let b = (uniq[j] % 4294967296) as u32;
        let is_line = (j - i) as u64 + 1 >= min_run_length as u64;
        let ghost old_lines = lines@;
        let ghost bound = if j + 1 < uniq@.len() {
            uniq@[j + 1] as int
        } else {
            18446744073709551616
        };
        if is_line {
            lines.push(PaintSegment::HLine { y, x_start: a, x_end: b });
        }
        proof {
            assert(is_line == is_line_run(px, min, y, a, b));
            assert forall|y2: u32, a2: u32, b2: u32|
                #[trigger] is_line_run(px, min, y2, a2, b2) && pos_key(a2, y2) < bound implies lines@.contains(
                PaintSegment::HLine { y: y2, x_start: a2, x_end: b2 },
            ) by {
                if pos_key(a2, y2) < uniq@[i as int] {
                    let w = choose|w: int| 0 <= w < old_lines.len() && old_lines[w] == PaintSegment::HLine { y: y2, x_start: a2, x_end: b2 };
                    assert(lines@[w] == old_lines[w]);
                } else {
                    lemma_only_scanned_run(px, min, uniq@, i as int, j as int, y2, a2, b2);
                    assert(lines@[lines@.len() - 1] == PaintSegment::HLine { y: y2, x_start: a2, x_end: b2 });
                }
            }
            assert forall|k: int| 0 <= k < lines@.len() implies line_key(#[trigger] lines@[k]) < bound by {
                if k < old_lines.len() {
                    assert(lines@[k] == old_lines[k]);
                }
                lemma_key_roundtrip(uniq@[i as int] as int);
                if j + 1 < uniq@.len() {
                    assert(uniq@[i as int] < uniq@[j + 1]);
                }
            }
            assert forall|k: int, l: int| 0 <= k < l < lines@.len() implies line_key(#[trigger] lines@[k]) < line_key(#[trigger] lines@[l]) by {
                if l < old_lines.len() {
                    assert(lines@[k] == old_lines[k]);
                    assert(lines@[l] == old_lines[l]);
                } else {
                    assert(lines@[k] == old_lines[k]);
                    lemma_key_roundtrip(uniq@[i as int] as int);
                }
            }
        }
        let mut t: usize = i;
        while t <= j
            invariant
                i <= t <= j + 1,
                j < uniq@.len(),
                uniq@.len() <= usize::MAX,
                flags@.len() == t,
                forall|u: int|
                    0 <= u < t ==> #[trigger] flags@[u] == on_line_run(
                        px,
                        min,
                        (key_x(uniq@[u] as int), key_y(uniq@[u] as int)),
                    ),
                is_run(px, y, a, b),
                is_line == is_line_run(px, min, y, a, b),
                forall|u: int|
                    i <= u <= j ==> key_x(#[trigger] uniq@[u] as int) == a + (u - i) && key_y(
                        uniq@[u] as int,
                    ) == y,
                b == a + (j - i),
            decreases j + 1 - t,
        {
            proof {
                let p = (key_x(uniq@[t as int] as int), key_y(uniq@[t as int] as int));
                if is_line {
                    assert(is_line_run(px, min, p.1, a, b) && a <= p.0 <= b);
                }
                if on_line_run(px, min, p) {
                    let (a2, b2) = choose|a2: u32, b2: u32| #[trigger] is_line_run(px, min, p.1, a2, b2) && a2 <= p.0 <= b2;
                    lemma_runs_unique(px, y, a, b, a2, b2, p.0);
                }
            }
            flags.push(is_line);
            t += 1;
        }
        i = j + 1;
    }
    let mut singles: Vec<PaintSegment> = Vec::new();
    let mut k: usize = 0;
    while k < pixels.len()
        invariant
            keys_of(px, uniq@),
            px == pixels@,
            min == min_run_length,
            0 <= k <= px.len(),
            flags@.len() == uniq@.len(),
            forall|t: int|
                0 <= t < uniq@.len() ==> #[trigger] flags@[t] == on_line_run(
                    px,
                    min,
                    (key_x(uniq@[t] as int), key_y(uniq@[t] as int)),
                ),
            singles@ == single_pixels(px, min, px.take(k as int)),
        decreases px.len() - k,
    {
        let (x, y) = pixels[k];
        proof {
            lemma_key_decode(x, y);
            assert(px.contains((x, y)));
            assert(px.take(k + 1).drop_last() =~= px.take(k as int));
        }
        let idx = search_key(&uniq, y as u128 * 4294967296 + x as u128);
        if !flags[idx] {
            singles.push(PaintSegment::Pixel(x, y));
        }
        k += 1;
    }
    proof {
        assert(px.take(px.len() as int) =~= px);
        assert(are_line_runs_of(px, min, lines@)) by {
            assert forall|y2: u32, a2: u32, b2: u32| #[trigger] is_line_run(px, min, y2, a2, b2) implies lines@.contains(
                PaintSegment::HLine { y: y2, x_start: a2, x_end: b2 },
            ) by {
                lemma_key_decode(a2, y2);
            }
        }
    }
    let n = lines.len();
    let mut segments = lines;
    let mut q: usize = 0;
    while q < singles.len()
        invariant
            0 <= q <= singles@.len(),
            segments@.len() == n + q,
            segments@.take(n as int) == lines@,
            segments@.skip(n as int) == singles@.take(q as int),
        decreases singles@.len() - q,
    {
        let ghost before = segments@;
        segments.push(singles[q]);
        proof {
            assert(segments@.take(n as int) =~= before.take(n as int));
            assert(segments@.skip(n as int) =~= singles@.take(q + 1));
        }
        q += 1;
    }
    proof {
        let chosen = line_runs(px, min);
        lemma_line_runs_unique(px, min, lines@, chosen);
        assert(segments@ =~= segments@.take(n as int) + segments@.skip(n as int));
        assert(singles@.take(singles@.len() as int) =~= singles@);
        assert(segments@ == detected_segments(px, min));
        assert forall|p: (u32, u32)|
            px.contains(p) <==> exists|k: int| 0 <= k < segments@.len() && covers(#[trigger] segments@[k], p) by {
            detected_segments_cover_exactly(px, min, p);
        }
        detected_segments_cover_exactly(px, min, (0, 0));
    }
    segments
}

// ── the line runs exist for every set of pixels ────────────────────────

/// Keys of the first pixels of the line runs of `pixels`.
pub open spec fn line_start_keys(pixels: Seq<(u32, u32)>, min_run: u32) -> Set<int> {
    Set::new(
        |k: int|
            exists|y: u32, a: u32, b: u32| #[trigger] is_line_run(pixels, min_run, y, a, b) && k == pos_key(a, y),
    )
}

/// The order `<=` on integers.
pub open spec fn int_le() -> spec_fn(int, int) -> bool {
    |a: int, b: int| a <= b
}

/// The last column of the run of row `y` that starts at column `a`.
pub open spec fn run_end(pixels: Seq<(u32, u32)>, y: u32, a: u32) -> u32 {
    choose|b: u32| is_run(pixels, y, a, b)
}

/// The line starting at the position with key `k`.
pub open spec fn line_at_key(pixels: Seq<(u32, u32)>, k: int) -> PaintSegment {
    PaintSegment::HLine { y: key_y(k), x_start: key_x(k), x_end: run_end(pixels, key_y(k), key_x(k)) }
}

/// The line runs, by sorting the keys of their first pixels.
pub open spec fn ordered_line_runs(pixels: Seq<(u32, u32)>, min_run: u32) -> Seq<PaintSegment> {
    line_start_keys(pixels, min_run).to_seq().sort_by(int_le()).map_values(|k: int| line_at_key(pixels, k))
}

proof fn lemma_to_seq_members(s: Set<int>)
    requires
        s.finite(),
    ensures
        s.to_seq().no_duplicates(),
        forall|x: int| s.to_seq().contains(x) <==> s.contains(x),
    decreases s.len(),
{
    broadcast use vstd::set::group_set_axioms;
    broadcast use vstd::set_lib::lemma_set_empty_equivalency_len;

    if s.len() == 0 {
        assert(s.to_seq() =~= Seq::<int>::empty());
    } else {
        let x = s.choose();
        let rest = s.remove(x);
        lemma_to_seq_members(rest);
        let t = rest.to_seq();
        assert(s.to_seq() =~= Seq::<int>::empty().push(x) + t);
        assert forall|y: int| s.to_seq().contains(y) <==> s.contains(y) by {
            if s.to_seq().contains(y) {
                let i = choose|i: int| 0 <= i < s.to_seq().len() && s.to_seq()[i] == y;
                if i > 0 {
                    assert(t[i - 1] == y);
                }
            }
            if s.contains(y) && y != x {
                assert(rest.contains(y));
                let i = choose|i: int| 0 <= i < t.len() && t[i] == y;
                assert(s.to_seq()[i + 1] == y);
            }
            if y == x {
                assert(s.to_seq()[0] == x);
            }
        }
        assert forall|i: int, j: int|
            0 <= i < s.to_seq().len() && 0 <= j < s.to_seq().len() && i != j implies s.to_seq()[i]
            != s.to_seq()[j] by {
            if i > 0 && j > 0 {
                assert(s.to_seq()[i] == t[i - 1]);
                assert(s.to_seq()[j] == t[j - 1]);
            } else if i == 0 {
                assert(t.contains(s.to_seq()[j]));
            } else {
                assert(t.contains(s.to_seq()[i]));
            }
        }
    }
}

/// The line runs of any pixels, ordered by row and then column, exist: every set of
/// pixels has a sequence of line runs as `are_line_runs_of` describes.
pub proof fn line_runs_exist(pixels: Seq<(u32, u32)>, min_run: u32)
    ensures
        are_line_runs_of(pixels, min_run, ordered_line_runs(pixels, min_run)),
        are_line_runs_of(pixels, min_run, line_runs(pixels, min_run)),
        line_runs(pixels, min_run) == ordered_line_runs(pixels, min_run),
{
    broadcast use vstd::seq_lib::group_to_multiset_ensures;
    broadcast use vstd::seq_lib::seq_to_set_is_finite;
    broadcast use vstd::set::group_set_axioms;

    let keys = line_start_keys(pixels, min_run);
    let all = pixels.to_set().map(|p: (u32, u32)| pos_key(p.0, p.1));
    assert(keys.subset_of(all)) by {
        assert forall|k: int| keys.contains(k) implies all.contains(k) by {
            let (y, a, b) = choose|y: u32, a: u32, b: u32| #[trigger] is_line_run(pixels, min_run, y, a, b) && k == pos_key(a, y);
            assert(pixels.contains((a, y)));
            assert(pixels.to_set().contains((a, y)));
        }
    }
    pixels.to_set().lemma_map_finite(|p: (u32, u32)| pos_key(p.0, p.1));
    vstd::set_lib::lemma_set_subset_finite(all, keys);
    lemma_to_seq_members(keys);
    let ts = keys.to_seq();
    let le = int_le();
    assert(vstd::relations::total_ordering(le));
    ts.lemma_sort_by_ensures(le);
    let sorted = ts.sort_by(le);
    ts.lemma_multiset_has_no_duplicates();
    assert forall|x: int| sorted.to_multiset().contains(x) implies sorted.to_multiset().count(x) == 1 by {}
    sorted.lemma_multiset_has_no_duplicates_conv();
    let l = ordered_line_runs(pixels, min_run);
    assert(l.len() == sorted.len());
    assert forall|i: int| 0 <= i < sorted.len() implies {
        let k = #[trigger] sorted[i];
        &&& keys.contains(k)
        &&& l[i] == line_at_key(pixels, k)
        &&& l[i] matches PaintSegment::HLine { y, x_start, x_end } && is_line_run(pixels, min_run, y, x_start, x_end)
        &&& line_key(l[i]) == k
    } by {
        let k = sorted[i];
        assert(sorted.contains(k));
        assert(ts.contains(k));
        assert(keys.contains(k));
        let (y, a, b) = choose|y: u32, a: u32, b: u32| #[trigger] is_line_run(pixels, min_run, y, a, b) && k == pos_key(a, y);
        lemma_key_decode(a, y);
        assert(is_run(pixels, y, a, run_end(pixels, y, a)));
        lemma_runs_unique(pixels, y, a, b, a, run_end(pixels, y, a), a);
    }
    assert forall|k: int| 0 <= k < l.len() implies (#[trigger] l[k] matches PaintSegment::HLine { y, x_start, x_end }
        && is_line_run(pixels, min_run, y, x_start, x_end)) by {
        let kk = sorted[k];
    }
    assert forall|k: int, m: int| 0 <= k < m < l.len() implies line_key(#[trigger] l[k]) < line_key(#[trigger] l[m]) by {
        let kk = sorted[k];
        let mm = sorted[m];
        assert(le(sorted[k], sorted[m]));
    }
    assert forall|y: u32, a: u32, b: u32| #[trigger] is_line_run(pixels, min_run, y, a, b) implies l.contains(
        PaintSegment::HLine { y, x_start: a, x_end: b },
    ) by {
        let k = pos_key(a, y);
        assert(keys.contains(k));
        assert(ts.contains(k));
        assert(ts.to_multiset().count(k) > 0);
        assert(sorted.to_multiset().count(k) > 0);
        assert(sorted.contains(k));
        let i = choose|i: int| 0 <= i < sorted.len() && sorted[i] == k;
        lemma_key_decode(a, y);
        assert(is_run(pixels, y, a, run_end(pixels, y, a)));
        lemma_runs_unique(pixels, y, a, b, a, run_end(pixels, y, a), a);
        assert(l[i] == PaintSegment::HLine { y, x_start: a, x_end: b });
    }
    assert(are_line_runs_of(pixels, min_run, l));
    lemma_line_runs_unique(pixels, min_run, l, line_runs(pixels, min_run));
}

/// Line detection loses and adds no pixel: a position is painted by some detected
/// segment exactly when it is one of the pixels, and every segment paints its own
/// start and end.
pub proof fn detected_segments_cover_exactly(pixels: Seq<(u32, u32)>, min_run: u32, p: (u32, u32))
    ensures
        pixels.contains(p) <==> exists|k: int|
            0 <= k < detected_segments(pixels, min_run).len() && covers(
                #[trigger] detected_segments(pixels, min_run)[k],
                p,
            ),
        forall|k: int|
            0 <= k < detected_segments(pixels, min_run).len() ==> covers(
                #[trigger] detected_segments(pixels, min_run)[k],
                seg_start(detected_segments(pixels, min_run)[k]),
            ) && covers(
                detected_segments(pixels, min_run)[k],
                seg_end(detected_segments(pixels, min_run)[k]),
            ),
{
    line_runs_exist(pixels, min_run);
    lemma_single_pixels_members(pixels, min_run, pixels);
    let lines = line_runs(pixels, min_run);
    let singles = single_pixels(pixels, min_run, pixels);
    let segs = detected_segments(pixels, min_run);
    let n = lines.len();
    assert(segs == lines + singles);
    if pixels.contains(p) {
        if on_line_run(pixels, min_run, p) {
            let (a, b) = choose|a: u32, b: u32| #[trigger] is_line_run(pixels, min_run, p.1, a, b) && a <= p.0 <= b;
            let w = choose|w: int| 0 <= w < lines.len() && lines[w] == PaintSegment::HLine { y: p.1, x_start: a, x_end: b };
            assert(segs[w] == lines[w]);
            assert(covers(segs[w], p));
        } else {
            let i = choose|i: int| 0 <= i < pixels.len() && pixels[i] == p;
            assert(singles.contains(PaintSegment::Pixel(pixels[i].0, pixels[i].1)));
            let w = choose|w: int| 0 <= w < singles.len() && singles[w] == PaintSegment::Pixel(p.0, p.1);
            assert(segs[n + w] == singles[w]);
            assert(covers(segs[n + w], p));
        }
    }
    if exists|k: int| 0 <= k < segs.len() && covers(#[trigger] segs[k], p) {
        let k = choose|k: int| 0 <= k < segs.len() && covers(#[trigger] segs[k], p);
        if k < n {
            assert(segs[k] == lines[k]);
            assert(lines[k] matches PaintSegment::HLine { .. });
            if let PaintSegment::HLine { y, x_start, x_end } = lines[k] {
                assert(is_line_run(pixels, min_run, y, x_start, x_end));
                assert(pixels.contains((p.0, y)));
            }
        } else {
            assert(segs[k] == singles[k - n]);
        }
    }
    assert forall|k: int| 0 <= k < segs.len() implies covers(#[trigger] segs[k], seg_start(segs[k]))
        && covers(segs[k], seg_end(segs[k])) by {
        if k < n {
            assert(segs[k] == lines[k]);
            assert(lines[k] matches PaintSegment::HLine { .. });
        } else {
            assert(segs[k] == singles[k - n]);
        }
    }
}

proof fn lemma_single_pixels_distinct(all: Seq<(u32, u32)>, min_run: u32, s: Seq<(u32, u32)>)
    requires
        s.no_duplicates(),
    ensures
        single_pixels(all, min_run, s).no_duplicates(),
    decreases s.len(),
{
    if s.len() > 0 {
        let t = s.drop_last();
        assert(t.no_duplicates());
        lemma_single_pixels_distinct(all, min_run, t);
        lemma_single_pixels_members(all, min_run, t);
        let rest = single_pixels(all, min_run, t);
        if !on_line_run(all, min_run, s.last()) {
            let q = PaintSegment::Pixel(s.last().0, s.last().1);
            if rest.contains(q) {
                let k = choose|k: int| 0 <= k < rest.len() && rest[k] == q;
                assert(t.contains(s.last()));
                let w = choose|w: int| 0 <= w < t.len() && t[w] == s.last();
                assert(s[w] == s[s.len() - 1]);
            }
            let sp = rest.push(q);
            assert forall|i: int, j: int| 0 <= i < j < sp.len() implies sp[i] != sp[j] by {
                if j == sp.len() - 1 {
                    assert(sp[j] == q);
                    assert(sp[i] == rest[i]);
                }
            }
        }
    }
}

/// Line detection paints no position twice: for pixels given without repeats, no
/// two detected segments paint a common position.
pub proof fn detected_segments_are_disjoint(pixels: Seq<(u32, u32)>, min_run: u32, p: (u32, u32))
    requires
        pixels.no_duplicates(),
    ensures
        forall|k: int, l: int|
            0 <= k < l < detected_segments(pixels, min_run).len() ==> !(covers(
                #[trigger] detected_segments(pixels, min_run)[k],
                p,
            ) && covers(#[trigger] detected_segments(pixels, min_run)[l], p)),
{
    line_runs_exist(pixels, min_run);
    lemma_single_pixels_members(pixels, min_run, pixels);
    lemma_single_pixels_distinct(pixels, min_run, pixels);
    let lines = line_runs(pixels, min_run);
    let singles = single_pixels(pixels, min_run, pixels);
    let segs = detected_segments(pixels, min_run);
    let n = lines.len();
    assert(segs == lines + singles);
    assert forall|k: int, l: int| 0 <= k < l < segs.len() implies !(covers(#[trigger] segs[k], p) && covers(
        #[trigger] segs[l],
        p,
    )) by {
        if covers(segs[k], p) && covers(segs[l], p) {
            if l < n {
                assert(segs[k] == lines[k] && segs[l] == lines[l]);
                assert(line_key(lines[k]) < line_key(lines[l]));
                if let (
                    PaintSegment::HLine { y, x_start, x_end },
                    PaintSegment::HLine { y: y2, x_start: a2, x_end: b2 },
                ) = (lines[k], lines[l]) {
                    lemma_runs_unique(pixels, y, x_start, x_end, a2, b2, p.0);
                }
            } else if k < n {
                assert(segs[k] == lines[k] && segs[l] == singles[l - n]);
                if let PaintSegment::HLine { y, x_start, x_end } = lines[k] {
                    assert(is_line_run(pixels, min_run, y, x_start, x_end) && x_start <= p.0 <= x_end);
                    assert(on_line_run(pixels, min_run, p));
                }
                assert(singles[l - n] matches PaintSegment::Pixel(x, y) && !on_line_run(pixels, min_run, (x, y)));
            } else {
                assert(segs[k] == singles[k - n] && segs[l] == singles[l - n]);
                assert(singles[k - n] matches PaintSegment::Pixel(_, _));
                assert(singles[l - n] matches PaintSegment::Pixel(_, _));
                assert(singles[k - n] == singles[l - n]);
            }
        }
    }
}

proof fn lemma_run_left(pixels: Seq<(u32, u32)>, y: u32, x: u32) -> (a: u32)
    requires
        pixels.contains((x, y)),
    ensures
        a <= x,
        forall|t: u32| a <= t <= x ==> #[trigger] pixels.contains((t, y)),
        a == 0 || !pixels.contains(((a - 1) as u32, y)),
    decreases x,
{
    if x == 0 || !pixels.contains(((x - 1) as u32, y)) {
        x
    } else {
        let a = lemma_run_left(pixels, y, (x - 1) as u32);
        assert forall|t: u32| a <= t <= x implies #[trigger] pixels.contains((t, y)) by {
            if t == x {
            }
        }
        a
    }
}

proof fn lemma_run_right(pixels: Seq<(u32, u32)>, y: u32, x: u32) -> (b: u32)
    requires
        pixels.contains((x, y)),
    ensures
        x <= b,
        forall|t: u32| x <= t <= b ==> #[trigger] pixels.contains((t, y)),
        b == u32::MAX || !pixels.contains(((b + 1) as u32, y)),
    decreases u32::MAX - x,
{
    if x == u32::MAX || !pixels.contains(((x + 1) as u32, y)) {
        x
    } else {
        let b = lemma_run_right(pixels, y, (x + 1) as u32);
        assert forall|t: u32| x <= t <= b implies #[trigger] pixels.contains((t, y)) by {
            if t == x {
            }
        }
        b
    }
}

/// Every detected segment follows the maximal horizontal runs of the pixels: a
/// line is a whole run at least `min_run` long, and a single pixel lies in a run
/// shorter than that.
pub proof fn detected_segments_follow_runs(pixels: Seq<(u32, u32)>, min_run: u32)
    ensures
        forall|k: int|
            0 <= k < detected_segments(pixels, min_run).len() ==> match #[trigger] detected_segments(
                pixels,
                min_run,
            )[k] {
                PaintSegment::HLine { y, x_start, x_end } => is_line_run(pixels, min_run, y, x_start, x_end),
                PaintSegment::Pixel(x, y) => pixels.contains((x, y)) && exists|a: u32, b: u32|
                    #[trigger] is_run(pixels, y, a, b) && a <= x <= b && b - a + 1 < min_run,
            },
{
    line_runs_exist(pixels, min_run);
    lemma_single_pixels_members(pixels, min_run, pixels);
    let lines = line_runs(pixels, min_run);
    let singles = single_pixels(pixels, min_run, pixels);
    let segs = detected_segments(pixels, min_run);
    let n = lines.len();
    assert(segs == lines + singles);
    assert forall|k: int| 0 <= k < segs.len() implies match #[trigger] segs[k] {
        PaintSegment::HLine { y, x_start, x_end } => is_line_run(pixels, min_run, y, x_start, x_end),
        PaintSegment::Pixel(x, y) => pixels.contains((x, y)) && exists|a: u32, b: u32|
            #[trigger] is_run(pixels, y, a, b) && a <= x <= b && b - a + 1 < min_run,
    } by {
        if k < n {
            assert(segs[k] == lines[k]);
        } else {
            assert(segs[k] == singles[k - n]);
            if let PaintSegment::Pixel(x, y) = singles[k - n] {
                assert(pixels.contains((x, y)) && !on_line_run(pixels, min_run, (x, y)));
                let a = lemma_run_left(pixels, y, x);
                let b = lemma_run_right(pixels, y, x);
                assert forall|t: u32| a <= t <= b implies #[trigger] pixels.contains((t, y)) by {
                    if t <= x {
                        assert(pixels.contains((t, y)));
                    } else {
                        assert(pixels.contains((t, y)));
                    }
                }
                assert(is_run(pixels, y, a, b));
                if b - a + 1 >= min_run {
                    assert(is_line_run(pixels, min_run, y, a, b));
                    assert(on_line_run(pixels, min_run, (x, y)));
                }
            }
        }
    }
}

/// The positions a segment paints.
pub open spec fn cover_set(seg: PaintSegment) -> Set<(u32, u32)> {
    Set::new(|p: (u32, u32)| covers(seg, p))
}

/// The positions painted by the first `k` segments.
pub open spec fn covered_by(segs: Seq<PaintSegment>, k: int) -> Set<(u32, u32)> {
    Set::new(|p: (u32, u32)| exists|j: int| 0 <= j < k && covers(#[trigger] segs[j], p))
}

/// The pixel counts of the segments, summed.
pub open spec fn total_pixel_count_of(segs: Seq<PaintSegment>) -> int
    decreases segs.len(),
{
    if segs.len() == 0 {
        0
    } else {
        total_pixel_count_of(segs.drop_last()) + seg_pixel_count(segs.last())
    }
}

proof fn lemma_row_span(y: u32, a: u32, b: u32)
    requires
        a <= b,
    ensures
        cover_set(PaintSegment::HLine { y, x_start: a, x_end: b }).finite(),
        cover_set(PaintSegment::HLine { y, x_start: a, x_end: b }).len() == b - a + 1,
    decreases b - a,
{
    broadcast use vstd::set::group_set_axioms;

    let sp = cover_set(PaintSegment::HLine { y, x_start: a, x_end: b });
    if a == b {
        assert(sp =~= Set::empty().insert((a, y)));
    } else {
        let b1 = (b - 1) as u32;
        lemma_row_span(y, a, b1);
        let prev = cover_set(PaintSegment::HLine { y, x_start: a, x_end: b1 });
        assert(sp =~= prev.insert((b, y)));
        assert(!prev.contains((b, y)));
    }
}

proof fn lemma_cover_set_len(seg: PaintSegment)
    requires
        seg matches PaintSegment::HLine { x_start, x_end, .. } ==> x_start <= x_end,
    ensures
        cover_set(seg).finite(),
        cover_set(seg).len() == seg_pixel_count(seg),
{
    broadcast use vstd::set::group_set_axioms;

    match seg {
        PaintSegment::Pixel(x, y) => {
            assert(cover_set(seg) =~= Set::empty().insert((x, y)));
        },
        PaintSegment::HLine { y, x_start, x_end } => {
            lemma_row_span(y, x_start, x_end);
        },
    }
}

proof fn lemma_covered_len(segs: Seq<PaintSegment>, k: int)
    requires
        0 <= k <= segs.len(),
        forall|j: int|
            0 <= j < segs.len() ==> (#[trigger] segs[j] matches PaintSegment::HLine { x_start, x_end, .. }
                ==> x_start <= x_end),
        forall|i: int, j: int, p: (u32, u32)|
            #![trigger covers(segs[i], p), covers(segs[j], p)]
            0 <= i < j < segs.len() ==> !(covers(segs[i], p) && covers(segs[j], p)),
    ensures
        covered_by(segs, k).finite(),
        covered_by(segs, k).len() == total_pixel_count_of(segs.take(k)),
    decreases k,
{
    broadcast use vstd::set::group_set_axioms;

    if k == 0 {
        assert(covered_by(segs, 0) =~= Set::empty());
        assert(segs.take(0) =~= Seq::<PaintSegment>::empty());
    } else {
        lemma_covered_len(segs, k - 1);
        let prev = covered_by(segs, k - 1);
        let cs = cover_set(segs[k - 1]);
        lemma_cover_set_len(segs[k - 1]);
        assert(covered_by(segs, k) =~= prev + cs) by {
            assert forall|p: (u32, u32)| covered_by(segs, k).contains(p) implies (prev + cs).contains(p) by {
                let j = choose|j: int| 0 <= j < k && covers(#[trigger] segs[j], p);
                if j < k - 1 {
                    assert(prev.contains(p));
                }
            }
            assert forall|p: (u32, u32)| (prev + cs).contains(p) implies covered_by(segs, k).contains(p) by {
                if cs.contains(p) {
                    assert(covers(segs[k - 1], p));
                } else {
                    let j = choose|j: int| 0 <= j < k - 1 && covers(#[trigger] segs[j], p);
                    assert(covers(segs[j], p));
                }
            }
        }
        assert(prev.disjoint(cs)) by {
            assert forall|p: (u32, u32)| !(prev.contains(p) && cs.contains(p)) by {
                if prev.contains(p) && cs.contains(p) {
                    let j = choose|j: int| 0 <= j < k - 1 && covers(#[trigger] segs[j], p);
                    assert(covers(segs[k - 1], p));
                    assert(!(covers(segs[j], p) && covers(segs[k - 1], p)));
                }
            }
        }
        vstd::set_lib::lemma_set_disjoint_lens(prev, cs);
        assert(segs.take(k).drop_last() =~= segs.take(k - 1));
        assert(segs.take(k).last() == segs[k - 1]);
    }
}

/// Line detection paints each pixel exactly once: for pixels given without
/// repeats, the pixel counts of the detected segments add up to the number of
/// pixels.
pub proof fn detected_segments_count_every_pixel(pixels: Seq<(u32, u32)>, min_run: u32)
    requires
        pixels.no_duplicates(),
    ensures
        total_pixel_count_of(detected_segments(pixels, min_run)) == pixels.len(),
{
    broadcast use vstd::set::group_set_axioms;

    let segs = detected_segments(pixels, min_run);
    detected_segments_follow_runs(pixels, min_run);
    assert forall|j: int| 0 <= j < segs.len() implies (#[trigger] segs[j] matches PaintSegment::HLine {
        x_start,
        x_end,
        ..
    } ==> x_start <= x_end) by {
        if let PaintSegment::HLine { y, x_start, x_end } = segs[j] {
            assert(is_line_run(pixels, min_run, y, x_start, x_end));
        }
    }
    assert forall|i: int, j: int, p: (u32, u32)|
        #![trigger covers(segs[i], p), covers(segs[j], p)]
        0 <= i < j < segs.len() implies !(covers(segs[i], p) && covers(segs[j], p)) by {
        detected_segments_are_disjoint(pixels, min_run, p);
    }
    lemma_covered_len(segs, segs.len() as int);
    assert(covered_by(segs, segs.len() as int) =~= pixels.to_set()) by {
        assert forall|p: (u32, u32)| covered_by(segs, segs.len() as int).contains(p) <==> pixels.to_set().contains(
            p,
        ) by {
            detected_segments_cover_exactly(pixels, min_run, p);
        }
    }
    assert(segs.take(segs.len() as int) =~= segs);
    pixels.unique_seq_to_set();
}

} // verus!
