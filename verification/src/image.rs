//! Images as RGBA byte buffers, and the geometry of resizing, cropping, rotating
//! and flipping them.

use vstd::prelude::*;
use vstd::string::StringExecFns;
use crate::strings::{ascii_lower, eq_ignore_ascii_case};

verus! {

/// An RGBA image: `width * height` pixels, row by row, four bytes each.
#[derive(Debug, Clone)]
pub struct RgbaBuffer {
    pub width: u32,
    pub height: u32,
    pub data: Vec<u8>,
}

impl RgbaBuffer {
    /// The buffer holds four bytes for each pixel.
    pub open spec fn wf(&self) -> bool {
        self.data@.len() == self.width * self.height * 4
    }

    /// Channel `c` of pixel (x, y).
    pub open spec fn channel(&self, x: int, y: int, c: int) -> u8 {
        self.data@[(y * self.width + x) * 4 + c]
    }

    /// An image of the given size with every byte zero (transparent black).
    pub fn new(width: u32, height: u32) -> (img: Self)
        requires
            width * height * 4 <= usize::MAX,
        ensures
            img.wf(),
            img.width == width,
            img.height == height,
            forall|i: int| 0 <= i < img.data@.len() ==> img.data@[i] == 0,
    {
        let n: usize = (width as usize) * (height as usize) * 4;
        let mut data: Vec<u8> = Vec::new();
        let mut i: usize = 0;
        while i < n
            invariant
                0 <= i <= n,
                data@.len() == i,
                forall|k: int| 0 <= k < i ==> data@[k] == 0,
            decreases n - i,
        {
            data.push(0);
            i += 1;
        }
        RgbaBuffer { width, height, data }
    }
}

/// Aspect ratio handling when resizing images.
#[derive(Debug, Clone, Copy, PartialEq, Eq)]
pub enum AspectRatio {
    /// Stretch to fill the exact dimensions.
    Stretch,
    /// Scale to fit within dimensions, preserving aspect ratio (may have empty space).
    Fit,
    /// Scale to fill dimensions, preserving aspect ratio (may crop).
    Fill,
}

/// What `Path::extension` gives for a path: the part of its file name after the
/// last dot, if the file name has a dot other than a leading one. Where the file
/// name begins is fixed by the path rules of the platform the crate is built for.
pub uninterp spec fn path_extension(path: Seq<char>) -> Option<Seq<char>>;

/// The extension of a path.
///
/// Calls `Path::extension` and converts it back to a string (it always converts,
/// as it comes from a `&str`); the contract names the result.
#[verifier::external_body]
fn extension(path: &str) -> (r: Option<String>)
    ensures
        r is Some <==> path_extension(path@) is Some,
        r is Some ==> r->0@ == path_extension(path@)->0,
{
    std::path::Path::new(path).extension().and_then(|e| e.to_str()).map(|e| e.to_string())
}

/// The text equals `gif` with ASCII letters in any case.
pub open spec fn is_gif_extension(e: Seq<char>) -> bool {
    e.len() == 3 && ascii_lower(e[0]) == 'g' && ascii_lower(e[1]) == 'i' && ascii_lower(e[2]) == 'f'
}

/// Returns `true` if the file path has a GIF extension (in any case).
pub fn is_gif(path: &str) -> (r: bool)
    ensures
        r == match path_extension(path@) {
            Some(e) => is_gif_extension(e),
            None => false,
        },
{
    match extension(path) {
        Some(e) => {
            proof {
                reveal_strlit("gif");
            }
            eq_ignore_ascii_case(e.as_str(), "gif")
        },
        None => false,
    }
}

/// The indices `select_evenly_spaced` picks: `count` (at most `total`) indices
/// spread from the first frame to the last.
pub open spec fn evenly_spaced(total: nat, count: nat) -> Seq<nat> {
    if total == 0 || count == 0 {
        Seq::empty()
    } else {
        let c: nat = if count < total { count } else { total };
        if c == 1 {
            seq![0nat]
        } else {
            Seq::new(c, |i: int| (i * (total - 1) / (c - 1)) as nat)
        }
    }
}

proof fn lemma_step_grows(i: int, a: int, b: int)
    requires
        0 <= i,
        a >= b > 0,
    ensures
        (i + 1) * a / b >= i * a / b + 1,
{
    vstd::arithmetic::div_mod::lemma_div_plus_one(i * a, b);
    assert((i + 1) * a >= i * a + b) by (nonlinear_arith)
        requires
            a >= b,
            i >= 0,
    ;
    vstd::arithmetic::div_mod::lemma_div_is_ordered(i * a + b, (i + 1) * a, b);
}

/// The picked frames are spread over all frames: as many as asked for (at most
/// all of them), strictly increasing, starting at the first frame and, when more
/// than one is picked, ending at the last.
pub proof fn evenly_spaced_spans_the_frames(total: nat, count: nat)
    requires
        total > 0,
        count > 0,
    ensures
        ({
            let v = evenly_spaced(total, count);
            &&& v.len() == if count < total { count } else { total }
            &&& v[0] == 0
            &&& forall|k: int| 0 <= k < v.len() ==> #[trigger] v[k] < total
            &&& forall|k: int| 0 <= k < v.len() - 1 ==> #[trigger] v[k] < v[k + 1]
            &&& v.len() >= 2 ==> v[v.len() - 1] == total - 1
        }),
{
    let v = evenly_spaced(total, count);
    let c: nat = if count < total { count } else { total };
    if c >= 2 {
        let a: int = total - 1;
        let b: int = c - 1;
        assert forall|k: int| 0 <= k < v.len() implies #[trigger] v[k] < total by {
            assert(k * a <= b * a) by (nonlinear_arith)
                requires
                    0 <= k <= b,
                    a >= 0,
            ;
            vstd::arithmetic::div_mod::lemma_div_is_ordered(k * a, b * a, b);
            vstd::arithmetic::div_mod::lemma_div_multiples_vanish(a, b);
            vstd::arithmetic::div_mod::lemma_div_pos_is_pos(k * a, b);
            assert(k * a >= 0) by (nonlinear_arith)
                requires
                    k >= 0,
                    a >= 0,
            ;
        }
        assert forall|k: int| 0 <= k < v.len() - 1 implies #[trigger] v[k] < v[k + 1] by {
            lemma_step_grows(k, a, b);
        }
        vstd::arithmetic::div_mod::lemma_div_multiples_vanish(a, b);
        assert(b * a == a * b) by (nonlinear_arith);
    }
}

/// Select `count` evenly-spaced frame indices from a total of `total` frames:
/// index `i` of the result is `i * (total - 1) / (count - 1)`, with `count` at most `total`.
pub fn select_evenly_spaced(total: usize, count: usize) -> (v: Vec<usize>)
    ensures
        v@.len() == evenly_spaced(total as nat, count as nat).len(),
        forall|i: int| 0 <= i < v@.len() ==> v@[i] == evenly_spaced(total as nat, count as nat)[i],
{
    if total == 0 || count == 0 {
        return Vec::new();
    }
    let count = if count < total { count } else { total };
    if count == 1 {
        return vec![0];
    }
    let mut v: Vec<usize> = Vec::new();
    let mut i: usize = 0;
    while i < count
        invariant
            2 <= count <= total,
            0 <= i <= count,
            v@.len() == i,
            forall|k: int| 0 <= k < i ==> v@[k] == k * (total - 1) / (count - 1),
        decreases count - i,
    {
        assert(i * (total - 1) <= (count - 1) * (total - 1)) by (nonlinear_arith)
            requires
                i <= count - 1,
                total >= 1,
        ;
        assert((count - 1) * (total - 1) <= (total - 1) * (total - 1)) by (nonlinear_arith)
            requires
                count <= total,
                total >= 1,
        ;
        assert(i * (total - 1) <= 18446744073709551615 * 18446744073709551615) by (nonlinear_arith)
            requires
                i <= 18446744073709551615,
                total - 1 <= 18446744073709551615,
                total >= 1,
        ;
        let q = (i as u128 * (total - 1) as u128) / ((count - 1) as u128);
        assert(q <= total - 1) by (nonlinear_arith)
            requires
                q == i * (total - 1) / (count - 1),
                i <= count - 1,
                count >= 2,
                total >= 1,
        ;
        v.push(q as usize);
        i += 1;
    }
    v
}

/// Size of an image of `src_w` x `src_h` scaled to fit within `max_w` x `max_h`
/// keeping its aspect ratio: the tighter side matches its bound and the other is
/// scaled by the same ratio, rounded down. A side of length zero stays zero, and
/// then the other side takes its bound.
pub open spec fn fit_size(src_w: u32, src_h: u32, max_w: u32, max_h: u32) -> (int, int) {
    if src_w == 0 || src_h == 0 {
        (if src_w > 0 { max_w as int } else { 0 }, if src_h > 0 { max_h as int } else { 0 })
    } else if max_w * src_h <= max_h * src_w {
        (max_w as int, (src_h * max_w) / (src_w as int))
    } else {
        ((src_w * max_h) / (src_h as int), max_h as int)
    }
}

/// Size of an image of `src_w` x `src_h` scaled to cover `min_w` x `min_h` keeping
/// its aspect ratio: the looser side matches its bound and the other is scaled by
/// the same ratio, rounded up, saturating at `u32::MAX`. A side of length zero
/// stays zero; the other side then takes its bound if the zero side's bound is
/// zero too, and otherwise (an unbounded ratio) `u32::MAX`.
pub open spec fn fill_size(src_w: u32, src_h: u32, min_w: u32, min_h: u32) -> (int, int) {
    if src_w == 0 || src_h == 0 {
        (
            if src_w == 0 { 0 } else if min_h > 0 { u32::MAX as int } else { min_w as int },
            if src_h == 0 { 0 } else if min_w > 0 { u32::MAX as int } else { min_h as int },
        )
    } else if min_w * src_h >= min_h * src_w {
        let h = (src_h * min_w + src_w - 1) / (src_w as int);
        (min_w as int, if h > u32::MAX { u32::MAX as int } else { h })
    } else {
        let w = (src_w * min_h + src_h - 1) / (src_h as int);
        (if w > u32::MAX { u32::MAX as int } else { w }, min_h as int)
    }
}

proof fn lemma_mul_u32(a: u32, b: u32)
    ensures
        0 <= a * b <= 4294967295 * 4294967295,
{
    assert(0 <= a * b <= 4294967295 * 4294967295) by (nonlinear_arith)
        requires
            a <= 4294967295,
            b <= 4294967295,
    ;
}

/// Largest size with the source's aspect ratio that fits in the bounds.
pub fn fit_dimensions(src_w: u32, src_h: u32, max_w: u32, max_h: u32) -> (d: (u32, u32))
    ensures
        d.0 == fit_size(src_w, src_h, max_w, max_h).0,
        d.1 == fit_size(src_w, src_h, max_w, max_h).1,
{
    proof {
        lemma_mul_u32(max_w, src_h);
        lemma_mul_u32(max_h, src_w);
        lemma_mul_u32(src_h, max_w);
        lemma_mul_u32(src_w, max_h);
    }
    if src_w == 0 || src_h == 0 {
        return (if src_w > 0 { max_w } else { 0 }, if src_h > 0 { max_h } else { 0 });
    }
    let a = max_w as u64 * src_h as u64;
    let b = max_h as u64 * src_w as u64;
    if a <= b {
        let h = (src_h as u64 * max_w as u64) / src_w as u64;
        assert(h <= max_h) by (nonlinear_arith)
            requires
                h == (src_h * max_w) / (src_w as int),
                max_w * src_h <= max_h * src_w,
                src_w > 0,
        ;
        (max_w, h as u32)
    } else {
        let w = (src_w as u64 * max_h as u64) / src_h as u64;
        assert(w <= max_w) by (nonlinear_arith)
            requires
                w == (src_w * max_h) / (src_h as int),
                max_w * src_h > max_h * src_w,
                src_h > 0,
        ;
        (w as u32, max_h)
    }
}

/// Smallest size with the source's aspect ratio that covers the bounds.
pub fn fill_dimensions(src_w: u32, src_h: u32, min_w: u32, min_h: u32) -> (d: (u32, u32))
    ensures
        d.0 == fill_size(src_w, src_h, min_w, min_h).0,
        d.1 == fill_size(src_w, src_h, min_w, min_h).1,
{
    proof {
        lemma_mul_u32(min_w, src_h);
        lemma_mul_u32(min_h, src_w);
        lemma_mul_u32(src_h, min_w);
        lemma_mul_u32(src_w, min_h);
    }
    if src_w == 0 || src_h == 0 {
        let w = if src_w == 0 { 0 } else if min_h > 0 { u32::MAX } else { min_w };
        let h = if src_h == 0 { 0 } else if min_w > 0 { u32::MAX } else { min_h };
        return (w, h);
    }
    let a = min_w as u64 * src_h as u64;
    let b = min_h as u64 * src_w as u64;
    if a >= b {
        let h = (src_h as u64 * min_w as u64 + src_w as u64 - 1) / src_w as u64;
        (min_w, if h > u32::MAX as u64 { u32::MAX } else { h as u32 })
    } else {
        let w = (src_w as u64 * min_h as u64 + src_h as u64 - 1) / src_h as u64;
        (if w > u32::MAX as u64 { u32::MAX } else { w as u32 }, min_h)
    }
}

// ── what fitting and filling achieve ───────────────────────────────────

proof fn lemma_div_le(a: int, b: int, c: int)
    requires
        a >= 0,
        b > 0,
        a <= c * b,
    ensures
        a / b <= c,
{
    vstd::arithmetic::div_mod::lemma_fundamental_div_mod(a, b);
    let q = a / b;
    let r = a % b;
    assert(q <= c) by (nonlinear_arith)
        requires
            a == b * q + r,
            0 <= r,
            a <= c * b,
            b > 0,
    ;
}

proof fn lemma_div_ge(a: int, b: int, h: int)
    requires
        a >= 0,
        b > 0,
        h * b <= a,
    ensures
        h <= a / b,
{
    vstd::arithmetic::div_mod::lemma_fundamental_div_mod(a, b);
    let q = a / b;
    let r = a % b;
    assert(h <= q) by (nonlinear_arith)
        requires
            a == b * q + r,
            r < b,
            h * b <= a,
            b > 0,
    ;
}

/// `w` x `h` has the aspect ratio of `src_w` x `src_h`.
pub open spec fn same_aspect(w: int, h: int, src_w: u32, src_h: u32) -> bool {
    w * src_h == h * src_w
}

/// Fitting a non-empty image gives the largest size with its aspect ratio inside
/// the bounds: the size lies within `max_w` x `max_h`, one side meets its bound,
/// and no size with exactly the source's aspect ratio that fits is larger.
pub proof fn fit_size_is_largest_inside(src_w: u32, src_h: u32, max_w: u32, max_h: u32)
    requires
        src_w > 0,
        src_h > 0,
    ensures
        ({
            let (w, h) = fit_size(src_w, src_h, max_w, max_h);
            &&& 0 <= w <= max_w
            &&& 0 <= h <= max_h
            &&& w == max_w || h == max_h
            &&& forall|w2: int, h2: int|
                0 <= w2 <= max_w && 0 <= h2 <= max_h && #[trigger] same_aspect(w2, h2, src_w, src_h) ==> w2 <= w
                    && h2 <= h
        }),
{
    let (w, h) = fit_size(src_w, src_h, max_w, max_h);
    let sw = src_w as int;
    let sh = src_h as int;
    let mw = max_w as int;
    let mh = max_h as int;
    assert(sh * mw >= 0 && sw * mh >= 0) by (nonlinear_arith)
        requires
            sh >= 0,
            mw >= 0,
            sw >= 0,
            mh >= 0,
    ;
    if mw * sh <= mh * sw {
        assert(sh * mw <= mh * sw) by (nonlinear_arith)
            requires
                mw * sh <= mh * sw,
        ;
        lemma_div_le(sh * mw, sw, mh);
        assert(0 <= (sh * mw) / sw) by {
            vstd::arithmetic::div_mod::lemma_div_pos_is_pos(sh * mw, sw);
        }
        assert forall|w2: int, h2: int|
            0 <= w2 <= max_w && 0 <= h2 <= max_h && #[trigger] same_aspect(w2, h2, src_w, src_h) implies w2 <= w
                && h2 <= h by {
            assert(h2 * sw <= sh * mw) by (nonlinear_arith)
                requires
                    w2 * sh == h2 * sw,
                    w2 <= mw,
                    sh >= 0,
            ;
            lemma_div_ge(sh * mw, sw, h2);
        }
    } else {
        assert(sw * mh <= mw * sh) by (nonlinear_arith)
            requires
                mw * sh > mh * sw,
        ;
        lemma_div_le(sw * mh, sh, mw);
        assert(0 <= (sw * mh) / sh) by {
            vstd::arithmetic::div_mod::lemma_div_pos_is_pos(sw * mh, sh);
        }
        assert forall|w2: int, h2: int|
            0 <= w2 <= max_w && 0 <= h2 <= max_h && #[trigger] same_aspect(w2, h2, src_w, src_h) implies w2 <= w
                && h2 <= h by {
            assert(w2 * sh <= sw * mh) by (nonlinear_arith)
                requires
                    w2 * sh == h2 * sw,
                    h2 <= mh,
                    sw >= 0,
            ;
            lemma_div_ge(sw * mh, sh, w2);
        }
    }
}

/// Filling with a non-empty image gives the smallest size with its aspect ratio
/// that covers the bounds: the size reaches `min_w` x `min_h`, one side meets its
/// bound, and no size with exactly the source's aspect ratio that covers the
/// bounds is smaller.
pub proof fn fill_size_is_smallest_covering(src_w: u32, src_h: u32, min_w: u32, min_h: u32)
    requires
        src_w > 0,
        src_h > 0,
    ensures
        ({
            let (w, h) = fill_size(src_w, src_h, min_w, min_h);
            &&& min_w <= w <= u32::MAX
            &&& min_h <= h <= u32::MAX
            &&& w == min_w || h == min_h
            &&& forall|w2: int, h2: int|
                w2 >= min_w && h2 >= min_h && #[trigger] same_aspect(w2, h2, src_w, src_h) ==> w <= w2 && h <= h2
        }),
{
    let (w, h) = fill_size(src_w, src_h, min_w, min_h);
    let sw = src_w as int;
    let sh = src_h as int;
    let mw = min_w as int;
    let mh = min_h as int;
    assert(sh * mw >= 0 && sw * mh >= 0) by (nonlinear_arith)
        requires
            sh >= 0,
            mw >= 0,
            sw >= 0,
            mh >= 0,
    ;
    if mw * sh >= mh * sw {
        let a = sh * mw + sw - 1;
        assert(mh * sw <= a) by (nonlinear_arith)
            requires
                mw * sh >= mh * sw,
                sw >= 1,
                a == sh * mw + sw - 1,
        ;
        lemma_div_ge(a, sw, mh);
        assert forall|w2: int, h2: int|
            w2 >= min_w && h2 >= min_h && #[trigger] same_aspect(w2, h2, src_w, src_h) implies w <= w2 && h <= h2 by {
            assert(a <= h2 * sw + sw - 1) by (nonlinear_arith)
                requires
                    w2 * sh == h2 * sw,
                    w2 >= mw,
                    sh >= 0,
                    a == sh * mw + sw - 1,
            ;
            assert(a <= (h2 + 1) * sw - 1) by (nonlinear_arith)
                requires
                    a <= h2 * sw + sw - 1,
            ;
            vstd::arithmetic::div_mod::lemma_fundamental_div_mod(a, sw);
            let q = a / sw;
            let r = a % sw;
            assert(q <= h2) by (nonlinear_arith)
                requires
                    a == sw * q + r,
                    0 <= r,
                    a <= (h2 + 1) * sw - 1,
                    sw > 0,
            ;
        }
    } else {
        let a = sw * mh + sh - 1;
        assert(mw * sh <= a) by (nonlinear_arith)
            requires
                mw * sh < mh * sw,
                sh >= 1,
                a == sw * mh + sh - 1,
        ;
        lemma_div_ge(a, sh, mw);
        assert forall|w2: int, h2: int|
            w2 >= min_w && h2 >= min_h && #[trigger] same_aspect(w2, h2, src_w, src_h) implies w <= w2 && h <= h2 by {
            assert(a <= (w2 + 1) * sh - 1) by (nonlinear_arith)
                requires
                    w2 * sh == h2 * sw,
                    h2 >= mh,
                    sw >= 0,
                    sh >= 1,
                    a == sw * mh + sh - 1,
            ;
            vstd::arithmetic::div_mod::lemma_fundamental_div_mod(a, sh);
            let q = a / sh;
            let r = a % sh;
            assert(q <= w2) by (nonlinear_arith)
                requires
                    a == sh * q + r,
                    0 <= r,
                    a <= (w2 + 1) * sh - 1,
                    sh > 0,
            ;
        }
    }
}

// ── rotating and flipping ──────────────────────────────────────────────

/// A rotation or mirror of an image.
#[derive(Debug, Clone, Copy, PartialEq, Eq)]
pub enum Orientation {
    /// 90 degrees clockwise.
    Rotate90,
    /// 180 degrees.
    Rotate180,
    /// 90 degrees counter-clockwise.
    Rotate270,
    /// Mirrored left to right.
    FlipHorizontal,
    /// Mirrored top to bottom.
    FlipVertical,
}

/// Size of the result of reorienting a `w` x `h` image.
pub open spec fn oriented_size(o: Orientation, w: u32, h: u32) -> (u32, u32) {
    match o {
        Orientation::Rotate90 | Orientation::Rotate270 => (h, w),
        _ => (w, h),
    }
}

/// The source pixel of result pixel (x, y) when reorienting a `w` x `h` image:
/// clockwise rotation moves source (sx, sy) to (h - 1 - sy, sx), and so on.
pub open spec fn oriented_source(o: Orientation, w: u32, h: u32, x: int, y: int) -> (int, int) {
    match o {
        Orientation::Rotate90 => (y, h - 1 - x),
        Orientation::Rotate180 => (w - 1 - x, h - 1 - y),
        Orientation::Rotate270 => (w - 1 - y, x),
        Orientation::FlipHorizontal => (w - 1 - x, y),
        Orientation::FlipVertical => (x, h - 1 - y),
    }
}

/// `dst` is `src` reoriented by `o`.
pub open spec fn is_oriented(src: RgbaBuffer, dst: RgbaBuffer, o: Orientation) -> bool {
    &&& dst.wf()
    &&& dst.width == oriented_size(o, src.width, src.height).0
    &&& dst.height == oriented_size(o, src.width, src.height).1
    &&& forall|x: int, y: int, c: int|
        0 <= x < dst.width && 0 <= y < dst.height && 0 <= c < 4 ==> #[trigger] dst.channel(x, y, c)
            == src.channel(
            oriented_source(o, src.width, src.height, x, y).0,
            oriented_source(o, src.width, src.height, x, y).1,
            c,
        )
}

pub(crate) proof fn lemma_index_bounds(w: int, h: int, x: int, y: int, c: int)
    requires
        0 <= x < w,
        0 <= y < h,
        0 <= c < 4,
    ensures
        0 <= (y * w + x) * 4 + c < w * h * 4,
{
    assert(0 <= (y * w + x) * 4 + c < w * h * 4) by (nonlinear_arith)
        requires
            0 <= x < w,
            0 <= y < h,
            0 <= c < 4,
    ;
}


/// Bytes of different pixels are different bytes.
pub(crate) proof fn lemma_index_distinct(w: int, h: int, x: int, y: int, c: int, x2: int, y2: int)
    requires
        0 <= x < w,
        0 <= y < h,
        0 <= c < 4,
        0 <= x2 < w,
        0 <= y2 < h,
        x != x2 || y != y2,
    ensures
        (y * w + x) * 4 + c != (y2 * w + x2) * 4,
        (y * w + x) * 4 + c != (y2 * w + x2) * 4 + 1,
        (y * w + x) * 4 + c != (y2 * w + x2) * 4 + 2,
        (y * w + x) * 4 + c != (y2 * w + x2) * 4 + 3,
{
    let k1 = y * w + x;
    let k2 = y2 * w + x2;
    if k1 == k2 {
        vstd::arithmetic::div_mod::lemma_fundamental_div_mod_converse(k1, w, y, x);
        vstd::arithmetic::div_mod::lemma_fundamental_div_mod_converse(k2, w, y2, x2);
    }
    assert(k1 != k2);
}

proof fn lemma_index_decode(w: int, h: int, i: int)
    requires
        w > 0,
        0 <= i < w * h * 4,
    ensures
        ({
            let k = i / 4;
            let c = i % 4;
            let y = k / w;
            let x = k % w;
            &&& 0 <= x < w
            &&& 0 <= y < h
            &&& 0 <= c < 4
            &&& i == (y * w + x) * 4 + c
        }),
{
    let k = i / 4;
    vstd::arithmetic::div_mod::lemma_fundamental_div_mod(i, 4);
    vstd::arithmetic::div_mod::lemma_fundamental_div_mod(k, w);
    vstd::arithmetic::div_mod::lemma_mod_pos_bound(i, 4);
    vstd::arithmetic::div_mod::lemma_div_pos_is_pos(i, 4);
    vstd::arithmetic::div_mod::lemma_mod_pos_bound(k, w);
    vstd::arithmetic::div_mod::lemma_div_pos_is_pos(k, w);
    assert(i == ((k / w) * w + k % w) * 4 + i % 4) by (nonlinear_arith)
        requires
            i == 4 * (i / 4) + i % 4,
            k == i / 4,
            k == w * (k / w) + k % w,
    ;
    assert(0 <= k < w * h) by (nonlinear_arith)
        requires
            k == i / 4,
            0 <= i < w * h * 4,
    ;
    assert(0 <= k / w < h) by (nonlinear_arith)
        requires
            0 <= k < w * h,
            w > 0,
    ;
}

/// Two well-formed images of one size with equal channels everywhere hold the same bytes.
proof fn lemma_same_pixels(a: RgbaBuffer, b: RgbaBuffer)
    requires
        a.wf(),
        b.wf(),
        a.width == b.width,
        a.height == b.height,
        forall|x: int, y: int, c: int|
            0 <= x < a.width && 0 <= y < a.height && 0 <= c < 4 ==> #[trigger] a.channel(x, y, c) == b.channel(x, y, c),
    ensures
        a.data@ == b.data@,
{
    assert forall|i: int| 0 <= i < a.data@.len() implies a.data@[i] == b.data@[i] by {
        lemma_index_decode(a.width as int, a.height as int, i);
        let k = i / 4;
        assert(a.channel(k % a.width as int, k / a.width as int, i % 4) == b.channel(k % a.width as int, k / a.width as int, i % 4));
    }
    assert(a.data@ =~= b.data@);
}

/// Reorient an image.
pub fn reorient(img: &RgbaBuffer, o: Orientation) -> (r: RgbaBuffer)
    requires
        img.wf(),
    ensures
        is_oriented(*img, r, o),
{
    let w = img.width;
    let h = img.height;
    let (w2, h2) = match o {
        Orientation::Rotate90 | Orientation::Rotate270 => (h, w),
        _ => (w, h),
    };
    proof {
        assert(w2 * h2 == w * h) by (nonlinear_arith)
            requires
                (w2 == w && h2 == h) || (w2 == h && h2 == w),
        ;
    }
    let n = img.data.len();
    let mut data: Vec<u8> = Vec::new();
    let mut y: u32 = 0;
    while y < h2
        invariant
            img.wf(),
            n == img.data@.len(),
            w == img.width,
            h == img.height,
            w2 == oriented_size(o, w, h).0,
            h2 == oriented_size(o, w, h).1,
            w2 * h2 == w * h,
            0 <= y <= h2,
            data@.len() == y * w2 * 4,
            forall|px: int, py: int, c: int|
                0 <= px < w2 && 0 <= py < y && 0 <= c < 4 ==> #[trigger] data@[(py * w2 + px) * 4 + c]
                    == img.channel(oriented_source(o, w, h, px, py).0, oriented_source(o, w, h, px, py).1, c),
        decreases h2 - y,
    {
        let mut x: u32 = 0;
        while x < w2
            invariant
                img.wf(),
                n == img.data@.len(),
                w == img.width,
                h == img.height,
                w2 == oriented_size(o, w, h).0,
                h2 == oriented_size(o, w, h).1,
                w2 * h2 == w * h,
                0 <= y < h2,
                0 <= x <= w2,
                data@.len() == (y * w2 + x) * 4,
                forall|px: int, py: int, c: int|
                    0 <= px < w2 && 0 <= py < y && 0 <= c < 4 ==> #[trigger] data@[(py * w2 + px) * 4 + c]
                        == img.channel(oriented_source(o, w, h, px, py).0, oriented_source(o, w, h, px, py).1, c),
                forall|px: int, c: int|
                    0 <= px < x && 0 <= c < 4 ==> #[trigger] data@[(y * w2 + px) * 4 + c]
                        == img.channel(oriented_source(o, w, h, px, y as int).0, oriented_source(o, w, h, px, y as int).1, c),
            decreases w2 - x,
        {
            let (sx, sy): (u32, u32) = match o {
                Orientation::Rotate90 => (y, h - 1 - x),
                Orientation::Rotate180 => (w - 1 - x, h - 1 - y),
                Orientation::Rotate270 => (w - 1 - y, x),
                Orientation::FlipHorizontal => (w - 1 - x, y),
                Orientation::FlipVertical => (x, h - 1 - y),
            };
            proof {
                lemma_index_bounds(w as int, h as int, sx as int, sy as int, 0);
                lemma_index_bounds(w as int, h as int, sx as int, sy as int, 3);
                assert((sy * w + sx) * 4 + 3 < n);
            }
            let base: usize = ((sy as usize) * (w as usize) + (sx as usize)) * 4;
            let ghost before = data@;
            data.push(img.data[base]);
            data.push(img.data[base + 1]);
            data.push(img.data[base + 2]);
            data.push(img.data[base + 3]);
            proof {
                assert forall|px: int, py: int, cc: int|
                    0 <= px < w2 && 0 <= py < y && 0 <= cc < 4 implies #[trigger] data@[(py * w2 + px) * 4 + cc]
                        == img.channel(oriented_source(o, w, h, px, py).0, oriented_source(o, w, h, px, py).1, cc) by {
                    assert((py * w2 + px) * 4 + cc < (y * w2 + x) * 4) by (nonlinear_arith)
                        requires
                            0 <= px < w2,
                            0 <= py < y,
                            0 <= cc < 4,
                            0 <= x,
                    ;
                    assert(data@[(py * w2 + px) * 4 + cc] == before[(py * w2 + px) * 4 + cc]);
                }
                assert forall|px: int, cc: int|
                    0 <= px < x + 1 && 0 <= cc < 4 implies #[trigger] data@[(y * w2 + px) * 4 + cc]
                        == img.channel(oriented_source(o, w, h, px, y as int).0, oriented_source(o, w, h, px, y as int).1, cc) by {
                    if px < x {
                        assert((y * w2 + px) * 4 + cc < (y * w2 + x) * 4) by (nonlinear_arith)
                            requires
                                0 <= px < x,
                                0 <= cc < 4,
                        ;
                        assert(data@[(y * w2 + px) * 4 + cc] == before[(y * w2 + px) * 4 + cc]);
                    } else {
                        assert((y * w2 + px) * 4 + cc == before.len() + cc);
                    }
                }
                assert(data@.len() == (y * w2 + x + 1) * 4);
            }
            x += 1;
        }
        proof {
            assert(data@.len() == (y + 1) * w2 * 4) by (nonlinear_arith)
                requires
                    data@.len() == (y * w2 + w2) * 4,
            ;
            assert forall|px: int, py: int, c: int|
                0 <= px < w2 && 0 <= py < y + 1 && 0 <= c < 4 implies #[trigger] data@[(py * w2 + px) * 4 + c]
                    == img.channel(oriented_source(o, w, h, px, py).0, oriented_source(o, w, h, px, py).1, c) by {
                if py == y {
                    assert(data@[(y * w2 + px) * 4 + c] == img.channel(oriented_source(o, w, h, px, y as int).0, oriented_source(o, w, h, px, y as int).1, c));
                }
            }
        }
        y += 1;
    }
    proof {
        assert(data@.len() == w2 * h2 * 4) by (nonlinear_arith)
            requires
                data@.len() == h2 * w2 * 4,
        ;
    }
    RgbaBuffer { width: w2, height: h2, data }
}

/// Rotate an image 90 degrees clockwise.
pub fn rotate_90(img: &RgbaBuffer) -> (r: RgbaBuffer)
    requires
        img.wf(),
    ensures
        is_oriented(*img, r, Orientation::Rotate90),
{
    reorient(img, Orientation::Rotate90)
}

/// Rotate an image 180 degrees.
pub fn rotate_180(img: &RgbaBuffer) -> (r: RgbaBuffer)
    requires
        img.wf(),
    ensures
        is_oriented(*img, r, Orientation::Rotate180),
{
    reorient(img, Orientation::Rotate180)
}

/// Rotate an image 90 degrees counter-clockwise.
pub fn rotate_270(img: &RgbaBuffer) -> (r: RgbaBuffer)
    requires
        img.wf(),
    ensures
        is_oriented(*img, r, Orientation::Rotate270),
{
    reorient(img, Orientation::Rotate270)
}

/// Mirror an image left to right.
pub fn flip_horizontal(img: &RgbaBuffer) -> (r: RgbaBuffer)
    requires
        img.wf(),
    ensures
        is_oriented(*img, r, Orientation::FlipHorizontal),
{
    reorient(img, Orientation::FlipHorizontal)
}

/// Mirror an image top to bottom.
pub fn flip_vertical(img: &RgbaBuffer) -> (r: RgbaBuffer)
    requires
        img.wf(),
    ensures
        is_oriented(*img, r, Orientation::FlipVertical),
{
    reorient(img, Orientation::FlipVertical)
}

/// Rotating clockwise and then counter-clockwise gives back the image.
pub proof fn rotate_270_undoes_rotate_90(img: RgbaBuffer, r1: RgbaBuffer, r2: RgbaBuffer)
    requires
        img.wf(),
        is_oriented(img, r1, Orientation::Rotate90),
        is_oriented(r1, r2, Orientation::Rotate270),
    ensures
        r2.width == img.width,
        r2.height == img.height,
        r2.data@ == img.data@,
{
    assert forall|x: int, y: int, c: int|
        0 <= x < r2.width && 0 <= y < r2.height && 0 <= c < 4 implies #[trigger] r2.channel(x, y, c) == img.channel(x, y, c) by {
        let (ax, ay) = oriented_source(Orientation::Rotate270, r1.width, r1.height, x, y);
        assert(r1.channel(ax, ay, c) == img.channel(oriented_source(Orientation::Rotate90, img.width, img.height, ax, ay).0, oriented_source(Orientation::Rotate90, img.width, img.height, ax, ay).1, c));
    }
    lemma_same_pixels(r2, img);
}

/// Mirroring twice the same way gives back the image.
pub proof fn flip_twice_is_identity(img: RgbaBuffer, r1: RgbaBuffer, r2: RgbaBuffer, o: Orientation)
    requires
        img.wf(),
        o == Orientation::FlipHorizontal || o == Orientation::FlipVertical || o == Orientation::Rotate180,
        is_oriented(img, r1, o),
        is_oriented(r1, r2, o),
    ensures
        r2.width == img.width,
        r2.height == img.height,
        r2.data@ == img.data@,
{
    assert forall|x: int, y: int, c: int|
        0 <= x < r2.width && 0 <= y < r2.height && 0 <= c < 4 implies #[trigger] r2.channel(x, y, c) == img.channel(x, y, c) by {
        let (ax, ay) = oriented_source(o, r1.width, r1.height, x, y);
        assert(r1.channel(ax, ay, c) == img.channel(oriented_source(o, img.width, img.height, ax, ay).0, oriented_source(o, img.width, img.height, ax, ay).1, c));
    }
    lemma_same_pixels(r2, img);
}

/// Rotating by 180 degrees is rotating clockwise twice.
pub proof fn rotate_180_is_rotate_90_twice(img: RgbaBuffer, r1: RgbaBuffer, r2: RgbaBuffer, r3: RgbaBuffer)
    requires
        img.wf(),
        is_oriented(img, r1, Orientation::Rotate90),
        is_oriented(r1, r2, Orientation::Rotate90),
        is_oriented(img, r3, Orientation::Rotate180),
    ensures
        r2.width == r3.width,
        r2.height == r3.height,
        r2.data@ == r3.data@,
{
    assert forall|x: int, y: int, c: int|
        0 <= x < r2.width && 0 <= y < r2.height && 0 <= c < 4 implies #[trigger] r2.channel(x, y, c) == r3.channel(x, y, c) by {
        let (ax, ay) = oriented_source(Orientation::Rotate90, r1.width, r1.height, x, y);
        assert(r1.channel(ax, ay, c) == img.channel(oriented_source(Orientation::Rotate90, img.width, img.height, ax, ay).0, oriented_source(Orientation::Rotate90, img.width, img.height, ax, ay).1, c));
    }
    lemma_same_pixels(r2, r3);
}

// ── cropping and resizing ──────────────────────────────────────────────

/// Size of the part of a `w` x `h` image that a crop at (x, y) of `cw` x `ch`
/// keeps: the corner is moved inside the image and the size cut to what remains.
pub open spec fn crop_bounds(w: u32, h: u32, x: u32, y: u32, cw: u32, ch: u32) -> (u32, u32, u32, u32) {
    let x1 = if x < w { x } else { w };
    let y1 = if y < h { y } else { h };
    let w1 = if cw < w - x1 { cw } else { (w - x1) as u32 };
    let h1 = if ch < h - y1 { ch } else { (h - y1) as u32 };
    (x1, y1, w1, h1)
}

/// `dst` is the part of `src` that a crop at (x, y) of `cw` x `ch` keeps.
pub open spec fn is_crop(src: RgbaBuffer, dst: RgbaBuffer, x: u32, y: u32, cw: u32, ch: u32) -> bool {
    let (x1, y1, w1, h1) = crop_bounds(src.width, src.height, x, y, cw, ch);
    &&& dst.wf()
    &&& dst.width == w1
    &&& dst.height == h1
    &&& forall|a: int, b: int, c: int|
        0 <= a < w1 && 0 <= b < h1 && 0 <= c < 4 ==> #[trigger] dst.channel(a, b, c) == src.channel(x1 + a, y1 + b, c)
}

/// A crop keeps what of the requested rectangle lies in the image: the kept
/// rectangle lies inside the image and inside the request, starts at the request's
/// corner when that corner is in the image, and is the whole request when the
/// request fits.
pub proof fn crop_keeps_the_requested_part(w: u32, h: u32, x: u32, y: u32, cw: u32, ch: u32)
    ensures
        ({
            let (x1, y1, w1, h1) = crop_bounds(w, h, x, y, cw, ch);
            &&& x1 + w1 <= w
            &&& y1 + h1 <= h
            &&& w1 <= cw
            &&& h1 <= ch
            &&& x <= w ==> x1 == x
            &&& y <= h ==> y1 == y
            &&& x + cw <= w && y + ch <= h ==> x1 == x && y1 == y && w1 == cw && h1 == ch
        }),
{
}

/// Copy out a rectangle of an image, clamped to the image as
/// `image::imageops::crop_imm` clamps it.
pub fn crop(img: &RgbaBuffer, x: u32, y: u32, width: u32, height: u32) -> (r: RgbaBuffer)
    requires
        img.wf(),
    ensures
        is_crop(*img, r, x, y, width, height),
{
    let w = img.width;
    let h = img.height;
    let x1 = if x < w { x } else { w };
    let y1 = if y < h { y } else { h };
    let w1 = if width < w - x1 { width } else { w - x1 };
    let h1 = if height < h - y1 { height } else { h - y1 };
    let n = img.data.len();
    let mut data: Vec<u8> = Vec::new();
    let mut b: u32 = 0;
    while b < h1
        invariant
            img.wf(),
            n == img.data@.len(),
            w == img.width,
            h == img.height,
            x1 <= w,
            y1 <= h,
            x1 + w1 <= w,
            y1 + h1 <= h,
            0 <= b <= h1,
            data@.len() == b * w1 * 4,
            forall|pa: int, pb: int, c: int|
                0 <= pa < w1 && 0 <= pb < b && 0 <= c < 4 ==> #[trigger] data@[(pb * w1 + pa) * 4 + c]
                    == img.channel(x1 + pa, y1 + pb, c),
        decreases h1 - b,
    {
        let mut a: u32 = 0;
        while a < w1
            invariant
                img.wf(),
                n == img.data@.len(),
                w == img.width,
                h == img.height,
                x1 + w1 <= w,
                y1 + h1 <= h,
                0 <= b < h1,
                0 <= a <= w1,
                data@.len() == (b * w1 + a) * 4,
                forall|pa: int, pb: int, c: int|
                    0 <= pa < w1 && 0 <= pb < b && 0 <= c < 4 ==> #[trigger] data@[(pb * w1 + pa) * 4 + c]
                        == img.channel(x1 + pa, y1 + pb, c),
                forall|pa: int, c: int|
                    0 <= pa < a && 0 <= c < 4 ==> #[trigger] data@[(b * w1 + pa) * 4 + c]
                        == img.channel(x1 + pa, y1 + b, c),
            decreases w1 - a,
        {
            let sx = x1 + a;
            let sy = y1 + b;
            proof {
                lemma_index_bounds(w as int, h as int, sx as int, sy as int, 3);
            }
            let base: usize = ((sy as usize) * (w as usize) + (sx as usize)) * 4;
            let ghost before = data@;
            data.push(img.data[base]);
            data.push(img.data[base + 1]);
            data.push(img.data[base + 2]);
            data.push(img.data[base + 3]);
            proof {
                assert forall|pa: int, pb: int, cc: int|
                    0 <= pa < w1 && 0 <= pb < b && 0 <= cc < 4 implies #[trigger] data@[(pb * w1 + pa) * 4 + cc]
                        == img.channel(x1 + pa, y1 + pb, cc) by {
                    assert((pb * w1 + pa) * 4 + cc < (b * w1 + a) * 4) by (nonlinear_arith)
                        requires
                            0 <= pa < w1,
                            0 <= pb < b,
                            0 <= cc < 4,
                            0 <= a,
                    ;
                    assert(data@[(pb * w1 + pa) * 4 + cc] == before[(pb * w1 + pa) * 4 + cc]);
                }
                assert forall|pa: int, cc: int|
                    0 <= pa < a + 1 && 0 <= cc < 4 implies #[trigger] data@[(b * w1 + pa) * 4 + cc]
                        == img.channel(x1 + pa, y1 + b, cc) by {
                    if pa < a {
                        assert((b * w1 + pa) * 4 + cc < (b * w1 + a) * 4) by (nonlinear_arith)
                            requires
                                0 <= pa < a,
                                0 <= cc < 4,
                        ;
                        assert(data@[(b * w1 + pa) * 4 + cc] == before[(b * w1 + pa) * 4 + cc]);
                    } else {
                        assert((b * w1 + pa) * 4 + cc == before.len() + cc);
                    }
                }
                assert(data@.len() == (b * w1 + a + 1) * 4);
            }
            a += 1;
        }
        proof {
            assert(data@.len() == (b + 1) * w1 * 4) by (nonlinear_arith)
                requires
                    data@.len() == (b * w1 + w1) * 4,
            ;
            assert forall|pa: int, pb: int, c: int|
                0 <= pa < w1 && 0 <= pb < b + 1 && 0 <= c < 4 implies #[trigger] data@[(pb * w1 + pa) * 4 + c]
                    == img.channel(x1 + pa, y1 + pb, c) by {
                if pb == b {
                    assert(data@[(b * w1 + pa) * 4 + c] == img.channel(x1 + pa, y1 + b, c));
                }
            }
        }
        b += 1;
    }
    proof {
        assert(data@.len() == w1 * h1 * 4) by (nonlinear_arith)
            requires
                data@.len() == h1 * w1 * 4,
        ;
    }
    RgbaBuffer { width: w1, height: h1, data }
}

/// What holds of every result of resizing `src` to `nw` x `nh` with the Lanczos3
/// filter: the requested size; all bytes zero for an empty source; and, at an
/// unchanged size, a copy of the source. The other bytes are not fixed: the
/// filter's kernel is computed with `f32::sin`, whose precision std leaves open.
pub open spec fn lanczos3_outcome(src: RgbaBuffer, r: RgbaBuffer, nw: u32, nh: u32) -> bool {
    &&& r.wf()
    &&& r.width == nw
    &&& r.height == nh
    &&& src.width == 0 || src.height == 0 ==> forall|i: int| 0 <= i < r.data@.len() ==> r.data@[i] == 0
    &&& src.width > 0 && src.height > 0 && nw == src.width && nh == src.height ==> r.data@ == src.data@
}

/// Resize with the Lanczos3 filter.
///
/// Calls `image::imageops::resize` with `FilterType::Lanczos3`. Its source shows a
/// result of the requested size, all zero for an empty source, and a copy when the
/// size does not change; the contract says that much. The resampled bytes
/// otherwise depend on `f32::sin`, whose results std does not promise to be the
/// same across platforms or calls, so the contract leaves them open.
#[verifier::external_body]
fn resize_lanczos3(img: &RgbaBuffer, nwidth: u32, nheight: u32) -> (r: RgbaBuffer)
    requires
        img.wf(),
        nwidth * nheight * 4 <= isize::MAX,
    ensures
        lanczos3_outcome(*img, r, nwidth, nheight),
{
    let buf = ::image::RgbaImage::from_raw(img.width, img.height, img.data.clone()).unwrap();
    let out = ::image::imageops::resize(&buf, nwidth, nheight, ::image::imageops::FilterType::Lanczos3);
    RgbaBuffer { width: out.width(), height: out.height(), data: out.into_raw() }
}

/// The size an image is resized to before any cropping.
pub open spec fn resize_target(w: u32, h: u32, width: u32, height: u32, aspect: AspectRatio) -> (int, int) {
    match aspect {
        AspectRatio::Stretch => (width as int, height as int),
        AspectRatio::Fit => fit_size(w, h, width, height),
        AspectRatio::Fill => fill_size(w, h, width, height),
    }
}

/// Offset that centers a span of `target` within one of `size` (0 if it does not exceed it).
pub open spec fn center_offset(size: int, target: u32) -> u32 {
    (if size > target { (size - target) / 2 } else { 0 }) as u32
}

/// Resize an image to the target dimensions: stretched to exactly that size; fitted
/// inside it keeping the aspect ratio; or scaled to cover it keeping the aspect
/// ratio and then cropped to it around the center. The sizes are exact; of the
/// Lanczos3 resampling the contract says what `lanczos3_outcome` holds.
pub fn resize(img: &RgbaBuffer, width: u32, height: u32, aspect: AspectRatio) -> (r: RgbaBuffer)
    requires
        img.wf(),
        resize_target(img.width, img.height, width, height, aspect).0
            * resize_target(img.width, img.height, width, height, aspect).1 * 4 <= isize::MAX,
    ensures
        r.wf(),
        ({
            let (tw, th) = resize_target(img.width, img.height, width, height, aspect);
            aspect != AspectRatio::Fill ==> lanczos3_outcome(*img, r, tw as u32, th as u32)
        }),
        ({
            let (tw, th) = resize_target(img.width, img.height, width, height, aspect);
            aspect == AspectRatio::Fill ==> exists|scaled: RgbaBuffer|
                lanczos3_outcome(*img, scaled, tw as u32, th as u32) && #[trigger] is_crop(
                    scaled,
                    r,
                    center_offset(tw, width),
                    center_offset(th, height),
                    width,
                    height,
                )
        }),
{
    match aspect {
        AspectRatio::Stretch => resize_lanczos3(img, width, height),
        AspectRatio::Fit => {
            let (fw, fh) = fit_dimensions(img.width, img.height, width, height);
            resize_lanczos3(img, fw, fh)
        },
        AspectRatio::Fill => {
            let (fw, fh) = fill_dimensions(img.width, img.height, width, height);
            let resized = resize_lanczos3(img, fw, fh);
            // center crop to the target dimensions
            let x_offset = fw.saturating_sub(width) / 2;
            let y_offset = fh.saturating_sub(height) / 2;
            let r = crop(&resized, x_offset, y_offset, width, height);
            assert(x_offset == center_offset(fw as int, width));
            assert(y_offset == center_offset(fh as int, height));
            assert(is_crop(resized, r, center_offset(fw as int, width), center_offset(fh as int, height), width, height));
            r
        },
    }
}

// ── median filter ──────────────────────────────────────────────────────

/// `v` clamped to `0..=hi`.
pub open spec fn clamp_coord(v: int, hi: int) -> int {
    if v < 0 { 0 } else if v > hi { hi } else { v }
}

/// Channel `c` of the `(2r+1)` x `(2r+1)` window around (x, y), row by row, with
/// positions past the border clamped to the nearest pixel.
pub open spec fn window(img: RgbaBuffer, r: int, x: int, y: int, c: int) -> Seq<u8> {
    let side = 2 * r + 1;
    Seq::new(
        (side * side) as nat,
        |t: int|
            img.channel(
                clamp_coord(x + t % side - r, img.width - 1),
                clamp_coord(y + t / side - r, img.height - 1),
                c,
            ),
    )
}

/// The order `<=` on bytes.
pub open spec fn byte_le() -> spec_fn(u8, u8) -> bool {
    |a: u8, b: u8| a <= b
}

/// The median of a channel's window: the middle of its sorted values.
pub open spec fn window_median(img: RgbaBuffer, r: int, x: int, y: int, c: int) -> u8 {
    let w = window(img, r, x, y, c);
    w.sort_by(byte_le())[(w.len() / 2) as int]
}

/// `s` is in non-decreasing order.
pub open spec fn bytes_sorted(s: Seq<u8>) -> bool {
    forall|i: int, j: int| 0 <= i < j < s.len() ==> s[i] <= s[j]
}

/// Sorts bytes in ascending order.
///
/// Calls `<[u8]>::sort_unstable`, which std documents as sorting the slice in
/// ascending order; the contract states that the result is sorted and holds the
/// same bytes, each as often as before.
#[verifier::external_body]
fn sort_bytes(v: &mut Vec<u8>)
    ensures
        bytes_sorted(final(v)@),
        final(v)@.to_multiset() == old(v)@.to_multiset(),
{
    v.sort_unstable();
}

proof fn lemma_byte_le_total()
    ensures
        vstd::relations::total_ordering(byte_le()),
{
}

/// The window of one channel, in row order.
fn window_values(img: &RgbaBuffer, r: u32, x: u32, y: u32, c: usize) -> (v: Vec<u8>)
    requires
        img.wf(),
        x < img.width,
        y < img.height,
        c < 4,
        r <= 23169,
        img.width + r <= i32::MAX,
        img.height + r <= i32::MAX,
    ensures
        v@ == window(*img, r as int, x as int, y as int, c as int),
{
    let w = img.width;
    let h = img.height;
    let n = img.data.len();
    let ri = r as i64;
    let side: i64 = 2 * ri + 1;
    let ghost target = window(*img, r as int, x as int, y as int, c as int);
    let mut v: Vec<u8> = Vec::new();
    let mut dy: i64 = -ri;
    proof {
        assert(target.take(0) =~= Seq::<u8>::empty());
        assert(dy + ri == 0);
        assert((dy + ri) * side == 0) by (nonlinear_arith)
            requires
                dy + ri == 0,
        ;
    }
    while dy <= ri
        invariant
            img.wf(),
            n == img.data@.len(),
            w == img.width,
            h == img.height,
            x < w,
            y < h,
            c < 4,
            r <= 23169,
            ri == r,
            side == 2 * r + 1,
            w + r <= i32::MAX,
            h + r <= i32::MAX,
            -ri <= dy <= ri + 1,
            target == window(*img, r as int, x as int, y as int, c as int),
            v@.len() == (dy + ri) * side,
            v@ == target.take((dy + ri) * side),
        decreases ri + 1 - dy,
    {
        let mut dx: i64 = -ri;
        while dx <= ri
            invariant
                img.wf(),
                n == img.data@.len(),
                w == img.width,
                h == img.height,
                x < w,
                y < h,
                c < 4,
                ri == r,
                side == 2 * r + 1,
                r <= 23169,
                w + r <= i32::MAX,
                h + r <= i32::MAX,
                -ri <= dy <= ri,
                -ri <= dx <= ri + 1,
                target == window(*img, r as int, x as int, y as int, c as int),
                v@.len() == (dy + ri) * side + (dx + ri),
                v@ == target.take((dy + ri) * side + (dx + ri)),
            decreases ri + 1 - dx,
        {
            let px = x as i64 + dx;
            let py = y as i64 + dy;
            let nx: i64 = if px < 0 { 0 } else if px > w as i64 - 1 { w as i64 - 1 } else { px };
            let ny: i64 = if py < 0 { 0 } else if py > h as i64 - 1 { h as i64 - 1 } else { py };
            proof {
                lemma_index_bounds(w as int, h as int, nx as int, ny as int, c as int);
            }
            let idx: usize = ((ny as usize) * (w as usize) + (nx as usize)) * 4 + c;
            let ghost t: int = (dy + ri) * side + (dx + ri);
            proof {
                assert(0 <= t < side * side) by (nonlinear_arith)
                    requires
                        t == (dy + ri) * side + (dx + ri),
                        0 <= dy + ri < side,
                        0 <= dx + ri < side,
                ;
                vstd::arithmetic::div_mod::lemma_fundamental_div_mod_converse(t, side as int, (dy + ri) as int, (dx + ri) as int);
                assert(target[t] == img.channel(nx as int, ny as int, c as int));
            }
            v.push(img.data[idx]);
            proof {
                assert(v@ =~= target.take(t + 1));
            }
            dx += 1;
        }
        proof {
            assert((dy + ri) * side + side == (dy + 1 + ri) * side) by (nonlinear_arith);
        }
        dy += 1;
    }
    proof {
        assert((2 * ri + 1) * side == side * side) by (nonlinear_arith)
            requires
                side == 2 * ri + 1,
        ;
        assert(target.len() == side * side);
        assert(v@ =~= target);
    }
    v
}

/// The median of one channel's window.
fn median_of(img: &RgbaBuffer, r: u32, x: u32, y: u32, c: usize) -> (m: u8)
    requires
        img.wf(),
        x < img.width,
        y < img.height,
        c < 4,
        r <= 23169,
        img.width + r <= i32::MAX,
        img.height + r <= i32::MAX,
    ensures
        m == window_median(*img, r as int, x as int, y as int, c as int),
{
    let mut values = window_values(img, r, x, y, c);
    let ghost unsorted = values@;
    sort_bytes(&mut values);
    proof {
        lemma_byte_le_total();
        unsorted.lemma_sort_by_ensures(byte_le());
        vstd::seq_lib::lemma_sorted_unique(values@, unsorted.sort_by(byte_le()), byte_le());
        vstd::seq_lib::to_multiset_len(values@);
        vstd::seq_lib::to_multiset_len(unsorted);
        assert(unsorted.len() == (2 * r + 1) * (2 * r + 1));
        assert((2 * r + 1) * (2 * r + 1) >= 1) by (nonlinear_arith);
    }
    let mid = values.len() / 2;
    values[mid]
}

/// Median filter: each pixel's color channels become the medians of its
/// `(2 * radius + 1)`-square neighborhood (clamped at the borders); alpha is kept.
pub fn median_filter(img: &RgbaBuffer, radius: u32) -> (out: RgbaBuffer)
    requires
        img.wf(),
        radius <= 23169,
        img.width + radius <= i32::MAX,
        img.height + radius <= i32::MAX,
    ensures
        out.wf(),
        out.width == img.width,
        out.height == img.height,
        forall|x: int, y: int, c: int|
            0 <= x < img.width && 0 <= y < img.height && 0 <= c < 4 ==> #[trigger] out.channel(x, y, c) == if c
                < 3 {
                window_median(*img, radius as int, x, y, c)
            } else {
                img.channel(x, y, 3)
            },
{
    let w = img.width;
    let h = img.height;
    let n = img.data.len();
    let mut data: Vec<u8> = Vec::new();
    let mut y: u32 = 0;
    while y < h
        invariant
            img.wf(),
            n == img.data@.len(),
            w == img.width,
            h == img.height,
            radius <= 23169,
            w + radius <= i32::MAX,
            h + radius <= i32::MAX,
            0 <= y <= h,
            data@.len() == y * w * 4,
            forall|px: int, py: int, c: int|
                0 <= px < w && 0 <= py < y && 0 <= c < 4 ==> #[trigger] data@[(py * w + px) * 4 + c] == if c < 3 {
                    window_median(*img, radius as int, px, py, c)
                } else {
                    img.channel(px, py, 3)
                },
        decreases h - y,
    {
        let mut x: u32 = 0;
        while x < w
            invariant
                img.wf(),
                n == img.data@.len(),
                w == img.width,
                h == img.height,
                radius <= 23169,
                w + radius <= i32::MAX,
                h + radius <= i32::MAX,
                0 <= y < h,
                0 <= x <= w,
                data@.len() == (y * w + x) * 4,
                forall|px: int, py: int, c: int|
                    0 <= px < w && 0 <= py < y && 0 <= c < 4 ==> #[trigger] data@[(py * w + px) * 4 + c] == if c
                        < 3 {
                        window_median(*img, radius as int, px, py, c)
                    } else {
                        img.channel(px, py, 3)
                    },
                forall|px: int, c: int|
                    0 <= px < x && 0 <= c < 4 ==> #[trigger] data@[(y * w + px) * 4 + c] == if c < 3 {
                        window_median(*img, radius as int, px, y as int, c)
                    } else {
                        img.channel(px, y as int, 3)
                    },
            decreases w - x,
        {
            let m0 = median_of(img, radius, x, y, 0);
            let m1 = median_of(img, radius, x, y, 1);
            let m2 = median_of(img, radius, x, y, 2);
            proof {
                lemma_index_bounds(w as int, h as int, x as int, y as int, 3);
            }
            let a = img.data[((y as usize) * (w as usize) + (x as usize)) * 4 + 3];
            let ghost before = data@;
            data.push(m0);
            data.push(m1);
            data.push(m2);
            data.push(a);
            proof {
                assert forall|px: int, py: int, cc: int|
                    0 <= px < w && 0 <= py < y && 0 <= cc < 4 implies #[trigger] data@[(py * w + px) * 4 + cc] == if cc
                        < 3 {
                        window_median(*img, radius as int, px, py, cc)
                    } else {
                        img.channel(px, py, 3)
                    } by {
                    assert((py * w + px) * 4 + cc < (y * w + x) * 4) by (nonlinear_arith)
                        requires
                            0 <= px < w,
                            0 <= py < y,
                            0 <= cc < 4,
                            0 <= x,
                    ;
                    assert(data@[(py * w + px) * 4 + cc] == before[(py * w + px) * 4 + cc]);
                }
                assert forall|px: int, cc: int|
                    0 <= px < x + 1 && 0 <= cc < 4 implies #[trigger] data@[(y * w + px) * 4 + cc] == if cc < 3 {
                        window_median(*img, radius as int, px, y as int, cc)
                    } else {
                        img.channel(px, y as int, 3)
                    } by {
                    if px < x {
                        assert((y * w + px) * 4 + cc < (y * w + x) * 4) by (nonlinear_arith)
                            requires
                                0 <= px < x,
                                0 <= cc < 4,
                        ;
                        assert(data@[(y * w + px) * 4 + cc] == before[(y * w + px) * 4 + cc]);
                    } else {
                        assert((y * w + px) * 4 + cc == before.len() + cc);
                    }
                }
                assert(data@.len() == (y * w + x + 1) * 4);
            }
            x += 1;
        }
        proof {
            assert(data@.len() == (y + 1) * w * 4) by (nonlinear_arith)
                requires
                    data@.len() == (y * w + w) * 4,
            ;
            assert forall|px: int, py: int, c: int|
                0 <= px < w && 0 <= py < y + 1 && 0 <= c < 4 implies #[trigger] data@[(py * w + px) * 4 + c] == if c
                    < 3 {
                    window_median(*img, radius as int, px, py, c)
                } else {
                    img.channel(px, py, 3)
                } by {
                if py == y {
                    assert(data@[(y * w + px) * 4 + c] == if c < 3 {
                        window_median(*img, radius as int, px, y as int, c)
                    } else {
                        img.channel(px, y as int, 3)
                    });
                }
            }
        }
        y += 1;
    }
    proof {
        assert(data@.len() == w * h * 4) by (nonlinear_arith)
            requires
                data@.len() == h * w * 4,
        ;
    }
    RgbaBuffer { width: w, height: h, data }
}

} // verus!
