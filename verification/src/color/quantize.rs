//! Mapping image pixels to palette colors: which pixels are painted, ordered
//! dithering, matching by RGB distance, palettes from sampled colors, and previews.

use vstd::prelude::*;
use crate::image::RgbaBuffer;
use crate::strings::{hex_code, hex_string};
use super::{MappedPixel, DitherMode};
use super::palette::PaletteColor;
use super::matching::{ColorMatchAlgo, find_nearest_color_rgb, nearest_rgb, lemma_first_nearest};

verus! {

/// Options controlling how image pixels are mapped to the palette.
pub struct QuantizeOptions {
    pub algorithm: ColorMatchAlgo,
    pub dither: DitherMode,
    pub alpha_threshold: u8,
    /// If set, pixels matching this color (within tolerance) are skipped.
    pub skip_color: Option<(u8, u8, u8)>,
    /// Tolerance for background color skip (Euclidean distance squared).
    pub skip_tolerance: u32,
}

impl Default for QuantizeOptions {
    fn default() -> (o: Self)
        ensures
            o.algorithm == ColorMatchAlgo::Ciede2000,
            o.dither == DitherMode::Direct,
            o.alpha_threshold == 128,
            o.skip_color is None,
            o.skip_tolerance == 30 * 30 + 30 * 30 + 30 * 30,
    {
        QuantizeOptions {
            algorithm: ColorMatchAlgo::Ciede2000,
            dither: DitherMode::Direct,
            alpha_threshold: 128,
            skip_color: None,
            skip_tolerance: 30 * 30 + 30 * 30 + 30 * 30,
        }
    }
}

/// The color is within the skip tolerance of the color to skip.
pub open spec fn skipped(r: u8, g: u8, b: u8, skip_color: Option<(u8, u8, u8)>, tolerance: u32) -> bool {
    match skip_color {
        Some((sr, sg, sb)) => (r - sr) * (r - sr) + (g - sg) * (g - sg) + (b - sb) * (b - sb) <= tolerance,
        None => false,
    }
}

/// Whether a pixel's color is to be skipped as background.
pub fn should_skip(r: u8, g: u8, b: u8, opts: &QuantizeOptions) -> (s: bool)
    ensures
        s == skipped(r, g, b, opts.skip_color, opts.skip_tolerance),
{
    match opts.skip_color {
        Some((sr, sg, sb)) => {
            let dr = r as i32 - sr as i32;
            let dg = g as i32 - sg as i32;
            let db = b as i32 - sb as i32;
            assert(0 <= dr * dr <= 65025 && 0 <= dg * dg <= 65025 && 0 <= db * db <= 65025) by (nonlinear_arith)
                requires
                    -255 <= dr <= 255,
                    -255 <= dg <= 255,
                    -255 <= db <= 255,
            ;
            ((dr * dr + dg * dg + db * db) as u32) <= opts.skip_tolerance
        },
        None => false,
    }
}

/// A pixel to be painted, with the color to match it by.
#[derive(Debug, Clone, Copy)]
pub struct ColorSample {
    pub x: u32,
    pub y: u32,
    pub r: u8,
    pub g: u8,
    pub b: u8,
    pub alpha: u8,
}

/// The 4x4 Bayer matrix.
pub open spec fn bayer(i: int, j: int) -> int {
    seq![
        seq![0int, 8, 2, 10],
        seq![12int, 4, 14, 6],
        seq![3int, 11, 1, 9],
        seq![15int, 7, 13, 5]
    ][i][j]
}

/// Ordered dithering offset at (x, y): the Bayer threshold times 48, that is
/// `(B / 16 - 1/2) * 48 = 3B - 24`.
pub open spec fn bayer_offset(x: int, y: int) -> int {
    3 * bayer(y % 4, x % 4) - 24
}

/// `v` clamped to 0..=255.
pub open spec fn clamp_byte(v: int) -> u8 {
    (if v < 0 { 0 } else if v > 255 { 255 } else { v }) as u8
}

/// Pixel `k` of the image, in row-major order, as a sample: kept unless more
/// transparent than the threshold or skipped as background; with ordered
/// dithering, its channels are offset by the Bayer threshold.
pub open spec fn sample_at(img: RgbaBuffer, opts: QuantizeOptions, ordered: bool, k: int) -> Option<ColorSample> {
    let x = k % (img.width as int);
    let y = k / (img.width as int);
    let r = img.channel(x, y, 0);
    let g = img.channel(x, y, 1);
    let b = img.channel(x, y, 2);
    let a = img.channel(x, y, 3);
    if a < opts.alpha_threshold || skipped(r, g, b, opts.skip_color, opts.skip_tolerance) {
        None
    } else if ordered {
        let t = bayer_offset(x, y);
        Some(ColorSample { x: x as u32, y: y as u32, r: clamp_byte(r + t), g: clamp_byte(g + t), b: clamp_byte(b + t), alpha: a })
    } else {
        Some(ColorSample { x: x as u32, y: y as u32, r, g, b, alpha: a })
    }
}

/// The samples of the first `k` pixels, in row-major order.
pub open spec fn samples_upto(img: RgbaBuffer, opts: QuantizeOptions, ordered: bool, k: int) -> Seq<ColorSample>
    decreases k,
{
    if k <= 0 {
        Seq::empty()
    } else {
        let rest = samples_upto(img, opts, ordered, k - 1);
        match sample_at(img, opts, ordered, k - 1) {
            Some(s) => rest.push(s),
            None => rest,
        }
    }
}

/// The samples of the whole image.
pub open spec fn samples_of(img: RgbaBuffer, opts: QuantizeOptions, ordered: bool) -> Seq<ColorSample> {
    samples_upto(img, opts, ordered, img.width * img.height)
}

fn bayer_exec(i: u32, j: u32) -> (v: i32)
    requires
        i < 4,
        j < 4,
    ensures
        v == bayer(i as int, j as int),
{
    let row: [i32; 4] = if i == 0 {
        [0, 8, 2, 10]
    } else if i == 1 {
        [12, 4, 14, 6]
    } else if i == 2 {
        [3, 11, 1, 9]
    } else {
        [15, 7, 13, 5]
    };
    row[j as usize]
}

fn clamp_byte_exec(v: i32) -> (b: u8)
    ensures
        b == clamp_byte(v as int),
{
    if v < 0 {
        0
    } else if v > 255 {
        255
    } else {
        v as u8
    }
}

proof fn lemma_row_major(w: int, x: int, y: int)
    requires
        w > 0,
        0 <= x < w,
        0 <= y,
    ensures
        (y * w + x) % w == x,
        (y * w + x) / w == y,
{
    vstd::arithmetic::div_mod::lemma_fundamental_div_mod_converse(y * w + x, w, y, x);
}

/// The pixels to paint, row by row, each with the color to match it by: pixels
/// more transparent than the threshold and background pixels are left out; with
/// `ordered`, each channel is offset by the 4x4 Bayer threshold (scaled to +-24)
/// and clamped.
pub fn color_samples(img: &RgbaBuffer, opts: &QuantizeOptions, ordered: bool) -> (s: Vec<ColorSample>)
    requires
        img.wf(),
    ensures
        s@ == samples_of(*img, *opts, ordered),
{
    let w = img.width;
    let h = img.height;
    let n = img.data.len();
    let mut out: Vec<ColorSample> = Vec::new();
    let mut y: u32 = 0;
    while y < h
        invariant
            img.wf(),
            n == img.data@.len(),
            w == img.width,
            h == img.height,
            0 <= y <= h,
            out@ == samples_upto(*img, *opts, ordered, y * w),
        decreases h - y,
    {
        let mut x: u32 = 0;
        while x < w
            invariant
                img.wf(),
                n == img.data@.len(),
                w == img.width,
                h == img.height,
                0 <= y < h,
                0 <= x <= w,
                out@ == samples_upto(*img, *opts, ordered, y * w + x),
            decreases w - x,
        {
            proof {
                lemma_row_major(w as int, x as int, y as int);
                assert(0 <= (y * w + x) * 4 + 3 < w * h * 4) by (nonlinear_arith)
                    requires
                        0 <= x < w,
                        0 <= y < h,
                ;
            }
            let base: usize = ((y as usize) * (w as usize) + (x as usize)) * 4;
            let r = img.data[base];
            let g = img.data[base + 1];
            let b = img.data[base + 2];
            let a = img.data[base + 3];
            if a >= opts.alpha_threshold && !should_skip(r, g, b, opts) {
                if ordered {
                    let t = 3 * bayer_exec(y % 4, x % 4) - 24;
                    out.push(ColorSample {
                        x,
                        y,
                        r: clamp_byte_exec(r as i32 + t),
                        g: clamp_byte_exec(g as i32 + t),
                        b: clamp_byte_exec(b as i32 + t),
                        alpha: a,
                    });
                } else {
                    out.push(ColorSample { x, y, r, g, b, alpha: a });
                }
            }
            x += 1;
        }
        proof {
            assert(y * w + w == (y + 1) * w) by (nonlinear_arith);
        }
        y += 1;
    }
    proof {
        assert(y * w == w * h) by (nonlinear_arith)
            requires
                y == h,
        ;
    }
    out
}

/// The mapped pixel of a sample matched by RGB distance.
pub open spec fn matched_rgb(s: ColorSample, palette: Seq<PaletteColor>) -> MappedPixel {
    MappedPixel { x: s.x, y: s.y, color: nearest_rgb(s.r, s.g, s.b, palette), alpha: s.alpha }
}

/// Map the pixels to paint to their nearest palette colors by RGB distance.
fn match_samples_rgb(samples: &Vec<ColorSample>, palette: &[PaletteColor]) -> (m: Vec<MappedPixel>)
    requires
        palette@.len() > 0,
    ensures
        m@.len() == samples@.len(),
        forall|i: int| 0 <= i < m@.len() ==> m@[i] == matched_rgb(#[trigger] samples@[i], palette@),
{
    let mut m: Vec<MappedPixel> = Vec::new();
    let mut i: usize = 0;
    while i < samples.len()
        invariant
            0 <= i <= samples@.len(),
            palette@.len() > 0,
            m@.len() == i,
            forall|k: int| 0 <= k < i ==> m@[k] == matched_rgb(#[trigger] samples@[k], palette@),
        decreases samples@.len() - i,
    {
        let s = samples[i];
        let c = find_nearest_color_rgb(s.r, s.g, s.b, palette);
        m.push(MappedPixel { x: s.x, y: s.y, color: c, alpha: s.alpha });
        i += 1;
    }
    m
}

/// Direct quantization by RGB distance: each pixel to paint, row by row, mapped to
/// its nearest palette color.
pub fn quantize_direct_rgb(img: &RgbaBuffer, palette: &[PaletteColor], opts: &QuantizeOptions) -> (m: Vec<MappedPixel>)
    requires
        img.wf(),
        palette@.len() > 0,
    ensures
        m@.len() == samples_of(*img, *opts, false).len(),
        forall|i: int| 0 <= i < m@.len() ==> m@[i] == matched_rgb(#[trigger] samples_of(*img, *opts, false)[i], palette@),
{
    let samples = color_samples(img, opts, false);
    match_samples_rgb(&samples, palette)
}

/// 4x4 Bayer ordered dithering by RGB distance: each pixel to paint, row by row,
/// offset by its Bayer threshold and mapped to the nearest palette color.
pub fn quantize_ordered_rgb(img: &RgbaBuffer, palette: &[PaletteColor], opts: &QuantizeOptions) -> (m: Vec<MappedPixel>)
    requires
        img.wf(),
        palette@.len() > 0,
    ensures
        m@.len() == samples_of(*img, *opts, true).len(),
        forall|i: int| 0 <= i < m@.len() ==> m@[i] == matched_rgb(#[trigger] samples_of(*img, *opts, true)[i], palette@),
{
    let samples = color_samples(img, opts, true);
    match_samples_rgb(&samples, palette)
}

/// A string that lives as long as the program.
///
/// Calls `String::leak`, which std documents as consuming the string and returning
/// its contents, which are never freed.
#[verifier::external_body]
fn leak_str(s: String) -> (r: &'static str)
    ensures
        r@ == s@,
{
    s.leak()
}

/// Palette colors for scanned RGB values (for example from a screen capture of the
/// palette), each with its upper-case hex code.
pub fn palette_from_rgb(colors: &[(u8, u8, u8)]) -> (p: Vec<PaletteColor>)
    ensures
        p@.len() == colors@.len(),
        forall|i: int|
            0 <= i < p@.len() ==> (#[trigger] p@[i]).rgb() == colors@[i] && p@[i].hex@ == hex_code(
                colors@[i].0,
                colors@[i].1,
                colors@[i].2,
            ),
{
    let mut p: Vec<PaletteColor> = Vec::new();
    let mut i: usize = 0;
    while i < colors.len()
        invariant
            0 <= i <= colors@.len(),
            p@.len() == i,
            forall|k: int|
                0 <= k < i ==> (#[trigger] p@[k]).rgb() == colors@[k] && p@[k].hex@ == hex_code(
                    colors@[k].0,
                    colors@[k].1,
                    colors@[k].2,
                ),
        decreases colors@.len() - i,
    {
        let (r, g, b) = colors[i];
        let hex = leak_str(hex_string(r, g, b));
        p.push(PaletteColor::new(r, g, b, hex));
        i += 1;
    }
    p
}

/// The color the preview shows at (x, y) after painting `pixels` in order: the
/// last pixel painted there, opaque, or nothing.
pub open spec fn preview_color(pixels: Seq<MappedPixel>, x: int, y: int) -> Option<(u8, u8, u8)>
    decreases pixels.len(),
{
    if pixels.len() == 0 {
        None
    } else if pixels.last().x == x && pixels.last().y == y {
        Some(pixels.last().rgb())
    } else {
        preview_color(pixels.drop_last(), x, y)
    }
}

/// Channel `c` of the preview at (x, y): the painted color with full alpha, or
/// transparent black.
pub open spec fn preview_channel(pixels: Seq<MappedPixel>, x: int, y: int, c: int) -> u8 {
    match preview_color(pixels, x, y) {
        Some((r, g, b)) => if c == 0 { r } else if c == 1 { g } else if c == 2 { b } else { 255 },
        None => 0,
    }
}

/// Build a preview image of the quantized result: transparent, with each mapped
/// pixel drawn opaque in its palette color.
pub fn build_preview(img: &RgbaBuffer, pixels: &[MappedPixel]) -> (p: RgbaBuffer)
    requires
        img.wf(),
        img.width * img.height * 4 <= usize::MAX,
        forall|i: int| 0 <= i < pixels@.len() ==> (#[trigger] pixels@[i]).x < img.width && pixels@[i].y < img.height,
    ensures
        p.wf(),
        p.width == img.width,
        p.height == img.height,
        forall|x: int, y: int, c: int|
            0 <= x < p.width && 0 <= y < p.height && 0 <= c < 4 ==> #[trigger] p.channel(x, y, c)
                == preview_channel(pixels@, x, y, c),
{
    let w = img.width;
    let h = img.height;
    let mut preview = RgbaBuffer::new(w, h);
    let mut i: usize = 0;
    proof {
        assert(pixels@.take(0) =~= Seq::<MappedPixel>::empty());
        assert forall|x: int, y: int, c: int|
            0 <= x < w && 0 <= y < h && 0 <= c < 4 implies #[trigger] preview.channel(x, y, c)
                == preview_channel(pixels@.take(0), x, y, c) by {
            crate::image::lemma_index_bounds(w as int, h as int, x, y, c);
        }
    }
    while i < pixels.len()
        invariant
            0 <= i <= pixels@.len(),
            w * h * 4 <= usize::MAX,
            preview.wf(),
            preview.width == w,
            preview.height == h,
            w == img.width,
            h == img.height,
            forall|k: int| 0 <= k < pixels@.len() ==> (#[trigger] pixels@[k]).x < w && pixels@[k].y < h,
            forall|x: int, y: int, c: int|
                0 <= x < w && 0 <= y < h && 0 <= c < 4 ==> #[trigger] preview.channel(x, y, c)
                    == preview_channel(pixels@.take(i as int), x, y, c),
        decreases pixels@.len() - i,
    {
        let mp = pixels[i];
        proof {
            crate::image::lemma_index_bounds(w as int, h as int, mp.x as int, mp.y as int, 3);
        }
        let base: usize = ((mp.y as usize) * (w as usize) + (mp.x as usize)) * 4;
        let ghost before = preview;
        preview.data.set(base, mp.color.r);
        preview.data.set(base + 1, mp.color.g);
        preview.data.set(base + 2, mp.color.b);
        preview.data.set(base + 3, 255);
        proof {
            let t = pixels@.take(i + 1);
            assert(t.drop_last() =~= pixels@.take(i as int));
            assert forall|x: int, y: int, c: int|
                0 <= x < w && 0 <= y < h && 0 <= c < 4 implies #[trigger] preview.channel(x, y, c)
                    == preview_channel(t, x, y, c) by {
                crate::image::lemma_index_bounds(w as int, h as int, x, y, c);
                if x == mp.x && y == mp.y {
                } else {
                    assert((y * w + x) * 4 + c != base + 0 && (y * w + x) * 4 + c != base + 1
                        && (y * w + x) * 4 + c != base + 2 && (y * w + x) * 4 + c != base + 3) by {
                        crate::image::lemma_index_distinct(w as int, h as int, x, y, c, mp.x as int, mp.y as int);
                    }
                    assert(preview.channel(x, y, c) == before.channel(x, y, c));
                }
            }
        }
        i += 1;
    }
    proof {
        assert(pixels@.take(pixels@.len() as int) =~= pixels@);
    }
    preview
}

/// A sample's color is its pixel's: exactly, without ordered dithering; within
/// 24 in each channel with it (the Bayer offsets run from -24 to 21).
pub open spec fn sample_color_ok(s: ColorSample, img: RgbaBuffer, ordered: bool) -> bool {
    let (x, y) = (s.x as int, s.y as int);
    if ordered {
        &&& -24 <= s.r - img.channel(x, y, 0) <= 24
        &&& -24 <= s.g - img.channel(x, y, 1) <= 24
        &&& -24 <= s.b - img.channel(x, y, 2) <= 24
    } else {
        &&& s.r == img.channel(x, y, 0)
        &&& s.g == img.channel(x, y, 1)
        &&& s.b == img.channel(x, y, 2)
    }
}

proof fn lemma_bayer_range(i: int, j: int)
    requires
        0 <= i < 4,
        0 <= j < 4,
    ensures
        0 <= bayer(i, j) <= 15,
{
    let m = seq![
        seq![0int, 8, 2, 10],
        seq![12int, 4, 14, 6],
        seq![3int, 11, 1, 9],
        seq![15int, 7, 13, 5]
    ];
    assert(m[0][0] == 0 && m[0][1] == 8 && m[0][2] == 2 && m[0][3] == 10);
    assert(m[1][0] == 12 && m[1][1] == 4 && m[1][2] == 14 && m[1][3] == 6);
    assert(m[2][0] == 3 && m[2][1] == 11 && m[2][2] == 1 && m[2][3] == 9);
    assert(m[3][0] == 15 && m[3][1] == 7 && m[3][2] == 13 && m[3][3] == 5);
}

/// Row-major position of a sample in an image `width` pixels wide.
pub open spec fn sample_key(s: ColorSample, width: u32) -> int {
    s.y * width + s.x
}

proof fn lemma_samples_upto(img: RgbaBuffer, opts: QuantizeOptions, ordered: bool, k: int)
    requires
        0 <= k <= img.width * img.height,
    ensures
        ({
            let s = samples_upto(img, opts, ordered, k);
            &&& forall|i: int|
                0 <= i < s.len() ==> {
                    &&& sample_key(#[trigger] s[i], img.width) < k
                    &&& s[i].x < img.width
                    &&& s[i].y < img.height
                    &&& s[i].alpha >= opts.alpha_threshold
                    &&& s[i].alpha == img.channel(s[i].x as int, s[i].y as int, 3)
                    &&& sample_color_ok(s[i], img, ordered)
                }
            &&& forall|i: int, j: int|
                0 <= i < j < s.len() ==> sample_key(#[trigger] s[i], img.width) < sample_key(
                    #[trigger] s[j],
                    img.width,
                )
            &&& forall|u: int|
                0 <= u < k && (#[trigger] sample_at(img, opts, ordered, u)) is Some ==> s.contains(
                    sample_at(img, opts, ordered, u)->0,
                )
        }),
    decreases k,
{
    if k > 0 {
        lemma_samples_upto(img, opts, ordered, k - 1);
        let w = img.width as int;
        let h = img.height as int;
        assert(w > 0) by (nonlinear_arith)
            requires
                0 < k <= w * h,
                h >= 0,
                w >= 0,
        ;
        let x = (k - 1) % w;
        let y = (k - 1) / w;
        vstd::arithmetic::div_mod::lemma_fundamental_div_mod(k - 1, w);
        vstd::arithmetic::div_mod::lemma_mod_bound(k - 1, w);
        vstd::arithmetic::div_mod::lemma_div_pos_is_pos(k - 1, w);
        assert(y < h) by (nonlinear_arith)
            requires
                k - 1 == w * y + x,
                0 <= x < w,
                k - 1 < w * h,
        ;
        assert(y * w + x == k - 1) by (nonlinear_arith)
            requires
                k - 1 == w * y + x,
        ;
        let rest = samples_upto(img, opts, ordered, k - 1);
        let s = samples_upto(img, opts, ordered, k);
        if let Some(smp) = sample_at(img, opts, ordered, k - 1) {
            assert(s == rest.push(smp));
            assert(smp.x == x && smp.y == y);
            assert(sample_key(smp, img.width) == k - 1);
            lemma_bayer_range(y % 4, x % 4);
            assert(sample_color_ok(smp, img, ordered));
            assert forall|i: int| 0 <= i < s.len() implies {
                &&& sample_key(#[trigger] s[i], img.width) < k
                &&& s[i].x < img.width
                &&& s[i].y < img.height
                &&& s[i].alpha >= opts.alpha_threshold
                &&& s[i].alpha == img.channel(s[i].x as int, s[i].y as int, 3)
                &&& sample_color_ok(s[i], img, ordered)
            } by {
                if i < rest.len() {
                    assert(s[i] == rest[i]);
                }
            }
            assert forall|i: int, j: int| 0 <= i < j < s.len() implies sample_key(#[trigger] s[i], img.width)
                < sample_key(#[trigger] s[j], img.width) by {
                assert(s[i] == rest[i]);
                if j < rest.len() {
                    assert(s[j] == rest[j]);
                }
            }
            assert forall|u: int| 0 <= u < k && (#[trigger] sample_at(img, opts, ordered, u)) is Some implies s.contains(
                sample_at(img, opts, ordered, u)->0,
            ) by {
                if u < k - 1 {
                    let v = sample_at(img, opts, ordered, u)->0;
                    let i = choose|i: int| 0 <= i < rest.len() && rest[i] == v;
                    assert(s[i] == v);
                } else {
                    assert(s[s.len() - 1] == smp);
                }
            }
        } else {
            assert(s == rest);
        }
    }
}

/// The samples to match come in row-major order, each position once, inside the
/// image, each opaque enough and carrying its pixel's alpha and color (exactly
/// without ordered dithering, within the Bayer offset with it); and every pixel
/// that is opaque enough and not skipped as background is among them.
pub proof fn samples_in_row_major_order(img: RgbaBuffer, opts: QuantizeOptions, ordered: bool)
    ensures
        ({
            let s = samples_of(img, opts, ordered);
            &&& forall|i: int|
                0 <= i < s.len() ==> {
                    &&& (#[trigger] s[i]).x < img.width
                    &&& s[i].y < img.height
                    &&& s[i].alpha >= opts.alpha_threshold
                    &&& s[i].alpha == img.channel(s[i].x as int, s[i].y as int, 3)
                    &&& sample_color_ok(s[i], img, ordered)
                }
            &&& forall|i: int, j: int|
                0 <= i < j < s.len() ==> sample_key(#[trigger] s[i], img.width) < sample_key(
                    #[trigger] s[j],
                    img.width,
                )
            &&& forall|u: int|
                0 <= u < img.width * img.height && (#[trigger] sample_at(img, opts, ordered, u)) is Some
                    ==> s.contains(sample_at(img, opts, ordered, u)->0)
        }),
{
    lemma_samples_upto(img, opts, ordered, img.width * img.height);
    let s = samples_of(img, opts, ordered);
    assert forall|i: int| 0 <= i < s.len() implies {
        &&& (#[trigger] s[i]).x < img.width
        &&& s[i].y < img.height
        &&& s[i].alpha >= opts.alpha_threshold
        &&& s[i].alpha == img.channel(s[i].x as int, s[i].y as int, 3)
        &&& sample_color_ok(s[i], img, ordered)
    } by {
        assert(sample_key(s[i], img.width) < img.width * img.height);
    }
}

/// Matching by RGB distance paints with palette colors only, and each is a nearest
/// one: no palette color is closer to the sample.
pub proof fn matched_colors_are_nearest_palette_colors(s: ColorSample, palette: Seq<PaletteColor>)
    requires
        palette.len() > 0,
    ensures
        palette.contains(matched_rgb(s, palette).color),
        forall|j: int|
            0 <= j < palette.len() ==> super::matching::dist_to(s.r, s.g, s.b, matched_rgb(s, palette).color)
                <= #[trigger] super::matching::dist_to(s.r, s.g, s.b, palette[j]),
        matched_rgb(s, palette).x == s.x && matched_rgb(s, palette).y == s.y && matched_rgb(s, palette).alpha
            == s.alpha,
{
    lemma_first_nearest(s.r, s.g, s.b, palette, palette.len() as int);
    let i = super::matching::first_nearest_index(s.r, s.g, s.b, palette, palette.len() as int);
    assert(palette[i] == matched_rgb(s, palette).color);
}

} // verus!
