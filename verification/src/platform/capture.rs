//! Palette sampling from a screen capture of the game's color palette.

use vstd::prelude::*;
use vstd::string::StringExecFns;
use crate::painting::{commands_view, CommandView, PaintCommand, PaintPlan};
use crate::strings::{hex_code, hex_string};

verus! {

/// A sampled palette color and where it was found on screen.
#[derive(Debug, Clone, Copy)]
pub struct PaletteEntry {
    pub r: u8,
    pub g: u8,
    pub b: u8,
    pub screen_x: i32,
    pub screen_y: i32,
}

/// Dark, nearly gray pixels of the UI around the palette swatches.
pub open spec fn ui_background(r: u8, g: u8, b: u8) -> bool {
    &&& r + g + b < 30
    &&& -10 < r - g < 10
    &&& -10 < g - b < 10
}

/// Squared RGB distance.
pub open spec fn rgb_dist_sq(r1: u8, g1: u8, b1: u8, r2: u8, g2: u8, b2: u8) -> int {
    (r1 - r2) * (r1 - r2) + (g1 - g2) * (g1 - g2) + (b1 - b2) * (b1 - b2)
}

/// Some entry is within `threshold` of the color.
pub open spec fn similar_in(entries: Seq<PaletteEntry>, r: u8, g: u8, b: u8, threshold: u32) -> bool {
    exists|i: int|
        0 <= i < entries.len() && rgb_dist_sq(r, g, b, (#[trigger] entries[i]).r, entries[i].g, entries[i].b)
            <= threshold * threshold
}

/// Whether a pixel belongs to the UI background rather than to a swatch.
pub fn is_ui_background(r: u8, g: u8, b: u8) -> (bg: bool)
    ensures
        bg == ui_background(r, g, b),
{
    let brightness = r as u32 + g as u32 + b as u32;
    let dg = r as i32 - g as i32;
    let db = g as i32 - b as i32;
    brightness < 30 && -10 < dg && dg < 10 && -10 < db && db < 10
}

/// Whether some entry is within `threshold` (RGB distance) of the color.
pub fn has_similar_color(entries: &[PaletteEntry], r: u8, g: u8, b: u8, threshold: u32) -> (found: bool)
    requires
        threshold <= 65535,
    ensures
        found == similar_in(entries@, r, g, b, threshold),
{
    assert(threshold * threshold <= 65535 * 65535) by (nonlinear_arith)
        requires
            threshold <= 65535,
    ;
    let limit: u64 = threshold as u64 * threshold as u64;
    let mut i: usize = 0;
    while i < entries.len()
        invariant
            0 <= i <= entries@.len(),
            limit == threshold * threshold,
            forall|k: int|
                0 <= k < i ==> rgb_dist_sq(r, g, b, (#[trigger] entries@[k]).r, entries@[k].g, entries@[k].b)
                    > threshold * threshold,
        decreases entries@.len() - i,
    {
        let e = entries[i];
        let dr = r as i64 - e.r as i64;
        let dg = g as i64 - e.g as i64;
        let db = b as i64 - e.b as i64;
        assert(dr * dr <= 65025 && dg * dg <= 65025 && db * db <= 65025) by (nonlinear_arith)
            requires
                -255 <= dr <= 255,
                -255 <= dg <= 255,
                -255 <= db <= 255,
        ;
        assert(dr * dr >= 0 && dg * dg >= 0 && db * db >= 0) by (nonlinear_arith);
        let d = (dr * dr + dg * dg + db * db) as u64;
        if d <= limit {
            assert(similar_in(entries@, r, g, b, threshold)) by {
                assert(rgb_dist_sq(r, g, b, entries@[i as int].r, entries@[i as int].g, entries@[i as int].b) <= threshold * threshold);
            }
            return true;
        }
        i += 1;
    }
    false
}

/// Consider one sample point: keep its color unless it lies outside the capture,
/// is UI background, or is close (within 15) to a color already kept.
pub open spec fn consider(
    capture: Seq<u8>,
    x0: i32,
    y0: i32,
    width: u32,
    px: int,
    py: int,
    entries: Seq<PaletteEntry>,
) -> Seq<PaletteEntry> {
    let offset = py * (width * 4) + px * 4;
    if offset + 2 >= capture.len() {
        entries
    } else {
        let r = capture[offset];
        let g = capture[offset + 1];
        let b = capture[offset + 2];
        if ui_background(r, g, b) || similar_in(entries, r, g, b, 15) {
            entries
        } else {
            entries.push(PaletteEntry { r, g, b, screen_x: (x0 + px) as i32, screen_y: (y0 + py) as i32 })
        }
    }
}

/// Sample points of row `py` from column `px` on, every `step_x` columns.
pub open spec fn scan_row(
    capture: Seq<u8>,
    x0: i32,
    y0: i32,
    width: u32,
    step_x: int,
    py: int,
    px: int,
    entries: Seq<PaletteEntry>,
) -> Seq<PaletteEntry>
    decreases (if px < width { width - px } else { 0 }),
    when step_x > 0
{
    if px >= width {
        entries
    } else {
        scan_row(capture, x0, y0, width, step_x, py, px + step_x, consider(capture, x0, y0, width, px, py, entries))
    }
}

/// Rows from `py` on, every `step_y` rows.
pub open spec fn scan_rows(
    capture: Seq<u8>,
    x0: i32,
    y0: i32,
    width: u32,
    height: u32,
    step_x: int,
    step_y: int,
    py: int,
    entries: Seq<PaletteEntry>,
) -> Seq<PaletteEntry>
    decreases (if py < height { height - py } else { 0 }),
    when step_x > 0 && step_y > 0
{
    if py >= height {
        entries
    } else {
        scan_rows(
            capture,
            x0,
            y0,
            width,
            height,
            step_x,
            step_y,
            py + step_y,
            scan_row(capture, x0, y0, width, step_x, py, 0, entries),
        )
    }
}

/// Horizontal sampling step: a sixteenth of the width, at least 4.
pub open spec fn step_x_of(width: u32) -> int {
    if width / 16 > 4 { (width / 16) as int } else { 4 }
}

/// Vertical sampling step: a quarter of the height, at least 4.
pub open spec fn step_y_of(height: u32) -> int {
    if height / 4 > 4 { (height / 4) as int } else { 4 }
}

/// The palette colors sampled from a capture, in row-major order of the sample points.
pub open spec fn sampled_entries(capture: Seq<u8>, x0: i32, y0: i32, width: u32, height: u32) -> Seq<PaletteEntry> {
    scan_rows(capture, x0, y0, width, height, step_x_of(width), step_y_of(height), 0, Seq::empty())
}

/// Sample the distinct palette colors from an RGBA capture of a screen region
/// (`width` pixels per row) at `(region_x, region_y)`: a grid of sample points,
/// skipping UI background and colors close to ones already found.
pub fn sample_palette_colors(
    capture: &[u8],
    region_x: i32,
    region_y: i32,
    region_width: u32,
    region_height: u32,
) -> (r: Result<Vec<PaletteEntry>, String>)
    requires
        region_width <= i32::MAX,
        region_height <= i32::MAX,
        region_x + region_width <= i32::MAX + 1,
        region_y + region_height <= i32::MAX + 1,
    ensures
        ({
            let e = sampled_entries(capture@, region_x, region_y, region_width, region_height);
            if e.len() == 0 {
                r is Err && r->Err_0@ == "No colors found in palette region. Make sure the palette is visible."@
            } else {
                r is Ok && r->Ok_0@ == e
            }
        }),
{
    let step_x: u64 = if region_width / 16 > 4 { (region_width / 16) as u64 } else { 4 };
    let step_y: u64 = if region_height / 4 > 4 { (region_height / 4) as u64 } else { 4 };
    let ghost target = sampled_entries(capture@, region_x, region_y, region_width, region_height);
    let mut entries: Vec<PaletteEntry> = Vec::new();
    let mut py: u64 = 0;
    while py < region_height as u64
        invariant
            step_x == step_x_of(region_width),
            step_y == step_y_of(region_height),
            region_width <= i32::MAX,
            region_height <= i32::MAX,
            region_x + region_width <= i32::MAX + 1,
            region_y + region_height <= i32::MAX + 1,
            py <= region_height + step_y,
            target == scan_rows(capture@, region_x, region_y, region_width, region_height, step_x as int, step_y as int, py as int, entries@),
        decreases region_height + step_y - py,
    {
        let mut px: u64 = 0;
        while px < region_width as u64
            invariant
                step_x == step_x_of(region_width),
                region_width <= i32::MAX,
                region_height <= i32::MAX,
                region_x + region_width <= i32::MAX + 1,
                region_y + region_height <= i32::MAX + 1,
                py < region_height,
                px <= region_width + step_x,
                target == scan_rows(
                    capture@,
                    region_x,
                    region_y,
                    region_width,
                    region_height,
                    step_x as int,
                    step_y as int,
                    py + step_y,
                    scan_row(capture@, region_x, region_y, region_width, step_x as int, py as int, px as int, entries@),
                ),
            decreases region_width + step_x - px,
        {
            let ghost before = entries@;
            assert(py * (region_width * 4) <= 4294967295 * 17179869180) by (nonlinear_arith)
                requires
                    py <= 4294967295,
                    region_width <= 4294967295,
            ;
            let offset: u128 = py as u128 * (region_width as u128 * 4) + px as u128 * 4;
            if offset + 2 < capture.len() as u128 {
                let o = offset as usize;
                let r = capture[o];
                let g = capture[o + 1];
                let b = capture[o + 2];
                if !is_ui_background(r, g, b) && !has_similar_color(entries.as_slice(), r, g, b, 15) {
                    entries.push(PaletteEntry {
                        r,
                        g,
                        b,
                        screen_x: region_x + px as i32,
                        screen_y: region_y + py as i32,
                    });
                }
            }
            assert(entries@ =~= consider(capture@, region_x, region_y, region_width, px as int, py as int, before));
            px = px + step_x;
        }
        py = py + step_y;
    }
    if entries.len() == 0 {
        Err(String::from_str("No colors found in palette region. Make sure the palette is visible."))
    } else {
        Ok(entries)
    }
}

/// Sampled entries are palette swatches: none is UI background, each lies in the
/// region, and each differs by more than 15 (RGB distance) from every earlier one.
pub open spec fn swatch_entries(entries: Seq<PaletteEntry>, x0: i32, y0: i32, width: u32, height: u32) -> bool {
    &&& forall|i: int|
        0 <= i < entries.len() ==> {
            &&& !ui_background((#[trigger] entries[i]).r, entries[i].g, entries[i].b)
            &&& x0 <= entries[i].screen_x < x0 + width
            &&& y0 <= entries[i].screen_y < y0 + height
        }
    &&& forall|i: int, j: int|
        0 <= i < j < entries.len() ==> rgb_dist_sq(
            (#[trigger] entries[j]).r,
            entries[j].g,
            entries[j].b,
            (#[trigger] entries[i]).r,
            entries[i].g,
            entries[i].b,
        ) > 15 * 15
}

/// `e` is the color captured at sample point (px, py) of the grid with steps
/// `step_x` and `step_y`, at its screen position.
pub open spec fn grid_entry(
    capture: Seq<u8>,
    x0: i32,
    y0: i32,
    width: u32,
    height: u32,
    step_x: int,
    step_y: int,
    px: int,
    py: int,
    e: PaletteEntry,
) -> bool {
    let offset = py * (width * 4) + px * 4;
    &&& 0 <= px < width
    &&& 0 <= py < height
    &&& px % step_x == 0
    &&& py % step_y == 0
    &&& offset + 2 < capture.len()
    &&& e.r == capture[offset]
    &&& e.g == capture[offset + 1]
    &&& e.b == capture[offset + 2]
    &&& e.screen_x == x0 + px
    &&& e.screen_y == y0 + py
}

/// Every entry is the captured color of a grid sample point, and its screen
/// position is that point's.
pub open spec fn grid_entries(
    entries: Seq<PaletteEntry>,
    capture: Seq<u8>,
    x0: i32,
    y0: i32,
    width: u32,
    height: u32,
    step_x: int,
    step_y: int,
) -> bool {
    forall|i: int|
        0 <= i < entries.len() ==> grid_entry(
            capture,
            x0,
            y0,
            width,
            height,
            step_x,
            step_y,
            (#[trigger] entries[i]).screen_x - x0,
            entries[i].screen_y - y0,
            entries[i],
        )
}

proof fn lemma_consider_keeps(
    capture: Seq<u8>,
    x0: i32,
    y0: i32,
    width: u32,
    height: u32,
    px: int,
    py: int,
    entries: Seq<PaletteEntry>,
    step_x: int,
    step_y: int,
)
    requires
        swatch_entries(entries, x0, y0, width, height),
        grid_entries(entries, capture, x0, y0, width, height, step_x, step_y),
        0 <= px < width,
        0 <= py < height,
        step_x > 0,
        step_y > 0,
        px % step_x == 0,
        py % step_y == 0,
        x0 + width <= i32::MAX + 1,
        y0 + height <= i32::MAX + 1,
    ensures
        swatch_entries(consider(capture, x0, y0, width, px, py, entries), x0, y0, width, height),
        grid_entries(consider(capture, x0, y0, width, px, py, entries), capture, x0, y0, width, height, step_x, step_y),
{
    let offset = py * (width * 4) + px * 4;
    if offset + 2 < capture.len() {
        let r = capture[offset];
        let g = capture[offset + 1];
        let b = capture[offset + 2];
        if !(ui_background(r, g, b) || similar_in(entries, r, g, b, 15)) {
            let e = PaletteEntry { r, g, b, screen_x: (x0 + px) as i32, screen_y: (y0 + py) as i32 };
            let n = entries.push(e);
            assert forall|i: int, j: int| 0 <= i < j < n.len() implies rgb_dist_sq(
                (#[trigger] n[j]).r,
                n[j].g,
                n[j].b,
                (#[trigger] n[i]).r,
                n[i].g,
                n[i].b,
            ) > 15 * 15 by {
                assert(n[i] == entries[i]);
                if j < entries.len() {
                    assert(n[j] == entries[j]);
                } else {
                    assert(!(rgb_dist_sq(r, g, b, entries[i].r, entries[i].g, entries[i].b) <= 15 * 15));
                }
            }
            assert forall|i: int| 0 <= i < n.len() implies {
                &&& !ui_background((#[trigger] n[i]).r, n[i].g, n[i].b)
                &&& x0 <= n[i].screen_x < x0 + width
                &&& y0 <= n[i].screen_y < y0 + height
            } by {
                if i < entries.len() {
                    assert(n[i] == entries[i]);
                }
            }
            assert forall|i: int| 0 <= i < n.len() implies grid_entry(
                capture,
                x0,
                y0,
                width,
                height,
                step_x,
                step_y,
                (#[trigger] n[i]).screen_x - x0,
                n[i].screen_y - y0,
                n[i],
            ) by {
                if i < entries.len() {
                    assert(n[i] == entries[i]);
                }
            }
        }
    }
}

proof fn lemma_scan_row_keeps(
    capture: Seq<u8>,
    x0: i32,
    y0: i32,
    width: u32,
    height: u32,
    step_x: int,
    step_y: int,
    py: int,
    px: int,
    entries: Seq<PaletteEntry>,
)
    requires
        swatch_entries(entries, x0, y0, width, height),
        grid_entries(entries, capture, x0, y0, width, height, step_x, step_y),
        step_x > 0,
        step_y > 0,
        0 <= px,
        px % step_x == 0,
        0 <= py < height,
        py % step_y == 0,
        x0 + width <= i32::MAX + 1,
        y0 + height <= i32::MAX + 1,
    ensures
        swatch_entries(scan_row(capture, x0, y0, width, step_x, py, px, entries), x0, y0, width, height),
        grid_entries(
            scan_row(capture, x0, y0, width, step_x, py, px, entries),
            capture,
            x0,
            y0,
            width,
            height,
            step_x,
            step_y,
        ),
    decreases (if px < width { width - px } else { 0 }),
{
    if px < width {
        lemma_consider_keeps(capture, x0, y0, width, height, px, py, entries, step_x, step_y);
        assert((px + step_x) % step_x == 0) by {
            vstd::arithmetic::div_mod::lemma_mod_add_multiples_vanish(px, step_x);
        }
        lemma_scan_row_keeps(
            capture,
            x0,
            y0,
            width,
            height,
            step_x,
            step_y,
            py,
            px + step_x,
            consider(capture, x0, y0, width, px, py, entries),
        );
    }
}

proof fn lemma_scan_rows_keeps(
    capture: Seq<u8>,
    x0: i32,
    y0: i32,
    width: u32,
    height: u32,
    step_x: int,
    step_y: int,
    py: int,
    entries: Seq<PaletteEntry>,
)
    requires
        swatch_entries(entries, x0, y0, width, height),
        grid_entries(entries, capture, x0, y0, width, height, step_x, step_y),
        step_x > 0,
        step_y > 0,
        0 <= py,
        py % step_y == 0,
        x0 + width <= i32::MAX + 1,
        y0 + height <= i32::MAX + 1,
    ensures
        swatch_entries(
            scan_rows(capture, x0, y0, width, height, step_x, step_y, py, entries),
            x0,
            y0,
            width,
            height,
        ),
        grid_entries(
            scan_rows(capture, x0, y0, width, height, step_x, step_y, py, entries),
            capture,
            x0,
            y0,
            width,
            height,
            step_x,
            step_y,
        ),
    decreases (if py < height { height - py } else { 0 }),
{
    if py < height {
        assert(0int % step_x == 0) by {
            vstd::arithmetic::div_mod::lemma_small_mod(0, step_x as nat);
        }
        lemma_scan_row_keeps(capture, x0, y0, width, height, step_x, step_y, py, 0, entries);
        assert((py + step_y) % step_y == 0) by {
            vstd::arithmetic::div_mod::lemma_mod_add_multiples_vanish(py, step_y);
        }
        lemma_scan_rows_keeps(
            capture,
            x0,
            y0,
            width,
            height,
            step_x,
            step_y,
            py + step_y,
            scan_row(capture, x0, y0, width, step_x, py, 0, entries),
        );
    }
}

/// Palette sampling keeps swatches only: no sampled color is UI background, each
/// is the captured color of a sample point of the grid (a sixteenth of the width
/// and a quarter of the height apart, at least 4) at that point's screen position,
/// and no two are within 15 of each other.
pub proof fn sampled_entries_are_swatches(capture: Seq<u8>, x0: i32, y0: i32, width: u32, height: u32)
    requires
        x0 + width <= i32::MAX + 1,
        y0 + height <= i32::MAX + 1,
    ensures
        swatch_entries(sampled_entries(capture, x0, y0, width, height), x0, y0, width, height),
        grid_entries(
            sampled_entries(capture, x0, y0, width, height),
            capture,
            x0,
            y0,
            width,
            height,
            step_x_of(width),
            step_y_of(height),
        ),
{
    assert(0int % step_y_of(height) == 0) by {
        vstd::arithmetic::div_mod::lemma_small_mod(0, step_y_of(height) as nat);
    }
    lemma_scan_rows_keeps(capture, x0, y0, width, height, step_x_of(width), step_y_of(height), 0, Seq::empty());
}

/// The sample point (px, py) is accounted for by `entries`: it lies outside the
/// capture, shows UI background, or its color is within 15 of an entry.
pub open spec fn point_covered(capture: Seq<u8>, width: u32, px: int, py: int, entries: Seq<PaletteEntry>) -> bool {
    let offset = py * (width * 4) + px * 4;
    ||| offset + 2 >= capture.len()
    ||| ui_background(capture[offset], capture[offset + 1], capture[offset + 2])
    ||| similar_in(entries, capture[offset], capture[offset + 1], capture[offset + 2], 15)
}

proof fn lemma_covered_grows(
    capture: Seq<u8>,
    width: u32,
    px: int,
    py: int,
    a: Seq<PaletteEntry>,
    b: Seq<PaletteEntry>,
)
    requires
        point_covered(capture, width, px, py, a),
        a.is_prefix_of(b),
    ensures
        point_covered(capture, width, px, py, b),
{
    let offset = py * (width * 4) + px * 4;
    if offset + 2 < capture.len() && !ui_background(capture[offset], capture[offset + 1], capture[offset + 2]) {
        let (r, g, bb) = (capture[offset], capture[offset + 1], capture[offset + 2]);
        let i = choose|i: int|
            0 <= i < a.len() && rgb_dist_sq(r, g, bb, (#[trigger] a[i]).r, a[i].g, a[i].b) <= 15 * 15;
        assert(b[i] == a[i]);
    }
}

proof fn lemma_prefix_trans(a: Seq<PaletteEntry>, b: Seq<PaletteEntry>, c: Seq<PaletteEntry>)
    requires
        a.is_prefix_of(b),
        b.is_prefix_of(c),
    ensures
        a.is_prefix_of(c),
{
    assert forall|i: int| 0 <= i < a.len() implies a[i] == c[i] by {
        assert(a[i] == b[i]);
        assert(b[i] == c[i]);
    }
    assert(a =~= c.subrange(0, a.len() as int));
}

proof fn lemma_consider_covers(
    capture: Seq<u8>,
    x0: i32,
    y0: i32,
    width: u32,
    px: int,
    py: int,
    entries: Seq<PaletteEntry>,
)
    ensures
        entries.is_prefix_of(consider(capture, x0, y0, width, px, py, entries)),
        point_covered(capture, width, px, py, consider(capture, x0, y0, width, px, py, entries)),
{
    let c = consider(capture, x0, y0, width, px, py, entries);
    let offset = py * (width * 4) + px * 4;
    assert(entries =~= entries.subrange(0, entries.len() as int));
    if offset + 2 < capture.len() {
        let r = capture[offset];
        let g = capture[offset + 1];
        let b = capture[offset + 2];
        if !(ui_background(r, g, b) || similar_in(entries, r, g, b, 15)) {
            assert(entries =~= c.subrange(0, entries.len() as int));
            let last = c.len() - 1;
            assert(c[last].r == r && c[last].g == g && c[last].b == b);
            assert(rgb_dist_sq(r, g, b, c[last].r, c[last].g, c[last].b) == 0);
        }
    }
}

proof fn lemma_next_multiple(a: int, b: int, s: int)
    requires
        s > 0,
        0 <= a < b,
        a % s == 0,
        b % s == 0,
    ensures
        a + s <= b,
        (b - (a + s)) % s == 0,
{
    vstd::arithmetic::div_mod::lemma_fundamental_div_mod(a, s);
    vstd::arithmetic::div_mod::lemma_fundamental_div_mod(b, s);
    let ka = a / s;
    let kb = b / s;
    assert(ka + 1 <= kb) by (nonlinear_arith)
        requires
            a == s * ka,
            b == s * kb,
            a < b,
            s > 0,
    ;
    assert(a + s <= b) by (nonlinear_arith)
        requires
            a == s * ka,
            b == s * kb,
            ka + 1 <= kb,
            s > 0,
    ;
    assert(b - (a + s) == s * (kb - ka - 1)) by (nonlinear_arith)
        requires
            a == s * ka,
            b == s * kb,
    ;
    vstd::arithmetic::div_mod::lemma_mod_multiples_basic(kb - ka - 1, s);
    assert(s * (kb - ka - 1) == (kb - ka - 1) * s) by (nonlinear_arith);
}

proof fn lemma_scan_row_covers(
    capture: Seq<u8>,
    x0: i32,
    y0: i32,
    width: u32,
    step_x: int,
    py: int,
    px: int,
    entries: Seq<PaletteEntry>,
)
    requires
        step_x > 0,
        0 <= px,
        px % step_x == 0,
    ensures
        entries.is_prefix_of(scan_row(capture, x0, y0, width, step_x, py, px, entries)),
        forall|q: int|
            px <= q < width && q % step_x == 0 ==> #[trigger] point_covered(
                capture,
                width,
                q,
                py,
                scan_row(capture, x0, y0, width, step_x, py, px, entries),
            ),
    decreases (if px < width { width - px } else { 0 }),
{
    let res = scan_row(capture, x0, y0, width, step_x, py, px, entries);
    if px < width {
        let c = consider(capture, x0, y0, width, px, py, entries);
        lemma_consider_covers(capture, x0, y0, width, px, py, entries);
        assert((px + step_x) % step_x == 0) by {
            vstd::arithmetic::div_mod::lemma_mod_add_multiples_vanish(px, step_x);
        }
        lemma_scan_row_covers(capture, x0, y0, width, step_x, py, px + step_x, c);
        lemma_prefix_trans(entries, c, res);
        assert forall|q: int| px <= q < width && q % step_x == 0 implies #[trigger] point_covered(
            capture,
            width,
            q,
            py,
            res,
        ) by {
            if q == px {
                lemma_covered_grows(capture, width, q, py, c, res);
            } else {
                lemma_next_multiple(px, q, step_x);
            }
        }
    } else {
        assert(entries =~= res.subrange(0, entries.len() as int));
    }
}

proof fn lemma_scan_rows_covers(
    capture: Seq<u8>,
    x0: i32,
    y0: i32,
    width: u32,
    height: u32,
    step_x: int,
    step_y: int,
    py: int,
    entries: Seq<PaletteEntry>,
)
    requires
        step_x > 0,
        step_y > 0,
        0 <= py,
        py % step_y == 0,
    ensures
        entries.is_prefix_of(scan_rows(capture, x0, y0, width, height, step_x, step_y, py, entries)),
        forall|q: int, r: int|
            0 <= q < width && q % step_x == 0 && py <= r < height && r % step_y == 0 ==> #[trigger] point_covered(
                capture,
                width,
                q,
                r,
                scan_rows(capture, x0, y0, width, height, step_x, step_y, py, entries),
            ),
    decreases (if py < height { height - py } else { 0 }),
{
    let res = scan_rows(capture, x0, y0, width, height, step_x, step_y, py, entries);
    if py < height {
        assert(0int % step_x == 0) by {
            vstd::arithmetic::div_mod::lemma_small_mod(0, step_x as nat);
        }
        let row = scan_row(capture, x0, y0, width, step_x, py, 0, entries);
        lemma_scan_row_covers(capture, x0, y0, width, step_x, py, 0, entries);
        assert((py + step_y) % step_y == 0) by {
            vstd::arithmetic::div_mod::lemma_mod_add_multiples_vanish(py, step_y);
        }
        lemma_scan_rows_covers(capture, x0, y0, width, height, step_x, step_y, py + step_y, row);
        lemma_prefix_trans(entries, row, res);
        assert forall|q: int, r: int|
            0 <= q < width && q % step_x == 0 && py <= r < height && r % step_y == 0 implies #[trigger] point_covered(
            capture,
            width,
            q,
            r,
            res,
        ) by {
            if r == py {
                lemma_covered_grows(capture, width, q, r, row, res);
            } else {
                lemma_next_multiple(py, r, step_y);
            }
        }
    } else {
        assert(entries =~= res.subrange(0, entries.len() as int));
    }
}

/// Palette sampling misses no swatch: every sample point of the grid (a sixteenth
/// of the width and a quarter of the height apart, at least 4) that lies in the
/// capture and does not show UI background has its color within 15 of a sampled
/// entry.
pub proof fn sampled_entries_cover_the_grid(capture: Seq<u8>, x0: i32, y0: i32, width: u32, height: u32)
    ensures
        forall|px: int, py: int|
            0 <= px < width && px % step_x_of(width) == 0 && 0 <= py < height && py % step_y_of(height) == 0
                ==> #[trigger] point_covered(capture, width, px, py, sampled_entries(capture, x0, y0, width, height)),
{
    assert(0int % step_y_of(height) == 0) by {
        vstd::arithmetic::div_mod::lemma_small_mod(0, step_y_of(height) as nat);
    }
    lemma_scan_rows_covers(capture, x0, y0, width, height, step_x_of(width), step_y_of(height), 0, Seq::empty());
}

// ── selecting colors by palette clicks ────────────────────────────────

/// Where a color with hex code `hex` was found: the position of the last entry
/// whose upper-case hex code is `hex`, if any.
pub open spec fn click_position(entries: Seq<PaletteEntry>, hex: Seq<char>) -> Option<(i32, i32)>
    decreases entries.len(),
{
    if entries.len() == 0 {
        None
    } else if hex_code(entries.last().r, entries.last().g, entries.last().b) == hex {
        Some((entries.last().screen_x, entries.last().screen_y))
    } else {
        click_position(entries.drop_last(), hex)
    }
}

/// A hex color selection whose color was found in the palette becomes a click at
/// its position; every other command stays.
pub open spec fn with_palette_click(c: CommandView, entries: Seq<PaletteEntry>) -> CommandView {
    match c {
        CommandView::SelectColorByHex { hex } => match click_position(entries, hex) {
            Some(p) => CommandView::SelectColorByClick { x: p.0, y: p.1 },
            None => c,
        },
        _ => c,
    }
}

/// Position of the last entry whose hex code (in `hexes`) equals `hex`.
fn find_click_position(entries: &[PaletteEntry], hexes: &Vec<String>, hex: &String) -> (p: Option<(i32, i32)>)
    requires
        hexes@.len() == entries@.len(),
        forall|k: int| 0 <= k < entries@.len() ==> (#[trigger] hexes@[k])@ == hex_code(entries@[k].r, entries@[k].g, entries@[k].b),
    ensures
        p == click_position(entries@, hex@),
{
    let mut i: usize = entries.len();
    assert(entries@.take(i as int) =~= entries@);
    while i > 0
        invariant
            0 <= i <= entries@.len(),
            hexes@.len() == entries@.len(),
            forall|k: int| 0 <= k < entries@.len() ==> (#[trigger] hexes@[k])@ == hex_code(entries@[k].r, entries@[k].g, entries@[k].b),
            click_position(entries@, hex@) == click_position(entries@.take(i as int), hex@),
        decreases i,
    {
        let e = entries[i - 1];
        proof {
            assert(entries@.take(i as int).last() == entries@[i - 1]);
            assert(entries@.take(i as int).drop_last() =~= entries@.take(i - 1));
        }
        if hexes[i - 1] == *hex {
            return Some((e.screen_x, e.screen_y));
        }
        i -= 1;
    }
    None
}

/// Select colors by clicking the sampled palette: each hex color selection of the
/// plan whose color was sampled becomes a click at the sampled position (the last
/// one, if a color was sampled twice). The rest of the plan is unchanged.
pub fn select_colors_by_click(plan: &mut PaintPlan, entries: &[PaletteEntry])
    ensures
        commands_view(final(plan).commands@) == commands_view(old(plan).commands@).map_values(
            |c: CommandView| with_palette_click(c, entries@),
        ),
        final(plan).metadata == old(plan).metadata,
{
    let mut hexes: Vec<String> = Vec::new();
    let mut j: usize = 0;
    while j < entries.len()
        invariant
            0 <= j <= entries@.len(),
            hexes@.len() == j,
            forall|k: int| 0 <= k < j ==> (#[trigger] hexes@[k])@ == hex_code(entries@[k].r, entries@[k].g, entries@[k].b),
        decreases entries@.len() - j,
    {
        let e = entries[j];
        hexes.push(hex_string(e.r, e.g, e.b));
        j += 1;
    }
    let ghost before = commands_view(plan.commands@);
    let mut i: usize = 0;
    while i < plan.commands.len()
        invariant
            0 <= i <= plan.commands@.len(),
            plan.commands@.len() == before.len(),
            plan.metadata == old(plan).metadata,
            before == commands_view(old(plan).commands@),
            hexes@.len() == entries@.len(),
            forall|k: int| 0 <= k < entries@.len() ==> (#[trigger] hexes@[k])@ == hex_code(entries@[k].r, entries@[k].g, entries@[k].b),
            forall|k: int| 0 <= k < i ==> (#[trigger] plan.commands@[k])@ == with_palette_click(before[k], entries@),
            forall|k: int| i <= k < before.len() ==> (#[trigger] plan.commands@[k])@ == before[k],
        decreases before.len() - i,
    {
        let found = match &plan.commands[i] {
            PaintCommand::SelectColorByHex { hex } => find_click_position(entries, &hexes, hex),
            _ => None,
        };
        if let Some((x, y)) = found {
            plan.commands[i] = PaintCommand::SelectColorByClick { x, y };
        }
        i += 1;
    }
    assert(commands_view(plan.commands@) =~= before.map_values(|c: CommandView| with_palette_click(c, entries@)));
}

} // verus!
