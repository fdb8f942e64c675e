//! Paint planning and command generation.
//!
//! Converts a grid of mapped pixels into an ordered sequence of paint commands
//! that the input driver executes.

pub mod segments;
pub mod ordering;
pub mod optimizer;
pub mod strategy;
pub mod delay;

use vstd::prelude::*;
use std::collections::HashMap;
use crate::color::MappedPixel;

verus! {

/// The atomic unit of painting work.
#[derive(Debug, Clone)]
pub enum PaintCommand {
    /// Move mouse to absolute screen coordinates.
    MoveTo { x: i32, y: i32 },
    /// Click the left mouse button.
    Click,
    /// Shift-click for line drawing.
    ShiftClick,
    /// Select a color by typing its hex code.
    SelectColorByHex { hex: String },
    /// Select a color by clicking a palette position.
    SelectColorByClick { x: i32, y: i32 },
    /// Wait for a specified duration.
    Delay { ms: u32 },
}

/// The mathematical value of a paint command: the hex code as a character sequence.
pub enum CommandView {
    MoveTo { x: i32, y: i32 },
    Click,
    ShiftClick,
    SelectColorByHex { hex: Seq<char> },
    SelectColorByClick { x: i32, y: i32 },
    Delay { ms: u32 },
}

impl View for PaintCommand {
    type V = CommandView;

    open spec fn view(&self) -> CommandView {
        match self {
            PaintCommand::MoveTo { x, y } => CommandView::MoveTo { x: *x, y: *y },
            PaintCommand::Click => CommandView::Click,
            PaintCommand::ShiftClick => CommandView::ShiftClick,
            PaintCommand::SelectColorByHex { hex } => CommandView::SelectColorByHex { hex: hex@ },
            PaintCommand::SelectColorByClick { x, y } => CommandView::SelectColorByClick {
                x: *x,
                y: *y,
            },
            PaintCommand::Delay { ms } => CommandView::Delay { ms: *ms },
        }
    }
}

/// The views of a sequence of commands.
pub open spec fn commands_view(cmds: Seq<PaintCommand>) -> Seq<CommandView> {
    cmds.map_values(|c: PaintCommand| c@)
}

/// Metadata about a paint plan.
#[derive(Debug, Clone)]
pub struct PlanMetadata {
    pub total_pixels: usize,
    pub total_colors: usize,
    pub total_commands: usize,
    pub strategy_name: String,
}

/// A complete, executable painting plan.
#[derive(Debug, Clone)]
pub struct PaintPlan {
    pub commands: Vec<PaintCommand>,
    pub metadata: PlanMetadata,
}

/// A group of pixels that share the same color.
#[derive(Debug)]
pub struct ColorGroup {
    pub color: (u8, u8, u8),
    pub hex: String,
    pub pixels: Vec<(u32, u32)>,
}

/// Screen region definition for coordinate mapping.
#[derive(Debug, Clone, Copy)]
pub struct ScreenRect {
    pub x: i32,
    pub y: i32,
    pub width: u32,
    pub height: u32,
}

// ── coordinate mapping ─────────────────────────────────────────────────

/// Offset along one axis of pixel `p` of an image `img` pixels wide mapped onto
/// `span` screen pixels: the whole part of `p * span / img`, saturated at `i32::MAX`
/// (an empty image maps every positive position of a non-empty span to `i32::MAX`).
pub open spec fn axis_offset(p: u32, img: u32, span: u32) -> int {
    if img == 0 {
        if p > 0 && span > 0 {
            i32::MAX as int
        } else {
            0
        }
    } else if (p * span) / (img as int) > i32::MAX {
        i32::MAX as int
    } else {
        (p * span) / (img as int)
    }
}

/// Screen coordinate of pixel position `p` on an axis that starts at `origin`.
pub open spec fn screen_coord(origin: i32, p: u32, img: u32, span: u32) -> int {
    origin + axis_offset(p, img, span)
}

/// Every pixel of the image lands on the canvas, in the cell of its scaled
/// position: pixel `p` of `img` maps to the screen offset `o` with
/// `o * img <= p * span < (o + 1) * img`, so `0 <= o < span`; and pixels further
/// along never land before earlier ones.
pub proof fn pixels_land_in_their_canvas_cell(p: u32, q: u32, img: u32, span: u32)
    requires
        p < img,
        q < img,
        span <= i32::MAX,
    ensures
        ({
            let o = axis_offset(p, img, span);
            &&& o * img <= p * span < (o + 1) * img
            &&& span > 0 ==> 0 <= o < span
            &&& p <= q ==> o <= axis_offset(q, img, span)
        }),
{
    let a = p * span;
    let n = img as int;
    assert(0 <= a < span * n || span == 0) by (nonlinear_arith)
        requires
            a == p * span,
            0 <= p < n,
            span >= 0,
    ;
    vstd::arithmetic::div_mod::lemma_fundamental_div_mod(a, n);
    let o = a / n;
    assert(0 <= o) by {
        vstd::arithmetic::div_mod::lemma_div_pos_is_pos(a, n);
    }
    assert(o * n <= a < (o + 1) * n) by (nonlinear_arith)
        requires
            a == n * o + a % n,
            0 <= a % n < n,
    ;
    if span > 0 {
        assert(o < span) by (nonlinear_arith)
            requires
                o * n <= a,
                a < span * n,
                n > 0,
        ;
    } else {
        assert(a == 0);
    }
    assert(o <= i32::MAX) by (nonlinear_arith)
        requires
            o * n <= a,
            a < span * n || span == 0,
            a == p * span,
            n > 0,
            span <= i32::MAX,
            o >= 0,
    ;
    if p <= q {
        assert(p * span <= q * span) by (nonlinear_arith)
            requires
                p <= q,
                span >= 0,
        ;
        vstd::arithmetic::div_mod::lemma_div_is_ordered(p * span, q * span, n);
        assert(q * span < span * n || span == 0) by (nonlinear_arith)
            requires
                0 <= q < n,
                span >= 0,
        ;
        if span > 0 {
            vstd::arithmetic::div_mod::lemma_fundamental_div_mod(q * span, n);
            assert((q * span) / n < span) by (nonlinear_arith)
                requires
                    q * span == n * ((q * span) / n) + (q * span) % n,
                    0 <= (q * span) % n,
                    q * span < span * n,
                    n > 0,
            ;
        } else {
            assert(q * span == 0);
        }
    }
}

/// Whether pixel (px, py) of an image maps to representable screen coordinates.
pub open spec fn maps_on_screen(px: u32, py: u32, img_width: u32, img_height: u32, canvas: ScreenRect) -> bool {
    &&& screen_coord(canvas.x, px, img_width, canvas.width) <= i32::MAX
    &&& screen_coord(canvas.y, py, img_height, canvas.height) <= i32::MAX
}

fn axis_to_screen(origin: i32, p: u32, img: u32, span: u32) -> (s: i32)
    requires
        screen_coord(origin, p, img, span) <= i32::MAX,
    ensures
        s == screen_coord(origin, p, img, span),
{
    let off: u64 = if img == 0 {
        if p > 0 && span > 0 {
            i32::MAX as u64
        } else {
            0
        }
    } else {
        assert((p as int) * (span as int) <= u64::MAX) by (nonlinear_arith)
            requires
                p <= u32::MAX,
                span <= u32::MAX,
        ;
        assert((p as int) * (span as int) >= 0) by (nonlinear_arith);
        let q = (p as u64 * span as u64) / img as u64;
        if q > i32::MAX as u64 {
            i32::MAX as u64
        } else {
            q
        }
    };
    (origin as i64 + off as i64) as i32
}

/// Whether pixel (px, py) maps to representable screen coordinates.
pub fn maps_to_screen(px: u32, py: u32, img_width: u32, img_height: u32, canvas: &ScreenRect) -> (ok: bool)
    ensures
        ok == maps_on_screen(px, py, img_width, img_height, *canvas),
{
    axis_fits(canvas.x, px, img_width, canvas.width) && axis_fits(canvas.y, py, img_height, canvas.height)
}

fn axis_fits(origin: i32, p: u32, img: u32, span: u32) -> (ok: bool)
    ensures
        ok == (screen_coord(origin, p, img, span) <= i32::MAX),
{
    let off: u64 = if img == 0 {
        if p > 0 && span > 0 {
            i32::MAX as u64
        } else {
            0
        }
    } else {
        assert((p as int) * (span as int) <= u64::MAX) by (nonlinear_arith)
            requires
                p <= u32::MAX,
                span <= u32::MAX,
        ;
        assert((p as int) * (span as int) >= 0) by (nonlinear_arith);
        let q = (p as u64 * span as u64) / img as u64;
        if q > i32::MAX as u64 {
            i32::MAX as u64
        } else {
            q
        }
    };
    origin as i64 + off as i64 <= i32::MAX as i64
}

/// Convert an image pixel coordinate to screen coordinates within a canvas region:
/// each axis offset is the whole part of `p * span / img`.
pub fn pixel_to_screen(px: u32, py: u32, img_width: u32, img_height: u32, canvas: &ScreenRect) -> (s: (i32, i32))
    requires
        maps_on_screen(px, py, img_width, img_height, *canvas),
    ensures
        s.0 == screen_coord(canvas.x, px, img_width, canvas.width),
        s.1 == screen_coord(canvas.y, py, img_height, canvas.height),
{
    let sx = axis_to_screen(canvas.x, px, img_width, canvas.width);
    let sy = axis_to_screen(canvas.y, py, img_height, canvas.height);
    (sx, sy)
}


// ── grouping by color ──────────────────────────────────────────────────

/// Positions, in input order, of the pixels of color `c`.
pub open spec fn coords_of_color(pixels: Seq<MappedPixel>, c: (u8, u8, u8)) -> Seq<(u32, u32)>
    decreases pixels.len(),
{
    if pixels.len() == 0 {
        Seq::empty()
    } else {
        let rest = coords_of_color(pixels.drop_last(), c);
        if pixels.last().rgb() == c {
            rest.push(pixels.last().pos())
        } else {
            rest
        }
    }
}

/// `j` is the index of the first pixel of color `c`.
pub open spec fn is_first_of_color(pixels: Seq<MappedPixel>, j: int, c: (u8, u8, u8)) -> bool {
    &&& 0 <= j < pixels.len()
    &&& pixels[j].rgb() == c
    &&& forall|k: int| 0 <= k < j ==> (#[trigger] pixels[k]).rgb() != c
}

/// `g` holds exactly the pixels of its color, with the hex code of the first of them.
pub open spec fn is_color_group_of(pixels: Seq<MappedPixel>, g: ColorGroup) -> bool {
    &&& g.pixels@ == coords_of_color(pixels, g.color)
    &&& exists|j: int| is_first_of_color(pixels, j, g.color) && g.hex@ == pixels[j].color.hex@
}

/// Some group has color `c`.
pub open spec fn has_group_of_color(groups: Seq<ColorGroup>, c: (u8, u8, u8)) -> bool {
    exists|a: int| 0 <= a < groups.len() && (#[trigger] groups[a]).color == c
}

/// Group colors are pairwise distinct.
pub open spec fn distinct_group_colors(groups: Seq<ColorGroup>) -> bool {
    forall|i: int, j: int|
        0 <= i < j < groups.len() ==> (#[trigger] groups[i]).color != (#[trigger] groups[j]).color
}

/// Every group is the group of its color.
pub open spec fn all_color_groups_of(pixels: Seq<MappedPixel>, groups: Seq<ColorGroup>) -> bool {
    forall|i: int| 0 <= i < groups.len() ==> is_color_group_of(pixels, #[trigger] groups[i])
}

/// Every color that occurs in `pixels` has a group.
pub open spec fn covers_pixel_colors(pixels: Seq<MappedPixel>, groups: Seq<ColorGroup>) -> bool {
    forall|k: int| 0 <= k < pixels.len() ==> has_group_of_color(groups, #[trigger] pixels[k].rgb())
}

/// Groups are ordered by pixel count, largest first.
pub open spec fn sorted_by_count(groups: Seq<ColorGroup>) -> bool {
    forall|i: int, j: int|
        0 <= i < j < groups.len() ==> (#[trigger] groups[i]).pixels@.len() >= (
        #[trigger] groups[j]).pixels@.len()
}

/// The groups partition `pixels` by color: one group per color that occurs,
/// most populous colors first.
pub open spec fn is_grouping_of(pixels: Seq<MappedPixel>, groups: Seq<ColorGroup>) -> bool {
    &&& all_color_groups_of(pixels, groups)
    &&& distinct_group_colors(groups)
    &&& covers_pixel_colors(pixels, groups)
    &&& sorted_by_count(groups)
}

proof fn lemma_coords_of_color_take(pixels: Seq<MappedPixel>, c: (u8, u8, u8), j: int)
    requires
        0 <= j < pixels.len(),
    ensures
        coords_of_color(pixels.take(j + 1), c) == if pixels[j].rgb() == c {
            coords_of_color(pixels.take(j), c).push(pixels[j].pos())
        } else {
            coords_of_color(pixels.take(j), c)
        },
{
    assert(pixels.take(j + 1).drop_last() =~= pixels.take(j));
}

/// A color packed into one integer: red, green and blue as its three low bytes.
pub open spec fn color_key(c: (u8, u8, u8)) -> u32 {
    (c.0 * 65536 + c.1 * 256 + c.2) as u32
}

pub(crate) proof fn lemma_color_key_injective(a: (u8, u8, u8), b: (u8, u8, u8))
    requires
        color_key(a) == color_key(b),
    ensures
        a == b,
{
    let ka = a.0 * 65536 + a.1 * 256 + a.2;
    let kb = b.0 * 65536 + b.1 * 256 + b.2;
    assert(ka < 16777216 && kb < 16777216);
    assert(ka == kb);
    assert(a.0 == b.0) by (nonlinear_arith)
        requires
            a.0 * 65536 + a.1 * 256 + a.2 == b.0 * 65536 + b.1 * 256 + b.2,
            0 <= a.1 < 256,
            0 <= a.2 < 256,
            0 <= b.1 < 256,
            0 <= b.2 < 256,
    ;
    assert(a.1 == b.1) by (nonlinear_arith)
        requires
            a.1 * 256 + a.2 == b.1 * 256 + b.2,
            0 <= a.2 < 256,
            0 <= b.2 < 256,
    ;
}

pub(crate) fn color_key_exec(r: u8, g: u8, b: u8) -> (k: u32)
    ensures
        k == color_key((r, g, b)),
{
    r as u32 * 65536 + g as u32 * 256 + b as u32
}

/// Some pixel before `bound` is the first of the group's color, and the group
/// has its hex code.
pub open spec fn has_first_with_hex(pixels: Seq<MappedPixel>, g: ColorGroup, bound: int) -> bool {
    exists|f: int| is_first_of_color(pixels, f, g.color) && f < bound && g.hex@ == pixels[f].color.hex@
}

proof fn lemma_no_coords(pixels: Seq<MappedPixel>, c: (u8, u8, u8), j: int)
    requires
        0 <= j <= pixels.len(),
        forall|k: int| 0 <= k < j ==> (#[trigger] pixels[k]).rgb() != c,
    ensures
        coords_of_color(pixels.take(j), c).len() == 0,
    decreases j,
{
    if j > 0 {
        lemma_coords_of_color_take(pixels, c, j - 1);
        lemma_no_coords(pixels, c, j - 1);
    } else {
        assert(pixels.take(0) =~= Seq::<MappedPixel>::empty());
    }
}

/// Group mapped pixels by color for efficient painting: one group per color that
/// occurs, each with the positions of its pixels in input order and the hex code of
/// the first of them. Groups are sorted by pixel count, most common colors first.
pub fn group_by_color(pixels: &[MappedPixel]) -> (groups: Vec<ColorGroup>)
    ensures
        is_grouping_of(pixels@, groups@),
{
    broadcast use vstd::std_specs::hash::group_hash_axioms;

    let mut groups: Vec<ColorGroup> = Vec::new();
    // the group of each color, by packed color
    let mut index: HashMap<u32, usize> = HashMap::new();
    let mut j: usize = 0;
    while j < pixels.len()
        invariant
            0 <= j <= pixels@.len(),
            forall|a: int|
                0 <= a < groups@.len() ==> (#[trigger] groups@[a]).pixels@ == coords_of_color(
                    pixels@.take(j as int),
                    groups@[a].color,
                ),
            forall|a: int| 0 <= a < groups@.len() ==> has_first_with_hex(pixels@, #[trigger] groups@[a], j as int),
            distinct_group_colors(groups@),
            forall|k: int| 0 <= k < j ==> has_group_of_color(groups@, #[trigger] pixels@[k].rgb()),
            forall|a: int|
                0 <= a < groups@.len() ==> index@.contains_key(color_key((#[trigger] groups@[a]).color))
                    && index@[color_key(groups@[a].color)] == a,
            forall|k: u32|
                #[trigger] index@.contains_key(k) ==> index@[k] < groups@.len() && color_key(
                    groups@[index@[k] as int].color,
                ) == k,
        decreases pixels@.len() - j,
    {
        let p = pixels[j];
        let c = (p.color.r, p.color.g, p.color.b);
        let key = color_key_exec(p.color.r, p.color.g, p.color.b);
        let ghost before = groups@;
        proof {
            lemma_coords_of_color_take(pixels@, c, j as int);
            assert forall|d: (u8, u8, u8)| d != c implies coords_of_color(pixels@.take(j + 1), d) == coords_of_color(
                pixels@.take(j as int),
                d,
            ) by {
                lemma_coords_of_color_take(pixels@, d, j as int);
            }
        }
        match index.get(&key) {
            Some(a) => {
                let a = *a;
                proof {
                    lemma_color_key_injective(groups@[a as int].color, c);
                }
                groups[a].pixels.push((p.x, p.y));
                proof {
                    assert forall|b: int| 0 <= b < groups@.len() implies (#[trigger] groups@[b]).pixels@
                        == coords_of_color(pixels@.take(j + 1), groups@[b].color) by {
                        if b != a {
                            assert(groups@[b] == before[b]);
                            assert(before[b].color != c);
                        }
                    }
                    assert forall|b: int| 0 <= b < groups@.len() implies has_first_with_hex(
                        pixels@,
                        #[trigger] groups@[b],
                        j + 1,
                    ) by {
                        assert(groups@[b].color == before[b].color && groups@[b].hex == before[b].hex);
                        let f = choose|f: int|
                            is_first_of_color(pixels@, f, before[b].color) && f < j && before[b].hex@
                                == pixels@[f].color.hex@;
                        assert(is_first_of_color(pixels@, f, groups@[b].color) && f < j + 1 && groups@[b].hex@
                            == pixels@[f].color.hex@);
                    }
                    assert forall|x: int, y: int| 0 <= x < y < groups@.len() implies (#[trigger] groups@[x]).color
                        != (#[trigger] groups@[y]).color by {
                        assert(groups@[x].color == before[x].color);
                        assert(groups@[y].color == before[y].color);
                    }
                    assert forall|k: int| 0 <= k < j + 1 implies has_group_of_color(
                        groups@,
                        #[trigger] pixels@[k].rgb(),
                    ) by {
                        if k < j {
                            let b = choose|b: int| 0 <= b < before.len() && (#[trigger] before[b]).color == pixels@[k].rgb();
                            assert(groups@[b].color == before[b].color);
                        } else {
                            assert(groups@[a as int].color == pixels@[k].rgb());
                        }
                    }
                    assert forall|b: int| 0 <= b < groups@.len() implies index@.contains_key(
                        color_key((#[trigger] groups@[b]).color),
                    ) && index@[color_key(groups@[b].color)] == b by {
                        assert(groups@[b].color == before[b].color);
                    }
                    assert forall|k: u32| #[trigger] index@.contains_key(k) implies index@[k] < groups@.len()
                        && color_key(groups@[index@[k] as int].color) == k by {
                        assert(groups@[index@[k] as int].color == before[index@[k] as int].color);
                    }
                }
            },
            None => {
                proof {
                    assert forall|b: int| 0 <= b < groups@.len() implies (#[trigger] groups@[b]).color != c by {
                        if groups@[b].color == c {
                            assert(index@.contains_key(key));
                        }
                    }
                    assert forall|k: int| 0 <= k < j implies (#[trigger] pixels@[k]).rgb() != c by {
                        assert(has_group_of_color(groups@, pixels@[k].rgb()));
                    }
                    lemma_no_coords(pixels@, c, j as int);
                    assert(coords_of_color(pixels@.take(j + 1), c) =~= seq![(p.x, p.y)]);
                }
                let a = groups.len();
                let mut coords: Vec<(u32, u32)> = Vec::new();
                coords.push((p.x, p.y));
                groups.push(ColorGroup { color: c, hex: p.color.hex.to_string(), pixels: coords });
                let ghost old_index = index@;
                index.insert(key, a);
                proof {
                    assert(is_first_of_color(pixels@, j as int, c));
                    assert forall|b: int| 0 <= b < groups@.len() implies (#[trigger] groups@[b]).pixels@
                        == coords_of_color(pixels@.take(j + 1), groups@[b].color) by {
                        if b < a {
                            assert(groups@[b] == before[b]);
                        }
                    }
                    assert forall|b: int| 0 <= b < groups@.len() implies has_first_with_hex(
                        pixels@,
                        #[trigger] groups@[b],
                        j + 1,
                    ) by {
                        if b < a {
                            assert(groups@[b] == before[b]);
                            let f = choose|f: int|
                                is_first_of_color(pixels@, f, before[b].color) && f < j && before[b].hex@
                                    == pixels@[f].color.hex@;
                            assert(is_first_of_color(pixels@, f, groups@[b].color) && f < j + 1 && groups@[b].hex@
                                == pixels@[f].color.hex@);
                        } else {
                            assert(is_first_of_color(pixels@, j as int, groups@[b].color) && j < j + 1
                                && groups@[b].hex@ == pixels@[j as int].color.hex@);
                        }
                    }
                    assert forall|x: int, y: int| 0 <= x < y < groups@.len() implies (#[trigger] groups@[x]).color
                        != (#[trigger] groups@[y]).color by {
                        assert(groups@[x] == before[x]);
                        if y < a {
                            assert(groups@[y] == before[y]);
                        }
                    }
                    assert forall|k: int| 0 <= k < j + 1 implies has_group_of_color(
                        groups@,
                        #[trigger] pixels@[k].rgb(),
                    ) by {
                        if k < j {
                            let b = choose|b: int| 0 <= b < before.len() && (#[trigger] before[b]).color == pixels@[k].rgb();
                            assert(groups@[b] == before[b]);
                        } else {
                            assert(groups@[a as int].color == pixels@[k].rgb());
                        }
                    }
                    assert forall|b: int| 0 <= b < groups@.len() implies index@.contains_key(
                        color_key((#[trigger] groups@[b]).color),
                    ) && index@[color_key(groups@[b].color)] == b by {
                        if b < a {
                            assert(groups@[b] == before[b]);
                            if color_key(before[b].color) == key {
                                lemma_color_key_injective(before[b].color, c);
                            }
                        }
                    }
                    assert forall|k: u32| #[trigger] index@.contains_key(k) implies index@[k] < groups@.len()
                        && color_key(groups@[index@[k] as int].color) == k by {
                        if k != key {
                            assert(old_index.contains_key(k));
                            assert(groups@[index@[k] as int] == before[index@[k] as int]);
                        }
                    }
                }
            },
        }
        j += 1;
    }
    proof {
        assert(pixels@.take(pixels@.len() as int) =~= pixels@);
        assert forall|a: int| 0 <= a < groups@.len() implies is_color_group_of(pixels@, #[trigger] groups@[a]) by {
            assert(has_first_with_hex(pixels@, groups@[a], pixels@.len() as int));
            let f = choose|f: int|
                is_first_of_color(pixels@, f, groups@[a].color) && f < pixels@.len() && groups@[a].hex@
                    == pixels@[f].color.hex@;
        }
        assert forall|k: int| 0 <= k < pixels@.len() implies has_group_of_color(groups@, #[trigger] pixels@[k].rgb()) by {}
    }
    sort_groups_by_count(&mut groups, Ghost(pixels@));
    groups
}

proof fn lemma_swap_adjacent_keeps_grouping(
    pixels: Seq<MappedPixel>,
    before: Seq<ColorGroup>,
    after: Seq<ColorGroup>,
    j: int,
)
    requires
        1 <= j < before.len(),
        after == before.update(j - 1, before[j]).update(j, before[j - 1]),
        all_color_groups_of(pixels, before),
        distinct_group_colors(before),
        covers_pixel_colors(pixels, before),
    ensures
        all_color_groups_of(pixels, after),
        distinct_group_colors(after),
        covers_pixel_colors(pixels, after),
{
    assert forall|i: int| 0 <= i < after.len() implies is_color_group_of(pixels, #[trigger] after[i]) by {
        if i == j {
            assert(after[i] == before[j - 1]);
        } else if i == j - 1 {
            assert(after[i] == before[j]);
        } else {
            assert(after[i] == before[i]);
        }
    }
    assert forall|a: int, b: int|
        0 <= a < b < after.len() implies (#[trigger] after[a]).color != (#[trigger] after[b]).color by {
        let a0 = if a == j { j - 1 } else if a == j - 1 { j } else { a };
        let b0 = if b == j { j - 1 } else if b == j - 1 { j } else { b };
        assert(after[a] == before[a0]);
        assert(after[b] == before[b0]);
        if a0 < b0 {
            assert(before[a0].color != before[b0].color);
        } else {
            assert(before[b0].color != before[a0].color);
        }
    }
    assert forall|k: int| 0 <= k < pixels.len() implies has_group_of_color(after, #[trigger] pixels[k].rgb()) by {
        let c = pixels[k].rgb();
        assert(has_group_of_color(before, c));
        let a = choose|a: int| 0 <= a < before.len() && (#[trigger] before[a]).color == c;
        let a1 = if a == j { j - 1 } else if a == j - 1 { j } else { a };
        assert(after[a1] == before[a]);
    }
}

/// Stable insertion sort of groups by pixel count, largest first.
fn sort_groups_by_count(groups: &mut Vec<ColorGroup>, Ghost(pixels): Ghost<Seq<MappedPixel>>)
    requires
        all_color_groups_of(pixels, old(groups)@),
        distinct_group_colors(old(groups)@),
        covers_pixel_colors(pixels, old(groups)@),
    ensures
        is_grouping_of(pixels, final(groups)@),
{
    let n = groups.len();
    let mut i: usize = 1;
    while i < n
        invariant
            groups@.len() == n,
            all_color_groups_of(pixels, groups@),
            distinct_group_colors(groups@),
            covers_pixel_colors(pixels, groups@),
            forall|a: int, b: int|
                0 <= a < b < i && b < n ==> (#[trigger] groups@[a]).pixels@.len() >= (
                #[trigger] groups@[b]).pixels@.len(),
        decreases n - i,
    {
        let mut j: usize = i;
        while j > 0 && groups[j - 1].pixels.len() < groups[j].pixels.len()
            invariant
                groups@.len() == n,
                0 <= j <= i < n,
                all_color_groups_of(pixels, groups@),
                distinct_group_colors(groups@),
                covers_pixel_colors(pixels, groups@),
                forall|a: int, b: int|
                    0 <= a < b <= i && a != j && b != j ==> (#[trigger] groups@[a]).pixels@.len()
                        >= (#[trigger] groups@[b]).pixels@.len(),
                forall|b: int|
                    j < b <= i ==> groups@[j as int].pixels@.len() > (
                    #[trigger] groups@[b]).pixels@.len(),
            decreases j,
        {
            let ghost before = groups@;
            let g = groups.remove(j);
            groups.insert(j - 1, g);
            proof {
                assert(groups@ =~= before.update(j - 1, before[j as int]).update(
                    j as int,
                    before[j - 1],
                ));
                lemma_swap_adjacent_keeps_grouping(pixels, before, groups@, j as int);
            }
            j -= 1;
        }
        i += 1;
    }
}

// ── every pixel lands in exactly one group ─────────────────────────────

/// The colors of the groups, in order.
pub open spec fn group_colors(groups: Seq<ColorGroup>) -> Seq<(u8, u8, u8)> {
    groups.map_values(|g: ColorGroup| g.color)
}

/// Number of pixels of each color of `cs`, summed.
pub open spec fn color_counts(pixels: Seq<MappedPixel>, cs: Seq<(u8, u8, u8)>) -> int
    decreases cs.len(),
{
    if cs.len() == 0 {
        0
    } else {
        color_counts(pixels, cs.drop_last()) + coords_of_color(pixels, cs.last()).len()
    }
}

proof fn lemma_counts_drop_pixel(pixels: Seq<MappedPixel>, cs: Seq<(u8, u8, u8)>)
    requires
        pixels.len() > 0,
        cs.no_duplicates(),
    ensures
        color_counts(pixels, cs) == color_counts(pixels.drop_last(), cs) + if cs.contains(pixels.last().rgb()) {
            1int
        } else {
            0int
        },
    decreases cs.len(),
{
    if cs.len() > 0 {
        let c = cs.last();
        let rest = cs.drop_last();
        assert forall|i: int, j: int| 0 <= i < rest.len() && 0 <= j < rest.len() && i != j implies rest[i] != rest[j] by {
            assert(rest[i] == cs[i] && rest[j] == cs[j]);
        }
        lemma_counts_drop_pixel(pixels, rest);
        let c0 = pixels.last().rgb();
        if rest.contains(c0) {
            let i = choose|i: int| 0 <= i < rest.len() && rest[i] == c0;
            assert(cs[i] == c0);
            if c == c0 {
                assert(cs[cs.len() - 1] == c0);
            }
        }
        if cs.contains(c0) && c != c0 {
            let i = choose|i: int| 0 <= i < cs.len() && cs[i] == c0;
            assert(rest[i] == c0);
        }
        if c == c0 {
            assert(cs[cs.len() - 1] == c0);
        }
    }
}

proof fn lemma_counts_all(pixels: Seq<MappedPixel>, cs: Seq<(u8, u8, u8)>)
    requires
        cs.no_duplicates(),
        forall|k: int| 0 <= k < pixels.len() ==> cs.contains(#[trigger] pixels[k].rgb()),
    ensures
        color_counts(pixels, cs) == pixels.len(),
    decreases pixels.len(),
{
    if pixels.len() == 0 {
        lemma_counts_empty(pixels, cs);
    } else {
        let rest = pixels.drop_last();
        assert forall|k: int| 0 <= k < rest.len() implies cs.contains(#[trigger] rest[k].rgb()) by {
            assert(rest[k] == pixels[k]);
        }
        lemma_counts_all(rest, cs);
        lemma_counts_drop_pixel(pixels, cs);
        assert(cs.contains(pixels[pixels.len() - 1].rgb()));
    }
}

proof fn lemma_counts_empty(pixels: Seq<MappedPixel>, cs: Seq<(u8, u8, u8)>)
    requires
        pixels.len() == 0,
    ensures
        color_counts(pixels, cs) == 0,
    decreases cs.len(),
{
    if cs.len() > 0 {
        lemma_counts_empty(pixels, cs.drop_last());
    }
}

proof fn lemma_total_is_counts(pixels: Seq<MappedPixel>, groups: Seq<ColorGroup>)
    requires
        all_color_groups_of(pixels, groups),
    ensures
        strategy::total_pixel_count(groups) == color_counts(pixels, group_colors(groups)),
    decreases groups.len(),
{
    if groups.len() > 0 {
        let rest = groups.drop_last();
        assert forall|i: int| 0 <= i < rest.len() implies is_color_group_of(pixels, #[trigger] rest[i]) by {
            assert(rest[i] == groups[i]);
        }
        lemma_total_is_counts(pixels, rest);
        assert(group_colors(groups).drop_last() =~= group_colors(rest));
        assert(is_color_group_of(pixels, groups[groups.len() - 1]));
    }
}

/// Grouping by color keeps every pixel exactly once: the groups together hold as
/// many pixels as were given.
pub proof fn grouping_keeps_every_pixel(pixels: Seq<MappedPixel>, groups: Seq<ColorGroup>)
    requires
        is_grouping_of(pixels, groups),
    ensures
        strategy::total_pixel_count(groups) == pixels.len(),
{
    let cs = group_colors(groups);
    assert forall|i: int, j: int| 0 <= i < cs.len() && 0 <= j < cs.len() && i != j implies cs[i] != cs[j] by {
        if i < j {
            assert(groups[i].color != groups[j].color);
        } else {
            assert(groups[j].color != groups[i].color);
        }
    }
    assert forall|k: int| 0 <= k < pixels.len() implies cs.contains(#[trigger] pixels[k].rgb()) by {
        assert(has_group_of_color(groups, pixels[k].rgb()));
        let a = choose|a: int| 0 <= a < groups.len() && (#[trigger] groups[a]).color == pixels[k].rgb();
        assert(cs[a] == pixels[k].rgb());
    }
    lemma_counts_all(pixels, cs);
    lemma_total_is_counts(pixels, groups);
}

} // verus!
