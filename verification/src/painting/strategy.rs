//! Painting strategies that turn color groups into paint plans.

use vstd::prelude::*;
use super::{
    PaintCommand, CommandView, commands_view, PaintPlan, PlanMetadata, ColorGroup, ScreenRect,
    pixel_to_screen, screen_coord, maps_on_screen, maps_to_screen,
};
use super::segments::{
    PaintSegment, seg_start, seg_end, detected_segments, detect_line_segments, pos_key, lemma_key_decode,
    covers, detected_segments_cover_exactly,
};
use super::ordering::{
    nearest_neighbor_pixels, nearest_neighbor_segments, nearest_neighbor_order,
    nearest_neighbor_order_segments, nearest_neighbor_pixels_is_permutation,
    nearest_neighbor_segments_is_permutation,
};
use super::optimizer::{two_opt, optimize_2opt, two_opt_is_permutation};
use vstd::seq_lib::{to_multiset_contains, lemma_sorted_unique};
use crate::sorted::sort_keys;

verus! {

// ── what the commands are ──────────────────────────────────────────────

/// Screen x of image column `x`.
pub open spec fn sx(x: u32, img_width: u32, canvas: ScreenRect) -> i32 {
    screen_coord(canvas.x, x, img_width, canvas.width) as i32
}

/// Screen y of image row `y`.
pub open spec fn sy(y: u32, img_height: u32, canvas: ScreenRect) -> i32 {
    screen_coord(canvas.y, y, img_height, canvas.height) as i32
}

/// Move to a pixel and click it.
pub open spec fn pixel_cmds(p: (u32, u32), w: u32, h: u32, canvas: ScreenRect) -> Seq<CommandView> {
    seq![CommandView::MoveTo { x: sx(p.0, w, canvas), y: sy(p.1, h, canvas) }, CommandView::Click]
}

/// Commands for one segment: a click for a pixel; for a line, a click at its start
/// and a shift-click at its end, on the row of its start.
pub open spec fn segment_cmds(seg: PaintSegment, w: u32, h: u32, canvas: ScreenRect) -> Seq<CommandView> {
    match seg {
        PaintSegment::Pixel(x, y) => pixel_cmds((x, y), w, h, canvas),
        PaintSegment::HLine { y, x_start, x_end } => seq![
            CommandView::MoveTo { x: sx(x_start, w, canvas), y: sy(y, h, canvas) },
            CommandView::Click,
            CommandView::MoveTo { x: sx(x_end, w, canvas), y: sy(y, h, canvas) },
            CommandView::ShiftClick,
        ],
    }
}

/// Clicks for each point, in order.
pub open spec fn points_cmds(pts: Seq<(u32, u32)>, w: u32, h: u32, canvas: ScreenRect) -> Seq<CommandView>
    decreases pts.len(),
{
    if pts.len() == 0 {
        Seq::empty()
    } else {
        pixel_cmds(pts[0], w, h, canvas) + points_cmds(pts.drop_first(), w, h, canvas)
    }
}

/// Commands for each segment, in order.
pub open spec fn segments_cmds(segs: Seq<PaintSegment>, w: u32, h: u32, canvas: ScreenRect) -> Seq<CommandView>
    decreases segs.len(),
{
    if segs.len() == 0 {
        Seq::empty()
    } else {
        segment_cmds(segs[0], w, h, canvas) + segments_cmds(segs.drop_first(), w, h, canvas)
    }
}

/// Switching to a color: type its hex code if asked to, then wait.
pub open spec fn switch_cmds(hex: Seq<char>, use_hex: bool, delay_ms: u32) -> Seq<CommandView> {
    if use_hex {
        seq![CommandView::SelectColorByHex { hex }, CommandView::Delay { ms: delay_ms }]
    } else {
        seq![CommandView::Delay { ms: delay_ms }]
    }
}

/// Group by group, skipping empty groups: switch to the group's color, then paint
/// its pixels as `body` says.
pub open spec fn grouped_cmds(
    groups: Seq<ColorGroup>,
    use_hex: bool,
    delay_ms: u32,
    body: spec_fn(Seq<(u32, u32)>) -> Seq<CommandView>,
) -> Seq<CommandView>
    decreases groups.len(),
{
    if groups.len() == 0 {
        Seq::empty()
    } else {
        let g = groups[0];
        let head = if g.pixels@.len() == 0 {
            Seq::empty()
        } else {
            switch_cmds(g.hex@, use_hex, delay_ms) + body(g.pixels@)
        };
        head + grouped_cmds(groups.drop_first(), use_hex, delay_ms, body)
    }
}

/// Number of pixels over all groups.
pub open spec fn total_pixel_count(groups: Seq<ColorGroup>) -> int
    decreases groups.len(),
{
    if groups.len() == 0 {
        0
    } else {
        total_pixel_count(groups.drop_last()) + groups.last().pixels@.len()
    }
}

/// Every pixel of every group maps to representable screen coordinates, and the
/// pixel count fits in `usize`.
pub open spec fn plannable(groups: Seq<ColorGroup>, canvas: ScreenRect, img_width: u32, img_height: u32) -> bool {
    &&& forall|g: int, k: int|
        0 <= g < groups.len() && 0 <= k < groups[g].pixels@.len() ==> maps_on_screen(
            #[trigger] groups[g].pixels@[k].0,
            groups[g].pixels@[k].1,
            img_width,
            img_height,
            canvas,
        )
    &&& total_pixel_count(groups) <= usize::MAX
}

/// Every point of `pts` maps to representable screen coordinates.
pub open spec fn all_map(pts: Seq<(u32, u32)>, w: u32, h: u32, canvas: ScreenRect) -> bool {
    forall|k: int| 0 <= k < pts.len() ==> maps_on_screen(#[trigger] pts[k].0, pts[k].1, w, h, canvas)
}

/// Both ends of every segment map to representable screen coordinates.
pub open spec fn ends_map(segs: Seq<PaintSegment>, w: u32, h: u32, canvas: ScreenRect) -> bool {
    forall|k: int|
        0 <= k < segs.len() ==> maps_on_screen(#[trigger] seg_start(segs[k]).0, seg_start(segs[k]).1, w, h, canvas)
            && maps_on_screen(seg_end(segs[k]).0, seg_end(segs[k]).1, w, h, canvas)
}

// ── helpers ────────────────────────────────────────────────────────────

proof fn lemma_view_push(cmds: Seq<PaintCommand>, c: PaintCommand)
    ensures
        commands_view(cmds.push(c)) == commands_view(cmds).push(c@),
{
    assert(commands_view(cmds.push(c)) =~= commands_view(cmds).push(c@));
}

proof fn lemma_total_prefix(groups: Seq<ColorGroup>, g: int)
    requires
        0 <= g <= groups.len(),
    ensures
        total_pixel_count(groups.take(g)) <= total_pixel_count(groups),
    decreases groups.len(),
{
    if g < groups.len() {
        assert(groups.drop_last().take(g) =~= groups.take(g));
        lemma_total_prefix(groups.drop_last(), g);
    } else {
        assert(groups.take(g) =~= groups);
    }
}

/// Total number of pixels over all groups.
fn count_pixels(groups: &[ColorGroup]) -> (total: usize)
    requires
        total_pixel_count(groups@) <= usize::MAX,
    ensures
        total == total_pixel_count(groups@),
{
    let mut total: usize = 0;
    let mut g: usize = 0;
    while g < groups.len()
        invariant
            0 <= g <= groups@.len(),
            total == total_pixel_count(groups@.take(g as int)),
            total_pixel_count(groups@) <= usize::MAX,
        decreases groups@.len() - g,
    {
        proof {
            assert(groups@.take(g + 1).drop_last() =~= groups@.take(g as int));
            lemma_total_prefix(groups@, g + 1);
        }
        total = total + groups[g].pixels.len();
        g += 1;
    }
    proof {
        assert(groups@.take(groups@.len() as int) =~= groups@);
    }
    total
}

/// Append a move to a pixel and a click.
fn push_pixel(
    commands: &mut Vec<PaintCommand>,
    p: (u32, u32),
    canvas: &ScreenRect,
    img_width: u32,
    img_height: u32,
)
    requires
        maps_on_screen(p.0, p.1, img_width, img_height, *canvas),
    ensures
        commands_view(final(commands)@) == commands_view(old(commands)@) + pixel_cmds(
            p,
            img_width,
            img_height,
            *canvas,
        ),
{
    let ghost before = commands@;
    let (x, y) = pixel_to_screen(p.0, p.1, img_width, img_height, canvas);
    commands.push(PaintCommand::MoveTo { x, y });
    commands.push(PaintCommand::Click);
    proof {
        lemma_view_push(before, PaintCommand::MoveTo { x, y });
        lemma_view_push(before.push(PaintCommand::MoveTo { x, y }), PaintCommand::Click);
        assert(commands_view(commands@) =~= commands_view(before) + pixel_cmds(
            p,
            img_width,
            img_height,
            *canvas,
        ));
    }
}

/// Append the commands that switch to a color.
fn push_switch(commands: &mut Vec<PaintCommand>, hex: &String, use_hex: bool, delay_ms: u32)
    ensures
        commands_view(final(commands)@) == commands_view(old(commands)@) + switch_cmds(
            hex@,
            use_hex,
            delay_ms,
        ),
{
    let ghost before = commands@;
    if use_hex {
        let c = PaintCommand::SelectColorByHex { hex: hex.clone() };
        commands.push(c);
        proof {
            lemma_view_push(before, c);
        }
    }
    let ghost mid = commands@;
    commands.push(PaintCommand::Delay { ms: delay_ms });
    proof {
        lemma_view_push(mid, PaintCommand::Delay { ms: delay_ms });
        assert(commands_view(commands@) =~= commands_view(before) + switch_cmds(
            hex@,
            use_hex,
            delay_ms,
        ));
    }
}

/// Append clicks for each point in turn.
fn emit_points(
    pts: &Vec<(u32, u32)>,
    canvas: &ScreenRect,
    img_width: u32,
    img_height: u32,
    commands: &mut Vec<PaintCommand>,
)
    requires
        all_map(pts@, img_width, img_height, *canvas),
    ensures
        commands_view(final(commands)@) == commands_view(old(commands)@) + points_cmds(
            pts@,
            img_width,
            img_height,
            *canvas,
        ),
{
    let ghost start = commands_view(commands@);
    let mut i: usize = 0;
    assert(pts@.skip(0) =~= pts@);
    while i < pts.len()
        invariant
            0 <= i <= pts@.len(),
            all_map(pts@, img_width, img_height, *canvas),
            commands_view(commands@) + points_cmds(pts@.skip(i as int), img_width, img_height, *canvas)
                == start + points_cmds(pts@, img_width, img_height, *canvas),
        decreases pts@.len() - i,
    {
        let ghost before = commands_view(commands@);
        push_pixel(commands, pts[i], canvas, img_width, img_height);
        proof {
            assert(pts@.skip(i as int).drop_first() =~= pts@.skip(i + 1));
            assert(pts@.skip(i as int)[0] == pts@[i as int]);
            assert(commands_view(commands@) + points_cmds(pts@.skip(i + 1), img_width, img_height, *canvas)
                =~= before + points_cmds(pts@.skip(i as int), img_width, img_height, *canvas));
        }
        i += 1;
    }
    proof {
        assert(points_cmds(pts@.skip(i as int), img_width, img_height, *canvas) =~= Seq::empty());
        assert(commands_view(commands@) =~= start + points_cmds(pts@, img_width, img_height, *canvas));
    }
}

/// Append the commands for one segment.
fn push_segment(
    commands: &mut Vec<PaintCommand>,
    seg: PaintSegment,
    canvas: &ScreenRect,
    img_width: u32,
    img_height: u32,
)
    requires
        maps_on_screen(seg_start(seg).0, seg_start(seg).1, img_width, img_height, *canvas),
        maps_on_screen(seg_end(seg).0, seg_end(seg).1, img_width, img_height, *canvas),
    ensures
        commands_view(final(commands)@) == commands_view(old(commands)@) + segment_cmds(
            seg,
            img_width,
            img_height,
            *canvas,
        ),
{
    match seg {
        PaintSegment::Pixel(x, y) => {
            push_pixel(commands, (x, y), canvas, img_width, img_height);
        },
        PaintSegment::HLine { y, x_start, x_end } => {
            let ghost before = commands@;
            // click at the line's start, then shift-click at its end on the same row
            let (sx1, sy1) = pixel_to_screen(x_start, y, img_width, img_height, canvas);
            commands.push(PaintCommand::MoveTo { x: sx1, y: sy1 });
            commands.push(PaintCommand::Click);
            let (sx2, _sy2) = pixel_to_screen(x_end, y, img_width, img_height, canvas);
            let ghost mid = commands@;
            commands.push(PaintCommand::MoveTo { x: sx2, y: sy1 });
            commands.push(PaintCommand::ShiftClick);
            proof {
                lemma_view_push(before, PaintCommand::MoveTo { x: sx1, y: sy1 });
                lemma_view_push(before.push(PaintCommand::MoveTo { x: sx1, y: sy1 }), PaintCommand::Click);
                lemma_view_push(mid, PaintCommand::MoveTo { x: sx2, y: sy1 });
                lemma_view_push(mid.push(PaintCommand::MoveTo { x: sx2, y: sy1 }), PaintCommand::ShiftClick);
                assert(commands_view(commands@) =~= commands_view(before) + segment_cmds(
                    seg,
                    img_width,
                    img_height,
                    *canvas,
                ));
            }
        },
    }
}

/// Emit paint commands for a list of segments.
fn emit_segments(
    segments: &Vec<PaintSegment>,
    canvas: &ScreenRect,
    img_width: u32,
    img_height: u32,
    commands: &mut Vec<PaintCommand>,
)
    requires
        ends_map(segments@, img_width, img_height, *canvas),
    ensures
        commands_view(final(commands)@) == commands_view(old(commands)@) + segments_cmds(
            segments@,
            img_width,
            img_height,
            *canvas,
        ),
{
    let ghost start = commands_view(commands@);
    let mut i: usize = 0;
    assert(segments@.skip(0) =~= segments@);
    while i < segments.len()
        invariant
            0 <= i <= segments@.len(),
            ends_map(segments@, img_width, img_height, *canvas),
            commands_view(commands@) + segments_cmds(segments@.skip(i as int), img_width, img_height, *canvas)
                == start + segments_cmds(segments@, img_width, img_height, *canvas),
        decreases segments@.len() - i,
    {
        let ghost before = commands_view(commands@);
        assert(maps_on_screen(seg_start(segments@[i as int]).0, seg_start(segments@[i as int]).1, img_width, img_height, *canvas));
        push_segment(commands, segments[i], canvas, img_width, img_height);
        proof {
            assert(segments@.skip(i as int).drop_first() =~= segments@.skip(i + 1));
            assert(segments@.skip(i as int)[0] == segments@[i as int]);
            assert(commands_view(commands@) + segments_cmds(segments@.skip(i + 1), img_width, img_height, *canvas)
                =~= before + segments_cmds(segments@.skip(i as int), img_width, img_height, *canvas));
        }
        i += 1;
    }
    proof {
        assert(segments_cmds(segments@.skip(i as int), img_width, img_height, *canvas) =~= Seq::empty());
        assert(commands_view(commands@) =~= start + segments_cmds(segments@, img_width, img_height, *canvas));
    }
}

/// Whether the groups can be planned on the canvas: every pixel maps to
/// representable screen coordinates and the pixel count fits in `usize`.
pub fn can_plan(groups: &[ColorGroup], canvas: &ScreenRect, img_width: u32, img_height: u32) -> (ok: bool)
    ensures
        ok == plannable(groups@, *canvas, img_width, img_height),
{
    let mut total: usize = 0;
    let mut g: usize = 0;
    while g < groups.len()
        invariant
            0 <= g <= groups@.len(),
            total == total_pixel_count(groups@.take(g as int)),
            forall|gg: int, k: int|
                0 <= gg < g && 0 <= k < groups@[gg].pixels@.len() ==> maps_on_screen(
                    #[trigger] groups@[gg].pixels@[k].0,
                    groups@[gg].pixels@[k].1,
                    img_width,
                    img_height,
                    *canvas,
                ),
        decreases groups@.len() - g,
    {
        let pixels = &groups[g].pixels;
        let mut k: usize = 0;
        while k < pixels.len()
            invariant
                0 <= g < groups@.len(),
                pixels@ == groups@[g as int].pixels@,
                0 <= k <= pixels@.len(),
                forall|j: int| 0 <= j < k ==> maps_on_screen(#[trigger] pixels@[j].0, pixels@[j].1, img_width, img_height, *canvas),
            decreases pixels@.len() - k,
        {
            let (x, y) = pixels[k];
            if !maps_to_screen(x, y, img_width, img_height, canvas) {
                proof {
                    assert(!maps_on_screen(groups@[g as int].pixels@[k as int].0, groups@[g as int].pixels@[k as int].1, img_width, img_height, *canvas));
                }
                return false;
            }
            k += 1;
        }
        proof {
            assert(groups@.take(g + 1).drop_last() =~= groups@.take(g as int));
        }
        let n = pixels.len();
        if total > usize::MAX - n {
            proof {
                lemma_total_prefix(groups@, g + 1);
            }
            return false;
        }
        total = total + n;
        g += 1;
    }
    proof {
        assert(groups@.take(g as int) =~= groups@);
    }
    true
}

// ── strategies ─────────────────────────────────────────────────────────

/// Which strategy a value is, with the settings that shape its plans.
pub enum StrategyKind {
    Scanline,
    ColorGrouped,
    LineDraw { min_run_length: u32 },
    Hybrid { min_run_length: u32, optimize: bool },
}

/// The name of each kind of strategy.
pub open spec fn kind_name(k: StrategyKind) -> Seq<char> {
    match k {
        StrategyKind::Scanline => "scanline"@,
        StrategyKind::ColorGrouped => "color-grouped"@,
        StrategyKind::LineDraw { .. } => "line-draw"@,
        StrategyKind::Hybrid { .. } => "hybrid"@,
    }
}

/// The commands a strategy of kind `k` plans for the groups.
pub open spec fn planned_cmds(
    k: StrategyKind,
    groups: Seq<ColorGroup>,
    canvas: ScreenRect,
    img_width: u32,
    img_height: u32,
    use_hex: bool,
    delay_ms: u32,
) -> Seq<CommandView> {
    match k {
        StrategyKind::Scanline => scan_cmds(
            scanline_entries(flat_entries(groups)),
            None,
            use_hex,
            delay_ms,
            img_width,
            img_height,
            canvas,
        ),
        StrategyKind::ColorGrouped => grouped_cmds(groups, use_hex, delay_ms, color_grouped_body(img_width, img_height, canvas)),
        StrategyKind::LineDraw { min_run_length } => grouped_cmds(
            groups,
            use_hex,
            delay_ms,
            line_draw_body(min_run_length, img_width, img_height, canvas),
        ),
        StrategyKind::Hybrid { min_run_length, optimize } => grouped_cmds(
            groups,
            use_hex,
            delay_ms,
            hybrid_body(min_run_length, optimize, img_width, img_height, canvas),
        ),
    }
}

/// The color count a strategy of kind `k` records: the distinct colors for
/// scanline, the number of groups for the others.
pub open spec fn planned_colors(k: StrategyKind, groups: Seq<ColorGroup>) -> int {
    match k {
        StrategyKind::Scanline => entry_colors(flat_entries(groups)).len() as int,
        _ => groups.len() as int,
    }
}

/// A painting strategy: turns color groups into a paint plan.
pub trait PaintStrategy {
    /// Which strategy this is, with its settings.
    spec fn kind(&self) -> StrategyKind;

    /// The strategy's name.
    fn name(&self) -> (n: &str)
        ensures
            n@ == kind_name(self.kind()),
    ;

    /// Generate a paint plan from color groups: the commands of the strategy's
    /// kind, with the pixel count, color count, command count and name recorded.
    fn plan(
        &self,
        groups: &[ColorGroup],
        canvas: &ScreenRect,
        img_width: u32,
        img_height: u32,
        use_hex: bool,
        color_switch_delay_ms: u32,
    ) -> (plan: PaintPlan)
        requires
            plannable(groups@, *canvas, img_width, img_height),
        ensures
            commands_view(plan.commands@) == planned_cmds(
                self.kind(),
                groups@,
                *canvas,
                img_width,
                img_height,
                use_hex,
                color_switch_delay_ms,
            ),
            plan.metadata.total_pixels == total_pixel_count(groups@),
            plan.metadata.total_colors == planned_colors(self.kind(), groups@),
            plan.metadata.total_commands == plan.commands@.len(),
            plan.metadata.strategy_name@ == kind_name(self.kind()),
    ;
}

/// Pixels of a group in nearest-neighbor order, one click each.
pub open spec fn color_grouped_body(w: u32, h: u32, canvas: ScreenRect) -> spec_fn(Seq<(u32, u32)>) -> Seq<CommandView> {
    |ps: Seq<(u32, u32)>| points_cmds(nearest_neighbor_pixels(ps), w, h, canvas)
}

/// Segments of a group as line detection yields them.
pub open spec fn line_draw_body(min_run: u32, w: u32, h: u32, canvas: ScreenRect) -> spec_fn(Seq<(u32, u32)>) -> Seq<CommandView> {
    |ps: Seq<(u32, u32)>| segments_cmds(detected_segments(ps, min_run), w, h, canvas)
}

/// Segment order of the hybrid strategy: detected segments in nearest-neighbor order,
/// then, if asked and there are more than two, improved by 2-opt (at most three passes
/// for more than a thousand segments, else until a pass changes nothing). A vector
/// never holds more than `isize::MAX` segments, so the last bound always holds.
pub open spec fn hybrid_order(ps: Seq<(u32, u32)>, min_run: u32, optimize: bool) -> Seq<PaintSegment> {
    let o = nearest_neighbor_segments(detected_segments(ps, min_run));
    if optimize && o.len() > 2 && o.len() <= isize::MAX {
        two_opt(o, if o.len() > 1000 { 3 } else { 0 })
    } else {
        o
    }
}

/// Segments of a group in the hybrid order.
pub open spec fn hybrid_body(min_run: u32, optimize: bool, w: u32, h: u32, canvas: ScreenRect) -> spec_fn(Seq<(u32, u32)>) -> Seq<CommandView> {
    |ps: Seq<(u32, u32)>| segments_cmds(hybrid_order(ps, min_run, optimize), w, h, canvas)
}

proof fn lemma_group_map(groups: Seq<ColorGroup>, g: int, canvas: ScreenRect, w: u32, h: u32)
    requires
        plannable(groups, canvas, w, h),
        0 <= g < groups.len(),
    ensures
        all_map(groups[g].pixels@, w, h, canvas),
{
    assert forall|k: int| 0 <= k < groups[g].pixels@.len() implies maps_on_screen(
        #[trigger] groups[g].pixels@[k].0,
        groups[g].pixels@[k].1,
        w,
        h,
        canvas,
    ) by {}
}

proof fn lemma_perm_points_map(a: Seq<(u32, u32)>, b: Seq<(u32, u32)>, w: u32, h: u32, canvas: ScreenRect)
    requires
        all_map(a, w, h, canvas),
        b.to_multiset() == a.to_multiset(),
    ensures
        all_map(b, w, h, canvas),
{
    assert forall|k: int| 0 <= k < b.len() implies maps_on_screen(#[trigger] b[k].0, b[k].1, w, h, canvas) by {
        to_multiset_contains(b, b[k]);
        to_multiset_contains(a, b[k]);
        assert(b.contains(b[k]));
        let i = choose|i: int| 0 <= i < a.len() && a[i] == b[k];
        assert(maps_on_screen(a[i].0, a[i].1, w, h, canvas));
    }
}

proof fn lemma_perm_ends_map(a: Seq<PaintSegment>, b: Seq<PaintSegment>, w: u32, h: u32, canvas: ScreenRect)
    requires
        ends_map(a, w, h, canvas),
        b.to_multiset() == a.to_multiset(),
    ensures
        ends_map(b, w, h, canvas),
{
    assert forall|k: int| 0 <= k < b.len() implies maps_on_screen(#[trigger] seg_start(b[k]).0, seg_start(b[k]).1, w, h, canvas)
        && maps_on_screen(seg_end(b[k]).0, seg_end(b[k]).1, w, h, canvas) by {
        to_multiset_contains(b, b[k]);
        to_multiset_contains(a, b[k]);
        assert(b.contains(b[k]));
        let i = choose|i: int| 0 <= i < a.len() && a[i] == b[k];
        assert(maps_on_screen(seg_start(a[i]).0, seg_start(a[i]).1, w, h, canvas));
    }
}

/// Detect the segments of one group's pixels; both ends of each map to the screen.
fn detect_group(pixels: &Vec<(u32, u32)>, min_run_length: u32, canvas: &ScreenRect, img_width: u32, img_height: u32) -> (segments: Vec<PaintSegment>)
    requires
        all_map(pixels@, img_width, img_height, *canvas),
    ensures
        segments@ == detected_segments(pixels@, min_run_length),
        ends_map(segments@, img_width, img_height, *canvas),
{
    let segments = detect_line_segments(pixels.as_slice(), min_run_length);
    proof {
        assert forall|k: int| 0 <= k < segments@.len() implies maps_on_screen(
            #[trigger] seg_start(segments@[k]).0,
            seg_start(segments@[k]).1,
            img_width,
            img_height,
            *canvas,
        ) && maps_on_screen(seg_end(segments@[k]).0, seg_end(segments@[k]).1, img_width, img_height, *canvas) by {
            let a = seg_start(segments@[k]);
            let b = seg_end(segments@[k]);
            assert(pixels@.contains(a));
            assert(pixels@.contains(b));
            let i = choose|i: int| 0 <= i < pixels@.len() && pixels@[i] == a;
            let j = choose|j: int| 0 <= j < pixels@.len() && pixels@[j] == b;
            assert(maps_on_screen(pixels@[i].0, pixels@[i].1, img_width, img_height, *canvas));
            assert(maps_on_screen(pixels@[j].0, pixels@[j].1, img_width, img_height, *canvas));
        }
    }
    segments
}

/// Color-grouped strategy: paints all pixels of one color before switching, each
/// group's pixels in nearest-neighbor order to shorten mouse travel.
pub struct ColorGroupedStrategy;

impl PaintStrategy for ColorGroupedStrategy {
    open spec fn kind(&self) -> StrategyKind {
        StrategyKind::ColorGrouped
    }

    fn name(&self) -> (n: &str)
        ensures
            n@ == "color-grouped"@,
    {
        "color-grouped"
    }

    /// Groups in order, empty ones skipped: [type hex] + delay, then a move and a
    /// click per pixel in nearest-neighbor order.
    fn plan(
        &self,
        groups: &[ColorGroup],
        canvas: &ScreenRect,
        img_width: u32,
        img_height: u32,
        use_hex: bool,
        color_switch_delay_ms: u32,
    ) -> (plan: PaintPlan)
        ensures
            commands_view(plan.commands@) == grouped_cmds(
                groups@,
                use_hex,
                color_switch_delay_ms,
                color_grouped_body(img_width, img_height, *canvas),
            ),
            plan.metadata.total_pixels == total_pixel_count(groups@),
            plan.metadata.total_colors == groups@.len(),
            plan.metadata.total_commands == plan.commands@.len(),
            plan.metadata.strategy_name@ == "color-grouped"@,
    {
        let ghost body = color_grouped_body(img_width, img_height, *canvas);
        let total_pixels = count_pixels(groups);
        let mut commands: Vec<PaintCommand> = Vec::new();
        let mut g: usize = 0;
        assert(groups@.skip(0) =~= groups@);
        while g < groups.len()
            invariant
                0 <= g <= groups@.len(),
                plannable(groups@, *canvas, img_width, img_height),
                body == color_grouped_body(img_width, img_height, *canvas),
                commands_view(commands@) + grouped_cmds(groups@.skip(g as int), use_hex, color_switch_delay_ms, body)
                    == grouped_cmds(groups@, use_hex, color_switch_delay_ms, body),
            decreases groups@.len() - g,
        {
            let group = &groups[g];
            if group.pixels.len() > 0 {
                push_switch(&mut commands, &group.hex, use_hex, color_switch_delay_ms);
                let ordered = nearest_neighbor_order(group.pixels.as_slice());
                proof {
                    lemma_group_map(groups@, g as int, *canvas, img_width, img_height);
                    nearest_neighbor_pixels_is_permutation(group.pixels@);
                    lemma_perm_points_map(group.pixels@, ordered@, img_width, img_height, *canvas);
                }
                emit_points(&ordered, canvas, img_width, img_height, &mut commands);
            }
            proof {
                assert(groups@.skip(g as int).drop_first() =~= groups@.skip(g + 1));
                assert(groups@.skip(g as int)[0] == groups@[g as int]);
            }
            g += 1;
        }
        proof {
            assert(grouped_cmds(groups@.skip(g as int), use_hex, color_switch_delay_ms, body) =~= Seq::empty());
            assert(commands_view(commands@) =~= grouped_cmds(groups@, use_hex, color_switch_delay_ms, body));
        }
        let total_commands = commands.len();
        PaintPlan {
            metadata: PlanMetadata {
                total_pixels,
                total_colors: groups.len(),
                total_commands,
                strategy_name: self.name().to_string(),
            },
            commands,
        }
    }
}

/// Line drawing strategy: horizontal runs of at least `min_run_length` same-color
/// pixels are drawn with a click and a shift-click instead of a click per pixel.
pub struct LineDrawStrategy {
    /// Minimum run length to use line drawing (default: 3).
    pub min_run_length: u32,
}

impl Default for LineDrawStrategy {
    fn default() -> (s: Self)
        ensures
            s.min_run_length == 3,
    {
        LineDrawStrategy { min_run_length: 3 }
    }
}

impl PaintStrategy for LineDrawStrategy {
    open spec fn kind(&self) -> StrategyKind {
        StrategyKind::LineDraw { min_run_length: self.min_run_length }
    }

    fn name(&self) -> (n: &str)
        ensures
            n@ == "line-draw"@,
    {
        "line-draw"
    }

    /// Groups in order, empty ones skipped: [type hex] + delay, then the commands of
    /// each detected segment: lines first, then the pixels on no line.
    fn plan(
        &self,
        groups: &[ColorGroup],
        canvas: &ScreenRect,
        img_width: u32,
        img_height: u32,
        use_hex: bool,
        color_switch_delay_ms: u32,
    ) -> (plan: PaintPlan)
        ensures
            commands_view(plan.commands@) == grouped_cmds(
                groups@,
                use_hex,
                color_switch_delay_ms,
                line_draw_body(self.min_run_length, img_width, img_height, *canvas),
            ),
            plan.metadata.total_pixels == total_pixel_count(groups@),
            plan.metadata.total_colors == groups@.len(),
            plan.metadata.total_commands == plan.commands@.len(),
            plan.metadata.strategy_name@ == "line-draw"@,
    {
        let ghost body = line_draw_body(self.min_run_length, img_width, img_height, *canvas);
        let total_pixels = count_pixels(groups);
        let mut commands: Vec<PaintCommand> = Vec::new();
        let mut g: usize = 0;
        assert(groups@.skip(0) =~= groups@);
        while g < groups.len()
            invariant
                0 <= g <= groups@.len(),
                plannable(groups@, *canvas, img_width, img_height),
                body == line_draw_body(self.min_run_length, img_width, img_height, *canvas),
                commands_view(commands@) + grouped_cmds(groups@.skip(g as int), use_hex, color_switch_delay_ms, body)
                    == grouped_cmds(groups@, use_hex, color_switch_delay_ms, body),
            decreases groups@.len() - g,
        {
            let group = &groups[g];
            if group.pixels.len() > 0 {
                push_switch(&mut commands, &group.hex, use_hex, color_switch_delay_ms);
                proof {
                    lemma_group_map(groups@, g as int, *canvas, img_width, img_height);
                }
                let segments = detect_group(&group.pixels, self.min_run_length, canvas, img_width, img_height);
                emit_segments(&segments, canvas, img_width, img_height, &mut commands);
            }
            proof {
                assert(groups@.skip(g as int).drop_first() =~= groups@.skip(g + 1));
                assert(groups@.skip(g as int)[0] == groups@[g as int]);
            }
            g += 1;
        }
        proof {
            assert(grouped_cmds(groups@.skip(g as int), use_hex, color_switch_delay_ms, body) =~= Seq::empty());
            assert(commands_view(commands@) =~= grouped_cmds(groups@, use_hex, color_switch_delay_ms, body));
        }
        let total_commands = commands.len();
        PaintPlan {
            metadata: PlanMetadata {
                total_pixels,
                total_colors: groups.len(),
                total_commands,
                strategy_name: self.name().to_string(),
            },
            commands,
        }
    }
}

/// Hybrid strategy: line detection per color group, segments in nearest-neighbor
/// order, optionally improved by 2-opt.
pub struct HybridStrategy {
    /// Minimum run length to use line drawing (default: 3).
    pub min_run_length: u32,
    /// Enable 2-opt path optimization (default: true).
    pub optimize: bool,
}

impl Default for HybridStrategy {
    fn default() -> (s: Self)
        ensures
            s.min_run_length == 3,
            s.optimize,
    {
        HybridStrategy { min_run_length: 3, optimize: true }
    }
}

/// Order one group's segments as the hybrid strategy does.
fn hybrid_segments(pixels: &Vec<(u32, u32)>, min_run_length: u32, optimize: bool, canvas: &ScreenRect, img_width: u32, img_height: u32) -> (ordered: Vec<PaintSegment>)
    requires
        all_map(pixels@, img_width, img_height, *canvas),
    ensures
        ordered@ == hybrid_order(pixels@, min_run_length, optimize),
        ends_map(ordered@, img_width, img_height, *canvas),
{
    let segments = detect_group(pixels, min_run_length, canvas, img_width, img_height);
    // order segments by nearest neighbor on their start points
    let mut ordered = nearest_neighbor_order_segments(segments.as_slice());
    proof {
        nearest_neighbor_segments_is_permutation(segments@);
        lemma_perm_ends_map(segments@, ordered@, img_width, img_height, *canvas);
    }
    // optionally apply 2-opt local search to reduce travel distance
    if optimize && ordered.len() > 2 && ordered.len() <= isize::MAX as usize {
        let max_iter: usize = if ordered.len() > 1000 { 3 } else { 0 };
        let ghost before = ordered@;
        optimize_2opt(&mut ordered, max_iter);
        proof {
            two_opt_is_permutation(before, max_iter);
            lemma_perm_ends_map(before, ordered@, img_width, img_height, *canvas);
        }
    }
    ordered
}

impl PaintStrategy for HybridStrategy {
    open spec fn kind(&self) -> StrategyKind {
        StrategyKind::Hybrid { min_run_length: self.min_run_length, optimize: self.optimize }
    }

    fn name(&self) -> (n: &str)
        ensures
            n@ == "hybrid"@,
    {
        "hybrid"
    }

    /// Groups in order, empty ones skipped: [type hex] + delay, then the commands of
    /// the group's segments in the hybrid order.
    fn plan(
        &self,
        groups: &[ColorGroup],
        canvas: &ScreenRect,
        img_width: u32,
        img_height: u32,
        use_hex: bool,
        color_switch_delay_ms: u32,
    ) -> (plan: PaintPlan)
        ensures
            commands_view(plan.commands@) == grouped_cmds(
                groups@,
                use_hex,
                color_switch_delay_ms,
                hybrid_body(self.min_run_length, self.optimize, img_width, img_height, *canvas),
            ),
            plan.metadata.total_pixels == total_pixel_count(groups@),
            plan.metadata.total_colors == groups@.len(),
            plan.metadata.total_commands == plan.commands@.len(),
            plan.metadata.strategy_name@ == "hybrid"@,
    {
        let ghost body = hybrid_body(self.min_run_length, self.optimize, img_width, img_height, *canvas);
        let total_pixels = count_pixels(groups);
        let mut commands: Vec<PaintCommand> = Vec::new();
        let mut g: usize = 0;
        assert(groups@.skip(0) =~= groups@);
        while g < groups.len()
            invariant
                0 <= g <= groups@.len(),
                plannable(groups@, *canvas, img_width, img_height),
                body == hybrid_body(self.min_run_length, self.optimize, img_width, img_height, *canvas),
                commands_view(commands@) + grouped_cmds(groups@.skip(g as int), use_hex, color_switch_delay_ms, body)
                    == grouped_cmds(groups@, use_hex, color_switch_delay_ms, body),
            decreases groups@.len() - g,
        {
            let group = &groups[g];
            if group.pixels.len() > 0 {
                push_switch(&mut commands, &group.hex, use_hex, color_switch_delay_ms);
                proof {
                    lemma_group_map(groups@, g as int, *canvas, img_width, img_height);
                }
                let ordered = hybrid_segments(&group.pixels, self.min_run_length, self.optimize, canvas, img_width, img_height);
                emit_segments(&ordered, canvas, img_width, img_height, &mut commands);
            }
            proof {
                assert(groups@.skip(g as int).drop_first() =~= groups@.skip(g + 1));
                assert(groups@.skip(g as int)[0] == groups@[g as int]);
            }
            g += 1;
        }
        proof {
            assert(grouped_cmds(groups@.skip(g as int), use_hex, color_switch_delay_ms, body) =~= Seq::empty());
            assert(commands_view(commands@) =~= grouped_cmds(groups@, use_hex, color_switch_delay_ms, body));
        }
        let total_commands = commands.len();
        PaintPlan {
            metadata: PlanMetadata {
                total_pixels,
                total_colors: groups.len(),
                total_commands,
                strategy_name: self.name().to_string(),
            },
            commands,
        }
    }
}

// ── scanline ───────────────────────────────────────────────────────────

/// One pixel of a group, with the group's color and hex code.
pub open spec fn group_entries(g: ColorGroup) -> Seq<(u32, u32, (u8, u8, u8), Seq<char>)> {
    g.pixels@.map_values(|p: (u32, u32)| (p.0, p.1, g.color, g.hex@))
}

/// All pixels of all groups, group by group, each with its group's color and hex code.
pub open spec fn flat_entries(groups: Seq<ColorGroup>) -> Seq<(u32, u32, (u8, u8, u8), Seq<char>)>
    decreases groups.len(),
{
    if groups.len() == 0 {
        Seq::empty()
    } else {
        flat_entries(groups.drop_last()) + group_entries(groups.last())
    }
}

/// Sort key of entry `i`: its position (row, then column), then its index.
pub open spec fn scan_key(e: (u32, u32, (u8, u8, u8), Seq<char>), i: int) -> int {
    pos_key(e.0, e.1) * 18446744073709551616 + i
}

/// The sort keys of the entries, in entry order.
pub open spec fn scan_keys(entries: Seq<(u32, u32, (u8, u8, u8), Seq<char>)>) -> Seq<u128> {
    Seq::new(entries.len(), |i: int| scan_key(entries[i], i) as u128)
}

/// The order `<=` on keys.
pub open spec fn key_le() -> spec_fn(u128, u128) -> bool {
    |a: u128, b: u128| a <= b
}

/// Entries ordered by row, then column; entries at the same position keep their order.
pub open spec fn scanline_entries(entries: Seq<(u32, u32, (u8, u8, u8), Seq<char>)>) -> Seq<(u32, u32, (u8, u8, u8), Seq<char>)> {
    scan_keys(entries).sort_by(key_le()).map_values(|k: u128| entries[(k % 18446744073709551616) as int])
}

/// Scanline commands: a color switch whenever the color differs from the previous
/// pixel's (`prev`), then a move and a click for the pixel.
pub open spec fn scan_cmds(
    ord: Seq<(u32, u32, (u8, u8, u8), Seq<char>)>,
    prev: Option<(u8, u8, u8)>,
    use_hex: bool,
    delay_ms: u32,
    w: u32,
    h: u32,
    canvas: ScreenRect,
) -> Seq<CommandView>
    decreases ord.len(),
{
    if ord.len() == 0 {
        Seq::empty()
    } else {
        let e = ord[0];
        let switch = if prev != Some(e.2) {
            switch_cmds(e.3, use_hex, delay_ms)
        } else {
            Seq::empty()
        };
        switch + pixel_cmds((e.0, e.1), w, h, canvas) + scan_cmds(
            ord.drop_first(),
            Some(e.2),
            use_hex,
            delay_ms,
            w,
            h,
            canvas,
        )
    }
}

/// The distinct colors of the entries.
pub open spec fn entry_colors(entries: Seq<(u32, u32, (u8, u8, u8), Seq<char>)>) -> Set<(u8, u8, u8)> {
    entries.map_values(|e: (u32, u32, (u8, u8, u8), Seq<char>)| e.2).to_set()
}

/// Entry `k` of group `g`.
pub open spec fn entry_at(groups: Seq<ColorGroup>, g: int, k: int) -> (u32, u32, (u8, u8, u8), Seq<char>) {
    (groups[g].pixels@[k].0, groups[g].pixels@[k].1, groups[g].color, groups[g].hex@)
}

/// Where each entry came from, as (group index, pixel index).
pub open spec fn origins_of(groups: Seq<ColorGroup>, entries: Seq<(u32, u32, (u8, u8, u8), Seq<char>)>, origin: Seq<(usize, usize)>) -> bool {
    &&& origin.len() == entries.len()
    &&& forall|i: int|
        0 <= i < origin.len() ==> {
            let o = #[trigger] origin[i];
            &&& o.0 < groups.len()
            &&& o.1 < groups[o.0 as int].pixels@.len()
            &&& entries[i] == entry_at(groups, o.0 as int, o.1 as int)
        }
}

proof fn lemma_flat_entries_len(groups: Seq<ColorGroup>)
    ensures
        flat_entries(groups).len() == total_pixel_count(groups),
    decreases groups.len(),
{
    if groups.len() > 0 {
        lemma_flat_entries_len(groups.drop_last());
    }
}

proof fn lemma_scan_key_bounds(e: (u32, u32, (u8, u8, u8), Seq<char>), i: int)
    requires
        0 <= i < 18446744073709551616,
    ensures
        0 <= scan_key(e, i) < 340282366920938463463374607431768211456,
        scan_key(e, i) % 18446744073709551616 == i,
{
    let pk = pos_key(e.0, e.1);
    assert(0 <= pk <= 18446744073709551615);
    assert(0 <= pk * 18446744073709551616 <= 18446744073709551615 * 18446744073709551616) by (nonlinear_arith)
        requires
            0 <= pk <= 18446744073709551615,
    ;
    vstd::arithmetic::div_mod::lemma_fundamental_div_mod_converse(
        scan_key(e, i),
        18446744073709551616,
        pk,
        i,
    );
}

/// The sort keys of all entries, and where each entry came from.
fn scan_index(groups: &[ColorGroup]) -> (r: (Vec<u128>, Vec<(usize, usize)>))
    requires
        total_pixel_count(groups@) <= usize::MAX,
    ensures
        r.0@ == scan_keys(flat_entries(groups@)),
        origins_of(groups@, flat_entries(groups@), r.1@),
{
    let mut keys: Vec<u128> = Vec::new();
    let mut origin: Vec<(usize, usize)> = Vec::new();
    let ghost mut ents: Seq<(u32, u32, (u8, u8, u8), Seq<char>)> = Seq::empty();
    let mut g: usize = 0;
    while g < groups.len()
        invariant
            0 <= g <= groups@.len(),
            total_pixel_count(groups@) <= usize::MAX,
            ents == flat_entries(groups@.take(g as int)),
            keys@ == scan_keys(ents),
            origins_of(groups@, ents, origin@),
        decreases groups@.len() - g,
    {
        let ghost base = ents;
        let ghost ge = group_entries(groups@[g as int]);
        proof {
            lemma_flat_entries_len(groups@.take(g + 1));
            lemma_total_prefix(groups@, g + 1);
            assert(groups@.take(g + 1).drop_last() =~= groups@.take(g as int));
            assert(flat_entries(groups@.take(g + 1)) == base + ge);
        }
        let pixels = &groups[g].pixels;
        let mut k: usize = 0;
        while k < pixels.len()
            invariant
                0 <= g < groups@.len(),
                0 <= k <= pixels@.len(),
                pixels@ == groups@[g as int].pixels@,
                ge == group_entries(groups@[g as int]),
                base.len() + ge.len() <= usize::MAX,
                ents == base + ge.take(k as int),
                keys@ == scan_keys(ents),
                origins_of(groups@, ents, origin@),
            decreases pixels@.len() - k,
        {
            let (x, y) = pixels[k];
            let i = keys.len();
            let ghost e = entry_at(groups@, g as int, k as int);
            proof {
                lemma_scan_key_bounds(e, i as int);
                lemma_key_decode(x, y);
            }
            let key: u128 = (y as u128 * 4294967296 + x as u128) * 18446744073709551616 + i as u128;
            keys.push(key);
            origin.push((g, k));
            proof {
                ents = ents.push(e);
                assert(ge.take(k + 1) =~= ge.take(k as int).push(e));
                assert(scan_keys(ents) =~= keys@);
            }
            k += 1;
        }
        proof {
            assert(ge.take(k as int) =~= ge);
        }
        g += 1;
    }
    proof {
        assert(groups@.take(g as int) =~= groups@);
    }
    (keys, origin)
}

/// Number of distinct colors among the entries.
fn count_colors(groups: &[ColorGroup], origin: &Vec<(usize, usize)>) -> (n: usize)
    requires
        origins_of(groups@, flat_entries(groups@), origin@),
    ensures
        n == entry_colors(flat_entries(groups@)).len(),
{
    let ghost ents = flat_entries(groups@);
    let mut seen: Vec<(u8, u8, u8)> = Vec::new();
    let mut i: usize = 0;
    while i < origin.len()
        invariant
            0 <= i <= origin@.len(),
            ents == flat_entries(groups@),
            origins_of(groups@, ents, origin@),
            seen@.no_duplicates(),
            seen@.to_set() == entry_colors(ents.take(i as int)),
        decreases origin@.len() - i,
    {
        let (g, _k) = origin[i];
        let c = groups[g].color;
        assert(ents[i as int].2 == c);
        let mut found = false;
        let mut m: usize = 0;
        while m < seen.len()
            invariant
                0 <= m <= seen@.len(),
                found <==> seen@.take(m as int).contains(c),
            decreases seen@.len() - m,
        {
            let d = seen[m];
            if d.0 == c.0 && d.1 == c.1 && d.2 == c.2 {
                found = true;
            }
            proof {
                assert((d.0 == c.0 && d.1 == c.1 && d.2 == c.2) <==> d == c);
                assert(seen@.take(m + 1) =~= seen@.take(m as int).push(d));
                seen@.take(m as int).lemma_push_to_set_commute(d);
                assert(seen@.take(m + 1).contains(c) <==> seen@.take(m + 1).to_set().contains(c));
                assert(seen@.take(m as int).contains(c) <==> seen@.take(m as int).to_set().contains(c));
            }
            m += 1;
        }
        proof {
            assert(seen@.take(m as int) =~= seen@);
        }
        let ghost prev = seen@;
        if !found {
            seen.push(c);
        }
        proof {
            let cs = |e: (u32, u32, (u8, u8, u8), Seq<char>)| e.2;
            assert(ents.take(i + 1).map_values(cs) =~= ents.take(i as int).map_values(cs).push(c));
            ents.take(i as int).map_values(cs).lemma_push_to_set_commute(c);
            assert(entry_colors(ents.take(i + 1)) =~= entry_colors(ents.take(i as int)).insert(c));
            if found {
                assert(prev.contains(c));
                assert(prev.to_set().contains(c));
                assert(seen@.to_set() =~= prev.to_set().insert(c));
            } else {
                assert(seen@ == prev.push(c));
                prev.lemma_push_to_set_commute(c);
                assert(seen@.to_set() =~= prev.to_set().insert(c));
            }
        }
        i += 1;
    }
    proof {
        assert(ents.take(i as int) =~= ents);
        seen@.unique_seq_to_set();
    }
    seen.len()
}

proof fn lemma_key_le_total()
    ensures
        vstd::relations::total_ordering(key_le()),
{
    let le = key_le();
    assert(vstd::relations::reflexive(le));
    assert(vstd::relations::antisymmetric(le));
    assert(vstd::relations::transitive(le));
    assert(vstd::relations::strongly_connected(le));
}

/// Simple scanline strategy: paints row by row, switching colors as needed.
pub struct ScanlineStrategy;

impl PaintStrategy for ScanlineStrategy {
    open spec fn kind(&self) -> StrategyKind {
        StrategyKind::Scanline
    }

    fn name(&self) -> (n: &str)
        ensures
            n@ == "scanline"@,
    {
        "scanline"
    }

    /// All pixels ordered by row, then column (pixels at one position keep their
    /// group order); a color switch ([type hex] + delay) before each pixel whose color
    /// differs from the previous one's, then a move and a click.
    fn plan(
        &self,
        groups: &[ColorGroup],
        canvas: &ScreenRect,
        img_width: u32,
        img_height: u32,
        use_hex: bool,
        color_switch_delay_ms: u32,
    ) -> (plan: PaintPlan)
        ensures
            commands_view(plan.commands@) == scan_cmds(
                scanline_entries(flat_entries(groups@)),
                None,
                use_hex,
                color_switch_delay_ms,
                img_width,
                img_height,
                *canvas,
            ),
            plan.metadata.total_pixels == total_pixel_count(groups@),
            plan.metadata.total_colors == entry_colors(flat_entries(groups@)).len(),
            plan.metadata.total_commands == plan.commands@.len(),
            plan.metadata.strategy_name@ == "scanline"@,
    {
        let ghost ents = flat_entries(groups@);
        let (mut keys, origin) = scan_index(groups);
        let ghost unsorted = keys@;
        sort_keys(&mut keys);
        proof {
            lemma_key_le_total();
            unsorted.lemma_sort_by_ensures(key_le());
            lemma_sorted_unique(keys@, unsorted.sort_by(key_le()), key_le());
            lemma_flat_entries_len(groups@);
            vstd::seq_lib::to_multiset_len(keys@);
            vstd::seq_lib::to_multiset_len(unsorted);
        }
        let ghost ord = scanline_entries(ents);
        let total_pixels = keys.len();
        let mut commands: Vec<PaintCommand> = Vec::new();
        let mut current: Option<(u8, u8, u8)> = None;
        let mut t: usize = 0;
        assert(ord.skip(0) =~= ord);
        while t < keys.len()
            invariant
                0 <= t <= keys@.len(),
                ents == flat_entries(groups@),
                keys@.len() == ents.len(),
                ents.len() <= usize::MAX,
                unsorted == scan_keys(ents),
                keys@ == unsorted.sort_by(key_le()),
                keys@.to_multiset() == unsorted.to_multiset(),
                ord == scanline_entries(ents),
                ord.len() == keys@.len(),
                origins_of(groups@, ents, origin@),
                plannable(groups@, *canvas, img_width, img_height),
                commands_view(commands@) + scan_cmds(
                    ord.skip(t as int),
                    current,
                    use_hex,
                    color_switch_delay_ms,
                    img_width,
                    img_height,
                    *canvas,
                ) == scan_cmds(ord, None, use_hex, color_switch_delay_ms, img_width, img_height, *canvas),
            decreases keys@.len() - t,
        {
            let key = keys[t];
            let ghost i: int;
            proof {
                assert(keys@.contains(key));
                to_multiset_contains(keys@, key);
                to_multiset_contains(unsorted, key);
                i = choose|i: int| 0 <= i < unsorted.len() && unsorted[i] == key;
                lemma_scan_key_bounds(ents[i], i);
                assert(ord[t as int] == ents[i]);
            }
            let idx = (key % 18446744073709551616) as usize;
            assert(idx == i);
            let (g, k) = origin[idx];
            let p = groups[g].pixels[k];
            let color = groups[g].color;
            let switch = match current {
                Some(c) => !(c.0 == color.0 && c.1 == color.1 && c.2 == color.2),
                None => true,
            };
            let ghost before = commands_view(commands@);
            let ghost cur0 = current;
            if switch {
                push_switch(&mut commands, &groups[g].hex, use_hex, color_switch_delay_ms);
                current = Some(color);
            }
            assert(maps_on_screen(groups@[g as int].pixels@[k as int].0, groups@[g as int].pixels@[k as int].1, img_width, img_height, *canvas));
            push_pixel(&mut commands, p, canvas, img_width, img_height);
            proof {
                let rest = ord.skip(t as int);
                assert(rest[0] == ord[t as int]);
                assert(rest.drop_first() =~= ord.skip(t + 1));
                assert(switch == (cur0 != Some(rest[0].2)));
                assert(commands_view(commands@) + scan_cmds(
                    ord.skip(t + 1),
                    current,
                    use_hex,
                    color_switch_delay_ms,
                    img_width,
                    img_height,
                    *canvas,
                ) =~= before + scan_cmds(rest, cur0, use_hex, color_switch_delay_ms, img_width, img_height, *canvas));
            }
            t += 1;
        }
        proof {
            assert(scan_cmds(ord.skip(t as int), current, use_hex, color_switch_delay_ms, img_width, img_height, *canvas) =~= Seq::empty());
            assert(commands_view(commands@) =~= scan_cmds(ord, None, use_hex, color_switch_delay_ms, img_width, img_height, *canvas));
        }
        let total_colors = count_colors(groups, &origin);
        let total_commands = commands.len();
        PaintPlan {
            metadata: PlanMetadata {
                total_pixels,
                total_colors,
                total_commands,
                strategy_name: self.name().to_string(),
            },
            commands,
        }
    }
}

// ── what the strategies paint ──────────────────────────────────────────

proof fn lemma_perm_contains<A>(a: Seq<A>, b: Seq<A>, x: A)
    requires
        a.to_multiset() == b.to_multiset(),
    ensures
        a.contains(x) <==> b.contains(x),
{
    to_multiset_contains(a, x);
    to_multiset_contains(b, x);
}

proof fn lemma_perm_covers(a: Seq<PaintSegment>, b: Seq<PaintSegment>, p: (u32, u32))
    requires
        a.to_multiset() == b.to_multiset(),
    ensures
        (exists|k: int| 0 <= k < a.len() && covers(#[trigger] a[k], p)) <==> (exists|k: int|
            0 <= k < b.len() && covers(#[trigger] b[k], p)),
{
    if exists|k: int| 0 <= k < a.len() && covers(#[trigger] a[k], p) {
        let k = choose|k: int| 0 <= k < a.len() && covers(#[trigger] a[k], p);
        assert(a.contains(a[k]));
        lemma_perm_contains(a, b, a[k]);
        let j = choose|j: int| 0 <= j < b.len() && b[j] == a[k];
        assert(covers(b[j], p));
    }
    if exists|k: int| 0 <= k < b.len() && covers(#[trigger] b[k], p) {
        let k = choose|k: int| 0 <= k < b.len() && covers(#[trigger] b[k], p);
        assert(b.contains(b[k]));
        lemma_perm_contains(a, b, b[k]);
        let j = choose|j: int| 0 <= j < a.len() && a[j] == b[k];
        assert(covers(a[j], p));
    }
}

/// All strategies paint the same final image: within each color group, the pixels
/// the color-grouped order clicks, the positions the detected lines and pixels of
/// the line-draw strategy paint, and those the hybrid order paints are exactly the
/// group's pixels.
pub proof fn strategies_paint_the_group_pixels(ps: Seq<(u32, u32)>, min_run: u32, optimize: bool, p: (u32, u32))
    ensures
        nearest_neighbor_pixels(ps).contains(p) <==> ps.contains(p),
        (exists|k: int|
            0 <= k < detected_segments(ps, min_run).len() && covers(#[trigger] detected_segments(ps, min_run)[k], p))
            <==> ps.contains(p),
        (exists|k: int|
            0 <= k < hybrid_order(ps, min_run, optimize).len() && covers(
                #[trigger] hybrid_order(ps, min_run, optimize)[k],
                p,
            )) <==> ps.contains(p),
{
    nearest_neighbor_pixels_is_permutation(ps);
    lemma_perm_contains(nearest_neighbor_pixels(ps), ps, p);
    detected_segments_cover_exactly(ps, min_run, p);
    let d = detected_segments(ps, min_run);
    let o = nearest_neighbor_segments(d);
    nearest_neighbor_segments_is_permutation(d);
    if optimize && o.len() > 2 && o.len() <= isize::MAX {
        two_opt_is_permutation(o, if o.len() > 1000 { 3 } else { 0 });
    }
    lemma_perm_covers(hybrid_order(ps, min_run, optimize), d, p);
}

proof fn lemma_map_perm<A, B>(a: Seq<A>, b: Seq<A>, f: spec_fn(A) -> B)
    requires
        a.to_multiset() == b.to_multiset(),
    ensures
        a.map_values(f).to_multiset() == b.map_values(f).to_multiset(),
    decreases a.len(),
{
    broadcast use vstd::seq_lib::group_to_multiset_ensures;
    broadcast use vstd::multiset::group_multiset_axioms;

    if a.len() == 0 {
        assert(a.to_multiset().len() == 0);
        assert(b.to_multiset().len() == b.len());
        assert(b.len() == 0);
        assert(a.map_values(f) =~= Seq::<B>::empty());
        assert(b.map_values(f) =~= Seq::<B>::empty());
    } else {
        let x = a.last();
        let a1 = a.drop_last();
        assert(a1.push(x) =~= a);
        assert(a.contains(x));
        assert(a.to_multiset().count(x) > 0);
        assert(b.to_multiset().count(x) > 0);
        assert(b.contains(x));
        let j = choose|j: int| 0 <= j < b.len() && b[j] == x;
        let b1 = b.remove(j);
        assert(a1.to_multiset() =~= b1.to_multiset()) by {
            assert forall|v: A| a1.to_multiset().count(v) == b1.to_multiset().count(v) by {
                assert(a.to_multiset().count(v) == a1.to_multiset().count(v) + if v == x { 1int } else { 0int });
            }
        }
        lemma_map_perm(a1, b1, f);
        assert(a.map_values(f) =~= a1.map_values(f).push(f(x)));
        assert(b.map_values(f).remove(j) =~= b1.map_values(f));
        let bm = b.map_values(f);
        assert(bm[j] == f(x));
        assert(bm.to_multiset().count(f(x)) > 0) by {
            assert(bm.contains(f(x)));
        }
        assert forall|v: B| a.map_values(f).to_multiset().count(v) == bm.to_multiset().count(v) by {
            assert(bm.remove(j).to_multiset().count(v) == bm.to_multiset().count(v) - if v == f(x) { 1int } else { 0int });
        }
        assert(a.map_values(f).to_multiset() =~= bm.to_multiset());
    }
}

/// Scanline paints row by row, left to right: its order holds each pixel entry
/// exactly as often as the groups do, ascending by row and then column, and
/// entries at one position keep their group order.
pub proof fn scanline_order_is_sorted_permutation(entries: Seq<(u32, u32, (u8, u8, u8), Seq<char>)>)
    requires
        entries.len() <= 18446744073709551616,
    ensures
        scanline_entries(entries).to_multiset() == entries.to_multiset(),
        forall|i: int, j: int|
            0 <= i < j < scanline_entries(entries).len() ==> pos_key(
                #[trigger] scanline_entries(entries)[i].0,
                scanline_entries(entries)[i].1,
            ) <= pos_key(#[trigger] scanline_entries(entries)[j].0, scanline_entries(entries)[j].1),
{
    broadcast use vstd::seq_lib::group_to_multiset_ensures;

    let keys = scan_keys(entries);
    let f = |k: u128| entries[(k % 18446744073709551616) as int];
    assert forall|i: int| 0 <= i < keys.len() implies #[trigger] keys[i] == scan_key(entries[i], i) && keys[i]
        % 18446744073709551616 == i && keys[i] / 18446744073709551616 == pos_key(entries[i].0, entries[i].1) by {
        lemma_scan_key_bounds(entries[i], i);
        lemma_key_decode(entries[i].0, entries[i].1);
        vstd::arithmetic::div_mod::lemma_fundamental_div_mod_converse(
            scan_key(entries[i], i),
            18446744073709551616,
            pos_key(entries[i].0, entries[i].1),
            i,
        );
    }
    assert(keys.map_values(f) =~= entries);
    lemma_key_le_total();
    keys.lemma_sort_by_ensures(key_le());
    let sorted = keys.sort_by(key_le());
    lemma_map_perm(sorted, keys, f);
    let ord = scanline_entries(entries);
    assert(ord == sorted.map_values(f));
    assert forall|i: int| 0 <= i < sorted.len() implies pos_key(#[trigger] ord[i].0, ord[i].1) == sorted[i]
        / 18446744073709551616 by {
        assert(sorted.contains(sorted[i]));
        assert(sorted.to_multiset().count(sorted[i]) > 0);
        assert(keys.to_multiset().count(sorted[i]) > 0);
        assert(keys.contains(sorted[i]));
        let m = choose|m: int| 0 <= m < keys.len() && keys[m] == sorted[i];
        assert(ord[i] == entries[m]);
    }
    assert forall|i: int, j: int| 0 <= i < j < ord.len() implies pos_key(#[trigger] ord[i].0, ord[i].1) <= pos_key(
        #[trigger] ord[j].0,
        ord[j].1,
    ) by {
        assert(key_le()(sorted[i], sorted[j]));
        vstd::arithmetic::div_mod::lemma_div_is_ordered(sorted[i] as int, sorted[j] as int, 18446744073709551616);
    }
}

} // verus!
