use rustbrush::painting::ordering::{nearest_neighbor_order, nearest_neighbor_order_segments};
use rustbrush::painting::segments::{detect_line_segments, PaintSegment};
use rustbrush::painting::strategy::{
    ColorGroupedStrategy, HybridStrategy, LineDrawStrategy, PaintStrategy, ScanlineStrategy,
};
use rustbrush::painting::{ColorGroup, PaintCommand, ScreenRect};

fn is_hline(s: &PaintSegment) -> bool {
    matches!(s, PaintSegment::HLine { .. })
}

fn is_pixel(s: &PaintSegment) -> bool {
    matches!(s, PaintSegment::Pixel(_, _))
}

#[test]
fn test_nearest_neighbor_order() {
    let pixels = vec![(0, 0), (10, 10), (1, 1), (9, 9)];
    let ordered = nearest_neighbor_order(&pixels);
    assert_eq!(ordered.len(), 4);
    assert_eq!(ordered[0], (0, 0));
    assert_eq!(ordered[1], (1, 1));
}

#[test]
fn test_scanline_strategy_generates_commands() {
    let groups = vec![ColorGroup {
        color: (255, 0, 0),
        hex: "FF0000".to_string(),
        pixels: vec![(0, 0), (1, 0)],
    }];
    let canvas = ScreenRect { x: 100, y: 100, width: 200, height: 200 };
    let strategy = ScanlineStrategy;
    let plan = strategy.plan(&groups, &canvas, 10, 10, true, 30);
    assert_eq!(plan.metadata.total_pixels, 2);
    assert!(!plan.commands.is_empty());
}

#[test]
fn test_color_grouped_strategy_generates_commands() {
    let groups = vec![
        ColorGroup { color: (255, 0, 0), hex: "FF0000".to_string(), pixels: vec![(0, 0), (5, 5)] },
        ColorGroup { color: (0, 0, 255), hex: "0000FF".to_string(), pixels: vec![(1, 1)] },
    ];
    let canvas = ScreenRect { x: 0, y: 0, width: 100, height: 100 };
    let strategy = ColorGroupedStrategy;
    let plan = strategy.plan(&groups, &canvas, 10, 10, true, 30);
    assert_eq!(plan.metadata.total_pixels, 3);
    assert_eq!(plan.metadata.total_colors, 2);
}

#[test]
fn test_detect_line_segments_horizontal_run() {
    let pixels: Vec<(u32, u32)> = (0..5).map(|x| (x, 0)).collect();
    let segments = detect_line_segments(&pixels, 3);

    let lines: Vec<&PaintSegment> = segments.iter().filter(|s| is_hline(s)).collect();
    assert_eq!(lines.len(), 1);

    if let PaintSegment::HLine { y, x_start, x_end } = lines[0] {
        assert_eq!(*y, 0);
        assert_eq!(*x_start, 0);
        assert_eq!(*x_end, 4);
    }

    let singles: Vec<&PaintSegment> = segments.iter().filter(|s| is_pixel(s)).collect();
    assert_eq!(singles.len(), 0);
}

#[test]
fn test_detect_line_segments_short_run_stays_as_pixels() {
    let pixels = vec![(0, 0), (1, 0)];
    let segments = detect_line_segments(&pixels, 3);

    let singles: Vec<&PaintSegment> = segments.iter().filter(|s| is_pixel(s)).collect();
    assert_eq!(singles.len(), 2);

    let lines: Vec<&PaintSegment> = segments.iter().filter(|s| is_hline(s)).collect();
    assert_eq!(lines.len(), 0);
}

#[test]
fn test_detect_line_segments_mixed() {
    let pixels = vec![(0, 0), (1, 0), (2, 0), (3, 0), (6, 0)];
    let segments = detect_line_segments(&pixels, 3);

    let total_pixels: u32 = segments.iter().map(|s| s.pixel_count()).sum();
    assert_eq!(total_pixels, 5);

    let lines: Vec<&PaintSegment> = segments.iter().filter(|s| is_hline(s)).collect();
    assert_eq!(lines.len(), 1);

    let singles: Vec<&PaintSegment> = segments.iter().filter(|s| is_pixel(s)).collect();
    assert_eq!(singles.len(), 1);
}

#[test]
fn test_line_draw_strategy_uses_shift_click() {
    let groups = vec![ColorGroup {
        color: (255, 0, 0),
        hex: "FF0000".to_string(),
        pixels: (0..10).map(|x| (x, 0)).collect(),
    }];
    let canvas = ScreenRect { x: 0, y: 0, width: 100, height: 100 };
    let strategy = LineDrawStrategy::default();
    let plan = strategy.plan(&groups, &canvas, 100, 100, true, 30);

    let shift_clicks = plan.commands.iter().filter(|c| matches!(c, PaintCommand::ShiftClick)).count();
    assert!(shift_clicks > 0, "Line draw strategy should use ShiftClick");

    let clicks = plan.commands.iter().filter(|c| matches!(c, PaintCommand::Click)).count();
    assert_eq!(clicks, 1);
    assert_eq!(shift_clicks, 1);
}

#[test]
fn test_hybrid_strategy_fewer_commands_than_color_grouped() {
    let pixels: Vec<(u32, u32)> = (0..50).map(|x| (x, 5)).collect();
    let groups = vec![ColorGroup { color: (255, 0, 0), hex: "FF0000".to_string(), pixels }];
    let canvas = ScreenRect { x: 0, y: 0, width: 500, height: 500 };

    let grouped_plan = ColorGroupedStrategy.plan(&groups, &canvas, 100, 100, true, 30);
    let hybrid_plan = HybridStrategy::default().plan(&groups, &canvas, 100, 100, true, 30);

    assert!(
        hybrid_plan.metadata.total_commands < grouped_plan.metadata.total_commands,
        "Hybrid ({}) should produce fewer commands than color-grouped ({}) for solid runs",
        hybrid_plan.metadata.total_commands,
        grouped_plan.metadata.total_commands
    );
}

#[test]
fn test_detect_line_segments_multiple_rows() {
    let mut pixels = Vec::new();
    for y in 0..3 {
        for x in 0..5 {
            pixels.push((x, y));
        }
    }
    let segments = detect_line_segments(&pixels, 3);

    let lines: Vec<&PaintSegment> = segments.iter().filter(|s| is_hline(s)).collect();
    assert_eq!(lines.len(), 3, "Should detect 3 horizontal line segments (one per row)");
}

#[test]
fn test_detect_line_segments_preserves_all_pixels() {
    let pixels = vec![
        (0, 0), (1, 0), (2, 0), (3, 0),
        (0, 1), (2, 1),
        (5, 3), (6, 3), (7, 3), (8, 3), (9, 3),
    ];
    let segments = detect_line_segments(&pixels, 3);

    let total: u32 = segments.iter().map(|s| s.pixel_count()).sum();
    assert_eq!(total, pixels.len() as u32);
}

#[test]
fn detected_lines_come_first_in_row_order_then_singles_in_input_order() {
    let pixels = vec![(9, 4), (5, 2), (6, 2), (7, 2), (0, 0), (1, 0), (2, 0), (4, 0)];
    let segments = detect_line_segments(&pixels, 3);
    assert_eq!(
        segments,
        vec![
            PaintSegment::HLine { y: 0, x_start: 0, x_end: 2 },
            PaintSegment::HLine { y: 2, x_start: 5, x_end: 7 },
            PaintSegment::Pixel(9, 4),
            PaintSegment::Pixel(4, 0),
        ]
    );
}

#[test]
fn scanline_switches_color_when_it_changes() {
    let groups = vec![
        ColorGroup { color: (255, 0, 0), hex: "FF0000".to_string(), pixels: vec![(1, 0), (0, 1)] },
        ColorGroup { color: (0, 0, 255), hex: "0000FF".to_string(), pixels: vec![(0, 0)] },
    ];
    let canvas = ScreenRect { x: 0, y: 0, width: 10, height: 10 };
    let plan = ScanlineStrategy.plan(&groups, &canvas, 10, 10, true, 7);
    let hex = |h: &str| PaintCommand::SelectColorByHex { hex: h.to_string() };
    let expected = vec![
        hex("0000FF"),
        PaintCommand::Delay { ms: 7 },
        PaintCommand::MoveTo { x: 0, y: 0 },
        PaintCommand::Click,
        hex("FF0000"),
        PaintCommand::Delay { ms: 7 },
        PaintCommand::MoveTo { x: 1, y: 0 },
        PaintCommand::Click,
        PaintCommand::MoveTo { x: 0, y: 1 },
        PaintCommand::Click,
    ];
    assert_eq!(format!("{:?}", plan.commands), format!("{:?}", expected));
    assert_eq!(plan.metadata.total_colors, 2);
    assert_eq!(plan.metadata.total_commands, 10);
    assert_eq!(plan.metadata.strategy_name, "scanline");
}

#[test]
fn grouped_strategies_skip_empty_groups_and_omit_hex_when_asked() {
    let groups = vec![
        ColorGroup { color: (1, 2, 3), hex: "010203".to_string(), pixels: vec![] },
        ColorGroup { color: (255, 0, 0), hex: "FF0000".to_string(), pixels: vec![(2, 2)] },
    ];
    let canvas = ScreenRect { x: 0, y: 0, width: 4, height: 4 };
    let plan = ColorGroupedStrategy.plan(&groups, &canvas, 4, 4, false, 5);
    assert_eq!(
        format!("{:?}", plan.commands),
        format!("{:?}", vec![PaintCommand::Delay { ms: 5 }, PaintCommand::MoveTo { x: 2, y: 2 }, PaintCommand::Click])
    );
    assert_eq!(plan.metadata.total_colors, 2);
    assert_eq!(plan.metadata.total_pixels, 1);
}

#[test]
fn line_commands_click_start_and_shift_click_end() {
    let groups = vec![ColorGroup {
        color: (0, 0, 0),
        hex: "000000".to_string(),
        pixels: vec![(1, 3), (2, 3), (3, 3)],
    }];
    let canvas = ScreenRect { x: 10, y: 20, width: 20, height: 20 };
    let plan = HybridStrategy::default().plan(&groups, &canvas, 10, 10, true, 0);
    let expected = vec![
        PaintCommand::SelectColorByHex { hex: "000000".to_string() },
        PaintCommand::Delay { ms: 0 },
        PaintCommand::MoveTo { x: 12, y: 26 },
        PaintCommand::Click,
        PaintCommand::MoveTo { x: 16, y: 26 },
        PaintCommand::ShiftClick,
    ];
    assert_eq!(format!("{:?}", plan.commands), format!("{:?}", expected));
    assert_eq!(plan.metadata.strategy_name, "hybrid");
}

#[test]
fn nearest_neighbor_segments_follow_line_ends() {
    let segs = vec![
        PaintSegment::HLine { y: 0, x_start: 0, x_end: 50 },
        PaintSegment::Pixel(0, 1),
        PaintSegment::Pixel(51, 0),
    ];
    let ordered = nearest_neighbor_order_segments(&segs);
    assert_eq!(ordered, vec![segs[0], segs[2], segs[1]]);
}
