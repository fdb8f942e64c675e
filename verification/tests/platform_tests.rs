use rustbrush::painting::{PaintCommand, PaintPlan, PlanMetadata};
use rustbrush::platform::capture::{has_similar_color, is_ui_background, sample_palette_colors, select_colors_by_click, PaletteEntry};
use rustbrush::platform::executor::{command_actions, ExecutionResult, ExecutorState, InputAction, Step};
use rustbrush::platform::input::{DryRunInput, InputDriver};
use rustbrush::platform::overlay::create_overlay;
use rustbrush::platform::region::{region_from_corners, HotkeyState, ScreenRegion};

#[test]
fn test_dry_run_input() {
    let mut input = DryRunInput::new();
    input.move_to(100, 200).unwrap();
    input.click().unwrap();
    input.type_text("FF0000").unwrap();
    input.press_key_return().unwrap();
    assert_eq!(input.log.len(), 4);
    assert_eq!(input.log[0], "MOVE(100, 200)");
    assert_eq!(input.log[1], "CLICK");
    assert_eq!(input.log[2], "TYPE(FF0000)");
    assert_eq!(input.log[3], "ENTER");
}

#[test]
fn dry_run_logs_negative_coordinates_and_other_actions() {
    let mut input = DryRunInput::default();
    input.move_to(-5, 0).unwrap();
    input.shift_click().unwrap();
    input.select_all().unwrap();
    assert_eq!(input.log, vec!["MOVE(-5, 0)", "SHIFT_CLICK", "SELECT_ALL"]);
}

#[test]
fn hex_selection_expands_to_driver_actions() {
    let actions = command_actions(&PaintCommand::SelectColorByHex { hex: "00FF00".to_string() });
    assert_eq!(actions.len(), 8);
    assert!(matches!(actions[0], InputAction::Click));
    assert!(matches!(actions[1], InputAction::Sleep { ms: 30 }));
    assert!(matches!(actions[2], InputAction::SelectAll));
    match &actions[4] {
        InputAction::TypeText { text } => assert_eq!(text, "00FF00"),
        _ => panic!("expected typing"),
    }
    assert!(matches!(actions[6], InputAction::PressReturn));
    let click = command_actions(&PaintCommand::SelectColorByClick { x: 3, y: 4 });
    assert!(matches!(click[0], InputAction::MoveTo { x: 3, y: 4 }));
    assert!(matches!(click[1], InputAction::Click));
}

#[test]
fn executor_runs_from_start_index_to_the_end() {
    let cmds = vec![PaintCommand::Click, PaintCommand::SelectColorByHex { hex: "ABCDEF".to_string() }, PaintCommand::Click];
    let mut state = ExecutorState::new(cmds.len(), 1, 2, 0);
    let mut saves = 0;
    loop {
        match state.next_step(true) {
            Step::Run { index } => {
                let cp = state.command_done(&cmds[index]);
                if cp.save {
                    saves += 1;
                }
                assert!(!cp.report);
            }
            Step::Finish => break,
            Step::Cancel => panic!("not cancelled"),
        }
    }
    assert_eq!(saves, 1);
    assert_eq!(state.current_color.as_deref(), Some("ABCDEF"));
    match state.completed() {
        ExecutionResult::Completed { commands_executed } => assert_eq!(commands_executed, 2),
        _ => panic!("Expected Completed"),
    }
}

#[test]
fn executor_cancels_before_the_next_command() {
    let state = ExecutorState::new(8, 0, 500, 500);
    assert!(matches!(state.next_step(false), Step::Cancel));
    match state.cancelled() {
        ExecutionResult::Cancelled { commands_executed, total_commands } => {
            assert_eq!(commands_executed, 0);
            assert_eq!(total_commands, 8);
        }
        _ => panic!("Expected Cancelled"),
    }
    let done = ExecutorState::new(2, 5, 0, 0);
    assert!(matches!(done.next_step(false), Step::Finish));
}

#[test]
fn ui_background_and_similarity() {
    assert!(is_ui_background(5, 8, 10));
    assert!(!is_ui_background(20, 5, 4));
    assert!(!is_ui_background(12, 12, 12));
    let entries = vec![PaletteEntry { r: 100, g: 100, b: 100, screen_x: 0, screen_y: 0 }];
    assert!(has_similar_color(&entries, 108, 108, 108, 15));
    assert!(!has_similar_color(&entries, 109, 109, 110, 15));
}

#[test]
fn palette_sampling_skips_background_and_duplicates() {
    // 8 x 4 capture: left half red, right half dark UI background
    let (w, h) = (8u32, 4u32);
    let mut capture = Vec::new();
    for _y in 0..h {
        for x in 0..w {
            if x < 4 {
                capture.extend_from_slice(&[255, 0, 0, 255]);
            } else {
                capture.extend_from_slice(&[3, 3, 3, 255]);
            }
        }
    }
    let entries = sample_palette_colors(&capture, 100, 50, w, h).unwrap();
    assert_eq!(entries.len(), 1);
    assert_eq!((entries[0].r, entries[0].g, entries[0].b), (255, 0, 0));
    assert_eq!((entries[0].screen_x, entries[0].screen_y), (100, 50));
    let none = sample_palette_colors(&[], 0, 0, w, h);
    assert_eq!(none.unwrap_err(), "No colors found in palette region. Make sure the palette is visible.");
}

#[test]
fn regions_from_corners() {
    let r = region_from_corners((50, 80), (10, 20)).unwrap();
    assert_eq!((r.x, r.y, r.width, r.height), (10, 20, 40, 60));
    assert_eq!(r.right(), 50);
    assert_eq!(r.bottom(), 80);
    let err = region_from_corners((0, 0), (5, 30)).unwrap_err();
    assert_eq!(err, "Region too small (5x30). Please select a larger area.");
    let region = ScreenRegion { x: 1, y: 2, width: 3, height: 4 };
    assert_eq!((region.right(), region.bottom()), (4, 6));
}

#[test]
fn hotkeys_act_on_press_not_hold() {
    let mut keys = HotkeyState::new();
    let a = keys.poll(true, false);
    assert!(a.toggle_pause && !a.cancel);
    let b = keys.poll(true, false);
    assert!(!b.toggle_pause);
    let c = keys.poll(false, true);
    assert!(!c.toggle_pause && c.cancel);
}

#[test]
fn no_overlay_here() {
    assert!(create_overlay().is_none());
}

#[test]
fn hex_selections_become_palette_clicks() {
    let mut plan = PaintPlan {
        commands: vec![
            PaintCommand::SelectColorByHex { hex: "FF0000".to_string() },
            PaintCommand::MoveTo { x: 1, y: 2 },
            PaintCommand::Click,
            PaintCommand::SelectColorByHex { hex: "00FF00".to_string() },
            PaintCommand::SelectColorByHex { hex: "ff0000".to_string() },
        ],
        metadata: PlanMetadata {
            total_pixels: 1,
            total_colors: 2,
            total_commands: 5,
            strategy_name: "scanline".to_string(),
        },
    };
    let entries = [
        PaletteEntry { r: 255, g: 0, b: 0, screen_x: 10, screen_y: 20 },
        PaletteEntry { r: 0, g: 0, b: 255, screen_x: 50, screen_y: 60 },
        PaletteEntry { r: 255, g: 0, b: 0, screen_x: 30, screen_y: 40 },
    ];
    select_colors_by_click(&mut plan, &entries);
    assert_eq!(plan.commands.len(), 5);
    assert!(matches!(plan.commands[0], PaintCommand::SelectColorByClick { x: 30, y: 40 }));
    assert!(matches!(plan.commands[1], PaintCommand::MoveTo { x: 1, y: 2 }));
    assert!(matches!(plan.commands[2], PaintCommand::Click));
    assert!(matches!(&plan.commands[3], PaintCommand::SelectColorByHex { hex } if hex == "00FF00"));
    assert!(matches!(&plan.commands[4], PaintCommand::SelectColorByHex { hex } if hex == "ff0000"));
    assert_eq!(plan.metadata.total_commands, 5);
}
