use rustbrush::painting::{PaintCommand, PaintPlan, PlanMetadata, ScreenRect};
use rustbrush::session::Session;

fn test_session() -> Session {
    Session::new(
        PaintPlan {
            commands: vec![
                PaintCommand::MoveTo { x: 10, y: 20 },
                PaintCommand::Click,
                PaintCommand::MoveTo { x: 30, y: 40 },
                PaintCommand::Click,
            ],
            metadata: PlanMetadata {
                total_pixels: 2,
                total_colors: 1,
                total_commands: 4,
                strategy_name: "test".to_string(),
            },
        },
        ScreenRect { x: 0, y: 0, width: 100, height: 100 },
        "test.png".to_string(),
        256,
        256,
    )
}

/// Share of the plan done, in percent.
fn progress_percent(s: &Session) -> f64 {
    if s.plan.commands.is_empty() {
        return 100.0;
    }
    s.progress as f64 / s.plan.commands.len() as f64 * 100.0
}

#[test]
fn test_session_progress() {
    let mut session = test_session();
    assert_eq!(progress_percent(&session), 0.0);
    assert!(!session.is_complete());
    assert_eq!(session.remaining_commands(), 4);

    session.progress = 2;
    assert_eq!(progress_percent(&session), 50.0);
    assert_eq!(session.remaining_commands(), 2);

    session.progress = 4;
    assert!(session.is_complete());
    assert_eq!(progress_percent(&session), 100.0);
}

#[test]
fn test_generate_path_contains_image_name() {
    let path = Session::generate_path("rustbrush_sessions", "my_painting.png", 1700000000);
    let path = std::path::Path::new(&path);
    let filename = path.file_name().unwrap().to_str().unwrap();
    assert!(filename.starts_with("my_painting_"));
    assert!(filename.ends_with(".json"));
}

#[test]
fn session_file_name_holds_stem_and_timestamp() {
    let path = Session::generate_path("sessions", "art/logo.final.png", 42);
    assert_eq!(std::path::Path::new(&path), std::path::Path::new("sessions").join("logo.final_42.json"));
    let unnamed = Session::generate_path("sessions", "", 7);
    assert_eq!(std::path::Path::new(&unnamed), std::path::Path::new("sessions").join("unknown_7.json"));
}

#[test]
fn sessions_dir_under_home_or_working_dir() {
    let with_home = Session::default_sessions_dir(Some("/home/me"));
    assert_eq!(std::path::Path::new(&with_home), std::path::Path::new("/home/me/.rustbrush/sessions"));
    let without = Session::default_sessions_dir(None);
    assert_eq!(std::path::Path::new(&without), std::path::Path::new(".rustbrush/sessions"));
}

#[test]
fn remaining_is_zero_past_the_end() {
    let mut session = test_session();
    session.progress = 9;
    assert_eq!(session.remaining_commands(), 0);
    assert!(session.is_complete());
}
