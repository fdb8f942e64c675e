use rustbrush::canvas::{all_presets, find_preset, CanvasPreset};

#[test]
fn test_all_presets_not_empty() {
    assert!(!all_presets().is_empty());
}

#[test]
fn test_find_preset() {
    let preset = find_preset("wooden sign").unwrap();
    assert_eq!(preset.width, 256);
    assert_eq!(preset.height, 128);
}

#[test]
fn test_all_presets_have_positive_dimensions() {
    for p in all_presets() {
        assert!(p.width > 0 && p.height > 0, "Preset {} has zero dimension", p.name);
    }
}

#[test]
fn find_preset_ignores_case_and_takes_first_match() {
    let p = find_preset("XXL PICTURE FRAME").unwrap();
    assert_eq!((p.width, p.height), (1024, 512));
    assert_eq!(p.name, "XXL Picture Frame");
    assert!(find_preset("no such sign").is_none());
    assert_eq!(all_presets().len(), 18);
}

#[test]
fn preset_label_shows_size() {
    let p = CanvasPreset::new("Photo Frame", 320, 240);
    assert_eq!(p.label(), "Photo Frame (320x240)");
}
