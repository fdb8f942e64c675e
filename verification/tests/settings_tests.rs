use rustbrush::color::{ColorMatchAlgo, DitherMode};
use rustbrush::settings::{
    build_strategy, parse_color_algo, parse_dither_mode, parse_hex_color, parse_strategy, strategy_name, QualityPreset,
    StrategyChoice,
};

#[test]
fn config_names_round_trip() {
    for c in [StrategyChoice::Hybrid, StrategyChoice::ColorGrouped, StrategyChoice::LineDraw, StrategyChoice::Scanline] {
        assert_eq!(StrategyChoice::from_config_str(c.as_config_str()), c);
        assert_eq!(strategy_name(c), c.as_config_str());
        assert_eq!(build_strategy(c).name(), c.as_config_str());
    }
    for p in [QualityPreset::Speed, QualityPreset::Balanced, QualityPreset::Quality, QualityPreset::Maximum, QualityPreset::Custom] {
        assert_eq!(QualityPreset::from_config_str(p.as_config_str()), p);
    }
    assert_eq!(StrategyChoice::from_config_str("grouped"), StrategyChoice::ColorGrouped);
    assert_eq!(StrategyChoice::from_config_str("whatever"), StrategyChoice::Hybrid);
    assert_eq!(QualityPreset::from_config_str("nope"), QualityPreset::Balanced);
    assert_eq!(StrategyChoice::Hybrid.label(), "Hybrid (fastest)");
    assert_eq!(QualityPreset::Quality.description(), "Grouped + CIEDE2000 + F-S dither (128 colors)");
}

#[test]
fn preset_settings() {
    let s = QualityPreset::Maximum.settings().unwrap();
    assert_eq!(s.strategy, StrategyChoice::Scanline);
    assert_eq!(s.delay_ms, 30);
    assert_eq!(s.adaptive_colors, Some(512));
    assert!(QualityPreset::Custom.settings().is_none());
    assert_eq!(QualityPreset::Speed.settings().unwrap().dither, DitherMode::Direct);
}

#[test]
fn command_line_values() {
    assert_eq!(parse_strategy("Color-Grouped"), Ok(StrategyChoice::ColorGrouped));
    assert_eq!(parse_strategy("LINE"), Ok(StrategyChoice::LineDraw));
    assert_eq!(
        parse_strategy("fast"),
        Err("Unknown strategy 'fast'. Use 'hybrid', 'color-grouped', 'line-draw', or 'scanline'.".to_string())
    );
    assert_eq!(parse_color_algo("Perceptual"), Ok(ColorMatchAlgo::Ciede2000));
    assert_eq!(parse_color_algo("rgb"), Ok(ColorMatchAlgo::Rgb));
    assert!(parse_color_algo("lab").is_err());
    assert_eq!(parse_dither_mode("floyd-steinberg"), Ok(DitherMode::FloydSteinberg));
    assert_eq!(parse_dither_mode("Bayer"), Ok(DitherMode::Ordered));
    assert_eq!(
        parse_dither_mode("x"),
        Err("Unknown dithering mode 'x'. Use 'none', 'floyd-steinberg', or 'ordered'.".to_string())
    );
}

#[test]
fn hex_colors() {
    assert_eq!(parse_hex_color("#FF8000"), Ok((255, 128, 0)));
    assert_eq!(parse_hex_color("##0a0B0c"), Ok((10, 11, 12)));
    assert_eq!(parse_hex_color("+F0000"), Err("invalid digit found in string".to_string()));
    assert_eq!(parse_hex_color("+F+F+F"), Err("invalid digit found in string".to_string()));
    // six bytes, but not six hex digits
    assert_eq!(parse_hex_color("\u{e9}FFFF"), Err("invalid digit found in string".to_string()));
    assert_eq!(
        parse_hex_color("FFF"),
        Err("Hex color must be 6 characters (e.g. FFFFFF or #FF0000)".to_string())
    );
    assert_eq!(parse_hex_color("GG0000"), Err("invalid digit found in string".to_string()));
}
