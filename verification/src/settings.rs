//! User-facing settings: strategy and quality choices, their names in the config
//! file, and the parsing of command-line values.

use vstd::prelude::*;
use vstd::string::{StringExecFns, StringSliceAdditionalSpecFns};
use crate::strings::{lower_text, to_lower, push_char, hex_code, hex_digit};
use crate::color::{ColorMatchAlgo, DitherMode};
use crate::painting::strategy::{
    PaintStrategy, ScanlineStrategy, ColorGroupedStrategy, LineDrawStrategy, HybridStrategy, StrategyKind,
};

verus! {

// ── text helpers ───────────────────────────────────────────────────────

/// Whether two strings hold the same text.
fn same_text(a: &str, b: &str) -> (r: bool)
    ensures
        r == (a@ == b@),
{
    String::from_str(a) == String::from_str(b)
}

/// `s` without its `-` characters.
pub open spec fn without_dashes(s: Seq<char>) -> Seq<char>
    decreases s.len(),
{
    if s.len() == 0 {
        Seq::empty()
    } else if s.last() == '-' {
        without_dashes(s.drop_last())
    } else {
        without_dashes(s.drop_last()).push(s.last())
    }
}

/// Removes every `-`.
fn remove_dashes(s: &str) -> (r: String)
    ensures
        r@ == without_dashes(s@),
{
    let n = s.unicode_len();
    let mut r = String::new();
    let mut i: usize = 0;
    while i < n
        invariant
            0 <= i <= n,
            n == s@.len(),
            r@ == without_dashes(s@.take(i as int)),
        decreases n - i,
    {
        let c = s.get_char(i);
        proof {
            assert(s@.take(i + 1).drop_last() =~= s@.take(i as int));
        }
        if c != '-' {
            push_char(&mut r, c);
        }
        i += 1;
    }
    assert(s@.take(n as int) =~= s@);
    r
}

// ── strategy choice ────────────────────────────────────────────────────

/// Which painting strategy to use.
#[derive(Debug, Clone, Copy, PartialEq, Eq)]
pub enum StrategyChoice {
    Hybrid,
    ColorGrouped,
    LineDraw,
    Scanline,
}

/// Config-file name of a strategy choice.
pub open spec fn strategy_config_name(c: StrategyChoice) -> Seq<char> {
    match c {
        StrategyChoice::Hybrid => "hybrid"@,
        StrategyChoice::ColorGrouped => "color-grouped"@,
        StrategyChoice::LineDraw => "line-draw"@,
        StrategyChoice::Scanline => "scanline"@,
    }
}

/// The strategy choice a config-file name stands for; unknown names mean hybrid.
pub open spec fn strategy_from_config(s: Seq<char>) -> StrategyChoice {
    if s == "color-grouped"@ || s == "grouped"@ {
        StrategyChoice::ColorGrouped
    } else if s == "line-draw"@ || s == "line"@ {
        StrategyChoice::LineDraw
    } else if s == "scanline"@ {
        StrategyChoice::Scanline
    } else {
        StrategyChoice::Hybrid
    }
}

impl StrategyChoice {
    /// Display label.
    pub fn label(&self) -> (l: &'static str)
        ensures
            l@ == match *self {
                StrategyChoice::Hybrid => "Hybrid (fastest)"@,
                StrategyChoice::ColorGrouped => "Color Grouped"@,
                StrategyChoice::LineDraw => "Line Draw"@,
                StrategyChoice::Scanline => "Scanline"@,
            },
    {
        match self {
            StrategyChoice::Hybrid => "Hybrid (fastest)",
            StrategyChoice::ColorGrouped => "Color Grouped",
            StrategyChoice::LineDraw => "Line Draw",
            StrategyChoice::Scanline => "Scanline",
        }
    }

    /// Name in the config file.
    pub fn as_config_str(&self) -> (s: &'static str)
        ensures
            s@ == strategy_config_name(*self),
    {
        match self {
            StrategyChoice::Hybrid => "hybrid",
            StrategyChoice::ColorGrouped => "color-grouped",
            StrategyChoice::LineDraw => "line-draw",
            StrategyChoice::Scanline => "scanline",
        }
    }

    /// The choice a config-file name stands for (hybrid for unknown names).
    pub fn from_config_str(s: &str) -> (c: Self)
        ensures
            c == strategy_from_config(s@),
    {
        if same_text(s, "color-grouped") || same_text(s, "grouped") {
            StrategyChoice::ColorGrouped
        } else if same_text(s, "line-draw") || same_text(s, "line") {
            StrategyChoice::LineDraw
        } else if same_text(s, "scanline") {
            StrategyChoice::Scanline
        } else {
            StrategyChoice::Hybrid
        }
    }
}

/// Reading back the config-file name of a strategy choice gives that choice.
pub proof fn strategy_config_roundtrip(c: StrategyChoice)
    ensures
        strategy_from_config(strategy_config_name(c)) == c,
{
    reveal_strlit("hybrid");
    reveal_strlit("color-grouped");
    reveal_strlit("grouped");
    reveal_strlit("line-draw");
    reveal_strlit("line");
    reveal_strlit("scanline");
    assert("hybrid"@.len() == 6);
    assert("color-grouped"@.len() == 13);
    assert("grouped"@.len() == 7);
    assert("line-draw"@.len() == 9);
    assert("line"@.len() == 4);
    assert("scanline"@.len() == 8);
}

/// The strategy named on the command line: case and `-` are ignored.
pub open spec fn strategy_from_arg(s: Seq<char>) -> Option<StrategyChoice> {
    let k = without_dashes(lower_text(s));
    if k == "scanline"@ {
        Some(StrategyChoice::Scanline)
    } else if k == "colorgrouped"@ || k == "grouped"@ {
        Some(StrategyChoice::ColorGrouped)
    } else if k == "linedraw"@ || k == "line"@ {
        Some(StrategyChoice::LineDraw)
    } else if k == "hybrid"@ {
        Some(StrategyChoice::Hybrid)
    } else {
        None
    }
}

/// Parse a strategy name from the command line.
pub fn parse_strategy(s: &str) -> (r: Result<StrategyChoice, String>)
    ensures
        match strategy_from_arg(s@) {
            Some(c) => r == Ok::<StrategyChoice, String>(c),
            None => r is Err && r->Err_0@ == "Unknown strategy '"@ + s@
                + "'. Use 'hybrid', 'color-grouped', 'line-draw', or 'scanline'."@,
        },
{
    let lower = to_lower(s);
    let k = remove_dashes(lower.as_str());
    let k = k.as_str();
    if same_text(k, "scanline") {
        Ok(StrategyChoice::Scanline)
    } else if same_text(k, "colorgrouped") || same_text(k, "grouped") {
        Ok(StrategyChoice::ColorGrouped)
    } else if same_text(k, "linedraw") || same_text(k, "line") {
        Ok(StrategyChoice::LineDraw)
    } else if same_text(k, "hybrid") {
        Ok(StrategyChoice::Hybrid)
    } else {
        let mut msg = String::from_str("Unknown strategy '");
        msg.append(s);
        msg.append("'. Use 'hybrid', 'color-grouped', 'line-draw', or 'scanline'.");
        Err(msg)
    }
}

/// The color matching algorithm named on the command line (case ignored).
pub open spec fn color_algo_from_arg(s: Seq<char>) -> Option<ColorMatchAlgo> {
    let k = lower_text(s);
    if k == "ciede2000"@ || k == "perceptual"@ {
        Some(ColorMatchAlgo::Ciede2000)
    } else if k == "rgb"@ || k == "euclidean"@ {
        Some(ColorMatchAlgo::Rgb)
    } else {
        None
    }
}

/// Parse a color matching algorithm from the command line.
pub fn parse_color_algo(s: &str) -> (r: Result<ColorMatchAlgo, String>)
    ensures
        match color_algo_from_arg(s@) {
            Some(a) => r == Ok::<ColorMatchAlgo, String>(a),
            None => r is Err && r->Err_0@ == "Unknown algorithm '"@ + s@
                + "'. Use 'ciede2000' or 'rgb'."@,
        },
{
    let lower = to_lower(s);
    let k = lower.as_str();
    if same_text(k, "ciede2000") || same_text(k, "perceptual") {
        Ok(ColorMatchAlgo::Ciede2000)
    } else if same_text(k, "rgb") || same_text(k, "euclidean") {
        Ok(ColorMatchAlgo::Rgb)
    } else {
        let mut msg = String::from_str("Unknown algorithm '");
        msg.append(s);
        msg.append("'. Use 'ciede2000' or 'rgb'.");
        Err(msg)
    }
}

/// The dithering mode named on the command line: case and `-` are ignored.
pub open spec fn dither_from_arg(s: Seq<char>) -> Option<DitherMode> {
    let k = without_dashes(lower_text(s));
    if k == "none"@ {
        Some(DitherMode::Direct)
    } else if k == "floydsteinberg"@ || k == "fs"@ {
        Some(DitherMode::FloydSteinberg)
    } else if k == "ordered"@ || k == "bayer"@ {
        Some(DitherMode::Ordered)
    } else {
        None
    }
}

/// Parse a dithering mode from the command line.
pub fn parse_dither_mode(s: &str) -> (r: Result<DitherMode, String>)
    ensures
        match dither_from_arg(s@) {
            Some(d) => r == Ok::<DitherMode, String>(d),
            None => r is Err && r->Err_0@ == "Unknown dithering mode '"@ + s@
                + "'. Use 'none', 'floyd-steinberg', or 'ordered'."@,
        },
{
    let lower = to_lower(s);
    let k = remove_dashes(lower.as_str());
    let k = k.as_str();
    if same_text(k, "none") {
        Ok(DitherMode::Direct)
    } else if same_text(k, "floydsteinberg") || same_text(k, "fs") {
        Ok(DitherMode::FloydSteinberg)
    } else if same_text(k, "ordered") || same_text(k, "bayer") {
        Ok(DitherMode::Ordered)
    } else {
        let mut msg = String::from_str("Unknown dithering mode '");
        msg.append(s);
        msg.append("'. Use 'none', 'floyd-steinberg', or 'ordered'.");
        Err(msg)
    }
}

/// The strategy each choice stands for, with default settings: lines of at
/// least 3 pixels, and the hybrid strategy with 2-opt.
pub open spec fn default_kind(choice: StrategyChoice) -> StrategyKind {
    match choice {
        StrategyChoice::Scanline => StrategyKind::Scanline,
        StrategyChoice::ColorGrouped => StrategyKind::ColorGrouped,
        StrategyChoice::LineDraw => StrategyKind::LineDraw { min_run_length: 3 },
        StrategyChoice::Hybrid => StrategyKind::Hybrid { min_run_length: 3, optimize: true },
    }
}

/// Build the painting strategy for a choice, with default settings.
pub fn build_strategy(choice: StrategyChoice) -> (s: Box<dyn PaintStrategy>)
    ensures
        s.kind() == default_kind(choice),
{
    match choice {
        StrategyChoice::Scanline => {
            return Box::new(ScanlineStrategy);
        },
        StrategyChoice::ColorGrouped => {
            return Box::new(ColorGroupedStrategy);
        },
        StrategyChoice::LineDraw => {
            return Box::new(LineDrawStrategy::default());
        },
        StrategyChoice::Hybrid => {
            return Box::new(HybridStrategy::default());
        },
    };
}

/// Name of the strategy for a choice.
pub fn strategy_name(choice: StrategyChoice) -> (n: &'static str)
    ensures
        n@ == strategy_config_name(choice),
{
    match choice {
        StrategyChoice::Scanline => "scanline",
        StrategyChoice::ColorGrouped => "color-grouped",
        StrategyChoice::LineDraw => "line-draw",
        StrategyChoice::Hybrid => "hybrid",
    }
}

// ── quality presets ────────────────────────────────────────────────────

/// One-click quality presets.
#[derive(Debug, Clone, Copy, PartialEq, Eq)]
pub enum QualityPreset {
    Speed,
    Balanced,
    Quality,
    Maximum,
    Custom,
}

/// Config-file name of a preset.
pub open spec fn preset_config_name(p: QualityPreset) -> Seq<char> {
    match p {
        QualityPreset::Speed => "speed"@,
        QualityPreset::Balanced => "balanced"@,
        QualityPreset::Quality => "quality"@,
        QualityPreset::Maximum => "maximum"@,
        QualityPreset::Custom => "custom"@,
    }
}

/// The preset a config-file name stands for; unknown names mean balanced.
pub open spec fn preset_from_config(s: Seq<char>) -> QualityPreset {
    if s == "speed"@ {
        QualityPreset::Speed
    } else if s == "quality"@ {
        QualityPreset::Quality
    } else if s == "maximum"@ {
        QualityPreset::Maximum
    } else if s == "custom"@ {
        QualityPreset::Custom
    } else {
        QualityPreset::Balanced
    }
}

/// What a preset sets.
#[derive(Debug, Clone, Copy)]
pub struct PresetSettings {
    pub strategy: StrategyChoice,
    pub dither: DitherMode,
    pub color_match: ColorMatchAlgo,
    pub delay_ms: u64,
    pub adaptive_palette: bool,
    /// Number of adaptive palette colors, where the preset sets it.
    pub adaptive_colors: Option<usize>,
    pub path_optimizer: bool,
}

impl QualityPreset {
    /// Display label.
    pub fn label(&self) -> (l: &'static str)
        ensures
            l@ == match *self {
                QualityPreset::Speed => "Speed"@,
                QualityPreset::Balanced => "Balanced"@,
                QualityPreset::Quality => "Quality"@,
                QualityPreset::Maximum => "Maximum"@,
                QualityPreset::Custom => "Custom"@,
            },
    {
        match self {
            QualityPreset::Speed => "Speed",
            QualityPreset::Balanced => "Balanced",
            QualityPreset::Quality => "Quality",
            QualityPreset::Maximum => "Maximum",
            QualityPreset::Custom => "Custom",
        }
    }

    /// One-line description of what the preset selects.
    pub fn description(&self) -> (d: &'static str)
        ensures
            d@ == match *self {
                QualityPreset::Speed => "Hybrid + RGB + No dither (32 colors)"@,
                QualityPreset::Balanced => "Hybrid + RGB + Ordered dither (32 colors)"@,
                QualityPreset::Quality => "Grouped + CIEDE2000 + F-S dither (128 colors)"@,
                QualityPreset::Maximum => "Scanline + CIEDE2000 + F-S dither (512 colors)"@,
                QualityPreset::Custom => "Custom settings"@,
            },
    {
        match self {
            QualityPreset::Speed => "Hybrid + RGB + No dither (32 colors)",
            QualityPreset::Balanced => "Hybrid + RGB + Ordered dither (32 colors)",
            QualityPreset::Quality => "Grouped + CIEDE2000 + F-S dither (128 colors)",
            QualityPreset::Maximum => "Scanline + CIEDE2000 + F-S dither (512 colors)",
            QualityPreset::Custom => "Custom settings",
        }
    }

    /// Name in the config file.
    pub fn as_config_str(&self) -> (s: &'static str)
        ensures
            s@ == preset_config_name(*self),
    {
        match self {
            QualityPreset::Speed => "speed",
            QualityPreset::Balanced => "balanced",
            QualityPreset::Quality => "quality",
            QualityPreset::Maximum => "maximum",
            QualityPreset::Custom => "custom",
        }
    }

    /// The preset a config-file name stands for (balanced for unknown names).
    pub fn from_config_str(s: &str) -> (p: Self)
        ensures
            p == preset_from_config(s@),
    {
        if same_text(s, "speed") {
            QualityPreset::Speed
        } else if same_text(s, "quality") {
            QualityPreset::Quality
        } else if same_text(s, "maximum") {
            QualityPreset::Maximum
        } else if same_text(s, "custom") {
            QualityPreset::Custom
        } else {
            QualityPreset::Balanced
        }
    }

    /// The settings a preset selects; `None` for custom, which changes nothing.
    pub fn settings(&self) -> (s: Option<PresetSettings>)
        ensures
            match *self {
                QualityPreset::Custom => s is None,
                QualityPreset::Speed => s == Some(PresetSettings {
                    strategy: StrategyChoice::Hybrid,
                    dither: DitherMode::Direct,
                    color_match: ColorMatchAlgo::Rgb,
                    delay_ms: 5,
                    adaptive_palette: false,
                    adaptive_colors: None,
                    path_optimizer: true,
                }),
                QualityPreset::Balanced => s == Some(PresetSettings {
                    strategy: StrategyChoice::Hybrid,
                    dither: DitherMode::Ordered,
                    color_match: ColorMatchAlgo::Rgb,
                    delay_ms: 10,
                    adaptive_palette: false,
                    adaptive_colors: None,
                    path_optimizer: true,
                }),
                QualityPreset::Quality => s == Some(PresetSettings {
                    strategy: StrategyChoice::ColorGrouped,
                    dither: DitherMode::FloydSteinberg,
                    color_match: ColorMatchAlgo::Ciede2000,
                    delay_ms: 15,
                    adaptive_palette: true,
                    adaptive_colors: Some(128),
                    path_optimizer: true,
                }),
                QualityPreset::Maximum => s == Some(PresetSettings {
                    strategy: StrategyChoice::Scanline,
                    dither: DitherMode::FloydSteinberg,
                    color_match: ColorMatchAlgo::Ciede2000,
                    delay_ms: 30,
                    adaptive_palette: true,
                    adaptive_colors: Some(512),
                    path_optimizer: true,
                }),
            },
    {
        match self {
            QualityPreset::Speed => Some(PresetSettings {
                strategy: StrategyChoice::Hybrid,
                dither: DitherMode::Direct,
                color_match: ColorMatchAlgo::Rgb,
                delay_ms: 5,
                adaptive_palette: false,
                adaptive_colors: None,
                path_optimizer: true,
            }),
            QualityPreset::Balanced => Some(PresetSettings {
                strategy: StrategyChoice::Hybrid,
                dither: DitherMode::Ordered,
                color_match: ColorMatchAlgo::Rgb,
                delay_ms: 10,
                adaptive_palette: false,
                adaptive_colors: None,
                path_optimizer: true,
            }),
            QualityPreset::Quality => Some(PresetSettings {
                strategy: StrategyChoice::ColorGrouped,
                dither: DitherMode::FloydSteinberg,
                color_match: ColorMatchAlgo::Ciede2000,
                delay_ms: 15,
                adaptive_palette: true,
                adaptive_colors: Some(128),
                path_optimizer: true,
            }),
            QualityPreset::Maximum => Some(PresetSettings {
                strategy: StrategyChoice::Scanline,
                dither: DitherMode::FloydSteinberg,
                color_match: ColorMatchAlgo::Ciede2000,
                delay_ms: 30,
                adaptive_palette: true,
                adaptive_colors: Some(512),
                path_optimizer: true,
            }),
            QualityPreset::Custom => None,
        }
    }
}

/// Reading back the config-file name of a preset gives that preset.
pub proof fn preset_config_roundtrip(p: QualityPreset)
    ensures
        preset_from_config(preset_config_name(p)) == p,
{
    reveal_strlit("speed");
    reveal_strlit("balanced");
    reveal_strlit("quality");
    reveal_strlit("maximum");
    reveal_strlit("custom");
    assert("speed"@.len() == 5);
    assert("balanced"@.len() == 8);
    assert("quality"@.len() == 7);
    assert("maximum"@.len() == 7);
    assert("custom"@.len() == 6);
    assert("quality"@[0] != "maximum"@[0]);
}

// ── hex colors ─────────────────────────────────────────────────────────

/// `b` with every leading `#` byte removed.
pub open spec fn trim_hash(b: Seq<u8>) -> Seq<u8>
    decreases b.len(),
{
    if b.len() > 0 && b[0] == 35 {
        trim_hash(b.drop_first())
    } else {
        b
    }
}

/// Value of an ASCII hex digit byte.
pub open spec fn hex_value(c: u8) -> Option<u8> {
    if 48 <= c <= 57 {
        Some((c - 48) as u8)
    } else if 65 <= c <= 70 {
        Some((c - 55) as u8)
    } else if 97 <= c <= 102 {
        Some((c - 87) as u8)
    } else {
        None
    }
}

/// The number two hex digit bytes spell, if both are ASCII hex digits.
pub open spec fn hex_pair(a: u8, b: u8) -> Option<u8> {
    match (hex_value(a), hex_value(b)) {
        (Some(x), Some(y)) => Some((x * 16 + y) as u8),
        _ => None,
    }
}

/// The color a hex argument gives, or the error text: after leading `#`s it must
/// be six bytes long, each of them an ASCII hex digit.
pub open spec fn hex_color_of(bytes: Seq<u8>) -> Result<(u8, u8, u8), Seq<char>> {
    let t = trim_hash(bytes);
    if t.len() != 6 {
        Err("Hex color must be 6 characters (e.g. FFFFFF or #FF0000)"@)
    } else {
        match (hex_pair(t[0], t[1]), hex_pair(t[2], t[3]), hex_pair(t[4], t[5])) {
            (Some(r), Some(g), Some(b)) => Ok((r, g, b)),
            _ => Err("invalid digit found in string"@),
        }
    }
}

fn hex_value_exec(c: u8) -> (v: Option<u8>)
    ensures
        v == hex_value(c),
{
    if 48 <= c && c <= 57 {
        Some(c - 48)
    } else if 65 <= c && c <= 70 {
        Some(c - 55)
    } else if 97 <= c && c <= 102 {
        Some(c - 87)
    } else {
        None
    }
}

fn hex_pair_exec(a: u8, b: u8) -> (v: Option<u8>)
    ensures
        v == hex_pair(a, b),
{
    match (hex_value_exec(a), hex_value_exec(b)) {
        (Some(x), Some(y)) => Some(x * 16 + y),
        _ => None,
    }
}

/// Parse a color given as six hex digits, optionally after `#`; anything else is
/// an error.
pub fn parse_hex_color(s: &str) -> (r: Result<(u8, u8, u8), String>)
    ensures
        match hex_color_of(s.spec_bytes()) {
            Ok(c) => r == Ok::<(u8, u8, u8), String>(c),
            Err(m) => r is Err && r->Err_0@ == m,
        },
{
    let bytes = s.as_bytes();
    let n = bytes.len();
    let mut k: usize = 0;
    assert(bytes@.skip(0) =~= bytes@);
    while k < n && bytes[k] == 35
        invariant
            0 <= k <= n,
            n == bytes@.len(),
            trim_hash(bytes@) == trim_hash(bytes@.skip(k as int)),
        decreases n - k,
    {
        proof {
            assert(bytes@.skip(k as int).drop_first() =~= bytes@.skip(k + 1));
        }
        k += 1;
    }
    let ghost t = bytes@.skip(k as int);
    assert(trim_hash(t) == t);
    if n - k != 6 {
        return Err(String::from_str("Hex color must be 6 characters (e.g. FFFFFF or #FF0000)"));
    }
    let r = hex_pair_exec(bytes[k], bytes[k + 1]);
    let g = hex_pair_exec(bytes[k + 2], bytes[k + 3]);
    let b = hex_pair_exec(bytes[k + 4], bytes[k + 5]);
    match (r, g, b) {
        (Some(r), Some(g), Some(b)) => Ok((r, g, b)),
        _ => Err(String::from_str("invalid digit found in string")),
    }
}

proof fn lemma_hex_digit_value(d: int)
    requires
        0 <= d < 16,
    ensures
        hex_value(hex_digit(d) as u8) == Some(d as u8),
        (hex_digit(d) as u32) < 128,
{
    let digits = seq!['0', '1', '2', '3', '4', '5', '6', '7', '8', '9', 'A', 'B', 'C', 'D', 'E', 'F'];
    assert(hex_digit(d) == digits[d]);
    assert(digits[0] == '0' && digits[1] == '1' && digits[2] == '2' && digits[3] == '3');
    assert(digits[4] == '4' && digits[5] == '5' && digits[6] == '6' && digits[7] == '7');
    assert(digits[8] == '8' && digits[9] == '9' && digits[10] == 'A' && digits[11] == 'B');
    assert(digits[12] == 'C' && digits[13] == 'D' && digits[14] == 'E' && digits[15] == 'F');
}

proof fn lemma_hex_byte_value(v: u8)
    ensures
        hex_pair(hex_digit(v as int / 16) as u8, hex_digit(v as int % 16) as u8) == Some(v),
{
    lemma_hex_digit_value(v as int / 16);
    lemma_hex_digit_value(v as int % 16);
    assert((v as int / 16) * 16 + v as int % 16 == v);
}

/// Reading back a color's hex code, as it is written, with or without a leading
/// `#`, gives the color.
pub proof fn hex_codes_read_back(r: u8, g: u8, b: u8)
    ensures
        hex_color_of(hex_code(r, g, b).map_values(|c: char| c as u8)) == Ok::<(u8, u8, u8), Seq<char>>((r, g, b)),
        hex_color_of(seq![35u8] + hex_code(r, g, b).map_values(|c: char| c as u8)) == Ok::<(u8, u8, u8), Seq<char>>(
            (r, g, b),
        ),
{
    let bytes = hex_code(r, g, b).map_values(|c: char| c as u8);
    lemma_hex_byte_value(r);
    lemma_hex_byte_value(g);
    lemma_hex_byte_value(b);
    lemma_hex_digit_value(r as int / 16);
    assert(bytes.len() == 6);
    assert(bytes[0] == hex_digit(r as int / 16) as u8);
    assert(bytes[0] != 35) by {
        assert(hex_value(bytes[0]) is Some);
    }
    assert(trim_hash(bytes) == bytes);
    let with_hash = seq![35u8] + bytes;
    assert(with_hash.drop_first() =~= bytes);
    assert(trim_hash(with_hash) == trim_hash(bytes));
}

} // verus!
