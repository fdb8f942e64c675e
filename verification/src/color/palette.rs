use vstd::prelude::*;
use crate::strings::hex_code;

verus! {

/// An RGB color of a paint palette together with its hex code.
#[derive(Debug, Clone, Copy, PartialEq, Eq, Hash)]
pub struct PaletteColor {
    pub r: u8,
    pub g: u8,
    pub b: u8,
    pub hex: &'static str,
}

impl PaletteColor {
    pub fn new(r: u8, g: u8, b: u8, hex: &'static str) -> (c: Self)
        ensures
            c.r == r,
            c.g == g,
            c.b == b,
            c.hex == hex,
    {
        PaletteColor { r, g, b, hex }
    }

    /// The color as an (r, g, b) triple.
    pub open spec fn rgb(self) -> (u8, u8, u8) {
        (self.r, self.g, self.b)
    }
}


/// The (r, g, b) values of the in-game sign palette, in palette order.
pub open spec fn rust_palette_rgb() -> Seq<(u8, u8, u8)> {
    seq![
        (0x00u8, 0x00u8, 0x00u8),
        (0x40u8, 0x40u8, 0x40u8),
        (0x80u8, 0x80u8, 0x80u8),
        (0xC0u8, 0xC0u8, 0xC0u8),
        (0xFFu8, 0xFFu8, 0xFFu8),
        (0x80u8, 0x00u8, 0x00u8),
        (0xFFu8, 0x00u8, 0x00u8),
        (0xFFu8, 0x40u8, 0x40u8),
        (0x80u8, 0x40u8, 0x00u8),
        (0xFFu8, 0x80u8, 0x00u8),
        (0xFFu8, 0xBFu8, 0x00u8),
        (0x80u8, 0x80u8, 0x00u8),
        (0xFFu8, 0xFFu8, 0x00u8),
        (0xFFu8, 0xFFu8, 0x80u8),
        (0x00u8, 0x80u8, 0x00u8),
        (0x00u8, 0xFFu8, 0x00u8),
        (0x80u8, 0xFFu8, 0x80u8),
        (0x00u8, 0x40u8, 0x00u8),
        (0x00u8, 0x80u8, 0x80u8),
        (0x00u8, 0xFFu8, 0xFFu8),
        (0x80u8, 0xFFu8, 0xFFu8),
        (0x00u8, 0x00u8, 0x80u8),
        (0x00u8, 0x00u8, 0xFFu8),
        (0x80u8, 0x80u8, 0xFFu8),
        (0x00u8, 0x40u8, 0xFFu8),
        (0x80u8, 0x00u8, 0x80u8),
        (0xFFu8, 0x00u8, 0xFFu8),
        (0xFFu8, 0x80u8, 0xFFu8),
        (0x80u8, 0x40u8, 0x20u8),
        (0xC0u8, 0x80u8, 0x40u8),
        (0xFFu8, 0xBFu8, 0x80u8),
        (0x40u8, 0x20u8, 0x00u8)
    ]
}

/// Returns the game's sign editor palette (post-November 2025 update):
/// the 32 colors of the fixed palette of the sign painting UI.
pub fn rust_palette() -> (palette: Vec<PaletteColor>)
    ensures
        palette@.len() == 32,
        forall|i: int| 0 <= i < 32 ==> (#[trigger] palette@[i]).rgb() == rust_palette_rgb()[i],
        forall|i: int| 0 <= i < 32 ==> (#[trigger] palette@[i]).hex@ == hex_code(palette@[i].r, palette@[i].g, palette@[i].b),
{
    proof {
        reveal_strlit("000000");
        reveal_strlit("404040");
        reveal_strlit("808080");
        reveal_strlit("C0C0C0");
        reveal_strlit("FFFFFF");
        reveal_strlit("800000");
        reveal_strlit("FF0000");
        reveal_strlit("FF4040");
        reveal_strlit("804000");
        reveal_strlit("FF8000");
        reveal_strlit("FFBF00");
        reveal_strlit("808000");
        reveal_strlit("FFFF00");
        reveal_strlit("FFFF80");
        reveal_strlit("008000");
        reveal_strlit("00FF00");
        reveal_strlit("80FF80");
        reveal_strlit("004000");
        reveal_strlit("008080");
        reveal_strlit("00FFFF");
        reveal_strlit("80FFFF");
        reveal_strlit("000080");
        reveal_strlit("0000FF");
        reveal_strlit("8080FF");
        reveal_strlit("0040FF");
        reveal_strlit("800080");
        reveal_strlit("FF00FF");
        reveal_strlit("FF80FF");
        reveal_strlit("804020");
        reveal_strlit("C08040");
        reveal_strlit("FFBF80");
        reveal_strlit("402000");
    }
    let palette = vec![
        // Blacks and grays
        PaletteColor::new(0x00, 0x00, 0x00, "000000"),
        PaletteColor::new(0x40, 0x40, 0x40, "404040"),
        PaletteColor::new(0x80, 0x80, 0x80, "808080"),
        PaletteColor::new(0xC0, 0xC0, 0xC0, "C0C0C0"),
        PaletteColor::new(0xFF, 0xFF, 0xFF, "FFFFFF"),
        // Reds
        PaletteColor::new(0x80, 0x00, 0x00, "800000"),
        PaletteColor::new(0xFF, 0x00, 0x00, "FF0000"),
        PaletteColor::new(0xFF, 0x40, 0x40, "FF4040"),
        // Oranges
        PaletteColor::new(0x80, 0x40, 0x00, "804000"),
        PaletteColor::new(0xFF, 0x80, 0x00, "FF8000"),
        PaletteColor::new(0xFF, 0xBF, 0x00, "FFBF00"),
        // Yellows
        PaletteColor::new(0x80, 0x80, 0x00, "808000"),
        PaletteColor::new(0xFF, 0xFF, 0x00, "FFFF00"),
        PaletteColor::new(0xFF, 0xFF, 0x80, "FFFF80"),
        // Greens
        PaletteColor::new(0x00, 0x80, 0x00, "008000"),
        PaletteColor::new(0x00, 0xFF, 0x00, "00FF00"),
        PaletteColor::new(0x80, 0xFF, 0x80, "80FF80"),
        PaletteColor::new(0x00, 0x40, 0x00, "004000"),
        // Cyans
        PaletteColor::new(0x00, 0x80, 0x80, "008080"),
        PaletteColor::new(0x00, 0xFF, 0xFF, "00FFFF"),
        PaletteColor::new(0x80, 0xFF, 0xFF, "80FFFF"),
        // Blues
        PaletteColor::new(0x00, 0x00, 0x80, "000080"),
        PaletteColor::new(0x00, 0x00, 0xFF, "0000FF"),
        PaletteColor::new(0x80, 0x80, 0xFF, "8080FF"),
        PaletteColor::new(0x00, 0x40, 0xFF, "0040FF"),
        // Purples / Magentas
        PaletteColor::new(0x80, 0x00, 0x80, "800080"),
        PaletteColor::new(0xFF, 0x00, 0xFF, "FF00FF"),
        PaletteColor::new(0xFF, 0x80, 0xFF, "FF80FF"),
        // Browns / Skin tones
        PaletteColor::new(0x80, 0x40, 0x20, "804020"),
        PaletteColor::new(0xC0, 0x80, 0x40, "C08040"),
        PaletteColor::new(0xFF, 0xBF, 0x80, "FFBF80"),
        PaletteColor::new(0x40, 0x20, 0x00, "402000"),
    ];
    palette
}

} // verus!
