//! Color palettes, nearest-color matching and image quantization.

pub mod palette;
pub mod matching;
pub mod quantize;
pub mod adaptive;

pub use palette::{PaletteColor, rust_palette};
pub use matching::{ColorMatchAlgo, find_nearest_color_rgb};

use vstd::prelude::*;

verus! {

/// Dithering algorithm to apply during quantization.
#[derive(Debug, Clone, Copy, PartialEq, Eq)]
pub enum DitherMode {
    /// No dithering: direct nearest-color mapping.
    Direct,
    /// Floyd-Steinberg error-diffusion dithering.
    FloydSteinberg,
    /// 4x4 Bayer ordered dithering.
    Ordered,
}

/// A pixel mapped to the nearest palette color.
#[derive(Debug, Clone, Copy)]
pub struct MappedPixel {
    pub x: u32,
    pub y: u32,
    pub color: PaletteColor,
    pub alpha: u8,
}

impl MappedPixel {
    /// The color key of the pixel.
    pub open spec fn rgb(self) -> (u8, u8, u8) {
        self.color.rgb()
    }

    /// The image position of the pixel.
    pub open spec fn pos(self) -> (u32, u32) {
        (self.x, self.y)
    }
}

} // verus!
