//! The minimal painter: a fixed canvas position on screen and direct palette
//! mapping, without strategies.

use vstd::prelude::*;
use crate::color::{DitherMode, MappedPixel, PaletteColor, find_nearest_color_rgb};
use crate::color::matching::{ColorMatchAlgo, nearest_rgb};
use crate::color::quantize::{matched_rgb, quantize_direct_rgb, samples_of, QuantizeOptions};
use crate::image::RgbaBuffer;
use crate::painting::{ColorGroup, is_grouping_of};

verus! {

/// The palette color nearest to (r, g, b) by squared RGB distance; the first of
/// equally near colors.
pub fn find_nearest_color(r: u8, g: u8, b: u8, palette: &[PaletteColor]) -> (best: PaletteColor)
    requires
        palette@.len() > 0,
    ensures
        best == nearest_rgb(r, g, b, palette@),
{
    find_nearest_color_rgb(r, g, b, palette)
}

/// The options of the minimal painter: RGB matching without dithering, pixels
/// with alpha below 128 left out, no background color skipped.
pub open spec fn basic_options() -> QuantizeOptions {
    QuantizeOptions {
        algorithm: ColorMatchAlgo::Rgb,
        dither: DitherMode::Direct,
        alpha_threshold: 128,
        skip_color: None,
        skip_tolerance: 0,
    }
}

/// Map each pixel of the image, row by row, to its nearest palette color by RGB
/// distance; pixels with alpha below 128 are skipped.
pub fn map_image_to_palette(img: &RgbaBuffer, palette: &[PaletteColor]) -> (m: Vec<MappedPixel>)
    requires
        img.wf(),
        palette@.len() > 0,
    ensures
        m@.len() == samples_of(*img, basic_options(), false).len(),
        forall|i: int|
            0 <= i < m@.len() ==> m@[i] == matched_rgb(#[trigger] samples_of(*img, basic_options(), false)[i], palette@),
{
    let opts = QuantizeOptions {
        algorithm: ColorMatchAlgo::Rgb,
        dither: DitherMode::Direct,
        alpha_threshold: 128,
        skip_color: None,
        skip_tolerance: 0,
    };
    quantize_direct_rgb(img, palette, &opts)
}

/// Group mapped pixels by color, most common colors first; the canvas size plays
/// no part.
pub fn group_by_color(pixels: &[MappedPixel], _width: u32, _height: u32) -> (groups: Vec<ColorGroup>)
    ensures
        is_grouping_of(pixels@, groups@),
{
    crate::painting::group_by_color(pixels)
}

/// Screen x of canvas column `px`: the canvas starts at x = 400.
pub fn canvas_pixel_to_screen_x(px: u32) -> (x: i32)
    requires
        px + 400 <= i32::MAX,
    ensures
        x == 400 + px,
{
    400 + px as i32
}

/// Screen y of canvas row `py`: the canvas starts at y = 200.
pub fn canvas_pixel_to_screen_y(py: u32) -> (y: i32)
    requires
        py + 200 <= i32::MAX,
    ensures
        y == 200 + py,
{
    200 + py as i32
}

} // verus!
