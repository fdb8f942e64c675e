use rustbrush::color::quantize::{
    build_preview, color_samples, palette_from_rgb, quantize_direct_rgb, quantize_ordered_rgb, should_skip,
    QuantizeOptions,
};
use rustbrush::color::{find_nearest_color_rgb, rust_palette, ColorMatchAlgo, DitherMode};
use rustbrush::image::RgbaBuffer;
use rustbrush::color::adaptive::opaque_colors;

fn solid(w: u32, h: u32, rgba: [u8; 4]) -> RgbaBuffer {
    let mut data = Vec::new();
    for _ in 0..(w * h) {
        data.extend_from_slice(&rgba);
    }
    RgbaBuffer { width: w, height: h, data }
}

fn rgb_options() -> QuantizeOptions {
    QuantizeOptions { algorithm: ColorMatchAlgo::Rgb, ..Default::default() }
}

#[test]
fn color_tests_test_exact_palette_match() {
    let palette = rust_palette();
    let black = find_nearest_color_rgb(0, 0, 0, &palette);
    assert_eq!((black.r, black.g, black.b), (0, 0, 0));

    let white = find_nearest_color_rgb(255, 255, 255, &palette);
    assert_eq!((white.r, white.g, white.b), (255, 255, 255));
}

#[test]
fn color_tests_test_near_color_match() {
    let palette = rust_palette();
    let color = find_nearest_color_rgb(250, 5, 5, &palette);
    assert_eq!((color.r, color.g, color.b), (255, 0, 0));
}

#[test]
fn test_palette_has_32_colors() {
    let palette = rust_palette();
    assert_eq!(palette.len(), 32);
}

#[test]
fn test_skip_color() {
    let palette = rust_palette();
    let mut img = solid(2, 2, [255, 0, 0, 255]);
    for y in 0..2usize {
        let i = (y * 2) * 4;
        img.data[i..i + 4].copy_from_slice(&[255, 255, 255, 255]);
    }
    let opts = QuantizeOptions { skip_color: Some((255, 255, 255)), ..rgb_options() };
    let result = quantize_direct_rgb(&img, &palette, &opts);
    assert_eq!(result.len(), 2);
}

#[test]
fn test_alpha_threshold() {
    let palette = rust_palette();
    let img = RgbaBuffer { width: 2, height: 1, data: vec![255, 0, 0, 200, 255, 0, 0, 50] };
    let opts = QuantizeOptions { alpha_threshold: 100, ..rgb_options() };
    let result = quantize_direct_rgb(&img, &palette, &opts);
    assert_eq!(result.len(), 1);
}

#[test]
fn test_build_preview() {
    let palette = rust_palette();
    let img = solid(4, 4, [255, 0, 0, 255]);
    let opts = rgb_options();
    let pixels = quantize_direct_rgb(&img, &palette, &opts);
    let preview = build_preview(&img, &pixels);
    assert_eq!(preview.width, 4);
    assert_eq!(preview.height, 4);
    for p in preview.data.chunks(4) {
        assert_eq!(p[3], 255);
    }
}

#[test]
fn test_ordered_dithering() {
    let palette = rust_palette();
    let img = solid(4, 4, [100, 100, 100, 255]);
    let opts = QuantizeOptions { dither: DitherMode::Ordered, ..rgb_options() };
    let result = quantize_ordered_rgb(&img, &palette, &opts);
    assert_eq!(result.len(), 16);
}

#[test]
fn ordered_offsets_follow_the_bayer_matrix() {
    let img = solid(4, 2, [100, 0, 250, 255]);
    let samples = color_samples(&img, &rgb_options(), true);
    // (0,0): 3*0 - 24 = -24; (1,0): 3*8 - 24 = 0; (0,1): 3*12 - 24 = 12
    assert_eq!((samples[0].r, samples[0].g, samples[0].b), (76, 0, 226));
    assert_eq!((samples[1].r, samples[1].g, samples[1].b), (100, 0, 250));
    assert_eq!((samples[4].r, samples[4].g, samples[4].b), (112, 12, 255));
}

#[test]
fn skip_tolerance_is_squared_distance() {
    let opts = QuantizeOptions { skip_color: Some((10, 10, 10)), skip_tolerance: 27, ..rgb_options() };
    assert!(should_skip(13, 13, 13, &opts));
    assert!(!should_skip(13, 13, 14, &opts));
    assert!(!should_skip(10, 10, 10, &rgb_options()));
    assert_eq!(QuantizeOptions::default().skip_tolerance, 2700);
}

#[test]
fn palette_from_rgb_writes_hex_codes() {
    let p = palette_from_rgb(&[(255, 128, 0), (1, 2, 171)]);
    assert_eq!(p.len(), 2);
    assert_eq!(p[0].hex, "FF8000");
    assert_eq!(p[1].hex, "0102AB");
    assert_eq!((p[1].r, p[1].g, p[1].b), (1, 2, 171));
}

#[test]
fn preview_shows_last_pixel_painted() {
    let img = solid(2, 1, [0, 0, 0, 255]);
    let palette = rust_palette();
    let mut pixels = quantize_direct_rgb(&img, &palette, &rgb_options());
    pixels.truncate(1);
    let preview = build_preview(&img, &pixels);
    assert_eq!(&preview.data[0..4], &[0, 0, 0, 255]);
    assert_eq!(&preview.data[4..8], &[0, 0, 0, 0]);
}

#[test]
fn opaque_colors_counts_each_color_once() {
    let img = RgbaBuffer {
        width: 4,
        height: 1,
        data: vec![
            10, 20, 30, 255, //
            1, 2, 3, 127, // too transparent
            10, 20, 30, 128, //
            9, 9, 9, 200,
        ],
    };
    let mut colors = opaque_colors(&img);
    colors.sort();
    assert_eq!(colors, vec![((9, 9, 9), 1), ((10, 20, 30), 2)]);
}
