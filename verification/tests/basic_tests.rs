use rustbrush::basic::{canvas_pixel_to_screen_x, canvas_pixel_to_screen_y, find_nearest_color, group_by_color, map_image_to_palette};
use rustbrush::image::RgbaBuffer;
use rustbrush::color::{rust_palette, MappedPixel, PaletteColor};

#[test]
fn color_test_exact_palette_match() {
    let palette = rust_palette();
    let black = find_nearest_color(0, 0, 0, &palette);
    assert_eq!((black.r, black.g, black.b), (0, 0, 0));

    let white = find_nearest_color(255, 255, 255, &palette);
    assert_eq!((white.r, white.g, white.b), (255, 255, 255));
}

#[test]
fn color_test_near_color_match() {
    let palette = rust_palette();
    let color = find_nearest_color(250, 5, 5, &palette);
    assert_eq!((color.r, color.g, color.b), (255, 0, 0));
}

#[test]
fn test_palette_not_empty() {
    let palette = rust_palette();
    assert!(palette.len() >= 20, "Palette should have at least 20 colors");
}

#[test]
fn fixed_canvas_offsets() {
    assert_eq!(canvas_pixel_to_screen_x(0), 400);
    assert_eq!(canvas_pixel_to_screen_x(17), 417);
    assert_eq!(canvas_pixel_to_screen_y(3), 203);
    let px = vec![MappedPixel { x: 1, y: 1, color: PaletteColor::new(0, 0, 0, "000000"), alpha: 255 }];
    assert_eq!(group_by_color(&px, 256, 256).len(), 1);
}

#[test]
fn nearest_color_takes_first_of_equally_near() {
    let palette = vec![PaletteColor::new(10, 0, 0, "0A0000"), PaletteColor::new(0, 10, 0, "000A00")];
    let c = find_nearest_color(5, 5, 0, &palette);
    assert_eq!(c.hex, "0A0000");
}

#[test]
fn basic_mapping_skips_transparent_pixels() {
    let img = RgbaBuffer {
        width: 3,
        height: 1,
        data: vec![250, 5, 5, 0, 250, 5, 5, 128, 10, 10, 240, 127],
    };
    let mapped = map_image_to_palette(&img, &rust_palette());
    assert_eq!(mapped.len(), 1);
    assert_eq!((mapped[0].x, mapped[0].y, mapped[0].alpha), (1, 0, 128));
    assert_eq!(mapped[0].color.hex, "FF0000");
}
