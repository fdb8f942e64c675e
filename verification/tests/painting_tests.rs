use rustbrush::color::{MappedPixel, PaletteColor};
use rustbrush::painting::{group_by_color, pixel_to_screen, ScreenRect};

#[test]
fn test_group_by_color() {
    let pixels = vec![
        MappedPixel { x: 0, y: 0, color: PaletteColor::new(255, 0, 0, "FF0000"), alpha: 255 },
        MappedPixel { x: 1, y: 0, color: PaletteColor::new(0, 0, 255, "0000FF"), alpha: 255 },
        MappedPixel { x: 2, y: 0, color: PaletteColor::new(255, 0, 0, "FF0000"), alpha: 255 },
    ];
    let groups = group_by_color(&pixels);
    assert_eq!(groups.len(), 2);
    // Red group should be first (2 pixels > 1 pixel)
    assert_eq!(groups[0].pixels.len(), 2);
    assert_eq!(groups[1].pixels.len(), 1);
}

#[test]
fn test_pixel_to_screen() {
    let canvas = ScreenRect { x: 100, y: 200, width: 400, height: 300 };
    let (sx, sy) = pixel_to_screen(0, 0, 100, 100, &canvas);
    assert_eq!((sx, sy), (100, 200));

    let (sx, sy) = pixel_to_screen(50, 50, 100, 100, &canvas);
    assert_eq!((sx, sy), (300, 350));
}

#[test]
fn test_empty_pixels_group() {
    let groups = group_by_color(&[]);
    assert!(groups.is_empty());
}

#[test]
fn grouping_keeps_every_pixel_with_its_color() {
    let pixels = vec![
        MappedPixel { x: 3, y: 1, color: PaletteColor::new(0, 255, 0, "00FF00"), alpha: 255 },
        MappedPixel { x: 0, y: 0, color: PaletteColor::new(255, 0, 0, "FF0000"), alpha: 255 },
        MappedPixel { x: 5, y: 2, color: PaletteColor::new(0, 255, 0, "00FF00"), alpha: 255 },
        MappedPixel { x: 7, y: 7, color: PaletteColor::new(0, 255, 0, "00FF00"), alpha: 255 },
    ];
    let groups = group_by_color(&pixels);
    assert_eq!(groups.len(), 2);
    assert_eq!(groups[0].color, (0, 255, 0));
    assert_eq!(groups[0].hex, "00FF00");
    assert_eq!(groups[0].pixels, vec![(3, 1), (5, 2), (7, 7)]);
    assert_eq!(groups[1].pixels, vec![(0, 0)]);
    let total: usize = groups.iter().map(|g| g.pixels.len()).sum();
    assert_eq!(total, pixels.len());
}

#[test]
fn pixel_to_screen_rounds_down() {
    let canvas = ScreenRect { x: -10, y: 5, width: 100, height: 7 };
    // 1 * 100 / 3 = 33.3 -> 33; 2 * 7 / 3 = 4.67 -> 4
    assert_eq!(pixel_to_screen(1, 2, 3, 3, &canvas), (23, 9));
}
