use rustbrush::image::{
    crop, fill_dimensions, median_filter, fit_dimensions, flip_horizontal, flip_vertical, is_gif, resize, rotate_180,
    rotate_270, rotate_90, select_evenly_spaced, AspectRatio, RgbaBuffer,
};

fn sample_image(w: u32, h: u32) -> RgbaBuffer {
    let mut data = Vec::new();
    for y in 0..h {
        for x in 0..w {
            data.extend_from_slice(&[x as u8, y as u8, (x * 7 + y) as u8, 255]);
        }
    }
    RgbaBuffer { width: w, height: h, data }
}

fn px(img: &RgbaBuffer, x: u32, y: u32) -> [u8; 4] {
    let i = ((y * img.width + x) * 4) as usize;
    [img.data[i], img.data[i + 1], img.data[i + 2], img.data[i + 3]]
}

#[test]
fn test_fit_dimensions() {
    let (w, h) = fit_dimensions(200, 100, 100, 100);
    assert_eq!((w, h), (100, 50));
}

#[test]
fn test_fill_dimensions() {
    let (w, h) = fill_dimensions(200, 100, 100, 100);
    assert_eq!((w, h), (200, 100));
}

#[test]
fn test_resize_stretch() {
    let img = RgbaBuffer::new(100, 50);
    let resized = resize(&img, 200, 200, AspectRatio::Stretch);
    assert_eq!(resized.width, 200);
    assert_eq!(resized.height, 200);
}

#[test]
fn test_select_evenly_spaced_basic() {
    assert_eq!(select_evenly_spaced(30, 5), vec![0, 7, 14, 21, 29]);
    assert_eq!(select_evenly_spaced(5, 5), vec![0, 1, 2, 3, 4]);
    assert_eq!(select_evenly_spaced(10, 3), vec![0, 4, 9]);
    assert_eq!(select_evenly_spaced(1, 5), vec![0]);
    assert_eq!(select_evenly_spaced(2, 5), vec![0, 1]);
}

#[test]
fn test_select_evenly_spaced_edge_cases() {
    assert_eq!(select_evenly_spaced(0, 5), Vec::<usize>::new());
    assert_eq!(select_evenly_spaced(10, 0), Vec::<usize>::new());
    assert_eq!(select_evenly_spaced(10, 1), vec![0]);
}

#[test]
fn test_is_gif() {
    assert!(is_gif("test.gif"));
    assert!(is_gif("test.GIF"));
    assert!(!is_gif("test.png"));
    assert!(!is_gif("test"));
}

#[test]
fn fit_and_fill_on_tall_sources() {
    assert_eq!(fit_dimensions(100, 300, 90, 90), (30, 90));
    assert_eq!(fill_dimensions(100, 300, 90, 90), (90, 270));
    assert_eq!(fill_dimensions(3, 7, 10, 10), (10, 24));
}

#[test]
fn rotations_move_pixels() {
    let img = sample_image(3, 2);
    let r = rotate_90(&img);
    assert_eq!((r.width, r.height), (2, 3));
    // clockwise: source (x, y) lands at (h - 1 - y, x)
    assert_eq!(px(&r, 1, 0), px(&img, 0, 0));
    assert_eq!(px(&r, 0, 2), px(&img, 2, 1));
    let back = rotate_270(&r);
    assert_eq!(back.data, img.data);
    let twice = rotate_90(&r);
    assert_eq!(twice.data, rotate_180(&img).data);
}

#[test]
fn flips_mirror_and_undo_themselves() {
    let img = sample_image(4, 3);
    let h = flip_horizontal(&img);
    assert_eq!(px(&h, 0, 1), px(&img, 3, 1));
    assert_eq!(flip_horizontal(&h).data, img.data);
    let v = flip_vertical(&img);
    assert_eq!(px(&v, 2, 0), px(&img, 2, 2));
    assert_eq!(flip_vertical(&v).data, img.data);
}

#[test]
fn crop_clamps_to_the_image() {
    let img = sample_image(5, 4);
    let c = crop(&img, 3, 1, 10, 2);
    assert_eq!((c.width, c.height), (2, 2));
    assert_eq!(px(&c, 0, 0), px(&img, 3, 1));
    assert_eq!(px(&c, 1, 1), px(&img, 4, 2));
    let outside = crop(&img, 9, 9, 3, 3);
    assert_eq!((outside.width, outside.height), (0, 0));
}

#[test]
fn resize_fit_and_fill_sizes() {
    let img = sample_image(20, 10);
    let fit = resize(&img, 10, 10, AspectRatio::Fit);
    assert_eq!((fit.width, fit.height), (10, 5));
    let fill = resize(&img, 10, 10, AspectRatio::Fill);
    assert_eq!((fill.width, fill.height), (10, 10));
    let same = resize(&img, 20, 10, AspectRatio::Stretch);
    assert_eq!(same.data, img.data);
}

#[test]
fn test_median_filter_uniform_image() {
    let mut data = Vec::new();
    for _ in 0..25 {
        data.extend_from_slice(&[100, 150, 200, 255]);
    }
    let img = RgbaBuffer { width: 5, height: 5, data };
    let result = median_filter(&img, 1);
    for p in result.data.chunks(4) {
        assert_eq!(p, &[100, 150, 200, 255]);
    }
}

#[test]
fn median_filter_removes_a_speck_and_keeps_alpha() {
    let mut img = RgbaBuffer::new(3, 3);
    for i in 0..9 {
        img.data[i * 4..i * 4 + 4].copy_from_slice(&[10, 20, 30, 7]);
    }
    img.data[4 * 4..4 * 4 + 4].copy_from_slice(&[250, 250, 250, 99]);
    let out = median_filter(&img, 1);
    assert_eq!(px(&out, 1, 1), [10, 20, 30, 99]);
    assert_eq!(px(&out, 0, 0), [10, 20, 30, 7]);
}

#[test]
fn fit_and_fill_with_an_empty_side() {
    assert_eq!(fit_dimensions(0, 10, 100, 50), (0, 50));
    assert_eq!(fit_dimensions(10, 0, 100, 50), (100, 0));
    assert_eq!(fit_dimensions(0, 0, 100, 50), (0, 0));
    assert_eq!(fill_dimensions(0, 10, 100, 50), (0, u32::MAX));
    assert_eq!(fill_dimensions(0, 10, 0, 50), (0, 50));
    assert_eq!(fill_dimensions(10, 0, 100, 0), (100, 0));
    assert_eq!(fill_dimensions(0, 0, 100, 50), (0, 0));
}
