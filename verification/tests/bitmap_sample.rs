use image_to_ascii::{average_cell, Bitmap, Pixel, Rgba};

fn px(r: u8, g: u8, b: u8, a: u8) -> Pixel {
    Pixel { r, g, b, a }
}

#[test]
fn from_pixels_checks_the_count() {
    let pixels = vec![px(1, 2, 3, 4), px(5, 6, 7, 8)];
    assert!(Bitmap::from_pixels(2, 1, pixels.clone()).is_some());
    assert!(Bitmap::from_pixels(2, 2, pixels).is_none());
}

#[test]
fn from_rgba_bytes_groups_four_bytes_per_pixel() {
    let bytes = vec![1, 2, 3, 4, 5, 6, 7, 8];
    let bm = Bitmap::from_rgba_bytes(2, 1, &bytes).unwrap();
    assert_eq!(bm.width(), 2);
    assert_eq!(bm.height(), 1);
    assert_eq!(bm.pixel(0, 0), px(1, 2, 3, 4));
    assert_eq!(bm.pixel(1, 0), px(5, 6, 7, 8));
    assert!(Bitmap::from_rgba_bytes(2, 2, &bytes).is_none());
}

#[test]
fn to_rgba_bytes_round_trips() {
    let pixels = vec![px(9, 8, 7, 6), px(5, 4, 3, 2)];
    let bm = Bitmap::from_pixels(1, 2, pixels).unwrap();
    assert_eq!(bm.to_rgba_bytes(), vec![9, 8, 7, 6, 5, 4, 3, 2]);
}

#[test]
fn resized_changes_the_dimensions() {
    let pixels = vec![px(200, 200, 200, 255); 4];
    let bm = Bitmap::from_pixels(2, 2, pixels).unwrap();
    let out = bm.resized(3, 4);
    assert_eq!(out.width(), 3);
    assert_eq!(out.height(), 4);
    assert_eq!(out.len(), 12);
}

#[test]
fn resized_keeps_a_uniform_color() {
    let pixels = vec![px(255, 255, 255, 255); 4];
    let bm = Bitmap::from_pixels(2, 2, pixels).unwrap();
    let out = bm.resized(3, 4);
    for y in 0..4 {
        for x in 0..3 {
            assert_eq!(out.pixel(x, y), px(255, 255, 255, 255));
        }
    }
}

#[test]
fn average_cell_sums_exactly() {
    let pixels = vec![
        px(10, 20, 30, 40),
        px(50, 60, 70, 80),
        px(90, 100, 110, 120),
        px(130, 140, 150, 160),
    ];
    let bm = Bitmap::from_pixels(2, 2, pixels).unwrap();
    let s = average_cell(&bm, 0, 0, 2, 2);
    assert_eq!(s, Rgba { r: 280, g: 320, b: 360, a: 400, count: 4 });
    assert_eq!(s.to_rgb8(), (70, 80, 90));
    assert_eq!(s.brightness(), (960, 3060));
    assert_eq!(s.alpha(), (400, 1020));
}

#[test]
fn average_cell_respects_the_cell_bounds() {
    let pixels = vec![
        px(10, 20, 30, 40),
        px(50, 60, 70, 80),
        px(90, 100, 110, 120),
        px(130, 140, 150, 160),
    ];
    let bm = Bitmap::from_pixels(2, 2, pixels).unwrap();
    // The right column only.
    let s = average_cell(&bm, 1, 0, 1, 2);
    assert_eq!(s, Rgba { r: 180, g: 200, b: 220, a: 240, count: 2 });
    assert_eq!(s.to_rgb8(), (90, 100, 110));
}

#[test]
fn uniform_cell_average_is_exact() {
    let pixels = vec![px(37, 111, 203, 89); 12];
    let bm = Bitmap::from_pixels(4, 3, pixels).unwrap();
    let s = average_cell(&bm, 0, 0, 4, 3);
    assert_eq!(s.count, 12);
    assert_eq!(s.to_rgb8(), (37, 111, 203));
    assert_eq!(s, Rgba { r: 37 * 12, g: 111 * 12, b: 203 * 12, a: 89 * 12, count: 12 });
}

#[test]
fn single_pixel_sample() {
    let s = Rgba::from_rbga8(12, 34, 56, 78);
    assert_eq!(s, Rgba { r: 12, g: 34, b: 56, a: 78, count: 1 });
    assert_eq!(s.to_rgb8(), (12, 34, 56));
    assert_eq!(s.brightness(), (102, 765));
    assert_eq!(s.alpha(), (78, 255));
}
