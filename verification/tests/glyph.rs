use image_to_ascii::glyph::{glyph_canvas_sum, MAX_BRIGHTNESS};

#[test]
fn zero_sized_bitmap_measures_zero() {
    assert_eq!(glyph_canvas_sum(&Vec::new(), 0, 0), 0);
    assert_eq!(glyph_canvas_sum(&Vec::new(), 0, 5), 0);
}

#[test]
fn small_bitmap_sums_its_coverage() {
    // A 2 x 2 bitmap fully covered: 4 samples of 255 on the canvas.
    let bitmap = vec![255u8; 4];
    assert_eq!(glyph_canvas_sum(&bitmap, 2, 2), 1020);
    // Mixed coverage sums exactly.
    let bitmap = vec![10u8, 20, 30, 40];
    assert_eq!(glyph_canvas_sum(&bitmap, 2, 2), 100);
}

#[test]
fn full_canvas_reaches_the_maximum() {
    let bitmap = vec![255u8; 100 * 100];
    assert_eq!(glyph_canvas_sum(&bitmap, 100, 100), MAX_BRIGHTNESS);
}

#[test]
fn coverage_outside_the_canvas_is_ignored() {
    // A 150-pixel-wide single row: only the 100 canvas columns count.
    let bitmap = vec![1u8; 150];
    assert_eq!(glyph_canvas_sum(&bitmap, 150, 1), 100);
    // A 150-row single column: only the 100 canvas rows count.
    let bitmap = vec![1u8; 150];
    assert_eq!(glyph_canvas_sum(&bitmap, 1, 150), 100);
}
