//! Glyph rasterization and brightness measurement.
//!
//! A glyph's brightness is the total coverage of its rasterized bitmap
//! sampled over a fixed 100 x 100 canvas, with out-of-bounds canvas pixels
//! counting as zero coverage. The fixed canvas (rather than the glyph's tight
//! bounding box) keeps narrow glyphs from being boosted in brightness
//! relative to wide ones. Brightness is reported as an integer in
//! `0 ..= 2_550_000` (the canvas area times the maximum per-pixel coverage
//! of 255); full brightness is `2_550_000`.

use vstd::prelude::*;

verus! {

/// The greatest brightness a glyph can measure: 100 * 100 canvas pixels at
/// coverage 255 each.
pub const MAX_BRIGHTNESS: u32 = 2_550_000;

#[verifier::external_type_specification]
#[verifier::external_body]
pub struct ExFont(fontdue::Font);

/// Coverage that canvas pixel `(x, y)` takes from a rasterized bitmap of
/// `w` columns and `h` rows: the bitmap sample inside the glyph's bounds,
/// zero outside them.
pub open spec fn coverage_at(bm: Seq<u8>, w: int, h: int, x: int, y: int) -> int {
    if 0 <= x < w && 0 <= y < h {
        bm[y * w + x] as int
    } else {
        0
    }
}

/// Sum of the coverage of the first `n` canvas pixels of row `y`.
pub open spec fn canvas_row_sum(bm: Seq<u8>, w: int, h: int, y: int, n: int) -> int
    decreases n,
{
    if n <= 0 {
        0
    } else {
        canvas_row_sum(bm, w, h, y, n - 1) + coverage_at(bm, w, h, n - 1, y)
    }
}

/// Sum of the coverage of the first `m` full canvas rows.
pub open spec fn canvas_sum_rows(bm: Seq<u8>, w: int, h: int, m: int) -> int
    decreases m,
{
    if m <= 0 {
        0
    } else {
        canvas_sum_rows(bm, w, h, m - 1) + canvas_row_sum(bm, w, h, m - 1, 100)
    }
}

/// The brightness measured for a rasterized bitmap: total coverage over the
/// whole 100 x 100 canvas.
pub open spec fn canvas_brightness(bm: Seq<u8>, w: int, h: int) -> int {
    canvas_sum_rows(bm, w, h, 100)
}

proof fn lemma_row_sum_bound(bm: Seq<u8>, w: int, h: int, y: int, n: int)
    requires
        n >= 0,
    ensures
        0 <= canvas_row_sum(bm, w, h, y, n) <= 255 * n,
    decreases n,
{
    if n > 0 {
        lemma_row_sum_bound(bm, w, h, y, n - 1);
    }
}

proof fn lemma_rows_bound(bm: Seq<u8>, w: int, h: int, m: int)
    requires
        m >= 0,
    ensures
        0 <= canvas_sum_rows(bm, w, h, m) <= 25500 * m,
    decreases m,
{
    if m > 0 {
        lemma_rows_bound(bm, w, h, m - 1);
        lemma_row_sum_bound(bm, w, h, m - 1, 100);
    }
}

/// Measures the brightness of a rasterized glyph bitmap of `width` columns
/// and `height` rows over the fixed canvas.
pub fn glyph_canvas_sum(bitmap: &Vec<u8>, width: usize, height: usize) -> (sum: u32)
    requires
        bitmap@.len() >= width * height,
    ensures
        sum == canvas_brightness(bitmap@, width as int, height as int),
        sum <= MAX_BRIGHTNESS,
{
    let ghost w = width as int;
    let ghost h = height as int;
    let len: usize = bitmap.len();
    let mut sum: u32 = 0;
    let mut y: usize = 0;
    while y < 100
        invariant
            y <= 100,
            len == bitmap@.len(),
            bitmap@.len() >= width * height,
            sum == canvas_sum_rows(bitmap@, w, h, y as int),
            sum <= 25500 * y,
            w == width as int,
            h == height as int,
        decreases 100 - y,
    {
        let mut x: usize = 0;
        let mut row: u32 = 0;
        while x < 100
            invariant
                x <= 100,
                y < 100,
                len == bitmap@.len(),
                bitmap@.len() >= width * height,
                row == canvas_row_sum(bitmap@, w, h, y as int, x as int),
                row <= 255 * x,
                w == width as int,
                h == height as int,
            decreases 100 - x,
        {
            let c: u8 = if x < width && y < height {
                proof {
                    assert((y as int) * (width as int) + (x as int) < (width as int) * (
                    height as int)) by (nonlinear_arith)
                        requires
                            (x as int) < (width as int),
                            (y as int) < (height as int),
                    ;
                }
                bitmap[y * width + x]
            } else {
                0
            };
            assert(c as int == coverage_at(bitmap@, w, h, x as int, y as int));
            row = row + c as u32;
            x = x + 1;
        }
        proof {
            lemma_rows_bound(bitmap@, w, h, y as int);
        }
        sum = sum + row;
        y = y + 1;
    }
    proof {
        lemma_rows_bound(bitmap@, w, h, 100);
    }
    sum
}

/// Relies on fontdue's `Font::rasterize`: rasterizing a character at a fixed
/// point size yields pixel metrics and a coverage bitmap holding at least
/// `width * height` one-byte samples (the bitmap may be padded past that
/// length).
#[verifier::external_body]
fn rasterize_glyph(font: &fontdue::Font, c: char) -> (r: (usize, usize, Vec<u8>))
    ensures
        r.2@.len() >= r.0 * r.1,
{
    let (metrics, bitmap) = font.rasterize(c, 100u8.into());
    (metrics.width, metrics.height, bitmap)
}

/// Rasterizes `glyph` through the font and measures its brightness over the
/// fixed canvas. Glyphs that rasterize to a zero-sized bitmap measure 0.
pub fn average_brightness(glyph: char, font: &fontdue::Font) -> (b: u32)
    ensures
        b <= MAX_BRIGHTNESS,
{
    let (width, height, bitmap) = rasterize_glyph(font, glyph);
    glyph_canvas_sum(&bitmap, width, height)
}

} // verus!
