//! The conversion pipeline: derive cell sizes from the desired output
//! width, pad the bitmap to exact multiples of the cell size, average each
//! cell, rescale the cell's brightness into the palette's observed
//! brightness range, and pick the nearest character for it.

use vstd::prelude::*;

verus! {

use vstd::arithmetic::div_mod::{
    lemma_div_by_multiple, lemma_div_is_ordered, lemma_fundamental_div_mod,
    lemma_fundamental_div_mod_converse, lemma_mod_division_less_than_divisor,
};
use vstd::arithmetic::mul::lemma_mul_inequality;
use crate::bitmap::{Bitmap, Pixel};
use crate::charset::{nearest_index, CharacterSet};
use crate::sample::{average_cell, chan_a, chan_b, chan_g, chan_r, rect_sum, Rgba};

/// Why a conversion cannot start.
#[derive(Clone, Copy, PartialEq, Eq, Structural, Debug)]
pub enum ConvertError {
    /// The character palette holds no characters.
    EmptyCharset,
    /// The desired output width yields a zero-sized cell.
    InvalidWidth,
}

/// The height in pixels of one output cell: the source width over the
/// desired column count.
pub open spec fn vertical_chunk(w: int, dw: int) -> int {
    w / dw
}

/// The width in pixels of one output cell: half the cell height, because a
/// terminal character cell is roughly twice as tall as it is wide.
pub open spec fn horizontal_chunk(w: int, dw: int) -> int {
    (w / dw) / 2
}

/// Whether the desired width yields usable cell sizes (both at least one
/// pixel).
pub open spec fn chunks_valid(w: int, dw: int) -> bool {
    dw >= 1 && w / dw >= 2
}

/// A dimension padded up to the next multiple of the cell size. A dimension
/// already at a multiple still grows by one full cell.
pub open spec fn padded_dim(dim: int, chunk: int) -> int {
    dim + (chunk - dim % chunk)
}

/// A raw brightness `num / den` in `[0, 1]` rescaled into the palette's
/// observed brightness range `[lo, hi]`, rounded down to a whole brightness
/// unit.
pub open spec fn mapped_query(num: int, den: int, lo: int, hi: int) -> int {
    lo + (num * (hi - lo)) / den
}

/// The brightness query a cell's average sample produces: the mean opacity
/// in colored mode, the mean luminance otherwise, rescaled into `[lo, hi]`.
pub open spec fn sample_query(s: Rgba, colored: bool, lo: int, hi: int) -> int {
    if colored {
        mapped_query(s.a as int, 255 * s.count, lo, hi)
    } else {
        mapped_query(s.r + s.g + s.b, 765 * s.count, lo, hi)
    }
}

/// Rescales the sample's raw brightness (opacity in colored mode, luminance
/// otherwise) into the palette's brightness range `[lo, hi]`.
pub fn map_brightness(s: &Rgba, colored: bool, lo: u32, hi: u32) -> (q: u32)
    requires
        s.wf(),
        lo <= hi,
    ensures
        q == sample_query(*s, colored, lo as int, hi as int),
        lo <= q <= hi,
{
    let (num, den) = if colored {
        s.alpha()
    } else {
        s.brightness()
    };
    let diff = hi - lo;
    proof {
        assert(num <= den);
        assert(den >= 255);
        assert((den as int) < 0x1000_0000_0000_0000_0000);
        assert((num as int) * (diff as int) < 0x1000_0000_0000_0000_0000 * 0x1_0000_0000)
            by (nonlinear_arith)
            requires
                0 <= (num as int) < 0x1000_0000_0000_0000_0000,
                0 <= (diff as int) < 0x1_0000_0000,
        ;
        lemma_mul_inequality(num as int, den as int, diff as int);
        lemma_div_is_ordered(
            (num as int) * (diff as int),
            (den as int) * (diff as int),
            den as int,
        );
        lemma_div_by_multiple(diff as int, den as int);
        assert((den as int) * (diff as int) == (diff as int) * (den as int));
    }
    let scaled = (num * (diff as u128)) / den;
    assert(scaled <= diff);
    lo + (scaled as u32)
}

/// The statable heart of the all-white scenario: a fully opaque cell
/// sample (alpha 255 on every pixel it covers) rescales in colored mode
/// exactly to the top of the palette's brightness range. Together with
/// `lemma_nearest_extremes`, the lookup at that query then picks a
/// character of the highest stored brightness.
pub proof fn lemma_opaque_sample_maps_to_top(s: Rgba, lo: u32, hi: u32)
    requires
        s.count >= 1,
        s.a == 255 * s.count,
        lo <= hi,
    ensures
        sample_query(s, true, lo as int, hi as int) == hi,
{
    let den = 255 * (s.count as int);
    lemma_div_by_multiple((hi - lo) as int, den);
    assert((s.a as int) * ((hi as int) - (lo as int)) == ((hi as int) - (lo as int)) * den)
        by (nonlinear_arith)
        requires
            (s.a as int) == den,
    ;
}

/// The character grid produced by one conversion: row-major cells, each a
/// character and the cell's mean RGB color.
pub struct Grid {
    /// The cells, row-major, `columns * rows` of them.
    pub cells: Vec<(char, (u8, u8, u8))>,
    /// Cells per output row.
    pub columns: usize,
    /// Output rows.
    pub rows: usize,
}

/// The exact average sample of the cell whose top-left pixel is `(x0, y0)`.
pub open spec fn cell_sample(pix: Seq<Pixel>, w: int, x0: int, y0: int, cw: int, ch: int) -> Rgba {
    Rgba {
        r: rect_sum(pix, w, chan_r(), x0, y0, cw, ch) as u64,
        g: rect_sum(pix, w, chan_g(), x0, y0, cw, ch) as u64,
        b: rect_sum(pix, w, chan_b(), x0, y0, cw, ch) as u64,
        a: rect_sum(pix, w, chan_a(), x0, y0, cw, ch) as u64,
        count: (cw * ch) as u64,
    }
}

/// The mean RGB color of that cell, each channel rounded down.
pub open spec fn cell_color(pix: Seq<Pixel>, w: int, x0: int, y0: int, cw: int, ch: int) -> (
    u8,
    u8,
    u8,
) {
    (
        (rect_sum(pix, w, chan_r(), x0, y0, cw, ch) / (cw * ch)) as u8,
        (rect_sum(pix, w, chan_g(), x0, y0, cw, ch) / (cw * ch)) as u8,
        (rect_sum(pix, w, chan_b(), x0, y0, cw, ch) / (cw * ch)) as u8,
    )
}

/// Cell `k` (row-major) of the grid over a padded bitmap: the character
/// whose brightness lies nearest the cell's rescaled brightness, and the
/// cell's mean color.
pub open spec fn cell_value(
    pix: Seq<Pixel>,
    w: int,
    cw: int,
    ch: int,
    columns: int,
    colored: bool,
    cs: Seq<(char, u32)>,
    k: int,
) -> (char, (u8, u8, u8)) {
    let x0 = (k % columns) * cw;
    let y0 = (k / columns) * ch;
    let lo = cs[0].1 as int;
    let hi = cs[cs.len() - 1].1 as int;
    let q = sample_query(cell_sample(pix, w, x0, y0, cw, ch), colored, lo, hi);
    (cs[nearest_index(cs, q as u32)].0, cell_color(pix, w, x0, y0, cw, ch))
}

/// Walks the cells of an exactly-padded bitmap in row-major order and maps
/// each to its character and mean color.
pub fn build_grid(bm: &Bitmap, cw: u32, ch: u32, colored: bool, set: &CharacterSet) -> (g: Grid)
    requires
        cw >= 1,
        ch >= 1,
        bm.spec_width() as int % cw as int == 0,
        bm.spec_height() as int % ch as int == 0,
        255 * ((cw as int) * (ch as int)) <= u64::MAX,
        set@.len() > 0,
    ensures
        g.columns == bm.spec_width() as int / cw as int,
        g.rows == bm.spec_height() as int / ch as int,
        g.cells@.len() == (g.columns as int) * (g.rows as int),
        forall|k: int|
            0 <= k < g.cells@.len() ==> g.cells@[k] == cell_value(
                bm@,
                bm.spec_width() as int,
                cw as int,
                ch as int,
                g.columns as int,
                colored,
                set@,
                k,
            ),
{
    let width = bm.width();
    let height = bm.height();
    let columns: u32 = width / cw;
    let rows: u32 = height / ch;
    proof {
        lemma_fundamental_div_mod(width as int, cw as int);
        lemma_fundamental_div_mod(height as int, ch as int);
        assert(width as int == (cw as int) * (columns as int));
        assert(height as int == (ch as int) * (rows as int));
    }
    let (lo, hi) = match (set.lowest_brightness(), set.highest_brightness()) {
        (Some(l), Some(h)) => (l.1, h.1),
        _ => {
            proof {
                assert(false);
            }
            (0, 0)
        },
    };
    let ghost pix = bm@;
    let ghost w_int = bm.spec_width() as int;
    let mut cells: Vec<(char, (u8, u8, u8))> = Vec::new();
    let mut row: u32 = 0;
    while row < rows
        invariant
            row <= rows,
            columns == width as int / cw as int,
            rows == height as int / ch as int,
            width as int == (cw as int) * (columns as int),
            height as int == (ch as int) * (rows as int),
            cw >= 1,
            ch >= 1,
            255 * ((cw as int) * (ch as int)) <= u64::MAX,
            set@.len() > 0,
            lo == set@[0].1,
            hi == set@[set@.len() - 1].1,
            lo <= hi,
            width == bm.spec_width(),
            height == bm.spec_height(),
            pix == bm@,
            w_int == width as int,
            cells@.len() == (row as int) * (columns as int),
            forall|k: int|
                0 <= k < cells@.len() ==> cells@[k] == cell_value(
                    pix,
                    w_int,
                    cw as int,
                    ch as int,
                    columns as int,
                    colored,
                    set@,
                    k,
                ),
        decreases rows - row,
    {
        let mut col: u32 = 0;
        while col < columns
            invariant
                col <= columns,
                row < rows,
                columns == width as int / cw as int,
                rows == height as int / ch as int,
                width as int == (cw as int) * (columns as int),
                height as int == (ch as int) * (rows as int),
                cw >= 1,
                ch >= 1,
                255 * ((cw as int) * (ch as int)) <= u64::MAX,
                set@.len() > 0,
                lo == set@[0].1,
                hi == set@[set@.len() - 1].1,
                lo <= hi,
                width == bm.spec_width(),
                height == bm.spec_height(),
                pix == bm@,
                w_int == width as int,
                cells@.len() == (row as int) * (columns as int) + col as int,
                forall|k: int|
                    0 <= k < cells@.len() ==> cells@[k] == cell_value(
                        pix,
                        w_int,
                        cw as int,
                        ch as int,
                        columns as int,
                        colored,
                        set@,
                        k,
                    ),
            decreases columns - col,
        {
            proof {
                lemma_mul_inequality(col as int + 1, columns as int, cw as int);
                lemma_mul_inequality(row as int + 1, rows as int, ch as int);
                assert((col as int + 1) * (cw as int) == (col as int) * (cw as int) + cw as int)
                    by (nonlinear_arith);
                assert((row as int + 1) * (ch as int) == (row as int) * (ch as int) + ch as int)
                    by (nonlinear_arith);
                assert((cw as int) * (columns as int) == (columns as int) * (cw as int));
                assert((ch as int) * (rows as int) == (rows as int) * (ch as int));
            }
            let x0: u32 = col * cw;
            let y0: u32 = row * ch;
            let s = average_cell(bm, x0, y0, cw, ch);
            let q = map_brightness(&s, colored, lo, hi);
            let c = match set.nearest_brightness(q) {
                Some(c) => c,
                None => ' ',
            };
            let color = s.to_rgb8();
            let ghost k = cells@.len() as int;
            cells.push((c, color));
            proof {
                lemma_fundamental_div_mod_converse(
                    k,
                    columns as int,
                    row as int,
                    col as int,
                );
                assert(cell_sample(pix, w_int, x0 as int, y0 as int, cw as int, ch as int) == s);
                assert(cells@[k] == cell_value(
                    pix,
                    w_int,
                    cw as int,
                    ch as int,
                    columns as int,
                    colored,
                    set@,
                    k,
                ));
            }
            col = col + 1;
        }
        proof {
            assert((row as int) * (columns as int) + columns as int == (row as int + 1) * (
            columns as int)) by (nonlinear_arith);
        }
        row = row + 1;
    }
    proof {
        assert((rows as int) * (columns as int) == (columns as int) * (rows as int))
            by (nonlinear_arith);
    }
    Grid { cells, columns: columns as usize, rows: rows as usize }
}

/// Converts a bitmap into a character grid: derives the cell sizes from the
/// desired column count, pads the bitmap up to exact multiples of them by
/// resampling, and maps every cell. Fails on an empty palette or on a
/// desired width that yields a zero-sized cell, and only on those.
pub fn convert(bm: &Bitmap, desired_width: u32, colored: bool, set: &CharacterSet) -> (r: Result<
    Grid,
    ConvertError,
>)
    requires
        set@.len() > 0 && chunks_valid(bm.spec_width() as int, desired_width as int) ==> {
            let hc = horizontal_chunk(bm.spec_width() as int, desired_width as int);
            let vc = vertical_chunk(bm.spec_width() as int, desired_width as int);
            let pw = padded_dim(bm.spec_width() as int, hc);
            let ph = padded_dim(bm.spec_height() as int, vc);
            &&& pw <= u32::MAX
            &&& ph <= u32::MAX
            &&& 255 * (pw * ph) <= u64::MAX
            &&& 4 * (pw * ph) <= usize::MAX
        },
    ensures
        r == Err::<Grid, ConvertError>(ConvertError::EmptyCharset) <==> set@.len() == 0,
        r == Err::<Grid, ConvertError>(ConvertError::InvalidWidth) <==> set@.len() > 0
            && !chunks_valid(bm.spec_width() as int, desired_width as int),
        r matches Ok(g) ==> {
            let hc = horizontal_chunk(bm.spec_width() as int, desired_width as int);
            let vc = vertical_chunk(bm.spec_width() as int, desired_width as int);
            let pw = padded_dim(bm.spec_width() as int, hc);
            let ph = padded_dim(bm.spec_height() as int, vc);
            &&& set@.len() > 0
            &&& chunks_valid(bm.spec_width() as int, desired_width as int)
            &&& g.columns == pw / hc
            &&& g.rows == ph / vc
            &&& g.columns >= 1
            &&& g.rows >= 1
            &&& g.cells@.len() == (g.columns as int) * (g.rows as int)
            &&& exists|pix: Seq<Pixel>|
                #[trigger] pix.len() == pw * ph && forall|k: int|
                    0 <= k < g.cells@.len() ==> g.cells@[k] == cell_value(
                        pix,
                        pw,
                        hc,
                        vc,
                        g.columns as int,
                        colored,
                        set@,
                        k,
                    )
        },
{
    if set.chars().len() == 0 {
        return Err(ConvertError::EmptyCharset);
    }
    if desired_width == 0 {
        return Err(ConvertError::InvalidWidth);
    }
    let width = bm.width();
    let height = bm.height();
    let vc = width / desired_width;
    let hc = vc / 2;
    if hc == 0 {
        return Err(ConvertError::InvalidWidth);
    }
    proof {
        lemma_mod_division_less_than_divisor(width as int, hc as int);
        lemma_mod_division_less_than_divisor(height as int, vc as int);
    }
    let w_corr = hc - width % hc;
    let h_corr = vc - height % vc;
    let pw64 = (width as u64) + (w_corr as u64);
    let ph64 = (height as u64) + (h_corr as u64);
    let pw = pw64 as u32;
    let ph = ph64 as u32;
    proof {
        lemma_fundamental_div_mod(width as int, hc as int);
        lemma_fundamental_div_mod(height as int, vc as int);
        assert(pw as int == (hc as int) * (width as int / hc as int) + hc as int);
        assert(ph as int == (vc as int) * (height as int / vc as int) + vc as int);
        assert((width as int / hc as int + 1) * (hc as int) == (hc as int) * (width as int
            / hc as int) + hc as int) by (nonlinear_arith);
        assert((height as int / vc as int + 1) * (vc as int) == (vc as int) * (height as int
            / vc as int) + vc as int) by (nonlinear_arith);
        lemma_fundamental_div_mod_converse(
            pw as int,
            hc as int,
            width as int / hc as int + 1,
            0,
        );
        lemma_fundamental_div_mod_converse(
            ph as int,
            vc as int,
            height as int / vc as int + 1,
            0,
        );
        assert((hc as int) * (vc as int) <= (pw as int) * (ph as int)) by (nonlinear_arith)
            requires
                1 <= hc as int <= pw as int,
                1 <= vc as int <= ph as int,
        ;
        lemma_mul_inequality(width as int, pw as int, ph as int);
    }
    let padded = bm.resized(pw, ph);
    let g = build_grid(&padded, hc, vc, colored, set);
    proof {
        let ghost pixw = padded@;
        assert(pixw.len() == (pw as int) * (ph as int));
        assert(exists|pix: Seq<Pixel>|
            #[trigger] pix.len() == (pw as int) * (ph as int) && forall|k: int|
                0 <= k < g.cells@.len() ==> g.cells@[k] == cell_value(
                    pix,
                    pw as int,
                    hc as int,
                    vc as int,
                    g.columns as int,
                    colored,
                    set@,
                    k,
                )) by {
            assert(pixw.len() == (pw as int) * (ph as int) && forall|k: int|
                0 <= k < g.cells@.len() ==> g.cells@[k] == cell_value(
                    pixw,
                    pw as int,
                    hc as int,
                    vc as int,
                    g.columns as int,
                    colored,
                    set@,
                    k,
                ));
        };
    }
    Ok(g)
}

} // verus!
