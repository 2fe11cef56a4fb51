//! Block averaging: summing the RGBA channels of a rectangular cell of the
//! bitmap exactly, so that the cell's mean color and brightness come out of
//! integer arithmetic with no loss.

use vstd::prelude::*;

verus! {

use vstd::arithmetic::div_mod::{lemma_div_by_multiple, lemma_div_is_ordered};
use crate::bitmap::{Bitmap, Pixel};

/// Reads the red channel of a pixel.
pub open spec fn chan_r() -> spec_fn(Pixel) -> int {
    |p: Pixel| p.r as int
}

/// Reads the green channel of a pixel.
pub open spec fn chan_g() -> spec_fn(Pixel) -> int {
    |p: Pixel| p.g as int
}

/// Reads the blue channel of a pixel.
pub open spec fn chan_b() -> spec_fn(Pixel) -> int {
    |p: Pixel| p.b as int
}

/// Reads the alpha channel of a pixel.
pub open spec fn chan_a() -> spec_fn(Pixel) -> int {
    |p: Pixel| p.a as int
}

/// Sum of channel `f` over the first `n` pixels of row `y` starting at
/// column `x0`, in a bitmap of `w` columns held row-major in `pix`.
pub open spec fn row_sum(
    pix: Seq<Pixel>,
    w: int,
    f: spec_fn(Pixel) -> int,
    y: int,
    x0: int,
    n: int,
) -> int
    decreases n,
{
    if n <= 0 {
        0
    } else {
        row_sum(pix, w, f, y, x0, n - 1) + f(pix[y * w + x0 + (n - 1)])
    }
}

/// Sum of channel `f` over a cell of `cw` columns and `m` rows whose
/// top-left pixel is `(x0, y0)`.
pub open spec fn rect_sum(
    pix: Seq<Pixel>,
    w: int,
    f: spec_fn(Pixel) -> int,
    x0: int,
    y0: int,
    cw: int,
    m: int,
) -> int
    decreases m,
{
    if m <= 0 {
        0
    } else {
        rect_sum(pix, w, f, x0, y0, cw, m - 1) + row_sum(pix, w, f, y0 + m - 1, x0, cw)
    }
}

proof fn lemma_row_sum_bound(pix: Seq<Pixel>, w: int, f: spec_fn(Pixel) -> int, y: int, x0: int, n: int)
    requires
        n >= 0,
        forall|p: Pixel| 0 <= #[trigger] f(p) <= 255,
    ensures
        0 <= row_sum(pix, w, f, y, x0, n) <= 255 * n,
    decreases n,
{
    if n > 0 {
        lemma_row_sum_bound(pix, w, f, y, x0, n - 1);
    }
}

proof fn lemma_rect_sum_bound(
    pix: Seq<Pixel>,
    w: int,
    f: spec_fn(Pixel) -> int,
    x0: int,
    y0: int,
    cw: int,
    m: int,
)
    requires
        cw >= 0,
        m >= 0,
        forall|p: Pixel| 0 <= #[trigger] f(p) <= 255,
    ensures
        0 <= rect_sum(pix, w, f, x0, y0, cw, m) <= 255 * (cw * m),
    decreases m,
{
    if m > 0 {
        lemma_rect_sum_bound(pix, w, f, x0, y0, cw, m - 1);
        lemma_row_sum_bound(pix, w, f, y0 + m - 1, x0, cw);
        assert(255 * (cw * (m - 1)) + 255 * cw == 255 * (cw * m)) by (nonlinear_arith);
    }
}

proof fn lemma_row_sum_uniform(
    pix: Seq<Pixel>,
    w: int,
    h: int,
    f: spec_fn(Pixel) -> int,
    v: int,
    y: int,
    x0: int,
    n: int,
)
    requires
        pix.len() == w * h,
        forall|i: int| 0 <= i < pix.len() ==> #[trigger] f(pix[i]) == v,
        0 <= x0,
        0 <= n,
        x0 + n <= w,
        0 <= y < h,
    ensures
        row_sum(pix, w, f, y, x0, n) == v * n,
    decreases n,
{
    if n > 0 {
        lemma_row_sum_uniform(pix, w, h, f, v, y, x0, n - 1);
        assert(0 <= y * w + x0 + (n - 1) < w * h) by (nonlinear_arith)
            requires
                0 <= x0,
                0 < n,
                x0 + n <= w,
                0 <= y < h,
        ;
        assert(f(pix[y * w + x0 + (n - 1)]) == v);
        assert(v * (n - 1) + v == v * n) by (nonlinear_arith);
        assert(row_sum(pix, w, f, y, x0, n) == row_sum(pix, w, f, y, x0, n - 1) + f(
        pix[y * w + x0 + (n - 1)]));
        assert(row_sum(pix, w, f, y, x0, n) == v * n);
    } else {
        assert(n == 0);
        assert(row_sum(pix, w, f, y, x0, 0) == 0);
        assert(v * n == 0);
    }
}

proof fn lemma_rect_sum_uniform(
    pix: Seq<Pixel>,
    w: int,
    h: int,
    f: spec_fn(Pixel) -> int,
    v: int,
    x0: int,
    y0: int,
    cw: int,
    m: int,
)
    requires
        pix.len() == w * h,
        forall|i: int| 0 <= i < pix.len() ==> #[trigger] f(pix[i]) == v,
        0 <= x0,
        0 <= y0,
        0 <= cw,
        0 <= m,
        x0 + cw <= w,
        y0 + m <= h,
    ensures
        rect_sum(pix, w, f, x0, y0, cw, m) == v * (cw * m),
    decreases m,
{
    if m > 0 {
        lemma_rect_sum_uniform(pix, w, h, f, v, x0, y0, cw, m - 1);
        lemma_row_sum_uniform(pix, w, h, f, v, y0 + m - 1, x0, cw);
        assert(v * (cw * (m - 1)) + v * cw == v * (cw * m)) by (nonlinear_arith);
        assert(rect_sum(pix, w, f, x0, y0, cw, m) == rect_sum(pix, w, f, x0, y0, cw, m - 1)
            + row_sum(pix, w, f, y0 + m - 1, x0, cw));
        assert(rect_sum(pix, w, f, x0, y0, cw, m) == v * (cw * m));
    } else {
        assert(m == 0);
        assert(rect_sum(pix, w, f, x0, y0, cw, 0) == 0);
        assert(v * (cw * 0) == 0) by (nonlinear_arith);
    }
}

/// Block averaging is exact on a uniform image: over a bitmap whose pixels
/// all equal `p`, any cell's channel sums are `p`'s channel values times the
/// cell's pixel count, so the cell's average color is exactly `p`.
pub proof fn lemma_uniform_cell_average(
    pix: Seq<Pixel>,
    w: int,
    h: int,
    p: Pixel,
    x0: int,
    y0: int,
    cw: int,
    ch: int,
)
    requires
        pix.len() == w * h,
        forall|i: int| 0 <= i < pix.len() ==> pix[i] == p,
        0 <= x0,
        0 <= y0,
        1 <= cw,
        1 <= ch,
        x0 + cw <= w,
        y0 + ch <= h,
    ensures
        rect_sum(pix, w, chan_r(), x0, y0, cw, ch) == p.r * (cw * ch),
        rect_sum(pix, w, chan_g(), x0, y0, cw, ch) == p.g * (cw * ch),
        rect_sum(pix, w, chan_b(), x0, y0, cw, ch) == p.b * (cw * ch),
        rect_sum(pix, w, chan_a(), x0, y0, cw, ch) == p.a * (cw * ch),
        rect_sum(pix, w, chan_r(), x0, y0, cw, ch) / (cw * ch) == p.r,
        rect_sum(pix, w, chan_g(), x0, y0, cw, ch) / (cw * ch) == p.g,
        rect_sum(pix, w, chan_b(), x0, y0, cw, ch) / (cw * ch) == p.b,
        rect_sum(pix, w, chan_a(), x0, y0, cw, ch) / (cw * ch) == p.a,
{
    assert(forall|i: int| 0 <= i < pix.len() ==> #[trigger] chan_r()(pix[i]) == p.r as int);
    assert(forall|i: int| 0 <= i < pix.len() ==> #[trigger] chan_g()(pix[i]) == p.g as int);
    assert(forall|i: int| 0 <= i < pix.len() ==> #[trigger] chan_b()(pix[i]) == p.b as int);
    assert(forall|i: int| 0 <= i < pix.len() ==> #[trigger] chan_a()(pix[i]) == p.a as int);
    lemma_rect_sum_uniform(pix, w, h, chan_r(), p.r as int, x0, y0, cw, ch);
    lemma_rect_sum_uniform(pix, w, h, chan_g(), p.g as int, x0, y0, cw, ch);
    lemma_rect_sum_uniform(pix, w, h, chan_b(), p.b as int, x0, y0, cw, ch);
    lemma_rect_sum_uniform(pix, w, h, chan_a(), p.a as int, x0, y0, cw, ch);
    assert(cw * ch >= 1) by (nonlinear_arith)
        requires
            1 <= cw,
            1 <= ch,
    ;
    lemma_div_by_multiple(p.r as int, cw * ch);
    lemma_div_by_multiple(p.g as int, cw * ch);
    lemma_div_by_multiple(p.b as int, cw * ch);
    lemma_div_by_multiple(p.a as int, cw * ch);
}

/// An average sample of a cell: the exact per-channel sums over the cell's
/// pixels, together with the pixel count. The cell's mean value of a channel
/// is the channel's sum divided by the count; holding the sum rather than
/// the quotient keeps the averages exact.
#[derive(Clone, Copy, PartialEq, Eq, Structural, Debug)]
pub struct Rgba {
    pub r: u64,
    pub g: u64,
    pub b: u64,
    pub a: u64,
    pub count: u64,
}

impl Rgba {
    /// A sample is well-formed when it covers at least one pixel and each
    /// channel sum is at most 255 per pixel covered.
    pub open spec fn wf(&self) -> bool {
        &&& self.count >= 1
        &&& self.r <= 255 * self.count
        &&& self.g <= 255 * self.count
        &&& self.b <= 255 * self.count
        &&& self.a <= 255 * self.count
    }

    /// The sample of a single RGBA8 pixel.
    pub fn from_rbga8(r: u8, g: u8, b: u8, a: u8) -> (s: Self)
        ensures
            s == (Rgba { r: r as u64, g: g as u64, b: b as u64, a: a as u64, count: 1u64 }),
            s.wf(),
    {
        Rgba { r: r as u64, g: g as u64, b: b as u64, a: a as u64, count: 1 }
    }

    /// The cell's mean luminance as an exact rational `(numerator,
    /// denominator)`: the sum of the three color channels over three times
    /// 255 per pixel, a value in `[0, 1]`.
    pub fn brightness(&self) -> (q: (u128, u128))
        ensures
            q.0 == self.r + self.g + self.b,
            q.1 == 765 * self.count,
    {
        ((self.r as u128) + (self.g as u128) + (self.b as u128), 765u128 * (self.count as u128))
    }

    /// The cell's mean opacity as an exact rational `(numerator,
    /// denominator)`: the alpha sum over 255 per pixel, a value in `[0, 1]`.
    pub fn alpha(&self) -> (q: (u128, u128))
        ensures
            q.0 == self.a,
            q.1 == 255 * self.count,
    {
        (self.a as u128, 255u128 * (self.count as u128))
    }

    /// The cell's mean color, each channel rounded down to a whole RGB8
    /// value.
    pub fn to_rgb8(&self) -> (t: (u8, u8, u8))
        requires
            self.wf(),
        ensures
            t.0 == self.r as int / self.count as int,
            t.1 == self.g as int / self.count as int,
            t.2 == self.b as int / self.count as int,
    {
        proof {
            lemma_div_is_ordered(self.r as int, 255 * self.count, self.count as int);
            lemma_div_is_ordered(self.g as int, 255 * self.count, self.count as int);
            lemma_div_is_ordered(self.b as int, 255 * self.count, self.count as int);
            lemma_div_by_multiple(255, self.count as int);
        }
        ((self.r / self.count) as u8, (self.g / self.count) as u8, (self.b / self.count) as u8)
    }
}

/// Sums the four channels of the cell of `cw * ch` pixels whose top-left
/// pixel is `(x0, y0)`, exactly.
pub fn average_cell(bm: &Bitmap, x0: u32, y0: u32, cw: u32, ch: u32) -> (s: Rgba)
    requires
        cw >= 1,
        ch >= 1,
        x0 + cw <= bm.spec_width(),
        y0 + ch <= bm.spec_height(),
        255 * ((cw as int) * (ch as int)) <= u64::MAX,
    ensures
        s.count == (cw as int) * (ch as int),
        s.r == rect_sum(bm@, bm.spec_width() as int, chan_r(), x0 as int, y0 as int, cw as int, ch as int),
        s.g == rect_sum(bm@, bm.spec_width() as int, chan_g(), x0 as int, y0 as int, cw as int, ch as int),
        s.b == rect_sum(bm@, bm.spec_width() as int, chan_b(), x0 as int, y0 as int, cw as int, ch as int),
        s.a == rect_sum(bm@, bm.spec_width() as int, chan_a(), x0 as int, y0 as int, cw as int, ch as int),
        s.wf(),
{
    let ghost pix = bm@;
    let ghost w = bm.spec_width() as int;
    let width = bm.width();
    let mut r: u64 = 0;
    let mut g: u64 = 0;
    let mut b: u64 = 0;
    let mut a: u64 = 0;
    proof {
        assert(forall|p: Pixel| 0 <= #[trigger] chan_r()(p) <= 255);
        assert(forall|p: Pixel| 0 <= #[trigger] chan_g()(p) <= 255);
        assert(forall|p: Pixel| 0 <= #[trigger] chan_b()(p) <= 255);
        assert(forall|p: Pixel| 0 <= #[trigger] chan_a()(p) <= 255);
    }
    let mut dy: u32 = 0;
    while dy < ch
        invariant
            dy <= ch,
            cw >= 1,
            ch >= 1,
            x0 + cw <= width,
            y0 + ch <= bm.spec_height(),
            width == bm.spec_width(),
            pix == bm@,
            w == width as int,
            255 * ((cw as int) * (ch as int)) <= u64::MAX,
            r == rect_sum(pix, w, chan_r(), x0 as int, y0 as int, cw as int, dy as int),
            g == rect_sum(pix, w, chan_g(), x0 as int, y0 as int, cw as int, dy as int),
            b == rect_sum(pix, w, chan_b(), x0 as int, y0 as int, cw as int, dy as int),
            a == rect_sum(pix, w, chan_a(), x0 as int, y0 as int, cw as int, dy as int),
        decreases ch - dy,
    {
        let mut dx: u32 = 0;
        while dx < cw
            invariant
                dx <= cw,
                dy < ch,
                cw >= 1,
                ch >= 1,
                x0 + cw <= width,
                y0 + ch <= bm.spec_height(),
                width == bm.spec_width(),
                pix == bm@,
                w == width as int,
                255 * ((cw as int) * (ch as int)) <= u64::MAX,
                r == rect_sum(pix, w, chan_r(), x0 as int, y0 as int, cw as int, dy as int)
                    + row_sum(pix, w, chan_r(), y0 as int + dy as int, x0 as int, dx as int),
                g == rect_sum(pix, w, chan_g(), x0 as int, y0 as int, cw as int, dy as int)
                    + row_sum(pix, w, chan_g(), y0 as int + dy as int, x0 as int, dx as int),
                b == rect_sum(pix, w, chan_b(), x0 as int, y0 as int, cw as int, dy as int)
                    + row_sum(pix, w, chan_b(), y0 as int + dy as int, x0 as int, dx as int),
                a == rect_sum(pix, w, chan_a(), x0 as int, y0 as int, cw as int, dy as int)
                    + row_sum(pix, w, chan_a(), y0 as int + dy as int, x0 as int, dx as int),
            decreases cw - dx,
        {
            let p = bm.pixel(x0 + dx, y0 + dy);
            proof {
                assert(forall|q: Pixel| 0 <= #[trigger] chan_r()(q) <= 255);
                assert(forall|q: Pixel| 0 <= #[trigger] chan_g()(q) <= 255);
                assert(forall|q: Pixel| 0 <= #[trigger] chan_b()(q) <= 255);
                assert(forall|q: Pixel| 0 <= #[trigger] chan_a()(q) <= 255);
                lemma_rect_sum_bound(pix, w, chan_r(), x0 as int, y0 as int, cw as int, dy as int);
                lemma_rect_sum_bound(pix, w, chan_g(), x0 as int, y0 as int, cw as int, dy as int);
                lemma_rect_sum_bound(pix, w, chan_b(), x0 as int, y0 as int, cw as int, dy as int);
                lemma_rect_sum_bound(pix, w, chan_a(), x0 as int, y0 as int, cw as int, dy as int);
                lemma_row_sum_bound(
                    pix,
                    w,
                    chan_r(),
                    y0 as int + dy as int,
                    x0 as int,
                    dx as int,
                );
                lemma_row_sum_bound(
                    pix,
                    w,
                    chan_g(),
                    y0 as int + dy as int,
                    x0 as int,
                    dx as int,
                );
                lemma_row_sum_bound(
                    pix,
                    w,
                    chan_b(),
                    y0 as int + dy as int,
                    x0 as int,
                    dx as int,
                );
                lemma_row_sum_bound(
                    pix,
                    w,
                    chan_a(),
                    y0 as int + dy as int,
                    x0 as int,
                    dx as int,
                );
                assert(255 * ((cw as int) * (dy as int)) + 255 * (dx as int) + 255 <= 255 * ((
                cw as int) * (ch as int))) by (nonlinear_arith)
                    requires
                        0 <= dx < cw as int,
                        0 <= (dy as int) < ch as int,
                ;
            }
            r = r + p.r as u64;
            g = g + p.g as u64;
            b = b + p.b as u64;
            a = a + p.a as u64;
            dx = dx + 1;
        }
        dy = dy + 1;
    }
    proof {
        assert(forall|p: Pixel| 0 <= #[trigger] chan_r()(p) <= 255);
        assert(forall|p: Pixel| 0 <= #[trigger] chan_g()(p) <= 255);
        assert(forall|p: Pixel| 0 <= #[trigger] chan_b()(p) <= 255);
        assert(forall|p: Pixel| 0 <= #[trigger] chan_a()(p) <= 255);
        lemma_rect_sum_bound(pix, w, chan_r(), x0 as int, y0 as int, cw as int, ch as int);
        lemma_rect_sum_bound(pix, w, chan_g(), x0 as int, y0 as int, cw as int, ch as int);
        lemma_rect_sum_bound(pix, w, chan_b(), x0 as int, y0 as int, cw as int, ch as int);
        lemma_rect_sum_bound(pix, w, chan_a(), x0 as int, y0 as int, cw as int, ch as int);
        assert(1 <= (cw as int) * (ch as int)) by (nonlinear_arith)
            requires
                1 <= cw as int,
                1 <= ch as int,
        ;
    }
    let count = (cw as u64) * (ch as u64);
    Rgba { r, g, b, a, count }
}

} // verus!
