//! The decoded raster image as the library sees it: a row-major grid of
//! RGBA8 pixels, plus resizing through the image crate's Catmull-Rom
//! resampler (used to pad dimensions up to exact multiples of the cell
//! size before block averaging).

use vstd::prelude::*;

verus! {

/// One RGBA8 pixel.
#[derive(Clone, Copy, PartialEq, Eq, Structural, Debug)]
pub struct Pixel {
    pub r: u8,
    pub g: u8,
    pub b: u8,
    pub a: u8,
}

/// The pixel that byte group `i` of a flat RGBA byte stream decodes to.
pub open spec fn byte_pixel(bytes: Seq<u8>, i: int) -> Pixel {
    Pixel { r: bytes[4 * i], g: bytes[4 * i + 1], b: bytes[4 * i + 2], a: bytes[4 * i + 3] }
}

/// A bitmap of `width * height` pixels, row-major from the top-left corner.
pub struct Bitmap {
    width: u32,
    height: u32,
    pixels: Vec<Pixel>,
}

impl View for Bitmap {
    type V = Seq<Pixel>;

    closed spec fn view(&self) -> Seq<Pixel> {
        self.pixels@
    }
}

impl Bitmap {
    #[verifier::type_invariant]
    spec fn inv(self) -> bool {
        self.pixels@.len() == self.width * self.height
    }

    /// The bitmap's width in pixels.
    pub closed spec fn spec_width(&self) -> u32 {
        self.width
    }

    /// The bitmap's height in pixels.
    pub closed spec fn spec_height(&self) -> u32 {
        self.height
    }

    /// Wraps `width * height` pixels, row-major, as a bitmap; refuses a
    /// pixel vector of any other length.
    pub fn from_pixels(width: u32, height: u32, pixels: Vec<Pixel>) -> (r: Option<Bitmap>)
        ensures
            r is Some <==> pixels@.len() == width * height,
            r matches Some(b) ==> b@ == pixels@ && b.spec_width() == width && b.spec_height()
                == height,
    {
        proof {
            assert((width as int) * (height as int) < 0x1_0000_0000_0000_0000) by (nonlinear_arith)
                requires
                    (width as int) < 0x1_0000_0000,
                    (height as int) < 0x1_0000_0000,
            ;
        }
        let expect = (width as u64) * (height as u64);
        if (pixels.len() as u64) == expect {
            Some(Bitmap { width, height, pixels })
        } else {
            None
        }
    }

    /// Decodes a flat RGBA byte stream (4 bytes per pixel, row-major) into a
    /// bitmap; refuses a stream whose length is not `4 * width * height`.
    pub fn from_rgba_bytes(width: u32, height: u32, bytes: &Vec<u8>) -> (r: Option<Bitmap>)
        ensures
            r is Some <==> bytes@.len() == 4 * ((width as int) * (height as int)),
            r matches Some(b) ==> {
                &&& b.spec_width() == width
                &&& b.spec_height() == height
                &&& b@.len() == width * height
                &&& forall|i: int| 0 <= i < b@.len() ==> b@[i] == byte_pixel(bytes@, i)
            },
    {
        proof {
            assert((width as int) * (height as int) < 0x1_0000_0000_0000_0000) by (nonlinear_arith)
                requires
                    (width as int) < 0x1_0000_0000,
                    (height as int) < 0x1_0000_0000,
            ;
        }
        let expect = 4u128 * ((width as u128) * (height as u128));
        let blen = bytes.len();
        if (blen as u128) != expect {
            return None;
        }
        let count = (width as usize) * (height as usize);
        let pixels = pixels_from_bytes(bytes, count);
        Some(Bitmap { width, height, pixels })
    }

    /// The number of pixels held.
    pub fn len(&self) -> (n: usize)
        ensures
            n == self@.len(),
            self@.len() == self.spec_width() * self.spec_height(),
    {
        proof {
            use_type_invariant(self);
        }
        self.pixels.len()
    }

    /// The bitmap's width in pixels.
    pub fn width(&self) -> (w: u32)
        ensures
            w == self.spec_width(),
            self@.len() == self.spec_width() * self.spec_height(),
    {
        proof {
            use_type_invariant(self);
        }
        self.width
    }

    /// The bitmap's height in pixels.
    pub fn height(&self) -> (h: u32)
        ensures
            h == self.spec_height(),
            self@.len() == self.spec_width() * self.spec_height(),
    {
        proof {
            use_type_invariant(self);
        }
        self.height
    }

    /// The pixel at column `x` of row `y`.
    pub fn pixel(&self, x: u32, y: u32) -> (p: Pixel)
        requires
            x < self.spec_width(),
            y < self.spec_height(),
        ensures
            p == self@[y * self.spec_width() + x],
    {
        proof {
            use_type_invariant(self);
            assert((y as int) * (self.width as int) + (x as int) < (self.width as int) * (
            self.height as int)) by (nonlinear_arith)
                requires
                    (x as int) < (self.width as int),
                    (y as int) < (self.height as int),
            ;
        }
        let n = self.pixels.len();
        let idx = (y as usize) * (self.width as usize) + (x as usize);
        self.pixels[idx]
    }

    /// The bitmap's pixels as a flat RGBA byte stream, 4 bytes per pixel.
    pub fn to_rgba_bytes(&self) -> (r: Vec<u8>)
        ensures
            r@.len() == 4 * self@.len(),
            forall|i: int| 0 <= i < self@.len() ==> byte_pixel(r@, i) == self@[i],
    {
        let n = self.pixels.len();
        let mut out: Vec<u8> = Vec::new();
        let mut i: usize = 0;
        while i < n
            invariant
                i <= n,
                n == self@.len(),
                self@ == self.pixels@,
                out@.len() == 4 * i,
                forall|k: int| 0 <= k < i ==> byte_pixel(out@, k) == self@[k],
            decreases n - i,
        {
            let p = self.pixels[i];
            out.push(p.r);
            out.push(p.g);
            out.push(p.b);
            out.push(p.a);
            i = i + 1;
        }
        out
    }

    /// Resamples the bitmap to exactly `new_width * new_height` pixels with
    /// a smooth interpolation filter. The resampled pixel values depend on
    /// the filter; only the dimensions are pinned down.
    pub fn resized(&self, new_width: u32, new_height: u32) -> (r: Bitmap)
        requires
            new_width >= 1,
            new_height >= 1,
            4 * ((new_width as int) * (new_height as int)) <= usize::MAX,
            4 * ((self.spec_width() as int) * (new_height as int)) <= usize::MAX,
        ensures
            r.spec_width() == new_width,
            r.spec_height() == new_height,
            r@.len() == new_width * new_height,
    {
        proof {
            use_type_invariant(self);
        }
        let bytes = self.to_rgba_bytes();
        let resized_bytes = resize_rgba_bytes(
            &bytes,
            self.width,
            self.height,
            new_width,
            new_height,
        );
        let count = (new_width as usize) * (new_height as usize);
        let pixels = pixels_from_bytes(&resized_bytes, count);
        Bitmap { width: new_width, height: new_height, pixels }
    }
}

/// Groups a flat RGBA byte stream into `count` pixels.
fn pixels_from_bytes(bytes: &Vec<u8>, count: usize) -> (r: Vec<Pixel>)
    requires
        bytes@.len() == 4 * count,
    ensures
        r@.len() == count,
        forall|i: int| 0 <= i < count ==> r@[i] == byte_pixel(bytes@, i),
{
    let blen = bytes.len();
    let mut out: Vec<Pixel> = Vec::new();
    let mut i: usize = 0;
    while i < count
        invariant
            i <= count,
            blen == bytes@.len(),
            bytes@.len() == 4 * count,
            out@.len() == i,
            forall|k: int| 0 <= k < i ==> out@[k] == byte_pixel(bytes@, k),
        decreases count - i,
    {
        let p = Pixel {
            r: bytes[4 * i],
            g: bytes[4 * i + 1],
            b: bytes[4 * i + 2],
            a: bytes[4 * i + 3],
        };
        out.push(p);
        i = i + 1;
    }
    out
}

/// Relies on image's `RgbaImage::from_raw` and `imageops::resize` with the
/// Catmull-Rom filter: resampling a `width * height` RGBA byte buffer to
/// `new_width * new_height` yields a buffer of exactly
/// `4 * new_width * new_height` bytes. Resampling goes through an
/// intermediate `width * new_height` buffer, which the last bound keeps
/// within an allocatable size.
#[verifier::external_body]
fn resize_rgba_bytes(bytes: &Vec<u8>, width: u32, height: u32, new_width: u32, new_height: u32) -> (r:
    Vec<u8>)
    requires
        bytes@.len() == 4 * ((width as int) * (height as int)),
        new_width >= 1,
        new_height >= 1,
        4 * ((new_width as int) * (new_height as int)) <= usize::MAX,
        4 * ((width as int) * (new_height as int)) <= usize::MAX,
    ensures
        r@.len() == 4 * ((new_width as int) * (new_height as int)),
{
    let img = image::RgbaImage::from_raw(width, height, bytes.clone()).unwrap();
    let out = image::imageops::resize(&img, new_width, new_height, image::imageops::FilterType::CatmullRom);
    out.into_raw()
}

} // verus!
