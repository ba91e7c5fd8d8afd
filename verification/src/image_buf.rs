//! An owned RGBA pixel buffer, stored row by row: the image that the
//! overlay is drawn onto. Decoding a file into this buffer and encoding it
//! back out are left to the caller; the buffer itself holds plain pixels.

use crate::pixel::Rgba;
use vstd::prelude::*;

verus! {

/// A `width` by `height` raster of RGBA pixels. Row `y` occupies the
/// `width` entries starting at `y * width`, top row first.
pub struct RgbaImage {
    pub width: u32,
    pub height: u32,
    pub pixels: Vec<Rgba>,
}

/// A pixel index is in range exactly when its coordinates are.
pub proof fn lemma_pixel_index(w: int, h: int, x: int, y: int)
    requires
        0 <= x < w,
        0 <= y < h,
    ensures
        0 <= y * w + x < w * h,
{
    assert(0 <= y * w + x < w * h) by (nonlinear_arith)
        requires
            0 <= x < w && 0 <= y < h,
    ;
}

/// Distinct coordinates occupy distinct buffer entries.
pub proof fn lemma_pixel_index_injective(w: int, x1: int, y1: int, x2: int, y2: int)
    requires
        0 <= x1 < w,
        0 <= x2 < w,
        0 <= y1,
        0 <= y2,
        y1 * w + x1 == y2 * w + x2,
    ensures
        x1 == x2 && y1 == y2,
{
    assert(x1 == x2 && y1 == y2) by (nonlinear_arith)
        requires
            0 <= x1 < w && 0 <= x2 < w && 0 <= y1 && 0 <= y2 && y1 * w + x1 == y2 * w + x2,
    ;
}

impl RgbaImage {
    /// The buffer holds exactly one pixel per coordinate.
    pub open spec fn wf(self) -> bool {
        self.pixels@.len() == self.width as int * self.height as int
    }

    /// The pixel at column `x`, row `y` (row 0 is the top row).
    pub open spec fn pix(self, x: int, y: int) -> Rgba {
        self.pixels@[y * self.width as int + x]
    }

    /// A `width` by `height` buffer with every pixel set to `fill`.
    pub fn new(width: u32, height: u32, fill: Rgba) -> (img: Self)
        requires
            width as int * height as int <= usize::MAX as int,
        ensures
            img.wf(),
            img.width == width,
            img.height == height,
            forall|x: int, y: int|
                0 <= x < width && 0 <= y < height ==> img.pix(x, y) == fill,
    {
        let n: usize = (width as usize) * (height as usize);
        let mut pixels: Vec<Rgba> = Vec::new();
        while pixels.len() < n
            invariant
                pixels@.len() <= n,
                forall|i: int| 0 <= i < pixels@.len() ==> pixels@[i] == fill,
            decreases n - pixels@.len(),
        {
            pixels.push(fill);
        }
        let img = RgbaImage { width, height, pixels };
        proof {
            assert forall|x: int, y: int|
                0 <= x < width && 0 <= y < height implies #[trigger] img.pix(x, y) == fill by {
                lemma_pixel_index(width as int, height as int, x, y);
            }
        }
        img
    }

    /// Wraps an existing row-major pixel vector, provided its length matches
    /// the given dimensions; returns `None` exactly when it does not.
    pub fn from_pixels(width: u32, height: u32, pixels: Vec<Rgba>) -> (r: Option<Self>)
        ensures
            r is Some <==> pixels@.len() == width as int * height as int,
            r matches Some(img) ==> img.wf() && img.width == width && img.height == height
                && img.pixels@ == pixels@,
    {
        let len: usize = pixels.len();
        match (width as usize).checked_mul(height as usize) {
            Some(n) => {
                if len == n {
                    Some(RgbaImage { width, height, pixels })
                } else {
                    None
                }
            },
            None => {
                // the product exceeds usize::MAX, which no vector length reaches
                assert(len as int == pixels@.len());
                None
            },
        }
    }

    /// Reads the pixel at `(x, y)`.
    pub fn get_pixel(&self, x: u32, y: u32) -> (p: Rgba)
        requires
            self.wf(),
            x < self.width,
            y < self.height,
        ensures
            p == self.pix(x as int, y as int),
    {
        proof {
            lemma_pixel_index(self.width as int, self.height as int, x as int, y as int);
        }
        let len: usize = self.pixels.len();
        assert((y as int * self.width as int + x as int) < len as int);
        let idx: usize = (y as usize) * (self.width as usize) + (x as usize);
        self.pixels[idx]
    }

    /// Overwrites the pixel at `(x, y)`, leaving every other pixel and the
    /// dimensions as they were.
    pub fn put_pixel(&mut self, x: u32, y: u32, p: Rgba)
        requires
            old(self).wf(),
            x < old(self).width,
            y < old(self).height,
        ensures
            final(self).wf(),
            final(self).width == old(self).width,
            final(self).height == old(self).height,
            final(self).pix(x as int, y as int) == p,
            forall|i: int, j: int|
                0 <= i < final(self).width && 0 <= j < final(self).height && !(i == x as int && j
                    == y as int) ==> final(self).pix(i, j) == old(self).pix(i, j),
    {
        proof {
            lemma_pixel_index(self.width as int, self.height as int, x as int, y as int);
        }
        let len: usize = self.pixels.len();
        assert((y as int * self.width as int + x as int) < len as int);
        let idx: usize = (y as usize) * (self.width as usize) + (x as usize);
        self.pixels[idx] = p;
        proof {
            assert forall|i: int, j: int|
                0 <= i < self.width && 0 <= j < self.height && !(i == x as int && j == y as int)
                    implies self.pix(i, j) == old(self).pix(i, j) by {
                lemma_pixel_index(self.width as int, self.height as int, i, j);
                if i + j * self.width as int == idx as int {
                    lemma_pixel_index_injective(self.width as int, i, j, x as int, y as int);
                }
                if j * self.width as int + i == idx as int {
                    lemma_pixel_index_injective(self.width as int, i, j, x as int, y as int);
                }
            }
        }
    }
}

} // verus!
