//! A decoded image as a plain grid of 8-bit RGBA pixels.
use vstd::prelude::*;

verus! {

/// A grid of `width * height` RGBA pixels stored row by row, four bytes per
/// pixel. Alpha is carried along but takes no part in the encoding.
pub struct PixelGrid {
    width: u32,
    height: u32,
    rgba: Vec<u8>,
}

impl PixelGrid {
    pub closed spec fn spec_width(&self) -> nat {
        self.width as nat
    }

    pub closed spec fn spec_height(&self) -> nat {
        self.height as nat
    }

    /// The pixel bytes, row by row, four per pixel.
    pub closed spec fn spec_rgba(&self) -> Seq<u8> {
        self.rgba@
    }

    /// At least one pixel, and exactly four bytes per pixel.
    pub open spec fn wf(&self) -> bool {
        &&& self.spec_width() >= 1
        &&& self.spec_height() >= 1
        &&& self.spec_rgba().len() == 4 * self.spec_width() * self.spec_height()
    }

    /// The byte of channel `c` of pixel `(x, y)`.
    pub open spec fn channel(&self, x: int, y: int, c: int) -> u8 {
        self.spec_rgba()[4 * (y * self.spec_width() + x) + c]
    }

    /// Takes `rgba` as the pixels of a `width` by `height` grid; `None` when
    /// the grid is empty or the byte count is not four per pixel.
    pub fn from_rgba(width: u32, height: u32, rgba: Vec<u8>) -> (r: Option<PixelGrid>)
        ensures
            r is Some <==> (width >= 1 && height >= 1 && rgba@.len() == 4 * width * height),
            r matches Some(g) ==> g.wf() && g.spec_width() == width && g.spec_height() == height
                && g.spec_rgba() == rgba@,
    {
        let w = width as u64;
        let h = height as u64;
        assert(w * h <= 0xffff_ffff * 0xffff_ffff) by (nonlinear_arith)
            requires
                w <= 0xffff_ffff,
                h <= 0xffff_ffff,
        ;
        let pixels: u64 = w * h;
        let len = rgba.len();
        proof {
            if width >= 1 && height >= 1 && rgba@.len() == 4 * width * height {
                assert(4 * width * height == (w * h) * 4) by (nonlinear_arith)
                    requires
                        w == width,
                        h == height,
                ;
                vstd::arithmetic::div_mod::lemma_fundamental_div_mod_converse(
                    len as int,
                    4,
                    (w * h) as int,
                    0,
                );
            }
        }
        if width == 0 || height == 0 || len % 4 != 0 || (len / 4) as u64 != pixels {
            return None;
        }
        assert(len == 4 * (w * h));
        assert(4 * (w * h) == 4 * width * height) by (nonlinear_arith)
            requires
                w == width,
                h == height,
        ;
        Some(PixelGrid { width, height, rgba })
    }

    pub fn width(&self) -> (r: u32)
        ensures
            r == self.spec_width(),
    {
        self.width
    }

    pub fn height(&self) -> (r: u32)
        ensures
            r == self.spec_height(),
    {
        self.height
    }

    /// The red, green, blue and alpha bytes of pixel `(x, y)`.
    pub fn pixel(&self, x: u32, y: u32) -> (r: (u8, u8, u8, u8))
        requires
            self.wf(),
            x < self.spec_width(),
            y < self.spec_height(),
        ensures
            r == (self.channel(x as int, y as int, 0), self.channel(x as int, y as int, 1),
                self.channel(x as int, y as int, 2), self.channel(x as int, y as int, 3)),
    {
        let w = self.width as u64;
        let h = self.height as u64;
        let xx = x as u64;
        let yy = y as u64;
        assert(yy * w + xx < w * h && 4 * (w * h) == 4 * w * h) by (nonlinear_arith)
            requires
                xx < w,
                yy < h,
        ;
        let n = self.rgba.len();
        assert(n == 4 * w * h);
        assert(4 * (yy * w + xx) + 3 < n);
        let index: u64 = yy * w + xx;
        let base = (index as usize) * 4;
        assert(base == 4 * (y * self.spec_width() + x));
        (self.rgba[base], self.rgba[base + 1], self.rgba[base + 2], self.rgba[base + 3])
    }
}

} // verus!
