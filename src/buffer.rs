use vstd::prelude::*;
use crate::pixel::Pixel;

verus! {

/// The pixel at column `x` and row `y` of a row-major sequence of width `w`.
pub open spec fn at(s: Seq<Pixel>, w: int, x: int, y: int) -> Pixel {
    s[y * w + x]
}

/// A width × height raster of pixels, stored row-major: the pixel at column
/// `x` and row `y` is `pixels[y * width + x]`.
pub struct PixelBuffer {
    pub width: u32,
    pub height: u32,
    pub pixels: Vec<Pixel>,
}

impl PixelBuffer {
    /// The buffer holds exactly one pixel per position.
    pub open spec fn wf(&self) -> bool {
        self.pixels@.len() == self.width as int * self.height as int
    }

    /// A buffer of the given dimensions over `pixels` in row-major order, or
    /// `None` when their number is not `width * height`.
    pub fn from_pixels(width: u32, height: u32, pixels: Vec<Pixel>) -> (r: Option<PixelBuffer>)
        ensures
            r is Some <==> pixels@.len() == width as int * height as int,
            r matches Some(b) ==> b.wf() && b.width == width && b.height == height && b.pixels@
                == pixels@,
    {
        let (w, h) = (width as u128, height as u128);
        assert(w * h < 0x1_0000_0000_0000_0000_0000_0000_0000_0000) by (nonlinear_arith)
            requires w < 0x1_0000_0000, h < 0x1_0000_0000;
        if pixels.len() as u128 == w * h {
            Some(PixelBuffer { width, height, pixels })
        } else {
            None
        }
    }

    /// The pixel at column `x` and row `y`.
    pub fn get_pixel(&self, x: u32, y: u32) -> (p: Pixel)
        requires
            self.wf(),
            x < self.width,
            y < self.height,
        ensures
            p == at(self.pixels@, self.width as int, x as int, y as int),
    {
        let n = self.pixels.len();
        proof {
            crate::sort::lemma_index_in_bounds(x as int, y as int, self.width as int, self.height as int);
            assert(y as int * self.width as int <= y as int * self.width as int + x as int);
        }
        self.pixels[y as usize * self.width as usize + x as usize]
    }

    /// The number of bytes of the raw image: three channels per pixel.
    pub fn byte_size(&self) -> (n: u128)
        ensures
            n == 3 * self.width as int * self.height as int,
    {
        let (w, h) = (self.width as u128, self.height as u128);
        assert(3 * w * h < 0x1_0000_0000_0000_0000_0000_0000_0000_0000) by (nonlinear_arith)
            requires w < 0x1_0000_0000, h < 0x1_0000_0000;
        3 * w * h
    }
}

} // verus!
