use vstd::prelude::*;

verus! {

/// One RGBA pixel with 8 bits per channel.
#[derive(Clone, Copy, Debug, PartialEq, Eq, Structural)]
pub struct Pixel {
    pub r: u8,
    pub g: u8,
    pub b: u8,
    pub a: u8,
}

impl Pixel {
    pub fn new(r: u8, g: u8, b: u8, a: u8) -> (p: Pixel)
        ensures
            p == (Pixel { r, g, b, a }),
    {
        Pixel { r, g, b, a }
    }

    /// The fully transparent color (0, 0, 0, 0).
    pub fn transparent() -> (p: Pixel)
        ensures
            p == transparent_spec(),
    {
        Pixel { r: 0, g: 0, b: 0, a: 0 }
    }
}

pub open spec fn transparent_spec() -> Pixel {
    Pixel { r: 0, g: 0, b: 0, a: 0 }
}

/// A raster of `width * height` pixels stored row by row.
#[derive(Debug)]
pub struct Image {
    pub width: u32,
    pub height: u32,
    pub pixels: Vec<Pixel>,
}

impl Image {
    /// The pixel buffer holds exactly one pixel per coordinate.
    pub open spec fn wf(&self) -> bool {
        self.pixels@.len() == self.width as int * self.height as int
    }

    /// The pixel at column `x` of row `y`.
    pub open spec fn at(&self, x: int, y: int) -> Pixel {
        self.pixels@[y * self.width as int + x]
    }

    /// Builds an image from a row-major pixel buffer; `None` when the buffer
    /// length is not `width * height`.
    pub fn from_pixels(width: u32, height: u32, pixels: Vec<Pixel>) -> (r: Option<Image>)
        ensures
            pixels@.len() == width as int * height as int <==> r.is_some(),
            r matches Some(img) ==> img.width == width && img.height == height && img.pixels@
                == pixels@,
    {
        if area(width, height) == pixels.len() as u64 {
            Some(Image { width, height, pixels })
        } else {
            None
        }
    }

    /// An image of the given size with every pixel equal to `color`.
    pub fn filled(width: u32, height: u32, color: Pixel) -> (img: Image)
        requires
            width as int * height as int <= usize::MAX,
        ensures
            img.wf(),
            img.width == width,
            img.height == height,
            forall|i: int| 0 <= i < img.pixels@.len() ==> img.pixels@[i] == color,
    {
        let n: usize = area(width, height) as usize;
        let pixels = vec![color; n];
        assert(pixels@.len() == n);
        Image { width, height, pixels }
    }

    /// The pixel at column `x` of row `y`.
    pub fn get_pixel(&self, x: u32, y: u32) -> (p: Pixel)
        requires
            self.wf(),
            x < self.width,
            y < self.height,
        ensures
            p == self.at(x as int, y as int),
    {
        let len = self.pixels.len();
        proof {
            lemma_index_in_bounds(x as int, y as int, self.width as int, self.height as int);
        }
        assert((y as int) * (self.width as int) + (x as int) < len);
        self.pixels[(y as usize) * (self.width as usize) + (x as usize)]
    }

    /// The top `new_height` rows of the image; the width is kept.
    pub fn top_rows(&self, new_height: u32) -> (img: Image)
        requires
            self.wf(),
            new_height <= self.height,
        ensures
            img.wf(),
            img.width == self.width,
            img.height == new_height,
            img.pixels@ == self.pixels@.take(self.width as int * new_height as int),
    {
        let len = self.pixels.len();
        proof {
            lemma_mul_le(self.width as int, new_height as int, self.height as int);
        }
        let n: usize = area(self.width, new_height) as usize;
        let mut pixels: Vec<Pixel> = Vec::with_capacity(n);
        let mut i: usize = 0;
        while i < n
            invariant
                i <= n,
                n <= self.pixels@.len(),
                pixels@ == self.pixels@.take(i as int),
            decreases n - i,
        {
            pixels.push(self.pixels[i]);
            i += 1;
            assert(pixels@ =~= self.pixels@.take(i as int));
        }
        Image { width: self.width, height: new_height, pixels }
    }
}

/// The number of pixels of a `width * height` raster.
pub fn area(width: u32, height: u32) -> (n: u64)
    ensures
        n == width as int * height as int,
{
    assert(width as int * height as int <= u32::MAX as int * u32::MAX as int) by (nonlinear_arith)
        requires
            width <= u32::MAX,
            height <= u32::MAX,
    ;
    width as u64 * height as u64
}

/// `y * w + x` addresses a pixel inside a `w * h` buffer.
pub proof fn lemma_index_in_bounds(x: int, y: int, w: int, h: int)
    requires
        0 <= x < w,
        0 <= y < h,
    ensures
        0 <= y * w + x < w * h,
        y * w + x <= (h - 1) * w + (w - 1),
{
    assert(0 <= y * w) by (nonlinear_arith)
        requires
            0 <= y,
            0 <= w,
    ;
    assert(y * w + x < w * h) by (nonlinear_arith)
        requires
            0 <= x < w,
            0 <= y < h,
    ;
    assert(y * w <= (h - 1) * w) by (nonlinear_arith)
        requires
            0 <= y < h,
            0 <= w,
    ;
}

pub proof fn lemma_mul_le(w: int, a: int, b: int)
    requires
        0 <= w,
        0 <= a <= b,
    ensures
        0 <= w * a <= w * b,
{
    assert(0 <= w * a <= w * b) by (nonlinear_arith)
        requires
            0 <= w,
            0 <= a <= b,
    ;
}

} // verus!
