use vstd::prelude::*;

verus! {

/// The mathematical content of an [`RgbRaster`]: its dimensions and its
/// pixels in row-major order.
pub ghost struct RasterView {
    pub width: nat,
    pub height: nat,
    pub pixels: Seq<(u8, u8, u8)>,
}

impl RasterView {
    /// A raster is well formed when it holds exactly one pixel per
    /// coordinate.
    pub open spec fn wf(self) -> bool {
        self.pixels.len() == self.width * self.height
    }

    /// The pixel at a row and column, reading the row-major layout.
    pub open spec fn pixel_at(self, row: int, col: int) -> (u8, u8, u8) {
        self.pixels[row * self.width + col]
    }

    /// The raster with one pixel replaced.
    pub open spec fn with_pixel(self, row: int, col: int, color: (u8, u8, u8)) -> RasterView {
        RasterView { pixels: self.pixels.update(row * self.width + col, color), ..self }
    }
}

/// A square of RGB pixels, stored row by row. This is the raw buffer that
/// an external raster encoder turns into an image file.
pub struct RgbRaster {
    width: usize,
    height: usize,
    pixels: Vec<(u8, u8, u8)>,
}

impl View for RgbRaster {
    type V = RasterView;

    closed spec fn view(&self) -> RasterView {
        RasterView {
            width: self.width as nat,
            height: self.height as nat,
            pixels: self.pixels@,
        }
    }
}

impl RgbRaster {
    /// A raster of the given size with every pixel set to `fill`.
    pub fn new_filled(width: usize, height: usize, fill: (u8, u8, u8)) -> (r: RgbRaster)
        requires
            width * height <= usize::MAX,
        ensures
            r@.wf(),
            r@.width == width,
            r@.height == height,
            r@.pixels == Seq::new((width * height) as nat, |i: int| fill),
    {
        let total = width * height;
        let mut pixels: Vec<(u8, u8, u8)> = Vec::new();
        let mut i: usize = 0;
        while i < total
            invariant
                i <= total,
                pixels@ == Seq::new(i as nat, |j: int| fill),
            decreases total - i,
        {
            pixels.push(fill);
            assert(pixels@ =~= Seq::new((i + 1) as nat, |j: int| fill));
            i = i + 1;
        }
        RgbRaster { width, height, pixels }
    }

    /// The width in pixels.
    pub fn width(&self) -> (r: usize)
        ensures
            r == self@.width,
    {
        self.width
    }

    /// The height in pixels.
    pub fn height(&self) -> (r: usize)
        ensures
            r == self@.height,
    {
        self.height
    }

    /// Reads one pixel.
    pub fn get_pixel(&self, row: usize, col: usize) -> (r: (u8, u8, u8))
        requires
            self@.wf(),
            row < self@.height,
            col < self@.width,
        ensures
            r == self@.pixel_at(row as int, col as int),
    {
        let _len: usize = self.pixels.len();
        proof {
            lemma_row_major_index_bound(self@.width, self@.height, row as int, col as int);
        }
        self.pixels[row * self.width + col]
    }

    /// Overwrites one pixel.
    pub fn set_pixel(&mut self, row: usize, col: usize, color: (u8, u8, u8))
        requires
            old(self)@.wf(),
            row < old(self)@.height,
            col < old(self)@.width,
        ensures
            final(self)@ == old(self)@.with_pixel(row as int, col as int, color),
            final(self)@.wf(),
    {
        let _len: usize = self.pixels.len();
        proof {
            lemma_row_major_index_bound(self@.width, self@.height, row as int, col as int);
        }
        let idx = row * self.width + col;
        self.pixels.set(idx, color);
    }

    /// The pixels flattened to bytes, three per pixel in RGB order: the
    /// form a raster encoder consumes.
    pub fn to_rgb8_bytes(&self) -> (r: Vec<u8>)
        requires
            self@.wf(),
            self@.pixels.len() * 3 <= usize::MAX,
        ensures
            r@.len() == self@.pixels.len() * 3,
            forall|i: int|
                0 <= i < self@.pixels.len() ==> r@[3 * i] == self@.pixels[i].0 && r@[3 * i + 1]
                    == self@.pixels[i].1 && r@[3 * i + 2] == self@.pixels[i].2,
    {
        let mut out: Vec<u8> = Vec::new();
        let mut i: usize = 0;
        while i < self.pixels.len()
            invariant
                i <= self@.pixels.len(),
                self@.pixels.len() * 3 <= usize::MAX,
                out@.len() == i * 3,
                forall|j: int|
                    0 <= j < i ==> out@[3 * j] == self@.pixels[j].0 && out@[3 * j + 1]
                        == self@.pixels[j].1 && out@[3 * j + 2] == self@.pixels[j].2,
            decreases self@.pixels.len() - i,
        {
            let p = self.pixels[i];
            out.push(p.0);
            out.push(p.1);
            out.push(p.2);
            i = i + 1;
        }
        out
    }
}

/// A row-major index stays within a raster whose pixel count is the
/// product of its dimensions.
proof fn lemma_row_major_index_bound(width: nat, height: nat, row: int, col: int)
    requires
        0 <= row < height,
        0 <= col < width,
    ensures
        0 <= row * width + col < width * height,
{
    assert(row * width + col < width * height) by (nonlinear_arith)
        requires
            0 <= row < height,
            0 <= col < width,
    ;
    assert(row * width >= 0) by (nonlinear_arith)
        requires
            0 <= row,
            0 <= width,
    ;
}

} // verus!
