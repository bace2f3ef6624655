use vstd::prelude::*;
use crate::errors::EncodeError;
use crate::raster::{RasterView, RgbRaster};

verus! {

/// The mathematical content of a [`GrayBitmap`]: its dimensions and its
/// gray values in row-major order.
pub ghost struct GrayView {
    pub width: nat,
    pub height: nat,
    pub pixels: Seq<u8>,
}

impl GrayView {
    /// A bitmap is well formed when it holds exactly one value per
    /// coordinate.
    pub open spec fn wf(self) -> bool {
        self.pixels.len() == self.width * self.height
    }

    /// The gray value at a row and column.
    pub open spec fn pixel_at(self, row: int, col: int) -> u8 {
        self.pixels[row * self.width + col]
    }
}

/// A grayscale alignment-marker bitmap, stored row by row. The bitmaps
/// themselves come from outside the library; only their size and placement
/// matter here.
pub struct GrayBitmap {
    width: usize,
    height: usize,
    pixels: Vec<u8>,
}

impl View for GrayBitmap {
    type V = GrayView;

    closed spec fn view(&self) -> GrayView {
        GrayView { width: self.width as nat, height: self.height as nat, pixels: self.pixels@ }
    }
}

impl GrayBitmap {
    /// Builds a bitmap from row-major gray values; refused unless the
    /// value count matches the dimensions.
    pub fn from_pixels(width: usize, height: usize, pixels: Vec<u8>) -> (r: Option<GrayBitmap>)
        ensures
            r is Some <==> pixels@.len() == width * height,
            r matches Some(b) ==> b@ == (GrayView {
                width: width as nat,
                height: height as nat,
                pixels: pixels@,
            }) && b@.wf(),
    {
        let n = pixels.len();
        let expected = match width.checked_mul(height) {
            Some(m) => m,
            None => {
                return None;
            },
        };
        if n == expected {
            Some(GrayBitmap { width, height, pixels })
        } else {
            None
        }
    }

    /// The width in pixels.
    pub fn width(&self) -> (r: usize)
        ensures
            r == self@.width,
    {
        self.width
    }

    /// The height in pixels.
    pub fn height(&self) -> (r: usize)
        ensures
            r == self@.height,
    {
        self.height
    }

    /// Reads one gray value.
    pub fn get_pixel(&self, row: usize, col: usize) -> (r: u8)
        requires
            self@.wf(),
            row < self@.height,
            col < self@.width,
        ensures
            r == self@.pixel_at(row as int, col as int),
    {
        let _len: usize = self.pixels.len();
        proof {
            lemma_gray_index_bound(self@.width, self@.height, row as int, col as int);
        }
        self.pixels[row * self.width + col]
    }
}

/// A row-major index stays within a bitmap whose value count is the
/// product of its dimensions.
proof fn lemma_gray_index_bound(width: nat, height: nat, row: int, col: int)
    requires
        0 <= row < height,
        0 <= col < width,
    ensures
        0 <= row * width + col < width * height,
{
    assert(row * width + col < width * height) by (nonlinear_arith)
        requires
            0 <= row < height,
            0 <= col < width,
    ;
    assert(row * width >= 0) by (nonlinear_arith)
        requires
            0 <= row,
            0 <= width,
    ;
}

/// The side length, in pixels, of the square alignment markers after
/// their outermost border row and column are cropped away.
pub fn get_april_tag_size() -> (r: usize)
    ensures
        r == 8,
{
    8
}

/// The gray value the `i`th cropped pixel takes from the source bitmap,
/// skipping the one-pixel border.
pub open spec fn cropped_val(tag: GrayView, cw: int, i: int) -> u8 {
    tag.pixel_at(i / cw + 1, i % cw + 1)
}

/// Removes the one-pixel border of a marker bitmap; markers smaller than
/// two pixels a side are unusable.
pub fn crop_tag_border(tag: &GrayBitmap) -> (r: Result<GrayBitmap, EncodeError>)
    requires
        tag@.wf(),
    ensures
        r is Ok <==> (tag@.width >= 2 && tag@.height >= 2),
        r matches Ok(c) ==> c@.wf() && c@.width == tag@.width - 2 && c@.height == tag@.height - 2
            && forall|y: int, x: int|
            0 <= y < c@.height && 0 <= x < c@.width ==> c@.pixel_at(y, x) == tag@.pixel_at(
                y + 1,
                x + 1,
            ),
        r is Err ==> r == Err::<GrayBitmap, EncodeError>(EncodeError::AssetError),
{
    let w = tag.width();
    let h = tag.height();
    if w < 2 || h < 2 {
        return Err(EncodeError::AssetError);
    }
    let cw = w - 2;
    let ch = h - 2;
    let mut pixels: Vec<u8> = Vec::new();
    let mut y: usize = 0;
    while y < ch
        invariant
            y <= ch,
            cw == tag@.width - 2,
            ch == tag@.height - 2,
            cw >= 0,
            tag@.wf(),
            pixels@.len() == y * cw,
            forall|i: int|
                0 <= i < pixels@.len() ==> #[trigger] pixels@[i] == cropped_val(tag@, cw as int, i),
        decreases ch - y,
    {
        let mut x: usize = 0;
        while x < cw
            invariant
                x <= cw,
                y < ch,
                cw == tag@.width - 2,
                ch == tag@.height - 2,
                tag@.wf(),
                pixels@.len() == y * cw + x,
                forall|i: int|
                    0 <= i < pixels@.len() ==> #[trigger] pixels@[i] == cropped_val(
                        tag@,
                        cw as int,
                        i,
                    ),
            decreases cw - x,
        {
            proof {
                lemma_gray_index_bound(cw as nat, ch as nat, y as int, x as int);
                vstd::arithmetic::div_mod::lemma_fundamental_div_mod_converse(
                    y * cw + x,
                    cw as int,
                    y as int,
                    x as int,
                );
            }
            let g = tag.get_pixel(y + 1, x + 1);
            pixels.push(g);
            x = x + 1;
        }
        proof {
            assert(y * cw + cw == (y + 1) * cw) by (nonlinear_arith);
        }
        y = y + 1;
    }
    let cropped = GrayBitmap { width: cw, height: ch, pixels };
    proof {
        assert(ch * cw == cw * ch) by (nonlinear_arith);
        assert(cropped@.wf());
        assert forall|y2: int, x2: int|
            0 <= y2 < cropped@.height && 0 <= x2 < cropped@.width implies cropped@.pixel_at(
            y2,
            x2,
        ) == tag@.pixel_at(y2 + 1, x2 + 1) by {
            lemma_gray_index_bound(cw as nat, ch as nat, y2, x2);
            vstd::arithmetic::div_mod::lemma_fundamental_div_mod_converse(
                y2 * cw + x2,
                cw as int,
                y2,
                x2,
            );
            assert(cropped@.pixels[y2 * cw + x2] == cropped_val(tag@, cw as int, y2 * cw + x2));
        }
    }
    Ok(cropped)
}

/// A raster of the given size with every pixel white.
pub open spec fn white_raster(w: nat, h: nat) -> RasterView {
    RasterView { width: w, height: h, pixels: Seq::new(w * h, |i: int| (255u8, 255u8, 255u8)) }
}

/// The image after the first `k` pixels of `tag` (in the tag's row-major
/// order) are stamped onto it as gray RGB pixels, with the tag's top-left
/// corner at `(row, col)`.
pub open spec fn stamp_prefix(img: RasterView, tag: GrayView, row: int, col: int, k: int) -> RasterView
    decreases k,
{
    if k <= 0 || tag.width == 0 {
        img
    } else {
        let prev = stamp_prefix(img, tag, row, col, k - 1);
        let ty = (k - 1) / tag.width as int;
        let tx = (k - 1) % tag.width as int;
        let g = tag.pixel_at(ty, tx);
        prev.with_pixel(row + ty, col + tx, (g, g, g))
    }
}

/// The image with the whole tag stamped onto it.
pub open spec fn stamp_spec(img: RasterView, tag: GrayView, row: int, col: int) -> RasterView {
    stamp_prefix(img, tag, row, col, (tag.width * tag.height) as int)
}

/// Stamping keeps the dimensions and replaces exactly the pixels under
/// the already-stamped prefix of the tag.
pub proof fn lemma_stamp_prefix_pixels(img: RasterView, tag: GrayView, row: int, col: int, k: int)
    requires
        img.wf(),
        tag.wf(),
        tag.width > 0,
        0 <= row,
        0 <= col,
        row + tag.height <= img.height,
        col + tag.width <= img.width,
        0 <= k <= tag.width * tag.height,
    ensures
        stamp_prefix(img, tag, row, col, k).wf(),
        stamp_prefix(img, tag, row, col, k).width == img.width,
        stamp_prefix(img, tag, row, col, k).height == img.height,
        forall|r: int, c: int|
            0 <= r < img.height && 0 <= c < img.width ==> stamp_prefix(
                img,
                tag,
                row,
                col,
                k,
            ).pixel_at(r, c) == if row <= r < row + tag.height && col <= c < col + tag.width && (r
                - row) * tag.width + (c - col) < k {
                let g = tag.pixel_at(r - row, c - col);
                (g, g, g)
            } else {
                img.pixel_at(r, c)
            },
    decreases k,
{
    let w = img.width;
    let tw = tag.width as int;
    if k > 0 {
        lemma_stamp_prefix_pixels(img, tag, row, col, k - 1);
        let prev = stamp_prefix(img, tag, row, col, k - 1);
        let ty = (k - 1) / tw;
        let tx = (k - 1) % tw;
        vstd::arithmetic::div_mod::lemma_fundamental_div_mod(k - 1, tw);
        vstd::arithmetic::div_mod::lemma_mod_bound(k - 1, tw);
        assert(0 <= tx < tw);
        assert(ty * tw + tx == k - 1);
        assert(ty < tag.height) by (nonlinear_arith)
            requires
                ty * tw + tx == k - 1,
                k <= tw * tag.height,
                0 <= tx < tw,
                0 <= ty,
                tw > 0,
        ;
        assert(ty >= 0) by (nonlinear_arith)
            requires
                ty * tw + tx == k - 1,
                k >= 1,
                0 <= tx < tw,
                tw > 0,
        ;
        let sr = row + ty;
        let sc = col + tx;
        assert(0 <= sr < img.height);
        assert(0 <= sc < img.width);
        lemma_raster_index_bound(img.width, img.height, sr, sc);
        assert forall|r: int, c: int| 0 <= r < img.height && 0 <= c < img.width implies stamp_prefix(
            img,
            tag,
            row,
            col,
            k,
        ).pixel_at(r, c) == if row <= r < row + tag.height && col <= c < col + tag.width && (r
            - row) * tag.width + (c - col) < k {
            let g = tag.pixel_at(r - row, c - col);
            (g, g, g)
        } else {
            img.pixel_at(r, c)
        } by {
            lemma_raster_index_bound(img.width, img.height, r, c);
            let gv = tag.pixel_at(ty, tx);
            assert(stamp_prefix(img, tag, row, col, k) == prev.with_pixel(sr, sc, (gv, gv, gv)));
            assert(prev.pixel_at(r, c) == (if row <= r < row + tag.height && col <= c < col
                + tag.width && (r - row) * tag.width + (c - col) < k - 1 {
                let g = tag.pixel_at(r - row, c - col);
                (g, g, g)
            } else {
                img.pixel_at(r, c)
            }));
            assert(prev.with_pixel(sr, sc, (gv, gv, gv)).pixel_at(r, c) == (if r * w + c == sr * w
                + sc {
                (gv, gv, gv)
            } else {
                prev.pixel_at(r, c)
            }));
            if r == sr && c == sc {
                assert((r - row) * tw + (c - col) == k - 1);
            } else {
                assert(r * w + c != sr * w + sc) by (nonlinear_arith)
                    requires
                        0 <= r < img.height,
                        0 <= c < w,
                        0 <= sr < img.height,
                        0 <= sc < w,
                        !(r == sr && c == sc),
                ;
                if row <= r < row + tag.height && col <= c < col + tag.width && (r - row) * tw + (c
                    - col) == k - 1 {
                    vstd::arithmetic::div_mod::lemma_fundamental_div_mod_converse(
                        k - 1,
                        tw,
                        r - row,
                        c - col,
                    );
                    assert(false);
                }
            }
        }
    }
}

/// A row-major index stays inside a raster.
proof fn lemma_raster_index_bound(width: nat, height: nat, row: int, col: int)
    requires
        0 <= row < height,
        0 <= col < width,
    ensures
        0 <= row * width + col < width * height,
{
    lemma_gray_index_bound(width, height, row, col);
}

/// Copies a marker bitmap into the image as gray RGB pixels, top-left
/// corner at `(row, col)`; refused when it would run past the edges.
pub fn place_tag(image: &mut RgbRaster, tag: &GrayBitmap, row: usize, col: usize) -> (r: Result<
    (),
    EncodeError,
>)
    requires
        old(image)@.wf(),
        tag@.wf(),
    ensures
        final(image)@.wf(),
        final(image)@.width == old(image)@.width,
        final(image)@.height == old(image)@.height,
        r is Ok <==> (row + tag@.height <= old(image)@.height && col + tag@.width <= old(
            image,
        )@.width),
        r is Ok ==> final(image)@ == stamp_spec(old(image)@, tag@, row as int, col as int),
        r is Err ==> final(image)@ == old(image)@ && r == Err::<(), EncodeError>(
            EncodeError::LayoutError,
        ),
{
    let tag_width = tag.width();
    let tag_height = tag.height();
    let img_width = image.width();
    let img_height = image.height();
    if tag_height > img_height || row > img_height - tag_height || tag_width > img_width || col
        > img_width - tag_width {
        return Err(EncodeError::LayoutError);
    }
    if tag_width == 0 {
        proof {
            assert(tag@.width * tag@.height == 0) by (nonlinear_arith)
                requires
                    tag@.width == 0,
            ;
            assert(stamp_spec(image@, tag@, row as int, col as int) == image@);
        }
        return Ok(());
    }
    let ghost orig = image@;
    let mut y: usize = 0;
    while y < tag_height
        invariant
            y <= tag_height,
            tag_width > 0,
            tag_width == tag@.width,
            tag_height == tag@.height,
            tag@.wf(),
            orig.wf(),
            orig.width <= usize::MAX,
            orig.height <= usize::MAX,
            row + tag_height <= orig.height,
            col + tag_width <= orig.width,
            image@ == stamp_prefix(orig, tag@, row as int, col as int, y * tag_width),
        decreases tag_height - y,
    {
        let mut x: usize = 0;
        while x < tag_width
            invariant
                x <= tag_width,
                y < tag_height,
                tag_width > 0,
                tag_width == tag@.width,
                tag_height == tag@.height,
                tag@.wf(),
                orig.wf(),
                orig.width <= usize::MAX,
                orig.height <= usize::MAX,
                row + tag_height <= orig.height,
                col + tag_width <= orig.width,
                image@ == stamp_prefix(orig, tag@, row as int, col as int, y * tag_width + x),
            decreases tag_width - x,
        {
            proof {
                lemma_gray_index_bound(tag@.width, tag@.height, y as int, x as int);
                lemma_stamp_prefix_pixels(orig, tag@, row as int, col as int, y * tag_width + x);
            }
            let g = tag.get_pixel(y, x);
            image.set_pixel(row + y, col + x, (g, g, g));
            proof {
                let k = y * tag_width + x + 1;
                vstd::arithmetic::div_mod::lemma_fundamental_div_mod_converse(
                    k - 1,
                    tag_width as int,
                    y as int,
                    x as int,
                );
                assert(image@ == stamp_prefix(orig, tag@, row as int, col as int, k));
            }
            x = x + 1;
        }
        proof {
            assert(y * tag_width + tag_width == (y + 1) * tag_width) by (nonlinear_arith);
        }
        y = y + 1;
    }
    proof {
        assert(tag_height * tag_width == tag@.width * tag@.height) by (nonlinear_arith)
            requires
                tag_width == tag@.width,
                tag_height == tag@.height,
        ;
        lemma_stamp_prefix_pixels(
            orig,
            tag@,
            row as int,
            col as int,
            (tag@.width * tag@.height) as int,
        );
    }
    Ok(())
}

/// Whether the three markers fit a `w` by `h` image at the given inset.
pub open spec fn tags_fit(w: int, h: int, padding: int, t0: GrayView, t1: GrayView, t2: GrayView) -> bool {
    let ts = t0.width as int;
    &&& w >= 2 * padding + ts
    &&& h >= 2 * padding + ts
    &&& padding + t0.height <= h
    &&& padding + t0.width <= w
    &&& padding + t1.height <= h
    &&& (w - padding - ts) + t1.width <= w
    &&& (h - padding - ts) + t2.height <= h
    &&& padding + t2.width <= w
}

/// The finished marker layer: a white image with the three markers
/// stamped at the top-left, top-right and bottom-left corners.
pub open spec fn tags_image_spec(
    w: int,
    h: int,
    padding: int,
    t0: GrayView,
    t1: GrayView,
    t2: GrayView,
) -> RasterView {
    let ts = t0.width as int;
    let base = white_raster(w as nat, h as nat);
    let s0 = stamp_spec(base, t0, padding, padding);
    let s1 = stamp_spec(s0, t1, padding, w - padding - ts);
    stamp_spec(s1, t2, h - padding - ts, padding)
}

/// Builds the white background and stamps the three alignment markers,
/// each inset by `padding` from the image edge; the bottom-right corner
/// deliberately stays empty.
pub fn generate_april_tags_image(
    image_width: usize,
    image_height: usize,
    padding: usize,
    tag_0: &GrayBitmap,
    tag_1: &GrayBitmap,
    tag_2: &GrayBitmap,
) -> (r: Result<RgbRaster, EncodeError>)
    requires
        image_width * image_height <= usize::MAX,
        tag_0@.wf(),
        tag_1@.wf(),
        tag_2@.wf(),
    ensures
        r is Ok <==> tags_fit(
            image_width as int,
            image_height as int,
            padding as int,
            tag_0@,
            tag_1@,
            tag_2@,
        ),
        r matches Ok(img) ==> img@ == tags_image_spec(
            image_width as int,
            image_height as int,
            padding as int,
            tag_0@,
            tag_1@,
            tag_2@,
        ) && img@.wf() && img@.width == image_width && img@.height == image_height,
        r is Err ==> r == Err::<RgbRaster, EncodeError>(EncodeError::LayoutError),
{
    let tag_size = tag_0.width();
    if (padding as u128) * 2 + (tag_size as u128) > (image_width as u128) || (padding as u128) * 2
        + (tag_size as u128) > (image_height as u128) {
        return Err(EncodeError::LayoutError);
    }
    let mut image = RgbRaster::new_filled(image_width, image_height, (255, 255, 255));
    proof {
        assert(image@ == white_raster(image_width as nat, image_height as nat));
    }
    match place_tag(&mut image, tag_0, padding, padding) {
        Ok(()) => (),
        Err(e) => {
            return Err(EncodeError::LayoutError);
        },
    }
    match place_tag(&mut image, tag_1, padding, image_width - padding - tag_size) {
        Ok(()) => (),
        Err(e) => {
            return Err(EncodeError::LayoutError);
        },
    }
    match place_tag(&mut image, tag_2, image_height - padding - tag_size, padding) {
        Ok(()) => (),
        Err(e) => {
            return Err(EncodeError::LayoutError);
        },
    }
    Ok(image)
}

} // verus!
