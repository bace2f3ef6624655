use vstd::prelude::*;
use crate::apriltag::{generate_april_tags_image, tags_fit, tags_image_spec, GrayBitmap};
use crate::color_encoder::{
    bytes_pixels, encode_bytes_to_rgb, pixels_per_byte,
};
use crate::color_palette::{calculate_bits_per_pixel, log2_floor, BgrColor};
use crate::data_regions::{
    data_regions_spec, get_data_regions, region_spec_valid, DataRegion, RegionSpec,
};
use crate::errors::EncodeError;
use crate::raster::{RasterView, RgbRaster};

verus! {

/// The pixels of one region in row-major order, as coordinates; a
/// region with an empty row or column range has none.
pub open spec fn region_coords(r: RegionSpec) -> Seq<(int, int)> {
    let cw = r.col_end - r.col_start;
    if r.row_start < r.row_end && r.col_start < r.col_end {
        Seq::new(r.area() as nat, |k: int| (r.row_start + k / cw, r.col_start + k % cw))
    } else {
        Seq::empty()
    }
}

/// The coordinates of the regions from index `i` on, concatenated in
/// region order.
pub open spec fn coords_from(regions: Seq<RegionSpec>, i: int) -> Seq<(int, int)>
    decreases regions.len() - i,
{
    if i < 0 || i >= regions.len() {
        Seq::empty()
    } else {
        region_coords(regions[i]) + coords_from(regions, i + 1)
    }
}

/// The canonical pixel order of a set of regions: every valid region's
/// pixels, row major, in the fixed region order. This ordering is part
/// of the format: the `n`th payload pixel lands at its `n`th entry.
pub open spec fn all_coords(regions: Seq<RegionSpec>) -> Seq<(int, int)> {
    coords_from(regions, 0)
}

/// Every coordinate of a valid region lies inside the image.
proof fn lemma_region_coords_bounds(r: RegionSpec, w: int, h: int)
    requires
        region_spec_valid(r, w, h),
    ensures
        forall|k: int|
            0 <= k < region_coords(r).len() ==> {
                let p = #[trigger] region_coords(r)[k];
                0 <= p.0 < h && 0 <= p.1 < w
            },
{
    let cw = r.col_end - r.col_start;
    let rh = r.row_end - r.row_start;
    assert forall|k: int| 0 <= k < region_coords(r).len() implies {
        let p = #[trigger] region_coords(r)[k];
        0 <= p.0 < h && 0 <= p.1 < w
    } by {
        vstd::arithmetic::div_mod::lemma_fundamental_div_mod(k, cw);
        vstd::arithmetic::div_mod::lemma_mod_bound(k, cw);
        assert(k / cw < rh) by (nonlinear_arith)
            requires
                k < rh * cw,
                k == (k / cw) * cw + k % cw,
                0 <= k % cw < cw,
                cw > 0,
                0 <= k / cw,
        ;
        assert(k / cw >= 0) by (nonlinear_arith)
            requires
                k >= 0,
                cw > 0,
        ;
    }
}

/// Collects the canonical pixel order of the given regions.
pub fn get_pixel_coords(regions: &[DataRegion]) -> (r: Vec<(usize, usize)>)
    ensures
        r@.map_values(|p: (usize, usize)| (p.0 as int, p.1 as int)) == all_coords(
            regions@.map_values(|d: DataRegion| d@),
        ),
{
    let ghost specs = regions@.map_values(|d: DataRegion| d@);
    let mut out: Vec<(usize, usize)> = Vec::new();
    let mut i: usize = 0;
    proof {
        assert(out@.map_values(|p: (usize, usize)| (p.0 as int, p.1 as int)) + coords_from(specs, 0)
            =~= coords_from(specs, 0));
    }
    while i < regions.len()
        invariant
            i <= regions@.len(),
            specs == regions@.map_values(|d: DataRegion| d@),
            specs.len() == regions@.len(),
            out@.map_values(|p: (usize, usize)| (p.0 as int, p.1 as int)) + coords_from(
                specs,
                i as int,
            ) == coords_from(specs, 0),
        decreases regions@.len() - i,
    {
        let region = &regions[i];
        let ghost rspec = specs[i as int];
        let ghost before = out@.map_values(|p: (usize, usize)| (p.0 as int, p.1 as int));
        proof {
            assert(rspec == region@);
        }
        let mut row = region.row_start;
        let ghost rcoords = region_coords(rspec);
        if region.row_start < region.row_end && region.col_start < region.col_end {
            let cw = region.col_end - region.col_start;
            while row < region.row_end
                invariant
                    region.row_start <= row <= region.row_end,
                    rspec == region@,
                    rspec.row_start < rspec.row_end,
                    rspec.col_start < rspec.col_end,
                    cw == rspec.col_end - rspec.col_start,
                    rcoords == region_coords(rspec),
                    rcoords.len() == rspec.area(),
                    out@.map_values(|p: (usize, usize)| (p.0 as int, p.1 as int)) == before
                        + rcoords.take((row - rspec.row_start) * cw),
                decreases region.row_end - row,
            {
                let mut col = region.col_start;
                while col < region.col_end
                    invariant
                        region.col_start <= col <= region.col_end,
                        region.row_start <= row < region.row_end,
                        rspec == region@,
                        rspec.row_start < rspec.row_end,
                        rspec.col_start < rspec.col_end,
                        cw == rspec.col_end - rspec.col_start,
                        rcoords == region_coords(rspec),
                        rcoords.len() == rspec.area(),
                        out@.map_values(|p: (usize, usize)| (p.0 as int, p.1 as int)) == before
                            + rcoords.take(
                            (row - rspec.row_start) * cw + (col - rspec.col_start),
                        ),
                    decreases region.col_end - col,
                {
                    proof {
                        let k = (row - rspec.row_start) * cw + (col - rspec.col_start);
                        assert(0 <= k < rspec.area()) by (nonlinear_arith)
                            requires
                                rspec.area() == (rspec.row_end - rspec.row_start) * cw,
                                k == (row - rspec.row_start) * cw + (col - rspec.col_start),
                                0 <= row - rspec.row_start < rspec.row_end - rspec.row_start,
                                0 <= col - rspec.col_start < cw,
                                cw > 0,
                        ;
                        vstd::arithmetic::div_mod::lemma_fundamental_div_mod_converse(
                            k,
                            cw as int,
                            row - rspec.row_start,
                            col - rspec.col_start,
                        );
                        assert(rcoords[k] == (row as int, col as int));
                    }
                    let ghost pre_push = out@;
                    out.push((row, col));
                    proof {
                        let k = (row - rspec.row_start) * cw + (col - rspec.col_start);
                        assert(out@ =~= pre_push.push((row, col)));
                        assert(out@.map_values(|p: (usize, usize)| (p.0 as int, p.1 as int)) =~=
                            pre_push.map_values(
                            |p: (usize, usize)| (p.0 as int, p.1 as int),
                        ).push((row as int, col as int)));
                        assert(before + rcoords.take(k + 1) =~= (before + rcoords.take(k)).push(
                            rcoords[k],
                        ));
                        assert(out@.map_values(|p: (usize, usize)| (p.0 as int, p.1 as int)) =~=
                            before + rcoords.take(k + 1));
                    }
                    col = col + 1;
                }
                proof {
                    assert((row - rspec.row_start) * cw + cw == (row + 1 - rspec.row_start) * cw)
                        by (nonlinear_arith);
                }
                row = row + 1;
            }
            proof {
                assert((region.row_end - rspec.row_start) * cw == rspec.area());
                assert(rcoords.take(rspec.area() as int) =~= rcoords);
            }
        } else {
            proof {
                assert(rcoords.len() == 0);
                assert(rcoords.take(0) =~= rcoords);
                assert(out@.map_values(|p: (usize, usize)| (p.0 as int, p.1 as int)) =~= before
                    + rcoords);
            }
        }
        proof {
            assert(coords_from(specs, i as int) == region_coords(specs[i as int]) + coords_from(
                specs,
                i + 1,
            ));
            assert(out@.map_values(|p: (usize, usize)| (p.0 as int, p.1 as int)) + coords_from(
                specs,
                i + 1,
            ) =~= coords_from(specs, 0));
        }
        i = i + 1;
    }
    out
}

/// Every coordinate of a region lies inside the region's own rectangle,
/// and the coordinates from index `i` on lie inside the image and are
/// pairwise distinct when the regions are pairwise disjoint.
pub open spec fn point_in_rect(p: (int, int), r: RegionSpec) -> bool {
    r.row_start <= p.0 < r.row_end && r.col_start <= p.1 < r.col_end
}

/// Two rectangles that share no pixel: their row ranges or their column
/// ranges do not meet.
pub open spec fn rects_disjoint(a: RegionSpec, b: RegionSpec) -> bool {
    a.row_end <= b.row_start || b.row_end <= a.row_start || a.col_end <= b.col_start || b.col_end
        <= a.col_start
}

/// A region's coordinates are pairwise distinct and lie in its own
/// rectangle.
proof fn lemma_region_coords_shape(r: RegionSpec)
    ensures
        forall|k: int|
            0 <= k < region_coords(r).len() ==> point_in_rect(#[trigger] region_coords(r)[k], r),
        forall|k1: int, k2: int|
            0 <= k1 < k2 < region_coords(r).len() ==> region_coords(r)[k1] != region_coords(r)[k2],
{
    if r.row_start < r.row_end && r.col_start < r.col_end {
        let cw = r.col_end - r.col_start;
        let rh = r.row_end - r.row_start;
        assert forall|k: int| 0 <= k < region_coords(r).len() implies point_in_rect(
            #[trigger] region_coords(r)[k],
            r,
        ) by {
            vstd::arithmetic::div_mod::lemma_fundamental_div_mod(k, cw);
            vstd::arithmetic::div_mod::lemma_mod_bound(k, cw);
            assert(0 <= k / cw < rh) by (nonlinear_arith)
                requires
                    0 <= k < rh * cw,
                    k == (k / cw) * cw + k % cw,
                    0 <= k % cw < cw,
                    cw > 0,
            ;
        }
        assert forall|k1: int, k2: int|
            0 <= k1 < k2 < region_coords(r).len() implies region_coords(r)[k1] != region_coords(
            r,
        )[k2] by {
            vstd::arithmetic::div_mod::lemma_fundamental_div_mod(k1, cw);
            vstd::arithmetic::div_mod::lemma_mod_bound(k1, cw);
            vstd::arithmetic::div_mod::lemma_fundamental_div_mod(k2, cw);
            vstd::arithmetic::div_mod::lemma_mod_bound(k2, cw);
            if region_coords(r)[k1] == region_coords(r)[k2] {
                assert(k1 / cw == k2 / cw && k1 % cw == k2 % cw);
                assert(k1 == k2);
            }
        }
    }
}

/// Disjoint regions keep the whole canonical order free of repeats, and
/// inside the image.
proof fn lemma_coords_from_shape(regions: Seq<RegionSpec>, i: int, w: int, h: int)
    requires
        0 <= i <= regions.len(),
        forall|a: int|
            0 <= a < regions.len() ==> region_spec_valid(#[trigger] regions[a], w, h),
        forall|a: int, b: int|
            0 <= a < b < regions.len() ==> rects_disjoint(regions[a], regions[b]),
    ensures
        forall|p: int|
            0 <= p < coords_from(regions, i).len() ==> {
                let pt = #[trigger] coords_from(regions, i)[p];
                0 <= pt.0 < h && 0 <= pt.1 < w
            },
        forall|p: int|
            0 <= p < coords_from(regions, i).len() ==> exists|j: int|
                i <= j < regions.len() && point_in_rect(
                    #[trigger] coords_from(regions, i)[p],
                    regions[j],
                ),
        forall|p: int, q: int|
            0 <= p < q < coords_from(regions, i).len() ==> coords_from(regions, i)[p]
                != coords_from(regions, i)[q],
    decreases regions.len() - i,
{
    if 0 <= i < regions.len() {
        lemma_coords_from_shape(regions, i + 1, w, h);
        lemma_region_coords_shape(regions[i]);
        let head = region_coords(regions[i]);
        let tail = coords_from(regions, i + 1);
        let whole = coords_from(regions, i);
        assert(whole == head + tail);
        assert forall|p: int| 0 <= p < whole.len() implies {
            let pt = #[trigger] whole[p];
            0 <= pt.0 < h && 0 <= pt.1 < w
        } by {
            if p < head.len() {
                assert(point_in_rect(head[p], regions[i]));
            } else {
                assert(whole[p] == tail[p - head.len()]);
            }
        }
        assert forall|p: int| 0 <= p < whole.len() implies exists|j: int|
            i <= j < regions.len() && point_in_rect(#[trigger] whole[p], regions[j]) by {
            if p < head.len() {
                assert(point_in_rect(whole[p], regions[i]));
            } else {
                let pt = tail[p - head.len()];
                assert(exists|j: int|
                    i + 1 <= j < regions.len() && point_in_rect(pt, regions[j]));
            }
        }
        assert forall|p: int, q: int| 0 <= p < q < whole.len() implies whole[p] != whole[q] by {
            if q < head.len() {
                assert(head[p] != head[q]);
            } else if p >= head.len() {
                assert(whole[p] == tail[p - head.len()] && whole[q] == tail[q - head.len()]);
            } else {
                let pt = whole[p];
                let qt = whole[q];
                assert(point_in_rect(pt, regions[i]));
                let j = choose|j: int|
                    i + 1 <= j < regions.len() && point_in_rect(
                        tail[q - head.len()],
                        regions[j],
                    );
                assert(rects_disjoint(regions[i], regions[j]));
                assert(point_in_rect(qt, regions[j]));
            }
        }
    }
}

/// In a square image the surviving data regions never overlap: either
/// the side is wide enough that the five rectangles are separated by
/// construction, or only the bottom strip survives.
proof fn lemma_square_regions_disjoint(s: int, gap: int, dp: int)
    requires
        gap >= 0,
        dp >= 0,
    ensures
        forall|a: int, b: int|
            0 <= a < b < data_regions_spec(s, s, gap, dp, 8).len() ==> rects_disjoint(
                data_regions_spec(s, s, gap, dp, 8)[a],
                data_regions_spec(s, s, gap, dp, 8)[b],
            ),
{
    let regions = data_regions_spec(s, s, gap, dp, 8);
    assert forall|a: int, b: int| 0 <= a < b < regions.len() implies rects_disjoint(
        regions[a],
        regions[b],
    ) by {
        assert(region_spec_valid(regions[a], s, s));
        assert(region_spec_valid(regions[b], s, s));
    }
}

/// The raster after the first `k` of the given pixel writes, later
/// writes over earlier ones.
pub open spec fn paint_prefix(
    img: RasterView,
    coords: Seq<(int, int)>,
    colors: Seq<(u8, u8, u8)>,
    k: int,
) -> RasterView
    decreases k,
{
    if k <= 0 {
        img
    } else {
        let prev = paint_prefix(img, coords, colors, k - 1);
        prev.with_pixel(coords[k - 1].0, coords[k - 1].1, colors[k - 1])
    }
}

/// Painting keeps the raster's shape.
proof fn lemma_paint_prefix_wf(
    img: RasterView,
    coords: Seq<(int, int)>,
    colors: Seq<(u8, u8, u8)>,
    k: int,
)
    requires
        img.wf(),
        0 <= k <= coords.len(),
        k <= colors.len(),
        forall|j: int|
            0 <= j < k ==> 0 <= (#[trigger] coords[j]).0 < img.height && 0 <= coords[j].1
                < img.width,
    ensures
        paint_prefix(img, coords, colors, k).wf(),
        paint_prefix(img, coords, colors, k).width == img.width,
        paint_prefix(img, coords, colors, k).height == img.height,
    decreases k,
{
    if k > 0 {
        lemma_paint_prefix_wf(img, coords, colors, k - 1);
        lemma_raster_update_len(
            paint_prefix(img, coords, colors, k - 1),
            coords[k - 1].0,
            coords[k - 1].1,
        );
    }
}

/// A pixel write inside the raster keeps its pixel count.
proof fn lemma_raster_update_len(img: RasterView, row: int, col: int)
    requires
        img.wf(),
        0 <= row < img.height,
        0 <= col < img.width,
    ensures
        img.with_pixel(row, col, (0u8, 0u8, 0u8)).pixels.len() == img.pixels.len(),
        forall|c: (u8, u8, u8)| (#[trigger] img.with_pixel(row, col, c)).pixels.len()
            == img.pixels.len(),
{
    assert(0 <= row * img.width + col < img.width * img.height) by (nonlinear_arith)
        requires
            0 <= row < img.height,
            0 <= col < img.width,
    ;
}

/// After painting distinct in-bounds coordinates, each painted
/// coordinate reads back its own color.
pub proof fn lemma_paint_prefix_reads(
    img: RasterView,
    coords: Seq<(int, int)>,
    colors: Seq<(u8, u8, u8)>,
    k: int,
)
    requires
        img.wf(),
        0 <= k <= coords.len(),
        k <= colors.len(),
        forall|j: int|
            0 <= j < k ==> 0 <= (#[trigger] coords[j]).0 < img.height && 0 <= coords[j].1
                < img.width,
        forall|p: int, q: int| 0 <= p < q < k ==> coords[p] != coords[q],
    ensures
        forall|j: int|
            0 <= j < k ==> paint_prefix(img, coords, colors, k).pixel_at(
                (#[trigger] coords[j]).0,
                coords[j].1,
            ) == colors[j],
    decreases k,
{
    if k > 0 {
        lemma_paint_prefix_reads(img, coords, colors, k - 1);
        lemma_paint_prefix_wf(img, coords, colors, k - 1);
        let prev = paint_prefix(img, coords, colors, k - 1);
        let w = img.width;
        let last = coords[k - 1];
        assert forall|j: int| 0 <= j < k implies paint_prefix(img, coords, colors, k).pixel_at(
            (#[trigger] coords[j]).0,
            coords[j].1,
        ) == colors[j] by {
            lemma_raster_update_len(prev, last.0, last.1);
            if j == k - 1 {
                assert(0 <= last.0 * w + last.1 < prev.pixels.len()) by (nonlinear_arith)
                    requires
                        0 <= last.0 < prev.height,
                        0 <= last.1 < prev.width,
                        prev.width == w,
                        prev.pixels.len() == prev.width * prev.height,
                ;
            } else {
                let pj = coords[j];
                assert(pj != last);
                assert(pj.0 * w + pj.1 != last.0 * w + last.1) by (nonlinear_arith)
                    requires
                        0 <= pj.0 < prev.height,
                        0 <= pj.1 < w,
                        0 <= last.0 < prev.height,
                        0 <= last.1 < w,
                        prev.width == w,
                        pj != last,
                ;
                assert(0 <= pj.0 * w + pj.1 < prev.pixels.len()) by (nonlinear_arith)
                    requires
                        0 <= pj.0 < prev.height,
                        0 <= pj.1 < w,
                        prev.width == w,
                        prev.pixels.len() == prev.width * prev.height,
                ;
                assert(0 <= last.0 * w + last.1 < prev.pixels.len()) by (nonlinear_arith)
                    requires
                        0 <= last.0 < prev.height,
                        0 <= last.1 < w,
                        prev.width == w,
                        prev.pixels.len() == prev.width * prev.height,
                ;
            }
        }
    }
}

/// A BGR color as the raster stores it: flipped back to RGB.
pub open spec fn bgr_flip(c: (u8, u8, u8)) -> (u8, u8, u8) {
    (c.2, c.1, c.0)
}

/// The palette a paint call works with: the given one, or the built-in
/// default in BGR order.
pub open spec fn effective_palette(palette_bgr: Option<&[BgrColor]>) -> Seq<BgrColor> {
    match palette_bgr {
        Some(p) => p@,
        None => crate::constants::default_palette_seq().map_values(
            |c: (u8, u8, u8)| crate::color_palette::spec_rgb_to_bgr(c),
        ),
    }
}

/// The finished encoded image: the marker layer, the payload colors
/// written into the canonical order's first entries, and the palette
/// written into its last entries as the calibration tail.
pub open spec fn rendered_image_spec(
    data: Seq<u8>,
    w: int,
    h: int,
    padding: int,
    gap: int,
    dp: int,
    pal: Seq<BgrColor>,
    t0: crate::apriltag::GrayView,
    t1: crate::apriltag::GrayView,
    t2: crate::apriltag::GrayView,
) -> RasterView {
    let base = tags_image_spec(w, h, padding, t0, t1, t2);
    let coords = all_coords(data_regions_spec(w, h, gap, dp, 8));
    let payload = bytes_pixels(data, pal).map_values(|c: BgrColor| bgr_flip(c));
    let after = paint_prefix(base, coords, payload, payload.len() as int);
    let cal = pal.map_values(|c: BgrColor| bgr_flip(c));
    let tail = coords.skip(coords.len() - pal.len());
    paint_prefix(after, tail, cal, cal.len() as int)
}

/// The pixels an encoded payload of `data_len` bytes needs, calibration
/// tail included, at the bit density of a `palette_len`-color palette.
pub open spec fn pixels_needed_for(data_len: nat, palette_len: nat) -> nat {
    let bpp = log2_floor(palette_len);
    if 16int % (bpp as int) == 0 {
        (((data_len + 1) / 2) * (16int / bpp as int) + palette_len) as nat
    } else {
        data_len * pixels_per_byte(bpp) + palette_len
    }
}

/// The pixel capacity of a square image of side `s` at the standard
/// marker size.
pub open spec fn size_capacity(s: int, gap: int, dp: int) -> nat {
    all_coords(data_regions_spec(s, s, gap, dp, 8)).len()
}

/// Whether `s` is the size the minimum-size search returns: the first
/// size, stepping by two from `start`, whose capacity reaches `needed`.
pub open spec fn is_minimum_size(s: int, start: int, gap: int, dp: int, needed: nat) -> bool {
    &&& start <= s <= 1000
    &&& (s - start) % 2 == 0
    &&& size_capacity(s, gap, dp) >= needed
    &&& forall|t: int|
        start <= t < s && (t - start) % 2 == 0 ==> size_capacity(t, gap, dp) < needed
}

/// Every coordinate of valid regions lies inside the image.
proof fn lemma_all_coords_bounds(regions: Seq<RegionSpec>, i: int, w: int, h: int)
    requires
        0 <= i <= regions.len(),
        forall|a: int|
            0 <= a < regions.len() ==> region_spec_valid(#[trigger] regions[a], w, h),
    ensures
        forall|p: int|
            0 <= p < coords_from(regions, i).len() ==> {
                let pt = #[trigger] coords_from(regions, i)[p];
                0 <= pt.0 < h && 0 <= pt.1 < w
            },
    decreases regions.len() - i,
{
    if 0 <= i < regions.len() {
        lemma_all_coords_bounds(regions, i + 1, w, h);
        lemma_region_coords_shape(regions[i]);
        let head = region_coords(regions[i]);
        let tail = coords_from(regions, i + 1);
        let whole = coords_from(regions, i);
        assert forall|p: int| 0 <= p < whole.len() implies {
            let pt = #[trigger] whole[p];
            0 <= pt.0 < h && 0 <= pt.1 < w
        } by {
            if p < head.len() {
                assert(point_in_rect(head[p], regions[i]));
            } else {
                assert(whole[p] == tail[p - head.len()]);
            }
        }
    }
}

/// The marker layer keeps the requested dimensions whenever the markers
/// fit.
pub proof fn lemma_tags_image_shape(
    w: int,
    h: int,
    padding: int,
    t0: crate::apriltag::GrayView,
    t1: crate::apriltag::GrayView,
    t2: crate::apriltag::GrayView,
)
    requires
        t0.wf(),
        t1.wf(),
        t2.wf(),
        padding >= 0,
        tags_fit(w, h, padding, t0, t1, t2),
    ensures
        tags_image_spec(w, h, padding, t0, t1, t2).wf(),
        tags_image_spec(w, h, padding, t0, t1, t2).width == w,
        tags_image_spec(w, h, padding, t0, t1, t2).height == h,
{
    let ts = t0.width as int;
    let base = crate::apriltag::white_raster(w as nat, h as nat);
    assert(base.wf()) by (nonlinear_arith)
        requires
            base.pixels.len() == (w as nat) * (h as nat),
            base.width == w as nat,
            base.height == h as nat,
    ;
    let s0 = crate::apriltag::stamp_spec(base, t0, padding, padding);
    if t0.width > 0 {
        crate::apriltag::lemma_stamp_prefix_pixels(
            base,
            t0,
            padding,
            padding,
            (t0.width * t0.height) as int,
        );
    } else {
        assert(t0.width * t0.height == 0) by (nonlinear_arith)
            requires
                t0.width == 0,
        ;
    }
    let s1 = crate::apriltag::stamp_spec(s0, t1, padding, w - padding - ts);
    if t1.width > 0 {
        crate::apriltag::lemma_stamp_prefix_pixels(
            s0,
            t1,
            padding,
            w - padding - ts,
            (t1.width * t1.height) as int,
        );
    } else {
        assert(t1.width * t1.height == 0) by (nonlinear_arith)
            requires
                t1.width == 0,
        ;
    }
    if t2.width > 0 {
        crate::apriltag::lemma_stamp_prefix_pixels(
            s1,
            t2,
            h - padding - ts,
            padding,
            (t2.width * t2.height) as int,
        );
    } else {
        assert(t2.width * t2.height == 0) by (nonlinear_arith)
            requires
                t2.width == 0,
        ;
    }
}

/// Paints the packed payload and the calibration tail over the marker
/// layer: the encoded colors take the first entries of the canonical
/// pixel order and the palette takes the last ones.
pub fn create_encoded_image(
    data_bytes: &[u8],
    image_width: usize,
    image_height: usize,
    padding: usize,
    tag_data_gap: usize,
    data_padding: usize,
    palette_bgr: Option<&[BgrColor]>,
    tag_0: &GrayBitmap,
    tag_1: &GrayBitmap,
    tag_2: &GrayBitmap,
) -> (r: Result<RgbRaster, EncodeError>)
    requires
        tag_0@.wf(),
        tag_1@.wf(),
        tag_2@.wf(),
        image_width * image_height <= usize::MAX,
        data_padding + 8 + tag_data_gap <= usize::MAX,
        palette_bgr matches Some(p) ==> 2 <= p@.len() < 512,
    ensures
        ({
            let pal = effective_palette(palette_bgr);
            let coords = all_coords(
                data_regions_spec(
                    image_width as int,
                    image_height as int,
                    tag_data_gap as int,
                    data_padding as int,
                    8,
                ),
            );
            let fits = tags_fit(
                image_width as int,
                image_height as int,
                padding as int,
                tag_0@,
                tag_1@,
                tag_2@,
            );
            let capacity_ok = bytes_pixels(data_bytes@, pal).len() + pal.len() <= coords.len();
            &&& r is Ok <==> (fits && capacity_ok)
            &&& !fits ==> r == Err::<RgbRaster, EncodeError>(EncodeError::LayoutError)
            &&& (fits && !capacity_ok) ==> r == Err::<RgbRaster, EncodeError>(
                EncodeError::CapacityError,
            )
            &&& (r matches Ok(img) ==> img@ == rendered_image_spec(
                data_bytes@,
                image_width as int,
                image_height as int,
                padding as int,
                tag_data_gap as int,
                data_padding as int,
                pal,
                tag_0@,
                tag_1@,
                tag_2@,
            ) && img@.wf() && img@.width == image_width && img@.height == image_height)
        }),
{
    let owned: Vec<BgrColor> = match palette_bgr {
        Some(_) => Vec::new(),
        None => crate::color_palette::palette_to_bgr(
            crate::constants::get_default_palette_rgb().as_slice(),
        ),
    };
    let pal: &[BgrColor] = match palette_bgr {
        Some(p) => p,
        None => owned.as_slice(),
    };
    proof {
        assert(pal@ == effective_palette(palette_bgr));
        assert(2 <= pal@.len() < 512);
    }
    let mut image = match generate_april_tags_image(
        image_width,
        image_height,
        padding,
        tag_0,
        tag_1,
        tag_2,
    ) {
        Ok(img) => img,
        Err(_) => {
            return Err(EncodeError::LayoutError);
        },
    };
    let data_regions = get_data_regions(image_width, image_height, tag_data_gap, data_padding);
    let pixel_coords = get_pixel_coords(data_regions.as_slice());
    let ghost rspecs = data_regions_spec(
        image_width as int,
        image_height as int,
        tag_data_gap as int,
        data_padding as int,
        8,
    );
    let ghost coords = all_coords(rspecs);
    proof {
        assert(data_regions@.map_values(|d: DataRegion| d@) == rspecs);
        assert(pixel_coords@.map_values(|p: (usize, usize)| (p.0 as int, p.1 as int)) == coords);
        assert(pixel_coords@.len() == coords.len());
        lemma_all_coords_bounds(rspecs, 0, image_width as int, image_height as int);
    }
    let encoded_colors = encode_bytes_to_rgb(data_bytes, pal);
    let bits_per_pixel = calculate_bits_per_pixel(pal.len());
    let ghost bpp = log2_floor(pal@.len());
    proof {
        crate::color_palette::lemma_log2_floor_bounds(pal@.len());
        vstd::arithmetic::power2::lemma2_to64();
        if bpp >= 9 {
            vstd::arithmetic::power2::lemma_pow2_strictly_increases(9, bpp);
        }
        assert(1 <= bpp <= 8);
        crate::color_encoder::lemma_pair_mode_selection(bpp);
        crate::color_encoder::lemma_bytes_pixels_len(data_bytes@, pal@);
    }
    let half = data_bytes.len() / 2 + data_bytes.len() % 2;
    proof {
        assert(half == (data_bytes@.len() + 1) / 2);
    }
    let pixels_needed_opt: Option<usize> = if 16 % bits_per_pixel == 0 {
        let pixels_per_2bytes = (16 / bits_per_pixel) as usize;
        half.checked_mul(pixels_per_2bytes)
    } else {
        proof {
            assert((8 + bpp - 1) as int / bpp as int <= 8) by (nonlinear_arith)
                requires
                    1 <= bpp,
            ;
        }
        let per_byte = ((8 + bits_per_pixel - 1) / bits_per_pixel) as usize;
        data_bytes.len().checked_mul(per_byte)
    };
    let pixels_available = pixel_coords.len();
    let calibration_pixels_needed = pal.len();
    let pixels_needed: usize = match pixels_needed_opt {
        Some(v) => v,
        None => {
            proof {
                assert(bytes_pixels(data_bytes@, pal@).len() > usize::MAX);
            }
            return Err(EncodeError::CapacityError);
        },
    };
    proof {
        assert(pixels_needed == bytes_pixels(data_bytes@, pal@).len());
        assert(encoded_colors@.len() == pixels_needed);
    }
    if pixels_available < calibration_pixels_needed || pixels_needed > pixels_available
        - calibration_pixels_needed {
        return Err(EncodeError::CapacityError);
    }
    let ghost base = image@;
    let ghost payload_colors = bytes_pixels(data_bytes@, pal@).map_values(
        |c: BgrColor| bgr_flip(c),
    );
    let mut i: usize = 0;
    while i < encoded_colors.len()
        invariant
            i <= encoded_colors@.len(),
            base.wf(),
            base.width == image_width,
            base.height == image_height,
            coords == all_coords(rspecs),
            payload_colors == bytes_pixels(data_bytes@, effective_palette(palette_bgr)).map_values(
                |c: BgrColor| bgr_flip(c),
            ),
            encoded_colors@ == bytes_pixels(data_bytes@, effective_palette(palette_bgr)),
            payload_colors.len() == encoded_colors@.len(),
            encoded_colors@.len() + pal@.len() <= pixel_coords@.len(),
            pal@ == effective_palette(palette_bgr),
            pixel_coords@.map_values(|p: (usize, usize)| (p.0 as int, p.1 as int)) == coords,
            pixel_coords@.len() == coords.len(),
            forall|p: int|
                0 <= p < coords.len() ==> 0 <= (#[trigger] coords[p]).0 < image_height && 0
                    <= coords[p].1 < image_width,
            image@ == paint_prefix(base, coords, payload_colors, i as int),
        decreases encoded_colors@.len() - i,
    {
        proof {
            lemma_paint_prefix_wf(base, coords, payload_colors, i as int);
            assert(coords[i as int] == (pixel_coords@[i as int].0 as int, pixel_coords@[i as int].1
                as int));
        }
        let coord = pixel_coords[i];
        let bgr = encoded_colors[i];
        image.set_pixel(coord.0, coord.1, (bgr.2, bgr.1, bgr.0));
        i = i + 1;
    }
    proof {
        lemma_paint_prefix_wf(base, coords, payload_colors, payload_colors.len() as int);
    }
    let ghost after_payload = paint_prefix(base, coords, payload_colors, payload_colors.len() as int);
    let ghost cal_colors = pal@.map_values(|c: BgrColor| bgr_flip(c));
    let ghost tail = coords.skip(coords.len() - pal@.len());
    let mut ci: usize = 0;
    while ci < calibration_pixels_needed
        invariant
            ci <= calibration_pixels_needed,
            calibration_pixels_needed == pal@.len(),
            pal@ == effective_palette(palette_bgr),
            after_payload.wf(),
            after_payload.width == image_width,
            after_payload.height == image_height,
            coords == all_coords(rspecs),
            cal_colors == pal@.map_values(|c: BgrColor| bgr_flip(c)),
            tail == coords.skip(coords.len() - pal@.len()),
            tail.len() == pal@.len(),
            pal@.len() <= pixel_coords@.len(),
            pixel_coords@.map_values(|p: (usize, usize)| (p.0 as int, p.1 as int)) == coords,
            pixel_coords@.len() == coords.len(),
            pixels_available == pixel_coords@.len(),
            forall|p: int|
                0 <= p < coords.len() ==> 0 <= (#[trigger] coords[p]).0 < image_height && 0
                    <= coords[p].1 < image_width,
            image@ == paint_prefix(after_payload, tail, cal_colors, ci as int),
        decreases calibration_pixels_needed - ci,
    {
        proof {
            assert(forall|p: int|
                0 <= p < tail.len() ==> 0 <= (#[trigger] tail[p]).0 < image_height && 0
                    <= tail[p].1 < image_width);
            lemma_paint_prefix_wf(after_payload, tail, cal_colors, ci as int);
            assert(tail[ci as int] == coords[coords.len() - pal@.len() + ci]);
            assert(coords[coords.len() - pal@.len() + ci] == (pixel_coords@[pixels_available
                - calibration_pixels_needed + ci].0 as int, pixel_coords@[pixels_available
                - calibration_pixels_needed + ci].1 as int));
        }
        let coord_index = pixels_available - calibration_pixels_needed + ci;
        let coord = pixel_coords[coord_index];
        let calibration_color = pal[ci];
        image.set_pixel(
            coord.0,
            coord.1,
            (calibration_color.2, calibration_color.1, calibration_color.0),
        );
        ci = ci + 1;
    }
    proof {
        assert(image@ == rendered_image_spec(
            data_bytes@,
            image_width as int,
            image_height as int,
            padding as int,
            tag_data_gap as int,
            data_padding as int,
            effective_palette(palette_bgr),
            tag_0@,
            tag_1@,
            tag_2@,
        ));
        lemma_paint_prefix_wf(after_payload, tail, cal_colors, cal_colors.len() as int);
    }
    Ok(image)
}

/// For every successfully generated square image, the last palette-many
/// entries of the canonical pixel order read back exactly the palette's
/// colors, in palette order, whatever the payload was.
pub proof fn lemma_calibration_tail(
    data: Seq<u8>,
    s: int,
    padding: int,
    gap: int,
    dp: int,
    pal: Seq<BgrColor>,
    t0: crate::apriltag::GrayView,
    t1: crate::apriltag::GrayView,
    t2: crate::apriltag::GrayView,
)
    requires
        2 <= pal.len() < 512,
        gap >= 0,
        dp >= 0,
        padding >= 0,
        t0.wf(),
        t1.wf(),
        t2.wf(),
        tags_fit(s, s, padding, t0, t1, t2),
        bytes_pixels(data, pal).len() + pal.len() <= all_coords(
            data_regions_spec(s, s, gap, dp, 8),
        ).len(),
    ensures
        ({
            let coords = all_coords(data_regions_spec(s, s, gap, dp, 8));
            let img = rendered_image_spec(data, s, s, padding, gap, dp, pal, t0, t1, t2);
            forall|i: int|
                0 <= i < pal.len() ==> img.pixel_at(
                    (#[trigger] coords[coords.len() - pal.len() + i]).0,
                    coords[coords.len() - pal.len() + i].1,
                ) == bgr_flip(pal[i])
        }),
{
    let regions = data_regions_spec(s, s, gap, dp, 8);
    let coords = all_coords(regions);
    let base = tags_image_spec(s, s, padding, t0, t1, t2);
    let payload = bytes_pixels(data, pal).map_values(|c: BgrColor| bgr_flip(c));
    let after = paint_prefix(base, coords, payload, payload.len() as int);
    let cal = pal.map_values(|c: BgrColor| bgr_flip(c));
    let tail = coords.skip(coords.len() - pal.len());
    lemma_tags_image_shape(s, s, padding, t0, t1, t2);
    lemma_square_regions_disjoint(s, gap, dp);
    lemma_coords_from_shape(regions, 0, s, s);
    lemma_all_coords_bounds(regions, 0, s, s);
    lemma_paint_prefix_wf(base, coords, payload, payload.len() as int);
    assert(forall|p: int|
        0 <= p < tail.len() ==> 0 <= (#[trigger] tail[p]).0 < after.height && 0 <= tail[p].1
            < after.width);
    assert forall|p: int, q: int| 0 <= p < q < tail.len() implies tail[p] != tail[q] by {
        assert(tail[p] == coords[coords.len() - pal.len() + p]);
        assert(tail[q] == coords[coords.len() - pal.len() + q]);
    }
    lemma_paint_prefix_reads(after, tail, cal, cal.len() as int);
    assert forall|i: int| 0 <= i < pal.len() implies rendered_image_spec(
        data,
        s,
        s,
        padding,
        gap,
        dp,
        pal,
        t0,
        t1,
        t2,
    ).pixel_at(
        (#[trigger] coords[coords.len() - pal.len() + i]).0,
        coords[coords.len() - pal.len() + i].1,
    ) == bgr_flip(pal[i]) by {
        assert(tail[i] == coords[coords.len() - pal.len() + i]);
        assert(paint_prefix(after, tail, cal, cal.len() as int).pixel_at(tail[i].0, tail[i].1)
            == cal[i]);
    }
}

/// At most one size satisfies the minimum-size characterization.
pub proof fn lemma_minimum_size_unique(
    s1: int,
    s2: int,
    start: int,
    gap: int,
    dp: int,
    needed: nat,
)
    requires
        is_minimum_size(s1, start, gap, dp, needed),
        is_minimum_size(s2, start, gap, dp, needed),
    ensures
        s1 == s2,
{
    if s1 < s2 {
        assert(size_capacity(s1, gap, dp) < needed);
    } else if s2 < s1 {
        assert(size_capacity(s2, gap, dp) < needed);
    }
}

/// The capacity of a bounded square image stays small: at most five
/// regions, each within the square.
proof fn lemma_capacity_bound(s: int, gap: int, dp: int)
    requires
        0 <= s <= 1000,
    ensures
        size_capacity(s, gap, dp) <= 5_000_000,
{
    let regions = data_regions_spec(s, s, gap, dp, 8);
    lemma_coords_len_bound(regions, 0, s, s);
}

/// Each valid region of a `w` by `h` image covers at most `w * h`
/// pixels.
proof fn lemma_coords_len_bound(regions: Seq<RegionSpec>, i: int, w: int, h: int)
    requires
        0 <= i <= regions.len(),
        0 <= w <= 1000,
        0 <= h <= 1000,
        forall|a: int|
            0 <= a < regions.len() ==> region_spec_valid(#[trigger] regions[a], w, h),
    ensures
        coords_from(regions, i).len() <= (regions.len() - i) * 1_000_000,
    decreases regions.len() - i,
{
    if 0 <= i < regions.len() {
        lemma_coords_len_bound(regions, i + 1, w, h);
        let r = regions[i];
        assert(region_coords(r).len() <= 1_000_000) by (nonlinear_arith)
            requires
                region_spec_valid(r, w, h),
                w <= 1000,
                h <= 1000,
                region_coords(r).len() == if r.row_start < r.row_end && r.col_start < r.col_end {
                    (r.row_end - r.row_start) * (r.col_end - r.col_start)
                } else {
                    0
                },
        ;
        assert((regions.len() - i) * 1_000_000 == 1_000_000 + (regions.len() - i - 1) * 1_000_000)
            by (nonlinear_arith);
    } else {
        assert((regions.len() - i) * 1_000_000 >= 0) by (nonlinear_arith)
            requires
                regions.len() - i >= 0,
        ;
    }
}

/// Searches for the smallest square image, stepping the side length by
/// two from `start_size`, that can hold the payload plus the palette
/// calibration pixels; sizes beyond 1000 are not tried.
pub fn calculate_minimum_image_size(
    data_bytes: &[u8],
    tag_data_gap: usize,
    data_padding: usize,
    start_size: usize,
    palette_bgr: &[BgrColor],
) -> (r: Result<usize, EncodeError>)
    requires
        2 <= palette_bgr@.len() < 512,
        data_padding + 8 + tag_data_gap <= usize::MAX,
    ensures
        r matches Ok(s) ==> is_minimum_size(
            s as int,
            start_size as int,
            tag_data_gap as int,
            data_padding as int,
            pixels_needed_for(data_bytes@.len(), palette_bgr@.len()),
        ),
        r is Err <==> (forall|t: int|
            start_size <= t <= 1000 && (t - start_size) % 2 == 0 ==> size_capacity(
                t,
                tag_data_gap as int,
                data_padding as int,
            ) < pixels_needed_for(data_bytes@.len(), palette_bgr@.len())),
        r is Err ==> r == Err::<usize, EncodeError>(EncodeError::CapacityError),
{
    let bits_per_pixel = calculate_bits_per_pixel(palette_bgr.len());
    let ghost bpp = log2_floor(palette_bgr@.len());
    proof {
        crate::color_palette::lemma_log2_floor_bounds(palette_bgr@.len());
        vstd::arithmetic::power2::lemma2_to64();
        if bpp >= 9 {
            vstd::arithmetic::power2::lemma_pow2_strictly_increases(9, bpp);
        }
        assert(1 <= bpp <= 8);
    }
    let num_calibration_colors = palette_bgr.len();
    let ghost needed = pixels_needed_for(data_bytes@.len(), palette_bgr@.len());
    let half = data_bytes.len() / 2 + data_bytes.len() % 2;
    proof {
        assert(half == (data_bytes@.len() + 1) / 2);
    }
    let pixels_needed_opt: Option<usize> = if 16 % bits_per_pixel == 0 {
        let pixels_per_2bytes = (16 / bits_per_pixel) as usize;
        match half.checked_mul(pixels_per_2bytes) {
            Some(x) => x.checked_add(num_calibration_colors),
            None => None,
        }
    } else {
        proof {
            assert((8 + bpp - 1) as int / bpp as int <= 8) by (nonlinear_arith)
                requires
                    1 <= bpp,
            ;
        }
        let per_byte = ((8 + bits_per_pixel - 1) / bits_per_pixel) as usize;
        match data_bytes.len().checked_mul(per_byte) {
            Some(x) => x.checked_add(num_calibration_colors),
            None => None,
        }
    };
    let pixels_needed: usize = match pixels_needed_opt {
        Some(v) => v,
        None => {
            proof {
                assert(needed > usize::MAX);
                assert(usize::MAX >= 5_000_000);
                assert forall|t: int|
                    start_size <= t <= 1000 && (t - start_size) % 2 == 0 implies size_capacity(
                    t,
                    tag_data_gap as int,
                    data_padding as int,
                ) < needed by {
                    lemma_capacity_bound(t, tag_data_gap as int, data_padding as int);
                }
            }
            return Err(EncodeError::CapacityError);
        },
    };
    proof {
        assert(pixels_needed == needed);
    }
    let mut image_size = start_size;
    while image_size <= 1000
        invariant
            start_size <= image_size,
            (image_size - start_size) % 2 == 0,
            data_padding + 8 + tag_data_gap <= usize::MAX,
            needed == pixels_needed_for(data_bytes@.len(), palette_bgr@.len()),
            pixels_needed == needed,
            forall|t: int|
                start_size <= t < image_size && (t - start_size) % 2 == 0 ==> size_capacity(
                    t,
                    tag_data_gap as int,
                    data_padding as int,
                ) < needed,
        decreases 1002 - image_size,
    {
        let data_regions = get_data_regions(image_size, image_size, tag_data_gap, data_padding);
        let pixel_coords = get_pixel_coords(data_regions.as_slice());
        proof {
            assert(pixel_coords@.len() == pixel_coords@.map_values(
                |p: (usize, usize)| (p.0 as int, p.1 as int),
            ).len());
            assert(data_regions@.map_values(|d: DataRegion| d@) == data_regions_spec(
                image_size as int,
                image_size as int,
                tag_data_gap as int,
                data_padding as int,
                8,
            ));
        }
        if pixel_coords.len() >= pixels_needed {
            proof {
                assert(size_capacity(
                    image_size as int,
                    tag_data_gap as int,
                    data_padding as int,
                ) >= needed);
            }
            return Ok(image_size);
        }
        proof {
            assert(size_capacity(image_size as int, tag_data_gap as int, data_padding as int)
                < needed);
        }
        image_size = image_size + 2;
    }
    Err(EncodeError::CapacityError)
}

} // verus!
