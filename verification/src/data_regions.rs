use vstd::prelude::*;
use crate::apriltag;

verus! {

/// A rectangle of data pixels, given as half-open row and column ranges
/// in image coordinates.
#[derive(Clone, Copy, Debug, PartialEq, Eq, Structural)]
pub struct DataRegion {
    pub row_start: usize,
    pub row_end: usize,
    pub col_start: usize,
    pub col_end: usize,
}

/// A candidate rectangle before validity is known, over unbounded
/// integers so that degenerate geometry stays expressible.
pub ghost struct RegionSpec {
    pub row_start: int,
    pub row_end: int,
    pub col_start: int,
    pub col_end: int,
}

impl View for DataRegion {
    type V = RegionSpec;

    open spec fn view(&self) -> RegionSpec {
        RegionSpec {
            row_start: self.row_start as int,
            row_end: self.row_end as int,
            col_start: self.col_start as int,
            col_end: self.col_end as int,
        }
    }
}

impl RegionSpec {
    /// The number of pixels the region covers.
    pub open spec fn area(self) -> int {
        (self.row_end - self.row_start) * (self.col_end - self.col_start)
    }
}

/// A region is kept only when both ranges are non-empty and lie inside
/// the image.
pub open spec fn region_spec_valid(r: RegionSpec, w: int, h: int) -> bool {
    &&& 0 <= r.row_start < r.row_end <= h
    &&& 0 <= r.col_start < r.col_end <= w
}

/// The five candidate rectangles laid out around the three markers: the
/// top strip, the bottom strip, the left strip, the right strip, and the
/// center block. `b` below is the distance from the image edge to where
/// data may begin beside a marker.
pub open spec fn region_candidates(w: int, h: int, gap: int, dp: int, ts: int) -> Seq<RegionSpec> {
    let b = dp + ts + gap;
    seq![
        RegionSpec { row_start: dp, row_end: b, col_start: b, col_end: w - b },
        RegionSpec { row_start: h - b, row_end: h - dp, col_start: b, col_end: w - dp },
        RegionSpec { row_start: b, row_end: h - b, col_start: dp, col_end: b },
        RegionSpec { row_start: b, row_end: h - b, col_start: w - b, col_end: w - dp },
        RegionSpec { row_start: b, row_end: h - b, col_start: b, col_end: w - b },
    ]
}

/// A candidate survives as a one-element sequence, or is dropped.
pub open spec fn keep_if_valid(r: RegionSpec, w: int, h: int) -> Seq<RegionSpec> {
    if region_spec_valid(r, w, h) {
        seq![r]
    } else {
        Seq::empty()
    }
}

/// The valid data regions of a `w` by `h` image, in their fixed order:
/// top, bottom, left, right, center.
pub open spec fn data_regions_spec(w: int, h: int, gap: int, dp: int, ts: int) -> Seq<RegionSpec> {
    let c = region_candidates(w, h, gap, dp, ts);
    keep_if_valid(c[0], w, h) + keep_if_valid(c[1], w, h) + keep_if_valid(c[2], w, h)
        + keep_if_valid(c[3], w, h) + keep_if_valid(c[4], w, h)
}

/// Lays out the candidate data rectangles around the three alignment
/// markers and drops every rectangle that is empty or leaves the image.
pub fn get_data_regions(
    image_width: usize,
    image_height: usize,
    tag_data_gap: usize,
    data_padding: usize,
) -> (r: Vec<DataRegion>)
    requires
        data_padding + 8 + tag_data_gap <= usize::MAX,
    ensures
        r@.map_values(|d: DataRegion| d@) == data_regions_spec(
            image_width as int,
            image_height as int,
            tag_data_gap as int,
            data_padding as int,
            8,
        ),
        forall|i: int|
            0 <= i < r@.len() ==> region_spec_valid(
                #[trigger] r@[i]@,
                image_width as int,
                image_height as int,
            ),
{
    let tag_size = apriltag::get_april_tag_size();
    let w = image_width;
    let h = image_height;
    let dp = data_padding;
    let b = dp + tag_size + tag_data_gap;
    let ghost cands = region_candidates(w as int, h as int, tag_data_gap as int, dp as int, 8);
    let mut regions: Vec<DataRegion> = Vec::new();

    // Top strip: between the two top markers.
    if dp < b && b <= h && b < w && w - b > b {
        regions.push(DataRegion { row_start: dp, row_end: b, col_start: b, col_end: w - b });
    }
    proof {
        assert(regions@.map_values(|d: DataRegion| d@) =~= keep_if_valid(
            cands[0],
            w as int,
            h as int,
        ));
    }
    let ghost done1 = regions@.map_values(|d: DataRegion| d@);

    // Bottom strip: spans from beside the bottom-left marker to the right
    // edge inset.
    if b <= h && dp < b && dp < w && b < w - dp {
        regions.push(
            DataRegion { row_start: h - b, row_end: h - dp, col_start: b, col_end: w - dp },
        );
    }
    proof {
        assert(regions@.map_values(|d: DataRegion| d@) =~= done1 + keep_if_valid(
            cands[1],
            w as int,
            h as int,
        ));
    }
    let ghost done2 = regions@.map_values(|d: DataRegion| d@);

    // Left strip: between the top-left and bottom-left markers.
    if dp < b && b <= h && b < h - b && b <= w {
        regions.push(DataRegion { row_start: b, row_end: h - b, col_start: dp, col_end: b });
    }
    proof {
        assert(regions@.map_values(|d: DataRegion| d@) =~= done2 + keep_if_valid(
            cands[2],
            w as int,
            h as int,
        ));
    }
    let ghost done3 = regions@.map_values(|d: DataRegion| d@);

    // Right strip: mirrors the left strip; often dropped.
    if b <= h && b < h - b && b <= w && dp < b {
        regions.push(
            DataRegion { row_start: b, row_end: h - b, col_start: w - b, col_end: w - dp },
        );
    }
    proof {
        assert(regions@.map_values(|d: DataRegion| d@) =~= done3 + keep_if_valid(
            cands[3],
            w as int,
            h as int,
        ));
    }
    let ghost done4 = regions@.map_values(|d: DataRegion| d@);

    // Center block: bounded by marker extents on all four sides.
    if b <= h && b < h - b && b < w && b < w - b {
        regions.push(DataRegion { row_start: b, row_end: h - b, col_start: b, col_end: w - b });
    }
    proof {
        assert(regions@.map_values(|d: DataRegion| d@) =~= done4 + keep_if_valid(
            cands[4],
            w as int,
            h as int,
        ));
    }
    regions
}

} // verus!
