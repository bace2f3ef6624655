use vstd::prelude::*;
use crate::color_palette::RgbColor;

verus! {

/// The background color of a generated image.
pub const WHITE_COLOR: (u8, u8, u8) = (255, 255, 255);

/// The sixteen colors of the built-in palette, in the order a decoder
/// reads them back from the calibration tail.
pub open spec fn default_palette_seq() -> Seq<RgbColor> {
    seq![
        (255u8, 0u8, 0u8),
        (255u8, 128u8, 0u8),
        (255u8, 255u8, 0u8),
        (128u8, 255u8, 0u8),
        (0u8, 255u8, 0u8),
        (0u8, 255u8, 128u8),
        (0u8, 255u8, 255u8),
        (0u8, 128u8, 255u8),
        (0u8, 0u8, 255u8),
        (128u8, 0u8, 255u8),
        (255u8, 0u8, 255u8),
        (255u8, 0u8, 128u8),
        (255u8, 64u8, 64u8),
        (255u8, 192u8, 64u8),
        (128u8, 64u8, 255u8),
        (64u8, 128u8, 255u8),
    ]
}

/// The built-in palette: sixteen colors spread over the hue circle.
pub fn get_default_palette_rgb() -> (r: Vec<RgbColor>)
    ensures
        r@ == default_palette_seq(),
        r@.len() == 16,
{
    let mut v: Vec<RgbColor> = Vec::new();
    v.push((255, 0, 0));
    v.push((255, 128, 0));
    v.push((255, 255, 0));
    v.push((128, 255, 0));
    v.push((0, 255, 0));
    v.push((0, 255, 128));
    v.push((0, 255, 255));
    v.push((0, 128, 255));
    v.push((0, 0, 255));
    v.push((128, 0, 255));
    v.push((255, 0, 255));
    v.push((255, 0, 128));
    v.push((255, 64, 64));
    v.push((255, 192, 64));
    v.push((128, 64, 255));
    v.push((64, 128, 255));
    proof {
        assert(v@ =~= default_palette_seq());
    }
    v
}

} // verus!
