use vstd::prelude::*;
use crate::apriltag::GrayBitmap;
use crate::color_palette::{
    load_color_palette, palette_json_of, palette_to_bgr, spec_rgb_to_bgr, usable_color_set,
    usable_len, BgrColor,
};
use crate::constants::{default_palette_seq, get_default_palette_rgb};
use crate::data_packer::{
    chosen_models, container_bytes, csv_parsed, encode, input_ok, read_csv,
};
use crate::errors::EncodeError;
use crate::color_encoder::bytes_pixels;
use crate::image_generator::{
    calculate_minimum_image_size, create_encoded_image, is_minimum_size, pixels_needed_for,
    rendered_image_spec, size_capacity,
};
use crate::apriltag::tags_fit;
use crate::raster::RgbRaster;
use crate::schema::{schema_valid, ColumnSchema};

verus! {

/// What one encode call hands back: the finished pixel buffer and the
/// packed container it encodes.
pub struct EncodeResult {
    pub image: RgbRaster,
    pub packed_data: Vec<u8>,
}

/// The working palette of an encode call, in BGR order: the usable
/// power-of-two prefix of the supplied palette, or the built-in palette
/// when none is supplied; nothing when the supplied one cannot be read
/// or holds fewer than two colors.
pub open spec fn working_palette(palette_bytes: Option<&[u8]>) -> Option<Seq<BgrColor>> {
    match palette_bytes {
        None => Some(default_palette_seq().map_values(|c: (u8, u8, u8)| spec_rgb_to_bgr(c))),
        Some(b) => match palette_json_of(b@) {
            Some(p) => if p.len() >= 2 {
                Some(
                    p.take(usable_len(p.len()) as int).map_values(
                        |c: (u8, u8, u8)| spec_rgb_to_bgr(c),
                    ),
                )
            } else {
                None
            },
            None => None,
        },
    }
}

/// Whether the working palette exists and is small enough for the pixel
/// mapping (fewer than 512 colors).
pub open spec fn palette_usable(palette_bytes: Option<&[u8]>) -> bool {
    match working_palette(palette_bytes) {
        Some(p) => p.len() < 512,
        None => false,
    }
}

/// Whether the CSV input parses and carries at least one data row that
/// the schema can read.
pub open spec fn table_ok(csv_bytes: Seq<u8>, models: Seq<crate::schema::ColModel>) -> bool {
    match csv_parsed(csv_bytes) {
        Some(t) => t.1.len() > 0 && input_ok(models, t.0, t.1),
        None => false,
    }
}

/// Runs the whole pipeline: reads the table, packs and compresses it,
/// sizes the smallest square image that holds it, and paints payload,
/// markers and calibration tail. The marker bitmaps are supplied by the
/// caller; the encode itself performs no input or output.
///
/// A supplied palette whose usable power-of-two prefix reaches 512
/// colors is refused as a `PaletteError`: the pixel mapping caps the
/// bit density at eight bits per pixel.
#[verifier::rlimit(100)]
pub fn encode_csv_to_image(
    csv_bytes: &[u8],
    schema: Option<&[ColumnSchema]>,
    palette_bytes: Option<&[u8]>,
    tag_0: &GrayBitmap,
    tag_1: &GrayBitmap,
    tag_2: &GrayBitmap,
) -> (r: Result<EncodeResult, EncodeError>)
    requires
        tag_0@.wf(),
        tag_1@.wf(),
        tag_2@.wf(),
        forall|c: int|
            0 <= c < chosen_models(schema).len() ==> (#[trigger] chosen_models(schema)[c]).bits
                <= 64,
    ensures
        (r == Err::<EncodeResult, EncodeError>(EncodeError::SchemaError)) <==> !schema_valid(
            chosen_models(schema),
        ),
        schema_valid(chosen_models(schema)) ==> ((r == Err::<EncodeResult, EncodeError>(
            EncodeError::PaletteError,
        )) <==> !palette_usable(palette_bytes)),
        (schema_valid(chosen_models(schema)) && palette_usable(palette_bytes)) ==> ((r == Err::<
            EncodeResult,
            EncodeError,
        >(EncodeError::InputError)) <==> !table_ok(csv_bytes@, chosen_models(schema))),
        (schema_valid(chosen_models(schema)) && palette_usable(palette_bytes) && table_ok(
            csv_bytes@,
            chosen_models(schema),
        )) ==> ({
            let models = chosen_models(schema);
            let pal = working_palette(palette_bytes)->Some_0;
            let t = csv_parsed(csv_bytes@)->Some_0;
            let packed = container_bytes(t.1.len() as u32, models, t.0, t.1);
            let needed = pixels_needed_for(packed.len(), pal.len());
            &&& ((exists|s: int|
                is_minimum_size(s, 20, 1, 4, needed) && tags_fit(
                    s,
                    s,
                    4,
                    tag_0@,
                    tag_1@,
                    tag_2@,
                )) ==> r is Ok)
            &&& ((r == Err::<EncodeResult, EncodeError>(EncodeError::CapacityError)) <==> (
            forall|t2: int|
                20 <= t2 <= 1000 && (t2 - 20) % 2 == 0 ==> crate::image_generator::size_capacity(
                    t2,
                    1,
                    4,
                ) < needed))
            &&& match r {
                Ok(res) => {
                    let s = res.image@.width as int;
                    &&& res.packed_data@ == packed
                    &&& res.image@.height == res.image@.width
                    &&& is_minimum_size(s, 20, 1, 4, needed)
                    &&& tags_fit(s, s, 4, tag_0@, tag_1@, tag_2@)
                    &&& res.image@ == rendered_image_spec(
                        packed,
                        s,
                        s,
                        4,
                        1,
                        4,
                        pal,
                        tag_0@,
                        tag_1@,
                        tag_2@,
                    )
                    &&& res.image@.wf()
                },
                Err(e) => {
                    ||| (e == EncodeError::CapacityError && (forall|t2: int|
                        20 <= t2 <= 1000 && (t2 - 20) % 2 == 0 ==> crate::image_generator::size_capacity(
                            t2,
                            1,
                            4,
                        ) < needed))
                    ||| (e == EncodeError::LayoutError && (exists|s: int|
                        is_minimum_size(s, 20, 1, 4, needed) && !tags_fit(
                            s,
                            s,
                            4,
                            tag_0@,
                            tag_1@,
                            tag_2@,
                        )))
                },
            }
        }),
{
    let ghost models = chosen_models(schema);
    // Validate an explicit schema up front, so a bad schema wins over a
    // bad palette or table.
    match schema {
        Some(s) => {
            match crate::schema::validate_schema(s) {
                Ok(()) => (),
                Err(e) => {
                    return Err(e);
                },
            }
        },
        None => {
            let default = crate::schema::get_default_schema();
            match crate::schema::validate_schema(default.as_slice()) {
                Ok(()) => (),
                Err(e) => {
                    return Err(e);
                },
            }
        },
    }
    let palette_bgr: Vec<BgrColor> = match palette_bytes {
        Some(bytes) => {
            let palette_rgb = match load_color_palette(bytes) {
                Ok(p) => p,
                Err(e) => {
                    return Err(e);
                },
            };
            let usable_rgb = usable_color_set(palette_rgb.as_slice());
            proof {
                crate::color_palette::lemma_usable_len_largest_pow2(palette_rgb@.len());
            }
            palette_to_bgr(usable_rgb.as_slice())
        },
        None => palette_to_bgr(get_default_palette_rgb().as_slice()),
    };
    proof {
        assert(working_palette(palette_bytes) == Some(palette_bgr@));
        assert(palette_bgr@.len() >= 2);
    }
    if palette_bgr.len() >= 512 {
        return Err(EncodeError::PaletteError);
    }
    let (headers, rows) = match read_csv(csv_bytes) {
        Ok(t) => t,
        Err(e) => {
            return Err(e);
        },
    };
    let packed_data = match encode(headers.as_slice(), rows.as_slice(), schema) {
        Ok(p) => p,
        Err(e) => {
            proof {
                if e == EncodeError::InputError {
                    assert(!table_ok(csv_bytes@, models));
                }
            }
            return Err(e);
        },
    };
    let padding: usize = 4;
    let tag_data_gap: usize = 1;
    let data_padding: usize = 4;
    let ghost needed = pixels_needed_for(packed_data@.len(), palette_bgr@.len());
    let image_size = match calculate_minimum_image_size(
        packed_data.as_slice(),
        tag_data_gap,
        data_padding,
        20,
        palette_bgr.as_slice(),
    ) {
        Ok(s) => s,
        Err(e) => {
            proof {
                if exists|s0: int|
                    is_minimum_size(s0, 20, 1, 4, needed) && tags_fit(
                        s0,
                        s0,
                        4,
                        tag_0@,
                        tag_1@,
                        tag_2@,
                    ) {
                    let s0 = choose|s0: int|
                        is_minimum_size(s0, 20, 1, 4, needed) && tags_fit(
                            s0,
                            s0,
                            4,
                            tag_0@,
                            tag_1@,
                            tag_2@,
                        );
                    assert(crate::image_generator::size_capacity(s0, 1, 4) < needed);
                    assert(false);
                }
            }
            return Err(e);
        },
    };
    proof {
        crate::color_palette::lemma_log2_floor_bounds(palette_bgr@.len());
        vstd::arithmetic::power2::lemma2_to64();
        if crate::color_palette::log2_floor(palette_bgr@.len()) >= 9 {
            vstd::arithmetic::power2::lemma_pow2_strictly_increases(
                9,
                crate::color_palette::log2_floor(palette_bgr@.len()),
            );
        }
        assert(1 <= crate::color_palette::log2_floor(palette_bgr@.len()) <= 8);
        crate::color_encoder::lemma_bytes_pixels_len(packed_data@, palette_bgr@);
        crate::color_encoder::lemma_pair_mode_selection(
            crate::color_palette::log2_floor(palette_bgr@.len()),
        );
        assert(image_size <= 1000);
        assert(image_size * image_size <= 1_000_000) by (nonlinear_arith)
            requires
                image_size <= 1000,
        ;
        // The chosen size has room for payload and calibration tail, so
        // only the marker layout can still refuse.
        assert(needed == bytes_pixels(packed_data@, palette_bgr@).len() + palette_bgr@.len());
        assert(bytes_pixels(packed_data@, palette_bgr@).len() + palette_bgr@.len()
            <= size_capacity(image_size as int, 1, 4));
    }
    let encoded_image = match create_encoded_image(
        packed_data.as_slice(),
        image_size,
        image_size,
        padding,
        tag_data_gap,
        data_padding,
        Some(palette_bgr.as_slice()),
        tag_0,
        tag_1,
        tag_2,
    ) {
        Ok(img) => img,
        Err(e) => {
            proof {
                assert(e == EncodeError::LayoutError);
                assert(!tags_fit(
                    image_size as int,
                    image_size as int,
                    4,
                    tag_0@,
                    tag_1@,
                    tag_2@,
                ));
                if exists|s0: int|
                    is_minimum_size(s0, 20, 1, 4, needed) && tags_fit(
                        s0,
                        s0,
                        4,
                        tag_0@,
                        tag_1@,
                        tag_2@,
                    ) {
                    let s0 = choose|s0: int|
                        is_minimum_size(s0, 20, 1, 4, needed) && tags_fit(
                            s0,
                            s0,
                            4,
                            tag_0@,
                            tag_1@,
                            tag_2@,
                        );
                    crate::image_generator::lemma_minimum_size_unique(
                        s0,
                        image_size as int,
                        20,
                        1,
                        4,
                        needed,
                    );
                    assert(false);
                }
            }
            return Err(e);
        },
    };
    Ok(EncodeResult { image: encoded_image, packed_data })
}

} // verus!
