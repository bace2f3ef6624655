use scouting_data_compression::api::encode_csv_to_image;
use scouting_data_compression::apriltag::{
    crop_tag_border, generate_april_tags_image, get_april_tag_size, GrayBitmap,
};
use scouting_data_compression::data_regions::get_data_regions;
use scouting_data_compression::errors::EncodeError;
use scouting_data_compression::image_generator::{
    calculate_minimum_image_size, create_encoded_image, get_pixel_coords,
};
use scouting_data_compression::constants::get_default_palette_rgb;
use scouting_data_compression::color_palette::palette_to_bgr;

fn gray_tag(size: usize, seed: u8) -> GrayBitmap {
    let pixels: Vec<u8> = (0..size * size).map(|i| (i as u8).wrapping_mul(seed)).collect();
    GrayBitmap::from_pixels(size, size, pixels).unwrap()
}

#[test]
fn tag_size_is_eight() {
    assert_eq!(get_april_tag_size(), 8);
}

#[test]
fn gray_bitmap_checks_its_dimensions() {
    assert!(GrayBitmap::from_pixels(2, 2, vec![0; 4]).is_some());
    assert!(GrayBitmap::from_pixels(2, 2, vec![0; 5]).is_none());
}

#[test]
fn crop_removes_one_pixel_border() {
    let tag = GrayBitmap::from_pixels(4, 4, (0..16).collect()).unwrap();
    let cropped = crop_tag_border(&tag).unwrap();
    assert_eq!(cropped.width(), 2);
    assert_eq!(cropped.height(), 2);
    assert_eq!(cropped.get_pixel(0, 0), 5);
    assert_eq!(cropped.get_pixel(0, 1), 6);
    assert_eq!(cropped.get_pixel(1, 0), 9);
    assert_eq!(cropped.get_pixel(1, 1), 10);
}

#[test]
fn crop_refuses_tiny_bitmaps() {
    let tag = GrayBitmap::from_pixels(1, 1, vec![7]).unwrap();
    assert_eq!(crop_tag_border(&tag).err(), Some(EncodeError::AssetError));
}

#[test]
fn regions_at_one_hundred_pixels() {
    // Padding 4, tag 8, gap 1: data may begin 13 pixels from each edge.
    let regions = get_data_regions(100, 100, 1, 4);
    assert_eq!(regions.len(), 5);
    let top = &regions[0];
    assert_eq!((top.row_start, top.row_end, top.col_start, top.col_end), (4, 13, 13, 87));
    let bottom = &regions[1];
    assert_eq!(
        (bottom.row_start, bottom.row_end, bottom.col_start, bottom.col_end),
        (87, 96, 13, 96)
    );
    let left = &regions[2];
    assert_eq!((left.row_start, left.row_end, left.col_start, left.col_end), (13, 87, 4, 13));
    let right = &regions[3];
    assert_eq!(
        (right.row_start, right.row_end, right.col_start, right.col_end),
        (13, 87, 87, 96)
    );
    let center = &regions[4];
    assert_eq!(
        (center.row_start, center.row_end, center.col_start, center.col_end),
        (13, 87, 13, 87)
    );
}

#[test]
fn small_images_drop_invalid_regions() {
    // At 20 pixels only the bottom strip survives.
    let regions = get_data_regions(20, 20, 1, 4);
    assert_eq!(regions.len(), 1);
    let bottom = &regions[0];
    assert_eq!(
        (bottom.row_start, bottom.row_end, bottom.col_start, bottom.col_end),
        (7, 16, 13, 16)
    );
    assert_eq!(get_pixel_coords(&regions).len(), 27);
}

#[test]
fn minimum_size_search_steps_by_two() {
    let palette = palette_to_bgr(&get_default_palette_rgb());
    // Two bytes need 4 pixels, plus 16 calibration pixels: 20 fit in
    // the 27 pixels available at size 20.
    assert_eq!(calculate_minimum_image_size(&[0xAB, 0xCD], 1, 4, 20, &palette), Ok(20));
    // Starting above the answer just returns the start size.
    assert_eq!(calculate_minimum_image_size(&[0xAB, 0xCD], 1, 4, 26, &palette), Ok(26));
}

#[test]
fn minimum_size_search_fails_beyond_bound() {
    let palette = palette_to_bgr(&get_default_palette_rgb());
    // From 998 only 998 and 1000 are tried; a megabyte of payload fits
    // in neither.
    let data = vec![0u8; 1_000_000];
    assert_eq!(
        calculate_minimum_image_size(&data, 1, 4, 998, &palette),
        Err(EncodeError::CapacityError)
    );
}

#[test]
fn marker_layer_and_layout_errors() {
    let t0 = gray_tag(8, 3);
    let t1 = gray_tag(8, 5);
    let t2 = gray_tag(8, 7);
    let img = generate_april_tags_image(40, 40, 4, &t0, &t1, &t2).unwrap();
    assert_eq!(img.width(), 40);
    assert_eq!(img.height(), 40);
    // Background stays white, markers land at their corners.
    assert_eq!(img.get_pixel(0, 0), (255, 255, 255));
    let g00 = t0.get_pixel(0, 0);
    assert_eq!(img.get_pixel(4, 4), (g00, g00, g00));
    let g1 = t1.get_pixel(0, 0);
    assert_eq!(img.get_pixel(4, 40 - 4 - 8), (g1, g1, g1));
    let g2 = t2.get_pixel(0, 0);
    assert_eq!(img.get_pixel(40 - 4 - 8, 4), (g2, g2, g2));
    // Too small for two paddings and a marker.
    assert_eq!(
        generate_april_tags_image(15, 15, 4, &t0, &t1, &t2).err(),
        Some(EncodeError::LayoutError)
    );
}

#[test]
fn calibration_tail_holds_palette_colors() {
    let palette = palette_to_bgr(&get_default_palette_rgb());
    let t0 = gray_tag(8, 3);
    let t1 = gray_tag(8, 5);
    let t2 = gray_tag(8, 7);
    let data = [0x12, 0x34, 0x56];
    let size = calculate_minimum_image_size(&data, 1, 4, 20, &palette).unwrap();
    let img =
        create_encoded_image(&data, size, size, 4, 1, 4, Some(&palette), &t0, &t1, &t2).unwrap();
    let coords = get_pixel_coords(&get_data_regions(size, size, 1, 4));
    let expected = get_default_palette_rgb();
    let tail_start = coords.len() - 16;
    for i in 0..16 {
        let (row, col) = coords[tail_start + i];
        assert_eq!(img.get_pixel(row, col), expected[i]);
    }
}

#[test]
fn image_capacity_is_checked_independently() {
    let palette = palette_to_bgr(&get_default_palette_rgb());
    let t0 = gray_tag(8, 3);
    let t1 = gray_tag(8, 5);
    let t2 = gray_tag(8, 7);
    let data = vec![0xAAu8; 100];
    assert_eq!(
        create_encoded_image(&data, 20, 20, 4, 1, 4, Some(&palette), &t0, &t1, &t2).err(),
        Some(EncodeError::CapacityError)
    );
}

#[test]
fn end_to_end_single_row_default_everything() {
    let t0 = gray_tag(8, 3);
    let t1 = gray_tag(8, 5);
    let t2 = gray_tag(8, 7);
    let schema = scouting_data_compression::schema::get_default_schema();
    let headers: Vec<String> = schema.iter().map(|c| c.name().to_string()).collect();
    let cells: Vec<String> = schema
        .iter()
        .map(|c| match c.values() {
            Some(values) => values[values.len() - 1].clone(),
            None => "1".to_string(),
        })
        .collect();
    let csv = format!("{}\n{}\n", headers.join(","), cells.join(","));
    let result = encode_csv_to_image(csv.as_bytes(), None, None, &t0, &t1, &t2).unwrap();

    // The packed container names the format and carries one row.
    assert_eq!(&result.packed_data[..8], b"SCOUTPK5");
    assert_eq!(&result.packed_data[8..12], &[0, 0, 0, 1]);

    // The image is square and at least as large as the computed minimum.
    let palette = palette_to_bgr(&get_default_palette_rgb());
    let min_size =
        calculate_minimum_image_size(&result.packed_data, 1, 4, 20, &palette).unwrap();
    let size = result.image.width();
    assert_eq!(result.image.height(), size);
    assert!(size >= min_size);

    // The three markers sit at their corner offsets.
    let g0 = t0.get_pixel(0, 0);
    assert_eq!(result.image.get_pixel(4, 4), (g0, g0, g0));
    let g1 = t1.get_pixel(0, 0);
    assert_eq!(result.image.get_pixel(4, size - 4 - 8), (g1, g1, g1));
    let g2 = t2.get_pixel(0, 0);
    assert_eq!(result.image.get_pixel(size - 4 - 8, 4), (g2, g2, g2));

    // Sixteen calibration pixels close the canonical pixel order.
    let coords = get_pixel_coords(&get_data_regions(size, size, 1, 4));
    let expected = get_default_palette_rgb();
    let tail_start = coords.len() - 16;
    for i in 0..16 {
        let (row, col) = coords[tail_start + i];
        assert_eq!(result.image.get_pixel(row, col), expected[i]);
    }
}

#[test]
fn api_surfaces_schema_palette_and_input_errors() {
    let t0 = gray_tag(8, 3);
    let t1 = gray_tag(8, 5);
    let t2 = gray_tag(8, 7);
    let bad_schema = vec![scouting_data_compression::schema::ColumnSchema::Int {
        name: "A".to_string(),
        bits: 2,
        int_max: 5,
    }];
    assert_eq!(
        encode_csv_to_image(b"A\n1\n", Some(&bad_schema), None, &t0, &t1, &t2).err(),
        Some(EncodeError::SchemaError)
    );
    let schema = vec![scouting_data_compression::schema::ColumnSchema::Int {
        name: "A".to_string(),
        bits: 2,
        int_max: 3,
    }];
    assert_eq!(
        encode_csv_to_image(b"A\n1\n", Some(&schema), Some(b"[[1,2,3]]"), &t0, &t1, &t2).err(),
        Some(EncodeError::PaletteError)
    );
    assert_eq!(
        encode_csv_to_image(b"A\n", Some(&schema), None, &t0, &t1, &t2).err(),
        Some(EncodeError::InputError)
    );
    assert_eq!(
        encode_csv_to_image(b"B\n1\n", Some(&schema), None, &t0, &t1, &t2).err(),
        Some(EncodeError::InputError)
    );
}

#[test]
fn api_reduces_supplied_palette_to_usable_prefix() {
    let t0 = gray_tag(8, 3);
    let t1 = gray_tag(8, 5);
    let t2 = gray_tag(8, 7);
    let schema = vec![scouting_data_compression::schema::ColumnSchema::Int {
        name: "A".to_string(),
        bits: 2,
        int_max: 3,
    }];
    // Five colors reduce to a four-color usable palette; its four
    // calibration pixels close the canonical order.
    let palette_json = b"[[9,0,0],[0,9,0],[0,0,9],[9,9,0],[7,7,7]]";
    let result =
        encode_csv_to_image(b"A\n2\n", Some(&schema), Some(palette_json), &t0, &t1, &t2).unwrap();
    let size = result.image.width();
    let coords = get_pixel_coords(&get_data_regions(size, size, 1, 4));
    let expected = [(9, 0, 0), (0, 9, 0), (0, 0, 9), (9, 9, 0)];
    let tail_start = coords.len() - 4;
    for i in 0..4 {
        let (row, col) = coords[tail_start + i];
        assert_eq!(result.image.get_pixel(row, col), expected[i]);
    }
}
