use scouting_data_compression::color_encoder::{
    encode_2bytes_to_rgb, encode_byte_to_rgb, encode_bytes_to_rgb,
};
use scouting_data_compression::color_palette::{
    calculate_bits_per_pixel, load_color_palette, palette_to_bgr, rgb_to_bgr, usable_color_set,
};
use scouting_data_compression::constants::get_default_palette_rgb;
use scouting_data_compression::errors::EncodeError;

fn palette_of(n: usize) -> Vec<(u8, u8, u8)> {
    (0..n).map(|i| (i as u8, (i * 2) as u8, (i * 3) as u8)).collect()
}

#[test]
fn usable_size_is_largest_power_of_two() {
    assert_eq!(usable_color_set(&palette_of(13)).len(), 8);
    assert_eq!(usable_color_set(&palette_of(16)).len(), 16);
    assert_eq!(usable_color_set(&palette_of(2)).len(), 2);
    assert_eq!(usable_color_set(&palette_of(5)).len(), 4);
    assert_eq!(usable_color_set(&palette_of(13)), palette_of(13)[..8].to_vec());
}

#[test]
fn undersized_palette_is_returned_unchanged() {
    assert_eq!(usable_color_set(&palette_of(1)), palette_of(1));
    assert_eq!(usable_color_set(&palette_of(0)), palette_of(0));
}

#[test]
fn bits_per_pixel_follows_palette_size() {
    assert_eq!(calculate_bits_per_pixel(2), 1);
    assert_eq!(calculate_bits_per_pixel(4), 2);
    assert_eq!(calculate_bits_per_pixel(16), 4);
    assert_eq!(calculate_bits_per_pixel(0), 0);
    assert_eq!(calculate_bits_per_pixel(13), 3);
}

#[test]
fn rgb_bgr_flip() {
    assert_eq!(rgb_to_bgr((1, 2, 3)), (3, 2, 1));
    assert_eq!(palette_to_bgr(&[(1, 2, 3), (4, 5, 6)]), vec![(3, 2, 1), (6, 5, 4)]);
}

#[test]
fn default_palette_has_sixteen_colors() {
    let p = get_default_palette_rgb();
    assert_eq!(p.len(), 16);
    assert_eq!(p[0], (255, 0, 0));
    assert_eq!(p[15], (64, 128, 255));
}

#[test]
fn one_bit_palette_byte_encoding_is_lsb_chunk_first() {
    let palette = vec![(10, 10, 10), (20, 20, 20)];
    let pixels = encode_byte_to_rgb(0xB0, &palette);
    let indices: Vec<usize> =
        pixels.iter().map(|c| if *c == palette[1] { 1 } else { 0 }).collect();
    assert_eq!(indices, vec![0, 0, 0, 0, 1, 1, 0, 1]);
}

#[test]
fn two_byte_mode_is_selected_when_density_divides_sixteen() {
    // Four colors: two bits per pixel, 16 % 2 == 0, so a byte pair is
    // read as one 16-bit value with the first byte in the high bits.
    let palette4 = palette_of(4);
    let pixels = encode_2bytes_to_rgb(0x01, 0x00, &palette4);
    assert_eq!(pixels.len(), 8);
    let indices: Vec<usize> = pixels
        .iter()
        .map(|c| palette4.iter().position(|p| p == c).unwrap())
        .collect();
    assert_eq!(indices, vec![0, 0, 0, 0, 1, 0, 0, 0]);
}

#[test]
fn per_byte_fallback_when_density_does_not_divide_sixteen() {
    // Eight colors: three bits per pixel, so each byte stands alone and
    // takes ceil(8 / 3) == 3 pixels.
    let palette8 = palette_of(8);
    let lone = encode_byte_to_rgb(0xFF, &palette8);
    assert_eq!(lone.len(), 3);
    let pair = encode_2bytes_to_rgb(0x12, 0x34, &palette8);
    let mut expect = encode_byte_to_rgb(0x12, &palette8);
    expect.extend(encode_byte_to_rgb(0x34, &palette8));
    assert_eq!(pair, expect);
    let stream = encode_bytes_to_rgb(&[0x12, 0x34, 0x56], &palette8);
    assert_eq!(stream.len(), 9);
}

#[test]
fn byte_stream_pairs_pad_odd_tail_with_zero() {
    let palette4 = palette_of(4);
    let stream = encode_bytes_to_rgb(&[0x01], &palette4);
    assert_eq!(stream, encode_2bytes_to_rgb(0x01, 0x00, &palette4));
}

#[test]
fn palette_json_loading() {
    assert_eq!(
        load_color_palette(b"[[1,2,3],[4,5,6]]").unwrap(),
        vec![(1, 2, 3), (4, 5, 6)]
    );
    assert_eq!(load_color_palette(b"[[1,2,3]]"), Err(EncodeError::PaletteError));
    assert_eq!(load_color_palette(b"not json"), Err(EncodeError::PaletteError));
}
