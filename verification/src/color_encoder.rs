use vstd::prelude::*;
use vstd::arithmetic::power2::pow2;
use crate::color_palette::{
    log2_floor, lemma_log2_floor_bounds, calculate_bits_per_pixel, BgrColor,
};

verus! {

/// The `k`th chunk of `bpp` bits of `v`, counting chunks from the least
/// significant end.
pub open spec fn chunk_of(v: nat, bpp: nat, k: nat) -> nat {
    (v / pow2(k * bpp)) % pow2(bpp)
}

/// How many pixels one byte needs at `bpp` bits per pixel: eight bits
/// rounded up to whole chunks.
pub open spec fn pixels_per_byte(bpp: nat) -> nat {
    ((8 + bpp - 1) / bpp as int) as nat
}

/// The colors for a single byte in per-byte mode: chunks are read least
/// significant first, and a pixel whose chunk lies wholly past the eighth
/// bit takes the first palette color.
pub open spec fn byte_pixels(b: u8, palette: Seq<BgrColor>) -> Seq<BgrColor> {
    let bpp = log2_floor(palette.len());
    Seq::new(
        pixels_per_byte(bpp),
        |k: int|
            if k * bpp < 8 {
                palette[chunk_of(b as nat, bpp, k as nat) as int]
            } else {
                palette[0]
            },
    )
}

/// The colors for a pair of bytes: when the bit density divides sixteen,
/// the pair forms one 16-bit value, first byte in the high bits, read in
/// `bpp`-bit chunks from the least significant end; otherwise each byte
/// is encoded on its own.
pub open spec fn two_byte_pixels(b1: u8, b2: u8, palette: Seq<BgrColor>) -> Seq<BgrColor> {
    let bpp = log2_floor(palette.len());
    if 16int % (bpp as int) == 0 {
        let v = (b1 as nat) * 256 + (b2 as nat);
        Seq::new((16 as int / bpp as int) as nat, |k: int| palette[chunk_of(v, bpp, k as nat) as int])
    } else {
        byte_pixels(b1, palette) + byte_pixels(b2, palette)
    }
}

/// The colors of the bytes from position `i` on, consumed in pairs; an
/// odd trailing byte is paired with an implicit zero.
pub open spec fn pair_pixels_from(data: Seq<u8>, palette: Seq<BgrColor>, i: int) -> Seq<BgrColor>
    decreases data.len() - i,
{
    if i < 0 || i >= data.len() {
        Seq::empty()
    } else {
        let b1 = data[i];
        if i + 1 < data.len() {
            two_byte_pixels(b1, data[i + 1], palette) + pair_pixels_from(data, palette, i + 2)
        } else {
            two_byte_pixels(b1, 0u8, palette)
        }
    }
}

/// The colors of the bytes from position `i` on, each byte on its own.
pub open spec fn single_pixels_from(data: Seq<u8>, palette: Seq<BgrColor>, i: int) -> Seq<BgrColor>
    decreases data.len() - i,
{
    if i < 0 || i >= data.len() {
        Seq::empty()
    } else {
        byte_pixels(data[i], palette) + single_pixels_from(data, palette, i + 1)
    }
}

/// The colors of a whole byte stream: pairs when the bit density divides
/// eight, single bytes otherwise.
pub open spec fn bytes_pixels(data: Seq<u8>, palette: Seq<BgrColor>) -> Seq<BgrColor> {
    let bpp = log2_floor(palette.len());
    if 8int % (bpp as int) == 0 {
        pair_pixels_from(data, palette, 0)
    } else {
        single_pixels_from(data, palette, 0)
    }
}

/// For the bit densities a palette of fewer than 512 colors can produce,
/// the pair mode test on sixteen bits agrees with the test on eight.
pub proof fn lemma_pair_mode_selection(bpp: nat)
    requires
        1 <= bpp <= 8,
    ensures
        (16int % (bpp as int) == 0) <==> (8int % (bpp as int) == 0),
{
    if bpp == 1 || bpp == 2 || bpp == 4 || bpp == 8 {
        assert(8int % (bpp as int) == 0);
        assert(16int % (bpp as int) == 0);
    } else if bpp == 3 {
        assert(8int % 3 == 2 && 16int % 3 == 1);
    } else if bpp == 5 {
        assert(8int % 5 == 3 && 16int % 5 == 1);
    } else if bpp == 6 {
        assert(8int % 6 == 2 && 16int % 6 == 4);
    } else {
        assert(bpp == 7);
        assert(8int % 7 == 1 && 16int % 7 == 2);
    }
}

/// A chunk value always indexes into the palette: it is below the bit
/// density's power of two, which is at most the palette length.
pub proof fn lemma_chunk_in_palette(v: nat, n: nat, k: nat)
    requires
        n >= 1,
    ensures
        chunk_of(v, log2_floor(n), k) < n,
{
    let bpp = log2_floor(n);
    vstd::arithmetic::power2::lemma_pow2_pos((k * bpp) as nat);
    vstd::arithmetic::power2::lemma_pow2_pos(bpp);
    lemma_log2_floor_bounds(n);
    assert((v / pow2(k * bpp)) % pow2(bpp) < pow2(bpp)) by (nonlinear_arith)
        requires
            pow2(bpp) > 0,
    ;
}

/// The pixel count of the bytes from `i` on in pair mode.
proof fn lemma_pair_pixels_from_len(data: Seq<u8>, palette: Seq<BgrColor>, i: int)
    requires
        0 <= i <= data.len(),
        1 <= log2_floor(palette.len()) <= 8,
        16int % (log2_floor(palette.len()) as int) == 0,
    ensures
        pair_pixels_from(data, palette, i).len() == ((data.len() - i + 1) / 2) * (16int
            / log2_floor(palette.len()) as int),
    decreases data.len() - i,
{
    let bpp = log2_floor(palette.len());
    let ppb2 = 16int / bpp as int;
    vstd::arithmetic::div_mod::lemma_div_pos_is_pos(16, bpp as int);
    if i < data.len() {
        if i + 1 < data.len() {
            lemma_pair_pixels_from_len(data, palette, i + 2);
            assert(two_byte_pixels(data[i], data[i + 1], palette).len() == ppb2);
            assert(pair_pixels_from(data, palette, i) == two_byte_pixels(
                data[i],
                data[i + 1],
                palette,
            ) + pair_pixels_from(data, palette, i + 2));
            assert((data.len() - i + 1) / 2 == 1 + (data.len() - i - 1) / 2);
            assert((1 + (data.len() - i - 1) / 2) * ppb2 == ppb2 + ((data.len() - i - 1) / 2)
                * ppb2) by (nonlinear_arith);
        } else {
            assert(two_byte_pixels(data[i], 0u8, palette).len() == ppb2);
            assert((data.len() - i + 1) / 2 == 1);
            assert(1 * ppb2 == ppb2) by (nonlinear_arith);
        }
    } else {
        assert(((data.len() - i + 1) / 2) * ppb2 == 0) by (nonlinear_arith)
            requires
                (data.len() - i + 1) / 2 == 0,
        ;
    }
}

/// The pixel count of the bytes from `i` on in per-byte mode.
proof fn lemma_single_pixels_from_len(data: Seq<u8>, palette: Seq<BgrColor>, i: int)
    requires
        0 <= i <= data.len(),
        1 <= log2_floor(palette.len()) <= 8,
    ensures
        single_pixels_from(data, palette, i).len() == (data.len() - i) * pixels_per_byte(
            log2_floor(palette.len()),
        ),
    decreases data.len() - i,
{
    let bpp = log2_floor(palette.len());
    if i < data.len() {
        lemma_single_pixels_from_len(data, palette, i + 1);
        assert((data.len() - i) * pixels_per_byte(bpp) == pixels_per_byte(bpp) + (data.len() - i
            - 1) * pixels_per_byte(bpp)) by (nonlinear_arith);
    } else {
        assert((data.len() - i) * pixels_per_byte(bpp) == 0) by (nonlinear_arith)
            requires
                data.len() - i == 0,
        ;
    }
}

/// How many pixels a whole byte stream takes: whole pairs in pair mode,
/// whole bytes otherwise.
pub proof fn lemma_bytes_pixels_len(data: Seq<u8>, palette: Seq<BgrColor>)
    requires
        1 <= log2_floor(palette.len()) <= 8,
    ensures
        bytes_pixels(data, palette).len() == ({
            let bpp = log2_floor(palette.len());
            if 8int % (bpp as int) == 0 {
                ((data.len() + 1) / 2) * (16int / bpp as int)
            } else {
                data.len() * pixels_per_byte(bpp) as int
            }
        }),
{
    let bpp = log2_floor(palette.len());
    lemma_pair_mode_selection(bpp);
    if 8int % (bpp as int) == 0 {
        lemma_pair_pixels_from_len(data, palette, 0);
    } else {
        lemma_single_pixels_from_len(data, palette, 0);
    }
}

/// Converts one byte to pixel colors in per-byte mode.
pub fn encode_byte_to_rgb(byte_val: u8, palette_bgr: &[BgrColor]) -> (r: Vec<BgrColor>)
    requires
        2 <= palette_bgr@.len() < 256,
    ensures
        r@ == byte_pixels(byte_val, palette_bgr@),
{
    let num_colors = palette_bgr.len();
    let bits_per_pixel = calculate_bits_per_pixel(num_colors);
    let ghost bpp = log2_floor(num_colors as nat);
    proof {
        lemma_log2_floor_bounds(num_colors as nat);
        vstd::arithmetic::power2::lemma2_to64();
        if bpp >= 8 {
            vstd::arithmetic::power2::lemma_pow2_strictly_increases(8, bpp);
        }
        assert(1 <= bpp < 8);
        assert((8 + bpp - 1) as int / bpp as int <= 8) by (nonlinear_arith)
            requires
                1 <= bpp,
        ;
    }
    let pixels_per = (8 + bits_per_pixel - 1) / bits_per_pixel;
    let mut rgb_list: Vec<BgrColor> = Vec::new();
    let mut pixel_idx: u32 = 0;
    while pixel_idx < pixels_per
        invariant
            2 <= palette_bgr@.len() < 256,
            bpp == log2_floor(palette_bgr@.len()),
            1 <= bpp < 8,
            bits_per_pixel == bpp,
            pixels_per == pixels_per_byte(bpp),
            pixels_per <= 8,
            pixel_idx <= pixels_per,
            rgb_list@ == byte_pixels(byte_val, palette_bgr@).take(pixel_idx as int),
        decreases pixels_per - pixel_idx,
    {
        proof {
            assert(pixel_idx * bits_per_pixel <= 56) by (nonlinear_arith)
                requires
                    pixel_idx <= 8,
                    bits_per_pixel < 8,
            ;
        }
        let bit_offset = pixel_idx * bits_per_pixel;
        if bit_offset < 8 {
            proof {
                vstd::arithmetic::power2::lemma2_to64();
                vstd::arithmetic::power2::lemma_pow2_pos(bpp);
                vstd::arithmetic::power2::lemma_pow2_strictly_increases(bpp, 8);
                vstd::bits::lemma_u8_shl_is_mul(1u8, bits_per_pixel as u8);
                vstd::bits::lemma_u8_shr_is_div(byte_val, bit_offset as u8);
                vstd::bits::lemma_u8_low_bits_mask_is_mod(
                    byte_val >> (bit_offset as u8),
                    bpp,
                );
                lemma_chunk_in_palette(byte_val as nat, palette_bgr@.len(), pixel_idx as nat);
            }
            let mask = (1u8 << (bits_per_pixel as u8)) - 1;
            let color_index = ((byte_val >> (bit_offset as u8)) & mask) as usize;
            assert(color_index == chunk_of(byte_val as nat, bpp, pixel_idx as nat));
            rgb_list.push(palette_bgr[color_index]);
        } else {
            rgb_list.push(palette_bgr[0]);
        }
        proof {
            assert(rgb_list@ =~= byte_pixels(byte_val, palette_bgr@).take(pixel_idx + 1));
        }
        pixel_idx = pixel_idx + 1;
    }
    proof {
        assert(rgb_list@ =~= byte_pixels(byte_val, palette_bgr@));
    }
    rgb_list
}

/// Converts a pair of bytes to pixel colors, picking the two-byte mode
/// exactly when the bit density divides sixteen.
pub fn encode_2bytes_to_rgb(byte1: u8, byte2: u8, palette_bgr: &[BgrColor]) -> (r: Vec<BgrColor>)
    requires
        2 <= palette_bgr@.len() < 512,
    ensures
        r@ == two_byte_pixels(byte1, byte2, palette_bgr@),
{
    let num_colors = palette_bgr.len();
    let bits_per_pixel = calculate_bits_per_pixel(num_colors);
    let ghost bpp = log2_floor(num_colors as nat);
    proof {
        lemma_log2_floor_bounds(num_colors as nat);
        vstd::arithmetic::power2::lemma2_to64();
        if bpp >= 9 {
            vstd::arithmetic::power2::lemma_pow2_strictly_increases(9, bpp);
        }
        assert(1 <= bpp <= 8);
    }
    if 16 % bits_per_pixel == 0 {
        let pixels_per_2bytes = 16 / bits_per_pixel;
        let combined: u16 = ((byte1 as u16) << 8u16) | (byte2 as u16);
        proof {
            assert(combined == (byte1 as u16) * 256 + (byte2 as u16)) by (bit_vector)
                requires
                    combined == ((byte1 as u16) << 8u16) | (byte2 as u16),
            ;
        }
        let ghost target = two_byte_pixels(byte1, byte2, palette_bgr@);
        let mut rgb_list: Vec<BgrColor> = Vec::new();
        let mut pixel_idx: u32 = 0;
        while pixel_idx < pixels_per_2bytes
            invariant
                2 <= palette_bgr@.len() < 512,
                bpp == log2_floor(palette_bgr@.len()),
                1 <= bpp <= 8,
                bits_per_pixel == bpp,
                16int % (bpp as int) == 0,
                pixels_per_2bytes == 16int / (bpp as int),
                pixel_idx <= pixels_per_2bytes,
                combined == (byte1 as nat) * 256 + (byte2 as nat),
                target == two_byte_pixels(byte1, byte2, palette_bgr@),
                target.len() == pixels_per_2bytes,
                rgb_list@ == target.take(pixel_idx as int),
            decreases pixels_per_2bytes - pixel_idx,
        {
            proof {
                assert(pixel_idx * bits_per_pixel <= 15) by (nonlinear_arith)
                    requires
                        bits_per_pixel == bpp,
                        1 <= bpp <= 8,
                        16int % (bpp as int) == 0,
                        pixel_idx < 16int / (bpp as int),
                ;
            }
            let bit_offset = pixel_idx * bits_per_pixel;
            proof {
                vstd::arithmetic::power2::lemma2_to64();
                vstd::arithmetic::power2::lemma_pow2_pos(bpp);
                vstd::arithmetic::power2::lemma_pow2_strictly_increases(bpp, 16);
                vstd::bits::lemma_u16_shl_is_mul(1u16, bits_per_pixel as u16);
                vstd::bits::lemma_u16_shr_is_div(combined, bit_offset as u16);
                vstd::bits::lemma_u16_low_bits_mask_is_mod(combined >> (bit_offset as u16), bpp);
                lemma_chunk_in_palette(combined as nat, palette_bgr@.len(), pixel_idx as nat);
                assert(bit_offset == pixel_idx * bpp);
            }
            let mask = (1u16 << (bits_per_pixel as u16)) - 1;
            let color_index = ((combined >> (bit_offset as u16)) & mask) as usize;
            assert(color_index == chunk_of(combined as nat, bpp, pixel_idx as nat));
            rgb_list.push(palette_bgr[color_index]);
            proof {
                assert(rgb_list@ =~= target.take(pixel_idx + 1));
            }
            pixel_idx = pixel_idx + 1;
        }
        proof {
            assert(rgb_list@ =~= target);
        }
        rgb_list
    } else {
        proof {
            vstd::arithmetic::power2::lemma2_to64();
            if bpp >= 8 {
                assert(16int % 8 == 0);
            }
            assert(bpp < 8);
            vstd::arithmetic::power2::lemma_pow2_strictly_increases(bpp + 1, 9);
            assert(palette_bgr@.len() < 256);
        }
        let mut rgb_list = encode_byte_to_rgb(byte1, palette_bgr);
        let mut second = encode_byte_to_rgb(byte2, palette_bgr);
        rgb_list.append(&mut second);
        proof {
            assert(rgb_list@ == two_byte_pixels(byte1, byte2, palette_bgr@));
        }
        rgb_list
    }
}

/// Converts a whole byte stream to pixel colors, consuming bytes in
/// pairs when the bit density divides eight and one at a time otherwise.
pub fn encode_bytes_to_rgb(data_bytes: &[u8], palette_bgr: &[BgrColor]) -> (r: Vec<BgrColor>)
    requires
        2 <= palette_bgr@.len() < 512,
    ensures
        r@ == bytes_pixels(data_bytes@, palette_bgr@),
{
    let num_colors = palette_bgr.len();
    let bits_per_pixel = calculate_bits_per_pixel(num_colors);
    let ghost bpp = log2_floor(num_colors as nat);
    proof {
        lemma_log2_floor_bounds(num_colors as nat);
        vstd::arithmetic::power2::lemma2_to64();
        if bpp >= 9 {
            vstd::arithmetic::power2::lemma_pow2_strictly_increases(9, bpp);
        }
        assert(1 <= bpp <= 8);
    }
    let mut rgb_list: Vec<BgrColor> = Vec::new();
    if 8 % bits_per_pixel == 0 {
        let mut i: usize = 0;
        proof {
            assert(rgb_list@ + pair_pixels_from(data_bytes@, palette_bgr@, 0)
                =~= pair_pixels_from(data_bytes@, palette_bgr@, 0));
        }
        while i < data_bytes.len()
            invariant
                2 <= palette_bgr@.len() < 512,
                bpp == log2_floor(palette_bgr@.len()),
                bits_per_pixel == bpp,
                8int % (bpp as int) == 0,
                i <= data_bytes@.len(),
                rgb_list@ + pair_pixels_from(data_bytes@, palette_bgr@, i as int)
                    == pair_pixels_from(data_bytes@, palette_bgr@, 0),
            decreases data_bytes@.len() - i,
        {
            let byte1 = data_bytes[i];
            let ghost prev = rgb_list@;
            if i + 1 < data_bytes.len() {
                let byte2 = data_bytes[i + 1];
                let mut chunk = encode_2bytes_to_rgb(byte1, byte2, palette_bgr);
                rgb_list.append(&mut chunk);
                proof {
                    assert(rgb_list@ + pair_pixels_from(data_bytes@, palette_bgr@, i + 2)
                        =~= prev + pair_pixels_from(data_bytes@, palette_bgr@, i as int));
                }
                i = i + 2;
            } else {
                let mut chunk = encode_2bytes_to_rgb(byte1, 0, palette_bgr);
                rgb_list.append(&mut chunk);
                proof {
                    assert(rgb_list@ + pair_pixels_from(data_bytes@, palette_bgr@, i + 1)
                        =~= prev + pair_pixels_from(data_bytes@, palette_bgr@, i as int));
                }
                i = i + 1;
            }
        }
        proof {
            assert(rgb_list@ =~= pair_pixels_from(data_bytes@, palette_bgr@, 0));
        }
    } else {
        let mut i: usize = 0;
        proof {
            assert(rgb_list@ + single_pixels_from(data_bytes@, palette_bgr@, 0)
                =~= single_pixels_from(data_bytes@, palette_bgr@, 0));
            vstd::arithmetic::power2::lemma2_to64();
            if bpp >= 8 {
                assert(8int % 8 == 0);
            }
            vstd::arithmetic::power2::lemma_pow2_strictly_increases(bpp + 1, 9);
            assert(palette_bgr@.len() < 256);
        }
        while i < data_bytes.len()
            invariant
                2 <= palette_bgr@.len() < 256,
                bpp == log2_floor(palette_bgr@.len()),
                bits_per_pixel == bpp,
                8int % (bpp as int) != 0,
                i <= data_bytes@.len(),
                rgb_list@ + single_pixels_from(data_bytes@, palette_bgr@, i as int)
                    == single_pixels_from(data_bytes@, palette_bgr@, 0),
            decreases data_bytes@.len() - i,
        {
            let ghost prev = rgb_list@;
            let mut chunk = encode_byte_to_rgb(data_bytes[i], palette_bgr);
            rgb_list.append(&mut chunk);
            proof {
                assert(rgb_list@ + single_pixels_from(data_bytes@, palette_bgr@, i + 1)
                    =~= prev + single_pixels_from(data_bytes@, palette_bgr@, i as int));
            }
            i = i + 1;
        }
        proof {
            assert(rgb_list@ =~= single_pixels_from(data_bytes@, palette_bgr@, 0));
        }
    }
    rgb_list
}

} // verus!
