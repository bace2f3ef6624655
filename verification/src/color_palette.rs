use vstd::prelude::*;
use crate::errors::EncodeError;

verus! {

/// A color as it is stored in a palette description: red, green, blue.
pub type RgbColor = (u8, u8, u8);

/// A color with its channels swapped for the painting path: blue, green, red.
pub type BgrColor = (u8, u8, u8);

/// A palette as its serialized description lays it out: a list of
/// three-byte color entries.
#[derive(Clone, Debug)]
pub struct ColorPalette {
    pub colors: Vec<[u8; 3]>,
}

/// Whether `n` is a power of two.
pub open spec fn is_power_of_two(n: nat) -> bool
    decreases n,
{
    if n == 0 {
        false
    } else if n == 1 {
        true
    } else {
        n % 2 == 0 && is_power_of_two(n / 2)
    }
}

/// The length of the usable prefix of an `n`-color palette: the largest
/// power of two that is at most `n` (and `n` itself when `n < 2`).
pub open spec fn usable_len(n: nat) -> nat
    decreases n,
{
    if n < 2 {
        n
    } else {
        2 * usable_len(n / 2)
    }
}

/// The bit density a palette of `n` colors supports: the floor of the
/// base-two logarithm of `n`, and `0` when `n` is `0`.
pub open spec fn log2_floor(n: nat) -> nat
    decreases n,
{
    if n < 2 {
        0
    } else {
        1 + log2_floor(n / 2)
    }
}

/// `rgb_to_bgr` as a plain value mapping.
pub open spec fn spec_rgb_to_bgr(c: RgbColor) -> BgrColor {
    (c.2, c.1, c.0)
}

/// Two distinct powers of two are at least a factor of two apart.
proof fn lemma_pow2_gap(a: nat, b: nat)
    requires
        is_power_of_two(a),
        is_power_of_two(b),
        a < b,
    ensures
        2 * a <= b,
    decreases b,
{
    if b > 1 {
        if a == 1 {
            if b % 2 == 0 && b / 2 >= 1 {
                assert(2 * a <= b);
            }
        } else {
            lemma_pow2_gap(a / 2, b / 2);
        }
    }
}

/// The usable prefix length is the largest power of two that does not
/// exceed the palette length, for any palette of at least one color.
pub proof fn lemma_usable_len_largest_pow2(n: nat)
    requires
        n >= 1,
    ensures
        is_power_of_two(usable_len(n)),
        usable_len(n) <= n,
        forall|m: nat| is_power_of_two(m) && m <= n ==> m <= usable_len(n),
    decreases n,
{
    if n >= 2 {
        lemma_usable_len_largest_pow2(n / 2);
        assert forall|m: nat| is_power_of_two(m) && m <= n implies m <= usable_len(n) by {
            if m >= 2 {
                assert(is_power_of_two(m / 2));
                assert(m / 2 <= n / 2);
                assert(m / 2 <= usable_len(n / 2));
                assert(m <= 2 * (m / 2) + 1);
            } else {
                assert(usable_len(n / 2) >= 1);
            }
        }
    }
}

/// The floor logarithm brackets its argument between two powers of two.
pub proof fn lemma_log2_floor_bounds(n: nat)
    requires
        n >= 1,
    ensures
        vstd::arithmetic::power2::pow2(log2_floor(n)) <= n,
        n < vstd::arithmetic::power2::pow2(log2_floor(n) + 1),
    decreases n,
{
    vstd::arithmetic::power2::lemma_pow2_unfold(log2_floor(n) + 1);
    if n >= 2 {
        lemma_log2_floor_bounds(n / 2);
        vstd::arithmetic::power2::lemma_pow2_unfold(log2_floor(n));
    } else {
        assert(vstd::arithmetic::power2::pow2(0) == 1) by {
            vstd::arithmetic::power2::lemma2_to64();
        }
    }
}

/// The floor logarithm never decreases.
pub proof fn lemma_log2_floor_monotonic(a: nat, b: nat)
    requires
        a <= b,
    ensures
        log2_floor(a) <= log2_floor(b),
    decreases b,
{
    if a >= 2 {
        lemma_log2_floor_monotonic(a / 2, b / 2);
    }
}

/// A bound on the argument gives a bound on its floor logarithm.
pub proof fn lemma_log2_floor_le(n: nat, k: nat)
    requires
        n < vstd::arithmetic::power2::pow2(k + 1),
    ensures
        log2_floor(n) <= k,
    decreases n,
{
    if n >= 2 {
        vstd::arithmetic::power2::lemma_pow2_unfold(k + 1);
        if k == 0 {
            assert(vstd::arithmetic::power2::pow2(0) == 1) by {
                vstd::arithmetic::power2::lemma2_to64();
            }
        } else {
            lemma_log2_floor_le(n / 2, (k - 1) as nat);
        }
    }
}

/// Keeps the longest power-of-two-sized prefix of the palette; a palette
/// of fewer than two colors is returned unchanged.
pub fn usable_color_set(palette: &[RgbColor]) -> (r: Vec<RgbColor>)
    ensures
        palette@.len() < 2 ==> r@ == palette@,
        palette@.len() >= 2 ==> r@ == palette@.take(usable_len(palette@.len()) as int),
        r@.len() == if palette@.len() < 2 {
            palette@.len()
        } else {
            usable_len(palette@.len())
        },
{
    let n = palette.len();
    let mut out: Vec<RgbColor> = Vec::new();
    if n < 2 {
        let mut i: usize = 0;
        while i < n
            invariant
                i <= n,
                n == palette@.len(),
                out@ == palette@.take(i as int),
            decreases n - i,
        {
            out.push(palette[i]);
            assert(out@ == palette@.take(i + 1));
            i = i + 1;
        }
        assert(out@ == palette@);
        return out;
    }
    let mut power_of_two: usize = 1;
    while power_of_two <= n / 2
        invariant
            n == palette@.len(),
            n >= 2,
            1 <= power_of_two <= n,
            is_power_of_two(power_of_two as nat),
        decreases n - power_of_two,
    {
        assert(2 * power_of_two <= n);
        power_of_two = power_of_two * 2;
    }
    proof {
        lemma_usable_len_largest_pow2(n as nat);
        if (power_of_two as nat) < usable_len(n as nat) {
            lemma_pow2_gap(power_of_two as nat, usable_len(n as nat));
            assert(false);
        }
        assert(power_of_two as nat == usable_len(n as nat));
    }
    let mut i: usize = 0;
    while i < power_of_two
        invariant
            i <= power_of_two,
            power_of_two <= n,
            n == palette@.len(),
            out@ == palette@.take(i as int),
        decreases power_of_two - i,
    {
        out.push(palette[i]);
        assert(out@ == palette@.take(i + 1));
        i = i + 1;
    }
    out
}

/// Flips a color from RGB channel order to BGR.
pub fn rgb_to_bgr(rgb: RgbColor) -> (r: BgrColor)
    ensures
        r == spec_rgb_to_bgr(rgb),
{
    (rgb.2, rgb.1, rgb.0)
}

/// Flips every color of a palette from RGB channel order to BGR.
pub fn palette_to_bgr(palette: &[RgbColor]) -> (r: Vec<BgrColor>)
    ensures
        r@ == palette@.map_values(|c: RgbColor| spec_rgb_to_bgr(c)),
{
    let mut out: Vec<BgrColor> = Vec::new();
    let mut i: usize = 0;
    while i < palette.len()
        invariant
            i <= palette@.len(),
            out@ == palette@.take(i as int).map_values(|c: RgbColor| spec_rgb_to_bgr(c)),
        decreases palette@.len() - i,
    {
        out.push(rgb_to_bgr(palette[i]));
        assert(palette@.take(i + 1).map_values(|c: RgbColor| spec_rgb_to_bgr(c))
            =~= palette@.take(i as int).map_values(|c: RgbColor| spec_rgb_to_bgr(c)).push(
            spec_rgb_to_bgr(palette@[i as int]),
        ));
        i = i + 1;
    }
    assert(palette@.take(palette@.len() as int) =~= palette@);
    out
}

/// The number of payload bits a single pixel carries when `num_colors`
/// palette entries are available.
pub fn calculate_bits_per_pixel(num_colors: usize) -> (r: u32)
    ensures
        r == log2_floor(num_colors as nat),
{
    if num_colors == 0 {
        return 0;
    }
    let mut n: usize = num_colors;
    let mut bits: u32 = 0;
    proof {
        vstd::arithmetic::power2::lemma2_to64();
        vstd::arithmetic::power2::lemma_pow2_unfold(65);
        assert((num_colors as nat) < vstd::arithmetic::power2::pow2(65));
        lemma_log2_floor_le(num_colors as nat, 64);
    }
    while n >= 2
        invariant
            n >= 1,
            bits + log2_floor(n as nat) == log2_floor(num_colors as nat),
            log2_floor(num_colors as nat) <= 64,
        decreases n,
    {
        n = n / 2;
        bits = bits + 1;
    }
    bits
}

/// What `serde_json::from_slice::<Vec<[u8; 3]>>` yields on given bytes:
/// the color triples of a JSON array of three-byte arrays, or nothing when
/// the bytes are not such a document.
pub uninterp spec fn palette_json_of(bytes: Seq<u8>) -> Option<Seq<RgbColor>>;

/// Relies on `serde_json::from_slice` to read a JSON array of three-byte
/// arrays; what it yields is a function of the input bytes alone.
#[verifier::external_body]
fn parse_palette_json(bytes: &[u8]) -> (r: Option<Vec<[u8; 3]>>)
    ensures
        r is Some <==> palette_json_of(bytes@) is Some,
        r matches Some(v) ==> palette_json_of(bytes@) == Some(
            v@.map_values(|c: [u8; 3]| (c[0], c[1], c[2])),
        ),
{
    serde_json::from_slice::<Vec<[u8; 3]>>(bytes).ok()
}

/// Reads a palette from its JSON description: an array of `[r, g, b]`
/// entries, of which there must be at least two.
pub fn load_color_palette(palette_bytes: &[u8]) -> (r: Result<Vec<RgbColor>, EncodeError>)
    ensures
        r is Ok <==> (palette_json_of(palette_bytes@) matches Some(p) && p.len() >= 2),
        r matches Ok(v) ==> palette_json_of(palette_bytes@) == Some(v@),
        r is Err ==> r == Err::<Vec<RgbColor>, EncodeError>(EncodeError::PaletteError),
{
    let parsed = match parse_palette_json(palette_bytes) {
        None => {
            return Err(EncodeError::PaletteError);
        },
        Some(v) => v,
    };
    if parsed.len() < 2 {
        return Err(EncodeError::PaletteError);
    }
    let ghost target = palette_json_of(palette_bytes@)->Some_0;
    let mut out: Vec<RgbColor> = Vec::new();
    let mut i: usize = 0;
    while i < parsed.len()
        invariant
            i <= parsed@.len(),
            target == parsed@.map_values(|c: [u8; 3]| (c[0], c[1], c[2])),
            out@ == target.take(i as int),
        decreases parsed@.len() - i,
    {
        let entry = &parsed[i];
        out.push((entry[0], entry[1], entry[2]));
        assert(out@ == target.take(i + 1));
        i = i + 1;
    }
    assert(out@ == target);
    Ok(out)
}

} // verus!
