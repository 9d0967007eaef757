use vstd::arithmetic::power2::{
    lemma2_to64, lemma_pow2_pos, lemma_pow2_strictly_increases, lemma_pow2_unfold, pow2,
};
use vstd::prelude::*;

verus! {

/// `bits` is the width of an index into a palette of `palette_size` colours:
/// the least number of bits, and at least one, that can tell that many
/// colours apart. For two colours or more this is the base-two logarithm of
/// the size, rounded up.
pub open spec fn is_bit_width(palette_size: nat, bits: nat) -> bool {
    &&& 1 <= bits
    &&& palette_size <= pow2(bits)
    &&& bits > 1 ==> pow2((bits - 1) as nat) < palette_size
}

/// The width of an index into a palette of `palette_size` colours.
pub open spec fn spec_bits_per_colour(palette_size: nat) -> nat {
    choose|bits: nat| is_bit_width(palette_size, bits)
}

/// The number of whole indices of `bits_per_colour` bits that one byte holds.
pub open spec fn spec_pixels_per_byte(bits_per_colour: nat) -> nat
    recommends
        bits_per_colour > 0,
{
    (8nat / bits_per_colour) as nat
}

/// A palette size has one bit width only.
pub proof fn lemma_bit_width_unique(palette_size: nat, a: nat, b: nat)
    requires
        is_bit_width(palette_size, a),
        is_bit_width(palette_size, b),
    ensures
        a == b,
{
    if a < b {
        if a < b - 1 {
            lemma_pow2_strictly_increases(a, (b - 1) as nat);
        }
    } else if b < a {
        if b < a - 1 {
            lemma_pow2_strictly_increases(b, (a - 1) as nat);
        }
    }
}

/// Whatever meets [`is_bit_width`] is the width that
/// [`spec_bits_per_colour`] names.
pub proof fn lemma_bit_width_is_spec(palette_size: nat, bits: nat)
    requires
        is_bit_width(palette_size, bits),
    ensures
        spec_bits_per_colour(palette_size) == bits,
{
    lemma_bit_width_unique(palette_size, bits, spec_bits_per_colour(palette_size));
}

/// The width of an index into a palette: the base-two logarithm of the
/// palette's size, rounded up, and one bit where that would be less.
pub fn bits_per_colour(palette_size: usize) -> (bits: usize)
    ensures
        is_bit_width(palette_size as nat, bits as nat),
        bits == spec_bits_per_colour(palette_size as nat),
{
    let mut bits: usize = 1;
    let mut reach: usize = 2;
    proof {
        lemma2_to64();
    }
    while reach < palette_size
        invariant
            1 <= bits,
            reach == pow2(bits as nat),
            bits > 1 ==> pow2((bits - 1) as nat) < palette_size,
            bits < reach,
        decreases usize::MAX - reach,
    {
        proof {
            lemma_pow2_unfold((bits + 1) as nat);
        }
        if reach > usize::MAX / 2 {
            proof {
                lemma_bit_width_is_spec(palette_size as nat, (bits + 1) as nat);
            }
            return bits + 1;
        }
        reach = reach * 2;
        bits = bits + 1;
    }
    proof {
        lemma_bit_width_is_spec(palette_size as nat, bits as nat);
    }
    bits
}

/// The number of whole indices that fit one byte: eight divided by the width
/// of an index, rounded down. It is zero for a width of more than eight bits.
pub fn pixels_per_byte(bits_per_colour: usize) -> (count: usize)
    requires
        bits_per_colour > 0,
    ensures
        count == spec_pixels_per_byte(bits_per_colour as nat),
        count == 8int / (bits_per_colour as int),
{
    8 / bits_per_colour
}

/// The widths of the smallest palettes: one bit up to two colours, two bits
/// up to four, three bits up to eight.
pub proof fn lemma_small_palette_widths()
    ensures
        spec_bits_per_colour(1) == 1,
        spec_bits_per_colour(2) == 1,
        spec_bits_per_colour(3) == 2,
        spec_bits_per_colour(4) == 2,
        forall|size: nat| 5 <= size <= 8 ==> #[trigger] spec_bits_per_colour(size) == 3,
{
    lemma2_to64();
    lemma_bit_width_is_spec(1, 1);
    lemma_bit_width_is_spec(2, 1);
    lemma_bit_width_is_spec(3, 2);
    lemma_bit_width_is_spec(4, 2);
    assert forall|size: nat| 5 <= size <= 8 implies #[trigger] spec_bits_per_colour(size) == 3 by {
        lemma_bit_width_is_spec(size, 3);
    }
}

/// A palette needs more than eight bits an index exactly when it has more
/// than 256 colours.
pub proof fn lemma_width_fits_byte(palette_size: nat)
    ensures
        spec_bits_per_colour(palette_size) <= 8 <==> palette_size <= 256,
        is_bit_width(palette_size, spec_bits_per_colour(palette_size)),
{
    lemma_bit_width_exists(palette_size);
    let bits = spec_bits_per_colour(palette_size);
    lemma2_to64();
    if bits <= 8 {
        if bits < 8 {
            lemma_pow2_strictly_increases(bits, 8);
        }
    } else {
        if bits > 9 {
            lemma_pow2_strictly_increases(8, (bits - 1) as nat);
        }
    }
}

/// Every palette size has a bit width.
pub proof fn lemma_bit_width_exists(palette_size: nat)
    ensures
        is_bit_width(palette_size, spec_bits_per_colour(palette_size)),
{
    let bits = find_bit_width(palette_size, 1);
    assert(is_bit_width(palette_size, bits));
}

proof fn find_bit_width(palette_size: nat, from: nat) -> (bits: nat)
    requires
        1 <= from,
        from > 1 ==> pow2((from - 1) as nat) < palette_size,
    ensures
        is_bit_width(palette_size, bits),
    decreases palette_size - pow2((from - 1) as nat),
{
    lemma_pow2_pos((from - 1) as nat);
    lemma_pow2_unfold(from);
    if palette_size <= pow2(from) {
        from
    } else {
        find_bit_width(palette_size, from + 1)
    }
}

} // verus!
