use vstd::arithmetic::div_mod::{
    lemma_div_pos_is_pos, lemma_fundamental_div_mod, lemma_fundamental_div_mod_converse,
    lemma_hoist_over_denominator, lemma_mod_multiples_vanish, lemma_mod_pos_bound,
    lemma_small_mod,
};
use vstd::arithmetic::power2::{
    lemma2_to64, lemma_pow2_adds, lemma_pow2_pos, lemma_pow2_strictly_increases, pow2,
};
use vstd::prelude::*;

use crate::chunks::{
    chunk, chunk_count, lemma_chunk_bounds, lemma_chunk_count, lemma_mul_ordered, lemma_mul_step,
};
use crate::error::AssetError;
use crate::pixel::Pixel;

verus! {

/// The parameters describe a way to pack a byte: indices of `bits_per_colour`
/// bits, at least one bit wide, `pixels_per_byte` of them to a byte, at least
/// one, the whole group no wider than eight bits.
pub open spec fn layout_fits(pixels_per_byte: nat, bits_per_colour: nat) -> bool {
    &&& 1 <= bits_per_colour
    &&& 1 <= pixels_per_byte
    &&& pixels_per_byte * bits_per_colour <= 8
}

/// What keeps a pixel from being packed at a width, if anything does: its
/// colour is missing from the palette, or the colour's index does not fit
/// the width.
pub open spec fn pixel_fault(palette: Seq<Pixel>, pixel: Pixel, bits_per_colour: nat) -> Option<
    AssetError,
> {
    if !palette.contains(pixel) {
        Some(AssetError::ColourNotInPalette)
    } else if palette.index_of(pixel) >= pow2(bits_per_colour) {
        Some(AssetError::UnsupportedBitWidth)
    } else {
        None
    }
}

/// Every pixel can be packed: the palette holds its colour at an index that
/// fits the width.
pub open spec fn pixels_fit(palette: Seq<Pixel>, pixels: Seq<Pixel>, bits_per_colour: nat) -> bool {
    forall|i: int|
        0 <= i < pixels.len() ==> (#[trigger] pixel_fault(palette, pixels[i], bits_per_colour))
            is None
}

/// Pixel `at` is the first that cannot be packed.
pub open spec fn is_first_fault(
    palette: Seq<Pixel>,
    pixels: Seq<Pixel>,
    bits_per_colour: nat,
    at: int,
) -> bool {
    &&& 0 <= at < pixels.len()
    &&& pixel_fault(palette, pixels[at], bits_per_colour) is Some
    &&& forall|j: int|
        0 <= j < at ==> (#[trigger] pixel_fault(palette, pixels[j], bits_per_colour)) is None
}

/// The error that packing the pixels ends in, if it ends in one: parameters
/// that do not describe a byte are an unsupported width, whatever the pixels
/// are; else the first pixel that cannot be packed decides, by what is wrong
/// with it.
pub open spec fn spec_pack_error(
    palette: Seq<Pixel>,
    pixels: Seq<Pixel>,
    pixels_per_byte: nat,
    bits_per_colour: nat,
) -> Option<AssetError> {
    if !layout_fits(pixels_per_byte, bits_per_colour) {
        Some(AssetError::UnsupportedBitWidth)
    } else if pixels_fit(palette, pixels, bits_per_colour) {
        None
    } else {
        pixel_fault(
            palette,
            pixels[choose|at: int| is_first_fault(palette, pixels, bits_per_colour, at)],
            bits_per_colour,
        )
    }
}

/// There is one first pixel that cannot be packed, if any cannot.
pub proof fn lemma_first_fault_is_unique(
    palette: Seq<Pixel>,
    pixels: Seq<Pixel>,
    bits_per_colour: nat,
    at: int,
    other: int,
)
    requires
        is_first_fault(palette, pixels, bits_per_colour, at),
        is_first_fault(palette, pixels, bits_per_colour, other),
    ensures
        at == other,
{
}

/// The palette holds the colour of every pixel.
pub open spec fn palette_covers(palette: Seq<Pixel>, pixels: Seq<Pixel>) -> bool {
    forall|i: int| 0 <= i < pixels.len() ==> palette.contains(#[trigger] pixels[i])
}

/// The palette index of each pixel, in the order of the pixels.
pub open spec fn spec_indices(pixels: Seq<Pixel>, palette: Seq<Pixel>) -> Seq<nat>
    recommends
        palette_covers(palette, pixels),
{
    Seq::new(pixels.len(), |i: int| palette.index_of(pixels[i]) as nat)
}

/// The value of one packed group: index `j` of the group stands `j` widths
/// above the lowest bit, so the value is the sum of `group[j] * 2^(j * bits)`.
/// Positions above a short group stay zero.
pub open spec fn spec_pack_byte(group: Seq<nat>, bits_per_colour: nat) -> nat
    decreases group.len(),
{
    if group.len() == 0 {
        0
    } else {
        spec_pack_byte(group.drop_last(), bits_per_colour) + group.last() * pow2(
            ((group.len() - 1) * bits_per_colour) as nat,
        )
    }
}

/// The packed bytes of a sequence of indices: one byte for each group of
/// `pixels_per_byte` indices, the last group shorter where the indices run
/// out.
pub open spec fn spec_pack(indices: Seq<nat>, pixels_per_byte: nat, bits_per_colour: nat) -> Seq<u8>
    recommends
        pixels_per_byte > 0,
{
    Seq::new(
        chunk_count(indices.len(), pixels_per_byte),
        |k: int| spec_pack_byte(chunk(indices, pixels_per_byte, k), bits_per_colour) as u8,
    )
}

/// The index that stands in position `slot` of a packed byte.
pub open spec fn spec_unpack_index(byte: nat, slot: nat, bits_per_colour: nat) -> nat {
    (byte / pow2(slot * bits_per_colour)) % pow2(bits_per_colour)
}

/// The pixels that packed bytes stand for: pixel `i` is the palette colour
/// whose index is in position `i % pixels_per_byte` of byte
/// `i / pixels_per_byte`.
pub open spec fn spec_unpack(
    bytes: Seq<u8>,
    pixel_count: nat,
    palette: Seq<Pixel>,
    pixels_per_byte: nat,
    bits_per_colour: nat,
) -> Seq<Pixel>
    recommends
        pixels_per_byte > 0,
{
    Seq::new(
        pixel_count,
        |i: int|
            palette[spec_unpack_index(
                bytes[i / pixels_per_byte as int] as nat,
                (i % pixels_per_byte as int) as nat,
                bits_per_colour,
            ) as int],
    )
}

/// Adding an index to the end of a group adds it above the group's bits.
pub proof fn lemma_pack_byte_push(group: Seq<nat>, index: nat, bits_per_colour: nat)
    ensures
        spec_pack_byte(group.push(index), bits_per_colour) == spec_pack_byte(group, bits_per_colour)
            + index * pow2((group.len() * bits_per_colour) as nat),
{
    assert(group.push(index).drop_last() =~= group);
}

/// A group of indices that each fit their width packs into as many bits as
/// the group has positions.
pub proof fn lemma_pack_byte_bound(group: Seq<nat>, bits_per_colour: nat)
    requires
        forall|j: int| 0 <= j < group.len() ==> #[trigger] group[j] < pow2(bits_per_colour),
    ensures
        spec_pack_byte(group, bits_per_colour) < pow2((group.len() * bits_per_colour) as nat),
    decreases group.len(),
{
    if group.len() == 0 {
        lemma2_to64();
    } else {
        let rest = group.drop_last();
        let below = ((group.len() - 1) * bits_per_colour) as nat;
        lemma_pack_byte_bound(rest, bits_per_colour);
        lemma_mul_step(group.len() - 1, bits_per_colour as int);
        lemma_pow2_adds(below, bits_per_colour);
        lemma_mul_ordered(group.last() as int, pow2(bits_per_colour) - 1, pow2(below) as int);
        lemma_mul_step(pow2(bits_per_colour) - 1, pow2(below) as int);
        assert(pow2(below) * pow2(bits_per_colour) == pow2(bits_per_colour) * pow2(below))
            by (nonlinear_arith);
    }
}

/// A group that fits the layout packs into a byte.
pub proof fn lemma_pack_byte_fits(group: Seq<nat>, pixels_per_byte: nat, bits_per_colour: nat)
    requires
        group.len() <= pixels_per_byte,
        pixels_per_byte * bits_per_colour <= 8,
        forall|j: int| 0 <= j < group.len() ==> #[trigger] group[j] < pow2(bits_per_colour),
    ensures
        spec_pack_byte(group, bits_per_colour) < 256,
{
    lemma_pack_byte_bound(group, bits_per_colour);
    lemma_mul_ordered(group.len() as int, pixels_per_byte as int, bits_per_colour as int);
    lemma_pow2_ordered((group.len() * bits_per_colour) as nat, 8);
    lemma2_to64();
}

pub(crate) proof fn lemma_pow2_ordered(a: nat, b: nat)
    requires
        a <= b,
    ensures
        pow2(a) <= pow2(b),
{
    if a < b {
        lemma_pow2_strictly_increases(a, b);
    }
}

/// Reading position `slot` of a packed group gives back the index that was
/// put there.
pub proof fn lemma_unpack_index(group: Seq<nat>, bits_per_colour: nat, slot: int)
    requires
        0 <= slot < group.len(),
        forall|j: int| 0 <= j < group.len() ==> #[trigger] group[j] < pow2(bits_per_colour),
    ensures
        spec_unpack_index(spec_pack_byte(group, bits_per_colour), slot as nat, bits_per_colour)
            == group[slot],
    decreases group.len(),
{
    let rest = group.drop_last();
    let top = group.len() - 1;
    let radix = pow2(bits_per_colour) as int;
    let place = pow2((slot * bits_per_colour) as nat) as int;
    let below = spec_pack_byte(rest, bits_per_colour) as int;
    let packed = spec_pack_byte(group, bits_per_colour) as int;
    lemma_pow2_pos(bits_per_colour);
    lemma_pow2_pos((slot * bits_per_colour) as nat);
    lemma_mul_ordered(0, slot, bits_per_colour as int);
    lemma_mul_ordered(0, top, bits_per_colour as int);
    if slot == top {
        lemma_pack_byte_bound(rest, bits_per_colour);
        lemma_fundamental_div_mod_converse(packed, place, group.last() as int, below);
        lemma_small_mod(group.last(), radix as nat);
    } else {
        lemma_unpack_index(rest, bits_per_colour, slot);
        // The last index stands a whole number of widths above `slot`.
        let gap = ((top - slot - 1) * bits_per_colour) as nat;
        lemma_mul_ordered(0, top - slot - 1, bits_per_colour as int);
        assert(top * bits_per_colour == slot * bits_per_colour + bits_per_colour + (top - slot
            - 1) * bits_per_colour) by (nonlinear_arith);
        lemma_pow2_adds((slot * bits_per_colour) as nat, bits_per_colour);
        lemma_pow2_adds((slot * bits_per_colour + bits_per_colour) as nat, gap);
        let above = group.last() as int * pow2(gap) as int;
        assert(group.last() * pow2((top * bits_per_colour) as nat) == (above * radix) * place)
            by (nonlinear_arith)
            requires
                pow2((top * bits_per_colour) as nat) == place * radix * pow2(gap),
                above == group.last() as int * pow2(gap) as int,
        ;
        lemma_hoist_over_denominator(below, above * radix, place as nat);
        assert(packed / place == below / place + above * radix);
        assert(above * radix == radix * above) by (nonlinear_arith);
        lemma_mod_multiples_vanish(above, below / place, radix);
    }
}

/// Unpacking what was packed gives the pixels back: for a layout that
/// describes a byte and a palette that holds every pixel's colour at an
/// index that fits the width, reading
/// each position of each packed byte, and the colour at the index found
/// there, yields the pixels that were packed, in their order, those of a
/// short last group too.
pub proof fn lemma_round_trip(
    pixels: Seq<Pixel>,
    palette: Seq<Pixel>,
    pixels_per_byte: nat,
    bits_per_colour: nat,
)
    requires
        layout_fits(pixels_per_byte, bits_per_colour),
        pixels_fit(palette, pixels, bits_per_colour),
    ensures
        spec_unpack(
            spec_pack(spec_indices(pixels, palette), pixels_per_byte, bits_per_colour),
            pixels.len(),
            palette,
            pixels_per_byte,
            bits_per_colour,
        ) == pixels,
{
    let indices = spec_indices(pixels, palette);
    let bytes = spec_pack(indices, pixels_per_byte, bits_per_colour);
    let back = spec_unpack(bytes, pixels.len(), palette, pixels_per_byte, bits_per_colour);
    let size = pixels_per_byte as int;
    let count = chunk_count(indices.len(), pixels_per_byte);
    assert forall|i: int| 0 <= i < pixels.len() implies back[i] == pixels[i] by {
        let k = i / size;
        let slot = i % size;
        lemma_fundamental_div_mod(i, size);
        lemma_mod_pos_bound(i, size);
        lemma_div_pos_is_pos(i, size);
        assert(size * k == k * size) by (nonlinear_arith);
        lemma_chunk_count(indices.len(), pixels_per_byte);
        if k >= count {
            lemma_mul_ordered(count as int, k, size);
        }
        lemma_chunk_bounds(indices.len(), pixels_per_byte, k);
        let group = chunk(indices, pixels_per_byte, k);
        assert(group[slot] == indices[i]);
        assert forall|j: int| 0 <= j < group.len() implies #[trigger] group[j] < pow2(
            bits_per_colour,
        ) by {
            assert(pixel_fault(palette, pixels[k * size + j], bits_per_colour) is None);
        }
        lemma_pack_byte_fits(group, pixels_per_byte, bits_per_colour);
        lemma_unpack_index(group, bits_per_colour, slot);
        assert(pixel_fault(palette, pixels[i], bits_per_colour) is None);
    }
    assert(back =~= pixels);
}

} // verus!
