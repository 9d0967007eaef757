use vstd::arithmetic::power2::{lemma2_to64, lemma_pow2_adds, lemma_pow2_unfold, pow2};
use vstd::prelude::*;

use crate::chunks::{
    chunk, chunk_end, lemma_chunk_count_is, lemma_mul_ordered, lemma_mul_step,
};
use crate::error::AssetError;
use crate::image::Image;
use crate::packing::{
    is_first_fault, layout_fits, lemma_first_fault_is_unique, lemma_pack_byte_bound,
    lemma_pack_byte_push, lemma_pow2_ordered, pixel_fault, pixels_fit, spec_indices, spec_pack,
    spec_pack_byte, spec_pack_error,
};
use crate::palette::Palette;

verus! {

/// Two to the power of a bit width of at most eight: the number of indices
/// that the width tells apart.
fn index_range(bits_per_colour: usize) -> (range: usize)
    requires
        bits_per_colour <= 8,
    ensures
        range == pow2(bits_per_colour as nat),
        range <= 256,
{
    let mut range: usize = 1;
    let mut done: usize = 0;
    proof {
        lemma2_to64();
    }
    while done < bits_per_colour
        invariant
            done <= bits_per_colour <= 8,
            range == pow2(done as nat),
            pow2(8) == 256,
        decreases bits_per_colour - done,
    {
        proof {
            lemma_pow2_unfold((done + 1) as nat);
            lemma_pow2_ordered((done + 1) as nat, 8);
        }
        range = range * 2;
        done = done + 1;
    }
    proof {
        lemma_pow2_ordered(done as nat, 8);
    }
    range
}

impl Image {
    /// Packs the image's pixels into bytes, `pixels_per_byte` palette indices
    /// of `bits_per_colour` bits to a byte.
    ///
    /// The pixels are taken in groups of `pixels_per_byte`; the last group is
    /// shorter where the pixels run out. The first pixel of a group takes the
    /// lowest bits of its byte and each later one the bits above; bits that a
    /// short group leaves over are zero.
    ///
    /// Parameters that do not describe a byte are refused before any pixel is
    /// looked at. Then the pixels are taken in order, and the first whose
    /// colour the palette does not hold, or holds at an index too large for
    /// the width, fails the whole image with its own error: no byte is
    /// handed out. A palette may hold more colours than the width can tell
    /// apart, as long as the image uses none of those beyond.
    pub fn pack(&self, palette: &Palette, pixels_per_byte: usize, bits_per_colour: usize) -> (result:
        Result<Vec<u8>, AssetError>)
        ensures
            match spec_pack_error(
                palette@,
                self@.pixels,
                pixels_per_byte as nat,
                bits_per_colour as nat,
            ) {
                Some(error) => result == Err::<Vec<u8>, AssetError>(error),
                None => result.is_ok() && result.unwrap()@ == spec_pack(
                    spec_indices(self@.pixels, palette@),
                    pixels_per_byte as nat,
                    bits_per_colour as nat,
                ),
            },
            result.is_ok() ==> forall|k: int|
                0 <= k < result.unwrap()@.len() ==> (#[trigger] result.unwrap()@[k]) as nat
                    == spec_pack_byte(
                    chunk(spec_indices(self@.pixels, palette@), pixels_per_byte as nat, k),
                    bits_per_colour as nat,
                ),
    {
        if bits_per_colour == 0 || pixels_per_byte == 0 {
            return Err(AssetError::UnsupportedBitWidth);
        }
        if bits_per_colour > 8 || pixels_per_byte > 8 {
            proof {
                lemma_mul_ordered(1, pixels_per_byte as int, bits_per_colour as int);
                lemma_mul_ordered(1, bits_per_colour as int, pixels_per_byte as int);
                assert(pixels_per_byte * bits_per_colour == bits_per_colour * pixels_per_byte)
                    by (nonlinear_arith);
            }
            return Err(AssetError::UnsupportedBitWidth);
        }
        assert(pixels_per_byte * bits_per_colour <= 64) by (nonlinear_arith)
            requires
                pixels_per_byte <= 8,
                bits_per_colour <= 8,
        ;
        if pixels_per_byte * bits_per_colour > 8 {
            return Err(AssetError::UnsupportedBitWidth);
        }
        let range: usize = index_range(bits_per_colour);
        let pixels = self.pixels();
        let count: usize = pixels.len();
        let ghost indices = spec_indices(pixels@, palette@);
        let ghost group_size = pixels_per_byte as nat;
        let ghost width = bits_per_colour as nat;
        let mut bytes: Vec<u8> = Vec::new();
        let mut start: usize = 0;
        assert(bytes@.len() * group_size == 0) by (nonlinear_arith)
            requires
                bytes@.len() == 0,
        ;
        while start < count
            invariant
                pixels@ == self@.pixels,
                count == pixels@.len(),
                indices == spec_indices(pixels@, palette@),
                group_size == pixels_per_byte,
                width == bits_per_colour,
                layout_fits(group_size, width),
                range == pow2(width),
                start <= count,
                start < count ==> start == bytes@.len() * group_size,
                start == count ==> count <= bytes@.len() * group_size,
                bytes@.len() > 0 ==> (bytes@.len() - 1) * group_size < count,
                forall|t: int|
                    0 <= t < start ==> (#[trigger] pixel_fault(palette@, pixels@[t], width)) is None,
                forall|k: int|
                    0 <= k < bytes@.len() ==> (#[trigger] bytes@[k]) as nat == spec_pack_byte(
                        chunk(indices, group_size, k),
                        width,
                    ),
            decreases count - start,
        {
            let end: usize = if count - start < pixels_per_byte {
                count
            } else {
                start + pixels_per_byte
            };
            let ghost filled = bytes@.len() as int;
            proof {
                lemma_mul_step(filled, group_size as int);
                assert(end == chunk_end(indices.len(), group_size, filled));
            }
            let mut value: usize = 0;
            let mut place: usize = 1;
            let mut at: usize = start;
            proof {
                lemma2_to64();
                assert(indices.subrange(start as int, start as int) =~= Seq::<nat>::empty());
            }
            while at < end
                invariant
                    pixels@ == self@.pixels,
                    count == pixels@.len(),
                    indices == spec_indices(pixels@, palette@),
                    layout_fits(group_size, width),
                    group_size == pixels_per_byte,
                    width == bits_per_colour,
                    range == pow2(width),
                    start <= at <= end <= count,
                    end - start <= group_size,
                    value == spec_pack_byte(indices.subrange(start as int, at as int), width),
                    place == pow2(((at - start) * width) as nat),
                    value < place <= 256,
                    forall|t: int|
                        0 <= t < at ==> (#[trigger] pixel_fault(palette@, pixels@[t], width))
                            is None,
                decreases end - at,
            {
                let found = palette.index(&pixels[at]);
                proof {
                    if found.is_none() || found.unwrap() >= range {
                        assert(is_first_fault(palette@, pixels@, width, at as int));
                        let first = choose|first: int|
                            is_first_fault(palette@, pixels@, width, first);
                        lemma_first_fault_is_unique(palette@, pixels@, width, at as int, first);
                    }
                }
                let index: usize = match found {
                    Some(index) => index,
                    None => {
                        return Err(AssetError::ColourNotInPalette);
                    },
                };
                if index >= range {
                    return Err(AssetError::UnsupportedBitWidth);
                }
                proof {
                    let group = indices.subrange(start as int, at as int);
                    let grown = indices.subrange(start as int, at + 1);
                    assert(grown =~= group.push(index as nat));
                    lemma_pack_byte_push(group, index as nat, width);
                    assert forall|j: int| 0 <= j < grown.len() implies #[trigger] grown[j] < pow2(
                        width,
                    ) by {
                        assert(pixel_fault(palette@, pixels@[start + j], width) is None);
                    }
                    lemma_pack_byte_bound(grown, width);
                    lemma2_to64();
                    lemma_mul_step(at - start, width as int);
                    lemma_pow2_adds(((at - start) * width) as nat, width);
                    lemma_mul_ordered(at + 1 - start, group_size as int, width as int);
                    lemma_pow2_ordered(((at + 1 - start) * width) as nat, 8);
                    assert(index * place >= 0) by (nonlinear_arith)
                        requires
                            index >= 0,
                            place >= 0,
                    ;
                }
                value = value + index * place;
                place = place * range;
                at = at + 1;
            }
            bytes.push(value as u8);
            assert(indices.subrange(start as int, end as int) == chunk(indices, group_size, filled));
            start = end;
        }
        proof {
            lemma_chunk_count_is(count as nat, group_size, bytes@.len());
            assert(bytes@ =~= spec_pack(indices, group_size, width));
        }
        Ok(bytes)
    }
}

} // verus!
