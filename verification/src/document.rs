use vstd::prelude::*;
use vstd::string::StringExecFns;

use crate::emitter::{
    address_entries, address_entry, address_table, image_block, image_label, index_constant,
    index_constants, lemma_flatten_next, palette_block, render_address_table, texts, ENTRY_BYTES,
    FILE_HEADER,
};
use crate::error::AssetError;
use crate::image::{Image, ImageView};
use crate::packing::{layout_fits, pixel_fault, pixels_fit, spec_indices, spec_pack};
use crate::palette::{all_pixels, first_seen, lemma_all_pixels_contains, Palette};
use crate::pixel::Pixel;
use crate::text::{decimal, push_decimal};
use crate::width::{
    bits_per_colour, lemma_width_fits_byte, pixels_per_byte, spec_bits_per_colour,
    spec_pixels_per_byte,
};

verus! {

/// The two declarations that say how the images are packed: the width of an
/// index in bits, and the number of indices in a byte.
pub open spec fn packing_constants(bits_per_colour: nat, pixels_per_byte: nat) -> Seq<char> {
    "bits_per_colour\tEQU "@ + decimal(bits_per_colour) + "\n"@ + "pixels_per_byte\tEQU "@
        + decimal(pixels_per_byte) + "\n\n"@
}

/// The part of the document that holds one image: its block, packed with
/// the given palette and layout, and an empty line.
pub open spec fn image_section(
    image: ImageView,
    palette: Seq<Pixel>,
    pixels_per_byte: nat,
    bits_per_colour: nat,
) -> Seq<char> {
    image_block(
        image_label(image.name),
        spec_pack(spec_indices(image.pixels, palette), pixels_per_byte, bits_per_colour),
    ) + "\n"@
}

/// The sections of the images, in the order of the images.
pub open spec fn image_sections(
    images: Seq<Image>,
    palette: Seq<Pixel>,
    pixels_per_byte: nat,
    bits_per_colour: nat,
) -> Seq<Seq<char>> {
    images.map_values(
        |image: Image| image_section(image@, palette, pixels_per_byte, bits_per_colour),
    )
}

/// The labels of the images, in the order of the images.
pub open spec fn labels_of(images: Seq<Image>) -> Seq<Seq<char>> {
    images.map_values(|image: Image| image_label(image@.name))
}

/// The number of distinct colours that the images hold, all of them taken
/// together.
pub open spec fn colour_count(images: Seq<Image>) -> nat {
    all_pixels(images).to_set().len()
}

/// The whole document for a set of images: the header; the palette of all
/// the images; the width of an index and the number of indices in a byte,
/// both derived from the size of that palette; each image, packed with that
/// palette at that width; the address table.
pub open spec fn document(images: Seq<Image>) -> Seq<char> {
    let palette = first_seen(all_pixels(images));
    let bits = spec_bits_per_colour(palette.len());
    let group = spec_pixels_per_byte(bits);
    FILE_HEADER@ + "\n\n"@ + palette_block(palette) + "\n"@ + packing_constants(bits, group)
        + image_sections(images, palette, group, bits).flatten() + "ALIGN\n\n"@ + address_table(
        labels_of(images),
    )
}

/// The distance, in bytes, from the start of the address table to entry
/// `index`; for the number of the entries, the distance to the end marker.
pub open spec fn entry_offset(index: nat) -> nat {
    index * ENTRY_BYTES as nat
}

/// The address table has one entry for each image, in the order of the
/// images, and one index constant for each. So the count that the document
/// derives from the table, the distance from its label to its end marker
/// in entries, is the number of the images, and the index that it derives
/// for an image is the image's place among them.
pub proof fn lemma_table_counts_images(images: Seq<Image>)
    ensures
        address_entries(labels_of(images)).len() == images.len(),
        index_constants(labels_of(images)).len() == images.len(),
        entry_offset(address_entries(labels_of(images)).len()) / ENTRY_BYTES as nat
            == images.len(),
        forall|i: int|
            0 <= i < images.len() ==> {
                &&& #[trigger] address_entries(labels_of(images))[i] == address_entry(
                    image_label(images[i]@.name),
                )
                &&& index_constants(labels_of(images))[i] == index_constant(
                    image_label(images[i]@.name),
                )
                &&& entry_offset(i as nat) / ENTRY_BYTES as nat == i
            },
{
}

/// The layout that is derived from the size of a palette of at most 256
/// colours describes a byte, and every index into the palette fits its
/// width.
pub proof fn lemma_derived_layout_fits(palette_size: nat)
    requires
        palette_size <= 256,
    ensures
        layout_fits(
            spec_pixels_per_byte(spec_bits_per_colour(palette_size)),
            spec_bits_per_colour(palette_size),
        ),
        palette_size <= vstd::arithmetic::power2::pow2(spec_bits_per_colour(palette_size)),
{
    lemma_width_fits_byte(palette_size);
    let bits = spec_bits_per_colour(palette_size);
    assert(bits == 1 || bits == 2 || bits == 3 || bits == 4 || bits == 5 || bits == 6 || bits == 7
        || bits == 8);
}

/// Renders a set of images as one document of assembly source.
///
/// The palette is built from all the images before any of them is packed,
/// and every image is packed at the one width that the palette's size asks
/// for. A set of no images is refused, and so is one with more than 256
/// distinct colours, whose indices do not fit a byte. Nothing else fails:
/// every pixel's colour is in the palette.
pub fn render_assets(images: &[Image]) -> (result: Result<String, AssetError>)
    ensures
        images@.len() == 0 ==> result == Err::<String, AssetError>(AssetError::EmptyInput),
        images@.len() > 0 && colour_count(images@) > 256 ==> result == Err::<String, AssetError>(
            AssetError::UnsupportedBitWidth,
        ),
        images@.len() > 0 && colour_count(images@) <= 256 ==> result.is_ok() && result.unwrap()@
            == document(images@),
{
    if images.len() == 0 {
        return Err(AssetError::EmptyInput);
    }
    let palette = Palette::new_from_images(images);
    let bits: usize = bits_per_colour(palette.len());
    proof {
        lemma_width_fits_byte(palette@.len());
    }
    if bits > 8 {
        return Err(AssetError::UnsupportedBitWidth);
    }
    let group: usize = pixels_per_byte(bits);
    proof {
        lemma_derived_layout_fits(palette@.len());
    }
    let ghost sections = image_sections(images@, palette@, group as nat, bits as nat);
    let mut out = String::new();
    out.append(FILE_HEADER);
    out.append("\n\n");
    out.append(palette.to_asm().as_str());
    out.append("\n");
    out.append("bits_per_colour\tEQU ");
    push_decimal(&mut out, bits);
    out.append("\n");
    out.append("pixels_per_byte\tEQU ");
    push_decimal(&mut out, group);
    out.append("\n\n");
    let ghost opened = out@;
    assert(opened =~= FILE_HEADER@ + "\n\n"@ + palette_block(palette@) + "\n"@
        + packing_constants(bits as nat, group as nat));
    let mut labels: Vec<String> = Vec::new();
    let mut i: usize = 0;
    assert(out@ =~= opened + sections.take(0).flatten());
    while i < images.len()
        invariant
            i <= images@.len(),
            layout_fits(group as nat, bits as nat),
            palette@.len() <= vstd::arithmetic::power2::pow2(bits as nat),
            forall|colour: Pixel|
                palette@.contains(colour) <==> all_pixels(images@).contains(colour),
            sections == image_sections(images@, palette@, group as nat, bits as nat),
            out@ == opened + sections.take(i as int).flatten(),
            labels@.len() == i,
            forall|t: int| 0 <= t < i ==> (#[trigger] labels@[t])@ == image_label(images@[t]@.name),
        decreases images@.len() - i,
    {
        proof {
            assert forall|j: int| 0 <= j < images@[i as int]@.pixels.len() implies (
            #[trigger] pixel_fault(palette@, images@[i as int]@.pixels[j], bits as nat)) is None by {
                lemma_all_pixels_contains(images@, i as int, j);
            }
            assert(pixels_fit(palette@, images@[i as int]@.pixels, bits as nat));
            lemma_flatten_next(sections, i as int);
        }
        let (label, block) = match images[i].to_asm(&palette, group, bits) {
            Ok(rendered) => rendered,
            Err(error) => {
                return Err(error);
            },
        };
        let ghost before = out@;
        out.append(block.as_str());
        out.append("\n");
        assert(out@ =~= before + sections[i as int]);
        labels.push(label);
        i = i + 1;
    }
    assert(sections.take(images@.len() as int) =~= sections);
    assert(texts(labels@) =~= labels_of(images@));
    out.append("ALIGN\n\n");
    out.append(render_address_table(labels.as_slice()).as_str());
    assert(out@ =~= document(images@));
    Ok(out)
}

} // verus!
