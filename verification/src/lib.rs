//! Packs palette-indexed images into bytes and renders them, with their shared
//! palette and an address table, as assembly source.
//!
//! The pipeline is linear: every image contributes its colours to one
//! [`Palette`]; the palette's size fixes the bit width of an index and the
//! number of indices per byte; each image is then packed at that width and
//! rendered as a labelled block of `DEFB` rows; an address table closes the
//! document. [`render_assets`] runs the whole pipeline on a set of images.

mod chunks;
mod document;
mod emitter;
mod encoder;
mod error;
mod image;
mod packing;
mod palette;
mod pixel;
mod text;
mod width;

pub use chunks::{
    chunk, chunk_count, chunk_end, chunks, lemma_chunk_bounds, lemma_chunk_count,
    lemma_chunk_count_is, lemma_chunks_cover,
};
pub use document::{
    colour_count, document, entry_offset, image_section, image_sections, labels_of,
    lemma_derived_layout_fits, lemma_table_counts_images, packing_constants, render_assets,
};
pub use emitter::{
    address_entries, address_entry, address_table, byte_list, byte_rows, colour_line, colour_lines,
    count_constant, image_block, image_label, index_constant, index_constants,
    lemma_byte_list_layout, lemma_flatten_around, lemma_flatten_next, lemma_image_block_layout,
    lemma_image_block_length,
    lemma_palette_block_follows_indices,
    lemma_row_line_layout, lemma_rows_hold_every_byte,
    literal_start, palette_block, render_address_table, row_line, row_lines, texts, ADDRESS_PREFIX, COUNT_NAME,
    ENTRY_BYTES, FILE_HEADER, INDEX_PREFIX, PALETTE_LABEL, ROW_BYTES, TABLE_END_SUFFIX,
    TABLE_LABEL,
};
pub use error::AssetError;
pub use image::{Image, ImageView};
pub use packing::{
    is_first_fault, layout_fits, lemma_first_fault_is_unique, lemma_pack_byte_bound,
    lemma_pack_byte_fits, lemma_pack_byte_push, lemma_round_trip, lemma_unpack_index,
    palette_covers, pixel_fault, pixels_fit, spec_indices, spec_pack, spec_pack_byte,
    spec_pack_error, spec_unpack, spec_unpack_index,
};
pub use palette::{
    all_pixels, first_seen, lemma_all_pixels_contains, lemma_first_seen, lemma_index_is_stable,
    Palette,
};
pub use pixel::{pixels_from_bytes, spec_pixels_from_bytes, Pixel, PIXEL_BYTES};
pub use text::{decimal, digit_char, hex_byte, padded, spaces};
pub use width::{
    bits_per_colour, is_bit_width, lemma_bit_width_exists, lemma_bit_width_is_spec,
    lemma_bit_width_unique, lemma_small_palette_widths, lemma_width_fits_byte, pixels_per_byte,
    spec_bits_per_colour, spec_pixels_per_byte,
};
