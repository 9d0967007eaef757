use vstd::prelude::*;
use vstd::string::StringExecFns;

use crate::chunks::{
    chunk_count, chunk_end, chunks, lemma_chunk_bounds, lemma_chunk_count, lemma_chunk_count_is,
    lemma_chunks_cover,
};
use crate::error::AssetError;
use crate::image::Image;
use crate::packing::{spec_indices, spec_pack, spec_pack_error};
use crate::palette::Palette;
use crate::pixel::Pixel;
use crate::text::{hex_byte, padded, push_hex_byte, push_padded};

verus! {

/// The comment block that opens the document.
pub const FILE_HEADER: &'static str = "; ###########################################################\n\
;              _    ____ ____  _____ _____ ____  \n\
;             / \\  / ___/ ___|| ____|_   _/ ___| \n\
;            / _ \\ \\___ \\___ \\|  _|   | | \\___ \\ \n\
;           / ___ \\ ___) |__) | |___  | |  ___) |\n\
;          /_/   \\_\\____/____/|_____| |_| |____/ \n\
; ###########################################################";

/// The label of the palette block.
pub const PALETTE_LABEL: &'static str = "Palette";

/// The label of the address table. The table's end marker is this label
/// followed by [`TABLE_END_SUFFIX`].
pub const TABLE_LABEL: &'static str = "AssetAddressTable";

pub const TABLE_END_SUFFIX: &'static str = "End";

/// What stands before an image's label in the label of its table entry.
pub const ADDRESS_PREFIX: &'static str = "_ADR";

/// What stands before an image's label in the name of its index constant.
pub const INDEX_PREFIX: &'static str = "ASSET";

/// The name of the constant that counts the table's entries.
pub const COUNT_NAME: &'static str = "ASSET_MAX";

/// The number of packed bytes in one row of an image block. The last row of
/// a block is shorter where the bytes run out.
pub const ROW_BYTES: usize = 5;

/// The number of bytes that one entry of the address table takes.
pub const ENTRY_BYTES: usize = 4;

/// The bytes of a row as literals, separated by a comma and a space.
pub open spec fn byte_list(row: Seq<u8>) -> Seq<char>
    decreases row.len(),
{
    if row.len() == 0 {
        Seq::empty()
    } else if row.len() == 1 {
        hex_byte(row[0])
    } else {
        byte_list(row.drop_last()) + ", "@ + hex_byte(row.last())
    }
}

/// One row of bytes as a statement: a tab, `DEFB`, the bytes, a line end.
pub open spec fn row_line(row: Seq<u8>) -> Seq<char> {
    "\tDEFB "@ + byte_list(row) + "\n"@
}

/// The statement that declares a palette colour: its four channels in the
/// order red, green, blue, alpha.
pub open spec fn colour_line(colour: Pixel) -> Seq<char> {
    row_line(seq![colour.r, colour.g, colour.b, colour.a])
}

/// The statements of a palette, one for each colour, in the order of the
/// indices.
pub open spec fn colour_lines(colours: Seq<Pixel>) -> Seq<Seq<char>> {
    colours.map_values(|colour: Pixel| colour_line(colour))
}

/// The palette block: its label, then one statement for each colour.
pub open spec fn palette_block(colours: Seq<Pixel>) -> Seq<char> {
    PALETTE_LABEL@ + "\n"@ + colour_lines(colours).flatten()
}

/// The label of an image: an underscore and the image's name.
pub open spec fn image_label(name: Seq<char>) -> Seq<char> {
    "_"@ + name
}

/// The rows of an image block: the packed bytes in groups of [`ROW_BYTES`].
pub open spec fn byte_rows(bytes: Seq<u8>) -> Seq<Seq<u8>> {
    chunks(bytes, ROW_BYTES as nat)
}

/// The statements of an image block, one for each row of bytes.
pub open spec fn row_lines(bytes: Seq<u8>) -> Seq<Seq<char>> {
    byte_rows(bytes).map_values(|row: Seq<u8>| row_line(row))
}

/// An image block: the label on a line of its own, then the rows.
pub open spec fn image_block(label: Seq<char>, bytes: Seq<u8>) -> Seq<char> {
    label + "\n"@ + row_lines(bytes).flatten()
}

/// The entry of the address table for the image with this label: the
/// entry's own label in a field of 28 characters, then a word that holds the
/// image's address.
pub open spec fn address_entry(label: Seq<char>) -> Seq<char> {
    ADDRESS_PREFIX@ + padded(label, 28) + "DEFW\t"@ + label + "\n"@
}

/// The constant that gives the image's place in the address table: the
/// distance of its entry from the start of the table, in entries.
pub open spec fn index_constant(label: Seq<char>) -> Seq<char> {
    INDEX_PREFIX@ + padded(label, 27) + "EQU\t("@ + ADDRESS_PREFIX@ + padded(label, 24) + " - "@
        + TABLE_LABEL@ + ") / 4\n"@
}

/// The entries of the address table, one for each label, in order.
pub open spec fn address_entries(labels: Seq<Seq<char>>) -> Seq<Seq<char>> {
    labels.map_values(|label: Seq<char>| address_entry(label))
}

/// The index constants, one for each label, in order.
pub open spec fn index_constants(labels: Seq<Seq<char>>) -> Seq<Seq<char>> {
    labels.map_values(|label: Seq<char>| index_constant(label))
}

/// The constant that counts the entries of the table: the distance from the
/// table's label to its end marker, in entries.
pub open spec fn count_constant() -> Seq<char> {
    "\n"@ + COUNT_NAME@ + "\tEQU\t("@ + TABLE_LABEL@ + TABLE_END_SUFFIX@ + " - "@ + TABLE_LABEL@
        + ") / 4\n\n"@
}

/// The address table and what is derived from it: the table's label, its
/// entries, the end marker, the count of the entries, and the index
/// constants.
pub open spec fn address_table(labels: Seq<Seq<char>>) -> Seq<char> {
    TABLE_LABEL@ + "\n"@ + address_entries(labels).flatten() + TABLE_LABEL@ + TABLE_END_SUFFIX@
        + "\n"@ + count_constant() + index_constants(labels).flatten()
}

/// The texts of a sequence of strings.
pub open spec fn texts(strings: Seq<String>) -> Seq<Seq<char>> {
    strings.map_values(|string: String| string@)
}

/// Adding a line to the lines read so far adds it to their text.
pub proof fn lemma_flatten_next<A>(lines: Seq<Seq<A>>, i: int)
    requires
        0 <= i < lines.len(),
    ensures
        lines.take(i + 1).flatten() == lines.take(i).flatten() + lines[i],
{
    assert(lines.take(i + 1) =~= lines.take(i).push(lines[i]));
    lines.take(i).lemma_flatten_push(lines[i]);
}

/// The palette block lists the colours in the order of their indices: it
/// has one statement for each colour, and the statement at a colour's index
/// declares that colour.
pub proof fn lemma_palette_block_follows_indices(colours: Seq<Pixel>, colour: Pixel)
    requires
        colours.contains(colour),
    ensures
        colour_lines(colours).len() == colours.len(),
        0 <= colours.index_of(colour) < colours.len(),
        colour_lines(colours)[colours.index_of(colour)] == colour_line(colour),
{
}

/// The rows of an image block hold every packed byte: read one after the
/// other they are the bytes, each of them once and in its place. No row is
/// empty, none holds more than [`ROW_BYTES`] bytes, and each row has its own
/// statement.
pub proof fn lemma_rows_hold_every_byte(bytes: Seq<u8>)
    ensures
        byte_rows(bytes).flatten() == bytes,
        row_lines(bytes).len() == byte_rows(bytes).len(),
        forall|k: int|
            0 <= k < byte_rows(bytes).len() ==> 1 <= (#[trigger] byte_rows(bytes)[k]).len()
                <= ROW_BYTES,
        forall|k: int|
            0 <= k < byte_rows(bytes).len() ==> #[trigger] row_lines(bytes)[k] == row_line(
                byte_rows(bytes)[k],
            ),
{
    lemma_chunks_cover(bytes, ROW_BYTES as nat);
}

/// Where the bytes of a row stand in the row's list: the list is six
/// characters a byte less the last separator, and the literal of byte `k`
/// is the four characters from `6 * k` on.
pub proof fn lemma_byte_list_layout(row: Seq<u8>, k: int)
    requires
        0 <= k < row.len(),
    ensures
        byte_list(row).len() == 6 * row.len() - 2,
        byte_list(row).subrange(6 * k, 6 * k + 4) == hex_byte(row[k]),
    decreases row.len(),
{
    reveal_strlit(", ");
    if row.len() == 1 {
        assert(byte_list(row).subrange(0, 4) =~= hex_byte(row[0]));
    } else {
        let rest = row.drop_last();
        lemma_byte_list_layout(rest, 0);
        if k < rest.len() {
            lemma_byte_list_layout(rest, k);
            assert(byte_list(row).subrange(6 * k, 6 * k + 4) =~= byte_list(rest).subrange(
                6 * k,
                6 * k + 4,
            ));
        } else {
            assert(byte_list(row).subrange(6 * k, 6 * k + 4) =~= hex_byte(row[k]));
        }
    }
}

/// A row's statement holds each byte of the row once: it is as long as its
/// frame and one literal a byte take, and the literal of byte `k` stands at
/// its own place.
pub proof fn lemma_row_line_layout(row: Seq<u8>, k: int)
    requires
        0 <= k < row.len(),
    ensures
        row_line(row).len() == 6 * row.len() + 5,
        row_line(row).subrange(6 * k + 6, 6 * k + 10) == hex_byte(row[k]),
{
    reveal_strlit("\tDEFB ");
    reveal_strlit("\n");
    lemma_byte_list_layout(row, k);
    assert(row_line(row).subrange(6 * k + 6, 6 * k + 10) =~= byte_list(row).subrange(
        6 * k,
        6 * k + 4,
    ));
}

/// Where the literal of packed byte `k` starts in an image block whose label
/// has `label_len` characters: behind the label's line, the full rows before
/// the byte's own row, the opening of that row, and the literals and
/// separators of the bytes before it in the row.
pub open spec fn literal_start(label_len: nat, k: int) -> int {
    label_len + 1 + (k / ROW_BYTES as int) * (6 * ROW_BYTES + 5) + 6 + (k % ROW_BYTES as int) * 6
}

/// The lines up to line `r`, line `r`, and the lines behind it make up the
/// text of all the lines.
pub proof fn lemma_flatten_around<A>(lines: Seq<Seq<A>>, r: int)
    requires
        0 <= r < lines.len(),
    ensures
        lines.flatten() == lines.take(r).flatten() + lines[r] + lines.skip(r + 1).flatten(),
{
    assert(lines =~= lines.take(r + 1) + lines.skip(r + 1));
    vstd::seq_lib::lemma_flatten_concat(lines.take(r + 1), lines.skip(r + 1));
    lemma_flatten_next(lines, r);
}

/// The first `m` rows of an image block take six characters for each of
/// their bytes and five more for each row.
proof fn lemma_rows_length(bytes: Seq<u8>, m: int)
    requires
        0 <= m <= chunk_count(bytes.len(), ROW_BYTES as nat),
    ensures
        row_lines(bytes).take(m).flatten().len() == 6 * (if m * ROW_BYTES <= bytes.len() {
            m * ROW_BYTES
        } else {
            bytes.len() as int
        }) + 5 * m,
    decreases m,
{
    let lines = row_lines(bytes);
    if m == 0 {
        assert(lines.take(0) =~= Seq::<Seq<char>>::empty());
    } else {
        lemma_rows_length(bytes, m - 1);
        lemma_flatten_next(lines, m - 1);
        lemma_chunk_bounds(bytes.len(), ROW_BYTES as nat, m - 1);
        lemma_row_line_layout(byte_rows(bytes)[m - 1], 0);
    }
}

/// A stretch of the middle one of three texts stands in their sum where it
/// stood in the middle, moved by the length of the first.
proof fn lemma_part_of_sum(
    first: Seq<char>,
    middle: Seq<char>,
    last: Seq<char>,
    from: int,
    to: int,
)
    requires
        0 <= from <= to <= middle.len(),
    ensures
        (first + middle + last).subrange(first.len() + from, first.len() + to) == middle.subrange(
            from,
            to,
        ),
{
    assert((first + middle + last).subrange(first.len() + from, first.len() + to)
        =~= middle.subrange(from, to));
}

/// An image block is as long as its label's line, one literal a byte and
/// the frame of each row take.
pub proof fn lemma_image_block_length(label: Seq<char>, bytes: Seq<u8>)
    ensures
        image_block(label, bytes).len() == label.len() + 1 + 6 * bytes.len() + 5 * chunk_count(
            bytes.len(),
            ROW_BYTES as nat,
        ),
{
    reveal_strlit("\n");
    let lines = row_lines(bytes);
    let count = chunk_count(bytes.len(), ROW_BYTES as nat) as int;
    lemma_chunk_count(bytes.len(), ROW_BYTES as nat);
    lemma_rows_length(bytes, count);
    assert(lines.take(count) =~= lines);
}

/// An image block holds each packed byte once, at a place of its own: the
/// block is as long as [`lemma_image_block_length`] says, which leaves room
/// for one literal a byte and no more, and the literal of byte `k` stands at
/// [`literal_start`].
pub proof fn lemma_image_block_layout(label: Seq<char>, bytes: Seq<u8>, k: int)
    requires
        0 <= k < bytes.len(),
    ensures
        image_block(label, bytes).len() == label.len() + 1 + 6 * bytes.len() + 5 * chunk_count(
            bytes.len(),
            ROW_BYTES as nat,
        ),
        image_block(label, bytes).subrange(
            literal_start(label.len(), k),
            literal_start(label.len(), k) + 4,
        ) == hex_byte(bytes[k]),
{
    lemma_image_block_length(label, bytes);
    let lines = row_lines(bytes);
    let r = k / ROW_BYTES as int;
    let slot = k % ROW_BYTES as int;
    lemma_chunk_count(bytes.len(), ROW_BYTES as nat);
    lemma_chunk_bounds(bytes.len(), ROW_BYTES as nat, r);
    let row = byte_rows(bytes)[r];
    assert(row[slot] == bytes[k]);
    lemma_row_line_layout(row, slot);
    lemma_rows_length(bytes, r);
    lemma_flatten_around(lines, r);
    let first = label + "\n"@ + lines.take(r).flatten();
    let last = lines.skip(r + 1).flatten();
    assert(first.len() == label.len() + 1 + 35 * r) by {
        reveal_strlit("\n");
    }
    assert(image_block(label, bytes) =~= first + lines[r] + last);
    lemma_part_of_sum(first, lines[r], last, 6 * slot + 6, 6 * slot + 10);
}

/// Appends [`byte_list`] of the bytes from `start` up to `end`.
fn push_byte_list(out: &mut String, bytes: &[u8], start: usize, end: usize)
    requires
        start < end <= bytes@.len(),
    ensures
        final(out)@ == old(out)@ + byte_list(bytes@.subrange(start as int, end as int)),
{
    let ghost row = bytes@.subrange(start as int, end as int);
    push_hex_byte(out, bytes[start]);
    let mut at: usize = start + 1;
    assert(row.take(1) =~= seq![bytes@[start as int]]);
    while at < end
        invariant
            start < at <= end <= bytes@.len(),
            row == bytes@.subrange(start as int, end as int),
            out@ == old(out)@ + byte_list(row.take(at - start)),
        decreases end - at,
    {
        out.append(", ");
        push_hex_byte(out, bytes[at]);
        proof {
            let grown = row.take(at + 1 - start);
            assert(grown.drop_last() =~= row.take(at - start));
            assert(grown.last() == bytes@[at as int]);
            assert(out@ =~= old(out)@ + byte_list(grown));
        }
        at = at + 1;
    }
    assert(row.take(end - start) =~= row);
}

/// Appends [`row_line`] of the bytes from `start` up to `end`.
fn push_row_line(out: &mut String, bytes: &[u8], start: usize, end: usize)
    requires
        start < end <= bytes@.len(),
    ensures
        final(out)@ == old(out)@ + row_line(bytes@.subrange(start as int, end as int)),
{
    out.append("\tDEFB ");
    push_byte_list(out, bytes, start, end);
    out.append("\n");
    assert(out@ =~= old(out)@ + row_line(bytes@.subrange(start as int, end as int)));
}

/// Appends [`row_lines`] of the bytes: every byte, [`ROW_BYTES`] to a row,
/// the last row shorter where the bytes run out.
fn push_row_lines(out: &mut String, bytes: &[u8])
    ensures
        final(out)@ == old(out)@ + row_lines(bytes@).flatten(),
{
    let count: usize = bytes.len();
    let ghost lines = row_lines(bytes@);
    let ghost rows: int = 0;
    let mut start: usize = 0;
    assert(out@ =~= old(out)@ + lines.take(0).flatten());
    while start < count
        invariant
            count == bytes@.len(),
            lines == row_lines(bytes@),
            start <= count,
            0 <= rows,
            start < count ==> start == rows * ROW_BYTES,
            start == count ==> count <= rows * ROW_BYTES,
            rows > 0 ==> (rows - 1) * ROW_BYTES < count,
            rows <= lines.len(),
            out@ == old(out)@ + lines.take(rows).flatten(),
        decreases count - start,
    {
        let end: usize = if count - start < ROW_BYTES {
            count
        } else {
            start + ROW_BYTES
        };
        proof {
            assert(rows < chunk_count(count as nat, ROW_BYTES as nat));
            assert(end == chunk_end(count as nat, ROW_BYTES as nat, rows));
            assert(lines[rows] == row_line(bytes@.subrange(start as int, end as int)));
            lemma_flatten_next(lines, rows);
        }
        push_row_line(out, bytes, start, end);
        proof {
            rows = rows + 1;
        }
        start = end;
        assert(out@ =~= old(out)@ + lines.take(rows).flatten());
    }
    proof {
        lemma_chunk_count_is(count as nat, ROW_BYTES as nat, rows as nat);
        assert(lines.take(rows) =~= lines);
    }
}

impl Palette {
    /// The palette as a block of statements: the label `Palette`, then the
    /// four channel bytes of each colour, in the order of the indices.
    pub fn to_asm(&self) -> (text: String)
        ensures
            text@ == palette_block(self@),
    {
        let colours = self.colours();
        let ghost lines = colour_lines(colours@);
        let mut out = String::new();
        out.append(PALETTE_LABEL);
        out.append("\n");
        let mut i: usize = 0;
        assert(out@ =~= PALETTE_LABEL@ + "\n"@ + lines.take(0).flatten());
        while i < colours.len()
            invariant
                i <= colours@.len(),
                lines == colour_lines(colours@),
                out@ == PALETTE_LABEL@ + "\n"@ + lines.take(i as int).flatten(),
            decreases colours@.len() - i,
        {
            let colour = colours[i];
            let channels: Vec<u8> = vec![colour.r, colour.g, colour.b, colour.a];
            proof {
                assert(channels@.subrange(0, 4) =~= seq![colour.r, colour.g, colour.b, colour.a]);
                lemma_flatten_next(lines, i as int);
            }
            push_row_line(&mut out, channels.as_slice(), 0, 4);
            i = i + 1;
            assert(out@ =~= PALETTE_LABEL@ + "\n"@ + lines.take(i as int).flatten());
        }
        assert(lines.take(colours@.len() as int) =~= lines);
        out
    }
}

impl Image {
    /// The image as a block of statements, with the label that the block
    /// stands under: the label on a line of its own, then every packed byte
    /// of the image, [`ROW_BYTES`] to a row.
    ///
    /// It fails as [`Image::pack`] does, and then hands out no text.
    pub fn to_asm(&self, palette: &Palette, pixels_per_byte: usize, bits_per_colour: usize) -> (result:
        Result<(String, String), AssetError>)
        ensures
            match spec_pack_error(
                palette@,
                self@.pixels,
                pixels_per_byte as nat,
                bits_per_colour as nat,
            ) {
                Some(error) => result == Err::<(String, String), AssetError>(error),
                None => result.is_ok() && result.unwrap().0@ == image_label(self@.name)
                    && result.unwrap().1@ == image_block(
                    image_label(self@.name),
                    spec_pack(
                        spec_indices(self@.pixels, palette@),
                        pixels_per_byte as nat,
                        bits_per_colour as nat,
                    ),
                ),
            },
    {
        let packed = match self.pack(palette, pixels_per_byte, bits_per_colour) {
            Ok(packed) => packed,
            Err(error) => {
                return Err(error);
            },
        };
        let mut label = String::new();
        label.append("_");
        label.append(self.name());
        assert(label@ =~= image_label(self@.name));
        let mut out = String::new();
        out.append(label.as_str());
        out.append("\n");
        push_row_lines(&mut out, packed.as_slice());
        assert(out@ =~= image_block(label@, packed@));
        Ok((label, out))
    }
}

/// The address table for the images with these labels, in the order of the
/// labels: one entry for each label, the end marker, the constant that
/// counts the entries, and one index constant for each label.
pub fn render_address_table(labels: &[String]) -> (text: String)
    ensures
        text@ == address_table(texts(labels@)),
{
    let ghost names = texts(labels@);
    let ghost entries = address_entries(names);
    let ghost constants = index_constants(names);
    let mut out = String::new();
    out.append(TABLE_LABEL);
    out.append("\n");
    let ghost opened = out@;
    assert(opened =~= TABLE_LABEL@ + "\n"@);
    let mut i: usize = 0;
    assert(out@ =~= opened + entries.take(0).flatten());
    while i < labels.len()
        invariant
            i <= labels@.len(),
            names == texts(labels@),
            entries == address_entries(names),
            out@ == opened + entries.take(i as int).flatten(),
        decreases labels@.len() - i,
    {
        let label = labels[i].as_str();
        proof {
            lemma_flatten_next(entries, i as int);
        }
        let ghost before = out@;
        out.append(ADDRESS_PREFIX);
        push_padded(&mut out, label, 28);
        out.append("DEFW\t");
        out.append(label);
        out.append("\n");
        assert(out@ =~= before + address_entry(label@));
        i = i + 1;
    }
    assert(entries.take(labels@.len() as int) =~= entries);
    out.append(TABLE_LABEL);
    out.append(TABLE_END_SUFFIX);
    out.append("\n");
    out.append("\n");
    out.append(COUNT_NAME);
    out.append("\tEQU\t(");
    out.append(TABLE_LABEL);
    out.append(TABLE_END_SUFFIX);
    out.append(" - ");
    out.append(TABLE_LABEL);
    out.append(") / 4\n\n");
    let ghost counted = out@;
    assert(counted =~= opened + entries.flatten() + TABLE_LABEL@ + TABLE_END_SUFFIX@ + "\n"@
        + count_constant());
    let mut i: usize = 0;
    assert(out@ =~= counted + constants.take(0).flatten());
    while i < labels.len()
        invariant
            i <= labels@.len(),
            names == texts(labels@),
            constants == index_constants(names),
            out@ == counted + constants.take(i as int).flatten(),
        decreases labels@.len() - i,
    {
        let label = labels[i].as_str();
        proof {
            lemma_flatten_next(constants, i as int);
        }
        let ghost before = out@;
        out.append(INDEX_PREFIX);
        push_padded(&mut out, label, 27);
        out.append("EQU\t(");
        out.append(ADDRESS_PREFIX);
        push_padded(&mut out, label, 24);
        out.append(" - ");
        out.append(TABLE_LABEL);
        out.append(") / 4\n");
        assert(out@ =~= before + index_constant(label@));
        i = i + 1;
    }
    assert(constants.take(labels@.len() as int) =~= constants);
    out
}

} // verus!
