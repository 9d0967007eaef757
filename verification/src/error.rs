use vstd::prelude::*;

verus! {

/// Why a set of images could not be turned into assembly source.
///
/// Every error is fatal to the run that meets it: no partial result is handed
/// out beside one.
#[derive(Clone, Copy, Debug, PartialEq, Eq, Structural)]
pub enum AssetError {
    /// No image was supplied.
    EmptyInput,
    /// A decoded frame of `len` bytes is not a whole number of four-byte
    /// pixels.
    RaggedPixelData { len: usize },
    /// A pixel's colour is missing from the palette it is encoded with.
    ColourNotInPalette,
    /// The pixels cannot be packed at the width asked for: a width or a group
    /// size of zero, a group wider than eight bits, or a pixel whose palette
    /// index is too large for the width.
    UnsupportedBitWidth,
}

} // verus!
