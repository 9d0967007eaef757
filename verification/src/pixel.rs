use vstd::prelude::*;

use crate::error::AssetError;

verus! {

/// The number of bytes one pixel takes in a decoded frame.
pub const PIXEL_BYTES: usize = 4;

/// One colour: red, green, blue and alpha, eight bits each.
///
/// Two pixels are the same colour exactly when all four channels agree.
#[derive(Clone, Copy, Debug, PartialEq, Eq, Hash, Structural)]
pub struct Pixel {
    pub r: u8,
    pub g: u8,
    pub b: u8,
    pub a: u8,
}

impl Pixel {
    /// The colour of the given channels.
    pub fn new(r: u8, g: u8, b: u8, a: u8) -> (pixel: Pixel)
        ensures
            pixel == (Pixel { r, g, b, a }),
    {
        Pixel { r, g, b, a }
    }
}

/// The pixels that a frame of channel bytes holds: pixel `i` is made of the
/// four bytes from `4 * i` on, in the order red, green, blue, alpha.
pub open spec fn spec_pixels_from_bytes(bytes: Seq<u8>) -> Seq<Pixel>
    recommends
        bytes.len() % 4 == 0,
{
    Seq::new(
        bytes.len() / 4,
        |i: int|
            Pixel { r: bytes[4 * i], g: bytes[4 * i + 1], b: bytes[4 * i + 2], a: bytes[4 * i + 3] },
    )
}

/// Reads a decoded frame, row-major with four channel bytes per pixel, as a
/// sequence of pixels. A frame that ends inside a pixel is refused.
pub fn pixels_from_bytes(bytes: &[u8]) -> (result: Result<Vec<Pixel>, AssetError>)
    ensures
        bytes@.len() % 4 == 0 ==> result.is_ok() && result.unwrap()@ == spec_pixels_from_bytes(
            bytes@,
        ),
        bytes@.len() % 4 != 0 ==> result == Err::<Vec<Pixel>, AssetError>(
            AssetError::RaggedPixelData { len: bytes.len() },
        ),
{
    let len: usize = bytes.len();
    if len % PIXEL_BYTES != 0 {
        return Err(AssetError::RaggedPixelData { len });
    }
    let count: usize = len / PIXEL_BYTES;
    let mut pixels: Vec<Pixel> = Vec::new();
    let mut i: usize = 0;
    while i < count
        invariant
            len == bytes@.len(),
            len % 4 == 0,
            count == len / 4,
            i <= count,
            pixels@ == spec_pixels_from_bytes(bytes@).take(i as int),
        decreases count - i,
    {
        let base: usize = i * PIXEL_BYTES;
        let pixel = Pixel::new(bytes[base], bytes[base + 1], bytes[base + 2], bytes[base + 3]);
        pixels.push(pixel);
        i = i + 1;
    }
    Ok(pixels)
}

} // verus!
