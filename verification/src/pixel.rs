//! Pixels and where they lie in an image buffer.
//!
//! An image of `width` by `height` pixels is a buffer of `width * height * 3`
//! bytes: the rows from the top of the image down, in each row the pixels
//! from left to right, and for each pixel one byte for red, one for green and
//! one for blue.

use vstd::prelude::*;

verus! {

/// The colour of one pixel.
#[derive(Clone, Copy, Debug, PartialEq, Eq)]
pub struct Rgb {
    pub r: u8,
    pub g: u8,
    pub b: u8,
}

/// A number brought into the range of a byte: what lies below the range
/// becomes 0, what lies above it 255.
pub open spec fn clamp_channel(scaled: int) -> int {
    if scaled < 0 {
        0
    } else if scaled > 255 {
        255
    } else {
        scaled
    }
}

/// The number of bytes in the buffer of an image.
pub open spec fn buffer_len(width: nat, height: nat) -> nat {
    width * height * 3
}

/// Where the three bytes of the pixel in column `x` of row `y` begin, in the
/// buffer of an image `width` pixels wide.
pub open spec fn pixel_offset(width: nat, x: nat, y: nat) -> nat {
    (y * width + x) * 3
}

/// The colour made of the three bytes that begin at `offset`.
pub open spec fn rgb_at(bytes: Seq<u8>, offset: int) -> Rgb {
    Rgb { r: bytes[offset], g: bytes[offset + 1], b: bytes[offset + 2] }
}

/// The colour of the pixel in column `x` of row `y` of an image.
pub open spec fn image_pixel(buffer: Seq<u8>, width: usize, x: usize, y: usize) -> Rgb {
    rgb_at(buffer, pixel_offset(width as nat, x as nat, y as nat) as int)
}

/// In the buffer, a pixel lies wholly before every pixel of a later row and
/// every later pixel of its own row.
pub proof fn lemma_pixels_in_order(width: nat, x1: nat, y1: nat, x2: nat, y2: nat)
    requires
        x1 < width,
        y1 < y2 || (y1 == y2 && x1 < x2),
    ensures
        pixel_offset(width, x1, y1) + 3 <= pixel_offset(width, x2, y2),
{
    if y1 < y2 {
        assert(y1 * width + width <= y2 * width) by (nonlinear_arith)
            requires
                y1 + 1 <= y2,
        ;
    }
}

/// Every pixel of an image lies wholly inside the image's buffer.
pub proof fn lemma_pixel_in_buffer(width: nat, height: nat, x: nat, y: nat)
    requires
        x < width,
        y < height,
    ensures
        pixel_offset(width, x, y) + 3 <= buffer_len(width, height),
{
    assert(y * width + width <= height * width) by (nonlinear_arith)
        requires
            y + 1 <= height,
    ;
    assert(height * width * 3 == width * height * 3) by (nonlinear_arith);
}

/// One channel of a colour as a byte. `scaled` is the channel's strength
/// times 255, as a whole number; it is clamped to the range of a byte.
pub fn channel_byte(scaled: i64) -> (byte: u8)
    ensures
        byte == clamp_channel(scaled as int),
{
    if scaled < 0 {
        0
    } else if scaled > 255 {
        255
    } else {
        scaled as u8
    }
}

impl Rgb {
    /// The colour whose three channels, each times 255, are `r`, `g` and `b`.
    pub fn from_scaled(r: i64, g: i64, b: i64) -> (rgb: Rgb)
        ensures
            rgb.r == clamp_channel(r as int),
            rgb.g == clamp_channel(g as int),
            rgb.b == clamp_channel(b as int),
    {
        Rgb { r: channel_byte(r), g: channel_byte(g), b: channel_byte(b) }
    }
}

} // verus!
