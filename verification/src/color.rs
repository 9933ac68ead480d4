//! Names for the pixel layout and the RGB working spaces, and the
//! photometric constants of the format.

use vstd::prelude::*;

verus! {

/// The layout of a decoded float pixel buffer.
#[derive(Debug, Clone, Copy, PartialEq, Eq, Structural)]
pub enum HdrPixelFormat {
    /// Packed 32-bit float RGB, 12 bytes per pixel, channel order R, G, B.
    Rgb96f,
}

/// One of the supported RGB working spaces.
#[derive(Debug, Clone, Copy, PartialEq, Eq, Structural)]
pub enum RgbColorSpace {
    /// sRGB / Rec. 709 primaries with a D65 reference white.
    Srgb,
    /// The original Radiance RGB primaries with an equal-energy white.
    Radiance,
}

/// The luminous efficacy of the format's white, in lumens per watt.
pub const WHTEFFICACY: u32 = 179;

/// The luminance weights of the R, G and B channels of an RGBE picture, in
/// thousandths; they sum to one.
pub const RGBE_BRIGHT_COEFFS: [u32; 3] = [265, 670, 65];

} // verus!
