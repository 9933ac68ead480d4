//! Decoder resource limits, checked at the resolution line before any
//! pixel buffer is allocated.

use vstd::prelude::*;

verus! {

/// Resource ceilings applied while validating the resolution line. All are
/// inclusive.
#[derive(Debug, Clone, Copy, PartialEq, Eq, Structural)]
pub struct HdrLimits {
    /// Maximum picture width in pixels.
    pub max_width: u32,
    /// Maximum picture height in pixels.
    pub max_height: u32,
    /// Maximum size in bytes of the `width * height * 3` float pixel buffer
    /// (`width * height * 12`).
    pub max_pixel_bytes: usize,
}

/// The default pixel-buffer ceiling: 256 MiB.
pub const DEFAULT_MAX_PIXEL_BYTES: usize = 268435456;

/// The default per-axis ceiling, the widest scanline the new-RLE marker
/// addresses.
pub const DEFAULT_MAX_DIMENSION: u32 = 32767;

impl Default for HdrLimits {
    /// `32 767 × 32 767` pixels and a 256 MiB pixel buffer.
    fn default() -> (r: HdrLimits)
        ensures
            r.max_width == DEFAULT_MAX_DIMENSION,
            r.max_height == DEFAULT_MAX_DIMENSION,
            r.max_pixel_bytes == DEFAULT_MAX_PIXEL_BYTES,
    {
        HdrLimits {
            max_width: DEFAULT_MAX_DIMENSION,
            max_height: DEFAULT_MAX_DIMENSION,
            max_pixel_bytes: DEFAULT_MAX_PIXEL_BYTES,
        }
    }
}

impl HdrLimits {
    /// Limits that only the arithmetic itself bounds: every dimension at
    /// `u32::MAX`, the pixel buffer at `usize::MAX`. For trusted input only.
    pub fn unbounded() -> (r: HdrLimits)
        ensures
            r.max_width == u32::MAX,
            r.max_height == u32::MAX,
            r.max_pixel_bytes == usize::MAX,
    {
        HdrLimits { max_width: u32::MAX, max_height: u32::MAX, max_pixel_bytes: usize::MAX }
    }
}

} // verus!
