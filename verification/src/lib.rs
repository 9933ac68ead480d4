//! Radiance RGBE (`.hdr` / `.pic`) reader and writer, byte level.

#![allow(unused_imports)]

pub mod rgbe;
pub mod geometry;
pub mod image;
pub mod error;
pub mod rle;
pub mod limits;
pub mod text;
pub mod header;
pub mod codec;
pub mod roundtrip;
pub mod color;

pub use codec::{decode_rgbe, encode_rgbe, encode_rgbe_preserving_magic, disk_transform, RgbeImage, RleMode};
pub use color::{HdrPixelFormat, RgbColorSpace, RGBE_BRIGHT_COEFFS, WHTEFFICACY};
pub use error::HdrError;
pub use geometry::{AxisSign, GeometricOp, Orientation};
pub use header::{
    has_radiance_magic, merge_view, parse_axis_flag, parse_header, parse_resolution, peek_dimensions,
    write_header, write_resolution, HdrFormat, HdrHeader, LineEnding, MagicLine,
};
pub use image::apply_geometric_buf;
pub use limits::HdrLimits;
pub use rgbe::{rgbe_is_zero_pixel, rgbe_unbiased_exponent};
pub use rle::{
    decode_scanline, decode_scanline_with_fallback, encode_scanline, encode_scanline_old_rle,
    encode_scanline_uncompressed, FallbackMode,
};
pub use text::{read_line, trim_cr};
