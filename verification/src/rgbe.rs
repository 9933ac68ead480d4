//! Byte-level inspectors for one shared-exponent RGBE quad.

use vstd::prelude::*;

verus! {

/// `true` exactly when the quad is the all-zero sentinel: exponent byte `0`.
/// The mantissa bytes play no part.
pub fn rgbe_is_zero_pixel(rgbe: [u8; 4]) -> (r: bool)
    ensures
        r == (rgbe[3] == 0),
{
    rgbe[3] == 0
}

/// The unbiased shared exponent `byte - 128` of the quad, or `None` for the
/// sentinel exponent byte `0`.
pub fn rgbe_unbiased_exponent(rgbe: [u8; 4]) -> (r: Option<i32>)
    ensures
        rgbe[3] == 0 ==> r is None,
        rgbe[3] != 0 ==> r == Some((rgbe[3] as int - 128) as i32),
{
    let e = rgbe[3];
    if e == 0 {
        None
    } else {
        Some(e as i32 - 128)
    }
}

/// The two inspectors agree: a quad is the sentinel exactly when it has no
/// unbiased exponent.
pub proof fn law_zero_pixel_iff_no_exponent(rgbe: [u8; 4], zero: bool, exp: Option<i32>)
    requires
        zero == (rgbe[3] == 0),
        rgbe[3] == 0 ==> exp is None,
        rgbe[3] != 0 ==> exp == Some((rgbe[3] as int - 128) as i32),
    ensures
        zero <==> exp is None,
        exp matches Some(e) ==> -127 <= e <= 127,
{
}

} // verus!
