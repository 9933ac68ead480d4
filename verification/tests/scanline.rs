//! Scanline coding, the RGBE quad inspectors, the decoder limits and the
//! text-line helpers.

use oxideav_hdr::{
    decode_scanline, encode_scanline, parse_axis_flag, read_line, rgbe_is_zero_pixel,
    rgbe_unbiased_exponent, trim_cr, AxisSign, HdrLimits, RGBE_BRIGHT_COEFFS, WHTEFFICACY,
};

#[test]
fn read_line_handles_lf_and_crlf() {
    let buf = b"foo\nbar\r\nbaz";
    let mut c = 0;
    assert_eq!(read_line(buf, &mut c), Some(&b"foo"[..]));
    let line2 = read_line(buf, &mut c).unwrap();
    assert_eq!(trim_cr(line2), b"bar");
    assert_eq!(read_line(buf, &mut c), None);
}

#[test]
fn parse_axis_flag_rejects_garbage() {
    assert!(parse_axis_flag("Y").is_err());
    assert!(parse_axis_flag("+Z").is_err());
    assert!(parse_axis_flag("/Y").is_err());
    assert_eq!(parse_axis_flag("-Y").unwrap(), ('Y', AxisSign::Decreasing));
}

#[test]
fn defaults_admit_every_size_the_existing_test_corpus_uses() {
    let lim = HdrLimits::default();
    assert!(1 <= lim.max_width && 1 <= lim.max_height);
    assert!(32 <= lim.max_width && 16 <= lim.max_height);
    assert!(3_840 <= lim.max_width && 2_160 <= lim.max_height);
    let bytes = 3_840_usize * 2_160 * 12;
    assert!(bytes <= lim.max_pixel_bytes);
}

#[test]
fn defaults_match_new_rle_marker_addressability() {
    let lim = HdrLimits::default();
    assert_eq!(lim.max_width, 32_767);
    assert_eq!(lim.max_height, 32_767);
}

#[test]
fn unbounded_actually_unbounded() {
    let lim = HdrLimits::unbounded();
    assert_eq!(lim.max_width, u32::MAX);
    assert_eq!(lim.max_height, u32::MAX);
    assert_eq!(lim.max_pixel_bytes, usize::MAX);
}

#[test]
fn default_pixel_byte_cap_rejects_the_worst_case_max_dimension() {
    let lim = HdrLimits::default();
    let worst_case = (lim.max_width as usize) * (lim.max_height as usize) * 12;
    assert!(worst_case > lim.max_pixel_bytes);
}

#[test]
fn unbiased_exponent_zero_pixel_is_sentinel() {
    assert_eq!(rgbe_unbiased_exponent([0, 0, 0, 0]), None);
}

#[test]
fn unbiased_exponent_sentinel_keys_off_exponent_only() {
    assert_eq!(rgbe_unbiased_exponent([255, 255, 255, 0]), None);
    assert_eq!(rgbe_unbiased_exponent([7, 11, 200, 0]), None);
}

#[test]
fn unbiased_exponent_spec_worked_example() {
    assert_eq!(rgbe_unbiased_exponent([128, 64, 32, 129]), Some(1));
}

#[test]
fn unbiased_exponent_byte_128_is_zero() {
    assert_eq!(rgbe_unbiased_exponent([200, 100, 50, 128]), Some(0));
}

#[test]
fn unbiased_exponent_full_range_byte_values_pin_bias() {
    assert_eq!(rgbe_unbiased_exponent([0, 0, 0, 1]), Some(-127));
    assert_eq!(rgbe_unbiased_exponent([0, 0, 0, 127]), Some(-1));
    assert_eq!(rgbe_unbiased_exponent([0, 0, 0, 128]), Some(0));
    assert_eq!(rgbe_unbiased_exponent([0, 0, 0, 129]), Some(1));
    assert_eq!(rgbe_unbiased_exponent([0, 0, 0, 255]), Some(127));
}

#[test]
fn is_zero_pixel_matches_sentinel_byte() {
    assert!(rgbe_is_zero_pixel([0, 0, 0, 0]));
}

#[test]
fn is_zero_pixel_keys_off_exponent_only() {
    assert!(rgbe_is_zero_pixel([255, 255, 255, 0]));
    assert!(rgbe_is_zero_pixel([7, 11, 200, 0]));
    assert!(rgbe_is_zero_pixel([1, 1, 1, 0]));
}

#[test]
fn is_zero_pixel_false_for_every_nonzero_exponent() {
    for &e in &[1u8, 127, 128, 129, 255] {
        assert!(!rgbe_is_zero_pixel([0, 0, 0, e]));
        assert!(!rgbe_is_zero_pixel([200, 100, 50, e]));
    }
    assert!(!rgbe_is_zero_pixel([128, 64, 32, 129]));
}

#[test]
fn is_zero_pixel_agrees_with_unbiased_exponent_none_branch() {
    for e in 0u8..=255 {
        for mantissas in &[[0u8, 0, 0], [200, 100, 50]] {
            let p = [mantissas[0], mantissas[1], mantissas[2], e];
            assert_eq!(
                rgbe_is_zero_pixel(p),
                rgbe_unbiased_exponent(p).is_none(),
                "disagreement on quad {p:?}"
            );
        }
    }
}

#[test]
fn channel_roundtrip_literals_only() {
    let mut encoded = Vec::new();
    let chans = [
        (0..16u8).collect::<Vec<_>>(),
        (16..32u8).collect::<Vec<_>>(),
        (32..48u8).collect::<Vec<_>>(),
        (48..64u8).collect::<Vec<_>>(),
    ];
    encode_scanline(&chans, 16, &mut encoded).unwrap();
    let mut pos = 0;
    let mut prev = None;
    let back = decode_scanline(&encoded, &mut pos, 16, &mut prev).unwrap();
    assert_eq!(back, chans);
    assert_eq!(pos, encoded.len());
}

#[test]
fn channel_roundtrip_repeats() {
    let mut encoded = Vec::new();
    let chans = [vec![0xAAu8; 64], vec![0xBBu8; 64], vec![0xCCu8; 64], vec![0xDDu8; 64]];
    encode_scanline(&chans, 64, &mut encoded).unwrap();
    assert!(encoded.len() < 64);
    let mut pos = 0;
    let mut prev = None;
    let back = decode_scanline(&encoded, &mut pos, 64, &mut prev).unwrap();
    assert_eq!(back, chans);
}

#[test]
fn channel_roundtrip_mixed() {
    let mut encoded = Vec::new();
    let mut data = (0..50u8).collect::<Vec<_>>();
    data.extend(std::iter::repeat(0x77).take(40));
    data.extend(50..60u8);
    let chans = [data.clone(), data.clone(), data.clone(), data.clone()];
    let w = data.len();
    encode_scanline(&chans, w, &mut encoded).unwrap();
    let mut pos = 0;
    let mut prev = None;
    let back = decode_scanline(&encoded, &mut pos, w, &mut prev).unwrap();
    assert_eq!(back, chans);
}

#[test]
fn old_rle_decodes_literal_pixels() {
    let pixels = [
        0x10, 0x20, 0x30, 0x80, //
        0x40, 0x50, 0x60, 0x80, //
        0x70, 0x80, 0x90, 0x80, //
    ];
    let mut pos = 0;
    let mut prev = None;
    let chans = decode_scanline(&pixels, &mut pos, 3, &mut prev).unwrap();
    assert_eq!(chans[0], vec![0x10, 0x40, 0x70]);
    assert_eq!(chans[1], vec![0x20, 0x50, 0x80]);
    assert_eq!(chans[2], vec![0x30, 0x60, 0x90]);
    assert_eq!(chans[3], vec![0x80, 0x80, 0x80]);
    assert_eq!(pos, pixels.len());
}

#[test]
fn old_rle_decodes_sentinel_run() {
    let pixels = [
        0x55, 0x66, 0x77, 0x80, //
        0x01, 0x01, 0x01, 0x05, //
    ];
    let mut pos = 0;
    let mut prev = None;
    let chans = decode_scanline(&pixels, &mut pos, 6, &mut prev).unwrap();
    assert_eq!(chans[0], vec![0x55; 6]);
    assert_eq!(chans[1], vec![0x66; 6]);
    assert_eq!(chans[2], vec![0x77; 6]);
    assert_eq!(chans[3], vec![0x80; 6]);
}

#[test]
fn whtefficacy_constant_matches_reference() {
    assert!((WHTEFFICACY as f32 - 179.0).abs() < 1e-6);
    let sum = (RGBE_BRIGHT_COEFFS[0] + RGBE_BRIGHT_COEFFS[1] + RGBE_BRIGHT_COEFFS[2]) as f32 / 1000.0;
    assert!((sum - 1.0).abs() < 1e-6, "coeffs sum to {sum}, expected 1.0");
}
