//! The error each malformed input is answered with, message included.

use oxideav_hdr::{
    decode_rgbe, decode_scanline, encode_rgbe, parse_axis_flag, parse_header, FallbackMode, HdrError, HdrHeader,
    HdrLimits, LineEnding, MagicLine, RgbeImage, RleMode,
};

fn header_err(text: &[u8]) -> HdrError {
    let mut cursor = 0usize;
    parse_header(text, &mut cursor).unwrap_err()
}

fn decode_err(bytes: &[u8], limits: &HdrLimits) -> HdrError {
    decode_rgbe(bytes, FallbackMode::OldRle, limits).unwrap_err()
}

#[test]
fn numeric_records_must_hold_floats() {
    assert_eq!(
        header_err(b"#?RADIANCE\nEXPOSURE=abc\n\n"),
        HdrError::InvalidData("HDR: invalid EXPOSURE".to_owned())
    );
    assert_eq!(
        header_err(b"#?RADIANCE\nGAMMA=2.2.2\n\n"),
        HdrError::InvalidData("HDR: invalid GAMMA".to_owned())
    );
    assert_eq!(
        header_err(b"#?RADIANCE\nPIXASPECT=\n\n"),
        HdrError::InvalidData("HDR: invalid PIXASPECT".to_owned())
    );
    assert_eq!(
        header_err(b"#?RADIANCE\nCOLORCORR=1 1\n\n"),
        HdrError::InvalidData("HDR: COLORCORR must have 3 floats".to_owned())
    );
    assert_eq!(
        header_err(b"#?RADIANCE\nCOLORCORR=1 x 1\n\n"),
        HdrError::InvalidData("HDR: invalid COLORCORR green".to_owned())
    );
    assert_eq!(
        header_err(b"#?RADIANCE\nPRIMARIES=1 2 3 4 5 6 7\n\n"),
        HdrError::InvalidData("HDR: PRIMARIES must have 8 floats".to_owned())
    );
}

#[test]
fn float_spellings_follow_the_float_parser() {
    for v in ["1", "-1.5", "+.5", "2.", "1e3", "1E-3", "6.02e+23", " 0.7 ", "inf", "-Infinity", "NaN"] {
        let text = format!("#?RADIANCE\nEXPOSURE={v}\n\n");
        let mut cursor = 0usize;
        let h = parse_header(text.as_bytes(), &mut cursor).unwrap_or_else(|e| panic!("{v:?}: {e:?}"));
        assert_eq!(h.exposure, vec![v.to_owned()]);
        assert!(v.trim().parse::<f32>().is_ok());
    }
    for v in [".", "e5", "1e", "1e+", "0x10", "1_000", "infinit", "--1", "1.5f"] {
        let text = format!("#?RADIANCE\nEXPOSURE={v}\n\n");
        assert_eq!(header_err(text.as_bytes()), HdrError::InvalidData("HDR: invalid EXPOSURE".to_owned()), "{v:?}");
        assert!(v.trim().parse::<f32>().is_err());
    }
}

#[test]
fn primaries_count_only_the_tokens_that_are_floats() {
    let mut cursor = 0usize;
    let h = parse_header(b"#?RADIANCE\nPRIMARIES=1 2 3 4 x 5 6 7 8\n\n", &mut cursor).unwrap();
    assert_eq!(h.primaries, vec!["1 2 3 4 x 5 6 7 8".to_owned()]);
}

#[test]
fn format_errors_name_the_problem() {
    assert_eq!(
        header_err(b"#?RADIANCE\nFORMAT=32-bit_rle_rgbe\nFORMAT=32-bit_rle_rgbe\n\n"),
        HdrError::InvalidData("HDR: at most one FORMAT line is allowed".to_owned())
    );
    assert_eq!(
        header_err(b"#?RADIANCE\nFORMAT= 16-bit \n\n"),
        HdrError::Unsupported("HDR: unknown FORMAT '16-bit'".to_owned())
    );
    assert_eq!(header_err(b""), HdrError::InvalidData("HDR: missing magic".to_owned()));
    assert_eq!(header_err(b"#?\n\n"), HdrError::InvalidData("HDR: missing #? magic line".to_owned()));
    assert_eq!(header_err(b"#?RADIANCE\nA=1\n"), HdrError::InvalidData("HDR: header truncated".to_owned()));
}

#[test]
fn resolution_errors_name_the_limit() {
    let limits = HdrLimits::default();
    assert_eq!(
        decode_err(b"#?RADIANCE\n\n-Y 1 +X 2000000000\n", &limits),
        HdrError::TooLarge("HDR: resolution width 2000000000 exceeds HdrLimits::max_width (32767)".to_owned())
    );
    assert_eq!(
        decode_err(b"#?RADIANCE\n\n-Y 40000 +X 8\n", &limits),
        HdrError::TooLarge("HDR: resolution height 40000 exceeds HdrLimits::max_height (32767)".to_owned())
    );
    assert_eq!(
        decode_err(b"#?RADIANCE\n\n-Y 32767 +X 32767\n", &limits),
        HdrError::TooLarge(
            "HDR: pixel-buffer size 12884115468 bytes exceeds HdrLimits::max_pixel_bytes (268435456)".to_owned()
        )
    );
    assert_eq!(
        decode_err(b"#?RADIANCE\n\n-Y 1 -Z 8\n", &limits),
        HdrError::InvalidData("HDR: axis flag axis must be X or Y".to_owned())
    );
    assert_eq!(
        decode_err(b"#?RADIANCE\n\n-Y 1 +X\n", &limits),
        HdrError::InvalidData("HDR: resolution line must have 4 tokens".to_owned())
    );
}

#[test]
fn axis_flag_errors_are_judged_on_bytes() {
    assert_eq!(parse_axis_flag("é").unwrap_err(), HdrError::InvalidData("HDR: axis flag sign must be + or -".to_owned()));
    assert_eq!(parse_axis_flag("+é").unwrap_err(), HdrError::InvalidData("HDR: axis flag must be 2 chars".to_owned()));
    assert_eq!(parse_axis_flag("*X").unwrap_err(), HdrError::InvalidData("HDR: axis flag sign must be + or -".to_owned()));
}

#[test]
fn scanline_errors_name_the_fault() {
    let mut pos = 3usize;
    let mut prev = None;
    let err = decode_scanline(&[1, 2, 3, 4, 5], &mut pos, 0, &mut prev).unwrap_err();
    assert_eq!(err, HdrError::InvalidData("HDR: zero-width scanline".to_owned()));
    assert_eq!(pos, 3);
    let mut pos = 0usize;
    let err = decode_scanline(&[1, 1, 1, 3], &mut pos, 4, &mut prev).unwrap_err();
    assert_eq!(err, HdrError::InvalidData("HDR: old-RLE leading sentinel with no previous pixel".to_owned()));
    let mut pos = 0usize;
    let err = decode_scanline(&[2, 2, 0, 8, 0], &mut pos, 8, &mut prev).unwrap_err();
    assert_eq!(err, HdrError::InvalidData("HDR: new-RLE zero-length literal".to_owned()));
    let bytes = b"#?RADIANCE\nFORMAT=32-bit_rle_rgbe\n\n-Y 1 +X 4\n\x01\x01\x01\x03\x10\x20\x30\x80";
    assert_eq!(
        decode_err(bytes, &HdrLimits::default()),
        HdrError::InvalidData("HDR: old-RLE leading sentinel with no previous pixel".to_owned())
    );
}

#[test]
fn encoder_errors_name_the_fault() {
    let img = RgbeImage { width: 4, height: 2, quads: vec![[128, 0, 0, 128]; 8], header: HdrHeader::default() };
    assert_eq!(
        encode_rgbe(&img, RleMode::New, LineEnding::Lf, &MagicLine::Radiance).unwrap_err(),
        HdrError::Unsupported(
            "HDR encoder: on-disk scanline width 4 outside supported new-RLE range 8..=32767 (try RleMode::Old or RleMode::Auto)"
                .to_owned()
        )
    );
    let empty = RgbeImage { width: 0, height: 2, quads: Vec::new(), header: HdrHeader::default() };
    assert_eq!(
        encode_rgbe(&empty, RleMode::Auto, LineEnding::Lf, &MagicLine::Radiance).unwrap_err(),
        HdrError::InvalidData("HDR encoder: zero dimension".to_owned())
    );
}
