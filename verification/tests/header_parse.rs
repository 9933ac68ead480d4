//! Reading the text header: records, comments, program lines, the magic
//! line, and the resolution-line limits.

use oxideav_hdr::{decode_rgbe, parse_header, FallbackMode, HdrError, HdrFormat, HdrLimits};

fn floats(v: &str) -> Vec<f32> {
    v.split_whitespace().map(|t| t.parse::<f32>().unwrap()).collect()
}

fn product(values: &[String]) -> f32 {
    values.iter().map(|v| v.trim().parse::<f32>().unwrap()).product()
}

#[test]
fn multiple_exposure_records_stack_multiplicatively() {
    let bytes = b"#?RADIANCE\nEXPOSURE=0.5\nEXPOSURE=0.25\n\n-Y 1 +X 8\n";
    let mut cursor = 0usize;
    let header = parse_header(bytes, &mut cursor).unwrap();
    let e = product(&header.exposure);
    assert!((e - 0.125).abs() < 1e-6, "expected 0.125, got {e}");
}

#[test]
fn multiple_colorcorr_records_stack_multiplicatively() {
    let bytes = b"#?RADIANCE\nCOLORCORR=2.0 0.5 1.0\nCOLORCORR=0.5 0.5 2.0\n\n-Y 1 +X 8\n";
    let mut cursor = 0usize;
    let header = parse_header(bytes, &mut cursor).unwrap();
    let mut cc = [1.0f32; 3];
    for record in &header.colorcorr {
        let f = floats(record);
        assert_eq!(f.len(), 3);
        for c in 0..3 {
            cc[c] *= f[c];
        }
    }
    assert!((cc[0] - 1.0).abs() < 1e-6, "R: expected 1.0, got {}", cc[0]);
    assert!((cc[1] - 0.25).abs() < 1e-6, "G: expected 0.25, got {}", cc[1]);
    assert!((cc[2] - 2.0).abs() < 1e-6, "B: expected 2.0, got {}", cc[2]);
}

#[test]
fn multiple_pixaspect_records_stack_multiplicatively() {
    let bytes = b"#?RADIANCE\nPIXASPECT=2.0\nPIXASPECT=0.5\nPIXASPECT=1.25\n\n-Y 1 +X 8\n";
    let mut cursor = 0usize;
    let header = parse_header(bytes, &mut cursor).unwrap();
    let p = product(&header.pixaspect);
    assert!((p - 1.25).abs() < 1e-6, "expected 1.25, got {p}");
}

#[test]
fn single_pixaspect_record_is_passed_through() {
    let bytes = b"#?RADIANCE\nPIXASPECT=0.75\n\n-Y 1 +X 8\n";
    let mut cursor = 0usize;
    let header = parse_header(bytes, &mut cursor).unwrap();
    assert_eq!(product(&header.pixaspect), 0.75);
}

#[test]
fn view_record_is_parsed_into_typed_slot() {
    let bytes = b"#?RADIANCE\nFORMAT=32-bit_rle_rgbe\nVIEW=rvu -vp 0 0 10 -vd 0 0 -1\n\n-Y 1 +X 8\n";
    let mut cursor = 0usize;
    let header = parse_header(bytes, &mut cursor).unwrap();
    assert_eq!(header.view.as_deref(), Some("rvu -vp 0 0 10 -vd 0 0 -1"));
    assert!(header.other.iter().all(|(k, _)| k != "VIEW"));
}

#[test]
fn stacked_view_records_override_same_option() {
    let bytes = b"#?RADIANCE\nVIEW=rvu -vp 0 0 5\nVIEW=rvu -vp 0 0 10\n\n-Y 1 +X 8\n";
    let mut cursor = 0usize;
    let header = parse_header(bytes, &mut cursor).unwrap();
    assert_eq!(header.view.as_deref(), Some("rvu -vp 0 0 10"));
}

#[test]
fn stacked_view_records_add_new_options() {
    let bytes = b"#?RADIANCE\nVIEW=-vp 0 0 5\nVIEW=-vd 0 0 -1\n\n-Y 1 +X 8\n";
    let mut cursor = 0usize;
    let header = parse_header(bytes, &mut cursor).unwrap();
    assert_eq!(header.view.as_deref(), Some("-vp 0 0 5 -vd 0 0 -1"));
}

#[test]
fn stacked_view_records_override_and_add_together() {
    let bytes = b"#?RADIANCE\nVIEW=rpict -vp 0 0 5 -vd 0 0 -1\nVIEW=rpict -vp 1 2 3 -vu 0 1 0 -vh 45\n\n-Y 1 +X 8\n";
    let mut cursor = 0usize;
    let header = parse_header(bytes, &mut cursor).unwrap();
    assert_eq!(header.view.as_deref(), Some("rpict -vp 1 2 3 -vd 0 0 -1 -vu 0 1 0 -vh 45"));
}

#[test]
fn single_view_record_is_passed_through_verbatim() {
    let bytes = b"#?RADIANCE\nVIEW=rvu -vp 0 0 10 -vd 0 0 -1 -vh 30\n\n-Y 1 +X 8\n";
    let mut cursor = 0usize;
    let header = parse_header(bytes, &mut cursor).unwrap();
    assert_eq!(header.view.as_deref(), Some("rvu -vp 0 0 10 -vd 0 0 -1 -vh 30"));
}

#[test]
fn three_stacked_view_records_fold_left_to_right() {
    let bytes = b"#?RADIANCE\nVIEW=-vp 0 0 1\nVIEW=-vp 0 0 2 -vh 20\nVIEW=-vp 0 0 3 -vv 25\n\n-Y 1 +X 8\n";
    let mut cursor = 0usize;
    let header = parse_header(bytes, &mut cursor).unwrap();
    assert_eq!(header.view.as_deref(), Some("-vp 0 0 3 -vh 20 -vv 25"));
}

#[test]
fn duplicate_format_record_is_rejected() {
    let bytes = b"#?RADIANCE\nFORMAT=32-bit_rle_rgbe\nFORMAT=32-bit_rle_xyze\n\n-Y 1 +X 8\n";
    let mut cursor = 0usize;
    let err = parse_header(bytes, &mut cursor).expect_err("two FORMAT lines must error");
    assert!(err.message().contains("at most one FORMAT"), "unexpected error: {err:?}");
}

#[test]
fn duplicate_format_record_rejected_even_when_identical() {
    let bytes = b"#?RADIANCE\nFORMAT=32-bit_rle_rgbe\nFORMAT=32-bit_rle_rgbe\n\n-Y 1 +X 8\n";
    let mut cursor = 0usize;
    assert!(parse_header(bytes, &mut cursor).is_err());
}

#[test]
fn single_format_record_is_accepted() {
    let bytes = b"#?RADIANCE\nFORMAT=32-bit_rle_xyze\n\n-Y 1 +X 8\n";
    let mut cursor = 0usize;
    let header = parse_header(bytes, &mut cursor).unwrap();
    assert_eq!(header.format, HdrFormat::Xyze);
}

#[test]
fn format_value_tolerates_surrounding_whitespace() {
    let cases: &[(&[u8], HdrFormat)] = &[
        (b"#?RADIANCE\nFORMAT= 32-bit_rle_rgbe\n\n-Y 1 +X 8\n", HdrFormat::Rgbe),
        (b"#?RADIANCE\nFORMAT=32-bit_rle_rgbe \n\n-Y 1 +X 8\n", HdrFormat::Rgbe),
        (b"#?RADIANCE\nFORMAT=\t32-bit_rle_xyze\t\n\n-Y 1 +X 8\n", HdrFormat::Xyze),
    ];
    for (bytes, expected) in cases {
        let mut cursor = 0usize;
        let header = parse_header(bytes, &mut cursor).unwrap();
        assert_eq!(header.format, *expected);
    }
}

#[test]
fn format_value_with_embedded_garbage_still_rejected() {
    let bytes = b"#?RADIANCE\nFORMAT= 64-bit_rle_rgbe \n\n-Y 1 +X 8\n";
    let mut cursor = 0usize;
    assert!(parse_header(bytes, &mut cursor).is_err());
}

#[test]
fn single_exposure_record_is_passed_through() {
    let bytes = b"#?RADIANCE\nEXPOSURE=1.5\n\n-Y 1 +X 8\n";
    let mut cursor = 0usize;
    let header = parse_header(bytes, &mut cursor).unwrap();
    assert_eq!(product(&header.exposure), 1.5);
}

#[test]
fn canonical_magic_identifiers_are_captured() {
    let mut cursor = 0usize;
    let radiance = parse_header(b"#?RADIANCE\n\n-Y 1 +X 8\n", &mut cursor).unwrap();
    assert_eq!(radiance.magic_id.as_deref(), Some("RADIANCE"));
    let mut cursor = 0usize;
    let rgbe = parse_header(b"#?RGBE\n\n-Y 1 +X 8\n", &mut cursor).unwrap();
    assert_eq!(rgbe.magic_id.as_deref(), Some("RGBE"));
}

#[test]
fn custom_program_magic_identifier_is_accepted_and_preserved() {
    let bytes = b"#?RADIANCE GENERATED-BY oxideav-hdr-test\n\n-Y 1 +X 8\n";
    let mut cursor = 0usize;
    let header = parse_header(bytes, &mut cursor).unwrap();
    assert_eq!(header.magic_id.as_deref(), Some("RADIANCE GENERATED-BY oxideav-hdr-test"));
}

#[test]
fn magic_identifier_survives_crlf_line_ending() {
    let bytes = b"#?MYWRITER\r\n\r\n-Y 1 +X 8\r\n";
    let mut cursor = 0usize;
    let header = parse_header(bytes, &mut cursor).unwrap();
    assert_eq!(header.magic_id.as_deref(), Some("MYWRITER"));
}

#[test]
fn empty_magic_identifier_is_rejected() {
    let bytes = b"#?\n\n-Y 1 +X 8\n";
    let mut cursor = 0usize;
    assert!(parse_header(bytes, &mut cursor).is_err());
}

#[test]
fn non_magic_first_line_is_rejected() {
    let bytes = b"RADIANCE\n\n-Y 1 +X 8\n";
    let mut cursor = 0usize;
    assert!(parse_header(bytes, &mut cursor).is_err());
}

#[test]
fn header_command_line_is_preserved_not_rejected() {
    let bytes = b"#?RADIANCE\nrpict -vp 0 0 0 scene.oct\nFORMAT=32-bit_rle_rgbe\n\n-Y 1 +X 8\n";
    let mut cursor = 0usize;
    let header = parse_header(bytes, &mut cursor).unwrap();
    assert_eq!(header.commands, vec!["rpict -vp 0 0 0 scene.oct"]);
    assert_eq!(header.format, HdrFormat::Rgbe);
}

#[test]
fn multiple_interspersed_command_lines_kept_in_read_order() {
    let bytes = b"#?RADIANCE\noconv scene.rad > scene.oct\nEXPOSURE=2.0\nrpict -vp 0 0 0 scene.oct\npfilt -1 -x 512 -y 512\n\n-Y 1 +X 8\n";
    let mut cursor = 0usize;
    let header = parse_header(bytes, &mut cursor).unwrap();
    assert_eq!(
        header.commands,
        vec!["oconv scene.rad > scene.oct", "rpict -vp 0 0 0 scene.oct", "pfilt -1 -x 512 -y 512",]
    );
    assert_eq!(product(&header.exposure), 2.0);
}

#[test]
fn command_line_with_embedded_equals_is_parsed_as_assignment() {
    let bytes = b"#?RADIANCE\nSOFTWARE=RADIANCE 5.3\n\n-Y 1 +X 8\n";
    let mut cursor = 0usize;
    let header = parse_header(bytes, &mut cursor).unwrap();
    assert!(header.commands.is_empty());
    assert_eq!(header.software.as_deref(), Some("RADIANCE 5.3"));
}

#[test]
fn command_line_with_crlf_is_trimmed() {
    let bytes = b"#?RADIANCE\r\nrpict scene.oct\r\n\r\n-Y 1 +X 8\r\n";
    let mut cursor = 0usize;
    let header = parse_header(bytes, &mut cursor).unwrap();
    assert_eq!(header.commands, vec!["rpict scene.oct"]);
}

fn decode(bytes: &[u8], limits: &HdrLimits) -> Result<oxideav_hdr::RgbeImage, HdrError> {
    decode_rgbe(bytes, FallbackMode::OldRle, limits)
}

#[test]
fn limits_reject_oversize_width_before_allocation() {
    let bytes = b"#?RADIANCE\n\n-Y 1 +X 2000000000\n";
    let err = decode(bytes, &HdrLimits::default()).unwrap_err();
    assert!(matches!(err, HdrError::TooLarge(_)), "got {err:?}");
}

#[test]
fn limits_reject_oversize_height_before_allocation() {
    let bytes = b"#?RADIANCE\n\n-Y 2000000000 +X 8\n";
    let err = decode(bytes, &HdrLimits::default()).unwrap_err();
    assert!(matches!(err, HdrError::TooLarge(_)), "got {err:?}");
}

#[test]
fn limits_reject_pixel_byte_overrun() {
    let bytes = b"#?RADIANCE\n\n-Y 32767 +X 32767\n";
    let err = decode(bytes, &HdrLimits::default()).unwrap_err();
    assert!(matches!(err, HdrError::TooLarge(_)), "got {err:?}");
}

#[test]
fn limits_unbounded_admits_larger_dimensions_via_with_limits() {
    let bytes = b"#?RADIANCE\n\n-Y 32767 +X 32767\n";
    let err = decode(bytes, &HdrLimits::unbounded()).unwrap_err();
    assert!(!matches!(err, HdrError::TooLarge(_)), "unbounded limits should not raise TooLarge, got {err:?}");
}

#[test]
fn limits_custom_pixel_byte_cap_rejects_borderline_input() {
    let bytes = b"#?RADIANCE\n\n-Y 4 +X 32\n";
    let custom = HdrLimits { max_pixel_bytes: 1024, ..HdrLimits::default() };
    let err = decode_rgbe(bytes, FallbackMode::OldRle, &custom).unwrap_err();
    assert!(matches!(err, HdrError::TooLarge(_)), "got {err:?}");
}

#[test]
fn limits_accept_typical_image_dimensions() {
    let bytes = b"#?RADIANCE\n\n-Y 16 +X 32\n";
    let err = decode(bytes, &HdrLimits::default()).unwrap_err();
    assert!(!matches!(err, HdrError::TooLarge(_)), "32x16 must clear the default limits, got {err:?}");
}
