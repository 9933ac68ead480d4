//! Whole pictures of RGBE quads through the encoder and back through the
//! decoder.

use oxideav_hdr::{
    decode_rgbe, encode_rgbe, encode_rgbe_preserving_magic, AxisSign, FallbackMode, HdrError, HdrFormat,
    HdrHeader, HdrLimits, LineEnding, MagicLine, Orientation, RgbeImage, RleMode,
};

struct Lcg(u64);

impl Lcg {
    fn new(seed: u64) -> Self {
        Lcg(seed.wrapping_mul(0x9E37_79B9_7F4A_7C15).wrapping_add(1))
    }
    fn next_u32(&mut self) -> u32 {
        self.0 = self.0.wrapping_mul(6364136223846793005).wrapping_add(1442695040888963407);
        (self.0 >> 32) as u32
    }
    fn byte(&mut self) -> u8 {
        (self.next_u32() >> 24) as u8
    }
}

fn normalised_quads(rng: &mut Lcg, count: usize) -> Vec<[u8; 4]> {
    let mut out = Vec::with_capacity(count);
    for _ in 0..count {
        if rng.byte() < 16 {
            out.push([0, 0, 0, 0]);
            continue;
        }
        let mut m = [rng.byte(), rng.byte(), rng.byte()];
        let dom = (rng.next_u32() % 3) as usize;
        if m[dom] < 128 {
            m[dom] |= 0x80;
        }
        let e = 64 + (rng.byte() % 192);
        out.push([m[0], m[1], m[2], e]);
    }
    out
}

fn fallback_for(rle: RleMode) -> FallbackMode {
    match rle {
        RleMode::New | RleMode::Auto | RleMode::Old => FallbackMode::OldRle,
        RleMode::Uncompressed => FallbackMode::Uncompressed,
    }
}

const RESOLUTIONS: &[(u32, u32)] = &[(8, 8), (16, 4), (4, 16), (1, 12), (12, 1), (32, 9), (7, 7), (9, 13)];

const ORIENTATIONS: [Orientation; 8] = [
    Orientation::Standard,
    Orientation::FlipX,
    Orientation::Rotate180,
    Orientation::FlipY,
    Orientation::Rotate90Cw,
    Orientation::Rotate90CwFlipY,
    Orientation::Rotate90Ccw,
    Orientation::Rotate90CcwFlipY,
];

const RLE_MODES: [RleMode; 4] = [RleMode::New, RleMode::Old, RleMode::Auto, RleMode::Uncompressed];

fn picture(w: u32, h: u32, quads: &[[u8; 4]], header: HdrHeader) -> RgbeImage {
    RgbeImage { width: w, height: h, quads: quads.to_vec(), header }
}

#[test]
fn rgbe_quads_round_trip_bit_exactly_across_resolution_orientation_rle_matrix() {
    let mut rng = Lcg::new(0x0344_0344_u64);
    let mut cases = 0usize;
    for &(w, h) in RESOLUTIONS {
        let quads = normalised_quads(&mut rng, (w * h) as usize);
        for &orientation in &ORIENTATIONS {
            for &rle in &RLE_MODES {
                let on_disk_scanline_w = if orientation.is_x_first() { h } else { w };
                if rle == RleMode::New && !(8..=32767).contains(&on_disk_scanline_w) {
                    continue;
                }
                let mut header = HdrHeader::default();
                header.set_orientation(orientation);
                let img = picture(w, h, &quads, header);
                let bytes = encode_rgbe(&img, rle, LineEnding::Lf, &MagicLine::Radiance)
                    .unwrap_or_else(|e| panic!("encode {w}x{h} {orientation:?} {rle:?}: {e:?}"));
                let back = decode_rgbe(&bytes, fallback_for(rle), &HdrLimits::default())
                    .unwrap_or_else(|e| panic!("decode {w}x{h} {orientation:?} {rle:?}: {e:?}"));
                assert_eq!(back.width, w, "{w}x{h} {orientation:?} {rle:?}: width");
                assert_eq!(back.height, h, "{w}x{h} {orientation:?} {rle:?}: height");
                assert_eq!(back.header.orientation(), orientation, "{w}x{h} {orientation:?} {rle:?}: orientation slot lost");
                assert_eq!(back.quads, quads, "{w}x{h} {orientation:?} {rle:?}: RGBE quads drifted across round-trip");
                cases += 1;
            }
        }
    }
    assert!(cases >= 200, "matrix only ran {cases} cases");
}

#[test]
fn rgbe_quads_round_trip_under_crlf_line_endings() {
    let mut rng = Lcg::new(7);
    let (w, h) = (16u32, 6u32);
    let quads = normalised_quads(&mut rng, (w * h) as usize);
    for &orientation in &ORIENTATIONS {
        let mut header = HdrHeader::default();
        header.set_orientation(orientation);
        let img = picture(w, h, &quads, header);
        let bytes = encode_rgbe(&img, RleMode::Auto, LineEnding::Crlf, &MagicLine::Radiance).unwrap();
        let back = decode_rgbe(&bytes, FallbackMode::OldRle, &HdrLimits::default()).unwrap();
        assert_eq!(back.quads, quads, "{orientation:?}: CRLF drift");
    }
}

#[test]
fn rgbe_quads_round_trip_preserves_typed_header_records() {
    let mut rng = Lcg::new(99);
    let (w, h) = (24u32, 3u32);
    let quads = normalised_quads(&mut rng, (w * h) as usize);
    let mut header = HdrHeader::default();
    header.exposure = vec!["1.5".to_owned()];
    header.gamma = vec!["2.2".to_owned()];
    header.pixaspect = vec!["0.75".to_owned()];
    header.colorcorr = vec!["1.1 1 0.9".to_owned()];
    header.primaries = vec!["0.708 0.292 0.17 0.797 0.131 0.046 0.3127 0.329".to_owned()];
    header.software = Some("oxideav-hdr/matrix".to_owned());
    header.view = Some("rpict -vp 0 0 5 -vd 0 0 -1".to_owned());
    header.y_sign = AxisSign::Decreasing;
    let img = picture(w, h, &quads, header);
    let bytes = encode_rgbe(&img, RleMode::New, LineEnding::Lf, &MagicLine::Radiance).unwrap();
    let back = decode_rgbe(&bytes, FallbackMode::OldRle, &HdrLimits::default()).unwrap();
    assert_eq!(back.quads, quads, "quad drift with typed records");
    assert_eq!(back.header.exposure, vec!["1.5"]);
    assert_eq!(back.header.gamma, vec!["2.2"]);
    assert_eq!(back.header.pixaspect, vec!["0.75"]);
    assert_eq!(back.header.colorcorr, vec!["1.1 1 0.9"]);
    assert_eq!(back.header.software.as_deref(), Some("oxideav-hdr/matrix"));
    assert_eq!(back.header.view.as_deref(), Some("rpict -vp 0 0 5 -vd 0 0 -1"));
    let red_x: f32 = back.header.primaries[0].split_whitespace().next().unwrap().parse().unwrap();
    assert!((red_x - 0.708).abs() < 1e-4);
}

fn old_rle_one_row_file(width: usize, scanline: &[u8]) -> Vec<u8> {
    let mut bytes = Vec::new();
    bytes.extend_from_slice(b"#?RADIANCE\n");
    bytes.extend_from_slice(b"FORMAT=32-bit_rle_rgbe\n");
    bytes.extend_from_slice(b"\n");
    bytes.extend_from_slice(format!("-Y 1 +X {width}\n").as_bytes());
    bytes.extend_from_slice(scanline);
    bytes
}

#[test]
fn public_parse_rejects_leading_old_rle_sentinel_first_scanline() {
    let scanline = [
        0x01, 0x01, 0x01, 0x03, //
        0x10, 0x20, 0x30, 0x80, //
    ];
    let file = old_rle_one_row_file(4, &scanline);
    let err = decode_rgbe(&file, FallbackMode::OldRle, &HdrLimits::default()).unwrap_err();
    assert!(err.message().contains("leading sentinel"), "expected leading-sentinel rejection, got: {err:?}");
}

#[test]
fn public_parse_accepts_old_rle_literal_then_sentinel_first_scanline() {
    let scanline = [
        0x10, 0x20, 0x30, 0x80, //
        0x01, 0x01, 0x01, 0x03, //
    ];
    let file = old_rle_one_row_file(4, &scanline);
    let img = decode_rgbe(&file, FallbackMode::OldRle, &HdrLimits::default()).unwrap();
    assert_eq!(img.width, 4);
    assert_eq!(img.height, 1);
    for px in 0..4 {
        assert_eq!(img.quads[px], [0x10, 0x20, 0x30, 0x80]);
    }
}

#[test]
fn full_option_matrix_round_trips_header_text_and_orientation() {
    let (w, h) = (12u32, 9u32);
    let mut rng = Lcg::new(5);
    let quads = normalised_quads(&mut rng, (w * h) as usize);
    let magics = [MagicLine::Radiance, MagicLine::Rgbe, MagicLine::Custom("MYWRITER 2".to_owned())];
    let mut cases = 0usize;
    for &rle in &RLE_MODES {
        for &eol in &[LineEnding::Lf, LineEnding::Crlf] {
            for magic in &magics {
                for &orientation in &ORIENTATIONS {
                    for &format in &[HdrFormat::Rgbe, HdrFormat::Xyze] {
                        let mut header = HdrHeader::default();
                        header.format = format;
                        header.set_orientation(orientation);
                        header.exposure = vec!["0.625".to_owned()];
                        header.gamma = vec!["1.5".to_owned()];
                        header.pixaspect = vec!["0.75".to_owned()];
                        header.colorcorr = vec!["0.5 0.25 0.125".to_owned()];
                        header.primaries = vec!["0.625 0.328125 0.296875 0.59375 0.15625 0.0625 0.3125 0.328125".to_owned()];
                        header.software = Some("oxideav-test 1.0".to_owned());
                        header.view = Some("rvu -vp 0 0 1 -vd 0 0 -1".to_owned());
                        header.commands.push("rpict -vf scene.vp scene.oct".to_owned());
                        header.other.push(("OXIDEAV".to_owned(), "x=1".to_owned()));
                        header.comments.push(" made by a test".to_owned());
                        let img = picture(w, h, &quads, header.clone());
                        let bytes = encode_rgbe(&img, rle, eol, magic).expect("encode must succeed for in-range dims");
                        let fallback = fallback_for(rle);
                        let back = decode_rgbe(&bytes, fallback, &HdrLimits::default()).expect("encoder output must decode");
                        let mut expected = header;
                        expected.magic_id = Some(match magic {
                            MagicLine::Radiance => "RADIANCE".to_owned(),
                            MagicLine::Rgbe => "RGBE".to_owned(),
                            MagicLine::Custom(s) => s.clone(),
                        });
                        assert_eq!(back.header, expected, "{rle:?}/{eol:?}/{magic:?}/{orientation:?}/{format:?}");
                        assert_eq!(back.quads, quads);
                        assert_eq!((back.width, back.height), (w, h));
                        cases += 1;
                    }
                }
            }
        }
    }
    assert_eq!(cases, 384);
}

#[test]
fn old_rle_dodges_a_literal_that_looks_like_a_sentinel() {
    let quads = vec![[1, 1, 1, 130], [9, 9, 9, 130], [1, 1, 1, 7], [1, 1, 1, 7]];
    let img = picture(4, 1, &quads, HdrHeader::default());
    let bytes = encode_rgbe(&img, RleMode::Old, LineEnding::Lf, &MagicLine::Radiance).unwrap();
    let back = decode_rgbe(&bytes, FallbackMode::OldRle, &HdrLimits::default()).unwrap();
    assert_eq!(back.quads, vec![[0, 1, 1, 130], [9, 9, 9, 130], [0, 1, 1, 7], [0, 1, 1, 7]]);
    let flat = encode_rgbe(&img, RleMode::Uncompressed, LineEnding::Lf, &MagicLine::Radiance).unwrap();
    let back = decode_rgbe(&flat, FallbackMode::Uncompressed, &HdrLimits::default()).unwrap();
    assert_eq!(back.quads, quads);
}

#[test]
fn old_rle_runs_are_written_as_one_sentinel_per_literal() {
    let quads = vec![[5, 6, 7, 8]; 6];
    let img = picture(6, 1, &quads, HdrHeader::default());
    let bytes = encode_rgbe(&img, RleMode::Old, LineEnding::Lf, &MagicLine::Radiance).unwrap();
    let tail = &bytes[bytes.len() - 8..];
    assert_eq!(tail, &[5, 6, 7, 8, 1, 1, 1, 5]);
}

#[test]
fn new_rle_rejects_narrow_on_disk_scanlines() {
    let quads = vec![[128, 0, 0, 129]; 4 * 6];
    let img = picture(4, 6, &quads, HdrHeader::default());
    let err = encode_rgbe(&img, RleMode::New, LineEnding::Lf, &MagicLine::Radiance).unwrap_err();
    assert!(matches!(err, HdrError::Unsupported(_)));
    let bytes = encode_rgbe(&img, RleMode::Auto, LineEnding::Lf, &MagicLine::Radiance).unwrap();
    let back = decode_rgbe(&bytes, FallbackMode::OldRle, &HdrLimits::default()).unwrap();
    assert_eq!(back.quads, quads);
}

#[test]
fn encoder_rejects_mismatched_or_empty_pictures() {
    let img = picture(4, 2, &[[0, 0, 0, 0]; 7], HdrHeader::default());
    let err = encode_rgbe(&img, RleMode::Old, LineEnding::Lf, &MagicLine::Radiance).unwrap_err();
    assert!(matches!(err, HdrError::InvalidData(_)));
    let img = picture(0, 2, &[], HdrHeader::default());
    let err = encode_rgbe(&img, RleMode::Old, LineEnding::Lf, &MagicLine::Radiance).unwrap_err();
    assert!(matches!(err, HdrError::InvalidData(_)));
}

#[test]
fn encoder_writes_the_exact_text_header() {
    let mut header = HdrHeader::default();
    header.commands.push("rpict x".to_owned());
    header.gamma.push("2.2".to_owned());
    header.comments.push("note".to_owned());
    let img = picture(8, 1, &[[0, 0, 0, 0]; 8], header);
    let bytes = encode_rgbe(&img, RleMode::Uncompressed, LineEnding::Crlf, &MagicLine::Rgbe).unwrap();
    let text = b"#?RGBE\r\nrpict x\r\nFORMAT=32-bit_rle_rgbe\r\nGAMMA=2.2\r\n#note\r\n\r\n-Y 1 +X 8\r\n";
    assert_eq!(&bytes[..text.len()], &text[..]);
    assert_eq!(bytes.len(), text.len() + 32);
}

#[test]
fn encoder_writes_x_first_resolution_lines() {
    let mut header = HdrHeader::default();
    header.set_orientation(Orientation::Rotate90Ccw);
    let img = picture(3, 10, &[[0, 0, 0, 0]; 30], header);
    let bytes = encode_rgbe(&img, RleMode::Uncompressed, LineEnding::Lf, &MagicLine::Radiance).unwrap();
    let text = b"#?RADIANCE\nFORMAT=32-bit_rle_rgbe\n\n-X 3 -Y 10\n";
    assert_eq!(&bytes[..text.len()], &text[..]);
}

#[test]
fn preserving_magic_keeps_the_decoded_identifier() {
    let file = b"#?MYTOOL\nFORMAT=32-bit_rle_rgbe\n\n-Y 1 +X 2\n\x10\x20\x30\x80\x11\x21\x31\x81";
    let img = decode_rgbe(file, FallbackMode::OldRle, &HdrLimits::default()).unwrap();
    let bytes = encode_rgbe_preserving_magic(&img, RleMode::Old, LineEnding::Lf).unwrap();
    assert!(bytes.starts_with(b"#?MYTOOL\n"));
    let mut plain = img.clone();
    plain.header.magic_id = None;
    let bytes = encode_rgbe_preserving_magic(&plain, RleMode::Old, LineEnding::Lf).unwrap();
    assert!(bytes.starts_with(b"#?RADIANCE\n"));
}

#[test]
fn decoder_reports_truncated_and_unsupported_files() {
    let truncated = b"#?RADIANCE\n\n-Y 2 +X 8\n\x02\x02\x00\x08\x88\x05";
    let err = decode_rgbe(truncated, FallbackMode::OldRle, &HdrLimits::default()).unwrap_err();
    assert!(matches!(err, HdrError::InvalidData(_)));
    let unknown = b"#?RADIANCE\nFORMAT=16-bit\n\n-Y 1 +X 1\n\x01\x02\x03\x04";
    let err = decode_rgbe(unknown, FallbackMode::OldRle, &HdrLimits::default()).unwrap_err();
    assert!(matches!(err, HdrError::Unsupported(_)));
    let no_blank = b"#?RADIANCE\nFORMAT=32-bit_rle_rgbe\n";
    assert!(matches!(decode_rgbe(no_blank, FallbackMode::OldRle, &HdrLimits::default()), Err(HdrError::InvalidData(_))));
    let bad_res = b"#?RADIANCE\n\n-Y 1 -Y 1\n";
    assert!(matches!(decode_rgbe(bad_res, FallbackMode::OldRle, &HdrLimits::default()), Err(HdrError::InvalidData(_))));
}

#[test]
fn flat_scanlines_read_sentinel_shaped_quads_literally() {
    let file = b"#?RADIANCE\n\n-Y 1 +X 2\n\x01\x01\x01\x03\x05\x06\x07\x08";
    let img = decode_rgbe(file, FallbackMode::Uncompressed, &HdrLimits::default()).unwrap();
    assert_eq!(img.quads, vec![[1, 1, 1, 3], [5, 6, 7, 8]]);
    assert!(decode_rgbe(file, FallbackMode::OldRle, &HdrLimits::default()).is_err());
}

#[test]
fn full_option_matrix_round_trips_typed_header_and_orientation() {
    let (w, h) = (12u32, 9u32);
    let mut rng = Lcg::new(12);
    let quads = normalised_quads(&mut rng, (w * h) as usize);
    let magics = [MagicLine::Radiance, MagicLine::Rgbe];
    let mut cases = 0usize;
    for &rle in &RLE_MODES {
        for &eol in &[LineEnding::Lf, LineEnding::Crlf] {
            for magic in &magics {
                for &orientation in &ORIENTATIONS {
                    for &format in &[HdrFormat::Rgbe, HdrFormat::Xyze] {
                        let mut header = HdrHeader::default();
                        header.format = format;
                        header.set_orientation(orientation);
                        header.exposure = vec!["0.625".to_owned()];
                        header.gamma = vec!["1.5".to_owned()];
                        header.pixaspect = vec!["0.75".to_owned()];
                        header.colorcorr = vec!["0.5 0.25 0.125".to_owned()];
                        header.primaries = vec!["0.625 0.328125 0.296875 0.59375 0.15625 0.0625 0.3125 0.328125".to_owned()];
                        header.software = Some("oxideav-test 1.0".to_string());
                        header.view = Some("rvu -vp 0 0 1 -vd 0 0 -1".to_string());
                        header.commands.push("rpict -vf scene.vp scene.oct".to_string());
                        let img = picture(w, h, &quads, header);
                        let bytes = encode_rgbe(&img, rle, eol, magic).expect("encode must succeed for in-range dims");
                        let back = decode_rgbe(&bytes, fallback_for(rle), &HdrLimits::default())
                            .expect("encoder output must decode");
                        let tag = format!("{rle:?}/{eol:?}/{magic:?}/{orientation:?}/{format:?}");
                        assert_eq!(back.width, w, "{tag}: width");
                        assert_eq!(back.height, h, "{tag}: height");
                        assert_eq!(back.quads.len(), (w * h) as usize, "{tag}: buf len");
                        assert_eq!(back.header.format, format, "{tag}: FORMAT");
                        assert_eq!(back.header.orientation(), orientation, "{tag}: orientation");
                        let num = |v: &Vec<String>, i: usize| -> f32 {
                            v[0].split_whitespace().nth(i).unwrap().parse().unwrap()
                        };
                        let approx = |a: f32, b: f32| (a - b).abs() < 1e-4;
                        assert!(approx(num(&back.header.exposure, 0), 0.625), "{tag}: EXPOSURE");
                        assert!(approx(num(&back.header.gamma, 0), 1.5), "{tag}: GAMMA");
                        assert!(approx(num(&back.header.pixaspect, 0), 0.75), "{tag}: PIXASPECT");
                        assert!(
                            approx(num(&back.header.colorcorr, 0), 0.5)
                                && approx(num(&back.header.colorcorr, 1), 0.25)
                                && approx(num(&back.header.colorcorr, 2), 0.125),
                            "{tag}: COLORCORR"
                        );
                        assert!(approx(num(&back.header.primaries, 0), 0.625), "{tag}: PRIMARIES red.x");
                        assert!(approx(num(&back.header.primaries, 7), 0.328125), "{tag}: PRIMARIES white.y");
                        assert_eq!(back.header.software.as_deref(), Some("oxideav-test 1.0"), "{tag}: SOFTWARE");
                        assert!(
                            back.header.commands.iter().any(|c| c == "rpict -vf scene.vp scene.oct"),
                            "{tag}: command line {:?}",
                            back.header.commands
                        );
                        cases += 1;
                    }
                }
            }
        }
    }
    assert_eq!(cases, 256, "expected the full 256-case matrix");
}
