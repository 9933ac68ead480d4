//! Whole files through the public encoder and decoder: magic line, text
//! records, line endings, resolution-line axis flags and scanline codings,
//! on pictures given as RGBE quads so every pixel comes back bit for bit.

use oxideav_hdr::{
    decode_rgbe, encode_rgbe, AxisSign, FallbackMode, HdrError, HdrHeader, HdrLimits, LineEnding, MagicLine,
    RgbeImage, RleMode,
};

/// A picture whose exponent climbs from the top-left corner to the
/// bottom-right one, each quad normalised (dominant mantissa >= 128).
fn gradient(w: u32, h: u32) -> RgbeImage {
    let mut quads = Vec::with_capacity((w * h) as usize);
    for y in 0..h {
        for x in 0..w {
            let e = 118 + ((x + y) * 20 / (w + h)) as u8;
            let r = 128 + ((x * 127) / w.max(1)) as u8;
            quads.push([r, r / 2, r / 4, e]);
        }
    }
    RgbeImage { width: w, height: h, quads, header: HdrHeader::default() }
}

/// Quads that differ pixel by pixel, in the order `pattern` numbers them.
fn pattern(w: u32, h: u32) -> RgbeImage {
    let mut quads = Vec::with_capacity((w * h) as usize);
    for i in 0..(w * h) {
        quads.push([128 + (i % 128) as u8, (i % 97) as u8, (i % 89) as u8, 120 + (i % 16) as u8]);
    }
    RgbeImage { width: w, height: h, quads, header: HdrHeader::default() }
}

fn encode(img: &RgbeImage) -> Result<Vec<u8>, HdrError> {
    encode_rgbe(img, RleMode::Auto, LineEnding::Lf, &MagicLine::Radiance)
}

fn encode_with_rle(img: &RgbeImage, rle: RleMode) -> Result<Vec<u8>, HdrError> {
    encode_rgbe(img, rle, LineEnding::Lf, &MagicLine::Radiance)
}

fn parse(bytes: &[u8]) -> Result<RgbeImage, HdrError> {
    decode_rgbe(bytes, FallbackMode::OldRle, &HdrLimits::default())
}

fn resolution_line(bytes: &[u8]) -> String {
    let blank = bytes.windows(2).position(|w| w == b"\n\n").unwrap();
    let res_start = blank + 2;
    let res_end = res_start + bytes[res_start..].iter().position(|&b| b == b'\n').unwrap();
    String::from_utf8(bytes[res_start..res_end].to_vec()).unwrap()
}

fn header_text(bytes: &[u8]) -> String {
    let blank = bytes.windows(2).position(|w| w == b"\n\n").unwrap();
    String::from_utf8(bytes[..blank].to_vec()).unwrap()
}

#[test]
fn gradient_self_roundtrip() {
    let src = gradient(32, 16);
    let bytes = encode(&src).unwrap();
    assert!(bytes.starts_with(b"#?RADIANCE\n"));
    let back = parse(&bytes).unwrap();
    assert_eq!(back.width, src.width);
    assert_eq!(back.height, src.height);
    assert_eq!(back.quads, src.quads);
}

#[test]
fn rejects_missing_magic() {
    let bytes = b"NOT A RADIANCE FILE\n\n-Y 10 +X 10\n";
    assert!(parse(bytes).is_err());
}

#[test]
fn rejects_zero_dimensions() {
    let bytes = b"#?RADIANCE\nFORMAT=32-bit_rle_rgbe\n\n-Y 0 +X 8\n";
    assert!(parse(bytes).is_err());
}

#[test]
fn parses_extra_header_records() {
    let mut img = gradient(8, 1);
    img.header.exposure = vec!["0.7".to_owned()];
    img.header.gamma = vec!["2.2".to_owned()];
    img.header.other.push(("OXIDEAV".into(), "round1".into()));
    let bytes = encode(&img).unwrap();
    let back = parse(&bytes).unwrap();
    assert_eq!(back.header.exposure, vec!["0.7"]);
    assert_eq!(back.header.gamma, vec!["2.2"]);
    assert!(back.header.other.iter().any(|(k, v)| k == "OXIDEAV" && v == "round1"));
}

#[test]
fn solid_colour_roundtrips_via_repeat_run() {
    let (w, h) = (64u32, 4u32);
    let quad = [128u8, 64, 25, 128];
    let img = RgbeImage { width: w, height: h, quads: vec![quad; (w * h) as usize], header: HdrHeader::default() };
    let bytes = encode(&img).unwrap();
    let approx_payload = bytes.len() as i64 - 64;
    assert!(approx_payload < 200, "solid-colour payload is {approx_payload} bytes");
    let back = parse(&bytes).unwrap();
    assert_eq!(back.quads, img.quads);
}

#[test]
fn axis_flag_roundtrip_through_default_writer() {
    let img = gradient(8, 4);
    let bytes = encode(&img).unwrap();
    let back = parse(&bytes).unwrap();
    assert_eq!(back.header.y_sign, AxisSign::Decreasing);
    assert_eq!(back.header.x_sign, AxisSign::Increasing);
    assert!(!back.header.x_first);
}

#[test]
fn crlf_encoder_terminates_every_text_line_with_crlf() {
    let img = pattern(16, 4);
    let bytes = encode_rgbe(&img, RleMode::New, LineEnding::Crlf, &MagicLine::Radiance).unwrap();
    assert!(bytes.starts_with(b"#?RADIANCE\r\n"));
    let after_magic = &bytes[b"#?RADIANCE\r\n".len()..];
    assert!(after_magic.starts_with(b"FORMAT="));
    let blank_pos = bytes.windows(4).position(|w| w == b"\r\n\r\n").expect("CRLF blank terminator missing");
    let resline_start = blank_pos + 4;
    let resline_end = resline_start
        + bytes[resline_start..].windows(2).position(|w| w == b"\r\n").expect("CRLF resolution-line terminator missing");
    let resline = std::str::from_utf8(&bytes[resline_start..resline_end]).unwrap();
    assert!(resline.starts_with("-Y ") || resline.starts_with("+Y "), "unexpected resolution line: {resline:?}");
    let back = parse(&bytes).unwrap();
    assert_eq!(back.width, 16);
    assert_eq!(back.height, 4);
}

#[test]
fn lf_encoder_produces_no_carriage_returns_in_text_section() {
    let img = pattern(16, 2);
    let bytes = encode_rgbe(&img, RleMode::New, LineEnding::Lf, &MagicLine::Radiance).unwrap();
    let blank_pos = bytes.windows(2).position(|w| w == b"\n\n").expect("LF blank terminator missing");
    let resline_end = blank_pos + 2 + bytes[blank_pos + 2..].iter().position(|&b| b == b'\n').unwrap();
    assert!(!bytes[..=resline_end].contains(&b'\r'), "LF encoder leaked a carriage return into the text section");
}

#[test]
fn view_record_round_trips_through_encoder_and_decoder() {
    let mut img = pattern(16, 2);
    img.header.view = Some("rvu -vp 0 0 10 -vd 0 0 -1 -vu 0 1 0".to_owned());
    let bytes = encode(&img).unwrap();
    let head = header_text(&bytes);
    assert!(head.contains("VIEW=rvu -vp 0 0 10 -vd 0 0 -1 -vu 0 1 0"), "VIEW record missing: {head:?}");
    let back = parse(&bytes).unwrap();
    assert_eq!(back.header.view.as_deref(), Some("rvu -vp 0 0 10 -vd 0 0 -1 -vu 0 1 0"));
}

#[test]
fn crlf_round_trips_all_typed_header_records() {
    let mut img = pattern(16, 2);
    img.header.exposure = vec!["2".to_owned()];
    img.header.gamma = vec!["1".to_owned()];
    img.header.software = Some("oxideav-hdr/crlf".to_owned());
    img.header.view = Some("rvu -vp 0 0 5".to_owned());
    img.header.colorcorr = vec!["1.1 1 0.9".to_owned()];
    img.header.pixaspect = vec!["1".to_owned()];
    let bytes = encode_rgbe(&img, RleMode::New, LineEnding::Crlf, &MagicLine::Radiance).unwrap();
    let back = parse(&bytes).unwrap();
    assert_eq!(back.header.exposure, vec!["2"]);
    assert_eq!(back.header.gamma, vec!["1"]);
    assert_eq!(back.header.software.as_deref(), Some("oxideav-hdr/crlf"));
    assert_eq!(back.header.view.as_deref(), Some("rvu -vp 0 0 5"));
    assert_eq!(back.header.colorcorr, vec!["1.1 1 0.9"]);
    assert_eq!(back.header.pixaspect, vec!["1"]);
}

#[test]
fn public_api_roundtrips_gradient() {
    let src = gradient(48, 24);
    let bytes = encode(&src).unwrap();
    let back = parse(&bytes).unwrap();
    assert_eq!(back.width, 48);
    assert_eq!(back.height, 24);
    assert_eq!(back.quads.len(), 48 * 24);
    assert_eq!(back.quads[0], src.quads[0]);
    assert_eq!(back.quads[48 * 24 - 1], src.quads[48 * 24 - 1]);
    assert!(back.quads[48 * 24 - 1][3] > back.quads[0][3]);
}

#[test]
fn header_records_passthrough() {
    let mut src = gradient(16, 8);
    src.header.exposure = vec!["1.5".to_owned()];
    src.header.gamma = vec!["2.4".to_owned()];
    src.header.software = Some("oxideav-hdr round 1 selftest".to_owned());
    src.header.colorcorr = vec!["1.1 0.95 0.8".to_owned()];
    src.header.primaries = vec!["0.64 0.33 0.3 0.6 0.15 0.06 0.3127 0.329".to_owned()];
    let bytes = encode(&src).unwrap();
    let head = header_text(&bytes);
    assert!(head.contains("EXPOSURE="));
    assert!(head.contains("GAMMA="));
    assert!(head.contains("SOFTWARE=oxideav-hdr round 1 selftest"));
    assert!(head.contains("COLORCORR=1.1 0.95 0.8"));
    assert!(head.contains("PRIMARIES=0.64 0.33"));
    let back = parse(&bytes).unwrap();
    assert_eq!(back.header.exposure, vec!["1.5"]);
    assert_eq!(back.header.gamma, vec!["2.4"]);
    assert_eq!(back.header.software.as_deref(), Some("oxideav-hdr round 1 selftest"));
    assert_eq!(back.header.colorcorr, vec!["1.1 0.95 0.8"]);
    let p: Vec<f32> = back.header.primaries[0].split_whitespace().map(|t| t.parse().unwrap()).collect();
    assert!((p[0] - 0.640).abs() < 1e-4);
    assert!((p[6] - 0.3127).abs() < 1e-4);
}

#[test]
fn encoder_honours_increasing_y_flag() {
    let (w, h) = (16u32, 8u32);
    let mut quads = vec![[140u8, 140, 140, 124]; (w * h) as usize];
    quads[0] = [160, 0, 0, 131];
    let mut src = RgbeImage { width: w, height: h, quads, header: HdrHeader::default() };
    src.header.y_sign = AxisSign::Increasing;
    let bytes = encode(&src).unwrap();
    let resline = resolution_line(&bytes);
    assert!(resline.starts_with("+Y "), "expected +Y H ... but got: {resline:?}");
    let back = parse(&bytes).unwrap();
    assert_eq!(back.quads[0], [160, 0, 0, 131], "lost top-left marker");
    assert_eq!(back.quads, src.quads);
}

#[test]
fn encoder_writes_x_first_resolution_line_when_requested() {
    let (w, h) = (16u32, 8u32);
    let mut quads = vec![[140u8, 140, 140, 124]; (w * h) as usize];
    quads[0] = [224, 0, 0, 131];
    let last = quads.len() - 1;
    quads[last] = [0, 144, 0, 132];
    let mut src = RgbeImage { width: w, height: h, quads, header: HdrHeader::default() };
    src.header.x_first = true;
    let bytes = encode(&src).unwrap();
    let resline = resolution_line(&bytes);
    assert!(resline.starts_with("-X ") || resline.starts_with("+X "), "expected X-first line, got: {resline:?}");
    assert!(
        resline.contains(&format!(" {w} ")) && resline.ends_with(&format!(" {h}")),
        "expected '... {w} ... {h}', got: {resline:?}"
    );
    let back = parse(&bytes).unwrap();
    assert_eq!(back.width, w);
    assert_eq!(back.height, h);
    assert!(back.header.x_first);
    assert_eq!(back.quads[0], [224, 0, 0, 131], "top-left pixel lost across x_first round-trip");
    assert_eq!(back.quads[last], [0, 144, 0, 132], "bottom-right pixel lost across x_first round-trip");
}

#[test]
fn encoder_round_trips_all_eight_axis_orderings() {
    let (w, h) = (16u32, 8u32);
    let mut quads = Vec::with_capacity((w * h) as usize);
    for y in 0..h {
        for x in 0..w {
            quads.push([128 + (y * 16 + x) as u8 / 2, y as u8, x as u8, 120 + y as u8]);
        }
    }
    for &x_first in &[false, true] {
        for &y_sign in &[AxisSign::Decreasing, AxisSign::Increasing] {
            for &x_sign in &[AxisSign::Increasing, AxisSign::Decreasing] {
                let mut img = RgbeImage { width: w, height: h, quads: quads.clone(), header: HdrHeader::default() };
                img.header.x_first = x_first;
                img.header.y_sign = y_sign;
                img.header.x_sign = x_sign;
                let bytes = encode(&img)
                    .unwrap_or_else(|e| panic!("encode failed: {y_sign:?} {x_sign:?} x_first={x_first} -> {e:?}"));
                let back = parse(&bytes).unwrap();
                assert_eq!(back.width, w);
                assert_eq!(back.height, h);
                assert_eq!(back.header.x_first, x_first);
                assert_eq!(back.header.y_sign, y_sign);
                assert_eq!(back.header.x_sign, x_sign);
                assert_eq!(back.quads, quads, "axis {y_sign:?} {x_sign:?} x_first={x_first}");
            }
        }
    }
}

#[test]
fn rle_mode_auto_falls_back_to_old_for_narrow_widths() {
    let (w, h) = (4u32, 6u32);
    let src = RgbeImage { width: w, height: h, quads: vec![[128, 128, 128, 128]; (w * h) as usize], header: HdrHeader::default() };
    assert!(encode_with_rle(&src, RleMode::New).is_err());
    let bytes = encode_with_rle(&src, RleMode::Auto).unwrap();
    let back = parse(&bytes).unwrap();
    assert_eq!(back.width, w);
    assert_eq!(back.height, h);
    assert_eq!(back.quads, src.quads);
}

#[test]
fn crlf_line_ending_roundtrips_via_public_api() {
    let mut src = pattern(16, 4);
    src.header.software = Some("oxideav-hdr/round5-crlf".to_owned());
    let bytes = encode_rgbe(&src, RleMode::New, LineEnding::Crlf, &MagicLine::Radiance).unwrap();
    assert!(bytes.starts_with(b"#?RADIANCE\r\n"));
    assert!(bytes.windows(4).any(|w| w == b"\r\n\r\n"));
    let back = parse(&bytes).unwrap();
    assert_eq!(back.width, 16);
    assert_eq!(back.height, 4);
    assert_eq!(back.header.software.as_deref(), Some("oxideav-hdr/round5-crlf"));
    assert_eq!(back.quads, src.quads);
}

#[test]
fn view_record_round_trips_via_public_api() {
    let mut src = RgbeImage { width: 16, height: 2, quads: vec![[128, 128, 128, 128]; 32], header: HdrHeader::default() };
    let view = "rpict -vp 1 2 3 -vd 0 0 -1 -vu 0 1 0 -vh 60 -vv 40";
    src.header.view = Some(view.to_owned());
    let bytes = encode(&src).unwrap();
    let back = parse(&bytes).unwrap();
    assert_eq!(back.header.view.as_deref(), Some(view));
}

#[test]
fn uncompressed_rle_roundtrips_narrow_image_through_public_api() {
    let (w, h) = (4u32, 3u32);
    let src = pattern(w, h);
    let bytes = encode_with_rle(&src, RleMode::Uncompressed).unwrap();
    let blank = bytes.windows(2).position(|w| w == b"\n\n").unwrap();
    let res_end = blank + 2 + bytes[blank + 2..].iter().position(|&b| b == b'\n').unwrap();
    let payload_len = bytes.len() - (res_end + 1);
    assert_eq!(payload_len, (w * h * 4) as usize);
    let back = decode_rgbe(&bytes, FallbackMode::Uncompressed, &HdrLimits::default()).unwrap();
    assert_eq!(back.width, w);
    assert_eq!(back.height, h);
    assert_eq!(back.quads, src.quads);
}

#[test]
fn rle_mode_auto_uses_new_for_normal_widths() {
    let (w, h) = (32u32, 4u32);
    let src = RgbeImage { width: w, height: h, quads: vec![[154, 154, 154, 127]; (w * h) as usize], header: HdrHeader::default() };
    let bytes = encode_with_rle(&src, RleMode::Auto).unwrap();
    let blank = bytes.windows(2).position(|w| w == b"\n\n").unwrap();
    let res_start = blank + 2;
    let res_end = res_start + bytes[res_start..].iter().position(|&b| b == b'\n').unwrap();
    let payload_start = res_end + 1;
    assert_eq!(&bytes[payload_start..payload_start + 2], &[0x02, 0x02]);
}
