//! Concrete instances of the library's laws, and edge cases of the text
//! helpers.

use oxideav_hdr::{
    decode_scanline, encode_rgbe, HdrHeader, MagicLine, RgbeImage, RleMode,
    apply_geometric_buf, decode_scanline_with_fallback, encode_scanline_old_rle,
    encode_scanline_uncompressed, has_radiance_magic, merge_view, parse_header, peek_dimensions, read_line,
    trim_cr, FallbackMode, GeometricOp, HdrFormat, LineEnding, Orientation,
};

fn grid(w: usize, h: usize) -> Vec<u32> {
    (0..(w * h) as u32).collect()
}

#[test]
fn transform_then_inverse_restores_every_buffer() {
    let (w, h) = (3usize, 5usize);
    let src = grid(w, h);
    for op in GeometricOp::ALL {
        let mid = apply_geometric_buf(&src, w, h, op);
        let (mw, mh) = if op.swaps_dimensions() { (h, w) } else { (w, h) };
        let back = apply_geometric_buf(&mid, mw, mh, op.inverse());
        assert_eq!(back, src, "{op:?}");
    }
}

#[test]
fn two_passes_equal_the_composite_op() {
    let (w, h) = (4usize, 2usize);
    let src = grid(w, h);
    for a in GeometricOp::ALL {
        for b in GeometricOp::ALL {
            let mid = apply_geometric_buf(&src, w, h, a);
            let (mw, mh) = if a.swaps_dimensions() { (h, w) } else { (w, h) };
            let two = apply_geometric_buf(&mid, mw, mh, b);
            let one = apply_geometric_buf(&src, w, h, a.then(b));
            assert_eq!(two, one, "{a:?} then {b:?}");
        }
    }
}

#[test]
fn rotate_clockwise_moves_the_top_left_pixel_to_the_top_right() {
    let src = grid(3, 2);
    let out = apply_geometric_buf(&src, 3, 2, GeometricOp::Rotate90Cw);
    assert_eq!(out, vec![3, 0, 4, 1, 5, 2]);
    let out = apply_geometric_buf(&src, 3, 2, GeometricOp::Transpose);
    assert_eq!(out, vec![0, 3, 1, 4, 2, 5]);
}

#[test]
fn display_transform_and_axis_fields_are_bijections() {
    for op in GeometricOp::ALL {
        let o = Orientation::from_display_transform(op);
        assert_eq!(o.display_transform(), op);
        let (y, x, xf) = o.to_axis_fields();
        assert_eq!(Orientation::from_axis_fields(y, x, xf), o);
        assert_eq!(o.is_x_first(), op.swaps_dimensions());
    }
}

#[test]
fn old_rle_and_flat_scanlines_read_back() {
    let chans = [vec![1u8, 7, 7, 7, 2], vec![1u8, 8, 8, 8, 2], vec![1u8, 9, 9, 9, 2], vec![3u8, 4, 4, 4, 5]];
    let mut old = Vec::new();
    encode_scanline_old_rle(&chans, 5, &mut old);
    assert_eq!(old, vec![0, 1, 1, 3, 7, 8, 9, 4, 1, 1, 1, 2, 2, 2, 2, 5]);
    let mut pos = 0;
    let mut prev = None;
    let back = decode_scanline_with_fallback(&old, &mut pos, 5, &mut prev, FallbackMode::OldRle).unwrap();
    assert_eq!(back[0], vec![0, 7, 7, 7, 2]);
    assert_eq!(prev, Some([2, 2, 2, 5]));
    assert_eq!(pos, old.len());
    let mut flat = Vec::new();
    encode_scanline_uncompressed(&chans, 5, &mut flat);
    assert_eq!(flat.len(), 20);
    let mut pos = 0;
    let mut prev = None;
    let back = decode_scanline_with_fallback(&flat, &mut pos, 5, &mut prev, FallbackMode::Uncompressed).unwrap();
    assert_eq!(back, chans);
    assert_eq!(prev, Some([2, 2, 2, 5]));
}

#[test]
fn old_rle_sentinel_chains_scale_by_256() {
    let mut line = vec![9u8, 9, 9, 9];
    line.extend_from_slice(&[1, 1, 1, 1, 1, 1, 1, 1]);
    let mut pos = 0;
    let mut prev = None;
    let back = decode_scanline_with_fallback(&line, &mut pos, 258, &mut prev, FallbackMode::OldRle).unwrap();
    assert_eq!(back[0].len(), 258);
    assert!(back[3].iter().all(|&b| b == 9));
    let mut four = vec![9u8, 9, 9, 9];
    four.extend_from_slice(&[1, 1, 1, 0, 1, 1, 1, 0, 1, 1, 1, 0, 1, 1, 1, 0]);
    let mut pos = 0;
    let mut prev = None;
    assert!(decode_scanline_with_fallback(&four, &mut pos, 2, &mut prev, FallbackMode::OldRle).is_err());
    assert_eq!(prev, None);
}

#[test]
fn zero_width_scanlines_are_rejected() {
    let mut pos = 0;
    let mut prev = None;
    assert!(decode_scanline_with_fallback(&[2, 2, 0, 0], &mut pos, 0, &mut prev, FallbackMode::OldRle).is_err());
}

#[test]
fn view_merge_keeps_the_earlier_prefix_when_the_later_has_none() {
    assert_eq!(merge_view("rvu -vp 1 2 3", "-vh 40"), "rvu -vp 1 2 3 -vh 40");
    assert_eq!(merge_view("rvu  -vp 1", "rpict\t-vp 2"), "rpict -vp 2");
    assert_eq!(merge_view("", ""), "");
    assert_eq!(merge_view("-vp 1 -vp 2", "x"), "x -vp 2");
}

#[test]
fn peek_reads_dimensions_after_the_blank_line() {
    assert_eq!(peek_dimensions(b"#?RADIANCE\nFORMAT=32-bit_rle_rgbe\n\n-Y 16 +X 32\n"), Some((32, 16)));
    assert_eq!(peek_dimensions(b"#?RADIANCE\r\n\r\n+X 5 -Y 7\r\n"), Some((5, 7)));
    assert_eq!(peek_dimensions(b"#?RADIANCE\n\n-Y 16 +X\n"), None);
    assert_eq!(peek_dimensions(b"#?RADIANCE\n\n-Y 16 +X 32"), None);
    assert_eq!(peek_dimensions(b"#?RADIANCE\n\n-Y 16 -Y 32\n"), None);
    assert_eq!(peek_dimensions(b"#?RADIANCE\n\n-Y 4294967296 +X 1\n"), None);
}

#[test]
fn magic_probe_matches_both_spellings() {
    assert!(has_radiance_magic(b"#?RADIANCE\n"));
    assert!(has_radiance_magic(b"#?RGBE"));
    assert!(!has_radiance_magic(b"#?RGB"));
    assert!(!has_radiance_magic(b"#?MYTOOL\n"));
}

#[test]
fn line_helpers_edge_cases() {
    let mut c = 5;
    assert_eq!(read_line(b"abc", &mut c), None);
    assert_eq!(c, 5);
    let mut c = 0;
    assert_eq!(read_line(b"\n", &mut c), Some(&b""[..]));
    assert_eq!(c, 1);
    assert_eq!(trim_cr(b"\r\r"), b"\r");
    assert_eq!(trim_cr(b""), b"");
}

#[test]
fn non_utf8_header_text_is_rejected_and_utf8_is_kept() {
    let mut c = 0;
    assert!(parse_header(b"#?\xff\n\n", &mut c).is_err());
    let mut c = 0;
    assert!(parse_header(b"#?RADIANCE\nKEY=\xfe\n\n", &mut c).is_err());
    let mut c = 0;
    let h = parse_header("#?ÉCRIT\nCLÉ=été\n#œ\n\n".as_bytes(), &mut c).unwrap();
    assert_eq!(h.magic_id.as_deref(), Some("ÉCRIT"));
    assert_eq!(h.other, vec![("CLÉ".to_owned(), "été".to_owned())]);
    assert_eq!(h.comments, vec!["œ"]);
    assert_eq!(h.format, HdrFormat::Rgbe);
    assert_eq!(LineEnding::Crlf.as_bytes(), b"\r\n");
    assert_eq!(HdrFormat::Xyze.as_str(), "32-bit_rle_xyze");
}

#[test]
fn line_ending_changes_only_the_text_lines() {
    let quads: Vec<[u8; 4]> = (0..40u32).map(|i| [128 + i as u8, 7, 9, 130]).collect();
    let mut header = HdrHeader::default();
    header.software = Some("w".to_owned());
    let img = RgbeImage { width: 10, height: 4, quads, header };
    for rle in [RleMode::New, RleMode::Old, RleMode::Uncompressed] {
        let lf = encode_rgbe(&img, rle, LineEnding::Lf, &MagicLine::Radiance).unwrap();
        let crlf = encode_rgbe(&img, rle, LineEnding::Crlf, &MagicLine::Radiance).unwrap();
        let text_lf = lf.windows(2).position(|w| w == b"\n\n").unwrap() + 2;
        let text_lf = text_lf + lf[text_lf..].iter().position(|&b| b == b'\n').unwrap() + 1;
        let text_crlf = crlf.windows(4).position(|w| w == b"\r\n\r\n").unwrap() + 4;
        let text_crlf = text_crlf + crlf[text_crlf..].windows(2).position(|w| w == b"\r\n").unwrap() + 2;
        assert_eq!(&lf[text_lf..], &crlf[text_crlf..], "{rle:?}");
        assert!(!lf[..text_lf].contains(&b'\r'));
        let mut widened = Vec::new();
        for &b in &lf[..text_lf] {
            if b == b'\n' {
                widened.push(b'\r');
            }
            widened.push(b);
        }
        assert_eq!(widened, crlf[..text_crlf].to_vec(), "{rle:?}");
    }
}

#[test]
fn decoded_scanlines_hand_on_their_last_pixel() {
    let src = [9u8, 9, 9, 9, 10, 20, 30, 40, 1, 1, 1, 2];
    let mut pos = 0usize;
    let mut prev = None;
    let ch = decode_scanline(&src, &mut pos, 4, &mut prev).unwrap();
    assert!(ch.iter().all(|c| c.len() == 4));
    assert_eq!(pos, src.len());
    assert_eq!(prev, Some([ch[0][3], ch[1][3], ch[2][3], ch[3][3]]));
    assert_eq!(prev, Some([10, 20, 30, 40]));
}
