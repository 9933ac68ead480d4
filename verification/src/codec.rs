//! Whole pictures at the byte level: a header, a resolution line and the
//! scanlines of RGBE quads, read and written.
//!
//! The pixel buffer of an [`RgbeImage`] holds the upright picture in
//! row-major order, top row first. On disk the scanlines follow the
//! resolution line's axis flags; the codec moves between the two with the
//! symmetry [`disk_op`] names.

use vstd::prelude::*;
use crate::error::HdrError;
use crate::limits::HdrLimits;
use crate::geometry::{AxisSign, GeometricOp, Orientation, inverse_op, axis_fields_of, display_op_of};
use crate::image::{apply_geometric_buf, transformed, op_dims, at, lemma_transformed};
use crate::header::{
    HdrHeader, HeaderView, LineEnding, MagicLine, Fault, fault_of, header_spec, resolution_at,
    header_bytes, resolution_bytes, magic_chars, parse_header, parse_resolution, write_header,
    write_resolution,
};
use crate::rle::{
    FallbackMode, scanline, scanline_msg, channels_hold, channel_of, new_rle_line, old_rle_encode, flat_bytes, zip4,
    new_rle_width, decode_scanline_with_fallback, encode_scanline, encode_scanline_old_rle,
    encode_scanline_uncompressed,
};

verus! {

/// The scanline coding the encoder writes.
#[derive(Debug, Clone, Copy, PartialEq, Eq, Structural)]
pub enum RleMode {
    /// New RLE; the on-disk scanline width must be in `8..=32767`.
    New,
    /// Old RLE: literals and `(1, 1, 1, n)` run sentinels; any width.
    Old,
    /// New RLE when the on-disk scanline width allows it, else old RLE.
    Auto,
    /// Flat `4 * width` bytes per scanline.
    Uncompressed,
}

/// A picture as RGBE quads: `width * height` of them, upright, row-major,
/// top row first.
#[derive(Debug, Clone, PartialEq)]
pub struct RgbeImage {
    pub width: u32,
    pub height: u32,
    pub quads: Vec<[u8; 4]>,
    pub header: HdrHeader,
}

/// The symmetry that carries the upright picture onto the on-disk scanline
/// order of a file with these axis fields: a `+Y` flag reverses the rows, a
/// `-X` flag reverses the columns, and X listed first makes each on-disk
/// scanline a column.
pub open spec fn disk_op(ys: AxisSign, xs: AxisSign, xf: bool) -> GeometricOp {
    let flip_y = ys == AxisSign::Increasing;
    let flip_x = xs == AxisSign::Decreasing;
    if xf {
        if !flip_x && !flip_y {
            GeometricOp::Transpose
        } else if !flip_x && flip_y {
            GeometricOp::Rotate90Cw
        } else if flip_x && !flip_y {
            GeometricOp::Rotate90Ccw
        } else {
            GeometricOp::AntiTranspose
        }
    } else {
        if !flip_x && !flip_y {
            GeometricOp::Identity
        } else if flip_x && !flip_y {
            GeometricOp::FlipHorizontal
        } else if !flip_x && flip_y {
            GeometricOp::FlipVertical
        } else {
            GeometricOp::Rotate180
        }
    }
}

/// The symmetry [`disk_op`] names for the header's axis fields.
pub fn disk_transform(header: &HdrHeader) -> (op: GeometricOp)
    ensures
        op == disk_op(header.y_sign, header.x_sign, header.x_first),
{
    let flip_y = header.y_sign == AxisSign::Increasing;
    let flip_x = header.x_sign == AxisSign::Decreasing;
    if header.x_first {
        if !flip_x && !flip_y {
            GeometricOp::Transpose
        } else if !flip_x && flip_y {
            GeometricOp::Rotate90Cw
        } else if flip_x && !flip_y {
            GeometricOp::Rotate90Ccw
        } else {
            GeometricOp::AntiTranspose
        }
    } else {
        if !flip_x && !flip_y {
            GeometricOp::Identity
        } else if flip_x && !flip_y {
            GeometricOp::FlipHorizontal
        } else if !flip_x && flip_y {
            GeometricOp::FlipVertical
        } else {
            GeometricOp::Rotate180
        }
    }
}

/// `k` scanlines of `w` pixels from `pos`: the position after them and
/// their pixels, the first scanline repeating nothing and each later one
/// able to repeat the last pixel of the one before.
pub open spec fn rows(s: Seq<u8>, pos: int, w: nat, k: nat, prev: Option<[u8; 4]>, fallback: FallbackMode) -> Option<(int, Seq<[u8; 4]>)>
    decreases k,
{
    if k == 0 {
        Some((pos, Seq::empty()))
    } else {
        match scanline(s, pos, w, prev, fallback) {
            None => None,
            Some((p, px, last)) => match rows(s, p, w, (k - 1) as nat, last, fallback) {
                None => None,
                Some((q, rest)) => Some((q, px + rest)),
            },
        }
    }
}

/// The message the decoder gives when [`rows`] fails: that of the first
/// scanline that fails.
pub open spec fn rows_msg(s: Seq<u8>, pos: int, w: nat, k: nat, prev: Option<[u8; 4]>, fallback: FallbackMode) -> Seq<char>
    decreases k,
{
    if k == 0 {
        Seq::empty()
    } else {
        match scanline(s, pos, w, prev, fallback) {
            None => scanline_msg(s, pos, w, prev, fallback),
            Some((p, _, last)) => rows_msg(s, p, w, (k - 1) as nat, last, fallback),
        }
    }
}

/// A decoded picture: header, width, height, upright quads.
pub type PictureView = (HeaderView, nat, nat, Seq<[u8; 4]>);

/// What a file decodes to: the header, then the resolution line checked
/// against the limits (its axis fields replace the header's), then the
/// scanlines, turned upright.
pub open spec fn decode_spec(input: Seq<u8>, fallback: FallbackMode, limits: HdrLimits) -> Result<PictureView, Fault> {
    match header_spec(input, 0) {
        Err(f) => Err(f),
        Ok((hv, p1)) => match resolution_at(input, p1, limits) {
            Err(f) => Err(f),
            Ok((r, p2)) => {
                let hv2 = HeaderView { y_sign: r.2, x_sign: r.3, x_first: r.4, ..hv };
                let len: nat = if r.4 { r.1 } else { r.0 };
                let count: nat = if r.4 { r.0 } else { r.1 };
                match rows(input, p2, len, count, None, fallback) {
                    None => Err(Fault::Invalid(rows_msg(input, p2, len, count, None, fallback))),
                    Some((_, disk)) => Ok((
                        hv2,
                        r.0,
                        r.1,
                        transformed(disk, len as int, count as int, inverse_op(disk_op(r.2, r.3, r.4))),
                    )),
                }
            },
        },
    }
}

/// Decoded scanlines hold exactly `w * k` pixels.
pub proof fn lemma_rows_len(s: Seq<u8>, pos: int, w: nat, k: nat, prev: Option<[u8; 4]>, fallback: FallbackMode)
    ensures
        rows(s, pos, w, k, prev, fallback) matches Some((q, px)) ==> px.len() == w * k,
    decreases k,
{
    if k == 0 {
        assert(w * k == 0) by (nonlinear_arith)
            requires
                k == 0,
        ;
    } else {
        crate::rle::lemma_scanline_len(s, pos, w, prev, fallback);
        match scanline(s, pos, w, prev, fallback) {
            Some((p, px, last)) => {
                lemma_rows_len(s, p, w, (k - 1) as nat, last, fallback);
                assert(w * k == w + w * (k - 1)) by (nonlinear_arith)
                    requires
                        k > 0,
                ;
            },
            None => {},
        }
    }
}

proof fn lemma_push_quads(px: Seq<[u8; 4]>, ch: [Vec<u8>; 4], x: int)
    requires
        channels_hold(ch, px),
        0 <= x < px.len(),
    ensures
        [ch[0]@[x], ch[1]@[x], ch[2]@[x], ch[3]@[x]] == px[x],
{
    assert([ch[0]@[x], ch[1]@[x], ch[2]@[x], ch[3]@[x]] =~= px[x]);
}

/// Decode `count` scanlines of `len` pixels each, in on-disk order.
fn decode_pixel_rows(input: &[u8], cursor: &mut usize, len: usize, count: usize, fallback: FallbackMode) -> (r: Result<Vec<[u8; 4]>, HdrError>)
    ensures
        match rows(input@, *old(cursor) as int, len as nat, count as nat, None, fallback) {
            Some((_, px)) => r matches Ok(v) && v@ == px,
            None => r matches Err(HdrError::InvalidData(m))
                && m@ == rows_msg(input@, *old(cursor) as int, len as nat, count as nat, None, fallback),
        },
{
    let ghost start = *cursor as int;
    let mut out: Vec<[u8; 4]> = Vec::new();
    let mut prev: Option<[u8; 4]> = None;
    let mut y: usize = 0;
    while y < count
        invariant
            y <= count,
            start == *old(cursor) as int,
            match rows(input@, start, len as nat, count as nat, None, fallback) {
                Some((q, px)) => match rows(input@, *cursor as int, len as nat, (count - y) as nat, prev, fallback) {
                    Some((q2, rest)) => q2 == q && px == out@ + rest,
                    None => false,
                },
                None => rows(input@, *cursor as int, len as nat, (count - y) as nat, prev, fallback) is None,
            },
            rows_msg(input@, start, len as nat, count as nat, None, fallback) == rows_msg(
                input@,
                *cursor as int,
                len as nat,
                (count - y) as nat,
                prev,
                fallback,
            ),
        decreases count - y,
    {
        let ghost pos = *cursor as int;
        let ghost pv = prev;
        let ch = match decode_scanline_with_fallback(input, cursor, len, &mut prev, fallback) {
            Ok(c) => c,
            Err(e) => {
                return Err(e);
            },
        };
        let ghost sl = scanline(input@, pos, len as nat, pv, fallback);
        proof {
            crate::rle::lemma_scanline_len(input@, pos, len as nat, pv, fallback);
        }
        let ghost line_px = sl.unwrap().1;
        let ghost o = out@;
        let mut x: usize = 0;
        while x < len
            invariant
                x <= len,
                line_px.len() == len,
                channels_hold(ch, line_px),
                out@ == o + line_px.take(x as int),
            decreases len - x,
        {
            proof {
                lemma_push_quads(line_px, ch, x as int);
            }
            out.push([ch[0][x], ch[1][x], ch[2][x], ch[3][x]]);
            assert(out@ =~= o + line_px.take(x + 1));
            x = x + 1;
        }
        assert(line_px.take(len as int) =~= line_px);
        proof {
            let rr = rows(input@, *cursor as int, len as nat, (count - y - 1) as nat, prev, fallback);
            if rr is Some {
                assert(o + (line_px + rr.unwrap().1) =~= out@ + rr.unwrap().1);
            }
        }
        y = y + 1;
    }
    assert(out@ + Seq::<[u8; 4]>::empty() =~= out@);
    Ok(out)
}

/// Turn decoded scanlines (`count` of `len` pixels, in on-disk order) into
/// the upright picture the header's axis fields describe.
fn reorder_for_axis_flags(disk: &Vec<[u8; 4]>, len: usize, count: usize, header: &HdrHeader) -> (out: Vec<[u8; 4]>)
    requires
        disk@.len() == len * count,
    ensures
        out@ == transformed(
            disk@,
            len as int,
            count as int,
            inverse_op(disk_op(header.y_sign, header.x_sign, header.x_first)),
        ),
{
    let op = disk_transform(header).inverse();
    apply_geometric_buf(disk, len, count, op)
}

/// Decode a whole file into RGBE quads, reading a scanline without the
/// new-RLE marker as `fallback` says and checking the resolution line
/// against `limits` before any pixel is read.
pub fn decode_rgbe(input: &[u8], fallback: FallbackMode, limits: &HdrLimits) -> (r: Result<RgbeImage, HdrError>)
    ensures
        match decode_spec(input@, fallback, *limits) {
            Ok((hv, w, h, q)) => r matches Ok(img) && img.header@ == hv && img.width == w && img.height == h
                && img.quads@ == q,
            Err(f) => r matches Err(e) && fault_of(e) == f,
        },
{
    let mut cursor: usize = 0;
    let mut header = parse_header(input, &mut cursor)?;
    let (width, height) = parse_resolution(input, &mut cursor, &mut header, limits)?;
    let (len, count) = if header.x_first {
        (height, width)
    } else {
        (width, height)
    };
    let ghost c0 = cursor as int;
    proof {
        lemma_rows_len(input@, c0, len as nat, count as nat, None, fallback);
    }
    let disk = decode_pixel_rows(input, &mut cursor, len, count, fallback)?;
    let quads = reorder_for_axis_flags(&disk, len, count, &header);
    Ok(RgbeImage { width: width as u32, height: height as u32, quads, header })
}

/// The coding actually used: `Auto` becomes new RLE when the on-disk
/// scanline width `ow` allows it, else old RLE.
pub open spec fn effective_rle(rle: RleMode, ow: nat) -> RleMode {
    match rle {
        RleMode::Auto => if new_rle_width(ow as int) {
            RleMode::New
        } else {
            RleMode::Old
        },
        m => m,
    }
}

/// The bytes of one scanline in a coding.
pub open spec fn line_bytes(px: Seq<[u8; 4]>, mode: RleMode) -> Seq<u8> {
    match mode {
        RleMode::New => new_rle_line(px),
        RleMode::Uncompressed => flat_bytes(px),
        _ => old_rle_encode(px),
    }
}

/// Scanline `r` of an on-disk picture `ow` pixels wide.
pub open spec fn disk_row(disk: Seq<[u8; 4]>, ow: nat, r: int) -> Seq<[u8; 4]> {
    disk.subrange(r * ow, (r + 1) * ow)
}

/// The first `k` scanlines, coded.
pub open spec fn rows_bytes(disk: Seq<[u8; 4]>, ow: nat, k: nat, mode: RleMode) -> Seq<u8>
    decreases k,
{
    if k == 0 {
        Seq::empty()
    } else {
        rows_bytes(disk, ow, (k - 1) as nat, mode) + line_bytes(disk_row(disk, ow, k - 1), mode)
    }
}

/// What the encoder writes for a picture, or the error it reports: the
/// quads must number `width * height`, both non-zero, and new RLE needs an
/// on-disk scanline width in `8..=32767`.
pub open spec fn encode_spec(p: PictureView, rle: RleMode, eol: LineEnding, magic: Seq<char>) -> Result<Seq<u8>, Fault> {
    let (hv, w, h, q) = p;
    if q.len() != w * h {
        Err(Fault::Invalid("HDR encoder: pixels length doesn't match width*height"@))
    } else if w == 0 || h == 0 {
        Err(Fault::Invalid("HDR encoder: zero dimension"@))
    } else {
        let op = disk_op(hv.y_sign, hv.x_sign, hv.x_first);
        let ow = op_dims(op, w as int, h as int).0 as nat;
        let oh = op_dims(op, w as int, h as int).1 as nat;
        let mode = effective_rle(rle, ow);
        if mode == RleMode::New && !new_rle_width(ow as int) {
            Err(Fault::Unsupported(
                "HDR encoder: on-disk scanline width "@ + crate::text::dec_chars(ow)
                    + " outside supported new-RLE range 8..=32767 (try RleMode::Old or RleMode::Auto)"@,
            ))
        } else {
            Ok(header_bytes(hv, magic, eol) + resolution_bytes(ow, oh, hv, eol) + rows_bytes(
                transformed(q, w as int, h as int, op),
                ow,
                oh,
                mode,
            ))
        }
    }
}

/// The view of a picture.
pub open spec fn picture_view(img: RgbeImage) -> PictureView {
    (img.header@, img.width as nat, img.height as nat, img.quads@)
}

fn row_channels(disk: &Vec<[u8; 4]>, start: usize, ow: usize) -> (ch: [Vec<u8>; 4])
    requires
        start + ow <= disk@.len(),
    ensures
        ch[0]@.len() == ow,
        ch[1]@.len() == ow,
        ch[2]@.len() == ow,
        ch[3]@.len() == ow,
        zip4(ch[0]@, ch[1]@, ch[2]@, ch[3]@) == disk@.subrange(start as int, start + ow),
{
    let mut r: Vec<u8> = Vec::new();
    let mut g: Vec<u8> = Vec::new();
    let mut b: Vec<u8> = Vec::new();
    let mut e: Vec<u8> = Vec::new();
    let mut x: usize = 0;
    let n = disk.len();
    while x < ow
        invariant
            n == disk@.len(),
            start + ow <= disk@.len(),
            x <= ow,
            r@.len() == x,
            g@.len() == x,
            b@.len() == x,
            e@.len() == x,
            forall|k: int| 0 <= k < x ==> #[trigger] r@[k] == disk@[start + k][0] && g@[k] == disk@[start + k][1]
                && b@[k] == disk@[start + k][2] && e@[k] == disk@[start + k][3],
        decreases ow - x,
    {
        let q = disk[start + x];
        r.push(q[0]);
        g.push(q[1]);
        b.push(q[2]);
        e.push(q[3]);
        x = x + 1;
    }
    let ghost z = zip4(r@, g@, b@, e@);
    assert forall|k: int| 0 <= k < ow implies z[k] == disk@.subrange(start as int, start + ow)[k] by {
        assert(r@[k] == disk@[start + k][0]);
        assert(z[k] =~= disk@[start + k]);
    }
    assert(z =~= disk@.subrange(start as int, start + ow));
    [r, g, b, e]
}

/// Code `oh` on-disk scanlines of `ow` pixels each.
fn write_pixel_rows(out: &mut Vec<u8>, disk: &Vec<[u8; 4]>, ow: usize, oh: usize, mode: RleMode)
    requires
        disk@.len() == ow * oh,
        mode != RleMode::Auto,
        mode == RleMode::New ==> new_rle_width(ow as int),
    ensures
        final(out)@ == old(out)@ + rows_bytes(disk@, ow as nat, oh as nat, mode),
{
    let ghost o = out@;
    let mut y: usize = 0;
    let n = disk.len();
    while y < oh
        invariant
            n == disk@.len(),
            disk@.len() == ow * oh,
            mode != RleMode::Auto,
            mode == RleMode::New ==> new_rle_width(ow as int),
            y <= oh,
            out@ == o + rows_bytes(disk@, ow as nat, y as nat, mode),
        decreases oh - y,
    {
        proof {
            assert((y + 1) * ow <= ow * oh) by (nonlinear_arith)
                requires
                    y < oh,
            ;
            assert((y + 1) * ow == y * ow + ow) by (nonlinear_arith);
        }
        let start = y * ow;
        let ch = row_channels(disk, start, ow);
        let ghost row = disk_row(disk@, ow as nat, y as int);
        assert(row == disk@.subrange(start as int, start + ow));
        let ghost before = out@;
        match mode {
            RleMode::New => {
                let r = encode_scanline(&ch, ow, out);
                proof {
                    lemma_channels_of_zip(row, ch[0]@, ch[1]@, ch[2]@, ch[3]@);
                }
            },
            RleMode::Uncompressed => {
                encode_scanline_uncompressed(&ch, ow, out);
            },
            _ => {
                encode_scanline_old_rle(&ch, ow, out);
            },
        }
        assert(out@ == before + line_bytes(row, mode));
        y = y + 1;
    }
}

proof fn lemma_channels_of_zip(px: Seq<[u8; 4]>, r: Seq<u8>, g: Seq<u8>, b: Seq<u8>, e: Seq<u8>)
    requires
        r.len() == px.len(),
        g.len() == px.len(),
        b.len() == px.len(),
        e.len() == px.len(),
        zip4(r, g, b, e) == px,
    ensures
        channel_of(px, 0) == r,
        channel_of(px, 1) == g,
        channel_of(px, 2) == b,
        channel_of(px, 3) == e,
{
    assert forall|k: int| 0 <= k < px.len() implies channel_of(px, 0)[k] == r[k] && channel_of(px, 1)[k] == g[k]
        && channel_of(px, 2)[k] == b[k] && channel_of(px, 3)[k] == e[k] by {
        assert(px[k] == zip4(r, g, b, e)[k]);
    }
    assert(channel_of(px, 0) =~= r);
    assert(channel_of(px, 1) =~= g);
    assert(channel_of(px, 2) =~= b);
    assert(channel_of(px, 3) =~= e);
}

/// The on-disk width and height of an upright `w × h` picture and its
/// pixels in on-disk scanline order, as the header's axis fields say.
fn reorient_for_axis_flags(quads: &Vec<[u8; 4]>, w: usize, h: usize, header: &HdrHeader) -> (r: (usize, usize, Vec<[u8; 4]>))
    requires
        quads@.len() == w * h,
    ensures
        r.0 == op_dims(disk_op(header.y_sign, header.x_sign, header.x_first), w as int, h as int).0,
        r.1 == op_dims(disk_op(header.y_sign, header.x_sign, header.x_first), w as int, h as int).1,
        r.0 * r.1 == w * h,
        r.2@ == transformed(quads@, w as int, h as int, disk_op(header.y_sign, header.x_sign, header.x_first)),
{
    let op = disk_transform(header);
    let (ow, oh) = if op.swaps_dimensions() {
        (h, w)
    } else {
        (w, h)
    };
    proof {
        assert(ow * oh == w * h) by (nonlinear_arith)
            requires
                (ow == w && oh == h) || (ow == h && oh == w),
        ;
    }
    (ow, oh, apply_geometric_buf(quads, w, h, op))
}

/// Encode a picture: the header (magic line with identifier `magic`), the
/// resolution line of its axis fields, then its scanlines in on-disk order,
/// coded as `rle` says.
pub fn encode_rgbe(img: &RgbeImage, rle: RleMode, eol: LineEnding, magic: &MagicLine) -> (r: Result<Vec<u8>, HdrError>)
    ensures
        match encode_spec(picture_view(*img), rle, eol, magic_chars(*magic)) {
            Ok(bytes) => r matches Ok(v) && v@ == bytes,
            Err(f) => r matches Err(e) && fault_of(e) == f,
        },
{
    let w = img.width as usize;
    let h = img.height as usize;
    let qlen = img.quads.len();
    let n = match w.checked_mul(h) {
        Some(n) => n,
        None => {
            return Err(HdrError::invalid("HDR encoder: pixels length doesn't match width*height"));
        },
    };
    if qlen != n {
        return Err(HdrError::invalid("HDR encoder: pixels length doesn't match width*height"));
    }
    if w == 0 || h == 0 {
        return Err(HdrError::invalid("HDR encoder: zero dimension"));
    }
    let (ow, oh, disk) = reorient_for_axis_flags(&img.quads, w, h, &img.header);
    let new_ok = 8 <= ow && ow <= 32767;
    let mode = match rle {
        RleMode::Auto => if new_ok {
            RleMode::New
        } else {
            RleMode::Old
        },
        m => m,
    };
    if mode == RleMode::New && !new_ok {
        let mut m: Vec<char> = Vec::new();
        crate::text::push_str_chars(&mut m, "HDR encoder: on-disk scanline width ");
        crate::text::push_decimal_chars(&mut m, ow as u64);
        crate::text::push_str_chars(&mut m, " outside supported new-RLE range 8..=32767 (try RleMode::Old or RleMode::Auto)");
        return Err(HdrError::Unsupported(crate::text::string_from_chars(&m)));
    }
    let mut out: Vec<u8> = Vec::new();
    write_header(&mut out, &img.header, eol, magic);
    write_resolution(&mut out, ow, oh, &img.header, eol);
    write_pixel_rows(&mut out, &disk, ow, oh, mode);
    Ok(out)
}

/// Encode a picture keeping the identifier its header carries on the magic
/// line (`RADIANCE` when it carries none).
pub fn encode_rgbe_preserving_magic(img: &RgbeImage, rle: RleMode, eol: LineEnding) -> (r: Result<Vec<u8>, HdrError>)
    ensures
        match encode_spec(
            picture_view(*img),
            rle,
            eol,
            match img.header.magic_id {
                Some(id) => id@,
                None => crate::header::radiance_chars(),
            },
        ) {
            Ok(bytes) => r matches Ok(v) && v@ == bytes,
            Err(f) => r matches Err(e) && fault_of(e) == f,
        },
{
    let magic = match &img.header.magic_id {
        Some(id) => MagicLine::Custom(id.clone()),
        None => MagicLine::Radiance,
    };
    encode_rgbe(img, rle, eol, &magic)
}


/// The length of the text the encoder writes before the scanlines: the
/// header and the resolution line.
pub open spec fn text_len(p: PictureView, magic: Seq<char>, eol: LineEnding) -> int {
    let (hv, w, h, q) = p;
    let op = disk_op(hv.y_sign, hv.x_sign, hv.x_first);
    let ow = op_dims(op, w as int, h as int).0 as nat;
    let oh = op_dims(op, w as int, h as int).1 as nat;
    (header_bytes(hv, magic, eol) + resolution_bytes(ow, oh, hv, eol)).len() as int
}

/// The line ending changes only the text lines: the encoder succeeds with
/// one line ending exactly when it succeeds with the other, and the
/// scanline bytes after the resolution line are the same.
pub proof fn law_line_ending_changes_only_text(p: PictureView, rle: RleMode, magic: Seq<char>, a: LineEnding, b: LineEnding)
    ensures
        encode_spec(p, rle, a, magic) is Ok <==> encode_spec(p, rle, b, magic) is Ok,
        encode_spec(p, rle, a, magic) is Ok ==> encode_spec(p, rle, a, magic)->Ok_0.skip(text_len(p, magic, a))
            == encode_spec(p, rle, b, magic)->Ok_0.skip(text_len(p, magic, b)),
{
    let (hv, w, h, q) = p;
    let op = disk_op(hv.y_sign, hv.x_sign, hv.x_first);
    let ow = op_dims(op, w as int, h as int).0 as nat;
    let oh = op_dims(op, w as int, h as int).1 as nat;
    if encode_spec(p, rle, a, magic) is Ok {
        let rows = rows_bytes(transformed(q, w as int, h as int, op), ow, oh, effective_rle(rle, ow));
        let ta = header_bytes(hv, magic, a) + resolution_bytes(ow, oh, hv, a);
        let tb = header_bytes(hv, magic, b) + resolution_bytes(ow, oh, hv, b);
        assert((ta + rows).skip(ta.len() as int) =~= rows);
        assert((tb + rows).skip(tb.len() as int) =~= rows);
    }
}


/// Writing a Y-first file (`±Y H ±X W`): on-disk scanline `H-1-y` holds
/// upright row `y` when the Y flag is `+` (bottom row first), scanline `y`
/// when it is `-`; within it, pixel `W-1-x` holds upright column `x` when
/// the X flag is `-`, pixel `x` when it is `+`.
pub proof fn law_y_first_scanline_order<T>(q: Seq<T>, w: nat, h: nat, ys: AxisSign, xs: AxisSign)
    requires
        q.len() == w * h,
    ensures
        transformed(q, w as int, h as int, disk_op(ys, xs, false)).len() == w * h,
        forall|x: int, y: int|
            0 <= x < w && 0 <= y < h ==> at(
                transformed(q, w as int, h as int, disk_op(ys, xs, false)),
                w as int,
                if xs == AxisSign::Decreasing { w - 1 - x } else { x },
                if ys == AxisSign::Increasing { h - 1 - y } else { y },
            ) == #[trigger] at(q, w as int, x, y),
{
    lemma_transformed(q, w as int, h as int, disk_op(ys, xs, false));
}

/// Reading a Y-first file: upright pixel `(x, y)` is on-disk scanline
/// `H-1-y` for a `+Y` flag (`y` for `-Y`), pixel `W-1-x` within it for a
/// `-X` flag (`x` for `+X`).
pub proof fn law_y_first_scanline_read<T>(d: Seq<T>, w: nat, h: nat, ys: AxisSign, xs: AxisSign)
    requires
        d.len() == w * h,
    ensures
        transformed(d, w as int, h as int, inverse_op(disk_op(ys, xs, false))).len() == w * h,
        forall|x: int, y: int|
            0 <= x < w && 0 <= y < h ==> #[trigger] at(
                transformed(d, w as int, h as int, inverse_op(disk_op(ys, xs, false))),
                w as int,
                x,
                y,
            ) == at(
                d,
                w as int,
                if xs == AxisSign::Decreasing { w - 1 - x } else { x },
                if ys == AxisSign::Increasing { h - 1 - y } else { y },
            ),
{
    let u = transformed(d, w as int, h as int, inverse_op(disk_op(ys, xs, false)));
    lemma_transformed(d, w as int, h as int, inverse_op(disk_op(ys, xs, false)));
    assert forall|x: int, y: int| 0 <= x < w && 0 <= y < h implies #[trigger] at(u, w as int, x, y) == at(
        d,
        w as int,
        if xs == AxisSign::Decreasing { w - 1 - x } else { x },
        if ys == AxisSign::Increasing { h - 1 - y } else { y },
    ) by {
        let cx = if xs == AxisSign::Decreasing { w - 1 - x } else { x };
        let ry = if ys == AxisSign::Increasing { h - 1 - y } else { y };
        assert(at(d, w as int, cx, ry) == at(u, w as int, x, y));
    }
}

/// Writing an X-first file (`±X W ±Y H`): each on-disk scanline is a
/// column. Scanline `W-1-x` holds upright column `x` when the X flag is
/// `-` (scanline `x` for `+`), listed bottom to top for a `+Y` flag (upright
/// row `y` at pixel `H-1-y`) and top to bottom for `-Y` (at pixel `y`).
pub proof fn law_x_first_scanline_order<T>(q: Seq<T>, w: nat, h: nat, ys: AxisSign, xs: AxisSign)
    requires
        q.len() == w * h,
    ensures
        transformed(q, w as int, h as int, disk_op(ys, xs, true)).len() == w * h,
        forall|x: int, y: int|
            0 <= x < w && 0 <= y < h ==> at(
                transformed(q, w as int, h as int, disk_op(ys, xs, true)),
                h as int,
                if ys == AxisSign::Increasing { h - 1 - y } else { y },
                if xs == AxisSign::Decreasing { w - 1 - x } else { x },
            ) == #[trigger] at(q, w as int, x, y),
{
    lemma_transformed(q, w as int, h as int, disk_op(ys, xs, true));
}

/// Reading an X-first file: upright pixel `(x, y)` is on-disk scanline
/// `W-1-x` for a `-X` flag (`x` for `+X`), at pixel `H-1-y` within it for a
/// `+Y` flag (`y` for `-Y`); the on-disk picture has `W` scanlines of `H`.
pub proof fn law_x_first_scanline_read<T>(d: Seq<T>, w: nat, h: nat, ys: AxisSign, xs: AxisSign)
    requires
        d.len() == w * h,
    ensures
        transformed(d, h as int, w as int, inverse_op(disk_op(ys, xs, true))).len() == w * h,
        forall|x: int, y: int|
            0 <= x < w && 0 <= y < h ==> #[trigger] at(
                transformed(d, h as int, w as int, inverse_op(disk_op(ys, xs, true))),
                w as int,
                x,
                y,
            ) == at(
                d,
                h as int,
                if ys == AxisSign::Increasing { h - 1 - y } else { y },
                if xs == AxisSign::Decreasing { w - 1 - x } else { x },
            ),
{
    assert(d.len() == h * w) by (nonlinear_arith)
        requires
            d.len() == w * h,
    ;
    let u = transformed(d, h as int, w as int, inverse_op(disk_op(ys, xs, true)));
    lemma_transformed(d, h as int, w as int, inverse_op(disk_op(ys, xs, true)));
    assert(h * w == w * h) by (nonlinear_arith);
    assert forall|x: int, y: int| 0 <= x < w && 0 <= y < h implies #[trigger] at(u, w as int, x, y) == at(
        d,
        h as int,
        if ys == AxisSign::Increasing { h - 1 - y } else { y },
        if xs == AxisSign::Decreasing { w - 1 - x } else { x },
    ) by {
        let j = if ys == AxisSign::Increasing { h - 1 - y } else { y };
        let k = if xs == AxisSign::Decreasing { w - 1 - x } else { x };
        assert(at(d, h as int, j, k) == at(u, w as int, x, y));
    }
}

/// A Y-first orientation displays the standard picture as its resolution
/// line stores it: its display transform is the on-disk symmetry of its
/// axis fields, moving upright pixel `(x, y)` to column `W-1-x` for a `-X`
/// flag and to row `H-1-y` for a `+Y` flag (so `FlipX`, `-Y H -X W`, mirrors
/// left to right, and `FlipY`, `+Y H +X W`, turns upside down).
pub proof fn law_display_y_first<T>(q: Seq<T>, w: nat, h: nat, o: Orientation)
    requires
        q.len() == w * h,
        !axis_fields_of(o).2,
    ensures
        display_op_of(o) == disk_op(axis_fields_of(o).0, axis_fields_of(o).1, false),
        forall|x: int, y: int|
            0 <= x < w && 0 <= y < h ==> at(
                transformed(q, w as int, h as int, display_op_of(o)),
                w as int,
                if axis_fields_of(o).1 == AxisSign::Decreasing { w - 1 - x } else { x },
                if axis_fields_of(o).0 == AxisSign::Increasing { h - 1 - y } else { y },
            ) == #[trigger] at(q, w as int, x, y),
{
    law_y_first_scanline_order(q, w, h, axis_fields_of(o).0, axis_fields_of(o).1);
}

/// An X-first orientation displays the standard picture turned a quarter:
/// `Rotate90Cw` clockwise (upright `(x, y)` to `(H-1-y, x)`), `Rotate90Ccw`
/// counter-clockwise (to `(y, W-1-x)`), and the two `FlipY` forms flipped
/// top to bottom first (`Rotate90CwFlipY` to `(y, x)`, `Rotate90CcwFlipY`
/// to `(H-1-y, W-1-x)`); the displayed picture is `H` wide.
pub proof fn law_display_x_first<T>(q: Seq<T>, w: nat, h: nat, o: Orientation)
    requires
        q.len() == w * h,
        axis_fields_of(o).2,
    ensures
        forall|x: int, y: int|
            0 <= x < w && 0 <= y < h ==> at(
                transformed(q, w as int, h as int, display_op_of(o)),
                h as int,
                match o {
                    Orientation::Rotate90Cw => h - 1 - y,
                    Orientation::Rotate90Ccw => y,
                    Orientation::Rotate90CwFlipY => y,
                    _ => h - 1 - y,
                },
                match o {
                    Orientation::Rotate90Cw => x,
                    Orientation::Rotate90Ccw => w - 1 - x,
                    Orientation::Rotate90CwFlipY => x,
                    _ => w - 1 - x,
                },
            ) == #[trigger] at(q, w as int, x, y),
{
    lemma_transformed(q, w as int, h as int, display_op_of(o));
}

} // verus!
