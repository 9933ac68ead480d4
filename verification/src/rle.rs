//! Scanline coding for Radiance pictures.
//!
//! ## New RLE
//!
//! A scanline starts with the marker `0x02 0x02 (width >> 8) (width & 0xFF)`
//! (only for `8 <= width <= 32767`), followed by the four channels (R, G,
//! B, exponent) one after another, each an RLE stream of exactly `width`
//! bytes: a code `n` in `1..=128` copies the next `n` bytes verbatim, a
//! code `n` in `129..=255` repeats the next byte `n - 128` times.
//!
//! ## Old RLE
//!
//! A scanline is a sequence of 4-byte pixels. A pixel with mantissa
//! `(1, 1, 1)` is a sentinel: its exponent byte, shifted left by 8 bits per
//! sentinel already seen in the current chain, counts repeats of the
//! previous pixel. A chain of more than three sentinels is malformed, and
//! so is a sentinel with no previous pixel to repeat.
//!
//! ## Uncompressed
//!
//! A scanline is `width` plain 4-byte pixels.

use vstd::prelude::*;
use crate::error::HdrError;

verus! {

/// How a scanline without the new-RLE marker is read.
#[derive(Debug, Clone, Copy, PartialEq, Eq, Structural)]
pub enum FallbackMode {
    /// Pre-1991 sentinel runs: `(1, 1, 1, n)` quads repeat the previous
    /// pixel.
    OldRle,
    /// Flat `4 * width` bytes: every quad is a literal pixel.
    Uncompressed,
}

/// Prepend `v` to the bytes of a successful decode.
pub open spec fn prepend_bytes(v: Seq<u8>, r: Option<(int, Seq<u8>)>) -> Option<(int, Seq<u8>)> {
    match r {
        Some((p, rest)) => Some((p, v + rest)),
        None => None,
    }
}

/// Decode `remaining` bytes of one new-RLE channel starting at `pos`:
/// the position after the last code read and the decoded bytes, or `None`
/// when the stream is malformed or truncated.
pub open spec fn rle_channel(src: Seq<u8>, pos: int, remaining: nat) -> Option<(int, Seq<u8>)>
    decreases remaining,
{
    if remaining == 0 {
        Some((pos, Seq::<u8>::empty()))
    } else if pos < 0 || pos >= src.len() {
        None
    } else {
        let code = src[pos];
        if code > 128 {
            let run = (code - 128) as nat;
            if run > remaining || pos + 1 >= src.len() {
                None
            } else {
                prepend_bytes(
                    Seq::new(run, |i: int| src[pos + 1]),
                    rle_channel(src, pos + 2, (remaining - run) as nat),
                )
            }
        } else {
            let run = code as nat;
            if run == 0 || run > remaining || pos + 1 + run > src.len() {
                None
            } else {
                prepend_bytes(
                    src.subrange(pos + 1, pos + 1 + run),
                    rle_channel(src, pos + 1 + run, (remaining - run) as nat),
                )
            }
        }
    }
}

/// The message the decoder gives when [`rle_channel`] fails: the first
/// malformed or truncated code.
pub open spec fn rle_channel_msg(src: Seq<u8>, pos: int, remaining: nat) -> Seq<char>
    decreases remaining,
{
    if remaining == 0 {
        Seq::empty()
    } else if pos < 0 || pos >= src.len() {
        "HDR: new-RLE truncated"@
    } else {
        let code = src[pos];
        if code > 128 {
            let run = (code - 128) as nat;
            if run > remaining {
                "HDR: new-RLE repeat overruns scanline"@
            } else if pos + 1 >= src.len() {
                "HDR: new-RLE missing repeat byte"@
            } else {
                rle_channel_msg(src, pos + 2, (remaining - run) as nat)
            }
        } else {
            let run = code as nat;
            if run == 0 {
                "HDR: new-RLE zero-length literal"@
            } else if run > remaining {
                "HDR: new-RLE literal overruns scanline"@
            } else if pos + 1 + run > src.len() {
                "HDR: new-RLE literal truncated"@
            } else {
                rle_channel_msg(src, pos + 1 + run, (remaining - run) as nat)
            }
        }
    }
}

/// Decode one channel of a new-RLE scanline: `width` bytes starting at
/// `*pos`. On success `*pos` is advanced past the codes read.
fn decode_rle_channel(src: &[u8], pos: &mut usize, width: usize) -> (r: Result<Vec<u8>, HdrError>)
    ensures
        match rle_channel(src@, *old(pos) as int, width as nat) {
            Some((p, bytes)) => r matches Ok(ch) && ch@ == bytes && *final(pos) as int == p,
            None => r matches Err(HdrError::InvalidData(m)) && m@ == rle_channel_msg(src@, *old(pos) as int, width as nat),
        },
        r matches Ok(ch) ==> ch@.len() == width,
{
    let ghost start = *pos as int;
    let n = src.len();
    let mut ch: Vec<u8> = Vec::with_capacity(width);
    let mut written: usize = 0;
    while written < width
        invariant
            written <= width,
            start == *old(pos) as int,
            n == src@.len(),
            ch@.len() == written,
            rle_channel(src@, start, width as nat) == prepend_bytes(
                ch@,
                rle_channel(src@, *pos as int, (width - written) as nat),
            ),
            rle_channel_msg(src@, start, width as nat) == rle_channel_msg(src@, *pos as int, (width - written) as nat),
        decreases width - written,
    {
        let ghost p0 = *pos as int;
        let ghost rem = (width - written) as nat;
        if *pos >= src.len() {
            assert(rle_channel(src@, p0, rem) is None);
            return Err(HdrError::invalid("HDR: new-RLE truncated"));
        }
        let code = src[*pos];
        *pos = *pos + 1;
        if code > 128 {
            let run = (code - 128) as usize;
            if run > width - written {
                return Err(HdrError::invalid("HDR: new-RLE repeat overruns scanline"));
            }
            if *pos >= src.len() {
                return Err(HdrError::invalid("HDR: new-RLE missing repeat byte"));
            }
            let value = src[*pos];
            *pos = *pos + 1;
            let ghost before = ch@;
            let mut k: usize = 0;
            while k < run
                invariant
                    k <= run,
                    ch@ == before + Seq::new(k as nat, |i: int| value),
                decreases run - k,
            {
                ch.push(value);
                k = k + 1;
                proof {
                    assert(ch@ =~= before + Seq::new(k as nat, |i: int| value));
                }
            }
            proof {
                assert(Seq::new(run as nat, |i: int| value) =~= Seq::new(run as nat, |i: int| src@[p0 + 1]));
                assert(before + (Seq::new(run as nat, |i: int| value) + rle_channel(src@, *pos as int, (rem - run) as nat).unwrap().1)
                    =~= (before + Seq::new(run as nat, |i: int| value)) + rle_channel(src@, *pos as int, (rem - run) as nat).unwrap().1);
            }
            written = written + run;
        } else {
            let run = code as usize;
            if run == 0 {
                return Err(HdrError::invalid("HDR: new-RLE zero-length literal"));
            }
            if run > width - written {
                assert(rle_channel(src@, p0, rem) is None);
                return Err(HdrError::invalid("HDR: new-RLE literal overruns scanline"));
            }
            if run > src.len() - *pos {
                return Err(HdrError::invalid("HDR: new-RLE literal truncated"));
            }
            let ghost before = ch@;
            let mut k: usize = 0;
            while k < run
                invariant
                    k <= run,
                    n == src@.len(),
                    *pos + run <= src@.len(),
                    ch@ == before + src@.subrange(*pos as int, *pos + k),
                decreases run - k,
            {
                ch.push(src[*pos + k]);
                k = k + 1;
                proof {
                    assert(ch@ =~= before + src@.subrange(*pos as int, *pos + k));
                }
            }
            proof {
                let rest = rle_channel(src@, *pos + run, (rem - run) as nat);
                if rest is Some {
                    assert(before + (src@.subrange(*pos as int, *pos + run) + rest.unwrap().1)
                        =~= (before + src@.subrange(*pos as int, *pos + run)) + rest.unwrap().1);
                }
            }
            *pos = *pos + run;
            written = written + run;
        }
    }
    proof {
        assert(ch@ + Seq::<u8>::empty() =~= ch@);
    }
    Ok(ch)
}


/// End (exclusive) of the run of bytes equal to `buf[i]` that starts at
/// `i`, scanning from `j` and capped at 127 bytes.
pub open spec fn run_scan(buf: Seq<u8>, i: int, j: int) -> int
    decreases buf.len() - j,
{
    if 0 <= j < buf.len() && j - i < 127 && buf[j] == buf[i] {
        run_scan(buf, i, j + 1)
    } else {
        j
    }
}

/// `true` when four equal bytes start at `j`.
pub open spec fn starts_run4(buf: Seq<u8>, j: int) -> bool {
    &&& 0 <= j
    &&& j + 3 < buf.len()
    &&& buf[j + 1] == buf[j]
    &&& buf[j + 2] == buf[j + 1]
    &&& buf[j + 3] == buf[j + 2]
}

/// The end (exclusive) of a literal run that starts at `i`: the first
/// position from `j` on where a run of four equal bytes starts, capped at
/// 128 literals and at the end of the buffer.
pub open spec fn lit_scan(buf: Seq<u8>, i: int, j: int) -> int
    decreases buf.len() - j,
{
    if j < i + 128 && j < buf.len() && !starts_run4(buf, j) {
        lit_scan(buf, i, j + 1)
    } else {
        j
    }
}

pub proof fn lemma_run_scan(buf: Seq<u8>, i: int, j: int)
    requires
        0 <= i < j <= buf.len(),
        j - i <= 127,
        forall|k: int| i <= k < j ==> buf[k] == buf[i],
    ensures
        j <= run_scan(buf, i, j) <= buf.len(),
        run_scan(buf, i, j) - i <= 127,
        forall|k: int| i <= k < run_scan(buf, i, j) ==> buf[k] == buf[i],
        run_scan(buf, i, j) < buf.len() && run_scan(buf, i, j) - i < 127 ==> buf[run_scan(buf, i, j)] != buf[i],
    decreases buf.len() - j,
{
    if 0 <= j < buf.len() && j - i < 127 && buf[j] == buf[i] {
        lemma_run_scan(buf, i, j + 1);
    }
}

pub proof fn lemma_lit_scan(buf: Seq<u8>, i: int, j: int)
    requires
        i < j,
    ensures
        j <= lit_scan(buf, i, j),
        j <= buf.len() && j <= i + 128 ==> lit_scan(buf, i, j) <= buf.len() && lit_scan(buf, i, j) <= i + 128,
    decreases buf.len() - j,
{
    if j < i + 128 && j < buf.len() && !starts_run4(buf, j) {
        lemma_lit_scan(buf, i, j + 1);
    }
}

/// The new-RLE coding of the channel bytes `buf[i..]`, greedy: a run of at
/// least four equal bytes (up to 127) becomes one repeat code; otherwise
/// the bytes up to the next such run (at most 128) become one literal code.
pub open spec fn rle_encode_from(buf: Seq<u8>, i: int) -> Seq<u8>
    decreases buf.len() - i,
{
    if i < 0 || i >= buf.len() {
        Seq::<u8>::empty()
    } else {
        let r = run_scan(buf, i, i + 1) - i;
        proof {
            lemma_run_scan(buf, i, i + 1);
            lemma_lit_scan(buf, i, i + 1);
        }
        if r >= 4 {
            seq![(128 + r) as u8, buf[i]] + rle_encode_from(buf, i + r)
        } else {
            let e = lit_scan(buf, i, i + 1);
            seq![(e - i) as u8] + buf.subrange(i, e) + rle_encode_from(buf, e)
        }
    }
}

/// The new-RLE coding of a whole channel.
pub open spec fn rle_encode(buf: Seq<u8>) -> Seq<u8> {
    rle_encode_from(buf, 0)
}

/// Decoding the coding of `buf[i..]`, wherever it sits in a stream, gives
/// back exactly `buf[i..]` and stops right after the coding.
pub proof fn lemma_rle_encode_from_decodes(buf: Seq<u8>, i: int, s: Seq<u8>, p: int)
    requires
        0 <= i <= buf.len(),
        0 <= p,
        p + rle_encode_from(buf, i).len() <= s.len(),
        s.subrange(p, p + rle_encode_from(buf, i).len()) == rle_encode_from(buf, i),
    ensures
        rle_channel(s, p, (buf.len() - i) as nat) == Some((p + rle_encode_from(buf, i).len(), buf.subrange(i, buf.len() as int))),
    decreases buf.len() - i,
{
    let e = rle_encode_from(buf, i);
    if i == buf.len() {
        assert(buf.subrange(i, buf.len() as int) =~= Seq::<u8>::empty());
    } else {
        lemma_run_scan(buf, i, i + 1);
        lemma_lit_scan(buf, i, i + 1);
        let r = run_scan(buf, i, i + 1) - i;
        assert(s[p] == e[0]);
        if r >= 4 {
            let tail = rle_encode_from(buf, i + r);
            assert(e == seq![(128 + r) as u8, buf[i]] + tail);
            assert(s[p + 1] == e[1]);
            assert(s.subrange(p + 2, p + 2 + tail.len()) =~= tail) by {
                assert forall|k: int| 0 <= k < tail.len() implies s.subrange(p + 2, p + 2 + tail.len())[k] == tail[k] by {
                    assert(s.subrange(p, p + e.len())[k + 2] == e[k + 2]);
                }
            }
            lemma_rle_encode_from_decodes(buf, i + r, s, p + 2);
            assert(Seq::new(r as nat, |k: int| s[p + 1]) =~= buf.subrange(i, i + r));
            assert(buf.subrange(i, i + r) + buf.subrange(i + r, buf.len() as int) =~= buf.subrange(i, buf.len() as int));
        } else {
            let en = lit_scan(buf, i, i + 1);
            let l = en - i;
            let tail = rle_encode_from(buf, en);
            assert(e == seq![l as u8] + buf.subrange(i, en) + tail);
            assert(s.subrange(p + 1, p + 1 + l) =~= buf.subrange(i, en)) by {
                assert forall|k: int| 0 <= k < l implies s.subrange(p + 1, p + 1 + l)[k] == buf.subrange(i, en)[k] by {
                    assert(s.subrange(p, p + e.len())[k + 1] == e[k + 1]);
                }
            }
            assert(s.subrange(p + 1 + l, p + 1 + l + tail.len()) =~= tail) by {
                assert forall|k: int| 0 <= k < tail.len() implies s.subrange(p + 1 + l, p + 1 + l + tail.len())[k] == tail[k] by {
                    assert(s.subrange(p, p + e.len())[k + 1 + l] == e[k + 1 + l]);
                }
            }
            lemma_rle_encode_from_decodes(buf, en, s, p + 1 + l);
            assert(buf.subrange(i, en) + buf.subrange(en, buf.len() as int) =~= buf.subrange(i, buf.len() as int));
        }
    }
}

/// Append the new-RLE coding of one channel to `out`.
fn encode_channel(buf: &[u8], out: &mut Vec<u8>)
    ensures
        final(out)@ == old(out)@ + rle_encode(buf@),
{
    let n = buf.len();
    let mut i: usize = 0;
    while i < n
        invariant
            n == buf@.len(),
            i <= n,
            old(out)@ + rle_encode(buf@) == out@ + rle_encode_from(buf@, i as int),
        decreases n - i,
    {
        let ghost o = out@;
        let mut run_end = i + 1;
        while run_end < n && buf[run_end] == buf[i] && (run_end - i) < 127
            invariant
                n == buf@.len(),
                i < run_end <= n,
                run_end - i <= 127,
                forall|k: int| i <= k < run_end ==> buf@[k] == buf@[i as int],
                run_scan(buf@, i as int, i + 1) == run_scan(buf@, i as int, run_end as int),
            decreases n - run_end,
        {
            run_end = run_end + 1;
        }
        proof {
            lemma_run_scan(buf@, i as int, i + 1);
            lemma_lit_scan(buf@, i as int, i + 1);
        }
        let run_len = run_end - i;
        if run_len >= 4 {
            out.push(128 + run_len as u8);
            out.push(buf[i]);
            proof {
                assert(rle_encode_from(buf@, i as int) == seq![(128 + run_len) as u8, buf@[i as int]] + rle_encode_from(buf@, run_end as int));
                assert(o + rle_encode_from(buf@, i as int) =~= out@ + rle_encode_from(buf@, run_end as int));
            }
            i = run_end;
        } else {
            let mut lit_end = i + 1;
            let max_end = if n - i > 128 { i + 128 } else { n };
            while lit_end < max_end
                invariant
                    n == buf@.len(),
                    i < lit_end <= max_end,
                    max_end <= n,
                    max_end == if i + 128 < n { i + 128 } else { n as int },
                    lit_scan(buf@, i as int, i + 1) == lit_scan(buf@, i as int, lit_end as int),
                ensures
                    i < lit_end <= max_end,
                    lit_scan(buf@, i as int, i + 1) == lit_scan(buf@, i as int, lit_end as int),
                    lit_end == max_end || starts_run4(buf@, lit_end as int),
                decreases max_end - lit_end,
            {
                let mut look = lit_end;
                let mut same: usize = 1;
                while look + 1 < n && buf[look + 1] == buf[look] && same < 4
                    invariant
                        n == buf@.len(),
                        lit_end < n,
                        1 <= same <= 4,
                        look == lit_end + same - 1,
                        look < n,
                        forall|k: int| lit_end <= k <= look ==> #[trigger] buf@[k] == buf@[lit_end as int],
                    decreases 4 - same,
                {
                    look = look + 1;
                    same = same + 1;
                }
                if same >= 4 {
                    assert(starts_run4(buf@, lit_end as int));
                    break;
                }
                assert(!starts_run4(buf@, lit_end as int));
                lit_end = lit_end + 1;
            }
            proof {
                lemma_lit_scan(buf@, i as int, lit_end as int);
                assert(lit_scan(buf@, i as int, lit_end as int) == lit_end as int);
            }
            let lit_len = lit_end - i;
            out.push(lit_len as u8);
            let mut k = i;
            while k < lit_end
                invariant
                    n == buf@.len(),
                    i <= k <= lit_end,
                    lit_end <= n,
                    out@ == o + seq![lit_len as u8] + buf@.subrange(i as int, k as int),
                decreases lit_end - k,
            {
                out.push(buf[k]);
                k = k + 1;
                proof {
                    assert(out@ =~= o + seq![lit_len as u8] + buf@.subrange(i as int, k as int));
                }
            }
            proof {
                assert(rle_encode_from(buf@, i as int) == seq![lit_len as u8] + buf@.subrange(i as int, lit_end as int) + rle_encode_from(buf@, lit_end as int));
                assert(o + rle_encode_from(buf@, i as int) =~= out@ + rle_encode_from(buf@, lit_end as int));
            }
            i = lit_end;
        }
    }
    proof {
        assert(out@ + rle_encode_from(buf@, i as int) =~= out@);
    }
}


/// The four bytes at `pos` as one pixel quad.
pub open spec fn quad_at(src: Seq<u8>, pos: int) -> [u8; 4] {
    [src[pos], src[pos + 1], src[pos + 2], src[pos + 3]]
}

/// An old-RLE run sentinel: mantissa `(1, 1, 1)`.
pub open spec fn is_sentinel(px: [u8; 4]) -> bool {
    px[0] == 1 && px[1] == 1 && px[2] == 1
}

/// The repeat multiplier of the `k`-th sentinel of a chain (`256^k`).
pub open spec fn chain_scale(k: nat) -> nat {
    if k == 0 {
        1
    } else if k == 1 {
        256
    } else {
        65536
    }
}

/// A decoded run of pixels, with the stream position after it and the last
/// pixel seen.
pub type PixelRun = Option<(int, Seq<[u8; 4]>, Option<[u8; 4]>)>;

/// Prepend `v` to the pixels of a successful decode.
pub open spec fn prepend_pixels(v: Seq<[u8; 4]>, r: PixelRun) -> PixelRun {
    match r {
        Some((p, rest, last)) => Some((p, v + rest, last)),
        None => None,
    }
}

/// Decode `remaining` old-RLE pixels starting at `pos`, given the previous
/// pixel `last` (if any) and the number `chain` of sentinels already seen in
/// the current chain.
pub open spec fn old_rle(src: Seq<u8>, pos: int, remaining: nat, last: Option<[u8; 4]>, chain: nat) -> PixelRun
    decreases remaining, 3 - chain,
{
    if remaining == 0 {
        Some((pos, Seq::<[u8; 4]>::empty(), last))
    } else if pos < 0 || pos + 4 > src.len() {
        None
    } else {
        let px = quad_at(src, pos);
        if is_sentinel(px) {
            if last is None || chain >= 3 {
                None
            } else {
                let run = (px[3] as nat * chain_scale(chain)) as nat;
                if run > remaining {
                    None
                } else {
                    prepend_pixels(
                        Seq::new(run, |i: int| last.unwrap()),
                        old_rle(src, pos + 4, (remaining - run) as nat, last, chain + 1),
                    )
                }
            }
        } else {
            prepend_pixels(seq![px], old_rle(src, pos + 4, (remaining - 1) as nat, Some(px), 0))
        }
    }
}

/// `width` flat pixels starting at `pos`.
pub open spec fn flat_pixels(src: Seq<u8>, pos: int, width: nat) -> Option<(int, Seq<[u8; 4]>)> {
    if pos < 0 || pos + 4 * width > src.len() {
        None
    } else {
        Some((pos + 4 * width, Seq::new(width, |i: int| quad_at(src, pos + 4 * i))))
    }
}

/// Interleave four channels into pixel quads.
pub open spec fn zip4(r: Seq<u8>, g: Seq<u8>, b: Seq<u8>, e: Seq<u8>) -> Seq<[u8; 4]> {
    Seq::new(r.len(), |i: int| [r[i], g[i], b[i], e[i]])
}

/// Channel `c` of a run of pixel quads.
pub open spec fn channel_of(px: Seq<[u8; 4]>, c: int) -> Seq<u8> {
    Seq::new(px.len(), |i: int| px[i][c])
}

/// The new-RLE marker for a scanline of `width` pixels sits at `pos`.
pub open spec fn has_new_marker(src: Seq<u8>, pos: int, width: nat) -> bool {
    &&& 8 <= width < 32768
    &&& 0 <= pos
    &&& pos + 4 <= src.len()
    &&& src[pos] == 2
    &&& src[pos + 1] == 2
    &&& src[pos + 2] as int * 256 + src[pos + 3] as int == width
}

/// The four new-RLE channels of `width` pixels starting at `pos` (after the
/// marker).
pub open spec fn new_rle_pixels(src: Seq<u8>, pos: int, width: nat) -> Option<(int, Seq<[u8; 4]>)> {
    match rle_channel(src, pos, width) {
        None => None,
        Some((p1, r)) => match rle_channel(src, p1, width) {
            None => None,
            Some((p2, g)) => match rle_channel(src, p2, width) {
                None => None,
                Some((p3, b)) => match rle_channel(src, p3, width) {
                    None => None,
                    Some((p4, e)) => Some((p4, zip4(r, g, b, e))),
                },
            },
        },
    }
}

/// The message the decoder gives when [`new_rle_pixels`] fails: that of
/// the first channel that fails.
pub open spec fn new_rle_msg(src: Seq<u8>, pos: int, width: nat) -> Seq<char> {
    match rle_channel(src, pos, width) {
        None => rle_channel_msg(src, pos, width),
        Some((p1, _)) => match rle_channel(src, p1, width) {
            None => rle_channel_msg(src, p1, width),
            Some((p2, _)) => match rle_channel(src, p2, width) {
                None => rle_channel_msg(src, p2, width),
                Some((p3, _)) => rle_channel_msg(src, p3, width),
            },
        },
    }
}

/// The message the decoder gives when [`old_rle`] fails.
pub open spec fn old_rle_msg(src: Seq<u8>, pos: int, remaining: nat, last: Option<[u8; 4]>, chain: nat) -> Seq<char>
    decreases remaining, 3 - chain,
{
    if remaining == 0 {
        Seq::empty()
    } else if pos < 0 || pos + 4 > src.len() {
        "HDR: old-RLE truncated pixel"@
    } else {
        let px = quad_at(src, pos);
        if is_sentinel(px) {
            if last is None {
                "HDR: old-RLE leading sentinel with no previous pixel"@
            } else if chain >= 3 {
                "HDR: old-RLE run length overflow"@
            } else {
                let run = (px[3] as nat * chain_scale(chain)) as nat;
                if run > remaining {
                    "HDR: old-RLE repeat overruns scanline"@
                } else {
                    old_rle_msg(src, pos + 4, (remaining - run) as nat, last, chain + 1)
                }
            }
        } else {
            old_rle_msg(src, pos + 4, (remaining - 1) as nat, Some(px), 0)
        }
    }
}

/// The message the decoder gives when [`scanline`] fails.
pub open spec fn scanline_msg(src: Seq<u8>, pos: int, width: nat, prev: Option<[u8; 4]>, fallback: FallbackMode) -> Seq<char> {
    if width == 0 {
        "HDR: zero-width scanline"@
    } else if has_new_marker(src, pos, width) {
        new_rle_msg(src, pos + 4, width)
    } else {
        match fallback {
            FallbackMode::OldRle => old_rle_msg(src, pos, width, prev, 0),
            FallbackMode::Uncompressed => "HDR: uncompressed scanline truncated"@,
        }
    }
}

/// Attach the last pixel of a non-empty decoded run.
pub open spec fn with_last(r: Option<(int, Seq<[u8; 4]>)>) -> PixelRun {
    match r {
        Some((p, px)) => Some((p, px, Some(px.last()))),
        None => None,
    }
}

/// Decode one scanline of `width` pixels at `pos`: new RLE when the marker
/// is present, otherwise as `fallback` says. The result carries the
/// position after the scanline, its pixels, and the pixel a following
/// old-RLE scanline may repeat.
pub open spec fn scanline(src: Seq<u8>, pos: int, width: nat, prev: Option<[u8; 4]>, fallback: FallbackMode) -> PixelRun {
    if width == 0 {
        None
    } else if has_new_marker(src, pos, width) {
        with_last(new_rle_pixels(src, pos + 4, width))
    } else {
        match fallback {
            FallbackMode::OldRle => old_rle(src, pos, width, prev, 0),
            FallbackMode::Uncompressed => with_last(flat_pixels(src, pos, width)),
        }
    }
}

/// The four channel buffers hold exactly the pixels `px`.
pub open spec fn channels_hold(ch: [Vec<u8>; 4], px: Seq<[u8; 4]>) -> bool {
    &&& ch[0]@ == channel_of(px, 0)
    &&& ch[1]@ == channel_of(px, 1)
    &&& ch[2]@ == channel_of(px, 2)
    &&& ch[3]@ == channel_of(px, 3)
}

/// Push one pixel onto the four channel buffers.
fn push_pixel(r: &mut Vec<u8>, g: &mut Vec<u8>, b: &mut Vec<u8>, e: &mut Vec<u8>, px: [u8; 4])
    ensures
        final(r)@ == old(r)@.push(px[0]),
        final(g)@ == old(g)@.push(px[1]),
        final(b)@ == old(b)@.push(px[2]),
        final(e)@ == old(e)@.push(px[3]),
{
    r.push(px[0]);
    g.push(px[1]);
    b.push(px[2]);
    e.push(px[3]);
}

proof fn lemma_channel_push(px: Seq<[u8; 4]>, q: [u8; 4], c: int)
    ensures
        channel_of(px, c).push(q[c]) == channel_of(px.push(q), c),
{
    assert(channel_of(px, c).push(q[c]) =~= channel_of(px.push(q), c));
}

/// Decode one old-RLE scanline.
fn decode_old_rle(src: &[u8], pos: &mut usize, width: usize, prev_pixel: &mut Option<[u8; 4]>) -> (res: Result<[Vec<u8>; 4], HdrError>)
    ensures
        match old_rle(src@, *old(pos) as int, width as nat, *old(prev_pixel), 0) {
            Some((p, px, last)) => res matches Ok(ch) && channels_hold(ch, px) && *final(pos) as int == p
                && *final(prev_pixel) == last,
            None => res matches Err(HdrError::InvalidData(m)) && *final(prev_pixel) == *old(prev_pixel)
                && m@ == old_rle_msg(src@, *old(pos) as int, width as nat, *old(prev_pixel), 0),
        },
{
    let ghost start = *pos as int;
    let n = src.len();
    let mut r: Vec<u8> = Vec::with_capacity(width);
    let mut g: Vec<u8> = Vec::with_capacity(width);
    let mut b: Vec<u8> = Vec::with_capacity(width);
    let mut e: Vec<u8> = Vec::with_capacity(width);
    let mut last: Option<[u8; 4]> = *prev_pixel;
    let mut chain: usize = 0;
    let mut written: usize = 0;
    let ghost mut px: Seq<[u8; 4]> = Seq::empty();
    while written < width
        invariant
            n == src@.len(),
            start == *old(pos) as int,
            *prev_pixel == *old(prev_pixel),
            written <= width,
            chain <= 3,
            px.len() == written,
            r@ == channel_of(px, 0),
            g@ == channel_of(px, 1),
            b@ == channel_of(px, 2),
            e@ == channel_of(px, 3),
            old_rle(src@, start, width as nat, *old(prev_pixel), 0) == prepend_pixels(
                px,
                old_rle(src@, *pos as int, (width - written) as nat, last, chain as nat),
            ),
            old_rle_msg(src@, start, width as nat, *old(prev_pixel), 0) == old_rle_msg(
                src@,
                *pos as int,
                (width - written) as nat,
                last,
                chain as nat,
            ),
        decreases width - written, 3 - chain,
    {
        let ghost p0 = *pos as int;
        let ghost rem = (width - written) as nat;
        if *pos > n || 4 > n - *pos {
            assert(old_rle(src@, p0, rem, last, chain as nat) is None);
            return Err(HdrError::invalid("HDR: old-RLE truncated pixel"));
        }
        let pixel = [src[*pos], src[*pos + 1], src[*pos + 2], src[*pos + 3]];
        assert(pixel == quad_at(src@, p0));
        *pos = *pos + 4;
        if pixel[0] == 1 && pixel[1] == 1 && pixel[2] == 1 {
            let l = match last {
                Some(l) => l,
                None => {
                    return Err(HdrError::invalid("HDR: old-RLE leading sentinel with no previous pixel"));
                },
            };
            if chain >= 3 {
                return Err(HdrError::invalid("HDR: old-RLE run length overflow"));
            }
            let scale: usize = if chain == 0 {
                1
            } else if chain == 1 {
                256
            } else {
                65536
            };
            assert((pixel[3] as int) * (scale as int) <= 255 * 65536) by (nonlinear_arith)
                requires
                    pixel[3] <= 255,
                    scale <= 65536,
            ;
            let run = (pixel[3] as usize) * scale;
            if run > width - written {
                return Err(HdrError::invalid("HDR: old-RLE repeat overruns scanline"));
            }
            let ghost before = px;
            let mut k: usize = 0;
            while k < run
                invariant
                    k <= run,
                    px == before + Seq::new(k as nat, |i: int| l),
                    r@ == channel_of(px, 0),
                    g@ == channel_of(px, 1),
                    b@ == channel_of(px, 2),
                    e@ == channel_of(px, 3),
                decreases run - k,
            {
                push_pixel(&mut r, &mut g, &mut b, &mut e, l);
                proof {
                    lemma_channel_push(px, l, 0);
                    lemma_channel_push(px, l, 1);
                    lemma_channel_push(px, l, 2);
                    lemma_channel_push(px, l, 3);
                    px = px.push(l);
                    assert(px =~= before + Seq::new((k + 1) as nat, |i: int| l));
                }
                k = k + 1;
            }
            proof {
                let rest = old_rle(src@, *pos as int, (rem - run) as nat, last, (chain + 1) as nat);
                if rest is Some {
                    assert(before + (Seq::new(run as nat, |i: int| l) + rest.unwrap().1)
                        =~= (before + Seq::new(run as nat, |i: int| l)) + rest.unwrap().1);
                }
            }
            written = written + run;
            chain = chain + 1;
        } else {
            push_pixel(&mut r, &mut g, &mut b, &mut e, pixel);
            proof {
                lemma_channel_push(px, pixel, 0);
                lemma_channel_push(px, pixel, 1);
                lemma_channel_push(px, pixel, 2);
                lemma_channel_push(px, pixel, 3);
                let rest = old_rle(src@, *pos as int, (rem - 1) as nat, Some(pixel), 0);
                if rest is Some {
                    assert(px + (seq![pixel] + rest.unwrap().1) =~= px.push(pixel) + rest.unwrap().1);
                }
                px = px.push(pixel);
            }
            last = Some(pixel);
            chain = 0;
            written = written + 1;
        }
    }
    proof {
        assert(px + Seq::<[u8; 4]>::empty() =~= px);
    }
    *prev_pixel = last;
    Ok([r, g, b, e])
}

/// Decode one uncompressed scanline.
fn decode_flat(src: &[u8], pos: &mut usize, width: usize, prev_pixel: &mut Option<[u8; 4]>) -> (res: Result<[Vec<u8>; 4], HdrError>)
    requires
        width > 0,
    ensures
        match with_last(flat_pixels(src@, *old(pos) as int, width as nat)) {
            Some((p, px, last)) => res matches Ok(ch) && channels_hold(ch, px) && *final(pos) as int == p
                && *final(prev_pixel) == last,
            None => res matches Err(HdrError::InvalidData(m)) && *final(prev_pixel) == *old(prev_pixel)
                && m@ == "HDR: uncompressed scanline truncated"@,
        },
{
    let ghost start = *pos as int;
    let n = src.len();
    if *pos > n {
        return Err(HdrError::invalid("HDR: uncompressed scanline truncated"));
    }
    if width > (n - *pos) / 4 {
        assert(width * 4 > n - start) by (nonlinear_arith)
            requires
                width > (n - start) / 4,
                n - start >= 0,
        ;
        return Err(HdrError::invalid("HDR: uncompressed scanline truncated"));
    }
    assert(width * 4 <= n - start) by (nonlinear_arith)
        requires
            width <= (n - start) / 4,
            n - start >= 0,
    ;
    let mut r: Vec<u8> = Vec::with_capacity(width);
    let mut g: Vec<u8> = Vec::with_capacity(width);
    let mut b: Vec<u8> = Vec::with_capacity(width);
    let mut e: Vec<u8> = Vec::with_capacity(width);
    let mut last: [u8; 4] = [0, 0, 0, 0];
    let mut x: usize = 0;
    let ghost mut px: Seq<[u8; 4]> = Seq::empty();
    while x < width
        invariant
            n == src@.len(),
            start == *old(pos) as int,
            start + 4 * width <= n,
            x <= width,
            *pos as int == start + 4 * x,
            px == Seq::new(x as nat, |i: int| quad_at(src@, start + 4 * i)),
            x > 0 ==> last == px.last(),
            r@ == channel_of(px, 0),
            g@ == channel_of(px, 1),
            b@ == channel_of(px, 2),
            e@ == channel_of(px, 3),
        decreases width - x,
    {
        let pixel = [src[*pos], src[*pos + 1], src[*pos + 2], src[*pos + 3]];
        push_pixel(&mut r, &mut g, &mut b, &mut e, pixel);
        proof {
            lemma_channel_push(px, pixel, 0);
            lemma_channel_push(px, pixel, 1);
            lemma_channel_push(px, pixel, 2);
            lemma_channel_push(px, pixel, 3);
            px = px.push(pixel);
            assert(px =~= Seq::new((x + 1) as nat, |i: int| quad_at(src@, start + 4 * i)));
        }
        last = pixel;
        *pos = *pos + 4;
        x = x + 1;
    }
    *prev_pixel = Some(last);
    Ok([r, g, b, e])
}

/// Decode one new-RLE scanline (after its marker).
fn decode_new_rle(src: &[u8], pos: &mut usize, width: usize, prev_pixel: &mut Option<[u8; 4]>) -> (res: Result<[Vec<u8>; 4], HdrError>)
    requires
        width > 0,
    ensures
        match with_last(new_rle_pixels(src@, *old(pos) as int, width as nat)) {
            Some((p, px, last)) => res matches Ok(ch) && channels_hold(ch, px) && *final(pos) as int == p
                && *final(prev_pixel) == last,
            None => res matches Err(HdrError::InvalidData(m)) && *final(prev_pixel) == *old(prev_pixel)
                && m@ == new_rle_msg(src@, *old(pos) as int, width as nat),
        },
{
    let r = decode_rle_channel(src, pos, width)?;
    let g = decode_rle_channel(src, pos, width)?;
    let b = decode_rle_channel(src, pos, width)?;
    let e = decode_rle_channel(src, pos, width)?;
    let ghost px = zip4(r@, g@, b@, e@);
    assert(r@ =~= channel_of(px, 0));
    assert(g@ =~= channel_of(px, 1));
    assert(b@ =~= channel_of(px, 2));
    assert(e@ =~= channel_of(px, 3));
    let w1 = width - 1;
    *prev_pixel = Some([r[w1], g[w1], b[w1], e[w1]]);
    Ok([r, g, b, e])
}


/// Decode one scanline of `width` pixels at `*pos`: new RLE when the marker
/// is present, otherwise old RLE. Returns the four channel buffers (R, G,
/// B, E); `*pos` moves past the scanline and `*prev_pixel` becomes the
/// pixel a following old-RLE scanline may repeat.
pub fn decode_scanline(src: &[u8], pos: &mut usize, width: usize, prev_pixel: &mut Option<[u8; 4]>) -> (res: Result<[Vec<u8>; 4], HdrError>)
    ensures
        match scanline(src@, *old(pos) as int, width as nat, *old(prev_pixel), FallbackMode::OldRle) {
            Some((p, px, last)) => res matches Ok(ch) && channels_hold(ch, px) && *final(pos) as int == p
                && *final(prev_pixel) == last,
            None => res matches Err(HdrError::InvalidData(m)) && *final(prev_pixel) == *old(prev_pixel)
                && m@ == scanline_msg(src@, *old(pos) as int, width as nat, *old(prev_pixel), FallbackMode::OldRle),
        },
        width == 0 ==> *final(pos) == *old(pos),
{
    decode_scanline_with_fallback(src, pos, width, prev_pixel, FallbackMode::OldRle)
}

/// Decode one scanline of `width` pixels at `*pos`, reading a scanline
/// without the new-RLE marker as `fallback` says.
pub fn decode_scanline_with_fallback(
    src: &[u8],
    pos: &mut usize,
    width: usize,
    prev_pixel: &mut Option<[u8; 4]>,
    fallback: FallbackMode,
) -> (res: Result<[Vec<u8>; 4], HdrError>)
    ensures
        match scanline(src@, *old(pos) as int, width as nat, *old(prev_pixel), fallback) {
            Some((p, px, last)) => res matches Ok(ch) && channels_hold(ch, px) && *final(pos) as int == p
                && *final(prev_pixel) == last,
            None => res matches Err(HdrError::InvalidData(m)) && *final(prev_pixel) == *old(prev_pixel)
                && m@ == scanline_msg(src@, *old(pos) as int, width as nat, *old(prev_pixel), fallback),
        },
        width == 0 ==> *final(pos) == *old(pos),
{
    if width == 0 {
        return Err(HdrError::invalid("HDR: zero-width scanline"));
    }
    let p = *pos;
    let n = src.len();
    if 8 <= width && width < 32768 && p <= n && n - p >= 4 && src[p] == 2 && src[p + 1] == 2
        && (src[p + 2] as usize) * 256 + (src[p + 3] as usize) == width
    {
        *pos = p + 4;
        decode_new_rle(src, pos, width, prev_pixel)
    } else {
        match fallback {
            FallbackMode::OldRle => decode_old_rle(src, pos, width, prev_pixel),
            FallbackMode::Uncompressed => decode_flat(src, pos, width, prev_pixel),
        }
    }
}

/// The new-RLE marker that opens a scanline of `width` pixels.
pub open spec fn new_marker(width: nat) -> Seq<u8> {
    seq![2u8, 2u8, (width / 256) as u8, (width % 256) as u8]
}

/// The new-RLE coding of one scanline given by its four channels.
pub open spec fn new_rle_coding(width: nat, r: Seq<u8>, g: Seq<u8>, b: Seq<u8>, e: Seq<u8>) -> Seq<u8> {
    new_marker(width) + rle_encode(r) + rle_encode(g) + rle_encode(b) + rle_encode(e)
}

/// `true` when a new-RLE marker can address a scanline of `width` pixels.
pub open spec fn new_rle_width(width: int) -> bool {
    8 <= width < 32768
}

/// Append the new-RLE coding of one scanline (marker, then the four
/// channels coded one after another). Fails with `Unsupported` when the
/// marker cannot address `width`; `out` is then left unchanged.
pub fn encode_scanline(channels: &[Vec<u8>; 4], width: usize, out: &mut Vec<u8>) -> (r: Result<(), HdrError>)
    requires
        channels[0]@.len() == width,
        channels[1]@.len() == width,
        channels[2]@.len() == width,
        channels[3]@.len() == width,
    ensures
        r is Ok <==> new_rle_width(width as int),
        r is Ok ==> final(out)@ == old(out)@ + new_rle_coding(
            width as nat,
            channels[0]@,
            channels[1]@,
            channels[2]@,
            channels[3]@,
        ),
        r matches Err(e) ==> e is Unsupported && final(out)@ == old(out)@,
{
    if !(8 <= width && width < 32768) {
        return Err(HdrError::unsupported("HDR encoder: new-RLE width must be 8..=32767"));
    }
    out.push(2);
    out.push(2);
    out.push((width / 256) as u8);
    out.push((width % 256) as u8);
    let ghost o = old(out)@;
    assert(out@ =~= o + new_marker(width as nat));
    encode_channel(channels[0].as_slice(), out);
    encode_channel(channels[1].as_slice(), out);
    encode_channel(channels[2].as_slice(), out);
    encode_channel(channels[3].as_slice(), out);
    assert(out@ =~= o + new_rle_coding(width as nat, channels[0]@, channels[1]@, channels[2]@, channels[3]@));
    Ok(())
}

/// The quad an old-RLE literal is written as: a literal whose mantissa is
/// `(1, 1, 1)` would read back as a run sentinel, so its red mantissa is
/// written as `0`.
pub open spec fn dodge_sentinel(q: [u8; 4]) -> [u8; 4] {
    if is_sentinel(q) {
        [0u8, q[1], q[2], q[3]]
    } else {
        q
    }
}

/// Every quad of `px` as an old-RLE literal writes it.
pub open spec fn dodged(px: Seq<[u8; 4]>) -> Seq<[u8; 4]> {
    Seq::new(px.len(), |k: int| dodge_sentinel(px[k]))
}

/// The four bytes of one quad.
pub open spec fn quad_bytes(q: [u8; 4]) -> Seq<u8> {
    seq![q[0], q[1], q[2], q[3]]
}

/// End (exclusive) of the run of quads equal to `px[i]` that follows `i`,
/// scanning from `j`, capped at 255 repeats.
pub open spec fn old_run_scan(px: Seq<[u8; 4]>, i: int, j: int) -> int
    decreases px.len() - j,
{
    if 0 <= j < px.len() && j - i - 1 < 255 && px[j] == px[i] {
        old_run_scan(px, i, j + 1)
    } else {
        j
    }
}

pub proof fn lemma_old_run_scan(px: Seq<[u8; 4]>, i: int, j: int)
    requires
        0 <= i < j <= px.len(),
        j - i - 1 <= 255,
        forall|k: int| i < k < j ==> px[k] == px[i],
    ensures
        j <= old_run_scan(px, i, j) <= px.len(),
        old_run_scan(px, i, j) - i - 1 <= 255,
        forall|k: int| i < k < old_run_scan(px, i, j) ==> px[k] == px[i],
    decreases px.len() - j,
{
    if 0 <= j < px.len() && j - i - 1 < 255 && px[j] == px[i] {
        lemma_old_run_scan(px, i, j + 1);
    }
}

/// The old-RLE coding of the quads `px[i..]`: each quad not repeating its
/// predecessor is written as a literal, followed by one sentinel
/// `(1, 1, 1, k)` when the next `k` quads (at most 255) repeat it.
pub open spec fn old_rle_encode_from(px: Seq<[u8; 4]>, i: int) -> Seq<u8>
    decreases px.len() - i,
{
    if i < 0 || i >= px.len() {
        Seq::<u8>::empty()
    } else {
        let j = old_run_scan(px, i, i + 1);
        proof {
            lemma_old_run_scan(px, i, i + 1);
        }
        let k = j - i - 1;
        quad_bytes(dodge_sentinel(px[i])) + (if k > 0 {
            seq![1u8, 1u8, 1u8, k as u8]
        } else {
            Seq::<u8>::empty()
        }) + old_rle_encode_from(px, j)
    }
}

/// The old-RLE coding of one scanline of quads.
pub open spec fn old_rle_encode(px: Seq<[u8; 4]>) -> Seq<u8> {
    old_rle_encode_from(px, 0)
}

/// The flat (uncompressed) coding of one scanline of quads.
pub open spec fn flat_bytes(px: Seq<[u8; 4]>) -> Seq<u8> {
    Seq::new(4 * px.len(), |k: int| px[k / 4][k % 4])
}

/// The quad at `i` of the four channels.
fn quad_of(channels: &[Vec<u8>; 4], i: usize) -> (q: [u8; 4])
    requires
        i < channels[0]@.len(),
        i < channels[1]@.len(),
        i < channels[2]@.len(),
        i < channels[3]@.len(),
    ensures
        q == [channels[0]@[i as int], channels[1]@[i as int], channels[2]@[i as int], channels[3]@[i as int]],
{
    [channels[0][i], channels[1][i], channels[2][i], channels[3][i]]
}

/// `true` exactly when the two quads are equal.
fn same_quad(a: [u8; 4], b: [u8; 4]) -> (r: bool)
    ensures
        r == (a == b),
{
    let r = a[0] == b[0] && a[1] == b[1] && a[2] == b[2] && a[3] == b[3];
    proof {
        if r {
            assert(a =~= b);
        }
    }
    r
}

/// Append the old-RLE coding of one scanline: literals, each followed by
/// a single `(1, 1, 1, k)` sentinel when the next `k` pixels repeat it.
pub fn encode_scanline_old_rle(channels: &[Vec<u8>; 4], width: usize, out: &mut Vec<u8>)
    requires
        channels[0]@.len() == width,
        channels[1]@.len() == width,
        channels[2]@.len() == width,
        channels[3]@.len() == width,
    ensures
        final(out)@ == old(out)@ + old_rle_encode(
            zip4(channels[0]@, channels[1]@, channels[2]@, channels[3]@),
        ),
{
    let ghost px = zip4(channels[0]@, channels[1]@, channels[2]@, channels[3]@);
    let mut i: usize = 0;
    while i < width
        invariant
            px == zip4(channels[0]@, channels[1]@, channels[2]@, channels[3]@),
            px.len() == width,
            channels[0]@.len() == width,
            channels[1]@.len() == width,
            channels[2]@.len() == width,
            channels[3]@.len() == width,
            i <= width,
            old(out)@ + old_rle_encode(px) == out@ + old_rle_encode_from(px, i as int),
        decreases width - i,
    {
        let ghost o = out@;
        let q = quad_of(channels, i);
        assert(q == px[i as int]);
        let lit: [u8; 4] = if q[0] == 1 && q[1] == 1 && q[2] == 1 {
            [0, q[1], q[2], q[3]]
        } else {
            q
        };
        out.push(lit[0]);
        out.push(lit[1]);
        out.push(lit[2]);
        out.push(lit[3]);
        let mut j = i + 1;
        while j < width && j - i - 1 < 255 && same_quad(quad_of(channels, j), q)
            invariant
                px == zip4(channels[0]@, channels[1]@, channels[2]@, channels[3]@),
                px.len() == width,
                channels[0]@.len() == width,
                channels[1]@.len() == width,
                channels[2]@.len() == width,
                channels[3]@.len() == width,
                q == px[i as int],
                i < j <= width,
                j - i - 1 <= 255,
                forall|k: int| i < k < j ==> px[k] == px[i as int],
                old_run_scan(px, i as int, i + 1) == old_run_scan(px, i as int, j as int),
            decreases width - j,
        {
            j = j + 1;
        }
        proof {
            lemma_old_run_scan(px, i as int, i + 1);
        }
        let k = j - i - 1;
        if k > 0 {
            out.push(1);
            out.push(1);
            out.push(1);
            out.push(k as u8);
        }
        proof {
            assert(lit == dodge_sentinel(px[i as int]));
            let tail = old_rle_encode_from(px, j as int);
            let mid = if k > 0 {
                seq![1u8, 1u8, 1u8, k as u8]
            } else {
                Seq::<u8>::empty()
            };
            assert(old_rle_encode_from(px, i as int) == quad_bytes(lit) + mid + tail);
            assert(out@ =~= o + quad_bytes(lit) + mid);
            assert(o + (quad_bytes(lit) + mid + tail) =~= o + quad_bytes(lit) + mid + tail);
        }
        i = j;
    }
    proof {
        assert(out@ + old_rle_encode_from(px, i as int) =~= out@);
    }
}

/// Append the flat coding of one scanline: `width` plain quads.
pub fn encode_scanline_uncompressed(channels: &[Vec<u8>; 4], width: usize, out: &mut Vec<u8>)
    requires
        channels[0]@.len() == width,
        channels[1]@.len() == width,
        channels[2]@.len() == width,
        channels[3]@.len() == width,
    ensures
        final(out)@ == old(out)@ + flat_bytes(zip4(channels[0]@, channels[1]@, channels[2]@, channels[3]@)),
{
    let ghost px = zip4(channels[0]@, channels[1]@, channels[2]@, channels[3]@);
    let ghost o = out@;
    let mut i: usize = 0;
    while i < width
        invariant
            px == zip4(channels[0]@, channels[1]@, channels[2]@, channels[3]@),
            px.len() == width,
            channels[0]@.len() == width,
            channels[1]@.len() == width,
            channels[2]@.len() == width,
            channels[3]@.len() == width,
            i <= width,
            o == old(out)@,
            out@ == o + flat_bytes(px.take(i as int)),
        decreases width - i,
    {
        let q = quad_of(channels, i);
        out.push(q[0]);
        out.push(q[1]);
        out.push(q[2]);
        out.push(q[3]);
        proof {
            let a = flat_bytes(px.take(i as int));
            let b = flat_bytes(px.take(i + 1));
            assert forall|t: int| 0 <= t < b.len() implies b[t] == (a + quad_bytes(q))[t] by {
                if t < 4 * i {
                    assert(t / 4 < i) by (nonlinear_arith)
                        requires
                            0 <= t < 4 * i,
                    ;
                } else {
                    assert(t / 4 == i && t % 4 == t - 4 * i) by (nonlinear_arith)
                        requires
                            4 * i <= t < 4 * i + 4,
                    ;
                }
            }
            assert(b =~= a + quad_bytes(q));
            assert(out@ =~= o + b);
        }
        i = i + 1;
    }
    assert(px.take(width as int) =~= px);
}


/// A quad that reads as the new-RLE marker of a scanline `w` pixels wide.
pub open spec fn marker_like(q: [u8; 4], w: nat) -> bool {
    &&& new_rle_width(w as int)
    &&& q[0] == 2
    &&& q[1] == 2
    &&& q[2] as int * 256 + q[3] as int == w
}

/// Two adjacent pieces of a stream: where `a + b` sits at `p`, `a` sits at
/// `p` and `b` right after it.
pub proof fn lemma_split_at(s: Seq<u8>, p: int, a: Seq<u8>, b: Seq<u8>)
    requires
        0 <= p,
        p + a.len() + b.len() <= s.len(),
        s.subrange(p, p + a.len() + b.len()) == a + b,
    ensures
        s.subrange(p, p + a.len()) == a,
        s.subrange(p + a.len(), p + a.len() + b.len()) == b,
{
    assert forall|k: int| 0 <= k < a.len() implies s.subrange(p, p + a.len())[k] == a[k] by {
        assert(s.subrange(p, p + a.len() + b.len())[k] == (a + b)[k]);
    }
    assert forall|k: int| 0 <= k < b.len() implies s.subrange(p + a.len(), p + a.len() + b.len())[k] == b[k] by {
        assert(s.subrange(p, p + a.len() + b.len())[a.len() + k] == (a + b)[a.len() + k]);
        assert(s.subrange(p, p + a.len() + b.len())[a.len() + k] == s[p + a.len() + k]);
        assert(s.subrange(p + a.len(), p + a.len() + b.len())[k] == s[p + a.len() + k]);
        assert((a + b)[a.len() + k] == b[k]);
    }
    assert(s.subrange(p, p + a.len()) =~= a);
    assert(s.subrange(p + a.len(), p + a.len() + b.len()) =~= b);
}

proof fn lemma_zip_channels(px: Seq<[u8; 4]>)
    ensures
        zip4(channel_of(px, 0), channel_of(px, 1), channel_of(px, 2), channel_of(px, 3)) == px,
{
    let z = zip4(channel_of(px, 0), channel_of(px, 1), channel_of(px, 2), channel_of(px, 3));
    assert forall|k: int| 0 <= k < px.len() implies z[k] == px[k] by {
        assert(z[k] =~= px[k]);
    }
    assert(z =~= px);
}

/// The new-RLE coding of a scanline of quads.
pub open spec fn new_rle_line(px: Seq<[u8; 4]>) -> Seq<u8> {
    new_rle_coding(px.len(), channel_of(px, 0), channel_of(px, 1), channel_of(px, 2), channel_of(px, 3))
}

/// Reading back a new-RLE coded scanline, wherever it sits in a stream,
/// gives exactly its pixels and stops right after it; the fallback mode
/// and the previous pixel play no part.
pub proof fn law_new_rle_scanline_round_trip(
    px: Seq<[u8; 4]>,
    s: Seq<u8>,
    p: int,
    prev: Option<[u8; 4]>,
    fallback: FallbackMode,
)
    requires
        new_rle_width(px.len() as int),
        0 <= p,
        p + new_rle_line(px).len() <= s.len(),
        s.subrange(p, p + new_rle_line(px).len()) == new_rle_line(px),
    ensures
        scanline(s, p, px.len(), prev, fallback) == Some((p + new_rle_line(px).len(), px, Some(px.last()))),
{
    let w = px.len();
    let c0 = channel_of(px, 0);
    let c1 = channel_of(px, 1);
    let c2 = channel_of(px, 2);
    let c3 = channel_of(px, 3);
    let m = new_marker(w);
    let e0 = rle_encode(c0);
    let e1 = rle_encode(c1);
    let e2 = rle_encode(c2);
    let e3 = rle_encode(c3);
    assert(new_rle_line(px) == m + e0 + e1 + e2 + e3);
    lemma_split_at(s, p, m + e0 + e1 + e2, e3);
    lemma_split_at(s, p, m + e0 + e1, e2);
    lemma_split_at(s, p, m + e0, e1);
    lemma_split_at(s, p, m, e0);
    assert(s[p] == s.subrange(p, p + 4)[0]);
    assert(s[p + 1] == s.subrange(p, p + 4)[1]);
    assert(s[p + 2] == s.subrange(p, p + 4)[2]);
    assert(s[p + 3] == s.subrange(p, p + 4)[3]);
    assert(has_new_marker(s, p, w));
    let p1 = p + 4;
    lemma_rle_encode_from_decodes(c0, 0, s, p1);
    assert(c0.subrange(0, w as int) =~= c0);
    let p2 = p1 + e0.len();
    lemma_rle_encode_from_decodes(c1, 0, s, p2);
    assert(c1.subrange(0, w as int) =~= c1);
    let p3 = p2 + e1.len();
    lemma_rle_encode_from_decodes(c2, 0, s, p3);
    assert(c2.subrange(0, w as int) =~= c2);
    let p4 = p3 + e2.len();
    lemma_rle_encode_from_decodes(c3, 0, s, p4);
    assert(c3.subrange(0, w as int) =~= c3);
    lemma_zip_channels(px);
}

/// Decoding the old-RLE coding of `px[i..]` gives back those quads as
/// literals write them, whatever the decoder's state before.
pub proof fn lemma_old_rle_encode_from_decodes(
    px: Seq<[u8; 4]>,
    i: int,
    s: Seq<u8>,
    p: int,
    last: Option<[u8; 4]>,
    chain: nat,
)
    requires
        0 <= i <= px.len(),
        0 <= p,
        chain <= 3,
        p + old_rle_encode_from(px, i).len() <= s.len(),
        s.subrange(p, p + old_rle_encode_from(px, i).len()) == old_rle_encode_from(px, i),
    ensures
        old_rle(s, p, (px.len() - i) as nat, last, chain) == Some((
            p + old_rle_encode_from(px, i).len(),
            dodged(px).subrange(i, px.len() as int),
            if i < px.len() { Some(dodge_sentinel(px.last())) } else { last },
        )),
    decreases px.len() - i,
{
    let n = px.len();
    if i == n {
        assert(dodged(px).subrange(i, n as int) =~= Seq::<[u8; 4]>::empty());
    } else {
        lemma_old_run_scan(px, i, i + 1);
        let j = old_run_scan(px, i, i + 1);
        let k = j - i - 1;
        let q = dodge_sentinel(px[i]);
        let lit = quad_bytes(q);
        let mid = if k > 0 {
            seq![1u8, 1u8, 1u8, k as u8]
        } else {
            Seq::<u8>::empty()
        };
        let tail = old_rle_encode_from(px, j);
        assert(old_rle_encode_from(px, i) == lit + mid + tail);
        lemma_split_at(s, p, lit + mid, tail);
        lemma_split_at(s, p, lit, mid);
        assert(quad_at(s, p) == q) by {
            assert(s.subrange(p, p + 4)[0] == s[p]);
            assert(s.subrange(p, p + 4)[1] == s[p + 1]);
            assert(s.subrange(p, p + 4)[2] == s[p + 2]);
            assert(s.subrange(p, p + 4)[3] == s[p + 3]);
            assert(quad_at(s, p) =~= q);
        }
        assert(!is_sentinel(q));
        lemma_old_rle_encode_from_decodes(px, j, s, p + 4 + mid.len(), Some(q), if k > 0 { 1nat } else { 0nat });
        let rest = dodged(px).subrange(j, n as int);
        if k > 0 {
            assert(quad_at(s, p + 4) == [1u8, 1u8, 1u8, k as u8]) by {
                assert(s.subrange(p + 4, p + 8)[0] == s[p + 4]);
                assert(s.subrange(p + 4, p + 8)[1] == s[p + 5]);
                assert(s.subrange(p + 4, p + 8)[2] == s[p + 6]);
                assert(s.subrange(p + 4, p + 8)[3] == s[p + 7]);
                assert(quad_at(s, p + 4) =~= [1u8, 1u8, 1u8, k as u8]);
            }
            let r1 = old_rle(s, p + 4, (n - i - 1) as nat, Some(q), 0);
            assert(r1 == prepend_pixels(
                Seq::new(k as nat, |t: int| q),
                old_rle(s, p + 8, (n - i - 1 - k) as nat, Some(q), 1),
            ));
            assert(dodged(px).subrange(i, n as int) =~= seq![q] + (Seq::new(k as nat, |t: int| q) + rest));
        } else {
            assert(dodged(px).subrange(i, n as int) =~= seq![q] + rest);
        }
        if j == n {
            assert(px.last() == px[i] || px.last() == px[j - 1]);
        }
    }
}

/// Reading back an old-RLE coded scanline gives its quads as literals
/// write them (a `(1, 1, 1)` mantissa has its red byte cleared) and stops
/// right after it, unless its first literal looks like a new-RLE marker.
pub proof fn law_old_rle_scanline_round_trip(px: Seq<[u8; 4]>, s: Seq<u8>, p: int, prev: Option<[u8; 4]>)
    requires
        px.len() > 0,
        !marker_like(dodge_sentinel(px[0]), px.len()),
        0 <= p,
        p + old_rle_encode(px).len() <= s.len(),
        s.subrange(p, p + old_rle_encode(px).len()) == old_rle_encode(px),
    ensures
        scanline(s, p, px.len(), prev, FallbackMode::OldRle) == Some((
            p + old_rle_encode(px).len(),
            dodged(px),
            Some(dodge_sentinel(px.last())),
        )),
{
    lemma_old_rle_encode_from_decodes(px, 0, s, p, prev, 0);
    assert(dodged(px).subrange(0, px.len() as int) =~= dodged(px));
    lemma_old_run_scan(px, 0, 1);
    let q = dodge_sentinel(px[0]);
    assert(old_rle_encode(px).subrange(0, 4) =~= quad_bytes(q));
    assert(s[p] == s.subrange(p, p + old_rle_encode(px).len())[0]);
    assert(s[p + 1] == s.subrange(p, p + old_rle_encode(px).len())[1]);
    assert(s[p + 2] == s.subrange(p, p + old_rle_encode(px).len())[2]);
    assert(s[p + 3] == s.subrange(p, p + old_rle_encode(px).len())[3]);
    assert(!has_new_marker(s, p, px.len()));
}

/// Reading back a flat scanline with the uncompressed fallback gives
/// exactly its quads, unless its first quad looks like a new-RLE marker.
pub proof fn law_flat_scanline_round_trip(px: Seq<[u8; 4]>, s: Seq<u8>, p: int, prev: Option<[u8; 4]>)
    requires
        px.len() > 0,
        !marker_like(px[0], px.len()),
        0 <= p,
        p + flat_bytes(px).len() <= s.len(),
        s.subrange(p, p + flat_bytes(px).len()) == flat_bytes(px),
    ensures
        scanline(s, p, px.len(), prev, FallbackMode::Uncompressed) == Some((
            p + 4 * px.len(),
            px,
            Some(px.last()),
        )),
{
    let w = px.len();
    let f = flat_bytes(px);
    assert forall|i: int, c: int| 0 <= i < w && 0 <= c < 4 implies #[trigger] s[p + 4 * i + c] == px[i][c] by {
        assert((4 * i + c) / 4 == i && (4 * i + c) % 4 == c && 4 * i + c < 4 * w) by (nonlinear_arith)
            requires
                0 <= i < w,
                0 <= c < 4,
        ;
        assert(s.subrange(p, p + f.len())[4 * i + c] == f[4 * i + c]);
    }
    let fp = flat_pixels(s, p, w);
    assert(fp.unwrap().1 =~= px) by {
        assert forall|i: int| 0 <= i < w implies quad_at(s, p + 4 * i) == px[i] by {
            assert(s[p + 4 * i + 0] == px[i][0]);
            assert(s[p + 4 * i + 1] == px[i][1]);
            assert(s[p + 4 * i + 2] == px[i][2]);
            assert(s[p + 4 * i + 3] == px[i][3]);
            assert(quad_at(s, p + 4 * i) =~= px[i]);
        }
    }
    assert(s[p + 4 * 0 + 0] == px[0][0]);
    assert(s[p + 4 * 0 + 1] == px[0][1]);
    assert(s[p + 4 * 0 + 2] == px[0][2]);
    assert(s[p + 4 * 0 + 3] == px[0][3]);
    assert(!has_new_marker(s, p, w));
}

/// A decoded channel holds exactly the bytes asked for.
pub proof fn lemma_rle_channel_len(src: Seq<u8>, pos: int, remaining: nat)
    ensures
        rle_channel(src, pos, remaining) matches Some((p, b)) ==> b.len() == remaining,
        rle_channel(src, pos, remaining) matches Some((p, b)) ==> p >= pos && (remaining > 0 ==> 0 <= pos < p
            <= src.len()),
    decreases remaining,
{
    if remaining > 0 && 0 <= pos < src.len() {
        let code = src[pos];
        if code > 128 {
            let run = (code - 128) as nat;
            if run <= remaining && pos + 1 < src.len() {
                lemma_rle_channel_len(src, pos + 2, (remaining - run) as nat);
            }
        } else {
            let run = code as nat;
            if run != 0 && run <= remaining && pos + 1 + run <= src.len() {
                lemma_rle_channel_len(src, pos + 1 + run, (remaining - run) as nat);
            }
        }
    }
}

/// Old-RLE decoding yields exactly the pixels asked for.
pub proof fn lemma_old_rle_len(src: Seq<u8>, pos: int, remaining: nat, last: Option<[u8; 4]>, chain: nat)
    ensures
        old_rle(src, pos, remaining, last, chain) matches Some((p, px, l)) ==> px.len() == remaining,
        old_rle(src, pos, remaining, last, chain) matches Some((p, px, l)) ==> (remaining == 0 ==> p == pos && l
            == last) && (remaining > 0 ==> 0 <= pos < p <= src.len() && l == Some(px.last())),
    decreases remaining, 3 - chain,
{
    if remaining > 0 && 0 <= pos && pos + 4 <= src.len() {
        let px = quad_at(src, pos);
        if is_sentinel(px) {
            if last is Some && chain < 3 {
                let run = (px[3] as nat * chain_scale(chain)) as nat;
                if run <= remaining {
                    lemma_old_rle_len(src, pos + 4, (remaining - run) as nat, last, chain + 1);
                    let rest = old_rle(src, pos + 4, (remaining - run) as nat, last, chain + 1);
                    if rest is Some {
                        let rp = rest.unwrap().1;
                        let all = Seq::new(run, |i: int| last.unwrap()) + rp;
                        if remaining - run > 0 {
                            assert(all.last() == rp.last());
                        } else {
                            assert(all.last() == last.unwrap());
                        }
                    }
                }
            }
        } else {
            lemma_old_rle_len(src, pos + 4, (remaining - 1) as nat, Some(px), 0);
            let rest = old_rle(src, pos + 4, (remaining - 1) as nat, Some(px), 0);
            if rest is Some {
                let rp = rest.unwrap().1;
                assert((seq![px] + rp).last() == if remaining - 1 > 0 {
                    rp.last()
                } else {
                    px
                });
            }
        }
    }
}

/// A decoded scanline holds exactly `width` pixels, starts and ends
/// within the input, moves past at least one byte, and hands on its last
/// pixel as the one a following old-RLE scanline may repeat.
pub proof fn law_scanline_shape(src: Seq<u8>, pos: int, width: nat, prev: Option<[u8; 4]>, fallback: FallbackMode)
    ensures
        scanline(src, pos, width, prev, fallback) matches Some((p, px, l)) ==> {
            &&& width > 0
            &&& px.len() == width
            &&& 0 <= pos < p <= src.len()
            &&& l == Some(px.last())
        },
{
    lemma_scanline_len(src, pos, width, prev, fallback);
    if width > 0 {
        if has_new_marker(src, pos, width) {
            lemma_rle_channel_len(src, pos + 4, width);
            match rle_channel(src, pos + 4, width) {
                Some((p1, r)) => {
                    lemma_rle_channel_len(src, p1, width);
                    match rle_channel(src, p1, width) {
                        Some((p2, g)) => {
                            lemma_rle_channel_len(src, p2, width);
                            match rle_channel(src, p2, width) {
                                Some((p3, b)) => {
                                    lemma_rle_channel_len(src, p3, width);
                                },
                                None => {},
                            }
                        },
                        None => {},
                    }
                },
                None => {},
            }
        } else {
            match fallback {
                FallbackMode::OldRle => {
                    lemma_old_rle_len(src, pos, width, prev, 0);
                },
                FallbackMode::Uncompressed => {
                    assert(4 * width > 0) by (nonlinear_arith)
                        requires
                            width > 0,
                    ;
                },
            }
        }
    }
}

/// A decoded scanline holds exactly `width` pixels.
pub proof fn lemma_scanline_len(src: Seq<u8>, pos: int, width: nat, prev: Option<[u8; 4]>, fallback: FallbackMode)
    ensures
        scanline(src, pos, width, prev, fallback) matches Some((p, px, l)) ==> px.len() == width,
{
    lemma_rle_channel_len(src, pos + 4, width);
    match rle_channel(src, pos + 4, width) {
        Some((p1, r)) => {
            lemma_rle_channel_len(src, p1, width);
        },
        None => {},
    }
    lemma_old_rle_len(src, pos, width, prev, 0);
}

} // verus!
