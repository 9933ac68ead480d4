//! What the decoder reads back from what the encoder writes.

use vstd::prelude::*;
use vstd::utf8::{valid_utf8, decode_utf8, encode_utf8, is_ascii_chars};
use crate::text::{ascii_bytes, line_at, trim_cr_spec, find_byte, newline};
use crate::header::{
    LineEnding, HeaderView, HdrFormat, text_line, eol_bytes, header_record, header_records, keyed_record,
    equals_byte, hash_byte, plain_lines, record_lines, record_line, opt_record_line, pair_lines,
    key_format, key_exposure, key_gamma, key_pixaspect, key_colorcorr, key_primaries, key_software, key_view,
    format_chars, rgbe_format_chars, xyze_format_chars, numeric_lines, tail_lines, header_bytes,
    header_spec, magic_line, default_header, question_byte, resolution_chars, resolution_bytes,
    resolution_at, resolution_spec, sign_char, axis_flag, usize_value, ResolutionView,
};
use crate::limits::HdrLimits;
use crate::rle::{FallbackMode, scanline, marker_like, dodge_sentinel, dodged, new_rle_width};
use crate::codec::{
    RleMode, rows, rows_bytes, line_bytes, disk_row, disk_op, effective_rle, encode_spec, decode_spec,
    PictureView,
};
use crate::geometry::{GeometricOp, inverse_op, op_place, op_swaps, acts_as_inverse};
use crate::image::{transformed, op_dims, lemma_transformed, law_transform_then_inverse_restores, op_source, at};
use crate::text::{dec_chars, join_space, ws_tokens, is_white_space, lemma_dec_chars};
use crate::geometry::AxisSign;
use crate::rle::lemma_split_at;

verus! {

/// The stream `s` holds the bytes `b` at position `p`.
pub open spec fn holds_at(s: Seq<u8>, p: int, b: Seq<u8>) -> bool {
    &&& 0 <= p
    &&& p + b.len() <= s.len()
    &&& s.subrange(p, p + b.len()) == b
}

/// Where `a + b` stands, `a` stands, and `b` right after it.
pub proof fn lemma_holds_split(s: Seq<u8>, p: int, a: Seq<u8>, b: Seq<u8>)
    requires
        holds_at(s, p, a + b),
    ensures
        holds_at(s, p, a),
        holds_at(s, p + a.len(), b),
{
    lemma_split_at(s, p, a, b);
}

/// Bytes that can stand on one text line and be read back: no `\n`, and no
/// `\r` at the end.
pub open spec fn line_safe(b: Seq<u8>) -> bool {
    !b.contains(newline()) && (b.len() == 0 || b.last() != 13)
}

/// A line written with either terminator is read back as its bytes.
pub proof fn lemma_read_text_line(s: Seq<u8>, p: int, b: Seq<u8>, e: LineEnding)
    requires
        holds_at(s, p, text_line(b, e)),
        line_safe(b),
    ensures
        line_at(s, p) matches Some((raw, next)) && trim_cr_spec(raw) == b && next == p + text_line(b, e).len(),
{
    lemma_holds_split(s, p, b, eol_bytes(e));
    assert(s[p + b.len()] == s.subrange(p + b.len(), p + b.len() + eol_bytes(e).len())[0]);
    match e {
        LineEnding::Lf => {
            crate::text::lemma_line_at_written(s, p, b);
        },
        LineEnding::Crlf => {
            let l = b.push(13u8);
            assert(s.subrange(p + b.len(), p + b.len() + 2)[1] == s[p + b.len() + 1]);
            assert(s.subrange(p, p + l.len()) =~= l) by {
                assert forall|k: int| 0 <= k < l.len() implies s.subrange(p, p + l.len())[k] == l[k] by {
                    if k < b.len() {
                        assert(s.subrange(p, p + b.len())[k] == s[p + k]);
                    }
                }
            }
            assert(!l.contains(newline())) by {
                if l.contains(newline()) {
                    let k = choose|k: int| 0 <= k < l.len() && l[k] == newline();
                    if k < b.len() {
                        assert(b[k] == newline());
                    }
                }
            }
            crate::text::lemma_line_at_written(s, p, l);
            assert(l.drop_last() =~= b);
        },
    }
}

/// Reading one header line whose effect is known moves the reader past it.
pub proof fn lemma_records_step(s: Seq<u8>, p: int, l: Seq<u8>, e: LineEnding, h: HeaderView, seen: bool)
    requires
        holds_at(s, p, text_line(l, e)),
        line_safe(l),
        l.len() > 0,
        header_record(l, h, seen) is Ok,
    ensures
        header_records(s, p, h, seen) == header_records(
            s,
            p + text_line(l, e).len(),
            header_record(l, h, seen)->Ok_0.0,
            header_record(l, h, seen)->Ok_0.1,
        ),
{
    lemma_read_text_line(s, p, l, e);
}

/// A `KEY=VALUE` line whose key holds no `=` splits at the end of the key.
pub proof fn lemma_keyed_line(kb: Seq<u8>, vb: Seq<u8>)
    requires
        !kb.contains(equals_byte()),
    ensures
        (kb + seq![61u8] + vb).contains(equals_byte()),
        find_byte(kb + seq![61u8] + vb, equals_byte(), 0) == kb.len(),
        (kb + seq![61u8] + vb).subrange(0, kb.len() as int) == kb,
        (kb + seq![61u8] + vb).subrange(kb.len() as int + 1, (kb + seq![61u8] + vb).len() as int) == vb,
{
    let l = kb + seq![61u8] + vb;
    assert(l[kb.len() as int] == 61u8);
    assert forall|k: int| 0 <= k < kb.len() implies l[k] != equals_byte() by {
        assert(l[k] == kb[k]);
    }
    crate::text::lemma_find_byte_at(l, equals_byte(), 0, kb.len() as int);
    assert(l.subrange(0, kb.len() as int) =~= kb);
    assert(l.subrange(kb.len() as int + 1, l.len() as int) =~= vb);
}

/// The UTF-8 text of `v` is read back as `v`.
pub proof fn lemma_utf8_back(v: Seq<char>)
    ensures
        valid_utf8(encode_utf8(v)),
        decode_utf8(encode_utf8(v)) == v,
{
    vstd::utf8::encode_utf8_valid_utf8(v);
    vstd::utf8::encode_utf8_decode_utf8(v);
}

/// A record line `key=value` with an ASCII key free of `=`.
pub proof fn lemma_record_line_parts(key: Seq<char>, v: Seq<char>)
    requires
        is_ascii_chars(key),
        key.len() > 0,
        !ascii_bytes(key).contains(equals_byte()),
        ascii_bytes(key)[0] != hash_byte(),
    ensures
        ({
            let l = encode_utf8(key) + seq![61u8] + encode_utf8(v);
            &&& l.len() > 0
            &&& l[0] != hash_byte()
            &&& l.contains(equals_byte())
            &&& find_byte(l, equals_byte(), 0) == key.len()
            &&& l.subrange(0, key.len() as int) == ascii_bytes(key)
            &&& l.subrange(key.len() as int + 1, l.len() as int) == encode_utf8(v)
            &&& valid_utf8(ascii_bytes(key))
            &&& valid_utf8(encode_utf8(v))
            &&& decode_utf8(encode_utf8(v)) == v
        }),
{
    crate::text::lemma_ascii_encode(key);
    lemma_keyed_line(ascii_bytes(key), encode_utf8(v));
    lemma_utf8_back(v);
    let l = encode_utf8(key) + seq![61u8] + encode_utf8(v);
    assert(l[0] == ascii_bytes(key)[0]);
}

/// A record line is safe to read back when its value's bytes are.
pub proof fn lemma_record_line_safe(kb: Seq<u8>, vb: Seq<u8>)
    requires
        !kb.contains(newline()),
        line_safe(vb),
    ensures
        line_safe(kb + seq![61u8] + vb),
{
    let l = kb + seq![61u8] + vb;
    assert forall|k: int| 0 <= k < l.len() implies l[k] != newline() by {
        if k < kb.len() {
            assert(l[k] == kb[k]);
        } else if k > kb.len() {
            assert(l[k] == vb[k - kb.len() - 1]);
        }
    }
    if vb.len() > 0 {
        assert(l.last() == vb.last());
    }
}

/// A text value the encoder can put on a line and the decoder reads back
/// unchanged.
pub open spec fn value_safe(v: Seq<char>) -> bool {
    line_safe(encode_utf8(v))
}

/// The key of a typed record.
pub open spec fn typed_key_bytes(kb: Seq<u8>) -> bool {
    ||| kb == ascii_bytes(key_format())
    ||| kb == ascii_bytes(key_exposure())
    ||| kb == ascii_bytes(key_gamma())
    ||| kb == ascii_bytes(key_pixaspect())
    ||| kb == ascii_bytes(key_colorcorr())
    ||| kb == ascii_bytes(key_primaries())
    ||| kb == ascii_bytes(key_software())
    ||| kb == ascii_bytes(key_view())
}

/// A program line the decoder reads back as one: not empty, no `#` first,
/// no `=`, safe on a line.
pub open spec fn command_ok(c: Seq<char>) -> bool {
    let b = encode_utf8(c);
    &&& b.len() > 0
    &&& b[0] != hash_byte()
    &&& !b.contains(equals_byte())
    &&& line_safe(b)
}

/// A free-form record the decoder reads back as one: the key holds no `=`
/// and no `\n`, does not start with `#` and is not a typed key.
pub open spec fn other_ok(k: Seq<char>, v: Seq<char>) -> bool {
    let kb = encode_utf8(k);
    &&& !kb.contains(equals_byte())
    &&& !kb.contains(newline())
    &&& (kb.len() == 0 || kb[0] != hash_byte())
    &&& !typed_key_bytes(kb)
    &&& value_safe(v)
}

/// Every value in the list is safe on a line.
pub open spec fn all_safe(vs: Seq<Seq<char>>) -> bool {
    forall|i: int| 0 <= i < vs.len() ==> value_safe(#[trigger] vs[i])
}

/// The text of a header that reads back exactly as written, with `magic`
/// on its magic line.
pub open spec fn writable_header(h: HeaderView, magic: Seq<char>) -> bool {
    &&& magic.len() > 0
    &&& value_safe(magic)
    &&& forall|i: int| 0 <= i < h.commands.len() ==> command_ok(#[trigger] h.commands[i])
    &&& all_safe(h.gamma)
    &&& all_safe(h.exposure)
    &&& all_safe(h.pixaspect)
    &&& all_safe(h.colorcorr)
    &&& all_safe(h.primaries)
    &&& all_numeric(key_gamma(), h.gamma)
    &&& all_numeric(key_exposure(), h.exposure)
    &&& all_numeric(key_pixaspect(), h.pixaspect)
    &&& all_numeric(key_colorcorr(), h.colorcorr)
    &&& all_numeric(key_primaries(), h.primaries)
    &&& (h.software matches Some(v) ==> value_safe(v))
    &&& (h.view matches Some(v) ==> value_safe(v))
    &&& forall|i: int| 0 <= i < h.other.len() ==> other_ok(#[trigger] h.other[i].0, h.other[i].1)
    &&& all_safe(h.comments)
}

proof fn lemma_differ(a: Seq<u8>, b: Seq<u8>, i: int)
    requires
        0 <= i < a.len(),
        i < b.len(),
        a[i] != b[i],
    ensures
        a != b,
{
}

/// The typed keys are eight different byte strings, ASCII, with no `=` and
/// no `#` first.
pub proof fn lemma_typed_keys()
    ensures
        ascii_bytes(key_exposure()) != ascii_bytes(key_format()),
        ascii_bytes(key_gamma()) != ascii_bytes(key_format()),
        ascii_bytes(key_gamma()) != ascii_bytes(key_exposure()),
        ascii_bytes(key_pixaspect()) != ascii_bytes(key_format()),
        ascii_bytes(key_pixaspect()) != ascii_bytes(key_exposure()),
        ascii_bytes(key_pixaspect()) != ascii_bytes(key_gamma()),
        ascii_bytes(key_colorcorr()) != ascii_bytes(key_format()),
        ascii_bytes(key_colorcorr()) != ascii_bytes(key_exposure()),
        ascii_bytes(key_colorcorr()) != ascii_bytes(key_gamma()),
        ascii_bytes(key_colorcorr()) != ascii_bytes(key_pixaspect()),
        ascii_bytes(key_primaries()) != ascii_bytes(key_format()),
        ascii_bytes(key_primaries()) != ascii_bytes(key_exposure()),
        ascii_bytes(key_primaries()) != ascii_bytes(key_gamma()),
        ascii_bytes(key_primaries()) != ascii_bytes(key_pixaspect()),
        ascii_bytes(key_primaries()) != ascii_bytes(key_colorcorr()),
        ascii_bytes(key_software()) != ascii_bytes(key_format()),
        ascii_bytes(key_software()) != ascii_bytes(key_exposure()),
        ascii_bytes(key_software()) != ascii_bytes(key_gamma()),
        ascii_bytes(key_software()) != ascii_bytes(key_pixaspect()),
        ascii_bytes(key_software()) != ascii_bytes(key_colorcorr()),
        ascii_bytes(key_software()) != ascii_bytes(key_primaries()),
        ascii_bytes(key_view()) != ascii_bytes(key_format()),
        ascii_bytes(key_view()) != ascii_bytes(key_exposure()),
        ascii_bytes(key_view()) != ascii_bytes(key_gamma()),
        ascii_bytes(key_view()) != ascii_bytes(key_pixaspect()),
        ascii_bytes(key_view()) != ascii_bytes(key_colorcorr()),
        ascii_bytes(key_view()) != ascii_bytes(key_primaries()),
        ascii_bytes(key_view()) != ascii_bytes(key_software()),
        is_ascii_chars(key_format()),
        is_ascii_chars(key_exposure()),
        is_ascii_chars(key_gamma()),
        is_ascii_chars(key_pixaspect()),
        is_ascii_chars(key_colorcorr()),
        is_ascii_chars(key_primaries()),
        is_ascii_chars(key_software()),
        is_ascii_chars(key_view()),
        is_ascii_chars(rgbe_format_chars()),
        is_ascii_chars(xyze_format_chars()),
{
    let f = ascii_bytes(key_format());
    let e = ascii_bytes(key_exposure());
    let g = ascii_bytes(key_gamma());
    let p = ascii_bytes(key_pixaspect());
    let c = ascii_bytes(key_colorcorr());
    let r = ascii_bytes(key_primaries());
    let s = ascii_bytes(key_software());
    let v = ascii_bytes(key_view());
    lemma_differ(e, f, 0);
    lemma_differ(g, f, 0);
    lemma_differ(g, e, 0);
    lemma_differ(p, f, 0);
    lemma_differ(p, e, 0);
    lemma_differ(p, g, 0);
    lemma_differ(c, f, 0);
    lemma_differ(c, e, 0);
    lemma_differ(c, g, 0);
    lemma_differ(c, p, 0);
    lemma_differ(r, f, 0);
    lemma_differ(r, e, 0);
    lemma_differ(r, g, 0);
    lemma_differ(r, p, 1);
    lemma_differ(r, c, 0);
    lemma_differ(s, f, 0);
    lemma_differ(s, e, 0);
    lemma_differ(s, g, 0);
    lemma_differ(s, p, 0);
    lemma_differ(s, c, 0);
    lemma_differ(s, r, 0);
    lemma_differ(v, f, 0);
    lemma_differ(v, e, 0);
    lemma_differ(v, g, 0);
    lemma_differ(v, p, 0);
    lemma_differ(v, c, 0);
    lemma_differ(v, r, 0);
    lemma_differ(v, s, 0);
}

/// A typed key's bytes hold no `=`, no `\n`, and no `#` first.
pub proof fn lemma_key_plain(key: Seq<char>)
    requires
        key.len() > 0,
        forall|i: int| 0 <= i < key.len() ==> 'A' <= #[trigger] key[i] <= 'Z',
    ensures
        is_ascii_chars(key),
        !ascii_bytes(key).contains(equals_byte()),
        !ascii_bytes(key).contains(newline()),
        ascii_bytes(key)[0] != hash_byte(),
{
    let b = ascii_bytes(key);
    assert forall|i: int| 0 <= i < b.len() implies b[i] != equals_byte() && b[i] != newline() by {
        assert('A' <= key[i] <= 'Z');
        assert(65 <= key[i] as u8 <= 90);
    }
    assert('A' <= key[0] <= 'Z');
    assert(65 <= key[0] as u8 <= 90);
}

/// Program lines are read back in order, each added to the header's list.
pub proof fn lemma_read_commands(s: Seq<u8>, p: int, vs: Seq<Seq<char>>, e: LineEnding, h: HeaderView, seen: bool)
    requires
        holds_at(s, p, plain_lines(Seq::empty(), vs, e)),
        forall|i: int| 0 <= i < vs.len() ==> command_ok(#[trigger] vs[i]),
    ensures
        header_records(s, p, h, seen) == header_records(
            s,
            p + plain_lines(Seq::empty(), vs, e).len(),
            HeaderView { commands: h.commands + vs, ..h },
            seen,
        ),
    decreases vs.len(),
{
    if vs.len() == 0 {
        assert(h.commands + vs =~= h.commands);
    } else {
        let front = vs.drop_last();
        let last = vs.last();
        let l = Seq::<u8>::empty() + encode_utf8(last);
        assert(l =~= encode_utf8(last));
        lemma_holds_split(s, p, plain_lines(Seq::empty(), front, e), text_line(l, e));
        assert forall|i: int| 0 <= i < front.len() implies command_ok(#[trigger] front[i]) by {
            assert(front[i] == vs[i]);
        }
        lemma_read_commands(s, p, front, e, h, seen);
        let h1 = HeaderView { commands: h.commands + front, ..h };
        assert(command_ok(vs[vs.len() - 1]));
        lemma_utf8_back(last);
        assert(header_record(l, h1, seen) == Ok::<(HeaderView, bool), crate::header::Fault>((HeaderView { commands: h1.commands.push(last), ..h1 }, seen)));
        lemma_records_step(s, p + plain_lines(Seq::empty(), front, e).len(), l, e, h1, seen);
        assert(h1.commands.push(last) =~= h.commands + vs);
    }
}

/// Comment lines are read back in order, each added to the header's list.
pub proof fn lemma_read_comments(s: Seq<u8>, p: int, vs: Seq<Seq<char>>, e: LineEnding, h: HeaderView, seen: bool)
    requires
        holds_at(s, p, plain_lines(seq![35u8], vs, e)),
        all_safe(vs),
    ensures
        header_records(s, p, h, seen) == header_records(
            s,
            p + plain_lines(seq![35u8], vs, e).len(),
            HeaderView { comments: h.comments + vs, ..h },
            seen,
        ),
    decreases vs.len(),
{
    if vs.len() == 0 {
        assert(h.comments + vs =~= h.comments);
    } else {
        let front = vs.drop_last();
        let last = vs.last();
        let b = encode_utf8(last);
        let l = seq![35u8] + b;
        lemma_holds_split(s, p, plain_lines(seq![35u8], front, e), text_line(l, e));
        assert forall|i: int| 0 <= i < front.len() implies value_safe(#[trigger] front[i]) by {
            assert(front[i] == vs[i]);
        }
        lemma_read_comments(s, p, front, e, h, seen);
        let h1 = HeaderView { comments: h.comments + front, ..h };
        assert(value_safe(vs[vs.len() - 1]));
        lemma_utf8_back(last);
        assert(l.subrange(1, l.len() as int) =~= b);
        assert(line_safe(l)) by {
            assert forall|k: int| 0 <= k < l.len() implies l[k] != newline() by {
                if k > 0 {
                    assert(l[k] == b[k - 1]);
                }
            }
            if b.len() > 0 {
                assert(l.last() == b.last());
            }
        }
        lemma_records_step(s, p + plain_lines(seq![35u8], front, e).len(), l, e, h1, seen);
        assert(h1.comments.push(last) =~= h.comments + vs);
    }
}

/// One of the five numeric record keys.
pub open spec fn numeric_key(key: Seq<char>) -> bool {
    ||| key == key_gamma()
    ||| key == key_exposure()
    ||| key == key_pixaspect()
    ||| key == key_colorcorr()
    ||| key == key_primaries()
}

/// A value the decoder accepts for the numeric record `key`: one float, or
/// for `COLORCORR` three, or for `PRIMARIES` eight among its tokens.
pub open spec fn numeric_ok(key: Seq<char>, v: Seq<char>) -> bool {
    if key == key_colorcorr() {
        crate::header::colorcorr_fault(v) is None
    } else if key == key_primaries() {
        crate::header::float_count(crate::text::ws_tokens(v)) == 8
    } else {
        crate::text::float_text(crate::text::trim_ws(v))
    }
}

/// Every value is accepted for the numeric record `key`.
pub open spec fn all_numeric(key: Seq<char>, vs: Seq<Seq<char>>) -> bool {
    forall|i: int| 0 <= i < vs.len() ==> numeric_ok(key, #[trigger] vs[i])
}

/// The header with `vs` added to the list of the numeric record `key`.
pub open spec fn with_values(h: HeaderView, key: Seq<char>, vs: Seq<Seq<char>>) -> HeaderView {
    if key == key_gamma() {
        HeaderView { gamma: h.gamma + vs, ..h }
    } else if key == key_exposure() {
        HeaderView { exposure: h.exposure + vs, ..h }
    } else if key == key_pixaspect() {
        HeaderView { pixaspect: h.pixaspect + vs, ..h }
    } else if key == key_colorcorr() {
        HeaderView { colorcorr: h.colorcorr + vs, ..h }
    } else {
        HeaderView { primaries: h.primaries + vs, ..h }
    }
}

proof fn lemma_keys_plain()
    ensures
        !ascii_bytes(key_format()).contains(equals_byte()),
        !ascii_bytes(key_exposure()).contains(equals_byte()),
        !ascii_bytes(key_gamma()).contains(equals_byte()),
        !ascii_bytes(key_pixaspect()).contains(equals_byte()),
        !ascii_bytes(key_colorcorr()).contains(equals_byte()),
        !ascii_bytes(key_primaries()).contains(equals_byte()),
        !ascii_bytes(key_software()).contains(equals_byte()),
        !ascii_bytes(key_view()).contains(equals_byte()),
        !ascii_bytes(key_format()).contains(newline()),
        !ascii_bytes(key_exposure()).contains(newline()),
        !ascii_bytes(key_gamma()).contains(newline()),
        !ascii_bytes(key_pixaspect()).contains(newline()),
        !ascii_bytes(key_colorcorr()).contains(newline()),
        !ascii_bytes(key_primaries()).contains(newline()),
        !ascii_bytes(key_software()).contains(newline()),
        !ascii_bytes(key_view()).contains(newline()),
        ascii_bytes(key_format())[0] != hash_byte(),
        ascii_bytes(key_exposure())[0] != hash_byte(),
        ascii_bytes(key_gamma())[0] != hash_byte(),
        ascii_bytes(key_pixaspect())[0] != hash_byte(),
        ascii_bytes(key_colorcorr())[0] != hash_byte(),
        ascii_bytes(key_primaries())[0] != hash_byte(),
        ascii_bytes(key_software())[0] != hash_byte(),
        ascii_bytes(key_view())[0] != hash_byte(),
{
    lemma_key_plain(key_format());
    lemma_key_plain(key_exposure());
    lemma_key_plain(key_gamma());
    lemma_key_plain(key_pixaspect());
    lemma_key_plain(key_colorcorr());
    lemma_key_plain(key_primaries());
    lemma_key_plain(key_software());
    lemma_key_plain(key_view());
}

/// The parts of a typed record line, read back.
proof fn lemma_typed_record_line(key: Seq<char>, v: Seq<char>)
    requires
        key == key_format() || key == key_exposure() || key == key_gamma() || key == key_pixaspect()
            || key == key_colorcorr() || key == key_primaries() || key == key_software() || key == key_view(),
        value_safe(v),
    ensures
        ({
            let l = encode_utf8(key) + seq![61u8] + encode_utf8(v);
            &&& l.len() > 0
            &&& line_safe(l)
            &&& header_record(l, HeaderView { ..default_header() }, false) == header_record(l, default_header(), false)
        }),
        forall|h: HeaderView, seen: bool|
            #[trigger] header_record(encode_utf8(key) + seq![61u8] + encode_utf8(v), h, seen) == keyed_record(ascii_bytes(key), v, h, seen),
{
    lemma_keys_plain();
    lemma_typed_keys();
    lemma_record_line_parts(key, v);
    crate::text::lemma_ascii_encode(key);
    lemma_record_line_safe(ascii_bytes(key), encode_utf8(v));
}

/// One numeric record adds its value to its list.
proof fn lemma_value_step(key: Seq<char>, v: Seq<char>, h: HeaderView, seen: bool)
    requires
        numeric_key(key),
        numeric_ok(key, v),
    ensures
        keyed_record(ascii_bytes(key), v, h, seen) == Ok::<(HeaderView, bool), crate::header::Fault>((with_values(h, key, seq![v]), seen)),
{
    lemma_typed_keys();
    assert(h.gamma.push(v) =~= h.gamma + seq![v]);
    assert(h.exposure.push(v) =~= h.exposure + seq![v]);
    assert(h.pixaspect.push(v) =~= h.pixaspect + seq![v]);
    assert(h.colorcorr.push(v) =~= h.colorcorr + seq![v]);
    assert(h.primaries.push(v) =~= h.primaries + seq![v]);
}

proof fn lemma_with_values_append(h: HeaderView, key: Seq<char>, a: Seq<Seq<char>>, b: Seq<Seq<char>>)
    ensures
        with_values(with_values(h, key, a), key, b) == with_values(h, key, a + b),
{
    assert(h.gamma + a + b =~= h.gamma + (a + b));
    assert(h.exposure + a + b =~= h.exposure + (a + b));
    assert(h.pixaspect + a + b =~= h.pixaspect + (a + b));
    assert(h.colorcorr + a + b =~= h.colorcorr + (a + b));
    assert(h.primaries + a + b =~= h.primaries + (a + b));
}

/// Numeric records are read back in order, each added to its list.
pub proof fn lemma_read_values(s: Seq<u8>, p: int, key: Seq<char>, vs: Seq<Seq<char>>, e: LineEnding, h: HeaderView, seen: bool)
    requires
        numeric_key(key),
        holds_at(s, p, record_lines(key, vs, e)),
        all_safe(vs),
        all_numeric(key, vs),
    ensures
        header_records(s, p, h, seen) == header_records(
            s,
            p + record_lines(key, vs, e).len(),
            with_values(h, key, vs),
            seen,
        ),
    decreases vs.len(),
{
    if vs.len() == 0 {
        lemma_with_values_append(h, key, vs, vs);
        assert(h.gamma + vs =~= h.gamma);
        assert(h.exposure + vs =~= h.exposure);
        assert(h.pixaspect + vs =~= h.pixaspect);
        assert(h.colorcorr + vs =~= h.colorcorr);
        assert(h.primaries + vs =~= h.primaries);
    } else {
        let front = vs.drop_last();
        let last = vs.last();
        let l = encode_utf8(key) + seq![61u8] + encode_utf8(last);
        lemma_holds_split(s, p, record_lines(key, front, e), record_line(key, last, e));
        assert forall|i: int| 0 <= i < front.len() implies value_safe(#[trigger] front[i]) by {
            assert(front[i] == vs[i]);
        }
        assert forall|i: int| 0 <= i < front.len() implies numeric_ok(key, #[trigger] front[i]) by {
            assert(front[i] == vs[i]);
        }
        assert(numeric_ok(key, vs[vs.len() - 1]));
        lemma_read_values(s, p, key, front, e, h, seen);
        let h1 = with_values(h, key, front);
        assert(value_safe(vs[vs.len() - 1]));
        lemma_typed_record_line(key, last);
        lemma_value_step(key, last, h1, seen);
        lemma_records_step(s, p + record_lines(key, front, e).len(), l, e, h1, seen);
        lemma_with_values_append(h, key, front, seq![last]);
        assert(front + seq![last] =~= vs);
    }
}

/// The `FORMAT` record is read back as the format, the first one seen.
pub proof fn lemma_read_format(s: Seq<u8>, p: int, f: HdrFormat, e: LineEnding, h: HeaderView)
    requires
        holds_at(s, p, record_line(key_format(), format_chars(f), e)),
    ensures
        header_records(s, p, h, false) == header_records(
            s,
            p + record_line(key_format(), format_chars(f), e).len(),
            HeaderView { format: f, ..h },
            true,
        ),
{
    lemma_typed_keys();
    let v = format_chars(f);
    crate::text::lemma_ascii_encode(v);
    assert(value_safe(v)) by {
        let b = encode_utf8(v);
        assert forall|k: int| 0 <= k < b.len() implies b[k] != newline() by {
            assert(b[k] == v[k] as u8);
        }
        assert(b.last() == v.last() as u8);
    }
    lemma_typed_record_line(key_format(), v);
    crate::text::lemma_trim_plain(v);
    if f == HdrFormat::Xyze {
        assert(xyze_format_chars()[11] != rgbe_format_chars()[11]);
    }
    lemma_records_step(s, p, encode_utf8(key_format()) + seq![61u8] + encode_utf8(v), e, h, false);
}

/// The `SOFTWARE` record, when there is one, is read back.
pub proof fn lemma_read_software(s: Seq<u8>, p: int, v: Option<Seq<char>>, e: LineEnding, h: HeaderView, seen: bool)
    requires
        holds_at(s, p, opt_record_line(key_software(), v, e)),
        v matches Some(x) ==> value_safe(x),
        v is None ==> h.software is None,
    ensures
        header_records(s, p, h, seen) == header_records(
            s,
            p + opt_record_line(key_software(), v, e).len(),
            HeaderView { software: v, ..h },
            seen,
        ),
{
    if let Some(x) = v {
        lemma_typed_record_line(key_software(), x);
        lemma_typed_keys();
        lemma_records_step(s, p, encode_utf8(key_software()) + seq![61u8] + encode_utf8(x), e, h, seen);
    }
}

/// The `VIEW` record, when there is one, is read back as written when no
/// earlier one was read.
pub proof fn lemma_read_view(s: Seq<u8>, p: int, v: Option<Seq<char>>, e: LineEnding, h: HeaderView, seen: bool)
    requires
        holds_at(s, p, opt_record_line(key_view(), v, e)),
        v matches Some(x) ==> value_safe(x),
        h.view is None,
    ensures
        header_records(s, p, h, seen) == header_records(
            s,
            p + opt_record_line(key_view(), v, e).len(),
            HeaderView { view: v, ..h },
            seen,
        ),
{
    if let Some(x) = v {
        lemma_typed_record_line(key_view(), x);
        lemma_typed_keys();
        lemma_records_step(s, p, encode_utf8(key_view()) + seq![61u8] + encode_utf8(x), e, h, seen);
    }
}

/// Free-form records are read back in order.
pub proof fn lemma_read_pairs(s: Seq<u8>, p: int, ps: Seq<(Seq<char>, Seq<char>)>, e: LineEnding, h: HeaderView, seen: bool)
    requires
        holds_at(s, p, pair_lines(ps, e)),
        forall|i: int| 0 <= i < ps.len() ==> other_ok(#[trigger] ps[i].0, ps[i].1),
    ensures
        header_records(s, p, h, seen) == header_records(
            s,
            p + pair_lines(ps, e).len(),
            HeaderView { other: h.other + ps, ..h },
            seen,
        ),
    decreases ps.len(),
{
    if ps.len() == 0 {
        assert(h.other + ps =~= h.other);
    } else {
        let front = ps.drop_last();
        let (k, v) = ps.last();
        let kb = encode_utf8(k);
        let l = kb + seq![61u8] + encode_utf8(v);
        lemma_holds_split(s, p, pair_lines(front, e), record_line(k, v, e));
        assert forall|i: int| 0 <= i < front.len() implies other_ok(#[trigger] front[i].0, front[i].1) by {
            assert(front[i] == ps[i]);
        }
        lemma_read_pairs(s, p, front, e, h, seen);
        let h1 = HeaderView { other: h.other + front, ..h };
        assert(other_ok(ps[ps.len() - 1].0, ps[ps.len() - 1].1));
        lemma_keyed_line(kb, encode_utf8(v));
        lemma_utf8_back(k);
        lemma_utf8_back(v);
        lemma_record_line_safe(kb, encode_utf8(v));
        if kb.len() > 0 {
            assert(l[0] == kb[0]);
        }
        assert(header_record(l, h1, seen) == keyed_record(kb, v, h1, seen));
        lemma_records_step(s, p + pair_lines(front, e).len(), l, e, h1, seen);
        assert(h1.other.push((k, v)) =~= h.other + ps);
    }
}

/// The five numeric record lists are read back.
pub proof fn lemma_read_numeric(s: Seq<u8>, p: int, hv: HeaderView, e: LineEnding, h: HeaderView, seen: bool)
    requires
        holds_at(s, p, numeric_lines(hv, e)),
        all_safe(hv.gamma),
        all_safe(hv.exposure),
        all_safe(hv.pixaspect),
        all_safe(hv.colorcorr),
        all_safe(hv.primaries),
        all_numeric(key_gamma(), hv.gamma),
        all_numeric(key_exposure(), hv.exposure),
        all_numeric(key_pixaspect(), hv.pixaspect),
        all_numeric(key_colorcorr(), hv.colorcorr),
        all_numeric(key_primaries(), hv.primaries),
    ensures
        header_records(s, p, h, seen) == header_records(
            s,
            p + numeric_lines(hv, e).len(),
            HeaderView {
                gamma: h.gamma + hv.gamma,
                exposure: h.exposure + hv.exposure,
                pixaspect: h.pixaspect + hv.pixaspect,
                colorcorr: h.colorcorr + hv.colorcorr,
                primaries: h.primaries + hv.primaries,
                ..h
            },
            seen,
        ),
{
    let g = record_lines(key_gamma(), hv.gamma, e);
    let x = record_lines(key_exposure(), hv.exposure, e);
    let a = record_lines(key_pixaspect(), hv.pixaspect, e);
    let c = record_lines(key_colorcorr(), hv.colorcorr, e);
    let r = record_lines(key_primaries(), hv.primaries, e);
    lemma_holds_split(s, p, g + x + a + c, r);
    lemma_holds_split(s, p, g + x + a, c);
    lemma_holds_split(s, p, g + x, a);
    lemma_holds_split(s, p, g, x);
    lemma_typed_keys();
    lemma_read_values(s, p, key_gamma(), hv.gamma, e, h, seen);
    let h1 = with_values(h, key_gamma(), hv.gamma);
    lemma_read_values(s, p + g.len(), key_exposure(), hv.exposure, e, h1, seen);
    let h2 = with_values(h1, key_exposure(), hv.exposure);
    lemma_read_values(s, p + g.len() + x.len(), key_pixaspect(), hv.pixaspect, e, h2, seen);
    let h3 = with_values(h2, key_pixaspect(), hv.pixaspect);
    lemma_read_values(s, p + g.len() + x.len() + a.len(), key_colorcorr(), hv.colorcorr, e, h3, seen);
    let h4 = with_values(h3, key_colorcorr(), hv.colorcorr);
    lemma_read_values(s, p + g.len() + x.len() + a.len() + c.len(), key_primaries(), hv.primaries, e, h4, seen);
}

/// The records after the numeric ones and the blank line are read back,
/// which ends the header.
#[verifier::rlimit(40)]
pub proof fn lemma_read_tail(s: Seq<u8>, p: int, hv: HeaderView, e: LineEnding, h: HeaderView, seen: bool)
    requires
        holds_at(s, p, tail_lines(hv, e)),
        hv.software matches Some(v) ==> value_safe(v),
        hv.view matches Some(v) ==> value_safe(v),
        forall|i: int| 0 <= i < hv.other.len() ==> other_ok(#[trigger] hv.other[i].0, hv.other[i].1),
        all_safe(hv.comments),
        h.software is None,
        h.view is None,
    ensures
        header_records(s, p, h, seen) == Ok::<(HeaderView, int), crate::header::Fault>((
            HeaderView {
                software: hv.software,
                view: hv.view,
                other: h.other + hv.other,
                comments: h.comments + hv.comments,
                ..h
            },
            p + tail_lines(hv, e).len(),
        )),
{
    let sw = opt_record_line(key_software(), hv.software, e);
    let vw = opt_record_line(key_view(), hv.view, e);
    let ot = pair_lines(hv.other, e);
    let cm = plain_lines(seq![35u8], hv.comments, e);
    let nl = eol_bytes(e);
    lemma_holds_split(s, p, sw + vw + ot + cm, nl);
    lemma_holds_split(s, p, sw + vw + ot, cm);
    lemma_holds_split(s, p, sw + vw, ot);
    lemma_holds_split(s, p, sw, vw);
    lemma_read_software(s, p, hv.software, e, h, seen);
    let h1 = HeaderView { software: hv.software, ..h };
    lemma_read_view(s, p + sw.len(), hv.view, e, h1, seen);
    let h2 = HeaderView { view: hv.view, ..h1 };
    lemma_read_pairs(s, p + sw.len() + vw.len(), hv.other, e, h2, seen);
    let h3 = HeaderView { other: h2.other + hv.other, ..h2 };
    lemma_read_comments(s, p + sw.len() + vw.len() + ot.len(), hv.comments, e, h3, seen);
    let q = p + sw.len() + vw.len() + ot.len() + cm.len();
    assert(text_line(Seq::<u8>::empty(), e) =~= nl);
    lemma_read_text_line(s, q, Seq::<u8>::empty(), e);
}

/// The magic line is read back with its identifier.
pub proof fn lemma_read_magic(s: Seq<u8>, magic: Seq<char>, e: LineEnding)
    requires
        holds_at(s, 0, text_line(seq![35u8, 63u8] + encode_utf8(magic), e)),
        magic.len() > 0,
        value_safe(magic),
    ensures
        magic_line(s, 0) == Ok::<(Seq<char>, int), crate::header::Fault>((magic, text_line(seq![35u8, 63u8] + encode_utf8(magic), e).len() as int)),
{
    let b = encode_utf8(magic);
    let t = seq![35u8, 63u8] + b;
    lemma_utf8_back(magic);
    assert(b.len() > 0) by {
        if b.len() == 0 {
            assert(decode_utf8(b) =~= Seq::<char>::empty());
        }
    }
    assert(line_safe(t)) by {
        assert forall|k: int| 0 <= k < t.len() implies t[k] != newline() by {
            if k >= 2 {
                assert(t[k] == b[k - 2]);
            }
        }
        assert(t.last() == b.last());
    }
    lemma_read_text_line(s, 0, t, e);
    assert(t.subrange(2, t.len() as int) =~= b);
}

/// The header the encoder writes is read back: the identifier on its magic
/// line and every record, with the axis fields at their defaults (the
/// resolution line sets them).
pub proof fn lemma_read_header(s: Seq<u8>, hv: HeaderView, magic: Seq<char>, e: LineEnding)
    requires
        holds_at(s, 0, header_bytes(hv, magic, e)),
        writable_header(hv, magic),
    ensures
        header_spec(s, 0) == Ok::<(HeaderView, int), crate::header::Fault>((
            HeaderView {
                magic_id: Some(magic),
                y_sign: AxisSign::Decreasing,
                x_sign: AxisSign::Increasing,
                x_first: false,
                ..hv
            },
            header_bytes(hv, magic, e).len() as int,
        )),
{
    let a = text_line(seq![35u8, 63u8] + encode_utf8(magic), e);
    let b = plain_lines(Seq::empty(), hv.commands, e);
    let c = record_line(key_format(), format_chars(hv.format), e);
    let d = numeric_lines(hv, e);
    let t = tail_lines(hv, e);
    lemma_holds_split(s, 0, a + b + c + d, t);
    lemma_holds_split(s, 0, a + b + c, d);
    lemma_holds_split(s, 0, a + b, c);
    lemma_holds_split(s, 0, a, b);
    lemma_read_magic(s, magic, e);
    let h0 = HeaderView { magic_id: Some(magic), ..default_header() };
    lemma_read_commands(s, a.len() as int, hv.commands, e, h0, false);
    let h1 = HeaderView { commands: h0.commands + hv.commands, ..h0 };
    lemma_read_format(s, a.len() as int + b.len(), hv.format, e, h1);
    let h2 = HeaderView { format: hv.format, ..h1 };
    lemma_read_numeric(s, a.len() as int + b.len() + c.len(), hv, e, h2, true);
    let h3 = HeaderView {
        gamma: h2.gamma + hv.gamma,
        exposure: h2.exposure + hv.exposure,
        pixaspect: h2.pixaspect + hv.pixaspect,
        colorcorr: h2.colorcorr + hv.colorcorr,
        primaries: h2.primaries + hv.primaries,
        ..h2
    };
    lemma_read_tail(s, a.len() as int + b.len() + c.len() + d.len(), hv, e, h3, true);
    assert(h0.commands + hv.commands =~= hv.commands);
    assert(h2.gamma + hv.gamma =~= hv.gamma);
    assert(h2.exposure + hv.exposure =~= hv.exposure);
    assert(h2.pixaspect + hv.pixaspect =~= hv.pixaspect);
    assert(h2.colorcorr + hv.colorcorr =~= hv.colorcorr);
    assert(h2.primaries + hv.primaries =~= hv.primaries);
    assert(h3.other + hv.other =~= hv.other);
    assert(h3.comments + hv.comments =~= hv.comments);
}

/// The four words of a resolution line, in order.
pub open spec fn resolution_words(ow: nat, oh: nat, ys: AxisSign, xs: AxisSign, xf: bool) -> Seq<Seq<char>> {
    let yflag = seq![sign_char(ys), 'Y'];
    let xflag = seq![sign_char(xs), 'X'];
    if xf {
        seq![xflag, dec_chars(oh), yflag, dec_chars(ow)]
    } else {
        seq![yflag, dec_chars(oh), xflag, dec_chars(ow)]
    }
}

proof fn lemma_join4(w: Seq<Seq<char>>)
    requires
        w.len() == 4,
    ensures
        join_space(w) == w[0] + seq![' '] + w[1] + seq![' '] + w[2] + seq![' '] + w[3],
{
    assert(w.drop_last().drop_last().drop_last() =~= seq![w[0]]);
    assert(w.drop_last().drop_last() =~= seq![w[0], w[1]]);
    assert(w.drop_last() =~= seq![w[0], w[1], w[2]]);
    assert(join_space(seq![w[0]]) == w[0]);
    assert(seq![w[0], w[1]].drop_last() =~= seq![w[0]]);
    assert(join_space(seq![w[0], w[1]]) == w[0] + seq![' '] + w[1]);
    assert(seq![w[0], w[1], w[2]].drop_last() =~= seq![w[0], w[1]]);
    assert(join_space(seq![w[0], w[1], w[2]]) == w[0] + seq![' '] + w[1] + seq![' '] + w[2]);
    assert(join_space(w) == join_space(w.drop_last()) + seq![' '] + w.last());
}

/// A resolution line reads back as its words; its characters are ASCII,
/// hold no `\n` and end in a digit.
proof fn lemma_resolution_text(ow: nat, oh: nat, ys: AxisSign, xs: AxisSign, xf: bool)
    ensures
        ({
            let c = resolution_chars(ow, oh, ys, xs, xf);
            let w = resolution_words(ow, oh, ys, xs, xf);
            &&& c == join_space(w)
            &&& is_ascii_chars(c)
            &&& c.len() > 0
            &&& forall|i: int| 0 <= i < c.len() ==> (#[trigger] c[i]) != '\n'
            &&& c.last() != '\r'
            &&& ws_tokens(c) == w
        }),
{
    let c = resolution_chars(ow, oh, ys, xs, xf);
    let w = resolution_words(ow, oh, ys, xs, xf);
    lemma_dec_chars(ow);
    lemma_dec_chars(oh);
    lemma_join4(w);
    let g = w[0] + seq![' '] + w[1] + seq![' '] + w[2] + seq![' '] + w[3];
    assert(c == g);
    assert forall|i: int| 0 <= i < c.len() implies ('\0' <= #[trigger] c[i] <= '\u{7f}' && c[i] != '\n' && !(c[i] == '\r' && i == c.len() - 1)) by {
        let l0 = w[0].len() as int;
        let l1 = w[1].len() as int;
        let l2 = w[2].len() as int;
        if i < l0 {
            assert(c[i] == w[0][i]);
        } else if i == l0 {
        } else if i < l0 + 1 + l1 {
            assert(c[i] == w[1][i - l0 - 1]);
        } else if i == l0 + 1 + l1 {
        } else if i < l0 + 2 + l1 + l2 {
            assert(c[i] == w[2][i - l0 - l1 - 2]);
        } else if i == l0 + 2 + l1 + l2 {
        } else {
            assert(c[i] == w[3][i - l0 - l1 - l2 - 3]);
        }
    }
    assert(c.last() == c[c.len() - 1]);
    assert forall|k: int| 0 <= k < w.len() implies (#[trigger] w[k]).len() > 0 by {}
    assert forall|k: int, j: int| 0 <= k < w.len() && 0 <= j < w[k].len() implies !is_white_space(#[trigger] w[k][j]) by {
        if k == 1 || k == 3 {
        }
    }
    crate::text::lemma_tokens_of_words(w);
}

/// Dimensions a decoder with these limits accepts.
pub open spec fn within_limits(w: nat, h: nat, limits: HdrLimits) -> bool {
    &&& 0 < w <= limits.max_width
    &&& 0 < h <= limits.max_height
    &&& w * h * 12 <= usize::MAX
    &&& w * h * 12 <= limits.max_pixel_bytes
}

/// The resolution line the encoder writes reads back as the picture's
/// dimensions and axis fields.
pub proof fn lemma_read_resolution(s: Seq<u8>, p: int, ow: nat, oh: nat, hv: HeaderView, e: LineEnding, limits: HdrLimits)
    requires
        holds_at(s, p, resolution_bytes(ow, oh, hv, e)),
        within_limits(if hv.x_first { oh } else { ow }, if hv.x_first { ow } else { oh }, limits),
    ensures
        resolution_at(s, p, limits) == Ok::<(ResolutionView, int), crate::header::Fault>((
            (
                if hv.x_first { oh } else { ow },
                if hv.x_first { ow } else { oh },
                hv.y_sign,
                hv.x_sign,
                hv.x_first,
            ),
            p + resolution_bytes(ow, oh, hv, e).len(),
        )),
{
    let c = resolution_chars(ow, oh, hv.y_sign, hv.x_sign, hv.x_first);
    let w = resolution_words(ow, oh, hv.y_sign, hv.x_sign, hv.x_first);
    lemma_resolution_text(ow, oh, hv.y_sign, hv.x_sign, hv.x_first);
    crate::text::lemma_ascii_encode(c);
    let b = ascii_bytes(c);
    assert(line_safe(b)) by {
        assert forall|k: int| 0 <= k < b.len() implies b[k] != newline() by {
            assert(c[k] != '\n');
            assert(b[k] == c[k] as u8);
        }
        assert(b.last() == c.last() as u8);
    }
    lemma_read_text_line(s, p, b, e);
    lemma_dec_chars(ow);
    lemma_dec_chars(oh);
    let (wd, ht) = if hv.x_first { (oh, ow) } else { (ow, oh) };
    assert(wd * ht <= usize::MAX) by (nonlinear_arith)
        requires
            wd * ht * 12 <= usize::MAX,
            0 < wd,
            0 < ht,
    ;
    assert(ow <= usize::MAX && oh <= usize::MAX) by (nonlinear_arith)
        requires
            wd * ht <= usize::MAX,
            0 < wd,
            0 < ht,
            (wd == ow && ht == oh) || (wd == oh && ht == ow),
    ;
    assert(usize_value(w[1]) == Some(oh));
    assert(usize_value(w[3]) == Some(ow));
}

/// Every on-disk scanline starts with a quad the decoder does not take for
/// a new-RLE marker (after an old-RLE literal's sentinel dodge).
pub open spec fn rows_readable(disk: Seq<[u8; 4]>, ow: nat, oh: nat, mode: RleMode) -> bool {
    forall|r: int|
        0 <= r < oh ==> match mode {
            RleMode::Old => !marker_like(dodge_sentinel(#[trigger] disk[r * ow]), ow),
            RleMode::Uncompressed => !marker_like(disk[r * ow], ow),
            _ => true,
        }
}

/// The quads a coding reads back: old-RLE literals have their sentinel
/// mantissa dodged, the other codings keep every quad.
pub open spec fn read_back(q: Seq<[u8; 4]>, mode: RleMode) -> Seq<[u8; 4]> {
    if mode == RleMode::Old {
        dodged(q)
    } else {
        q
    }
}

/// The fallback a decoder needs for a coding.
pub open spec fn fallback_fits(mode: RleMode, fallback: FallbackMode) -> bool {
    match mode {
        RleMode::Old => fallback == FallbackMode::OldRle,
        RleMode::Uncompressed => fallback == FallbackMode::Uncompressed,
        _ => true,
    }
}

proof fn lemma_rows_prefix(s: Seq<u8>, p: int, disk: Seq<[u8; 4]>, ow: nat, j: nat, k: nat, mode: RleMode)
    requires
        j <= k,
        holds_at(s, p, rows_bytes(disk, ow, k, mode)),
    ensures
        holds_at(s, p, rows_bytes(disk, ow, j, mode)),
    decreases k - j,
{
    if j < k {
        lemma_holds_split(s, p, rows_bytes(disk, ow, (k - 1) as nat, mode), line_bytes(disk_row(disk, ow, k - 1), mode));
        lemma_rows_prefix(s, p, disk, ow, j, (k - 1) as nat, mode);
    }
}

proof fn lemma_row_index(j: int, ow: int, oh: int)
    requires
        0 <= j < oh,
        0 < ow,
    ensures
        0 <= j * ow,
        (j + 1) * ow == j * ow + ow,
        (j + 1) * ow <= oh * ow,
        oh * ow == ow * oh,
{
    assert(oh * ow == ow * oh) by (nonlinear_arith);
    assert(0 <= j * ow) by (nonlinear_arith)
        requires
            0 <= j,
            0 < ow,
    ;
    assert((j + 1) * ow == j * ow + ow) by (nonlinear_arith);
    assert((j + 1) * ow <= oh * ow) by (nonlinear_arith)
        requires
            j < oh,
            0 < ow,
    ;
}

/// The scanlines from `j` on read back as the quads from row `j` on.
proof fn lemma_rows_from(
    s: Seq<u8>,
    p: int,
    disk: Seq<[u8; 4]>,
    ow: nat,
    oh: nat,
    j: nat,
    mode: RleMode,
    fallback: FallbackMode,
    prev: Option<[u8; 4]>,
)
    requires
        j <= oh,
        0 < ow,
        disk.len() == ow * oh,
        holds_at(s, p, rows_bytes(disk, ow, oh, mode)),
        mode != RleMode::Auto,
        mode == RleMode::New ==> new_rle_width(ow as int),
        fallback_fits(mode, fallback),
        rows_readable(disk, ow, oh, mode),
    ensures
        rows(s, p + rows_bytes(disk, ow, j, mode).len(), ow, (oh - j) as nat, prev, fallback) matches Some((q, px))
            && px == read_back(disk, mode).subrange((j * ow) as int, (oh * ow) as int) && q == p + rows_bytes(disk, ow, oh, mode).len(),
    decreases oh - j,
{
    let rb = read_back(disk, mode);
    assert(oh * ow == ow * oh) by (nonlinear_arith);
    assert(rb.len() == disk.len());
    if j == oh {
        assert(rb.subrange((j * ow) as int, (oh * ow) as int) =~= Seq::<[u8; 4]>::empty());
    } else {
        lemma_row_index(j as int, ow as int, oh as int);
        let row = disk_row(disk, ow, j as int);
        let pj = p + rows_bytes(disk, ow, j, mode).len();
        lemma_rows_prefix(s, p, disk, ow, (j + 1) as nat, oh, mode);
        assert(rows_bytes(disk, ow, (j + 1) as nat, mode) == rows_bytes(disk, ow, j, mode) + line_bytes(row, mode));
        lemma_holds_split(s, p, rows_bytes(disk, ow, j, mode), line_bytes(row, mode));
        assert(row.len() == ow);
        assert(row[0] == disk[(j * ow) as int]);
        let got = match mode {
            RleMode::Old => dodged(row),
            _ => row,
        };
        match mode {
            RleMode::New => {
                crate::rle::law_new_rle_scanline_round_trip(row, s, pj, prev, fallback);
            },
            RleMode::Old => {
                crate::rle::law_old_rle_scanline_round_trip(row, s, pj, prev);
            },
            RleMode::Uncompressed => {
                crate::rle::law_flat_scanline_round_trip(row, s, pj, prev);
            },
            RleMode::Auto => {},
        }
        let last = scanline(s, pj, ow, prev, fallback).unwrap().2;
        lemma_rows_from(s, p, disk, ow, oh, (j + 1) as nat, mode, fallback, last);
        assert(rb.subrange((j * ow) as int, ((j + 1) * ow) as int) =~= got);
        assert(rb.subrange((j * ow) as int, (oh * ow) as int) =~= got + rb.subrange(((j + 1) * ow) as int, (oh * ow) as int));
    }
}

/// The scanlines the encoder writes read back as the on-disk quads.
pub proof fn lemma_read_rows(
    s: Seq<u8>,
    p: int,
    disk: Seq<[u8; 4]>,
    ow: nat,
    oh: nat,
    mode: RleMode,
    fallback: FallbackMode,
)
    requires
        0 < ow,
        disk.len() == ow * oh,
        holds_at(s, p, rows_bytes(disk, ow, oh, mode)),
        mode != RleMode::Auto,
        mode == RleMode::New ==> new_rle_width(ow as int),
        fallback_fits(mode, fallback),
        rows_readable(disk, ow, oh, mode),
    ensures
        rows(s, p, ow, oh, None, fallback) matches Some((q, px)) && px == read_back(disk, mode),
{
    lemma_rows_from(s, p, disk, ow, oh, 0, mode, fallback, None);
    assert(oh * ow == ow * oh) by (nonlinear_arith);
    assert(0 * ow == 0);
    assert(read_back(disk, mode).len() == disk.len());
    assert(read_back(disk, mode).subrange(0, (oh * ow) as int) =~= read_back(disk, mode));
}

/// The inverse op undoes the op on every pixel.
pub proof fn lemma_inverse_op(op: GeometricOp)
    ensures
        acts_as_inverse(inverse_op(op), op),
{
    assert forall|p: (int, int, int, int)| #[trigger] op_place(inverse_op(op), op_place(op, p)) == p by {}
}

/// Applying an op to a buffer and then its inverse gives the buffer back.
pub proof fn lemma_transform_back<T>(q: Seq<T>, w: int, h: int, op: GeometricOp)
    requires
        0 <= w,
        0 <= h,
        q.len() == w * h,
    ensures
        transformed(transformed(q, w, h, op), op_dims(op, w, h).0, op_dims(op, w, h).1, inverse_op(op)) == q,
{
    let (ow, oh) = op_dims(op, w, h);
    let mid = transformed(q, w, h, op);
    lemma_transformed(q, w, h, op);
    assert(ow * oh == w * h) by (nonlinear_arith)
        requires
            (ow == w && oh == h) || (ow == h && oh == w),
    ;
    lemma_transformed(mid, ow, oh, inverse_op(op));
    lemma_inverse_op(op);
    law_transform_then_inverse_restores(q, w, h, op, inverse_op(op), mid, transformed(mid, ow, oh, inverse_op(op)));
}

/// Dodging sentinels quad by quad commutes with moving the quads.
pub proof fn lemma_transform_dodged(d: Seq<[u8; 4]>, w: int, h: int, op: GeometricOp)
    requires
        0 <= w,
        0 <= h,
        d.len() == w * h,
    ensures
        transformed(dodged(d), w, h, op) == dodged(transformed(d, w, h, op)),
{
    let a = transformed(dodged(d), w, h, op);
    let b = dodged(transformed(d, w, h, op));
    let (ow, oh) = op_dims(op, w, h);
    assert(0 <= w * h) by (nonlinear_arith)
        requires
            0 <= w,
            0 <= h,
    ;
    assert forall|j: int| 0 <= j < a.len() implies a[j] == b[j] by {
        assert(ow * oh == w * h) by (nonlinear_arith)
            requires
                (ow == w && oh == h) || (ow == h && oh == w),
        ;
        assert(ow > 0) by (nonlinear_arith)
            requires
                0 <= j < ow * oh,
                ow >= 0,
                oh >= 0,
        ;
        let dx = j % ow;
        let dy = j / ow;
        assert(0 <= dx < ow && 0 <= dy < oh && j == dy * ow + dx) by {
            vstd::arithmetic::div_mod::lemma_fundamental_div_mod(j, ow);
            vstd::arithmetic::div_mod::lemma_mod_bound(j, ow);
            assert(0 <= dy < oh && j == dy * ow + dx) by (nonlinear_arith)
                requires
                    j == ow * dy + dx,
                    0 <= dx < ow,
                    0 <= j < ow * oh,
                    ow > 0,
            ;
        }
        let sp = op_source(op, dx, dy, w, h);
        assert(0 <= sp.0 < w && 0 <= sp.1 < h);
        assert(0 <= sp.1 * w + sp.0 < w * h) by (nonlinear_arith)
            requires
                0 <= sp.0 < w,
                0 <= sp.1 < h,
        ;
    }
    assert(a =~= b);
}

/// The on-disk scanline width and count of a picture.
pub open spec fn disk_dims(hv: HeaderView, w: nat, h: nat) -> (nat, nat) {
    let op = disk_op(hv.y_sign, hv.x_sign, hv.x_first);
    (op_dims(op, w as int, h as int).0 as nat, op_dims(op, w as int, h as int).1 as nat)
}

/// The coding the encoder uses for a picture.
pub open spec fn coding_of(hv: HeaderView, w: nat, h: nat, rle: RleMode) -> RleMode {
    effective_rle(rle, disk_dims(hv, w, h).0)
}

/// The pictures the encoder writes and the decoder reads back: a
/// well-formed header, dimensions within the limits, a coding the on-disk
/// width allows, a fallback that fits it, and scanlines whose first quad
/// does not pose as a new-RLE marker.
pub open spec fn round_trips(p: PictureView, rle: RleMode, magic: Seq<char>, fallback: FallbackMode, limits: HdrLimits) -> bool {
    let (hv, w, h, q) = p;
    let (ow, oh) = disk_dims(hv, w, h);
    let mode = coding_of(hv, w, h, rle);
    &&& q.len() == w * h
    &&& within_limits(w, h, limits)
    &&& writable_header(hv, magic)
    &&& (mode == RleMode::New ==> new_rle_width(ow as int))
    &&& fallback_fits(mode, fallback)
    &&& rows_readable(transformed(q, w as int, h as int, disk_op(hv.y_sign, hv.x_sign, hv.x_first)), ow, oh, mode)
}

proof fn lemma_disk_op_swaps(ys: AxisSign, xs: AxisSign, xf: bool)
    ensures
        op_swaps(disk_op(ys, xs, xf)) == xf,
{
}

/// Decoding what the encoder writes gives the picture back: the header
/// with the identifier written on its magic line, the dimensions, and the
/// quads (old-RLE literals with a `(1, 1, 1)` mantissa come back with
/// their red byte cleared).
pub proof fn law_decode_encode_round_trip(
    p: PictureView,
    rle: RleMode,
    eol: LineEnding,
    magic: Seq<char>,
    fallback: FallbackMode,
    limits: HdrLimits,
)
    requires
        round_trips(p, rle, magic, fallback, limits),
    ensures
        encode_spec(p, rle, eol, magic) matches Ok(bytes) && decode_spec(bytes, fallback, limits) == Ok::<PictureView, crate::header::Fault>((
            HeaderView { magic_id: Some(magic), ..p.0 },
            p.1,
            p.2,
            read_back(p.3, coding_of(p.0, p.1, p.2, rle)),
        )),
{
    let (hv, w, h, q) = p;
    let op = disk_op(hv.y_sign, hv.x_sign, hv.x_first);
    let (ow, oh) = disk_dims(hv, w, h);
    let mode = coding_of(hv, w, h, rle);
    lemma_disk_op_swaps(hv.y_sign, hv.x_sign, hv.x_first);
    let disk = transformed(q, w as int, h as int, op);
    let hb = header_bytes(hv, magic, eol);
    let rb = resolution_bytes(ow, oh, hv, eol);
    let pb = rows_bytes(disk, ow, oh, mode);
    let bytes = hb + rb + pb;
    assert(encode_spec(p, rle, eol, magic) == Ok::<Seq<u8>, crate::header::Fault>(bytes));
    assert(bytes.subrange(0, bytes.len() as int) =~= bytes);
    lemma_holds_split(bytes, 0, hb + rb, pb);
    lemma_holds_split(bytes, 0, hb, rb);
    lemma_read_header(bytes, hv, magic, eol);
    lemma_read_resolution(bytes, hb.len() as int, ow, oh, hv, eol, limits);
    assert(ow * oh == w * h) by (nonlinear_arith)
        requires
            (ow == w && oh == h) || (ow == h && oh == w),
    ;
    assert(0 < ow) by (nonlinear_arith)
        requires
            0 < w,
            0 < h,
            (ow == w && oh == h) || (ow == h && oh == w),
    ;
    lemma_transformed(q, w as int, h as int, op);
    lemma_read_rows(bytes, hb.len() as int + rb.len(), disk, ow, oh, mode, fallback);
    lemma_transform_back(q, w as int, h as int, op);
    if mode == RleMode::Old {
        lemma_transform_dodged(disk, ow as int, oh as int, inverse_op(op));
    }
}


/// The decoder's reordering undoes the encoder's: moving an upright
/// picture into the on-disk scanline order its axis fields give, and back
/// by the inverse symmetry, gives the picture back, for each of the eight
/// axis-field combinations.
pub proof fn law_reorder_undoes_reorient(q: Seq<[u8; 4]>, w: nat, h: nat, ys: AxisSign, xs: AxisSign, xf: bool)
    requires
        q.len() == w * h,
    ensures
        transformed(
            transformed(q, w as int, h as int, disk_op(ys, xs, xf)),
            disk_dims(HeaderView { y_sign: ys, x_sign: xs, x_first: xf, ..crate::header::default_header() }, w, h).0 as int,
            disk_dims(HeaderView { y_sign: ys, x_sign: xs, x_first: xf, ..crate::header::default_header() }, w, h).1 as int,
            inverse_op(disk_op(ys, xs, xf)),
        ) == q,
{
    lemma_transform_back(q, w as int, h as int, disk_op(ys, xs, xf));
}

} // verus!
