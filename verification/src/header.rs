//! The text header of a Radiance picture: the `#?` magic line, the records
//! up to the blank line, and the resolution line.
//!
//! The numeric records (`EXPOSURE`, `GAMMA`, `PIXASPECT`, `COLORCORR`,
//! `PRIMARIES`) are checked here to hold the floats their key calls for
//! and kept as the text of each record's value, in read order; computing
//! with those values is left to the caller.

use vstd::prelude::*;
use vstd::utf8::{valid_utf8, decode_utf8, encode_utf8, is_ascii_chars};
use crate::error::HdrError;
use crate::limits::HdrLimits;
use crate::geometry::{AxisSign, Orientation, axis_fields_of};
use crate::text::{
    float_text, is_float_text, push_chars, dec_chars, push_str_chars, push_decimal_chars,
    ascii_bytes, chars_of, is_white_space, ws_tokens, views_of, split_ws, join_space, string_from_chars,
};

verus! {

/// Recognised values of the `FORMAT=` record.
#[derive(Debug, Clone, Copy, PartialEq, Eq, Hash, Structural)]
pub enum HdrFormat {
    /// `32-bit_rle_rgbe`: RGB mantissas with a shared exponent.
    Rgbe,
    /// `32-bit_rle_xyze`: CIE XYZ mantissas with a shared exponent.
    Xyze,
}

/// The characters of `32-bit_rle_rgbe`.
pub open spec fn rgbe_format_chars() -> Seq<char> {
    seq!['3', '2', '-', 'b', 'i', 't', '_', 'r', 'l', 'e', '_', 'r', 'g', 'b', 'e']
}

/// The characters of `32-bit_rle_xyze`.
pub open spec fn xyze_format_chars() -> Seq<char> {
    seq!['3', '2', '-', 'b', 'i', 't', '_', 'r', 'l', 'e', '_', 'x', 'y', 'z', 'e']
}

/// The on-disk name of a format.
pub open spec fn format_chars(f: HdrFormat) -> Seq<char> {
    match f {
        HdrFormat::Rgbe => rgbe_format_chars(),
        HdrFormat::Xyze => xyze_format_chars(),
    }
}

impl HdrFormat {
    /// The value as it appears after `FORMAT=`.
    pub fn as_str(&self) -> (r: &'static str)
        ensures
            r@ == format_chars(*self),
    {
        match self {
            HdrFormat::Rgbe => {
                proof {
                    reveal_strlit("32-bit_rle_rgbe");
                }
                "32-bit_rle_rgbe"
            },
            HdrFormat::Xyze => {
                proof {
                    reveal_strlit("32-bit_rle_xyze");
                }
                "32-bit_rle_xyze"
            },
        }
    }

    /// The on-disk name, one character each.
    pub fn name_chars(&self) -> (r: [char; 15])
        ensures
            r@ == format_chars(*self),
    {
        let r = match self {
            HdrFormat::Rgbe => ['3', '2', '-', 'b', 'i', 't', '_', 'r', 'l', 'e', '_', 'r', 'g', 'b', 'e'],
            HdrFormat::Xyze => ['3', '2', '-', 'b', 'i', 't', '_', 'r', 'l', 'e', '_', 'x', 'y', 'z', 'e'],
        };
        assert(r@ =~= format_chars(*self));
        r
    }
}

/// The text header of a picture.
#[derive(Debug, Clone, PartialEq)]
pub struct HdrHeader {
    /// The identifier on the `#?` magic line, without the `#?`. `None` lets
    /// the encoder pick its default.
    pub magic_id: Option<String>,
    /// The `FORMAT=` value.
    pub format: HdrFormat,
    /// The values of the `EXPOSURE=` records, in read order (they stack
    /// multiplicatively).
    pub exposure: Vec<String>,
    /// The values of the `GAMMA=` records, in read order (the last one
    /// counts).
    pub gamma: Vec<String>,
    /// The values of the `PIXASPECT=` records, in read order (they stack
    /// multiplicatively).
    pub pixaspect: Vec<String>,
    /// The values of the `COLORCORR=` records, in read order (they stack
    /// multiplicatively, per channel).
    pub colorcorr: Vec<String>,
    /// The values of the `PRIMARIES=` records, in read order (the last one
    /// counts).
    pub primaries: Vec<String>,
    /// The `SOFTWARE=` value (the last one read).
    pub software: Option<String>,
    /// The `VIEW=` value, later records merged into earlier ones.
    pub view: Option<String>,
    /// Records with any other key, in read order.
    pub other: Vec<(String, String)>,
    /// Comment lines, without their leading `#`, in read order.
    pub comments: Vec<String>,
    /// Program lines (no `=`, no leading `#`), in read order.
    pub commands: Vec<String>,
    /// Sign of the Y axis flag of the resolution line.
    pub y_sign: AxisSign,
    /// Sign of the X axis flag of the resolution line.
    pub x_sign: AxisSign,
    /// `true` when the resolution line lists X first.
    pub x_first: bool,
}

/// The mathematical content of an [`HdrHeader`].
pub struct HeaderView {
    pub magic_id: Option<Seq<char>>,
    pub format: HdrFormat,
    pub exposure: Seq<Seq<char>>,
    pub gamma: Seq<Seq<char>>,
    pub pixaspect: Seq<Seq<char>>,
    pub colorcorr: Seq<Seq<char>>,
    pub primaries: Seq<Seq<char>>,
    pub software: Option<Seq<char>>,
    pub view: Option<Seq<char>>,
    pub other: Seq<(Seq<char>, Seq<char>)>,
    pub comments: Seq<Seq<char>>,
    pub commands: Seq<Seq<char>>,
    pub y_sign: AxisSign,
    pub x_sign: AxisSign,
    pub x_first: bool,
}

/// The views of a sequence of strings.
pub open spec fn strings_view(v: Seq<String>) -> Seq<Seq<char>> {
    Seq::new(v.len(), |i: int| v[i]@)
}

/// The views of a sequence of string pairs.
pub open spec fn pairs_view(v: Seq<(String, String)>) -> Seq<(Seq<char>, Seq<char>)> {
    Seq::new(v.len(), |i: int| (v[i].0@, v[i].1@))
}

/// The view of an optional string.
pub open spec fn opt_view(o: Option<String>) -> Option<Seq<char>> {
    match o {
        Some(s) => Some(s@),
        None => None,
    }
}

impl View for HdrHeader {
    type V = HeaderView;

    open spec fn view(&self) -> HeaderView {
        HeaderView {
            magic_id: opt_view(self.magic_id),
            format: self.format,
            exposure: strings_view(self.exposure@),
            gamma: strings_view(self.gamma@),
            pixaspect: strings_view(self.pixaspect@),
            colorcorr: strings_view(self.colorcorr@),
            primaries: strings_view(self.primaries@),
            software: opt_view(self.software),
            view: opt_view(self.view),
            other: pairs_view(self.other@),
            comments: strings_view(self.comments@),
            commands: strings_view(self.commands@),
            y_sign: self.y_sign,
            x_sign: self.x_sign,
            x_first: self.x_first,
        }
    }
}

/// The header of a fresh picture: format RGBE, standard orientation, no
/// records.
pub open spec fn default_header() -> HeaderView {
    HeaderView {
        magic_id: None,
        format: HdrFormat::Rgbe,
        exposure: Seq::empty(),
        gamma: Seq::empty(),
        pixaspect: Seq::empty(),
        colorcorr: Seq::empty(),
        primaries: Seq::empty(),
        software: None,
        view: None,
        other: Seq::empty(),
        comments: Seq::empty(),
        commands: Seq::empty(),
        y_sign: AxisSign::Decreasing,
        x_sign: AxisSign::Increasing,
        x_first: false,
    }
}

impl Default for HdrHeader {
    fn default() -> (r: HdrHeader)
        ensures
            r@ == default_header(),
    {
        let r = HdrHeader {
            magic_id: None,
            format: HdrFormat::Rgbe,
            exposure: Vec::new(),
            gamma: Vec::new(),
            pixaspect: Vec::new(),
            colorcorr: Vec::new(),
            primaries: Vec::new(),
            software: None,
            view: None,
            other: Vec::new(),
            comments: Vec::new(),
            commands: Vec::new(),
            y_sign: AxisSign::Decreasing,
            x_sign: AxisSign::Increasing,
            x_first: false,
        };
        assert(r@.exposure =~= Seq::<Seq<char>>::empty());
        assert(r@.gamma =~= Seq::<Seq<char>>::empty());
        assert(r@.pixaspect =~= Seq::<Seq<char>>::empty());
        assert(r@.colorcorr =~= Seq::<Seq<char>>::empty());
        assert(r@.primaries =~= Seq::<Seq<char>>::empty());
        assert(r@.other =~= Seq::<(Seq<char>, Seq<char>)>::empty());
        assert(r@.comments =~= Seq::<Seq<char>>::empty());
        assert(r@.commands =~= Seq::<Seq<char>>::empty());
        r
    }
}

impl HdrHeader {
    /// The named orientation the resolution-line fields encode.
    pub fn orientation(&self) -> (r: Orientation)
        ensures
            axis_fields_of(r) == (self.y_sign, self.x_sign, self.x_first),
    {
        Orientation::from_axis_fields(self.y_sign, self.x_sign, self.x_first)
    }

    /// Set the resolution-line fields to those of a named orientation; the
    /// rest of the header is unchanged.
    pub fn set_orientation(&mut self, orientation: Orientation)
        ensures
            (final(self).y_sign, final(self).x_sign, final(self).x_first) == axis_fields_of(orientation),
            final(self)@ == (HeaderView {
                y_sign: axis_fields_of(orientation).0,
                x_sign: axis_fields_of(orientation).1,
                x_first: axis_fields_of(orientation).2,
                ..old(self)@
            }),
    {
        let (y_sign, x_sign, x_first) = orientation.to_axis_fields();
        self.y_sign = y_sign;
        self.x_sign = x_sign;
        self.x_first = x_first;
    }
}

/// The axis and sign of a resolution-line flag: two characters, `+` or
/// `-`, then `X` or `Y`.
pub open spec fn axis_flag(t: Seq<char>) -> Option<(char, AxisSign)> {
    if t.len() == 2 && (t[0] == '+' || t[0] == '-') && (t[1] == 'X' || t[1] == 'Y') {
        Some((t[1], if t[0] == '+' { AxisSign::Increasing } else { AxisSign::Decreasing }))
    } else {
        None
    }
}

/// Why a token is not an axis flag, judged on its UTF-8 bytes: not two
/// bytes long, a first byte other than `+` or `-`, or else a second byte
/// other than `X` or `Y`.
pub open spec fn axis_flag_msg(t: Seq<char>) -> Seq<char> {
    let b = encode_utf8(t);
    if b.len() != 2 {
        "HDR: axis flag must be 2 chars"@
    } else if b[0] != 43 && b[0] != 45 {
        "HDR: axis flag sign must be + or -"@
    } else {
        "HDR: axis flag axis must be X or Y"@
    }
}

fn axis_flag_error(flag: &str) -> (e: HdrError)
    ensures
        e matches HdrError::InvalidData(m) && m@ == axis_flag_msg(flag@),
{
    let b = flag.as_bytes();
    if b.len() != 2 {
        HdrError::invalid("HDR: axis flag must be 2 chars")
    } else if b[0] != 43 && b[0] != 45 {
        HdrError::invalid("HDR: axis flag sign must be + or -")
    } else {
        HdrError::invalid("HDR: axis flag axis must be X or Y")
    }
}

fn axis_flag_of(t: &[char]) -> (r: Result<(char, AxisSign), HdrError>)
    ensures
        match axis_flag(t@) {
            Some(v) => r == Ok::<(char, AxisSign), HdrError>(v),
            None => r matches Err(HdrError::InvalidData(m)) && m@ == axis_flag_msg(t@),
        },
{
    if t.len() == 2 && (t[0] == '+' || t[0] == '-') && (t[1] == 'X' || t[1] == 'Y') {
        let sign = if t[0] == '+' {
            AxisSign::Increasing
        } else {
            AxisSign::Decreasing
        };
        Ok((t[1], sign))
    } else {
        let mut v: Vec<char> = Vec::new();
        push_chars(&mut v, t);
        let s = string_from_chars(&v);
        Err(axis_flag_error(s.as_str()))
    }
}

/// Read one resolution-line axis flag such as `-Y` or `+X`.
pub fn parse_axis_flag(flag: &str) -> (r: Result<(char, AxisSign), HdrError>)
    ensures
        match axis_flag(flag@) {
            Some(v) => r == Ok::<(char, AxisSign), HdrError>(v),
            None => r matches Err(HdrError::InvalidData(m)) && m@ == axis_flag_msg(flag@),
        },
{
    let cs = chars_of(flag);
    axis_flag_of(cs.as_slice())
}

/// A view option flag: a token that starts with `-v`.
pub open spec fn is_view_flag(t: Seq<char>) -> bool {
    t.len() >= 2 && t[0] == '-' && t[1] == 'v'
}

/// One view option group: a flag token and the argument tokens after it.
pub type ViewGroup = (Seq<char>, Seq<Seq<char>>);

/// `groups` with the open group `cur`, if any, closed.
pub open spec fn close_group(groups: Seq<ViewGroup>, cur: Option<ViewGroup>) -> Seq<ViewGroup> {
    match cur {
        Some(g) => groups.push(g),
        None => groups,
    }
}

/// Split the tokens `t[i..]` of a view string into the leading tokens
/// before the first flag and the option groups.
pub open spec fn view_split_from(
    t: Seq<Seq<char>>,
    i: int,
    prefix: Seq<Seq<char>>,
    groups: Seq<ViewGroup>,
    cur: Option<ViewGroup>,
) -> (Seq<Seq<char>>, Seq<ViewGroup>)
    decreases t.len() - i,
{
    if i < 0 || i >= t.len() {
        (prefix, close_group(groups, cur))
    } else if is_view_flag(t[i]) {
        view_split_from(t, i + 1, prefix, close_group(groups, cur), Some((t[i], Seq::<Seq<char>>::empty())))
    } else {
        match cur {
            Some((f, a)) => view_split_from(t, i + 1, prefix, groups, Some((f, a.push(t[i])))),
            None => view_split_from(t, i + 1, prefix.push(t[i]), groups, None),
        }
    }
}

/// The leading tokens and the option groups of a view string's tokens.
pub open spec fn view_split(t: Seq<Seq<char>>) -> (Seq<Seq<char>>, Seq<ViewGroup>) {
    view_split_from(t, 0, Seq::empty(), Seq::empty(), None)
}

/// The first position at or after `k` whose group has flag `f`, or
/// `acc.len()`.
pub open spec fn flag_index(acc: Seq<ViewGroup>, f: Seq<char>, k: int) -> int
    decreases acc.len() - k,
{
    if k < 0 || k >= acc.len() {
        acc.len() as int
    } else if acc[k].0 == f {
        k
    } else {
        flag_index(acc, f, k + 1)
    }
}

proof fn lemma_flag_index(acc: Seq<ViewGroup>, f: Seq<char>, k: int)
    requires
        0 <= k <= acc.len(),
    ensures
        k <= flag_index(acc, f, k) <= acc.len(),
        flag_index(acc, f, k) < acc.len() ==> acc[flag_index(acc, f, k)].0 == f,
    decreases acc.len() - k,
{
    if k < acc.len() && acc[k].0 != f {
        lemma_flag_index(acc, f, k + 1);
    }
}

/// Record one group: it replaces the group of the same flag in place, or
/// is added at the end.
pub open spec fn record_group(acc: Seq<ViewGroup>, g: ViewGroup) -> Seq<ViewGroup> {
    let k = flag_index(acc, g.0, 0);
    if k < acc.len() {
        acc.update(k, g)
    } else {
        acc.push(g)
    }
}

/// Record the groups in order.
pub open spec fn record_all(acc: Seq<ViewGroup>, gs: Seq<ViewGroup>) -> Seq<ViewGroup>
    decreases gs.len(),
{
    if gs.len() == 0 {
        acc
    } else {
        record_all(record_group(acc, gs[0]), gs.drop_first())
    }
}

/// The tokens of the groups: each flag followed by its arguments.
pub open spec fn flatten_groups(gs: Seq<ViewGroup>) -> Seq<Seq<char>>
    decreases gs.len(),
{
    if gs.len() == 0 {
        Seq::empty()
    } else {
        seq![gs[0].0] + gs[0].1 + flatten_groups(gs.drop_first())
    }
}

/// A later `VIEW=` value merged into the accumulated one: each option group
/// of `next` overrides the group of the same flag in place or is added at
/// the end; the leading tokens of `next` replace the accumulated ones when
/// it has any; the result is the tokens joined by single spaces.
pub open spec fn merge_view_spec(prev: Seq<char>, next: Seq<char>) -> Seq<char> {
    let (pp, pg) = view_split(ws_tokens(prev));
    let (np, ng) = view_split(ws_tokens(next));
    let groups = record_all(record_all(Seq::empty(), pg), ng);
    let prefix = if np.len() == 0 {
        pp
    } else {
        np
    };
    join_space(prefix + flatten_groups(groups))
}

/// An exec view option group.
pub type ViewGroupBuf = (Vec<char>, Vec<Vec<char>>);

/// The views of exec groups.
pub open spec fn groups_view(v: Seq<ViewGroupBuf>) -> Seq<ViewGroup> {
    Seq::new(v.len(), |i: int| (v[i].0@, views_of(v[i].1@)))
}

fn copy_chars(v: &Vec<char>) -> (r: Vec<char>)
    ensures
        r@ == v@,
{
    let mut r: Vec<char> = Vec::new();
    let mut i: usize = 0;
    while i < v.len()
        invariant
            i <= v@.len(),
            r@ == v@.take(i as int),
        decreases v@.len() - i,
    {
        r.push(v[i]);
        assert(r@ =~= v@.take(i + 1));
        i = i + 1;
    }
    assert(v@.take(v@.len() as int) =~= v@);
    r
}

fn copy_tokens(v: &Vec<Vec<char>>) -> (r: Vec<Vec<char>>)
    ensures
        views_of(r@) == views_of(v@),
{
    let mut r: Vec<Vec<char>> = Vec::new();
    let mut i: usize = 0;
    while i < v.len()
        invariant
            i <= v@.len(),
            views_of(r@) == views_of(v@).take(i as int),
        decreases v@.len() - i,
    {
        let ghost before = views_of(r@);
        r.push(copy_chars(&v[i]));
        assert(views_of(r@) =~= before.push(v@[i as int]@));
        assert(views_of(r@) =~= views_of(v@).take(i + 1));
        i = i + 1;
    }
    assert(views_of(v@).take(v@.len() as int) =~= views_of(v@));
    r
}

fn view_groups(t: &Vec<Vec<char>>) -> (r: (Vec<Vec<char>>, Vec<ViewGroupBuf>))
    ensures
        (views_of(r.0@), groups_view(r.1@)) == view_split(views_of(t@)),
{
    let ghost tv = views_of(t@);
    let mut prefix: Vec<Vec<char>> = Vec::new();
    let mut groups: Vec<ViewGroupBuf> = Vec::new();
    let mut has_cur = false;
    let mut cur_flag: Vec<char> = Vec::new();
    let mut cur_args: Vec<Vec<char>> = Vec::new();
    let mut i: usize = 0;
    assert(views_of(prefix@) =~= Seq::<Seq<char>>::empty());
    assert(groups_view(groups@) =~= Seq::<ViewGroup>::empty());
    while i < t.len()
        invariant
            tv == views_of(t@),
            i <= t@.len(),
            !has_cur ==> cur_args@.len() == 0,
            view_split(tv) == view_split_from(
                tv,
                i as int,
                views_of(prefix@),
                groups_view(groups@),
                if has_cur { Some((cur_flag@, views_of(cur_args@))) } else { None },
            ),
        decreases t@.len() - i,
    {
        let tok = &t[i];
        assert(tok@ == tv[i as int]);
        let is_flag = tok.len() >= 2 && tok[0] == '-' && tok[1] == 'v';
        if is_flag {
            if has_cur {
                let ghost gv = groups_view(groups@);
                let ghost cg = (cur_flag@, views_of(cur_args@));
                groups.push((cur_flag, cur_args));
                assert(groups_view(groups@) =~= gv.push(cg));
            }
            cur_flag = copy_chars(tok);
            cur_args = Vec::new();
            has_cur = true;
            assert(views_of(cur_args@) =~= Seq::<Seq<char>>::empty());
        } else if has_cur {
            let ghost a = views_of(cur_args@);
            cur_args.push(copy_chars(tok));
            assert(views_of(cur_args@) =~= a.push(tv[i as int]));
        } else {
            let ghost pv = views_of(prefix@);
            prefix.push(copy_chars(tok));
            assert(views_of(prefix@) =~= pv.push(tv[i as int]));
        }
        i = i + 1;
    }
    if has_cur {
        let ghost gv = groups_view(groups@);
        let ghost cg = (cur_flag@, views_of(cur_args@));
        groups.push((cur_flag, cur_args));
        assert(groups_view(groups@) =~= gv.push(cg));
    }
    (prefix, groups)
}

fn record_groups(acc: &mut Vec<ViewGroupBuf>, gs: Vec<ViewGroupBuf>)
    ensures
        groups_view(final(acc)@) == record_all(groups_view(old(acc)@), groups_view(gs@)),
{
    let ghost gsv = groups_view(gs@);
    let mut rest = gs;
    let ghost start = groups_view(acc@);
    let mut i: usize = 0;
    let n = rest.len();
    assert(gsv.skip(0) =~= gsv);
    while i < n
        invariant
            n == rest@.len(),
            gsv == groups_view(rest@),
            i <= n,
            record_all(start, gsv) == record_all(groups_view(acc@), gsv.skip(i as int)),
        decreases n - i,
    {
        let g = (copy_chars(&rest[i].0), copy_tokens(&rest[i].1));
        assert((g.0@, views_of(g.1@)) == gsv[i as int]);
        let ghost av = groups_view(acc@);
        let mut k: usize = 0;
        while k < acc.len() && !crate::text::chars_eq(acc[k].0.as_slice(), g.0.as_slice())
            invariant
                av == groups_view(acc@),
                k <= acc@.len(),
                flag_index(av, g.0@, 0) == flag_index(av, g.0@, k as int),
            decreases acc@.len() - k,
        {
            k = k + 1;
        }
        let found = k < acc.len();
        proof {
            lemma_flag_index(av, g.0@, k as int);
        }
        let ghost gv = (g.0@, views_of(g.1@));
        if found {
            acc.set(k, g);
            assert(groups_view(acc@) =~= av.update(k as int, gv));
        } else {
            acc.push(g);
            assert(groups_view(acc@) =~= av.push(gv));
        }
        proof {
            assert(gsv.skip(i as int).drop_first() =~= gsv.skip(i + 1));
            assert(gsv.skip(i as int)[0] == gsv[i as int]);
        }
        i = i + 1;
    }
    assert(gsv.skip(n as int) =~= Seq::<ViewGroup>::empty());
}

fn flatten_into(out: &mut Vec<Vec<char>>, gs: &Vec<ViewGroupBuf>)
    ensures
        views_of(final(out)@) == views_of(old(out)@) + flatten_groups(groups_view(gs@)),
{
    let ghost gv = groups_view(gs@);
    let ghost o = views_of(out@);
    let mut i: usize = 0;
    assert(gv.skip(0) =~= gv);
    while i < gs.len()
        invariant
            gv == groups_view(gs@),
            i <= gs@.len(),
            o + flatten_groups(gv) == views_of(out@) + flatten_groups(gv.skip(i as int)),
        decreases gs@.len() - i,
    {
        let ghost before = views_of(out@);
        out.push(copy_chars(&gs[i].0));
        let mut j: usize = 0;
        while j < gs[i].1.len()
            invariant
                i < gs@.len(),
                j <= gs@[i as int].1@.len(),
                views_of(out@) == before.push(gs@[i as int].0@) + views_of(gs@[i as int].1@).take(j as int),
            decreases gs@[i as int].1@.len() - j,
        {
            let ghost b2 = views_of(out@);
            out.push(copy_chars(&gs[i].1[j]));
            assert(views_of(out@) =~= b2.push(gs@[i as int].1@[j as int]@));
            assert(views_of(out@) =~= before.push(gs@[i as int].0@) + views_of(gs@[i as int].1@).take(j + 1));
            j = j + 1;
        }
        proof {
            let g = gv[i as int];
            assert(views_of(gs@[i as int].1@).take(j as int) =~= g.1);
            assert(gv.skip(i as int).drop_first() =~= gv.skip(i + 1));
            assert(flatten_groups(gv.skip(i as int)) == seq![g.0] + g.1 + flatten_groups(gv.skip(i + 1)));
            assert(views_of(out@) =~= before + (seq![g.0] + g.1));
            assert(before + flatten_groups(gv.skip(i as int)) =~= views_of(out@) + flatten_groups(gv.skip(i + 1)));
        }
        i = i + 1;
    }
    assert(gv.skip(gs@.len() as int) =~= Seq::<ViewGroup>::empty());
    assert(views_of(out@) + flatten_groups(Seq::<ViewGroup>::empty()) =~= views_of(out@));
}

/// The tokens joined by single spaces.
fn join_tokens(t: &Vec<Vec<char>>) -> (r: Vec<char>)
    ensures
        r@ == join_space(views_of(t@)),
{
    let ghost tv = views_of(t@);
    let mut r: Vec<char> = Vec::new();
    let mut i: usize = 0;
    assert(join_space(tv.take(0)) =~= Seq::<char>::empty());
    while i < t.len()
        invariant
            tv == views_of(t@),
            i <= t@.len(),
            r@ == join_space(tv.take(i as int)),
        decreases t@.len() - i,
    {
        let ghost before = r@;
        if i > 0 {
            r.push(' ');
        }
        let mut j: usize = 0;
        while j < t[i].len()
            invariant
                i < t@.len(),
                j <= t@[i as int]@.len(),
                r@ == (if i > 0 { before + seq![' '] } else { before }) + t@[i as int]@.take(j as int),
            decreases t@[i as int]@.len() - j,
        {
            r.push(t[i][j]);
            assert(r@ =~= (if i > 0 { before + seq![' '] } else { before }) + t@[i as int]@.take(j + 1));
            j = j + 1;
        }
        proof {
            assert(t@[i as int]@.take(j as int) =~= tv[i as int]);
            assert(tv.take(i + 1).drop_last() =~= tv.take(i as int));
            if i == 0 {
                assert(join_space(tv.take(1)) == tv.take(1)[0]);
                assert(r@ =~= tv[0]);
            } else {
                assert(r@ =~= join_space(tv.take(i as int)) + seq![' '] + tv[i as int]);
            }
        }
        i = i + 1;
    }
    assert(tv.take(t@.len() as int) =~= tv);
    r
}

/// Merge a later `VIEW=` value into the accumulated one (see
/// [`merge_view_spec`]).
pub fn merge_view(prev: &str, next: &str) -> (r: String)
    ensures
        r@ == merge_view_spec(prev@, next@),
{
    let pt = split_ws(&chars_of(prev));
    let nt = split_ws(&chars_of(next));
    let (pp, pg) = view_groups(&pt);
    let (np, ng) = view_groups(&nt);
    let mut groups: Vec<ViewGroupBuf> = Vec::new();
    assert(groups_view(groups@) =~= Seq::<ViewGroup>::empty());
    record_groups(&mut groups, pg);
    record_groups(&mut groups, ng);
    let mut tokens = if np.len() == 0 {
        pp
    } else {
        np
    };
    flatten_into(&mut tokens, &groups);
    let joined = join_tokens(&tokens);
    string_from_chars(&joined)
}

/// An error as the contracts speak of it: its kind and its message.
pub enum Fault {
    Invalid(Seq<char>),
    Unsupported(Seq<char>),
    TooLarge(Seq<char>),
}

/// The kind and message of an error.
pub open spec fn fault_of(e: HdrError) -> Fault {
    match e {
        HdrError::InvalidData(m) => Fault::Invalid(m@),
        HdrError::Unsupported(m) => Fault::Unsupported(m@),
        HdrError::TooLarge(m) => Fault::TooLarge(m@),
    }
}

pub open spec fn key_format() -> Seq<char> {
    seq!['F', 'O', 'R', 'M', 'A', 'T']
}

pub open spec fn key_exposure() -> Seq<char> {
    seq!['E', 'X', 'P', 'O', 'S', 'U', 'R', 'E']
}

pub open spec fn key_gamma() -> Seq<char> {
    seq!['G', 'A', 'M', 'M', 'A']
}

pub open spec fn key_pixaspect() -> Seq<char> {
    seq!['P', 'I', 'X', 'A', 'S', 'P', 'E', 'C', 'T']
}

pub open spec fn key_colorcorr() -> Seq<char> {
    seq!['C', 'O', 'L', 'O', 'R', 'C', 'O', 'R', 'R']
}

pub open spec fn key_primaries() -> Seq<char> {
    seq!['P', 'R', 'I', 'M', 'A', 'R', 'I', 'E', 'S']
}

pub open spec fn key_software() -> Seq<char> {
    seq!['S', 'O', 'F', 'T', 'W', 'A', 'R', 'E']
}

pub open spec fn key_view() -> Seq<char> {
    seq!['V', 'I', 'E', 'W']
}

/// `=`.
pub open spec fn equals_byte() -> u8 {
    61
}

/// `#`.
pub open spec fn hash_byte() -> u8 {
    35
}

/// `?`.
pub open spec fn question_byte() -> u8 {
    63
}

/// What is wrong with a `COLORCORR` value, if anything: it must hold
/// exactly three whitespace-separated floats.
pub open spec fn colorcorr_fault(v: Seq<char>) -> Option<Fault> {
    let t = ws_tokens(v);
    if t.len() != 3 {
        Some(Fault::Invalid("HDR: COLORCORR must have 3 floats"@))
    } else if !float_text(t[0]) {
        Some(Fault::Invalid("HDR: invalid COLORCORR red"@))
    } else if !float_text(t[1]) {
        Some(Fault::Invalid("HDR: invalid COLORCORR green"@))
    } else if !float_text(t[2]) {
        Some(Fault::Invalid("HDR: invalid COLORCORR blue"@))
    } else {
        None
    }
}

/// How many of the tokens are floats.
pub open spec fn float_count(t: Seq<Seq<char>>) -> nat
    decreases t.len(),
{
    if t.len() == 0 {
        0
    } else {
        float_count(t.drop_last()) + if float_text(t.last()) {
            1nat
        } else {
            0nat
        }
    }
}

/// A `KEY=VALUE` record with well-formed key bytes `kb` and value text `v`
/// applied to the header read so far; `seen` tells whether a `FORMAT`
/// record came before.
pub open spec fn keyed_record(kb: Seq<u8>, v: Seq<char>, h: HeaderView, seen: bool) -> Result<(HeaderView, bool), Fault> {
    if kb == ascii_bytes(key_format()) {
        if seen {
            Err(Fault::Invalid("HDR: at most one FORMAT line is allowed"@))
        } else if crate::text::trim_ws(v) == rgbe_format_chars() {
            Ok((HeaderView { format: HdrFormat::Rgbe, ..h }, true))
        } else if crate::text::trim_ws(v) == xyze_format_chars() {
            Ok((HeaderView { format: HdrFormat::Xyze, ..h }, true))
        } else {
            Err(Fault::Unsupported("HDR: unknown FORMAT '"@ + crate::text::trim_ws(v) + "'"@))
        }
    } else if kb == ascii_bytes(key_exposure()) {
        if float_text(crate::text::trim_ws(v)) {
            Ok((HeaderView { exposure: h.exposure.push(v), ..h }, seen))
        } else {
            Err(Fault::Invalid("HDR: invalid EXPOSURE"@))
        }
    } else if kb == ascii_bytes(key_gamma()) {
        if float_text(crate::text::trim_ws(v)) {
            Ok((HeaderView { gamma: h.gamma.push(v), ..h }, seen))
        } else {
            Err(Fault::Invalid("HDR: invalid GAMMA"@))
        }
    } else if kb == ascii_bytes(key_pixaspect()) {
        if float_text(crate::text::trim_ws(v)) {
            Ok((HeaderView { pixaspect: h.pixaspect.push(v), ..h }, seen))
        } else {
            Err(Fault::Invalid("HDR: invalid PIXASPECT"@))
        }
    } else if kb == ascii_bytes(key_colorcorr()) {
        match colorcorr_fault(v) {
            Some(f) => Err(f),
            None => Ok((HeaderView { colorcorr: h.colorcorr.push(v), ..h }, seen)),
        }
    } else if kb == ascii_bytes(key_primaries()) {
        if float_count(ws_tokens(v)) == 8 {
            Ok((HeaderView { primaries: h.primaries.push(v), ..h }, seen))
        } else {
            Err(Fault::Invalid("HDR: PRIMARIES must have 8 floats"@))
        }
    } else if kb == ascii_bytes(key_software()) {
        Ok((HeaderView { software: Some(v), ..h }, seen))
    } else if kb == ascii_bytes(key_view()) {
        Ok((
            HeaderView {
                view: Some(
                    match h.view {
                        Some(prev) => merge_view_spec(prev, v),
                        None => v,
                    },
                ),
                ..h
            },
            seen,
        ))
    } else {
        Ok((HeaderView { other: h.other.push((decode_utf8(kb), v)), ..h }, seen))
    }
}

/// One non-empty header line (without `\n` and trailing `\r`) applied to
/// the header read so far: a comment (`#...`), a program line (no `=`), or
/// a `KEY=VALUE` record split at the first `=`.
pub open spec fn header_record(l: Seq<u8>, h: HeaderView, seen: bool) -> Result<(HeaderView, bool), Fault> {
    if l[0] == hash_byte() {
        let c = l.subrange(1, l.len() as int);
        if valid_utf8(c) {
            Ok((HeaderView { comments: h.comments.push(decode_utf8(c)), ..h }, seen))
        } else {
            Err(Fault::Invalid("HDR: non-UTF8 comment line"@))
        }
    } else if !l.contains(equals_byte()) {
        if valid_utf8(l) {
            Ok((HeaderView { commands: h.commands.push(decode_utf8(l)), ..h }, seen))
        } else {
            Err(Fault::Invalid("HDR: non-UTF8 command line"@))
        }
    } else {
        let e = crate::text::find_byte(l, equals_byte(), 0);
        let kb = l.subrange(0, e);
        let vb = l.subrange(e + 1, l.len() as int);
        if !valid_utf8(kb) {
            Err(Fault::Invalid("HDR: non-UTF8 header key"@))
        } else if !valid_utf8(vb) {
            Err(Fault::Invalid("HDR: non-UTF8 header value"@))
        } else {
            keyed_record(kb, decode_utf8(vb), h, seen)
        }
    }
}

/// The header lines from `pos` up to and including the blank line that
/// ends them: the header read and the position after the blank line.
pub open spec fn header_records(input: Seq<u8>, pos: int, h: HeaderView, seen: bool) -> Result<(HeaderView, int), Fault>
    decreases input.len() - pos,
{
    match crate::text::line_at(input, pos) {
        None => Err(Fault::Invalid("HDR: header truncated"@)),
        Some((raw, next)) => {
            let l = crate::text::trim_cr_spec(raw);
            if l.len() == 0 {
                Ok((h, next))
            } else {
                match header_record(l, h, seen) {
                    Err(f) => Err(f),
                    Ok((h2, seen2)) => {
                        proof {
                            crate::text::lemma_line_at(input, pos);
                        }
                        header_records(input, next, h2, seen2)
                    },
                }
            }
        },
    }
}

/// The `#?` magic line at `pos`: the identifier after `#?` (it must not be
/// empty) and the position after the line.
pub open spec fn magic_line(input: Seq<u8>, pos: int) -> Result<(Seq<char>, int), Fault> {
    match crate::text::line_at(input, pos) {
        None => Err(Fault::Invalid("HDR: missing magic"@)),
        Some((raw, next)) => {
            let t = crate::text::trim_cr_spec(raw);
            if t.len() >= 3 && t[0] == hash_byte() && t[1] == question_byte() {
                let id = t.subrange(2, t.len() as int);
                if valid_utf8(id) {
                    Ok((decode_utf8(id), next))
                } else {
                    Err(Fault::Invalid("HDR: non-UTF8 #? magic identifier"@))
                }
            } else {
                Err(Fault::Invalid("HDR: missing #? magic line"@))
            }
        },
    }
}

/// The whole header starting at `pos`: the magic line, then the records up
/// to the blank line.
pub open spec fn header_spec(input: Seq<u8>, pos: int) -> Result<(HeaderView, int), Fault> {
    match magic_line(input, pos) {
        Err(f) => Err(f),
        Ok((id, next)) => header_records(input, next, HeaderView { magic_id: Some(id), ..default_header() }, false),
    }
}

/// `true` when the bytes are the ASCII characters `kw`.
fn key_is(kb: &[u8], kw: &[char]) -> (r: bool)
    ensures
        r == (kb@ == ascii_bytes(kw@)),
{
    if kb.len() != kw.len() {
        return false;
    }
    let n = kb.len();
    let mut i: usize = 0;
    while i < n
        invariant
            n == kb@.len(),
            n == kw@.len(),
            i <= n,
            forall|k: int| 0 <= k < i ==> kb@[k] == kw@[k] as u8,
        decreases n - i,
    {
        if kb[i] != kw[i] as u8 {
            return false;
        }
        i = i + 1;
    }
    assert(kb@ =~= ascii_bytes(kw@));
    true
}

/// The text of well-formed UTF-8 bytes, or an `InvalidData` error.
fn utf8_or(bytes: &[u8], msg: &str) -> (r: Result<String, HdrError>)
    ensures
        valid_utf8(bytes@) ==> (r matches Ok(s) && s@ == decode_utf8(bytes@)),
        !valid_utf8(bytes@) ==> (r matches Err(HdrError::InvalidData(m)) && m@ == msg@),
{
    match crate::text::utf8_string(bytes) {
        Some(s) => {
            proof {
                crate::text::lemma_utf8_string(bytes@, s@);
            }
            Ok(s)
        },
        None => Err(HdrError::invalid(msg)),
    }
}

fn push_string(v: &mut Vec<String>, s: String)
    ensures
        strings_view(final(v)@) == strings_view(old(v)@).push(s@),
{
    let ghost o = strings_view(v@);
    v.push(s);
    assert(strings_view(v@) =~= o.push(s@));
}

/// `true` when the value, trimmed, is one float.
fn single_float(v: &String) -> (r: bool)
    ensures
        r == float_text(crate::text::trim_ws(v@)),
{
    let t = crate::text::trim_chars(&chars_of(v.as_str()));
    is_float_text(t.as_slice())
}

fn check_colorcorr(v: &String) -> (r: Result<(), HdrError>)
    ensures
        match colorcorr_fault(v@) {
            None => r is Ok,
            Some(f) => r matches Err(e) && fault_of(e) == f,
        },
{
    let toks = split_ws(&chars_of(v.as_str()));
    assert(views_of(toks@) == ws_tokens(v@));
    if toks.len() != 3 {
        return Err(HdrError::invalid("HDR: COLORCORR must have 3 floats"));
    }
    assert(toks@[0]@ == views_of(toks@)[0]);
    assert(toks@[1]@ == views_of(toks@)[1]);
    assert(toks@[2]@ == views_of(toks@)[2]);
    if !is_float_text(toks[0].as_slice()) {
        return Err(HdrError::invalid("HDR: invalid COLORCORR red"));
    }
    if !is_float_text(toks[1].as_slice()) {
        return Err(HdrError::invalid("HDR: invalid COLORCORR green"));
    }
    if !is_float_text(toks[2].as_slice()) {
        return Err(HdrError::invalid("HDR: invalid COLORCORR blue"));
    }
    Ok(())
}

fn count_floats(toks: &Vec<Vec<char>>) -> (r: usize)
    ensures
        r == float_count(views_of(toks@)),
{
    let n = toks.len();
    let mut c: usize = 0;
    let mut i: usize = 0;
    while i < n
        invariant
            n == toks@.len(),
            i <= n,
            c <= i,
            c == float_count(views_of(toks@).take(i as int)),
        decreases n - i,
    {
        assert(views_of(toks@).take(i + 1).drop_last() =~= views_of(toks@).take(i as int));
        assert(views_of(toks@).take(i + 1).last() == toks@[i as int]@);
        if is_float_text(toks[i].as_slice()) {
            c = c + 1;
        }
        i = i + 1;
    }
    assert(views_of(toks@).take(n as int) =~= views_of(toks@));
    c
}

fn keyed_record_exec(kb: &[u8], value: String, h: &mut HdrHeader, seen: &mut bool) -> (r: Result<(), HdrError>)
    requires
        valid_utf8(kb@),
    ensures
        match keyed_record(kb@, value@, old(h)@, *old(seen)) {
            Ok((h2, s2)) => r is Ok && final(h)@ == h2 && *final(seen) == s2,
            Err(f) => r matches Err(e) && fault_of(e) == f,
        },
{
    if key_is(kb, &['F', 'O', 'R', 'M', 'A', 'T']) {
        if *seen {
            return Err(HdrError::invalid("HDR: at most one FORMAT line is allowed"));
        }
        let t = crate::text::trim_chars(&chars_of(value.as_str()));
        if crate::text::chars_eq(t.as_slice(), &HdrFormat::Rgbe.name_chars()) {
            h.format = HdrFormat::Rgbe;
        } else if crate::text::chars_eq(t.as_slice(), &HdrFormat::Xyze.name_chars()) {
            h.format = HdrFormat::Xyze;
        } else {
            let mut m: Vec<char> = Vec::new();
            push_str_chars(&mut m, "HDR: unknown FORMAT '");
            push_chars(&mut m, t.as_slice());
            push_str_chars(&mut m, "'");
            return Err(HdrError::Unsupported(string_from_chars(&m)));
        }
        *seen = true;
        Ok(())
    } else if key_is(kb, &['E', 'X', 'P', 'O', 'S', 'U', 'R', 'E']) {
        if !single_float(&value) {
            return Err(HdrError::invalid("HDR: invalid EXPOSURE"));
        }
        push_string(&mut h.exposure, value);
        Ok(())
    } else if key_is(kb, &['G', 'A', 'M', 'M', 'A']) {
        if !single_float(&value) {
            return Err(HdrError::invalid("HDR: invalid GAMMA"));
        }
        push_string(&mut h.gamma, value);
        Ok(())
    } else if key_is(kb, &['P', 'I', 'X', 'A', 'S', 'P', 'E', 'C', 'T']) {
        if !single_float(&value) {
            return Err(HdrError::invalid("HDR: invalid PIXASPECT"));
        }
        push_string(&mut h.pixaspect, value);
        Ok(())
    } else if key_is(kb, &['C', 'O', 'L', 'O', 'R', 'C', 'O', 'R', 'R']) {
        check_colorcorr(&value)?;
        push_string(&mut h.colorcorr, value);
        Ok(())
    } else if key_is(kb, &['P', 'R', 'I', 'M', 'A', 'R', 'I', 'E', 'S']) {
        let toks = split_ws(&chars_of(value.as_str()));
        if count_floats(&toks) != 8 {
            return Err(HdrError::invalid("HDR: PRIMARIES must have 8 floats"));
        }
        push_string(&mut h.primaries, value);
        Ok(())
    } else if key_is(kb, &['S', 'O', 'F', 'T', 'W', 'A', 'R', 'E']) {
        h.software = Some(value);
        Ok(())
    } else if key_is(kb, &['V', 'I', 'E', 'W']) {
        let merged = match &h.view {
            Some(prev) => merge_view(prev.as_str(), value.as_str()),
            None => value,
        };
        h.view = Some(merged);
        Ok(())
    } else {
        let key = utf8_or(kb, "HDR: non-UTF8 header key")?;
        let ghost o = pairs_view(h.other@);
        h.other.push((key, value));
        assert(pairs_view(h.other@) =~= o.push((decode_utf8(kb@), value@)));
        Ok(())
    }
}

fn header_record_exec(l: &[u8], h: &mut HdrHeader, seen: &mut bool) -> (r: Result<(), HdrError>)
    requires
        l@.len() > 0,
    ensures
        match header_record(l@, old(h)@, *old(seen)) {
            Ok((h2, s2)) => r is Ok && final(h)@ == h2 && *final(seen) == s2,
            Err(f) => r matches Err(e) && fault_of(e) == f,
        },
{
    let n = l.len();
    if l[0] == 35 {
        let c = utf8_or(vstd::slice::slice_subrange(l, 1, n), "HDR: non-UTF8 comment line")?;
        push_string(&mut h.comments, c);
        return Ok(());
    }
    let mut e: usize = 0;
    while e < n && l[e] != 61
        invariant
            n == l@.len(),
            e <= n,
            crate::text::find_byte(l@, equals_byte(), 0) == crate::text::find_byte(l@, equals_byte(), e as int),
        decreases n - e,
    {
        e = e + 1;
    }
    proof {
        crate::text::lemma_find_byte(l@, equals_byte(), 0);
    }
    if e == n {
        assert(!l@.contains(equals_byte()));
        let c = utf8_or(l, "HDR: non-UTF8 command line")?;
        push_string(&mut h.commands, c);
        return Ok(());
    }
    assert(l@[e as int] == equals_byte());
    let kb = vstd::slice::slice_subrange(l, 0, e);
    let vb = vstd::slice::slice_subrange(l, e + 1, n);
    if crate::text::utf8_string(kb).is_none() {
        return Err(HdrError::invalid("HDR: non-UTF8 header key"));
    }
    let value = utf8_or(vb, "HDR: non-UTF8 header value")?;
    keyed_record_exec(kb, value, h, seen)
}

/// Read the magic line and the header records from `*cursor`, leaving
/// `*cursor` after the blank line that ends them.
pub fn parse_header(input: &[u8], cursor: &mut usize) -> (r: Result<HdrHeader, HdrError>)
    ensures
        match header_spec(input@, *old(cursor) as int) {
            Ok((hv, next)) => r matches Ok(h) && h@ == hv && *final(cursor) as int == next,
            Err(f) => r matches Err(e) && fault_of(e) == f,
        },
{
    let magic = match crate::text::read_line(input, cursor) {
        Some(l) => l,
        None => {
            return Err(HdrError::invalid("HDR: missing magic"));
        },
    };
    let t = crate::text::trim_cr(magic);
    if t.len() < 3 || t[0] != 35 || t[1] != 63 {
        return Err(HdrError::invalid("HDR: missing #? magic line"));
    }
    let id = utf8_or(vstd::slice::slice_subrange(t, 2, t.len()), "HDR: non-UTF8 #? magic identifier")?;
    let mut header = HdrHeader::default();
    header.magic_id = Some(id);
    let mut format_seen = false;
    let ghost start = *cursor as int;
    loop
        invariant
            start <= *cursor <= input@.len(),
            header_spec(input@, *old(cursor) as int) == header_records(input@, start, HeaderView { magic_id: Some(decode_utf8(t@.subrange(2, t@.len() as int))), ..default_header() }, false),
            header_records(input@, start, HeaderView { magic_id: Some(decode_utf8(t@.subrange(2, t@.len() as int))), ..default_header() }, false)
                == header_records(input@, *cursor as int, header@, format_seen),
        decreases input@.len() - *cursor,
    {
        let ghost pos = *cursor as int;
        proof {
            crate::text::lemma_line_at(input@, pos);
        }
        let line = match crate::text::read_line(input, cursor) {
            Some(l) => l,
            None => {
                return Err(HdrError::invalid("HDR: header truncated"));
            },
        };
        let l = crate::text::trim_cr(line);
        if l.len() == 0 {
            return Ok(header);
        }
        header_record_exec(l, &mut header, &mut format_seen)?;
    }
}

/// The value of a decimal token when it fits in a `usize`.
pub open spec fn usize_value(t: Seq<char>) -> Option<nat> {
    match crate::text::dec_value(t) {
        Some(v) => if v <= usize::MAX {
            Some(v)
        } else {
            None
        },
        None => None,
    }
}

/// The dimensions and axis fields a resolution line gives:
/// `(width, height, y_sign, x_sign, x_first)`.
pub type ResolutionView = (nat, nat, AxisSign, AxisSign, bool);

/// A resolution line (without `\n` and trailing `\r`) checked against the
/// limits: four whitespace-separated tokens, an X flag and a Y flag each
/// followed by its dimension; both dimensions non-zero and within the
/// limits, and `width * height * 12` bytes within the limits and a `usize`.
pub open spec fn resolution_spec(l: Seq<u8>, limits: HdrLimits) -> Result<ResolutionView, Fault> {
    if !valid_utf8(l) {
        Err(Fault::Invalid("HDR: non-UTF8 resolution line"@))
    } else {
        let t = ws_tokens(decode_utf8(l));
        if t.len() != 4 {
            Err(Fault::Invalid("HDR: resolution line must have 4 tokens"@))
        } else if axis_flag(t[0]) is None {
            Err(Fault::Invalid(axis_flag_msg(t[0])))
        } else if axis_flag(t[2]) is None {
            Err(Fault::Invalid(axis_flag_msg(t[2])))
        } else {
            match (axis_flag(t[0]), axis_flag(t[2])) {
                (Some((a, asign)), Some((b, bsign))) => if a == b {
                    Err(Fault::Invalid("HDR: resolution line must have one X and one Y flag"@))
                } else {
                    match (usize_value(t[1]), usize_value(t[3])) {
                        (Some(an), Some(bn)) => {
                            let r: ResolutionView = if a == 'Y' {
                                (bn, an, asign, bsign, false)
                            } else {
                                (an, bn, bsign, asign, true)
                            };
                            if r.0 == 0 || r.1 == 0 {
                                Err(Fault::Invalid("HDR: zero dimension in resolution line"@))
                            } else if r.0 > limits.max_width {
                                Err(Fault::TooLarge(
                                    "HDR: resolution width "@ + dec_chars(r.0) + " exceeds HdrLimits::max_width ("@
                                        + dec_chars(limits.max_width as nat) + ")"@,
                                ))
                            } else if r.1 > limits.max_height {
                                Err(Fault::TooLarge(
                                    "HDR: resolution height "@ + dec_chars(r.1) + " exceeds HdrLimits::max_height ("@
                                        + dec_chars(limits.max_height as nat) + ")"@,
                                ))
                            } else if r.0 * r.1 > usize::MAX {
                                Err(Fault::TooLarge("HDR: width × height overflows usize"@))
                            } else if r.0 * r.1 * 12 > usize::MAX {
                                Err(Fault::TooLarge("HDR: pixel-buffer size overflows usize"@))
                            } else if r.0 * r.1 * 12 > limits.max_pixel_bytes {
                                Err(Fault::TooLarge(
                                    "HDR: pixel-buffer size "@ + dec_chars(r.0 * r.1 * 12) + " bytes exceeds HdrLimits::max_pixel_bytes ("@
                                        + dec_chars(limits.max_pixel_bytes as nat) + ")"@,
                                ))
                            } else {
                                Ok(r)
                            }
                        },
                        _ => Err(Fault::Invalid("HDR: invalid resolution value"@)),
                    }
                },
                _ => Err(Fault::Invalid("HDR: invalid resolution value"@)),
            }
        }
    }
}

/// The resolution line at `pos`: what it gives and the position after it.
pub open spec fn resolution_at(input: Seq<u8>, pos: int, limits: HdrLimits) -> Result<(ResolutionView, int), Fault> {
    match crate::text::line_at(input, pos) {
        None => Err(Fault::Invalid("HDR: missing resolution line"@)),
        Some((raw, next)) => match resolution_spec(crate::text::trim_cr_spec(raw), limits) {
            Ok(r) => Ok((r, next)),
            Err(f) => Err(f),
        },
    }
}

/// A `TooLarge` error reading `a`, then `n` in decimal, then `b`, then
/// `max` in decimal and `)`.
fn limit_error(a: &str, n: u64, b: &str, max: u64) -> (e: HdrError)
    ensures
        e matches HdrError::TooLarge(m) && m@ == a@ + dec_chars(n as nat) + b@ + dec_chars(max as nat) + ")"@,
{
    let mut m: Vec<char> = Vec::new();
    push_str_chars(&mut m, a);
    push_decimal_chars(&mut m, n);
    push_str_chars(&mut m, b);
    push_decimal_chars(&mut m, max);
    push_str_chars(&mut m, ")");
    HdrError::TooLarge(string_from_chars(&m))
}

fn usize_token(t: &Vec<char>) -> (r: Option<usize>)
    ensures
        match usize_value(t@) {
            Some(v) => r == Some(v as usize),
            None => r is None,
        },
{
    match crate::text::parse_dec(t) {
        Some(v) => if v <= usize::MAX as u64 {
            Some(v as usize)
        } else {
            None
        },
        None => None,
    }
}

/// Read the resolution line at `*cursor`, check it against `limits`, store
/// its axis fields in `header` and return `(width, height)`.
pub fn parse_resolution(input: &[u8], cursor: &mut usize, header: &mut HdrHeader, limits: &HdrLimits) -> (r: Result<(usize, usize), HdrError>)
    ensures
        match resolution_at(input@, *old(cursor) as int, *limits) {
            Ok((res, next)) => r == Ok::<(usize, usize), HdrError>((res.0 as usize, res.1 as usize))
                && final(header)@ == (HeaderView { y_sign: res.2, x_sign: res.3, x_first: res.4, ..old(header)@ })
                && *final(cursor) as int == next,
            Err(f) => r matches Err(e) && fault_of(e) == f && final(header)@ == old(header)@,
        },
{
    let line = match crate::text::read_line(input, cursor) {
        Some(l) => l,
        None => {
            return Err(HdrError::invalid("HDR: missing resolution line"));
        },
    };
    let l = crate::text::trim_cr(line);
    let s = match crate::text::utf8_string(l) {
        Some(s) => s,
        None => {
            return Err(HdrError::invalid("HDR: non-UTF8 resolution line"));
        },
    };
    proof {
        crate::text::lemma_utf8_string(l@, s@);
    }
    let toks = split_ws(&chars_of(s.as_str()));
    if toks.len() != 4 {
        return Err(HdrError::invalid("HDR: resolution line must have 4 tokens"));
    }
    assert(toks@[0]@ == views_of(toks@)[0]);
    assert(toks@[1]@ == views_of(toks@)[1]);
    assert(toks@[2]@ == views_of(toks@)[2]);
    assert(toks@[3]@ == views_of(toks@)[3]);
    let (a_axis, a_sign) = axis_flag_of(toks[0].as_slice())?;
    let (b_axis, b_sign) = axis_flag_of(toks[2].as_slice())?;
    if a_axis == b_axis {
        return Err(HdrError::invalid("HDR: resolution line must have one X and one Y flag"));
    }
    let a_n = match usize_token(&toks[1]) {
        Some(v) => v,
        None => {
            return Err(HdrError::invalid("HDR: invalid resolution value"));
        },
    };
    let b_n = match usize_token(&toks[3]) {
        Some(v) => v,
        None => {
            return Err(HdrError::invalid("HDR: invalid resolution value"));
        },
    };
    let (width, height, y_sign, x_sign, x_first) = if a_axis == 'Y' {
        (b_n, a_n, a_sign, b_sign, false)
    } else {
        (a_n, b_n, b_sign, a_sign, true)
    };
    if width == 0 || height == 0 {
        return Err(HdrError::invalid("HDR: zero dimension in resolution line"));
    }
    if width > limits.max_width as usize {
        return Err(limit_error("HDR: resolution width ", width as u64, " exceeds HdrLimits::max_width (", limits.max_width as u64));
    }
    if height > limits.max_height as usize {
        return Err(limit_error("HDR: resolution height ", height as u64, " exceeds HdrLimits::max_height (", limits.max_height as u64));
    }
    let pixel_count = match width.checked_mul(height) {
        Some(v) => v,
        None => {
            return Err(HdrError::too_large("HDR: width × height overflows usize"));
        },
    };
    let buf_bytes = match pixel_count.checked_mul(12) {
        Some(v) => v,
        None => {
            return Err(HdrError::too_large("HDR: pixel-buffer size overflows usize"));
        },
    };
    if buf_bytes > limits.max_pixel_bytes {
        return Err(limit_error(
            "HDR: pixel-buffer size ",
            buf_bytes as u64,
            " bytes exceeds HdrLimits::max_pixel_bytes (",
            limits.max_pixel_bytes as u64,
        ));
    }
    header.y_sign = y_sign;
    header.x_sign = x_sign;
    header.x_first = x_first;
    Ok((width, height))
}

/// The position of the `\n` that ends the first blank line at or after
/// `i`, where a blank line is a `\n` followed by any `\r` bytes and another
/// `\n`; `prev_lf` tells whether such a run is open at `i`.
pub open spec fn blank_line_end(buf: Seq<u8>, i: int, prev_lf: bool) -> Option<int>
    decreases buf.len() - i,
{
    if i < 0 || i >= buf.len() {
        None
    } else if buf[i] == 10 {
        if prev_lf {
            Some(i)
        } else {
            blank_line_end(buf, i + 1, true)
        }
    } else if buf[i] == 13 {
        blank_line_end(buf, i + 1, prev_lf)
    } else {
        blank_line_end(buf, i + 1, false)
    }
}

/// The value of a decimal token when it fits in a `u32`.
pub open spec fn u32_value(t: Seq<char>) -> Option<nat> {
    match crate::text::dec_value(t) {
        Some(v) => if v <= u32::MAX {
            Some(v)
        } else {
            None
        },
        None => None,
    }
}

/// The X and Y values found among the `(flag, value)` pairs of four
/// tokens: a flag ending in `X` sets X, else one ending in `Y` sets Y (the
/// later pair wins); `None` when a value is not a `u32`.
pub open spec fn peek_pairs(t: Seq<Seq<char>>) -> Option<(Option<nat>, Option<nat>)> {
    match (u32_value(t[1]), u32_value(t[3])) {
        (Some(v1), Some(v3)) => {
            let x1: Option<nat> = if t[0].len() > 0 && t[0].last() == 'X' { Some(v1) } else { None };
            let y1: Option<nat> = if !(t[0].len() > 0 && t[0].last() == 'X') && t[0].len() > 0 && t[0].last() == 'Y' { Some(v1) } else { None };
            let x: Option<nat> = if t[2].len() > 0 && t[2].last() == 'X' { Some(v3) } else { x1 };
            let y: Option<nat> = if !(t[2].len() > 0 && t[2].last() == 'X') && t[2].len() > 0 && t[2].last() == 'Y' { Some(v3) } else { y1 };
            Some((x, y))
        },
        _ => None,
    }
}

/// The `(width, height)` a picture's resolution line declares, read
/// without the full header parse: the line after the first blank line must
/// be UTF-8 with four tokens whose values are `u32`s, one flag ending in
/// `X` and one in `Y`.
pub open spec fn peek_spec(buf: Seq<u8>) -> Option<(u32, u32)> {
    match blank_line_end(buf, 0, false) {
        None => None,
        Some(i) => match crate::text::line_at(buf, i + 1) {
            None => None,
            Some((l, _)) => if !valid_utf8(l) || ws_tokens(decode_utf8(l)).len() != 4 {
                None
            } else {
                match peek_pairs(ws_tokens(decode_utf8(l))) {
                    Some((Some(x), Some(y))) => Some((x as u32, y as u32)),
                    _ => None,
                }
            },
        },
    }
}

fn ends_with_char(t: &Vec<char>, c: char) -> (r: bool)
    ensures
        r == (t@.len() > 0 && t@.last() == c),
{
    t.len() > 0 && t[t.len() - 1] == c
}

/// Best-effort `(width, height)` of a picture, read from the resolution
/// line that follows the first blank line; `None` for anything malformed.
pub fn peek_dimensions(buf: &[u8]) -> (r: Option<(u32, u32)>)
    ensures
        r == peek_spec(buf@),
{
    let n = buf.len();
    let mut i: usize = 0;
    let mut prev_lf = false;
    while i < n
        invariant
            n == buf@.len(),
            i <= n,
            blank_line_end(buf@, 0, false) == blank_line_end(buf@, i as int, prev_lf),
        decreases n - i,
    {
        if buf[i] == 10 {
            if prev_lf {
                let mut res_start = i + 1;
                let line = match crate::text::read_line(buf, &mut res_start) {
                    Some(l) => l,
                    None => {
                        return None;
                    },
                };
                let s = match crate::text::utf8_string(line) {
                    Some(s) => s,
                    None => {
                        return None;
                    },
                };
                proof {
                    crate::text::lemma_utf8_string(line@, s@);
                }
                let toks = split_ws(&chars_of(s.as_str()));
                if toks.len() != 4 {
                    return None;
                }
                assert(toks@[0]@ == views_of(toks@)[0]);
                assert(toks@[1]@ == views_of(toks@)[1]);
                assert(toks@[2]@ == views_of(toks@)[2]);
                assert(toks@[3]@ == views_of(toks@)[3]);
                let v1 = match crate::text::parse_dec(&toks[1]) {
                    Some(v) => if v <= u32::MAX as u64 {
                        v as u32
                    } else {
                        return None;
                    },
                    None => {
                        return None;
                    },
                };
                let v3 = match crate::text::parse_dec(&toks[3]) {
                    Some(v) => if v <= u32::MAX as u64 {
                        v as u32
                    } else {
                        return None;
                    },
                    None => {
                        return None;
                    },
                };
                let mut x: Option<u32> = None;
                let mut y: Option<u32> = None;
                if ends_with_char(&toks[0], 'X') {
                    x = Some(v1);
                } else if ends_with_char(&toks[0], 'Y') {
                    y = Some(v1);
                }
                if ends_with_char(&toks[2], 'X') {
                    x = Some(v3);
                } else if ends_with_char(&toks[2], 'Y') {
                    y = Some(v3);
                }
                return match (x, y) {
                    (Some(xv), Some(yv)) => Some((xv, yv)),
                    _ => None,
                };
            }
            prev_lf = true;
        } else if buf[i] == 13 {
        } else {
            prev_lf = false;
        }
        i = i + 1;
    }
    None
}

/// `true` when the bytes start with `#?RADIANCE` or `#?RGBE`.
pub fn has_radiance_magic(buf: &[u8]) -> (r: bool)
    ensures
        r == (buf@.len() >= 10 && buf@.subrange(0, 10) == ascii_bytes(seq!['#', '?', 'R', 'A', 'D', 'I', 'A', 'N', 'C', 'E'])
            || buf@.len() >= 6 && buf@.subrange(0, 6) == ascii_bytes(seq!['#', '?', 'R', 'G', 'B', 'E'])),
{
    let a = buf.len() >= 10 && key_is(vstd::slice::slice_subrange(buf, 0, 10), &['#', '?', 'R', 'A', 'D', 'I', 'A', 'N', 'C', 'E']);
    let b = buf.len() >= 6 && key_is(vstd::slice::slice_subrange(buf, 0, 6), &['#', '?', 'R', 'G', 'B', 'E']);
    proof {
        assert(['#', '?', 'R', 'A', 'D', 'I', 'A', 'N', 'C', 'E']@ =~= seq!['#', '?', 'R', 'A', 'D', 'I', 'A', 'N', 'C', 'E']);
        assert(['#', '?', 'R', 'G', 'B', 'E']@ =~= seq!['#', '?', 'R', 'G', 'B', 'E']);
    }
    a || b
}

/// The line terminator the encoder writes after each text line.
#[derive(Debug, Clone, Copy, PartialEq, Eq, Structural)]
pub enum LineEnding {
    /// `\n`.
    Lf,
    /// `\r\n`.
    Crlf,
}

/// The bytes of a line terminator.
pub open spec fn eol_bytes(e: LineEnding) -> Seq<u8> {
    match e {
        LineEnding::Lf => seq![10u8],
        LineEnding::Crlf => seq![13u8, 10u8],
    }
}

impl LineEnding {
    /// The terminator's bytes.
    pub fn as_bytes(self) -> (r: &'static [u8])
        ensures
            r@ == eol_bytes(self),
    {
        match self {
            LineEnding::Lf => {
                let r: &'static [u8] = &[10];
                assert(r@ =~= eol_bytes(self));
                r
            },
            LineEnding::Crlf => {
                let r: &'static [u8] = &[13, 10];
                assert(r@ =~= eol_bytes(self));
                r
            },
        }
    }
}

/// The identifier the encoder writes after `#?`.
#[derive(Debug, Clone, PartialEq, Eq)]
pub enum MagicLine {
    /// `#?RADIANCE`, the common spelling.
    Radiance,
    /// `#?RGBE`, the legacy spelling.
    Rgbe,
    /// `#?` followed by the given identifier.
    Custom(String),
}

pub open spec fn radiance_chars() -> Seq<char> {
    seq!['R', 'A', 'D', 'I', 'A', 'N', 'C', 'E']
}

pub open spec fn rgbe_chars() -> Seq<char> {
    seq!['R', 'G', 'B', 'E']
}

/// The identifier a magic-line choice writes.
pub open spec fn magic_chars(m: MagicLine) -> Seq<char> {
    match m {
        MagicLine::Radiance => radiance_chars(),
        MagicLine::Rgbe => rgbe_chars(),
        MagicLine::Custom(s) => s@,
    }
}

/// One text line: the bytes, then the terminator.
pub open spec fn text_line(b: Seq<u8>, e: LineEnding) -> Seq<u8> {
    b + eol_bytes(e)
}

/// A `KEY=VALUE` record line.
pub open spec fn record_line(key: Seq<char>, v: Seq<char>, e: LineEnding) -> Seq<u8> {
    text_line(encode_utf8(key) + seq![61u8] + encode_utf8(v), e)
}

/// One record line per value, in order.
pub open spec fn record_lines(key: Seq<char>, vs: Seq<Seq<char>>, e: LineEnding) -> Seq<u8>
    decreases vs.len(),
{
    if vs.len() == 0 {
        Seq::empty()
    } else {
        record_lines(key, vs.drop_last(), e) + record_line(key, vs.last(), e)
    }
}

/// The record line of an optional value.
pub open spec fn opt_record_line(key: Seq<char>, v: Option<Seq<char>>, e: LineEnding) -> Seq<u8> {
    match v {
        Some(x) => record_line(key, x, e),
        None => Seq::empty(),
    }
}

/// One record line per `(key, value)` pair, in order.
pub open spec fn pair_lines(ps: Seq<(Seq<char>, Seq<char>)>, e: LineEnding) -> Seq<u8>
    decreases ps.len(),
{
    if ps.len() == 0 {
        Seq::empty()
    } else {
        pair_lines(ps.drop_last(), e) + record_line(ps.last().0, ps.last().1, e)
    }
}

/// One line per text, each after the bytes `lead`.
pub open spec fn plain_lines(lead: Seq<u8>, vs: Seq<Seq<char>>, e: LineEnding) -> Seq<u8>
    decreases vs.len(),
{
    if vs.len() == 0 {
        Seq::empty()
    } else {
        plain_lines(lead, vs.drop_last(), e) + text_line(lead + encode_utf8(vs.last()), e)
    }
}

/// The header the encoder writes: the magic line, the program lines, the
/// `FORMAT` record, the numeric records, then `SOFTWARE`, `VIEW`, the other
/// records, the comments, and the blank line.
pub open spec fn header_bytes(h: HeaderView, magic: Seq<char>, e: LineEnding) -> Seq<u8> {
    text_line(seq![35u8, 63u8] + encode_utf8(magic), e)
        + plain_lines(Seq::empty(), h.commands, e)
        + record_line(key_format(), format_chars(h.format), e)
        + numeric_lines(h, e)
        + tail_lines(h, e)
}

/// `o` with five pieces appended one after another.
pub proof fn lemma_append5(o: Seq<u8>, a: Seq<u8>, b: Seq<u8>, c: Seq<u8>, d: Seq<u8>, e: Seq<u8>)
    ensures
        o + a + b + c + d + e == o + (a + b + c + d + e),
{
    vstd::seq_lib::lemma_concat_associative(o, a, b);
    vstd::seq_lib::lemma_concat_associative(o, a + b, c);
    vstd::seq_lib::lemma_concat_associative(o, a + b + c, d);
    vstd::seq_lib::lemma_concat_associative(o, a + b + c + d, e);
}

fn write_eol(out: &mut Vec<u8>, e: LineEnding)
    ensures
        final(out)@ == old(out)@ + eol_bytes(e),
{
    crate::text::append_bytes(out, e.as_bytes());
}

fn write_key(out: &mut Vec<u8>, key: &[char])
    requires
        is_ascii_chars(key@),
    ensures
        final(out)@ == old(out)@ + encode_utf8(key@) + seq![61u8],
{
    crate::text::append_ascii(out, key);
    proof {
        crate::text::lemma_ascii_encode(key@);
    }
    out.push(61);
}

fn write_record(out: &mut Vec<u8>, key: &[char], v: &String, e: LineEnding)
    requires
        is_ascii_chars(key@),
    ensures
        final(out)@ == old(out)@ + record_line(key@, v@, e),
{
    let ghost o = out@;
    write_key(out, key);
    crate::text::append_str(out, v.as_str());
    write_eol(out, e);
    assert(out@ =~= o + record_line(key@, v@, e));
}

fn write_records(out: &mut Vec<u8>, key: &[char], vs: &Vec<String>, e: LineEnding)
    requires
        is_ascii_chars(key@),
    ensures
        final(out)@ == old(out)@ + record_lines(key@, strings_view(vs@), e),
{
    let ghost o = out@;
    let ghost sv = strings_view(vs@);
    let mut i: usize = 0;
    assert(record_lines(key@, sv.take(0), e) =~= Seq::<u8>::empty());
    while i < vs.len()
        invariant
            sv == strings_view(vs@),
            i <= vs@.len(),
            is_ascii_chars(key@),
            out@ == o + record_lines(key@, sv.take(i as int), e),
        decreases vs@.len() - i,
    {
        write_record(out, key, &vs[i], e);
        assert(sv.take(i + 1).drop_last() =~= sv.take(i as int));
        assert(out@ =~= o + record_lines(key@, sv.take(i + 1), e));
        i = i + 1;
    }
    assert(sv.take(vs@.len() as int) =~= sv);
}

fn write_plain_lines(out: &mut Vec<u8>, lead: &[u8], vs: &Vec<String>, e: LineEnding)
    ensures
        final(out)@ == old(out)@ + plain_lines(lead@, strings_view(vs@), e),
{
    let ghost o = out@;
    let ghost sv = strings_view(vs@);
    let mut i: usize = 0;
    assert(plain_lines(lead@, sv.take(0), e) =~= Seq::<u8>::empty());
    while i < vs.len()
        invariant
            sv == strings_view(vs@),
            i <= vs@.len(),
            out@ == o + plain_lines(lead@, sv.take(i as int), e),
        decreases vs@.len() - i,
    {
        let ghost before = out@;
        crate::text::append_bytes(out, lead);
        crate::text::append_str(out, vs[i].as_str());
        write_eol(out, e);
        assert(sv.take(i + 1).drop_last() =~= sv.take(i as int));
        assert(out@ =~= before + text_line(lead@ + encode_utf8(sv[i as int]), e));
        assert(out@ =~= o + plain_lines(lead@, sv.take(i + 1), e));
        i = i + 1;
    }
    assert(sv.take(vs@.len() as int) =~= sv);
}

fn write_pairs(out: &mut Vec<u8>, ps: &Vec<(String, String)>, e: LineEnding)
    ensures
        final(out)@ == old(out)@ + pair_lines(pairs_view(ps@), e),
{
    let ghost o = out@;
    let ghost pv = pairs_view(ps@);
    let mut i: usize = 0;
    assert(pair_lines(pv.take(0), e) =~= Seq::<u8>::empty());
    while i < ps.len()
        invariant
            pv == pairs_view(ps@),
            i <= ps@.len(),
            out@ == o + pair_lines(pv.take(i as int), e),
        decreases ps@.len() - i,
    {
        let ghost before = out@;
        crate::text::append_str(out, ps[i].0.as_str());
        out.push(61);
        crate::text::append_str(out, ps[i].1.as_str());
        write_eol(out, e);
        assert(pv.take(i + 1).drop_last() =~= pv.take(i as int));
        assert(out@ =~= before + record_line(pv[i as int].0, pv[i as int].1, e));
        assert(out@ =~= o + pair_lines(pv.take(i + 1), e));
        i = i + 1;
    }
    assert(pv.take(ps@.len() as int) =~= pv);
}

proof fn lemma_keys_ascii()
    ensures
        is_ascii_chars(key_format()),
        is_ascii_chars(key_exposure()),
        is_ascii_chars(key_gamma()),
        is_ascii_chars(key_pixaspect()),
        is_ascii_chars(key_colorcorr()),
        is_ascii_chars(key_primaries()),
        is_ascii_chars(key_software()),
        is_ascii_chars(key_view()),
        is_ascii_chars(rgbe_format_chars()),
        is_ascii_chars(xyze_format_chars()),
        is_ascii_chars(radiance_chars()),
        is_ascii_chars(rgbe_chars()),
{
}

fn write_magic(out: &mut Vec<u8>, eol: LineEnding, magic: &MagicLine)
    ensures
        final(out)@ == old(out)@ + text_line(seq![35u8, 63u8] + encode_utf8(magic_chars(*magic)), eol),
{
    let ghost o = out@;
    proof {
        lemma_keys_ascii();
    }
    out.push(35);
    out.push(63);
    match magic {
        MagicLine::Radiance => {
            let cs = ['R', 'A', 'D', 'I', 'A', 'N', 'C', 'E'];
            assert(cs@ =~= radiance_chars());
            crate::text::append_ascii(out, &cs);
            proof {
                crate::text::lemma_ascii_encode(cs@);
            }
        },
        MagicLine::Rgbe => {
            let cs = ['R', 'G', 'B', 'E'];
            assert(cs@ =~= rgbe_chars());
            crate::text::append_ascii(out, &cs);
            proof {
                crate::text::lemma_ascii_encode(cs@);
            }
        },
        MagicLine::Custom(id) => {
            crate::text::append_str(out, id.as_str());
        },
    }
    write_eol(out, eol);
    assert(out@ =~= o + text_line(seq![35u8, 63u8] + encode_utf8(magic_chars(*magic)), eol));
}

fn write_format(out: &mut Vec<u8>, format: HdrFormat, eol: LineEnding)
    ensures
        final(out)@ == old(out)@ + record_line(key_format(), format_chars(format), eol),
{
    let ghost o = out@;
    proof {
        lemma_keys_ascii();
    }
    let fk = ['F', 'O', 'R', 'M', 'A', 'T'];
    assert(fk@ =~= key_format());
    write_key(out, &fk);
    let name = format.name_chars();
    crate::text::append_ascii(out, &name);
    proof {
        crate::text::lemma_ascii_encode(name@);
    }
    write_eol(out, eol);
    assert(out@ =~= o + record_line(key_format(), format_chars(format), eol));
}

/// The numeric records of a header.
pub open spec fn numeric_lines(h: HeaderView, e: LineEnding) -> Seq<u8> {
    record_lines(key_gamma(), h.gamma, e)
        + record_lines(key_exposure(), h.exposure, e)
        + record_lines(key_pixaspect(), h.pixaspect, e)
        + record_lines(key_colorcorr(), h.colorcorr, e)
        + record_lines(key_primaries(), h.primaries, e)
}

fn write_numeric(out: &mut Vec<u8>, header: &HdrHeader, eol: LineEnding)
    ensures
        final(out)@ == old(out)@ + numeric_lines(header@, eol),
{
    let ghost o = out@;
    proof {
        lemma_keys_ascii();
    }
    let gk = ['G', 'A', 'M', 'M', 'A'];
    assert(gk@ =~= key_gamma());
    write_records(out, &gk, &header.gamma, eol);
    let ek = ['E', 'X', 'P', 'O', 'S', 'U', 'R', 'E'];
    assert(ek@ =~= key_exposure());
    write_records(out, &ek, &header.exposure, eol);
    let pk = ['P', 'I', 'X', 'A', 'S', 'P', 'E', 'C', 'T'];
    assert(pk@ =~= key_pixaspect());
    write_records(out, &pk, &header.pixaspect, eol);
    let ck = ['C', 'O', 'L', 'O', 'R', 'C', 'O', 'R', 'R'];
    assert(ck@ =~= key_colorcorr());
    write_records(out, &ck, &header.colorcorr, eol);
    let rk = ['P', 'R', 'I', 'M', 'A', 'R', 'I', 'E', 'S'];
    assert(rk@ =~= key_primaries());
    write_records(out, &rk, &header.primaries, eol);
    proof {
        lemma_append5(
            o,
            record_lines(key_gamma(), header@.gamma, eol),
            record_lines(key_exposure(), header@.exposure, eol),
            record_lines(key_pixaspect(), header@.pixaspect, eol),
            record_lines(key_colorcorr(), header@.colorcorr, eol),
            record_lines(key_primaries(), header@.primaries, eol),
        );
    }
}

/// The records after the numeric ones, and the blank line.
pub open spec fn tail_lines(h: HeaderView, e: LineEnding) -> Seq<u8> {
    opt_record_line(key_software(), h.software, e)
        + opt_record_line(key_view(), h.view, e)
        + pair_lines(h.other, e)
        + plain_lines(seq![35u8], h.comments, e)
        + eol_bytes(e)
}

fn write_tail(out: &mut Vec<u8>, header: &HdrHeader, eol: LineEnding)
    ensures
        final(out)@ == old(out)@ + tail_lines(header@, eol),
{
    let ghost o = out@;
    proof {
        lemma_keys_ascii();
    }
    if let Some(sw) = &header.software {
        let sk = ['S', 'O', 'F', 'T', 'W', 'A', 'R', 'E'];
        assert(sk@ =~= key_software());
        write_record(out, &sk, sw, eol);
    }
    let ghost a = opt_record_line(key_software(), header@.software, eol);
    assert(out@ == o + a);
    if let Some(v) = &header.view {
        let vk = ['V', 'I', 'E', 'W'];
        assert(vk@ =~= key_view());
        write_record(out, &vk, v, eol);
    }
    let ghost b = opt_record_line(key_view(), header@.view, eol);
    assert(out@ == o + a + b);
    write_pairs(out, &header.other, eol);
    let hash_lead: [u8; 1] = [35];
    assert(hash_lead@ =~= seq![35u8]);
    write_plain_lines(out, &hash_lead, &header.comments, eol);
    write_eol(out, eol);
    proof {
        lemma_append5(o, a, b, pair_lines(header@.other, eol), plain_lines(seq![35u8], header@.comments, eol), eol_bytes(eol));
    }
}

/// Append the header text: the magic line with identifier `magic`, then
/// the records of `header` (see [`header_bytes`]).
pub fn write_header(out: &mut Vec<u8>, header: &HdrHeader, eol: LineEnding, magic: &MagicLine)
    ensures
        final(out)@ == old(out)@ + header_bytes(header@, magic_chars(*magic), eol),
{
    let ghost o = out@;
    write_magic(out, eol, magic);
    let no_lead: [u8; 0] = [];
    assert(no_lead@ =~= Seq::<u8>::empty());
    write_plain_lines(out, &no_lead, &header.commands, eol);
    write_format(out, header.format, eol);
    write_numeric(out, header, eol);
    write_tail(out, header, eol);
    proof {
        lemma_append5(
            o,
            text_line(seq![35u8, 63u8] + encode_utf8(magic_chars(*magic)), eol),
            plain_lines(Seq::empty(), header@.commands, eol),
            record_line(key_format(), format_chars(header@.format), eol),
            numeric_lines(header@, eol),
            tail_lines(header@, eol),
        );
    }
}

/// The sign character of an axis flag.
pub open spec fn sign_char(s: AxisSign) -> char {
    match s {
        AxisSign::Increasing => '+',
        AxisSign::Decreasing => '-',
    }
}

/// The resolution line the encoder writes for an on-disk picture of
/// `ow`-pixel scanlines, `oh` of them: `<Y flag> oh <X flag> ow`, or
/// `<X flag> oh <Y flag> ow` when X is listed first.
pub open spec fn resolution_chars(ow: nat, oh: nat, ys: AxisSign, xs: AxisSign, xf: bool) -> Seq<char> {
    let yflag = seq![sign_char(ys), 'Y'];
    let xflag = seq![sign_char(xs), 'X'];
    if xf {
        join_space(seq![xflag, crate::text::dec_chars(oh), yflag, crate::text::dec_chars(ow)])
    } else {
        join_space(seq![yflag, crate::text::dec_chars(oh), xflag, crate::text::dec_chars(ow)])
    }
}

/// The bytes of the resolution line, terminator included.
pub open spec fn resolution_bytes(ow: nat, oh: nat, h: HeaderView, e: LineEnding) -> Seq<u8> {
    ascii_bytes(resolution_chars(ow, oh, h.y_sign, h.x_sign, h.x_first)) + eol_bytes(e)
}

fn push_flag(out: &mut Vec<u8>, sign: AxisSign, axis: char)
    requires
        axis == 'X' || axis == 'Y',
    ensures
        final(out)@ == old(out)@ + ascii_bytes(seq![sign_char(sign), axis]),
{
    let c = match sign {
        AxisSign::Increasing => '+',
        AxisSign::Decreasing => '-',
    };
    out.push(c as u8);
    out.push(axis as u8);
    assert(final(out)@ =~= old(out)@ + ascii_bytes(seq![sign_char(sign), axis]));
}

/// Four words joined by single spaces.
proof fn lemma_join_four(f1: Seq<char>, a: Seq<char>, f2: Seq<char>, b: Seq<char>)
    ensures
        join_space(seq![f1, a, f2, b]) == f1 + seq![' '] + a + seq![' '] + f2 + seq![' '] + b,
{
    let words = seq![f1, a, f2, b];
    assert(words.drop_last().drop_last().drop_last() =~= seq![f1]);
    assert(words.drop_last().drop_last() =~= seq![f1, a]);
    assert(words.drop_last() =~= seq![f1, a, f2]);
    assert(join_space(seq![f1]) == f1);
    assert(seq![f1, a].drop_last() =~= seq![f1]);
    assert(join_space(seq![f1, a]) == f1 + seq![' '] + a);
    assert(seq![f1, a, f2].drop_last() =~= seq![f1, a]);
    assert(join_space(seq![f1, a, f2]) == f1 + seq![' '] + a + seq![' '] + f2);
}

/// Append the resolution line of an on-disk picture of `out_height`
/// scanlines of `out_width` pixels, with the header's axis fields.
#[verifier::spinoff_prover]
pub fn write_resolution(out: &mut Vec<u8>, out_width: usize, out_height: usize, header: &HdrHeader, eol: LineEnding)
    ensures
        final(out)@ == old(out)@ + resolution_bytes(out_width as nat, out_height as nat, header@, eol),
{
    let ghost o = out@;
    let ghost yflag = seq![sign_char(header.y_sign), 'Y'];
    let ghost xflag = seq![sign_char(header.x_sign), 'X'];
    let ghost a = crate::text::dec_chars(out_height as nat);
    let ghost b = crate::text::dec_chars(out_width as nat);
    let ghost f1 = if header.x_first { xflag } else { yflag };
    let ghost f2 = if header.x_first { yflag } else { xflag };
    if header.x_first {
        push_flag(out, header.x_sign, 'X');
    } else {
        push_flag(out, header.y_sign, 'Y');
    }
    out.push(32);
    crate::text::push_decimal(out, out_height as u64);
    out.push(32);
    if header.x_first {
        push_flag(out, header.y_sign, 'Y');
    } else {
        push_flag(out, header.x_sign, 'X');
    }
    out.push(32);
    crate::text::push_decimal(out, out_width as u64);
    proof {
        let words = seq![f1, a, f2, b];
        lemma_join_four(f1, a, f2, b);
        assert(resolution_chars(out_width as nat, out_height as nat, header.y_sign, header.x_sign, header.x_first) == join_space(words));
        assert(out@ =~= o + ascii_bytes(f1 + seq![' '] + a + seq![' '] + f2 + seq![' '] + b));
    }
    write_eol(out, eol);
}

} // verus!
