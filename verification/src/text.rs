//! Helpers for the text part of a picture file: lines, UTF-8, whitespace
//! tokens and decimal numbers.

use vstd::prelude::*;
use vstd::utf8::{valid_utf8, decode_utf8, encode_utf8, is_ascii_chars};

verus! {

/// The bytes of an ASCII character sequence.
pub open spec fn ascii_bytes(cs: Seq<char>) -> Seq<u8> {
    Seq::new(cs.len(), |i: int| cs[i] as u8)
}

/// The UTF-8 coding of ASCII characters is their bytes.
pub proof fn lemma_ascii_encode(cs: Seq<char>)
    requires
        is_ascii_chars(cs),
    ensures
        encode_utf8(cs) == ascii_bytes(cs),
        decode_utf8(ascii_bytes(cs)) == cs,
        valid_utf8(ascii_bytes(cs)),
{
    vstd::utf8::is_ascii_chars_encode_utf8(cs);
    assert(encode_utf8(cs) =~= ascii_bytes(cs));
    vstd::utf8::encode_utf8_decode_utf8(cs);
    vstd::utf8::encode_utf8_valid_utf8(cs);
}

/// The first position at or after `i` holding byte `b`, or `s.len()` when
/// there is none.
pub open spec fn find_byte(s: Seq<u8>, b: u8, i: int) -> int
    decreases s.len() - i,
{
    if i < 0 || i >= s.len() {
        s.len() as int
    } else if s[i] == b {
        i
    } else {
        find_byte(s, b, i + 1)
    }
}

pub proof fn lemma_find_byte(s: Seq<u8>, b: u8, i: int)
    requires
        0 <= i <= s.len(),
    ensures
        i <= find_byte(s, b, i) <= s.len(),
        find_byte(s, b, i) < s.len() ==> s[find_byte(s, b, i)] == b,
        forall|k: int| i <= k < find_byte(s, b, i) ==> s[k] != b,
    decreases s.len() - i,
{
    if i < s.len() && s[i] != b {
        lemma_find_byte(s, b, i + 1);
    }
}

/// A byte that `find_byte` stops at when no earlier one holds it.
pub proof fn lemma_find_byte_at(s: Seq<u8>, b: u8, i: int, j: int)
    requires
        0 <= i <= j < s.len(),
        s[j] == b,
        forall|k: int| i <= k < j ==> s[k] != b,
    ensures
        find_byte(s, b, i) == j,
    decreases j - i,
{
    if i < j {
        lemma_find_byte_at(s, b, i + 1, j);
    }
}

/// `\n`.
pub open spec fn newline() -> u8 {
    10
}

/// The line that starts at `start`: its bytes without the `\n`, and the
/// position after the `\n`. `None` when no `\n` follows (or `start` lies
/// past the end).
pub open spec fn line_at(s: Seq<u8>, start: int) -> Option<(Seq<u8>, int)> {
    if start < 0 || start > s.len() {
        None
    } else {
        let e = find_byte(s, newline(), start);
        if e >= s.len() {
            None
        } else {
            Some((s.subrange(start, e), e + 1))
        }
    }
}

pub proof fn lemma_line_at(s: Seq<u8>, start: int)
    ensures
        line_at(s, start) matches Some((l, next)) ==> start < next <= s.len() && next == start + l.len() + 1
            && !l.contains(newline()),
{
    if 0 <= start <= s.len() {
        lemma_find_byte(s, newline(), start);
        let e = find_byte(s, newline(), start);
        if e < s.len() {
            let l = s.subrange(start, e);
            assert forall|k: int| 0 <= k < l.len() implies l[k] != newline() by {
                assert(l[k] == s[start + k]);
            }
        }
    }
}

/// The line read back from a stream holding `l` and then `\n` at `p`.
pub proof fn lemma_line_at_written(s: Seq<u8>, p: int, l: Seq<u8>)
    requires
        0 <= p,
        p + l.len() + 1 <= s.len(),
        s.subrange(p, p + l.len()) == l,
        s[p + l.len()] == newline(),
        !l.contains(newline()),
    ensures
        line_at(s, p) == Some((l, p + l.len() + 1)),
{
    assert forall|k: int| p <= k < p + l.len() implies s[k] != newline() by {
        assert(s.subrange(p, p + l.len())[k - p] == s[k]);
        if s[k] == newline() {
            assert(l[k - p] == newline());
        }
    }
    lemma_find_byte_at(s, newline(), p, p + l.len());
}

/// Read the line that starts at `*cursor` (up to, not including, the next
/// `\n`) and move `*cursor` past the `\n`. `None`, with `*cursor` left as it
/// was, when no `\n` follows.
pub fn read_line<'a>(input: &'a [u8], cursor: &mut usize) -> (r: Option<&'a [u8]>)
    ensures
        match line_at(input@, *old(cursor) as int) {
            Some((l, next)) => r matches Some(x) && x@ == l && *final(cursor) as int == next,
            None => r is None && *final(cursor) == *old(cursor),
        },
{
    let start = *cursor;
    let n = input.len();
    if start > n {
        return None;
    }
    let mut i = start;
    while i < n && input[i] != 10
        invariant
            n == input@.len(),
            start <= i <= n,
            find_byte(input@, newline(), start as int) == find_byte(input@, newline(), i as int),
        decreases n - i,
    {
        i = i + 1;
    }
    if i >= n {
        return None;
    }
    *cursor = i + 1;
    Some(vstd::slice::slice_subrange(input, start, i))
}

/// The line without one trailing `\r`.
pub open spec fn trim_cr_spec(l: Seq<u8>) -> Seq<u8> {
    if l.len() > 0 && l.last() == 13 {
        l.drop_last()
    } else {
        l
    }
}

/// Strip a single trailing `\r`, if there is one.
pub fn trim_cr(line: &[u8]) -> (r: &[u8])
    ensures
        r@ == trim_cr_spec(line@),
{
    let n = line.len();
    if n > 0 && line[n - 1] == 13 {
        vstd::slice::slice_subrange(line, 0, n - 1)
    } else {
        line
    }
}

/// `std::str::from_utf8`: the text the bytes spell, or `None` when they are
/// not well-formed UTF-8.
#[verifier::external_body]
fn str_from_utf8(bytes: &[u8]) -> (r: Option<&str>)
    ensures
        r is Some <==> valid_utf8(bytes@),
        r matches Some(s) ==> encode_utf8(s@) == bytes@,
{
    match std::str::from_utf8(bytes) {
        Ok(s) => Some(s),
        Err(_) => None,
    }
}

/// The text well-formed UTF-8 bytes spell, owned, or `None` when they are
/// not well-formed.
pub fn utf8_string(bytes: &[u8]) -> (r: Option<String>)
    ensures
        r is Some <==> valid_utf8(bytes@),
        r matches Some(s) ==> encode_utf8(s@) == bytes@,
{
    match str_from_utf8(bytes) {
        Some(s) => Some(s.to_owned()),
        None => None,
    }
}

/// The text of well-formed UTF-8 bytes.
pub proof fn lemma_utf8_string(bytes: Seq<u8>, s: Seq<char>)
    requires
        encode_utf8(s) == bytes,
    ensures
        s == decode_utf8(bytes),
{
    vstd::utf8::encode_utf8_decode_utf8(s);
}

/// `String::from_iter` over chars: the string holding exactly `cs`.
#[verifier::external_body]
pub(crate) fn string_from_chars(cs: &Vec<char>) -> (s: String)
    ensures
        s@ == cs@,
{
    cs.iter().collect()
}

/// The characters of a string, in order.
pub fn chars_of(s: &str) -> (v: Vec<char>)
    ensures
        v@ == s@,
{
    let mut v: Vec<char> = Vec::new();
    for c in it: s.chars()
        invariant
            v@ == it.seq().take(it.index() as int),
            it.seq() == s@,
    {
        v.push(c);
        proof {
            assert(v@ =~= it.seq().take(it.index() + 1));
        }
    }
    assert(v@ =~= s@);
    v
}

/// Unicode `White_Space`, the set `char::is_whitespace` tests.
pub open spec fn is_white_space(c: char) -> bool {
    let u = c as u32;
    ||| 9 <= u <= 13
    ||| u == 32
    ||| u == 0x85
    ||| u == 0xA0
    ||| u == 0x1680
    ||| 0x2000 <= u <= 0x200A
    ||| u == 0x2028
    ||| u == 0x2029
    ||| u == 0x202F
    ||| u == 0x205F
    ||| u == 0x3000
}

/// `true` for a Unicode whitespace character.
pub fn is_ws(c: char) -> (r: bool)
    ensures
        r == is_white_space(c),
{
    let u = c as u32;
    (9 <= u && u <= 13) || u == 32 || u == 0x85 || u == 0xA0 || u == 0x1680 || (0x2000 <= u && u
        <= 0x200A) || u == 0x2028 || u == 0x2029 || u == 0x202F || u == 0x205F || u == 0x3000
}

/// The whitespace-separated tokens of `s[i..]`, given the token `cur`
/// being read and the tokens `acc` already complete.
pub open spec fn ws_tokens_from(s: Seq<char>, i: int, cur: Seq<char>, acc: Seq<Seq<char>>) -> Seq<Seq<char>>
    decreases s.len() - i,
{
    if i < 0 || i >= s.len() {
        if cur.len() > 0 {
            acc.push(cur)
        } else {
            acc
        }
    } else if is_white_space(s[i]) {
        ws_tokens_from(s, i + 1, Seq::<char>::empty(), if cur.len() > 0 { acc.push(cur) } else { acc })
    } else {
        ws_tokens_from(s, i + 1, cur.push(s[i]), acc)
    }
}

/// The maximal runs of non-whitespace characters of `s`, in order (what
/// `str::split_whitespace` yields).
pub open spec fn ws_tokens(s: Seq<char>) -> Seq<Seq<char>> {
    ws_tokens_from(s, 0, Seq::<char>::empty(), Seq::<Seq<char>>::empty())
}

/// The views of a sequence of character vectors.
pub open spec fn views_of(v: Seq<Vec<char>>) -> Seq<Seq<char>> {
    Seq::new(v.len(), |i: int| v[i]@)
}

/// Split into whitespace-separated tokens.
pub fn split_ws(s: &Vec<char>) -> (r: Vec<Vec<char>>)
    ensures
        views_of(r@) == ws_tokens(s@),
{
    let n = s.len();
    let mut acc: Vec<Vec<char>> = Vec::new();
    let mut cur: Vec<char> = Vec::new();
    let mut i: usize = 0;
    assert(views_of(acc@) =~= Seq::<Seq<char>>::empty());
    while i < n
        invariant
            n == s@.len(),
            i <= n,
            ws_tokens(s@) == ws_tokens_from(s@, i as int, cur@, views_of(acc@)),
        decreases n - i,
    {
        let c = s[i];
        if is_ws(c) {
            if cur.len() > 0 {
                let ghost a = views_of(acc@);
                let ghost cv = cur@;
                acc.push(cur);
                assert(views_of(acc@) =~= a.push(cv));
                cur = Vec::new();
            }
            assert(cur@ =~= Seq::<char>::empty());
        } else {
            cur.push(c);
        }
        i = i + 1;
    }
    if cur.len() > 0 {
        let ghost a = views_of(acc@);
        let ghost cv = cur@;
        acc.push(cur);
        assert(views_of(acc@) =~= a.push(cv));
    }
    acc
}

/// A run of non-whitespace characters is read into the current token.
pub proof fn lemma_tokens_word(s: Seq<char>, i: int, j: int, cur: Seq<char>, acc: Seq<Seq<char>>)
    requires
        0 <= i <= j <= s.len(),
        forall|k: int| i <= k < j ==> !is_white_space(#[trigger] s[k]),
    ensures
        ws_tokens_from(s, i, cur, acc) == ws_tokens_from(s, j, cur + s.subrange(i, j), acc),
    decreases j - i,
{
    if i == j {
        assert(cur + s.subrange(i, j) =~= cur);
    } else {
        lemma_tokens_word(s, i + 1, j, cur.push(s[i]), acc);
        assert(cur.push(s[i]) + s.subrange(i + 1, j) =~= cur + s.subrange(i, j));
    }
}

/// The tokens of single-space separated words with no whitespace in them
/// are those words.
pub proof fn lemma_tokens_of_words(words: Seq<Seq<char>>)
    requires
        words.len() > 0,
        forall|w: int| 0 <= w < words.len() ==> (#[trigger] words[w]).len() > 0,
        forall|w: int, k: int| 0 <= w < words.len() && 0 <= k < words[w].len() ==> !is_white_space(#[trigger] words[w][k]),
    ensures
        ws_tokens(join_space(words)) == words,
    decreases words.len(),
{
    let s = join_space(words);
    if words.len() == 1 {
        assert(s == words[0]);
        lemma_tokens_word(s, 0, s.len() as int, Seq::<char>::empty(), Seq::<Seq<char>>::empty());
        assert(Seq::<char>::empty() + s.subrange(0, s.len() as int) =~= words[0]);
        assert(Seq::<Seq<char>>::empty().push(words[0]) =~= words);
    } else {
        let front = words.drop_last();
        assert forall|w: int| 0 <= w < front.len() implies (#[trigger] front[w]).len() > 0 by {
            assert(front[w] == words[w]);
        }
        assert forall|w: int, k: int| 0 <= w < front.len() && 0 <= k < front[w].len() implies !is_white_space(#[trigger] front[w][k]) by {
            assert(front[w] == words[w]);
        }
        lemma_tokens_of_words(front);
        let f = join_space(front);
        let last = words.last();
        let rest = seq![' '] + last;
        let t = f + rest;
        assert(s =~= t);
        lemma_tokens_prefix(f, rest, front);
        assert(t[f.len() as int] == ' ');
        assert forall|k: int| f.len() + 1 <= k < t.len() implies !is_white_space(#[trigger] t[k]) by {
            assert(t[k] == last[k - f.len() - 1]);
            assert(words[words.len() - 1] == last);
        }
        lemma_tokens_word(t, f.len() as int + 1, t.len() as int, Seq::<char>::empty(), front);
        assert(t.subrange(f.len() as int + 1, t.len() as int) =~= last);
        assert(Seq::<char>::empty() + last =~= last);
        assert(front.push(last) =~= words);
    }
}

/// Reading `f + rest` where `f`'s tokens are `toks`, and `f` ends in a word
/// while `rest` starts with a space: the tokens of `f` come first, and the
/// reader stands at `rest` with no token open.
pub proof fn lemma_tokens_prefix(f: Seq<char>, rest: Seq<char>, toks: Seq<Seq<char>>)
    requires
        ws_tokens(f) == toks,
        rest.len() > 0,
        is_white_space(rest[0]),
    ensures
        ws_tokens_from(f + rest, f.len() as int + 1, Seq::<char>::empty(), toks) == ws_tokens(f + rest),
{
    lemma_tokens_split(f, rest, 0, Seq::<char>::empty(), Seq::<Seq<char>>::empty());
}

/// Reading `f + rest` from inside `f` runs exactly like reading `f` alone
/// up to its end, then continues in `rest`.
pub proof fn lemma_tokens_split(f: Seq<char>, rest: Seq<char>, i: int, cur: Seq<char>, acc: Seq<Seq<char>>)
    requires
        0 <= i <= f.len(),
        rest.len() > 0,
        is_white_space(rest[0]),
    ensures
        ws_tokens_from(f + rest, i, cur, acc) == ws_tokens_from(
            f + rest,
            f.len() as int + 1,
            Seq::<char>::empty(),
            ws_tokens_from(f, i, cur, acc),
        ),
    decreases f.len() - i,
{
    let t = f + rest;
    if i == f.len() {
        assert(t[i] == rest[0]);
    } else {
        assert(t[i] == f[i]);
        if is_white_space(f[i]) {
            lemma_tokens_split(f, rest, i + 1, Seq::<char>::empty(), if cur.len() > 0 { acc.push(cur) } else { acc });
        } else {
            lemma_tokens_split(f, rest, i + 1, cur.push(f[i]), acc);
        }
    }
}

/// Words joined by single spaces.
pub open spec fn join_space(words: Seq<Seq<char>>) -> Seq<char>
    decreases words.len(),
{
    if words.len() == 0 {
        Seq::<char>::empty()
    } else if words.len() == 1 {
        words[0]
    } else {
        join_space(words.drop_last()) + seq![' '] + words.last()
    }
}

/// An ASCII decimal digit.
pub open spec fn is_digit(c: char) -> bool {
    48 <= c as u32 <= 57
}

/// The value of a run of decimal digits (`0` for none).
pub open spec fn digits_value(t: Seq<char>) -> nat
    decreases t.len(),
{
    if t.len() == 0 {
        0
    } else {
        digits_value(t.drop_last()) * 10 + (t.last() as u32 - 48) as nat
    }
}

/// The digits of an unsigned decimal: the text without one leading `+`.
pub open spec fn unsigned_digits(t: Seq<char>) -> Seq<char> {
    if t.len() > 0 && t[0] == '+' {
        t.drop_first()
    } else {
        t
    }
}

/// The value of an unsigned decimal as `str::parse` reads one: an optional
/// `+`, then one or more ASCII digits and nothing else.
pub open spec fn dec_value(t: Seq<char>) -> Option<nat> {
    let d = unsigned_digits(t);
    if d.len() > 0 && forall|i: int| 0 <= i < d.len() ==> is_digit(#[trigger] d[i]) {
        Some(digits_value(d))
    } else {
        None
    }
}

proof fn lemma_digits_value_grows(d: Seq<char>, i: int, j: int)
    requires
        0 <= i <= j <= d.len(),
        forall|k: int| 0 <= k < d.len() ==> is_digit(#[trigger] d[k]),
    ensures
        digits_value(d.take(i)) <= digits_value(d.take(j)),
    decreases j - i,
{
    if i < j {
        lemma_digits_value_grows(d, i, j - 1);
        assert(d.take(j).drop_last() =~= d.take(j - 1));
    }
}

/// Parse an unsigned decimal: `Some` exactly when the text is one and its
/// value fits in a `u64`.
pub fn parse_dec(t: &Vec<char>) -> (r: Option<u64>)
    ensures
        match dec_value(t@) {
            Some(v) => if v <= u64::MAX {
                r == Some(v as u64)
            } else {
                r is None
            },
            None => r is None,
        },
{
    let n = t.len();
    let start: usize = if n > 0 && t[0] == '+' { 1 } else { 0 };
    let ghost d = unsigned_digits(t@);
    assert(d =~= t@.subrange(start as int, n as int));
    if start >= n {
        return None;
    }
    let mut k: usize = start;
    while k < n
        invariant
            start <= k <= n,
            n == t@.len(),
            d =~= t@.subrange(start as int, n as int),
            d == unsigned_digits(t@),
            forall|i: int| start <= i < k ==> is_digit(#[trigger] t@[i]),
        decreases n - k,
    {
        let u = t[k] as u32;
        if u < 48 || u > 57 {
            assert(!is_digit(d[k - start]));
            assert(dec_value(t@) is None);
            return None;
        }
        k = k + 1;
    }
    assert forall|i: int| 0 <= i < d.len() implies is_digit(#[trigger] d[i]) by {
        assert(d[i] == t@[start + i]);
    }
    let mut v: u64 = 0;
    let mut k: usize = start;
    while k < n
        invariant
            start <= k <= n,
            n == t@.len(),
            d =~= t@.subrange(start as int, n as int),
            d == unsigned_digits(t@),
            forall|i: int| 0 <= i < d.len() ==> is_digit(#[trigger] d[i]),
            v == digits_value(d.take(k - start)),
        decreases n - k,
    {
        let ghost j = k - start;
        assert(d.take(j + 1).drop_last() =~= d.take(j));
        assert(d.take(j + 1).last() == t@[k as int]);
        assert(digits_value(d.take(j + 1)) == digits_value(d.take(j)) * 10 + (t@[k as int] as u32 - 48) as nat);
        let digit = (t[k] as u32 - 48) as u64;
        let next = match v.checked_mul(10) {
            Some(m) => m.checked_add(digit),
            None => None,
        };
        match next {
            Some(x) => {
                v = x;
            },
            None => {
                proof {
                    lemma_digits_value_grows(d, j + 1, d.len() as int);
                    assert(d.take(d.len() as int) =~= d);
                }
                return None;
            },
        }
        k = k + 1;
    }
    assert(d.take(d.len() as int) =~= d);
    Some(v)
}

/// The decimal digits of `n`, most significant first, with no leading
/// zeros.
pub open spec fn dec_chars(n: nat) -> Seq<char>
    decreases n,
{
    if n < 10 {
        seq![(n + 48) as char]
    } else {
        dec_chars(n / 10) + seq![((n % 10) + 48) as char]
    }
}

/// The digits of `n` read back as `n`.
pub proof fn lemma_dec_chars(n: nat)
    ensures
        dec_chars(n).len() > 0,
        forall|i: int| 0 <= i < dec_chars(n).len() ==> is_digit(#[trigger] dec_chars(n)[i]),
        is_ascii_chars(dec_chars(n)),
        dec_chars(n)[0] != '+',
        digits_value(dec_chars(n)) == n,
        dec_value(dec_chars(n)) == Some(n),
        forall|i: int| 0 <= i < dec_chars(n).len() ==> !is_white_space(#[trigger] dec_chars(n)[i]),
    decreases n,
{
    let c = dec_chars(n);
    if n < 10 {
        assert(((n + 48) as char) as u32 == n + 48);
        assert(c.drop_last() =~= Seq::<char>::empty());
        assert(c.last() == (n + 48) as char);
        assert(digits_value(c) == digits_value(c.drop_last()) * 10 + (c.last() as u32 - 48) as nat);
    } else {
        lemma_dec_chars(n / 10);
        let d = ((n % 10) + 48) as char;
        assert(d as u32 == (n % 10) + 48);
        assert(c.drop_last() =~= dec_chars(n / 10));
        assert(c.last() == d);
        assert(digits_value(c) == digits_value(c.drop_last()) * 10 + (c.last() as u32 - 48) as nat);
        assert((n / 10) * 10 + n % 10 == n);
        assert forall|i: int| 0 <= i < c.len() implies is_digit(#[trigger] c[i]) by {
            if i < c.len() - 1 {
                assert(c[i] == dec_chars(n / 10)[i]);
            }
        }
        assert(c[0] == dec_chars(n / 10)[0]);
    }
    assert(unsigned_digits(c) == c);
}

/// Append `n` in decimal to `out`, as ASCII digits.
pub fn push_decimal(out: &mut Vec<u8>, n: u64)
    ensures
        final(out)@ == old(out)@ + ascii_bytes(dec_chars(n as nat)),
    decreases n,
{
    if n >= 10 {
        push_decimal(out, n / 10);
    }
    let d = (n % 10) as u8;
    out.push(d + 48);
    proof {
        let c = dec_chars(n as nat);
        if n < 10 {
            assert(ascii_bytes(c) =~= seq![(n + 48) as u8]);
        } else {
            assert(ascii_bytes(c) =~= ascii_bytes(dec_chars((n / 10) as nat)) + seq![((n % 10) + 48) as u8]);
        }
        assert(final(out)@ =~= old(out)@ + ascii_bytes(c)) by {
            if n >= 10 {
                assert(old(out)@ + ascii_bytes(dec_chars((n / 10) as nat)) + seq![((n % 10) + 48) as u8]
                    =~= old(out)@ + (ascii_bytes(dec_chars((n / 10) as nat)) + seq![((n % 10) + 48) as u8]));
            }
        }
    }
}

/// Append `bytes` to `out`.
pub fn append_bytes(out: &mut Vec<u8>, bytes: &[u8])
    ensures
        final(out)@ == old(out)@ + bytes@,
{
    let ghost o = out@;
    let n = bytes.len();
    let mut i: usize = 0;
    while i < n
        invariant
            n == bytes@.len(),
            i <= n,
            out@ == o + bytes@.take(i as int),
        decreases n - i,
    {
        out.push(bytes[i]);
        assert(out@ =~= o + bytes@.take(i + 1));
        i = i + 1;
    }
    assert(bytes@.take(n as int) =~= bytes@);
}

/// Append the UTF-8 bytes of `s` to `out`.
pub fn append_str(out: &mut Vec<u8>, s: &str)
    ensures
        final(out)@ == old(out)@ + encode_utf8(s@),
{
    append_bytes(out, s.as_bytes());
}

/// Append the ASCII characters `cs` to `out`, one byte each.
pub fn append_ascii(out: &mut Vec<u8>, cs: &[char])
    requires
        is_ascii_chars(cs@),
    ensures
        final(out)@ == old(out)@ + ascii_bytes(cs@),
{
    let ghost o = out@;
    let n = cs.len();
    let mut i: usize = 0;
    while i < n
        invariant
            n == cs@.len(),
            i <= n,
            is_ascii_chars(cs@),
            out@ == o + ascii_bytes(cs@.take(i as int)),
        decreases n - i,
    {
        out.push(cs[i] as u8);
        assert(out@ =~= o + ascii_bytes(cs@.take(i + 1)));
        i = i + 1;
    }
    assert(cs@.take(n as int) =~= cs@);
}

/// The characters without leading and trailing whitespace (`str::trim`).
pub open spec fn trim_ws(s: Seq<char>) -> Seq<char> {
    let a = first_non_ws(s, 0);
    let b = last_non_ws_end(s, s.len() as int);
    if a >= b {
        Seq::<char>::empty()
    } else {
        s.subrange(a, b)
    }
}

/// The first position at or after `i` that is not whitespace, or `s.len()`.
pub open spec fn first_non_ws(s: Seq<char>, i: int) -> int
    decreases s.len() - i,
{
    if i < 0 || i >= s.len() {
        s.len() as int
    } else if !is_white_space(s[i]) {
        i
    } else {
        first_non_ws(s, i + 1)
    }
}

/// One past the last position before `j` that is not whitespace, or `0`.
pub open spec fn last_non_ws_end(s: Seq<char>, j: int) -> int
    decreases j,
{
    if j <= 0 || j > s.len() {
        0
    } else if !is_white_space(s[j - 1]) {
        j
    } else {
        last_non_ws_end(s, j - 1)
    }
}

/// A text with no whitespace at either end is its own trim.
pub proof fn lemma_trim_plain(s: Seq<char>)
    requires
        s.len() > 0,
        !is_white_space(s[0]),
        !is_white_space(s.last()),
    ensures
        trim_ws(s) == s,
{
    assert(s.subrange(0, s.len() as int) =~= s);
}

/// Trim the characters.
pub fn trim_chars(s: &Vec<char>) -> (r: Vec<char>)
    ensures
        r@ == trim_ws(s@),
{
    let n = s.len();
    let mut a: usize = 0;
    while a < n && is_ws(s[a])
        invariant
            n == s@.len(),
            a <= n,
            first_non_ws(s@, 0) == first_non_ws(s@, a as int),
        decreases n - a,
    {
        a = a + 1;
    }
    let mut b: usize = n;
    while b > 0 && is_ws(s[b - 1])
        invariant
            n == s@.len(),
            b <= n,
            last_non_ws_end(s@, n as int) == last_non_ws_end(s@, b as int),
        decreases b,
    {
        b = b - 1;
    }
    let mut r: Vec<char> = Vec::new();
    if a < b {
        let mut k = a;
        while k < b
            invariant
                n == s@.len(),
                a <= k <= b,
                b <= n,
                r@ == s@.subrange(a as int, k as int),
            decreases b - k,
        {
            r.push(s[k]);
            assert(r@ =~= s@.subrange(a as int, k + 1));
            k = k + 1;
        }
    }
    assert(a >= b ==> r@ =~= Seq::<char>::empty());
    r
}

/// `true` when the two character sequences are equal.
pub fn chars_eq(a: &[char], b: &[char]) -> (r: bool)
    ensures
        r == (a@ == b@),
{
    if a.len() != b.len() {
        return false;
    }
    let n = a.len();
    let mut i: usize = 0;
    while i < n
        invariant
            n == a@.len(),
            n == b@.len(),
            i <= n,
            forall|k: int| 0 <= k < i ==> a@[k] == b@[k],
        decreases n - i,
    {
        if a[i] != b[i] {
            return false;
        }
        i = i + 1;
    }
    assert(a@ =~= b@);
    true
}



/// Append `n` in decimal to `out`, as characters.
pub fn push_decimal_chars(out: &mut Vec<char>, n: u64)
    ensures
        final(out)@ == old(out)@ + dec_chars(n as nat),
    decreases n,
{
    if n >= 10 {
        push_decimal_chars(out, n / 10);
    }
    let d = (n % 10) as u32;
    let c = if d == 0 { '0' } else if d == 1 { '1' } else if d == 2 { '2' } else if d == 3 { '3' } else if d == 4 {
        '4'
    } else if d == 5 { '5' } else if d == 6 { '6' } else if d == 7 { '7' } else if d == 8 { '8' } else { '9' };
    assert(c == ((n % 10) + 48) as char);
    out.push(c);
    proof {
        if n < 10 {
            assert(dec_chars(n as nat) =~= seq![c]);
        } else {
            assert(dec_chars(n as nat) == dec_chars((n / 10) as nat) + seq![c]);
        }
        assert(final(out)@ =~= old(out)@ + dec_chars(n as nat));
    }
}

/// Append the characters of `s` to `out`.
pub fn push_str_chars(out: &mut Vec<char>, s: &str)
    ensures
        final(out)@ == old(out)@ + s@,
{
    let cs = chars_of(s);
    push_chars(out, cs.as_slice());
}

/// Append the characters `cs` to `out`.
pub fn push_chars(out: &mut Vec<char>, cs: &[char])
    ensures
        final(out)@ == old(out)@ + cs@,
{
    let ghost o = out@;
    let n = cs.len();
    let mut i: usize = 0;
    while i < n
        invariant
            n == cs@.len(),
            i <= n,
            out@ == o + cs@.take(i as int),
        decreases n - i,
    {
        out.push(cs[i]);
        i = i + 1;
        assert(out@ =~= o + cs@.take(i as int));
    }
    assert(cs@.take(n as int) =~= cs@);
}

/// Every character is an ASCII digit.
pub open spec fn all_digits(s: Seq<char>) -> bool {
    forall|i: int| 0 <= i < s.len() ==> is_digit(#[trigger] s[i])
}

/// The character with ASCII capitals lowered.
pub open spec fn ascii_lower(c: char) -> char {
    if 65 <= c as u32 <= 90 {
        (c as u32 + 32) as char
    } else {
        c
    }
}

/// `s` is the lower-case word `w` up to ASCII case.
pub open spec fn eq_ignore_case(s: Seq<char>, w: Seq<char>) -> bool {
    s.len() == w.len() && forall|i: int| 0 <= i < s.len() ==> ascii_lower(#[trigger] s[i]) == w[i]
}

/// The first position at or after `i` holding `c` or `d`, or `s.len()`.
pub open spec fn find_either(s: Seq<char>, c: char, d: char, i: int) -> int
    decreases s.len() - i,
{
    if i < 0 || i >= s.len() {
        s.len() as int
    } else if s[i] == c || s[i] == d {
        i
    } else {
        find_either(s, c, d, i + 1)
    }
}

/// The text without one leading `+` or `-`.
pub open spec fn unsigned_part(s: Seq<char>) -> Seq<char> {
    if s.len() > 0 && (s[0] == '+' || s[0] == '-') {
        s.drop_first()
    } else {
        s
    }
}

/// A decimal mantissa: digits with at most one `.`, and at least one digit.
pub open spec fn mantissa_text(m: Seq<char>) -> bool {
    let d = find_either(m, '.', '.', 0);
    if d == m.len() {
        m.len() > 0 && all_digits(m)
    } else {
        m.len() >= 2 && all_digits(m.take(d)) && all_digits(m.skip(d + 1))
    }
}

/// A decimal float without its sign: a mantissa, then optionally `e` or
/// `E`, an optional sign and one or more digits.
pub open spec fn decimal_text(b: Seq<char>) -> bool {
    let e = find_either(b, 'e', 'E', 0);
    &&& mantissa_text(b.take(e))
    &&& (e == b.len() || (unsigned_part(b.skip(e + 1)).len() > 0 && all_digits(unsigned_part(b.skip(e + 1)))))
}

/// The text `f32::from_str` accepts: an optional sign, then `inf`,
/// `infinity` or `nan` in any ASCII case, or a decimal float.
pub open spec fn float_text(s: Seq<char>) -> bool {
    let b = unsigned_part(s);
    ||| eq_ignore_case(b, seq!['i', 'n', 'f'])
    ||| eq_ignore_case(b, seq!['i', 'n', 'f', 'i', 'n', 'i', 't', 'y'])
    ||| eq_ignore_case(b, seq!['n', 'a', 'n'])
    ||| decimal_text(b)
}

fn is_ascii_digit(c: char) -> (r: bool)
    ensures
        r == is_digit(c),
{
    let u = c as u32;
    48 <= u && u <= 57
}

fn digits_only(s: &[char]) -> (r: bool)
    ensures
        r == all_digits(s@),
{
    let n = s.len();
    let mut i: usize = 0;
    while i < n
        invariant
            n == s@.len(),
            i <= n,
            forall|k: int| 0 <= k < i ==> is_digit(#[trigger] s@[k]),
        decreases n - i,
    {
        if !is_ascii_digit(s[i]) {
            return false;
        }
        i = i + 1;
    }
    true
}

fn lower_ascii(c: char) -> (r: char)
    ensures
        r == ascii_lower(c),
{
    let u = c as u32;
    if 65 <= u && u <= 90 {
        let l: u8 = (u + 32) as u8;
        let r = l as char;
        assert(r == (u + 32) as char);
        r
    } else {
        c
    }
}

fn ieq(s: &[char], w: &[char]) -> (r: bool)
    ensures
        r == eq_ignore_case(s@, w@),
{
    if s.len() != w.len() {
        return false;
    }
    let n = s.len();
    let mut i: usize = 0;
    while i < n
        invariant
            n == s@.len(),
            n == w@.len(),
            i <= n,
            forall|k: int| 0 <= k < i ==> ascii_lower(#[trigger] s@[k]) == w@[k],
        decreases n - i,
    {
        if lower_ascii(s[i]) != w[i] {
            return false;
        }
        i = i + 1;
    }
    true
}

fn find_either_at(s: &[char], c: char, d: char) -> (r: usize)
    ensures
        r as int == find_either(s@, c, d, 0),
        r <= s@.len(),
{
    let n = s.len();
    let mut i: usize = 0;
    while i < n && s[i] != c && s[i] != d
        invariant
            n == s@.len(),
            i <= n,
            find_either(s@, c, d, 0) == find_either(s@, c, d, i as int),
        decreases n - i,
    {
        i = i + 1;
    }
    i
}

fn strip_sign(s: &[char]) -> (r: &[char])
    ensures
        r@ == unsigned_part(s@),
{
    let n = s.len();
    if n > 0 && (s[0] == '+' || s[0] == '-') {
        let r = vstd::slice::slice_subrange(s, 1, n);
        assert(r@ =~= s@.drop_first());
        r
    } else {
        s
    }
}

fn is_mantissa(m: &[char]) -> (r: bool)
    ensures
        r == mantissa_text(m@),
{
    let n = m.len();
    let d = find_either_at(m, '.', '.');
    if d == n {
        n > 0 && digits_only(m)
    } else {
        let a = vstd::slice::slice_subrange(m, 0, d);
        let b = vstd::slice::slice_subrange(m, d + 1, n);
        assert(a@ =~= m@.take(d as int));
        assert(b@ =~= m@.skip(d + 1));
        n >= 2 && digits_only(a) && digits_only(b)
    }
}

/// `true` exactly when `f32::from_str` accepts the text.
pub fn is_float_text(s: &[char]) -> (r: bool)
    ensures
        r == float_text(s@),
{
    let b = strip_sign(s);
    let inf = ['i', 'n', 'f'];
    let infinity = ['i', 'n', 'f', 'i', 'n', 'i', 't', 'y'];
    let nan = ['n', 'a', 'n'];
    assert(inf@ =~= seq!['i', 'n', 'f']);
    assert(infinity@ =~= seq!['i', 'n', 'f', 'i', 'n', 'i', 't', 'y']);
    assert(nan@ =~= seq!['n', 'a', 'n']);
    if ieq(b, &inf) || ieq(b, &infinity) || ieq(b, &nan) {
        return true;
    }
    let n = b.len();
    let e = find_either_at(b, 'e', 'E');
    let m = vstd::slice::slice_subrange(b, 0, e);
    assert(m@ =~= b@.take(e as int));
    if !is_mantissa(m) {
        return false;
    }
    if e == n {
        return true;
    }
    let x = vstd::slice::slice_subrange(b, e + 1, n);
    assert(x@ =~= b@.skip(e + 1));
    let y = strip_sign(x);
    y.len() > 0 && digits_only(y)
}

} // verus!
