//! Turning an escaped ("stringified") JSON payload back into JSON text.

use vstd::prelude::*;
use crate::text::{push_char, push_str, chars_of, string_from_chars, string_from_range,
    trim_seq, trim_bounds, is_hex_digit, hex_value};
use super::value::Json;
use super::format::format_json;
use super::grammar::{parse_document, scalar_of, hex4};
use super::parser::{JSONParser, agrees, char_from_u32};

verus! {

/// The number of leading hexadecimal digits of `t` from `i`, at most `max`.
pub open spec fn hex_run(t: Seq<char>, i: int, max: nat) -> nat
    decreases max,
{
    if max == 0 || i < 0 || i >= t.len() || !is_hex_digit(t[i]) {
        0
    } else {
        1 + hex_run(t, i + 1, (max - 1) as nat)
    }
}

/// The character a simple escape `\\n` stands for.
pub open spec fn simple_unescape(n: char) -> char {
    if n == 'b' {
        '\u{08}'
    } else if n == 'f' {
        '\u{0C}'
    } else if n == 'n' {
        '\n'
    } else if n == 'r' {
        '\r'
    } else if n == 't' {
        '\t'
    } else {
        n
    }
}

/// What a `\u` escape with the hexadecimal digits `hex` stands for: the
/// character if four digits name one, else the escape kept as written.
pub open spec fn unicode_unescape(hex: Seq<char>) -> Seq<char> {
    if hex.len() == 4 {
        match scalar_of(hex4(hex)) {
            Some(c) => seq![c],
            None => seq!['\\', 'u'] + hex,
        }
    } else {
        seq!['\\', 'u'] + hex
    }
}

/// Decoding the backslash escapes of `t` from `j` on, after `acc`.
/// A `\u` reads up to four hexadecimal digits; the first other character
/// after it ends the escape and is dropped.
pub open spec fn unescape_chars(t: Seq<char>, j: int, acc: Seq<char>) -> Seq<char>
    decreases t.len() - j,
{
    if j < 0 || j >= t.len() {
        acc
    } else if t[j] != '\\' {
        unescape_chars(t, j + 1, acc.push(t[j]))
    } else if j + 1 >= t.len() {
        acc.push('\\')
    } else if t[j + 1] == 'u' {
        let h = hex_run(t, j + 2, 4);
        proof {
            lemma_hex_run(t, j + 2, 4);
        }
        let hex = t.subrange(j + 2, j + 2 + h);
        let consumed = if h < 4 && j + 2 + h < t.len() {
            h + 1
        } else {
            h
        };
        unescape_chars(t, j + 2 + consumed, acc + unicode_unescape(hex))
    } else {
        unescape_chars(t, j + 2, acc.push(simple_unescape(t[j + 1])))
    }
}

/// The payload: trimmed, and without one pair of enclosing quotes.
pub open spec fn stringified_body(text: Seq<char>) -> Seq<char> {
    let s = trim_seq(text);
    if s.len() >= 2 && ((s[0] == '"' && s.last() == '"') || (s[0] == '\'' && s.last() == '\'')) {
        s.subrange(1, s.len() - 1)
    } else {
        s
    }
}

/// The result of unescaping a stringified payload: the decoded text,
/// pretty printed with two spaces when it is JSON.
pub open spec fn unescaped(text: Seq<char>) -> Seq<char> {
    let s = trim_seq(text);
    if s.len() == 0 {
        s
    } else {
        let r = unescape_chars(stringified_body(text), 0, Seq::empty());
        match parse_document(r) {
            Ok(v) => format_json(v, 0, 2, false, false),
            Err(_) => r,
        }
    }
}

pub proof fn lemma_hex_run(t: Seq<char>, i: int, max: nat)
    requires
        0 <= i <= t.len(),
    ensures
        hex_run(t, i, max) <= max,
        i + hex_run(t, i, max) <= t.len(),
        forall|k: int| i <= k < i + hex_run(t, i, max) ==> is_hex_digit(#[trigger] t[k]),
        hex_run(t, i, max) < max && i + hex_run(t, i, max) < t.len() ==> !is_hex_digit(
            t[i + hex_run(t, i, max)],
        ),
    decreases max,
{
    if max > 0 && i < t.len() && is_hex_digit(t[i]) {
        lemma_hex_run(t, i + 1, (max - 1) as nat);
    }
}

fn is_hex_digit_char(c: char) -> (r: bool)
    ensures
        r == is_hex_digit(c),
{
    ('0' <= c && c <= '9') || ('a' <= c && c <= 'f') || ('A' <= c && c <= 'F')
}

fn hex_digit_value(c: char) -> (r: u32)
    requires
        is_hex_digit(c),
    ensures
        r == hex_value(c),
        r < 16,
{
    if '0' <= c && c <= '9' {
        (c as u32) - ('0' as u32)
    } else if 'a' <= c && c <= 'f' {
        (c as u32) - ('a' as u32) + 10
    } else {
        (c as u32) - ('A' as u32) + 10
    }
}

fn push_unicode_unescape(out: &mut String, t: &Vec<char>, from: usize, h: usize)
    requires
        from + h <= t.len(),
        h <= 4,
        forall|k: int| from <= k < from + h ==> is_hex_digit(#[trigger] t@[k]),
    ensures
        final(out)@ == old(out)@ + unicode_unescape(t@.subrange(from as int, from + h)),
{
    let ghost hex = t@.subrange(from as int, from + h);
    assert(t@.len() == t.len());
    if h == 4 {
        let code = hex_digit_value(t[from]) * 4096 + hex_digit_value(t[from + 1]) * 256
            + hex_digit_value(t[from + 2]) * 16 + hex_digit_value(t[from + 3]);
        proof {
            assert(hex[0] == t@[from as int]);
            assert(hex[1] == t@[from + 1]);
            assert(hex[2] == t@[from + 2]);
            assert(hex[3] == t@[from + 3]);
            assert(code == hex4(hex));
        }
        match char_from_u32(code) {
            Some(c) => {
                push_char(out, c);
                proof {
                    assert(final(out)@ =~= old(out)@ + unicode_unescape(hex));
                }
                return;
            },
            None => {},
        }
    }
    push_char(out, '\\');
    push_char(out, 'u');
    let piece = string_from_range(t, from, from + h);
    push_str(out, piece.as_str());
    proof {
        assert(final(out)@ =~= old(out)@ + unicode_unescape(hex));
    }
}

/// Converts an escaped / stringified JSON payload back to JSON text: the
/// payload is trimmed, one pair of enclosing quotes is dropped, backslash
/// escapes are decoded, and the result is pretty printed with two spaces
/// when it parses as JSON (else returned as decoded).
pub fn unescape_stringified_json(text: &str) -> (r: String)
    ensures
        r@ == unescaped(text@),
{
    let all = chars_of(text);
    let (a0, b0) = trim_bounds(&all);
    if a0 == b0 {
        proof {
            assert(trim_seq(text@).len() == 0);
        }
        return String::new();
    }
    let mut a = a0;
    let mut b = b0;
    if b - a >= 2 && ((all[a] == '"' && all[b - 1] == '"') || (all[a] == '\'' && all[b - 1] == '\'')) {
        a = a + 1;
        b = b - 1;
    }
    proof {
        let s = trim_seq(text@);
        assert(s == all@.subrange(a0 as int, b0 as int));
        assert(stringified_body(text@) =~= all@.subrange(a as int, b as int));
    }
    let t = crate::json::parser::subvec(&all, a, b);
    let mut result = String::new();
    let n = t.len();
    let mut j: usize = 0;
    while j < n
        invariant
            j <= n == t@.len(),
            t@ == stringified_body(text@),
            unescape_chars(t@, 0, Seq::empty()) == unescape_chars(t@, j as int, result@),
        decreases n - j,
    {
        let c = t[j];
        if c != '\\' {
            push_char(&mut result, c);
            j += 1;
        } else if j + 1 >= n {
            push_char(&mut result, '\\');
            j = n;
            proof {
                assert(unescape_chars(t@, j as int, result@) == result@);
            }
        } else if t[j + 1] == 'u' {
            let from = j + 2;
            let mut h: usize = 0;
            proof {
                lemma_hex_run(t@, from as int, 4);
            }
            while h < 4 && from + h < n && is_hex_digit_char(t[from + h])
                invariant
                    from <= n == t@.len(),
                    h <= 4,
                    from + h <= n,
                    hex_run(t@, from as int, 4) == h + hex_run(t@, from + h, (4 - h) as nat),
                decreases 4 - h,
            {
                h += 1;
            }
            proof {
                lemma_hex_run(t@, from as int, 4);
            }
            push_unicode_unescape(&mut result, &t, from, h);
            let consumed = if h < 4 && from + h < n {
                h + 1
            } else {
                h
            };
            j = from + consumed;
        } else {
            let nx = t[j + 1];
            let mapped = if nx == 'b' {
                '\u{08}'
            } else if nx == 'f' {
                '\u{0C}'
            } else if nx == 'n' {
                '\n'
            } else if nx == 'r' {
                '\r'
            } else if nx == 't' {
                '\t'
            } else {
                nx
            };
            push_char(&mut result, mapped);
            j += 2;
        }
    }
    match JSONParser::parse(result.as_str()) {
        Ok(parsed) => parsed.format(2, false, false),
        Err(_) => result,
    }
}

} // verus!

verus! {

/// Unescaping one escaped character gives the character back.
proof fn lemma_unescape_chunk(e: Seq<char>, j: int, acc: Seq<char>, c: char, esc: bool)
    requires
        0 <= j,
        j + super::format::escape_char(c, esc).len() <= e.len(),
        forall|m: int|
            0 <= m < super::format::escape_char(c, esc).len() ==> e[j + m]
                == super::format::escape_char(c, esc)[m],
    ensures
        unescape_chars(e, j, acc) == unescape_chars(
            e,
            j + super::format::escape_char(c, esc).len(),
            acc.push(c),
        ),
{
    let chunk = super::format::escape_char(c, esc);
    assert(e[j] == chunk[0]);
    if chunk.len() == 6 {
        assert(e[j + 1] == chunk[1]);
        assert(e[j + 2] == chunk[2]);
        assert(e[j + 3] == chunk[3]);
        assert(e[j + 4] == chunk[4]);
        assert(e[j + 5] == chunk[5]);
        let v = c as u32;
        assert(hex_value(crate::text::hex_char((v / 16) as nat)) == v / 16);
        assert(hex_value(crate::text::hex_char((v % 16) as nat)) == v % 16);
        assert(hex_run(e, j + 6, 0) == 0);
        assert(hex_run(e, j + 5, 1) == 1);
        assert(hex_run(e, j + 4, 2) == 2);
        assert(hex_run(e, j + 3, 3) == 3);
        assert(hex_run(e, j + 2, 4) == 4);
        let hex = e.subrange(j + 2, j + 6);
        assert(hex[0] == chunk[2]);
        assert(hex[1] == chunk[3]);
        assert(hex[2] == chunk[4]);
        assert(hex[3] == chunk[5]);
        assert(hex4(hex) == v);
        vstd::utf8::char_u32_cast(c, v);
        assert(unicode_unescape(hex) == seq![c]);
        assert(acc + seq![c] =~= acc.push(c));
    } else if chunk.len() == 2 {
        assert(e[j + 1] == chunk[1]);
    }
}

proof fn lemma_unescape_escaped(t: Seq<char>, esc: bool, k: int)
    requires
        0 <= k <= t.len(),
    ensures
        unescape_chars(
            super::format::escape_chars(t, esc),
            super::format::escape_chars(t.take(k), esc).len() as int,
            t.take(k),
        ) == t,
    decreases t.len() - k,
{
    let e = super::format::escape_chars(t, esc);
    let j = super::format::escape_chars(t.take(k), esc).len() as int;
    if k == t.len() {
        assert(t.take(k) =~= t);
    } else {
        let c = t[k];
        let chunk = super::format::escape_char(c, esc);
        super::laws::lemma_escape_chars_around(t, k, esc);
        super::laws::lemma_escape_chars_take(t, k, esc);
        assert(t.take(k).push(c) =~= t.take(k + 1));
        assert forall|m: int| 0 <= m < chunk.len() implies e[j + m] == chunk[m] by {
            assert(e == super::format::escape_chars(t.take(k), esc) + chunk
                + super::format::escape_chars(t.skip(k + 1), esc));
            assert((super::format::escape_chars(t.take(k), esc) + chunk)[j + m] == chunk[m]);
        }
        lemma_unescape_chunk(e, j, t.take(k), c, esc);
        lemma_unescape_escaped(t, esc, k + 1);
    }
}

/// Unescaping what stringify produced gives the value pretty printed with
/// two spaces.
pub proof fn law_stringify_then_unescape(v: Json, esc: bool)
    requires
        super::laws::json_wf(v),
    ensures
        unescaped(super::format::quoted(super::format::minify_json(v, false), esc))
            == format_json(v, 0, 2, false, false),
{
    let m = super::format::minify_json(v, false);
    let q = super::format::quoted(m, esc);
    let e = super::format::escape_chars(m, esc);
    assert(q[0] == '"');
    assert(q[q.len() - 1] == '"');
    assert(crate::text::first_non_ws(q, 0) == 0);
    assert(crate::text::last_non_ws_end(q, q.len() as int) == q.len());
    assert(trim_seq(q) =~= q);
    assert(q.subrange(1, q.len() - 1) =~= e);
    lemma_unescape_escaped(m, esc, 0);
    assert(m.take(0) =~= Seq::<char>::empty());
    assert(super::format::escape_chars(Seq::<char>::empty(), esc).len() == 0);
    super::laws::law_minify_then_parse(v, false);
}

} // verus!
