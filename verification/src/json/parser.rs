//! The order-preserving JSON parser: accepts `//` and `/* */` comments,
//! single-quoted strings, bare keys and trailing commas, and reports the
//! line and column of the first error.

use vstd::prelude::*;
use crate::text::{push_char, push_str, chars_of, string_from_range, to_owned_string,
    is_ws, is_digit, is_ascii_alpha, is_hex_digit, hex_value, ascii_lower, ascii_lower_exec};
use crate::json::format::sat_add;
use super::value::{Json, JSONValue, JSONProperty, view_value, view_items, view_props,
    lemma_view_items_push, lemma_view_props_push};
use super::grammar::{PErr, utf8_width, first_byte_char, line_col, min_pos,
    error_at, line_comment_end, block_comment_end, is_json_ws, skip_ws, is_ident_char,
    ident_end, digits_end, all_digits, mantissa_ok, exponent_ok, is_exp_mark, exp_mark_pos,
    lower_ascii_seq, float_syntax, scalar_of, hex4, decode_escapes, scan_string, parse_string,
    matches_at, parse_bool, parse_null, number_token, parse_number, parse_value, parse_object,
    parse_key, object_members, parse_array, array_items, parse_document, lemma_skip_ws,
    lemma_line_comment_end, lemma_block_comment_end, lemma_ident_end, lemma_digits_end,
    lemma_parse_value_progress, lemma_parse_key, lemma_scan_string, lemma_number_token};

verus! {

/// A parse failure: what went wrong, and the 1-based line and column
/// (counted in UTF-8 bytes) where it was noticed.
#[derive(Debug)]
pub struct JSONParseError {
    pub message: String,
    pub line: usize,
    pub column: usize,
}

impl View for JSONParseError {
    type V = PErr;

    open spec fn view(&self) -> PErr {
        (self.message@, self.line as nat, self.column as nat)
    }
}

impl JSONParseError {
    pub fn new(message: String, line: usize, column: usize) -> (r: Self)
        ensures
            r.message@ == message@,
            r.line == line,
            r.column == column,
    {
        Self { message, line, column }
    }

    /// `"<message> at line <line>, column <column>"`.
    pub fn describe(&self) -> (r: String)
        ensures
            r@ == self.message@ + " at line "@ + crate::text::decimal(self.line as nat)
                + ", column "@ + crate::text::decimal(self.column as nat),
    {
        let mut out = to_owned_string(self.message.as_str());
        push_str(&mut out, " at line ");
        crate::text::push_decimal(&mut out, self.line);
        push_str(&mut out, ", column ");
        crate::text::push_decimal(&mut out, self.column);
        out
    }
}

/// Whether an exec result agrees with a spec result of the grammar.
pub open spec fn agrees(r: Result<JSONValue, JSONParseError>, sp: Result<Json, PErr>) -> bool {
    match sp {
        Ok(v) => r is Ok && view_value(r->Ok_0) == v,
        Err(e) => r is Err && r->Err_0@ == e,
    }
}

pub open spec fn agrees_at(
    r: Result<JSONValue, JSONParseError>,
    sp: Result<(Json, int), PErr>,
    end: int,
) -> bool {
    match sp {
        Ok((v, e)) => r is Ok && view_value(r->Ok_0) == v && end == e,
        Err(e) => r is Err && r->Err_0@ == e,
    }
}

pub open spec fn agrees_str_at(
    r: Result<String, JSONParseError>,
    sp: Result<(Seq<char>, int), PErr>,
    end: int,
) -> bool {
    match sp {
        Ok((t, e)) => r is Ok && r->Ok_0@ == t && end == e,
        Err(e) => r is Err && r->Err_0@ == e,
    }
}

/// The character with code `v` (below 256).
fn byte_char(v: u32) -> (r: char)
    requires
        v < 256,
    ensures
        r == v as char,
{
    let b = v as u8;
    b as char
}

fn first_byte_char_exec(c: char) -> (r: char)
    ensures
        r == first_byte_char(c),
{
    let v = c as u32;
    if v < 0x80 {
        c
    } else if v < 0x800 {
        byte_char(0xC0 + v / 64)
    } else if v < 0x10000 {
        byte_char(0xE0 + v / 4096)
    } else {
        byte_char(0xF0 + v / 262144)
    }
}

fn utf8_width_exec(c: char) -> (r: usize)
    ensures
        r == utf8_width(c),
{
    let v = c as u32;
    if v < 0x80 {
        1
    } else if v < 0x800 {
        2
    } else if v < 0x10000 {
        3
    } else {
        4
    }
}

/// The character for a code point, if it is a Unicode scalar value
/// (`char::from_u32`).
#[verifier::external_body]
pub(crate) fn char_from_u32(v: u32) -> (r: Option<char>)
    ensures
        r == scalar_of(v as nat),
{
    char::from_u32(v)
}

pub(crate) fn is_hex_digit_exec(c: char) -> (r: bool)
    ensures
        r == is_hex_digit(c),
{
    ('0' <= c && c <= '9') || ('a' <= c && c <= 'f') || ('A' <= c && c <= 'F')
}

pub(crate) fn hex_value_exec(c: char) -> (r: u32)
    requires
        is_hex_digit(c),
    ensures
        r == hex_value(c),
        r < 16,
{
    if '0' <= c && c <= '9' {
        (c as u32) - ('0' as u32)
    } else if 'a' <= c && c <= 'f' {
        (c as u32) - ('a' as u32) + 10
    } else {
        (c as u32) - ('A' as u32) + 10
    }
}

/// The index just past the run of decimal digits of `v` starting at `i`.
fn digits_end_exec(v: &Vec<char>, i: usize) -> (r: usize)
    requires
        i <= v@.len(),
    ensures
        r == digits_end(v@, i as int),
{
    let mut j = i;
    while j < v.len() && ('0' <= v[j] && v[j] <= '9')
        invariant
            i <= j <= v@.len(),
            digits_end(v@, i as int) == digits_end(v@, j as int),
        decreases v@.len() - j,
    {
        j += 1;
    }
    j
}

fn all_digits_from(v: &Vec<char>, i: usize) -> (r: bool)
    requires
        i <= v@.len(),
    ensures
        r == all_digits(v@.skip(i as int)),
{
    let e = digits_end_exec(v, i);
    proof {
        lemma_digits_end(v@, i as int);
        if e < v@.len() {
            assert(!is_digit(v@.skip(i as int)[e - i]));
        } else {
            assert forall|k: int| 0 <= k < v@.skip(i as int).len() implies is_digit(
                #[trigger] v@.skip(i as int)[k],
            ) by {
                assert(v@.skip(i as int)[k] == v@[i + k]);
            }
        }
    }
    e == v.len()
}

/// A vector holding `v[from..to]`.
pub(crate) fn subvec(v: &Vec<char>, from: usize, to: usize) -> (r: Vec<char>)
    requires
        from <= to <= v@.len(),
    ensures
        r@ == v@.subrange(from as int, to as int),
{
    let mut out: Vec<char> = Vec::new();
    let mut i = from;
    while i < to
        invariant
            from <= i <= to <= v@.len(),
            out@ == v@.subrange(from as int, i as int),
        decreases to - i,
    {
        out.push(v[i]);
        i += 1;
        proof {
            assert(out@ =~= v@.subrange(from as int, i as int));
        }
    }
    out
}

fn mantissa_ok_exec(m: &Vec<char>) -> (r: bool)
    ensures
        r == mantissa_ok(m@),
{
    let a = digits_end_exec(m, 0);
    proof {
        lemma_digits_end(m@, 0);
    }
    let rest_len = m.len() - a;
    if rest_len == 0 {
        return a > 0;
    }
    if m[a] != '.' {
        proof {
            assert(m@.skip(a as int)[0] == m@[a as int]);
        }
        return false;
    }
    let tail_ok = all_digits_from(m, a + 1);
    proof {
        assert(m@.skip(a as int)[0] == m@[a as int]);
        assert(m@.skip(a as int).drop_first() =~= m@.skip(a + 1));
    }
    tail_ok && (a > 0 || rest_len > 1)
}

fn exponent_ok_exec(x: &Vec<char>) -> (r: bool)
    ensures
        r == exponent_ok(x@),
{
    let start: usize = if x.len() > 0 && (x[0] == '+' || x[0] == '-') {
        1
    } else {
        0
    };
    let d = all_digits_from(x, start);
    proof {
        if start == 1 {
            assert(x@.drop_first() =~= x@.skip(1));
        } else {
            assert(x@ =~= x@.skip(0));
        }
    }
    x.len() > start && d
}

fn lower_equals(t: &Vec<char>, word: &str) -> (r: bool)
    ensures
        r == (lower_ascii_seq(t@) == word@),
{
    let w = chars_of(word);
    if t.len() != w.len() {
        proof {
            assert(lower_ascii_seq(t@).len() != word@.len());
        }
        return false;
    }
    let mut i: usize = 0;
    while i < t.len()
        invariant
            w@ == word@,
            t@.len() == w@.len(),
            i <= t@.len(),
            forall|j: int| 0 <= j < i ==> ascii_lower(t@[j]) == w@[j],
        decreases t@.len() - i,
    {
        if ascii_lower_exec(t[i]) != w[i] {
            proof {
                assert(lower_ascii_seq(t@)[i as int] != word@[i as int]);
            }
            return false;
        }
        i += 1;
    }
    proof {
        assert(lower_ascii_seq(t@) =~= word@);
    }
    true
}

/// Whether `text` is a decimal floating-point literal (the syntax that
/// `str::parse::<f64>` accepts).
pub fn is_float_literal(text: &Vec<char>) -> (r: bool)
    ensures
        r == float_syntax(text@),
{
    let start: usize = if text.len() > 0 && (text[0] == '+' || text[0] == '-') {
        1
    } else {
        0
    };
    let t = subvec(text, start, text.len());
    proof {
        if start == 1 {
            assert(t@ =~= text@.drop_first());
        } else {
            assert(t@ =~= text@);
        }
    }
    proof {
        reveal_strlit("inf");
        reveal_strlit("infinity");
        reveal_strlit("nan");
        assert("inf"@ =~= seq!['i', 'n', 'f']);
        assert("infinity"@ =~= seq!['i', 'n', 'f', 'i', 'n', 'i', 't', 'y']);
        assert("nan"@ =~= seq!['n', 'a', 'n']);
    }
    if lower_equals(&t, "inf") || lower_equals(&t, "infinity") || lower_equals(&t, "nan") {
        return true;
    }
    let mut k: usize = 0;
    while k < t.len() && !(t[k] == 'e' || t[k] == 'E')
        invariant
            k <= t@.len(),
            exp_mark_pos(t@, 0) == exp_mark_pos(t@, k as int),
        decreases t@.len() - k,
    {
        k += 1;
    }
    if k >= t.len() {
        mantissa_ok_exec(&t)
    } else {
        let m = subvec(&t, 0, k);
        let x = subvec(&t, k + 1, t.len());
        proof {
            assert(m@ =~= t@.take(k as int));
            assert(x@ =~= t@.skip(k + 1));
        }
        mantissa_ok_exec(&m) && exponent_ok_exec(&x)
    }
}

/// The decoding of the escapes of a string body; `None` carries the
/// message of a malformed escape.
fn decode_escapes_exec(raw: &Vec<char>) -> (r: Result<String, &'static str>)
    ensures
        match decode_escapes(raw@, 0, Seq::empty()) {
            Ok(t) => r is Ok && r->Ok_0@ == t,
            Err(e) => r is Err && r->Err_0@ == e,
        },
{
    let mut result = String::new();
    let mut j: usize = 0;
    let n = raw.len();
    while j < n
        invariant
            j <= n == raw@.len(),
            decode_escapes(raw@, 0, Seq::empty()) == decode_escapes(raw@, j as int, result@),
        decreases n - j,
    {
        let c = raw[j];
        if c != '\\' {
            push_char(&mut result, c);
            j += 1;
        } else if j + 1 >= n {
            return Err("Unterminated escape sequence");
        } else {
            let nx = raw[j + 1];
            if nx == 'u' {
                if n - j < 6 || !(is_hex_digit_exec(raw[j + 2]) && is_hex_digit_exec(raw[j + 3])
                    && is_hex_digit_exec(raw[j + 4]) && is_hex_digit_exec(raw[j + 5])) {
                    return Err("Invalid unicode escape in string");
                }
                let code = hex_value_exec(raw[j + 2]) * 4096 + hex_value_exec(raw[j + 3]) * 256
                    + hex_value_exec(raw[j + 4]) * 16 + hex_value_exec(raw[j + 5]);
                proof {
                    let sub = raw@.subrange(j + 2, j + 6);
                    assert(sub[0] == raw@[j + 2]);
                    assert(sub[1] == raw@[j + 3]);
                    assert(sub[2] == raw@[j + 4]);
                    assert(sub[3] == raw@[j + 5]);
                    assert(code == hex4(sub));
                }
                let ch = match char_from_u32(code) {
                    Some(ch) => ch,
                    None => '?',
                };
                push_char(&mut result, ch);
                j += 6;
            } else {
                let ch = if nx == 'b' {
                    '\u{08}'
                } else if nx == 'f' {
                    '\u{0C}'
                } else if nx == 'n' {
                    '\n'
                } else if nx == 'r' {
                    '\r'
                } else if nx == 't' {
                    '\t'
                } else {
                    nx
                };
                push_char(&mut result, ch);
                j += 2;
            }
        }
    }
    Ok(result)
}

fn is_ident_char_exec(b: char) -> (r: bool)
    ensures
        r == is_ident_char(b),
{
    ('a' <= b && b <= 'z') || ('A' <= b && b <= 'Z') || ('0' <= b && b <= '9') || b == '_' || b
        == '$' || b == '-'
}

/// The recursive-descent JSON parser.
pub struct JSONParser {
    chars: Vec<char>,
    index: usize,
    count: usize,
}

impl JSONParser {
    pub closed spec fn wf(&self) -> bool {
        self.count == self.chars@.len() && self.index <= self.count
    }

    /// Parses a whole document: exactly one value, with only white space
    /// and comments around it.
    pub fn parse(text: &str) -> (r: Result<JSONValue, JSONParseError>)
        ensures
            agrees(r, parse_document(text@)),
            r matches Ok(v) ==> super::laws::json_wf(v@),
    {
        let chars = chars_of(text);
        let count = chars.len();
        let mut p = JSONParser { chars, index: 0, count };
        proof {
            super::laws_parsed::law_parsed_is_wf(text@);
        }
        p.parse_root()
    }

    fn parse_root(&mut self) -> (r: Result<JSONValue, JSONParseError>)
        requires
            old(self).wf(),
            old(self).index == 0,
        ensures
            agrees(r, parse_document(old(self).chars@)),
    {
        let ghost s = self.chars@;
        self.skip_whitespace();
        if self.index >= self.count {
            return Err(self.make_error(to_owned_string("Empty JSON input"), self.index));
        }
        let value = match self.parse_value() {
            Ok(v) => v,
            Err(e) => return Err(e),
        };
        self.skip_whitespace();
        if self.index < self.count {
            let ch = first_byte_char_exec(self.chars[self.index]);
            let mut msg = to_owned_string("Unexpected character after valid JSON: '");
            push_char(&mut msg, ch);
            push_str(&mut msg, "'");
            proof {
                assert(msg@ =~= "Unexpected character after valid JSON: '"@ + seq![
                    first_byte_char(s[self.index as int]),
                ] + "'"@);
            }
            return Err(self.make_error(msg, self.index));
        }
        Ok(value)
    }

    fn line_comment_end_exec(&self, j: usize) -> (r: usize)
        requires
            self.wf(),
            j <= self.count,
        ensures
            r == line_comment_end(self.chars@, j as int),
    {
        let mut k = j;
        while k < self.count && self.chars[k] != '\n'
            invariant
                self.wf(),
                j <= k <= self.count,
                line_comment_end(self.chars@, j as int) == line_comment_end(self.chars@, k as int),
            decreases self.count - k,
        {
            k += 1;
        }
        k
    }

    fn block_comment_end_exec(&self, j: usize) -> (r: usize)
        requires
            self.wf(),
            j <= self.count,
        ensures
            r == block_comment_end(self.chars@, j as int),
    {
        let mut k = j;
        while self.count - k > 1
            invariant
                self.wf(),
                j <= k <= self.count,
                block_comment_end(self.chars@, j as int) == block_comment_end(
                    self.chars@,
                    k as int,
                ),
            decreases self.count - k,
        {
            if self.chars[k] == '*' && self.chars[k + 1] == '/' {
                return k + 2;
            }
            k += 1;
        }
        k
    }

    fn skip_whitespace(&mut self)
        requires
            old(self).wf(),
        ensures
            final(self).wf(),
            final(self).chars@ == old(self).chars@,
            final(self).index == skip_ws(old(self).chars@, old(self).index as int),
    {
        let ghost s = self.chars@;
        let ghost start = self.index as int;
        while self.index < self.count
            invariant
                self.wf(),
                self.chars@ == s,
                s == old(self).chars@,
                start == old(self).index,
                skip_ws(s, start) == skip_ws(s, self.index as int),
            decreases self.count - self.index,
        {
            let b = self.chars[self.index];
            if b == ' ' || b == '\t' || b == '\n' || b == '\r' {
                self.index += 1;
            } else if b == '/' && self.index + 1 < self.count && self.chars[self.index + 1] == '/' {
                let e = self.line_comment_end_exec(self.index + 2);
                proof {
                    lemma_line_comment_end(s, self.index + 2);
                }
                self.index = e;
            } else if b == '/' && self.index + 1 < self.count && self.chars[self.index + 1] == '*' {
                let e = self.block_comment_end_exec(self.index + 2);
                proof {
                    lemma_block_comment_end(s, self.index + 2);
                }
                self.index = e;
            } else {
                return;
            }
        }
    }

    fn make_error(&self, message: String, pos: usize) -> (r: JSONParseError)
        requires
            self.wf(),
        ensures
            r@ == error_at(self.chars@, message@, pos as int),
    {
        let mut line: usize = 1;
        let mut col: usize = 1;
        let limit = if pos < self.count {
            pos
        } else {
            self.count
        };
        let mut i: usize = 0;
        while i < limit
            invariant
                self.wf(),
                limit <= self.count,
                i <= limit,
                (line as nat, col as nat) == line_col(self.chars@, i as int),
            decreases limit - i,
        {
            if self.chars[i] == '\n' {
                line = line.saturating_add(1);
                col = 1;
            } else {
                col = col.saturating_add(utf8_width_exec(self.chars[i]));
            }
            i += 1;
        }
        JSONParseError::new(message, line, col)
    }

    fn parse_value(&mut self) -> (r: Result<JSONValue, JSONParseError>)
        requires
            old(self).wf(),
        ensures
            final(self).wf(),
            final(self).chars@ == old(self).chars@,
            agrees_at(r, parse_value(old(self).chars@, old(self).index as int), final(self).index as int),
        decreases old(self).count - old(self).index, 3int,
    {
        let ghost s = self.chars@;
        let ghost i0 = self.index as int;
        proof {
            lemma_skip_ws(s, i0);
        }
        self.skip_whitespace();
        if self.index >= self.count {
            return Err(self.make_error(to_owned_string("Unexpected end of JSON input"), self.index));
        }
        let b = self.chars[self.index];
        if b == '{' {
            self.parse_object()
        } else if b == '[' {
            self.parse_array()
        } else if b == '"' || b == '\'' {
            match self.parse_raw_string() {
                Ok(t) => Ok(JSONValue::Str(t)),
                Err(e) => Err(e),
            }
        } else if b == 't' || b == 'f' {
            self.parse_bool()
        } else if b == 'n' {
            self.parse_null()
        } else if b == '-' || ('0' <= b && b <= '9') {
            self.parse_number()
        } else {
            let mut msg = to_owned_string("Unexpected character '");
            push_char(&mut msg, first_byte_char_exec(b));
            push_str(&mut msg, "' when expecting value");
            proof {
                assert(msg@ =~= "Unexpected character '"@ + seq![first_byte_char(b)]
                    + "' when expecting value"@);
            }
            Err(self.make_error(msg, self.index))
        }
    }

    fn parse_object(&mut self) -> (r: Result<JSONValue, JSONParseError>)
        requires
            old(self).wf(),
            old(self).index < old(self).count,
        ensures
            final(self).wf(),
            final(self).chars@ == old(self).chars@,
            agrees_at(r, parse_object(old(self).chars@, old(self).index as int), final(self).index as int),
        decreases old(self).count - old(self).index, 2int,
    {
        let ghost s = self.chars@;
        let open_pos = self.index;
        self.index += 1;
        proof {
            lemma_skip_ws(s, open_pos + 1);
        }
        self.skip_whitespace();
        let mut pairs: Vec<JSONProperty> = Vec::new();
        if self.index < self.count && self.chars[self.index] == '}' {
            self.index += 1;
            proof {
                assert(view_props(pairs@) =~= Seq::<(Seq<char>, Json)>::empty());
            }
            return Ok(JSONValue::Object(pairs));
        }
        proof {
            assert(view_props(pairs@) =~= Seq::<(Seq<char>, Json)>::empty());
        }
        loop
            invariant
                self.wf(),
                self.chars@ == s,
                s == old(self).chars@,
                open_pos < self.index,
                open_pos < s.len(),
                open_pos == old(self).index,
                self.count == old(self).count,
                parse_object(s, open_pos as int) == object_members(
                    s,
                    open_pos as int,
                    self.index as int,
                    view_props(pairs@),
                ),
            decreases self.count - self.index,
        {
            let ghost k = self.index as int;
            if self.index >= self.count {
                return Err(
                    self.make_error(to_owned_string("Unclosed object, expected key or '}'"), open_pos),
                );
            }
            proof {
                lemma_skip_ws(s, k);
            }
            self.skip_whitespace();
            if self.index >= self.count {
                return Err(
                    self.make_error(to_owned_string("Unclosed object, expected key or '}'"), open_pos),
                );
            }
            if self.chars[self.index] == '}' {
                self.index += 1;
                return Ok(JSONValue::Object(pairs));
            }
            let ghost k2 = self.index as int;
            proof {
                lemma_parse_key(s, k2);
            }
            let b = self.chars[self.index];
            let key: String = if b == '"' || b == '\'' {
                match self.parse_raw_string() {
                    Ok(t) => t,
                    Err(e) => return Err(e),
                }
            } else if ('a' <= b && b <= 'z') || ('A' <= b && b <= 'Z') || b == '_' || b == '$' {
                self.parse_identifier()
            } else {
                return Err(self.make_error(to_owned_string("Expected string key in object"), self.index));
            };
            let ghost k3 = self.index as int;
            proof {
                lemma_skip_ws(s, k3);
            }
            self.skip_whitespace();
            if self.index >= self.count || self.chars[self.index] != ':' {
                let mut msg = to_owned_string("Expected ':' after key '");
                push_str(&mut msg, key.as_str());
                push_str(&mut msg, "'");
                proof {
                    assert(msg@ =~= "Expected ':' after key '"@ + key@ + "'"@);
                }
                let at = if self.index < self.count {
                    self.index
                } else {
                    self.count
                };
                return Err(self.make_error(msg, at));
            }
            self.index += 1;
            let ghost k4 = self.index as int - 1;
            proof {
                lemma_parse_value_progress(s, k4 + 1);
            }
            let val = match self.parse_value() {
                Ok(v) => v,
                Err(e) => return Err(e),
            };
            let ghost k5 = self.index as int;
            let ghost acc = view_props(pairs@);
            let ghost vv = view_value(val);
            let prop = JSONProperty { key, value: val };
            proof {
                lemma_view_props_push(pairs@, prop);
            }
            pairs.push(prop);
            proof {
                lemma_skip_ws(s, k5);
            }
            self.skip_whitespace();
            if self.index < self.count && self.chars[self.index] == ',' {
                self.index += 1;
                proof {
                    lemma_skip_ws(s, self.index as int);
                }
                self.skip_whitespace();
                if self.index < self.count && self.chars[self.index] == '}' {
                    self.index += 1;
                    return Ok(JSONValue::Object(pairs));
                }
            } else if self.index < self.count && self.chars[self.index] == '}' {
                self.index += 1;
                return Ok(JSONValue::Object(pairs));
            } else {
                let at = if self.index < self.count {
                    self.index
                } else {
                    self.count
                };
                return Err(self.make_error(to_owned_string("Expected ',' or '}' in object"), at));
            }
        }
    }

    fn parse_array(&mut self) -> (r: Result<JSONValue, JSONParseError>)
        requires
            old(self).wf(),
            old(self).index < old(self).count,
        ensures
            final(self).wf(),
            final(self).chars@ == old(self).chars@,
            agrees_at(r, parse_array(old(self).chars@, old(self).index as int), final(self).index as int),
        decreases old(self).count - old(self).index, 2int,
    {
        let ghost s = self.chars@;
        let open_pos = self.index;
        self.index += 1;
        proof {
            lemma_skip_ws(s, open_pos + 1);
        }
        self.skip_whitespace();
        let mut items: Vec<JSONValue> = Vec::new();
        proof {
            assert(view_items(items@) =~= Seq::<Json>::empty());
        }
        if self.index < self.count && self.chars[self.index] == ']' {
            self.index += 1;
            return Ok(JSONValue::Array(items));
        }
        loop
            invariant
                self.wf(),
                self.chars@ == s,
                s == old(self).chars@,
                open_pos < self.index,
                open_pos < s.len(),
                open_pos == old(self).index,
                self.count == old(self).count,
                parse_array(s, open_pos as int) == array_items(
                    s,
                    open_pos as int,
                    self.index as int,
                    view_items(items@),
                ),
            decreases self.count - self.index,
        {
            let ghost k = self.index as int;
            if self.index >= self.count {
                return Err(
                    self.make_error(to_owned_string("Unterminated array: missing ']'"), open_pos),
                );
            }
            proof {
                lemma_skip_ws(s, k);
            }
            self.skip_whitespace();
            if self.index >= self.count {
                return Err(
                    self.make_error(to_owned_string("Unterminated array: missing ']'"), open_pos),
                );
            }
            if self.chars[self.index] == ']' {
                self.index += 1;
                return Ok(JSONValue::Array(items));
            }
            let ghost k2 = self.index as int;
            proof {
                lemma_parse_value_progress(s, k2);
            }
            let val = match self.parse_value() {
                Ok(v) => v,
                Err(e) => return Err(e),
            };
            let ghost k5 = self.index as int;
            proof {
                lemma_view_items_push(items@, val);
            }
            items.push(val);
            proof {
                lemma_skip_ws(s, k5);
            }
            self.skip_whitespace();
            if self.index >= self.count {
                return Err(
                    self.make_error(to_owned_string("Unterminated array: missing ']'"), open_pos),
                );
            }
            if self.chars[self.index] == ',' {
                self.index += 1;
                proof {
                    lemma_skip_ws(s, self.index as int);
                }
                self.skip_whitespace();
                if self.index < self.count && self.chars[self.index] == ']' {
                    self.index += 1;
                    return Ok(JSONValue::Array(items));
                }
            } else if self.chars[self.index] == ']' {
                self.index += 1;
                return Ok(JSONValue::Array(items));
            } else {
                return Err(self.make_error(to_owned_string("Expected ',' or ']' in array"), self.index));
            }
        }
    }

    fn parse_raw_string(&mut self) -> (r: Result<String, JSONParseError>)
        requires
            old(self).wf(),
            old(self).index < old(self).count,
        ensures
            final(self).wf(),
            final(self).chars@ == old(self).chars@,
            agrees_str_at(r, parse_string(old(self).chars@, old(self).index as int), final(self).index as int),
    {
        let ghost s = self.chars@;
        let quote = self.chars[self.index];
        self.index += 1;
        let start = self.index;
        let mut has_escape = false;
        while self.index < self.count
            invariant
                self.wf(),
                self.chars@ == s,
                s == old(self).chars@,
                1 <= start <= self.index,
                start <= s.len(),
                start == old(self).index + 1,
                quote == s[start - 1],
                parse_string(s, start - 1) == scan_string(s, quote, start as int, self.index as int, has_escape),
            decreases self.count - self.index,
        {
            let b = self.chars[self.index];
            if b == quote {
                let i = self.index;
                self.index += 1;
                if !has_escape {
                    let t = string_from_range(&self.chars, start, i);
                    return Ok(t);
                } else {
                    let raw = subvec(&self.chars, start, i);
                    match decode_escapes_exec(&raw) {
                        Ok(t) => return Ok(t),
                        Err(msg) => {
                            return Err(self.make_error(to_owned_string(msg), start - 1));
                        },
                    }
                }
            } else if b == '\\' {
                has_escape = true;
                self.index += 1;
                if self.index < self.count {
                    self.index += 1;
                }
            } else if b == '\n' || b == '\r' {
                return Err(self.make_error(to_owned_string("Unescaped newline in string literal"), self.index));
            } else {
                self.index += 1;
            }
        }
        Err(self.make_error(to_owned_string("Unterminated string"), start - 1))
    }

    fn parse_identifier(&mut self) -> (r: String)
        requires
            old(self).wf(),
        ensures
            final(self).wf(),
            final(self).chars@ == old(self).chars@,
            final(self).index == ident_end(old(self).chars@, old(self).index as int),
            r@ == old(self).chars@.subrange(old(self).index as int, final(self).index as int),
    {
        let ghost s = self.chars@;
        let start = self.index;
        while self.index < self.count && is_ident_char_exec(self.chars[self.index])
            invariant
                self.wf(),
                self.chars@ == s,
                s == old(self).chars@,
                start <= self.index,
                ident_end(s, start as int) == ident_end(s, self.index as int),
            decreases self.count - self.index,
        {
            self.index += 1;
        }
        string_from_range(&self.chars, start, self.index)
    }

    fn word_at(&self, word: &str) -> (r: bool)
        requires
            self.wf(),
        ensures
            r == matches_at(self.chars@, self.index as int, word@),
    {
        let w = chars_of(word);
        if self.count - self.index < w.len() {
            return false;
        }
        let mut i: usize = 0;
        while i < w.len()
            invariant
                self.wf(),
                w@ == word@,
                self.index + w@.len() <= self.count,
                i <= w@.len(),
                forall|j: int| 0 <= j < i ==> self.chars@[self.index + j] == w@[j],
            decreases w@.len() - i,
        {
            if self.chars[self.index + i] != w[i] {
                proof {
                    assert(self.chars@.subrange(self.index as int, self.index + w@.len())[i as int]
                        != word@[i as int]);
                }
                return false;
            }
            i += 1;
        }
        proof {
            assert(self.chars@.subrange(self.index as int, self.index + w@.len()) =~= word@);
        }
        true
    }

    fn parse_bool(&mut self) -> (r: Result<JSONValue, JSONParseError>)
        requires
            old(self).wf(),
        ensures
            final(self).wf(),
            final(self).chars@ == old(self).chars@,
            agrees_at(r, parse_bool(old(self).chars@, old(self).index as int), final(self).index as int),
    {
        proof {
            reveal_strlit("true");
            reveal_strlit("false");
            assert("true"@ =~= seq!['t', 'r', 'u', 'e']);
            assert("false"@ =~= seq!['f', 'a', 'l', 's', 'e']);
        }
        if self.word_at("true") {
            self.index += 4;
            return Ok(JSONValue::Bool(true));
        }
        if self.word_at("false") {
            self.index += 5;
            return Ok(JSONValue::Bool(false));
        }
        Err(self.make_error(to_owned_string("Invalid boolean literal"), self.index))
    }

    fn parse_null(&mut self) -> (r: Result<JSONValue, JSONParseError>)
        requires
            old(self).wf(),
        ensures
            final(self).wf(),
            final(self).chars@ == old(self).chars@,
            agrees_at(r, parse_null(old(self).chars@, old(self).index as int), final(self).index as int),
    {
        proof {
            reveal_strlit("null");
            assert("null"@ =~= seq!['n', 'u', 'l', 'l']);
        }
        if self.word_at("null") {
            self.index += 4;
            return Ok(JSONValue::Null);
        }
        Err(self.make_error(to_owned_string("Invalid null literal"), self.index))
    }

    fn parse_number(&mut self) -> (r: Result<JSONValue, JSONParseError>)
        requires
            old(self).wf(),
            old(self).index < old(self).count,
        ensures
            final(self).wf(),
            final(self).chars@ == old(self).chars@,
            agrees_at(r, parse_number(old(self).chars@, old(self).index as int), final(self).index as int),
    {
        let ghost s = self.chars@;
        let start = self.index;
        if self.index < self.count && self.chars[self.index] == '-' {
            self.index += 1;
        }
        let i0 = self.index;
        let i1 = digits_end_exec(&self.chars, i0);
        proof {
            lemma_digits_end(s, i0 as int);
        }
        let mut has_digits = i1 > i0;
        self.index = i1;
        if self.index < self.count && self.chars[self.index] == '.' {
            let i2 = digits_end_exec(&self.chars, self.index + 1);
            proof {
                lemma_digits_end(s, self.index + 1);
            }
            if i2 > self.index + 1 {
                has_digits = true;
            }
            self.index = i2;
        }
        if self.index < self.count && (self.chars[self.index] == 'e' || self.chars[self.index] == 'E') {
            self.index += 1;
            if self.index < self.count && (self.chars[self.index] == '+' || self.chars[self.index] == '-') {
                self.index += 1;
            }
            let i4 = digits_end_exec(&self.chars, self.index);
            self.index = i4;
        }
        proof {
            lemma_number_token(s, start as int);
        }
        if !has_digits {
            return Err(self.make_error(to_owned_string("Invalid number"), start));
        }
        let raw = subvec(&self.chars, start, self.index);
        if is_float_literal(&raw) {
            Ok(JSONValue::Number(crate::text::string_from_chars(&raw)))
        } else {
            let mut msg = to_owned_string("Failed to parse number '");
            let rs = crate::text::string_from_chars(&raw);
            push_str(&mut msg, rs.as_str());
            push_str(&mut msg, "'");
            proof {
                assert(msg@ =~= "Failed to parse number '"@ + raw@ + "'"@);
            }
            Err(self.make_error(msg, start))
        }
    }
}

} // verus!
