//! The JSON grammar this library accepts (comments, single quotes,
//! unquoted keys and trailing commas included), written as a
//! recursive-descent recognizer over characters, with the exact error
//! each malformed input is reported with.

use vstd::prelude::*;
use crate::text::{is_ws, is_digit, is_ascii_alpha, is_hex_digit, hex_value};
use crate::json::format::sat_add;
use super::value::Json;

verus! {

/// A parse error: message, line and column (both 1-based).
pub type PErr = (Seq<char>, nat, nat);

/// Bytes in the UTF-8 encoding of `c`.
pub open spec fn utf8_width(c: char) -> nat {
    let v = c as u32;
    if v < 0x80 {
        1
    } else if v < 0x800 {
        2
    } else if v < 0x10000 {
        3
    } else {
        4
    }
}

/// The character whose code is the first byte of the UTF-8 encoding of `c`.
pub open spec fn first_byte_char(c: char) -> char {
    let v = c as u32;
    if v < 0x80 {
        c
    } else if v < 0x800 {
        ((0xC0 + v / 64) as u32) as char
    } else if v < 0x10000 {
        ((0xE0 + v / 4096) as u32) as char
    } else {
        ((0xF0 + v / 262144) as u32) as char
    }
}

/// Line and column just after the first `n` characters; a column counts
/// UTF-8 bytes.
pub open spec fn line_col(s: Seq<char>, n: int) -> (nat, nat)
    decreases n,
{
    if n <= 0 || n > s.len() {
        (1, 1)
    } else {
        let lc = line_col(s, n - 1);
        if s[n - 1] == '\n' {
            (sat_add(lc.0, 1), 1)
        } else {
            (lc.0, sat_add(lc.1, utf8_width(s[n - 1])))
        }
    }
}

pub open spec fn min_pos(a: int, b: int) -> int {
    if a < b {
        a
    } else {
        b
    }
}

/// The error `msg` reported at character position `pos`.
pub open spec fn error_at(s: Seq<char>, msg: Seq<char>, pos: int) -> PErr {
    let lc = line_col(s, min_pos(pos, s.len() as int));
    (msg, lc.0, lc.1)
}

/// The end of a `//` comment body: the next newline or the end.
pub open spec fn line_comment_end(s: Seq<char>, j: int) -> int
    decreases s.len() - j,
{
    if j < 0 || j >= s.len() || s[j] == '\n' {
        j
    } else {
        line_comment_end(s, j + 1)
    }
}

/// The position after a `/* ... */` comment body started at `j`; an
/// unclosed comment stops at the last character.
pub open spec fn block_comment_end(s: Seq<char>, j: int) -> int
    decreases s.len() - j,
{
    if j < 0 || j + 1 >= s.len() {
        j
    } else if s[j] == '*' && s[j + 1] == '/' {
        j + 2
    } else {
        block_comment_end(s, j + 1)
    }
}

/// JSON white space: space, tab, newline, carriage return.
pub open spec fn is_json_ws(c: char) -> bool {
    c == ' ' || c == '\t' || c == '\n' || c == '\r'
}

/// The first position at or after `i` that is not white space or a comment.
pub open spec fn skip_ws(s: Seq<char>, i: int) -> int
    decreases s.len() - i,
{
    if i < 0 || i >= s.len() {
        i
    } else if is_json_ws(s[i]) {
        skip_ws(s, i + 1)
    } else if s[i] == '/' && i + 1 < s.len() && s[i + 1] == '/' {
        let e = line_comment_end(s, i + 2);
        proof {
            lemma_line_comment_end(s, i + 2);
        }
        if e > i {
            skip_ws(s, e)
        } else {
            i
        }
    } else if s[i] == '/' && i + 1 < s.len() && s[i + 1] == '*' {
        let e = block_comment_end(s, i + 2);
        proof {
            lemma_block_comment_end(s, i + 2);
        }
        if e > i {
            skip_ws(s, e)
        } else {
            i
        }
    } else {
        i
    }
}

pub proof fn lemma_line_comment_end(s: Seq<char>, j: int)
    requires
        0 <= j <= s.len(),
    ensures
        j <= line_comment_end(s, j) <= s.len(),
    decreases s.len() - j,
{
    if j < s.len() && s[j] != '\n' {
        lemma_line_comment_end(s, j + 1);
    }
}

pub proof fn lemma_block_comment_end(s: Seq<char>, j: int)
    requires
        0 <= j <= s.len(),
    ensures
        j <= block_comment_end(s, j) <= s.len(),
    decreases s.len() - j,
{
    if j + 1 < s.len() && !(s[j] == '*' && s[j + 1] == '/') {
        lemma_block_comment_end(s, j + 1);
    }
}

pub proof fn lemma_skip_ws(s: Seq<char>, i: int)
    requires
        0 <= i <= s.len(),
    ensures
        i <= skip_ws(s, i) <= s.len(),
    decreases s.len() - i,
{
    if i < s.len() {
        if is_json_ws(s[i]) {
            lemma_skip_ws(s, i + 1);
        } else if s[i] == '/' && i + 1 < s.len() && s[i + 1] == '/' {
            lemma_line_comment_end(s, i + 2);
            lemma_skip_ws(s, line_comment_end(s, i + 2));
        } else if s[i] == '/' && i + 1 < s.len() && s[i + 1] == '*' {
            lemma_block_comment_end(s, i + 2);
            lemma_skip_ws(s, block_comment_end(s, i + 2));
        }
    }
}

/// Characters that may continue an unquoted key.
pub open spec fn is_ident_char(c: char) -> bool {
    is_ascii_alpha(c) || is_digit(c) || c == '_' || c == '$' || c == '-'
}

/// The end of the unquoted key starting at `i`.
pub open spec fn ident_end(s: Seq<char>, i: int) -> int
    decreases s.len() - i,
{
    if i < 0 || i >= s.len() || !is_ident_char(s[i]) {
        i
    } else {
        ident_end(s, i + 1)
    }
}

/// The end of the run of decimal digits starting at `i`.
pub open spec fn digits_end(s: Seq<char>, i: int) -> int
    decreases s.len() - i,
{
    if i < 0 || i >= s.len() || !is_digit(s[i]) {
        i
    } else {
        digits_end(s, i + 1)
    }
}

pub proof fn lemma_ident_end(s: Seq<char>, i: int)
    requires
        0 <= i <= s.len(),
    ensures
        i <= ident_end(s, i) <= s.len(),
        forall|k: int| i <= k < ident_end(s, i) ==> is_ident_char(#[trigger] s[k]),
        ident_end(s, i) < s.len() ==> !is_ident_char(s[ident_end(s, i)]),
    decreases s.len() - i,
{
    if i < s.len() && is_ident_char(s[i]) {
        lemma_ident_end(s, i + 1);
    }
}

pub proof fn lemma_digits_end(s: Seq<char>, i: int)
    requires
        0 <= i <= s.len(),
    ensures
        i <= digits_end(s, i) <= s.len(),
        forall|k: int| i <= k < digits_end(s, i) ==> is_digit(#[trigger] s[k]),
        digits_end(s, i) < s.len() ==> !is_digit(s[digits_end(s, i)]),
    decreases s.len() - i,
{
    if i < s.len() && is_digit(s[i]) {
        lemma_digits_end(s, i + 1);
    }
}

// ---------------------------------------------------------------------
// Floating-point literal syntax (what `str::parse::<f64>` accepts)

pub open spec fn all_digits(t: Seq<char>) -> bool {
    forall|i: int| 0 <= i < t.len() ==> is_digit(#[trigger] t[i])
}

/// `D* ('.' D*)?` with at least one digit.
pub open spec fn mantissa_ok(m: Seq<char>) -> bool {
    let a = digits_end(m, 0);
    let rest = m.skip(a);
    ||| (rest.len() == 0 && a > 0)
    ||| (rest.len() > 0 && rest[0] == '.' && all_digits(rest.drop_first()) && (a > 0 || rest.len()
        > 1))
}

/// An optional sign followed by one or more digits.
pub open spec fn exponent_ok(x: Seq<char>) -> bool {
    let y = if x.len() > 0 && (x[0] == '+' || x[0] == '-') {
        x.drop_first()
    } else {
        x
    };
    y.len() > 0 && all_digits(y)
}

pub open spec fn is_exp_mark(c: char) -> bool {
    c == 'e' || c == 'E'
}

/// The position of the first exponent mark, or the length.
pub open spec fn exp_mark_pos(t: Seq<char>, i: int) -> int
    decreases t.len() - i,
{
    if i < 0 || i >= t.len() || is_exp_mark(t[i]) {
        i
    } else {
        exp_mark_pos(t, i + 1)
    }
}

pub open spec fn lower_ascii_seq(t: Seq<char>) -> Seq<char> {
    Seq::new(t.len(), |i: int| crate::text::ascii_lower(t[i]))
}

/// Decimal floating-point syntax: an optional sign, then `inf`,
/// `infinity` or `nan` in any case, or a decimal number with an optional
/// exponent.
pub open spec fn float_syntax(s: Seq<char>) -> bool {
    let t = if s.len() > 0 && (s[0] == '+' || s[0] == '-') {
        s.drop_first()
    } else {
        s
    };
    let low = lower_ascii_seq(t);
    let k = exp_mark_pos(t, 0);
    ||| low == seq!['i', 'n', 'f']
    ||| low == seq!['i', 'n', 'f', 'i', 'n', 'i', 't', 'y']
    ||| low == seq!['n', 'a', 'n']
    ||| (k >= t.len() && mantissa_ok(t))
    ||| (k < t.len() && mantissa_ok(t.take(k)) && exponent_ok(t.skip(k + 1)))
}

// ---------------------------------------------------------------------
// Strings

/// The character a code point stands for, if it is a Unicode scalar value.
pub open spec fn scalar_of(v: nat) -> Option<char> {
    if v <= 0x10FFFF && !(0xD800 <= v && v <= 0xDFFF) {
        Some((v as u32) as char)
    } else {
        None
    }
}

pub open spec fn hex4(t: Seq<char>) -> nat {
    hex_value(t[0]) * 4096 + hex_value(t[1]) * 256 + hex_value(t[2]) * 16 + hex_value(t[3])
}

/// The decoding of the escapes of a quoted string's body, from `j` on,
/// appended to `acc`; a malformed escape gives its message.
pub open spec fn decode_escapes(raw: Seq<char>, j: int, acc: Seq<char>) -> Result<
    Seq<char>,
    Seq<char>,
>
    decreases raw.len() - j,
{
    if j < 0 || j >= raw.len() {
        Ok(acc)
    } else if raw[j] != '\\' {
        decode_escapes(raw, j + 1, acc.push(raw[j]))
    } else if j + 1 >= raw.len() {
        Err("Unterminated escape sequence"@)
    } else {
        let n = raw[j + 1];
        if n == 'u' {
            if j + 6 > raw.len() || !(is_hex_digit(raw[j + 2]) && is_hex_digit(raw[j + 3])
                && is_hex_digit(raw[j + 4]) && is_hex_digit(raw[j + 5])) {
                Err("Invalid unicode escape in string"@)
            } else {
                let c = match scalar_of(hex4(raw.subrange(j + 2, j + 6))) {
                    Some(c) => c,
                    None => '?',
                };
                decode_escapes(raw, j + 6, acc.push(c))
            }
        } else {
            let c = if n == 'b' {
                '\u{08}'
            } else if n == 'f' {
                '\u{0C}'
            } else if n == 'n' {
                '\n'
            } else if n == 'r' {
                '\r'
            } else if n == 't' {
                '\t'
            } else {
                n
            };
            decode_escapes(raw, j + 2, acc.push(c))
        }
    }
}

/// Scans a quoted string whose body starts at `start`, at position `i`.
pub open spec fn scan_string(s: Seq<char>, quote: char, start: int, i: int, has_escape: bool) -> Result<
    (Seq<char>, int),
    PErr,
>
    decreases s.len() - i,
{
    if i < start || i >= s.len() {
        Err(error_at(s, "Unterminated string"@, start - 1))
    } else if s[i] == quote {
        let raw = s.subrange(start, i);
        if !has_escape {
            Ok((raw, i + 1))
        } else {
            match decode_escapes(raw, 0, Seq::empty()) {
                Ok(t) => Ok((t, i + 1)),
                Err(msg) => Err(error_at(s, msg, start - 1)),
            }
        }
    } else if s[i] == '\\' {
        scan_string(s, quote, start, if i + 1 < s.len() { i + 2 } else { i + 1 }, true)
    } else if s[i] == '\n' || s[i] == '\r' {
        Err(error_at(s, "Unescaped newline in string literal"@, i))
    } else {
        scan_string(s, quote, start, i + 1, has_escape)
    }
}

/// A quoted string whose opening quote is at `q`.
pub open spec fn parse_string(s: Seq<char>, q: int) -> Result<(Seq<char>, int), PErr> {
    scan_string(s, s[q], q + 1, q + 1, false)
}

pub proof fn lemma_scan_string(s: Seq<char>, quote: char, start: int, i: int, has_escape: bool)
    requires
        1 <= start <= i,
    ensures
        scan_string(s, quote, start, i, has_escape) matches Ok((t, e)) ==> i < e <= s.len(),
    decreases s.len() - i,
{
    if i < s.len() && s[i] != quote {
        if s[i] == '\\' {
            lemma_scan_string(s, quote, start, if i + 1 < s.len() { i + 2 } else { i + 1 }, true);
        } else if !(s[i] == '\n' || s[i] == '\r') {
            lemma_scan_string(s, quote, start, i + 1, has_escape);
        }
    }
}

// ---------------------------------------------------------------------
// Literals and numbers

pub open spec fn matches_at(s: Seq<char>, i: int, word: Seq<char>) -> bool {
    0 <= i && i + word.len() <= s.len() && s.subrange(i, i + word.len() as int) == word
}

pub open spec fn parse_bool(s: Seq<char>, j: int) -> Result<(Json, int), PErr> {
    if matches_at(s, j, seq!['t', 'r', 'u', 'e']) {
        Ok((Json::Bool(true), j + 4))
    } else if matches_at(s, j, seq!['f', 'a', 'l', 's', 'e']) {
        Ok((Json::Bool(false), j + 5))
    } else {
        Err(error_at(s, "Invalid boolean literal"@, j))
    }
}

pub open spec fn parse_null(s: Seq<char>, j: int) -> Result<(Json, int), PErr> {
    if matches_at(s, j, seq!['n', 'u', 'l', 'l']) {
        Ok((Json::Null, j + 4))
    } else {
        Err(error_at(s, "Invalid null literal"@, j))
    }
}

/// The end of the number token starting at `j`, and whether its mantissa
/// holds a digit.
pub open spec fn number_token(s: Seq<char>, j: int) -> (int, bool) {
    let i0 = if j < s.len() && s[j] == '-' {
        j + 1
    } else {
        j
    };
    let i1 = digits_end(s, i0);
    let (i2, frac_digits) = if i1 < s.len() && s[i1] == '.' {
        (digits_end(s, i1 + 1), digits_end(s, i1 + 1) > i1 + 1)
    } else {
        (i1, false)
    };
    let i4 = if i2 < s.len() && is_exp_mark(s[i2]) {
        let i3 = if i2 + 1 < s.len() && (s[i2 + 1] == '+' || s[i2 + 1] == '-') {
            i2 + 2
        } else {
            i2 + 1
        };
        digits_end(s, i3)
    } else {
        i2
    };
    (i4, i1 > i0 || frac_digits)
}

pub open spec fn parse_number(s: Seq<char>, j: int) -> Result<(Json, int), PErr> {
    let (e, has_digits) = number_token(s, j);
    let raw = s.subrange(j, e);
    if !has_digits {
        Err(error_at(s, "Invalid number"@, j))
    } else if float_syntax(raw) {
        Ok((Json::Number(raw), e))
    } else {
        Err(error_at(s, "Failed to parse number '"@ + raw + "'"@, j))
    }
}

pub proof fn lemma_number_token(s: Seq<char>, j: int)
    requires
        0 <= j < s.len(),
    ensures
        j <= number_token(s, j).0 <= s.len(),
        number_token(s, j).1 ==> j < number_token(s, j).0,
{
    let i0 = if j < s.len() && s[j] == '-' {
        j + 1
    } else {
        j
    };
    lemma_digits_end(s, i0);
    let i1 = digits_end(s, i0);
    if i1 < s.len() && s[i1] == '.' {
        lemma_digits_end(s, i1 + 1);
    }
    let i2 = if i1 < s.len() && s[i1] == '.' {
        digits_end(s, i1 + 1)
    } else {
        i1
    };
    if i2 < s.len() && is_exp_mark(s[i2]) {
        let i3 = if i2 + 1 < s.len() && (s[i2 + 1] == '+' || s[i2 + 1] == '-') {
            i2 + 2
        } else {
            i2 + 1
        };
        lemma_digits_end(s, i3);
    }
}

// ---------------------------------------------------------------------
// Values

/// The value starting at or after `i` (after white space).
pub open spec fn parse_value(s: Seq<char>, i: int) -> Result<(Json, int), PErr>
    decreases s.len() - i, 3int,
{
    if i < 0 || i > s.len() {
        Err(error_at(s, "Unexpected end of JSON input"@, i))
    } else {
        let j = skip_ws(s, i);
        if j < i || j >= s.len() {
            Err(error_at(s, "Unexpected end of JSON input"@, j))
        } else {
            let c = s[j];
            if c == '{' {
                parse_object(s, j)
            } else if c == '[' {
                parse_array(s, j)
            } else if c == '"' || c == '\'' {
                match parse_string(s, j) {
                    Ok((t, e)) => Ok((Json::Str(t), e)),
                    Err(e) => Err(e),
                }
            } else if c == 't' || c == 'f' {
                parse_bool(s, j)
            } else if c == 'n' {
                parse_null(s, j)
            } else if c == '-' || is_digit(c) {
                parse_number(s, j)
            } else {
                Err(
                    error_at(
                        s,
                        "Unexpected character '"@ + seq![first_byte_char(c)]
                            + "' when expecting value"@,
                        j,
                    ),
                )
            }
        }
    }
}

/// An object whose `{` is at `open`.
pub open spec fn parse_object(s: Seq<char>, open: int) -> Result<(Json, int), PErr>
    decreases s.len() - open, 2int,
{
    if open < 0 || open >= s.len() {
        Err(error_at(s, "Unclosed object, expected key or '}'"@, open))
    } else {
        let k = skip_ws(s, open + 1);
        proof {
            lemma_skip_ws(s, open + 1);
        }
        if k < open + 1 {
            Err(error_at(s, "Unclosed object, expected key or '}'"@, open))
        } else if k < s.len() && s[k] == '}' {
            Ok((Json::Object(Seq::empty()), k + 1))
        } else {
            object_members(s, open, k, Seq::empty())
        }
    }
}

/// The key of an object member at `k`: quoted, or a bare identifier.
pub open spec fn parse_key(s: Seq<char>, k: int) -> Result<(Seq<char>, int), PErr> {
    let b = s[k];
    if b == '"' || b == '\'' {
        parse_string(s, k)
    } else if is_ascii_alpha(b) || b == '_' || b == '$' {
        Ok((s.subrange(k, ident_end(s, k)), ident_end(s, k)))
    } else {
        Err(error_at(s, "Expected string key in object"@, k))
    }
}

/// The members of the object opened at `open`, from position `k` on,
/// after the members `acc` already read.
pub open spec fn object_members(
    s: Seq<char>,
    open: int,
    k: int,
    acc: Seq<(Seq<char>, Json)>,
) -> Result<(Json, int), PErr>
    decreases s.len() - k, 1int,
{
    let unclosed = error_at(s, "Unclosed object, expected key or '}'"@, open);
    if k < 0 || k >= s.len() {
        Err(unclosed)
    } else {
        let k2 = skip_ws(s, k);
        if k2 < k || k2 >= s.len() {
            Err(unclosed)
        } else if s[k2] == '}' {
            Ok((Json::Object(acc), k2 + 1))
        } else {
            match parse_key(s, k2) {
                Err(e) => Err(e),
                Ok((key, k3)) => {
                    let k4 = skip_ws(s, k3);
                    if k3 <= k2 || k4 < k3 || k4 >= s.len() || s[k4] != ':' {
                        Err(
                            error_at(
                                s,
                                "Expected ':' after key '"@ + key + "'"@,
                                min_pos(k4, s.len() as int),
                            ),
                        )
                    } else {
                        match parse_value(s, k4 + 1) {
                            Err(e) => Err(e),
                            Ok((v, k5)) => {
                                let acc2 = acc.push((key, v));
                                let k6 = skip_ws(s, k5);
                                if 0 <= k6 < s.len() && s[k6] == ',' {
                                    let k7 = skip_ws(s, k6 + 1);
                                    proof {
                                        lemma_skip_ws(s, k6 + 1);
                                    }
                                    if k7 < s.len() && s[k7] == '}' {
                                        Ok((Json::Object(acc2), k7 + 1))
                                    } else if k7 > k {
                                        object_members(s, open, k7, acc2)
                                    } else {
                                        Err(unclosed)
                                    }
                                } else if 0 <= k6 < s.len() && s[k6] == '}' {
                                    Ok((Json::Object(acc2), k6 + 1))
                                } else {
                                    Err(error_at(s, "Expected ',' or '}' in object"@, k6))
                                }
                            },
                        }
                    }
                },
            }
        }
    }
}

/// An array whose `[` is at `open`.
pub open spec fn parse_array(s: Seq<char>, open: int) -> Result<(Json, int), PErr>
    decreases s.len() - open, 2int,
{
    if open < 0 || open >= s.len() {
        Err(error_at(s, "Unterminated array: missing ']'"@, open))
    } else {
        let k = skip_ws(s, open + 1);
        proof {
            lemma_skip_ws(s, open + 1);
        }
        if k < open + 1 {
            Err(error_at(s, "Unterminated array: missing ']'"@, open))
        } else if k < s.len() && s[k] == ']' {
            Ok((Json::Array(Seq::empty()), k + 1))
        } else {
            array_items(s, open, k, Seq::empty())
        }
    }
}

/// The items of the array opened at `open`, from position `k` on.
pub open spec fn array_items(s: Seq<char>, open: int, k: int, acc: Seq<Json>) -> Result<
    (Json, int),
    PErr,
>
    decreases s.len() - k, 4int,
{
    let unterminated = error_at(s, "Unterminated array: missing ']'"@, open);
    if k < 0 || k >= s.len() {
        Err(unterminated)
    } else {
        let k2 = skip_ws(s, k);
        if k2 < k || k2 >= s.len() {
            Err(unterminated)
        } else if s[k2] == ']' {
            Ok((Json::Array(acc), k2 + 1))
        } else {
            match parse_value(s, k2) {
                Err(e) => Err(e),
                Ok((v, k5)) => {
                    let acc2 = acc.push(v);
                    let k6 = skip_ws(s, k5);
                    if k6 < 0 || k6 >= s.len() {
                        Err(unterminated)
                    } else if s[k6] == ',' {
                        let k7 = skip_ws(s, k6 + 1);
                        proof {
                            lemma_skip_ws(s, k6 + 1);
                        }
                        if k7 < s.len() && s[k7] == ']' {
                            Ok((Json::Array(acc2), k7 + 1))
                        } else if k7 > k {
                            array_items(s, open, k7, acc2)
                        } else {
                            Err(unterminated)
                        }
                    } else if s[k6] == ']' {
                        Ok((Json::Array(acc2), k6 + 1))
                    } else {
                        Err(error_at(s, "Expected ',' or ']' in array"@, k6))
                    }
                },
            }
        }
    }
}

/// A whole document: one value, surrounded only by white space and comments.
pub open spec fn parse_document(s: Seq<char>) -> Result<Json, PErr> {
    let j = skip_ws(s, 0);
    if j >= s.len() {
        Err(error_at(s, "Empty JSON input"@, j))
    } else {
        match parse_value(s, j) {
            Err(e) => Err(e),
            Ok((v, e)) => {
                let k = skip_ws(s, e);
                if 0 <= k < s.len() {
                    Err(
                        error_at(
                            s,
                            "Unexpected character after valid JSON: '"@ + seq![first_byte_char(s[k])]
                                + "'"@,
                            k,
                        ),
                    )
                } else {
                    Ok(v)
                }
            },
        }
    }
}

} // verus!

verus! {

/// A key that parses consumes at least one character.
pub proof fn lemma_parse_key(s: Seq<char>, k: int)
    requires
        0 <= k < s.len(),
    ensures
        parse_key(s, k) matches Ok((key, e)) ==> k < e <= s.len(),
{
    let b = s[k];
    if b == '"' || b == '\'' {
        lemma_scan_string(s, b, k + 1, k + 1, false);
    } else {
        lemma_ident_end(s, k);
        if is_ascii_alpha(b) || b == '_' || b == '$' {
            lemma_ident_end(s, k + 1);
        }
    }
}

/// A value that parses consumes at least one character and ends within the text.
pub proof fn lemma_parse_value_progress(s: Seq<char>, i: int)
    ensures
        parse_value(s, i) matches Ok((v, e)) ==> 0 <= i < e <= s.len(),
    decreases s.len() - i, 3int,
{
    if 0 <= i <= s.len() {
        let j = skip_ws(s, i);
        lemma_skip_ws(s, i);
        if j < s.len() {
            let c = s[j];
            if c == '{' {
                lemma_parse_object_progress(s, j);
            } else if c == '[' {
                lemma_parse_array_progress(s, j);
            } else if c == '"' || c == '\'' {
                lemma_scan_string(s, c, j + 1, j + 1, false);
            } else if c == '-' || is_digit(c) {
                lemma_number_token(s, j);
            }
        }
    }
}

pub proof fn lemma_parse_object_progress(s: Seq<char>, open: int)
    ensures
        parse_object(s, open) matches Ok((v, e)) ==> 0 <= open < e <= s.len(),
    decreases s.len() - open, 2int,
{
    if 0 <= open < s.len() {
        lemma_skip_ws(s, open + 1);
        let k = skip_ws(s, open + 1);
        if !(k < s.len() && s[k] == '}') {
            lemma_object_members_progress(s, open, k, Seq::empty());
        }
    }
}

pub proof fn lemma_object_members_progress(
    s: Seq<char>,
    open: int,
    k: int,
    acc: Seq<(Seq<char>, Json)>,
)
    requires
        0 <= open < k,
    ensures
        object_members(s, open, k, acc) matches Ok((v, e)) ==> k < e <= s.len(),
    decreases s.len() - k, 1int,
{
    if 0 <= k < s.len() {
        lemma_skip_ws(s, k);
        let k2 = skip_ws(s, k);
        if k2 < s.len() && s[k2] != '}' {
            lemma_parse_key(s, k2);
            if let Ok((key, k3)) = parse_key(s, k2) {
                lemma_skip_ws(s, k3);
                let k4 = skip_ws(s, k3);
                if k3 > k2 && k4 >= k3 && k4 < s.len() && s[k4] == ':' {
                    lemma_parse_value_progress(s, k4 + 1);
                    if let Ok((v, k5)) = parse_value(s, k4 + 1) {
                        lemma_skip_ws(s, k5);
                        let k6 = skip_ws(s, k5);
                        if 0 <= k6 < s.len() && s[k6] == ',' {
                            lemma_skip_ws(s, k6 + 1);
                            let k7 = skip_ws(s, k6 + 1);
                            if !(k7 < s.len() && s[k7] == '}') && k7 > k {
                                lemma_object_members_progress(s, open, k7, acc.push((key, v)));
                            }
                        }
                    }
                }
            }
        }
    }
}

pub proof fn lemma_parse_array_progress(s: Seq<char>, open: int)
    ensures
        parse_array(s, open) matches Ok((v, e)) ==> 0 <= open < e <= s.len(),
    decreases s.len() - open, 2int,
{
    if 0 <= open < s.len() {
        lemma_skip_ws(s, open + 1);
        let k = skip_ws(s, open + 1);
        if !(k < s.len() && s[k] == ']') {
            lemma_array_items_progress(s, open, k, Seq::empty());
        }
    }
}

pub proof fn lemma_array_items_progress(s: Seq<char>, open: int, k: int, acc: Seq<Json>)
    requires
        0 <= open < k,
    ensures
        array_items(s, open, k, acc) matches Ok((v, e)) ==> k < e <= s.len(),
    decreases s.len() - k, 4int,
{
    if 0 <= k < s.len() {
        lemma_skip_ws(s, k);
        let k2 = skip_ws(s, k);
        if k2 < s.len() && s[k2] != ']' {
            lemma_parse_value_progress(s, k2);
            if let Ok((v, k5)) = parse_value(s, k2) {
                lemma_skip_ws(s, k5);
                let k6 = skip_ws(s, k5);
                if 0 <= k6 < s.len() && s[k6] == ',' {
                    lemma_skip_ws(s, k6 + 1);
                    let k7 = skip_ws(s, k6 + 1);
                    if !(k7 < s.len() && s[k7] == ']') && k7 > k {
                        lemma_array_items_progress(s, open, k7, acc.push(v));
                    }
                }
            }
        }
    }
}

} // verus!
