//! Python literal parser: converts Python dict / list / tuple literal
//! syntax (`True`, `None`, single or triple quoted strings, `#` comments,
//! an optional `name =` prefix) into a JSON value.

pub mod laws;
pub mod laws_trailing;

use vstd::prelude::*;
use crate::text::{push_char, push_str, chars_of, seq_eq, is_ascii_alpha, string_from_range, string_from_chars, is_ws,
    is_whitespace, is_digit, is_hex_digit, hex_value, trim_seq, trim_bounds, decimal,
    push_decimal};
use crate::json::value::{Json, JSONValue, JSONProperty, view_value, view_items, view_props,
    lemma_view_items_push, lemma_view_props_push};
use crate::json::grammar::{scalar_of, float_syntax};
use crate::json::parser::{char_from_u32, is_float_literal, is_hex_digit_exec, hex_value_exec, subvec};

verus! {

/// Whether a character outside ASCII has the Unicode `Alphabetic` property
/// (what `char::is_alphabetic` gives for it).
pub uninterp spec fn char_alphabetic(c: char) -> bool;

/// Whether `c` has the Unicode `Alphabetic` property: within ASCII exactly
/// the letters have it.
pub open spec fn alphabetic(c: char) -> bool {
    if (c as u32) < 128 {
        is_ascii_alpha(c)
    } else {
        char_alphabetic(c)
    }
}

/// `char::is_alphabetic`. Within ASCII the `Alphabetic` property holds of
/// exactly the letters `A`-`Z` and `a`-`z`; beyond ASCII the result is the
/// named `char_alphabetic`.
#[verifier::external_body]
pub(crate) fn is_alphabetic(c: char) -> (r: bool)
    ensures
        r == if (c as u32) < 128 {
            is_ascii_alpha(c)
        } else {
            char_alphabetic(c)
        },
{
    c.is_alphabetic()
}

/// Why a Python literal could not be read; positions count characters.
#[derive(PartialEq, Eq, Structural, Clone, Copy, Debug)]
pub enum ParseError {
    UnexpectedEOF,
    UnexpectedCharacter(char, usize),
    InvalidKey(usize),
    ExpectedColon(usize),
    UnmatchedBracket(char, usize),
}

/// The message of an error.
pub open spec fn error_text(e: ParseError) -> Seq<char> {
    match e {
        ParseError::UnexpectedEOF => "Unexpected end of input while parsing Python literal."@,
        ParseError::UnexpectedCharacter(ch, pos) => "Unexpected character '"@ + seq![ch]
            + "' at character offset "@ + decimal(pos as nat) + "."@,
        ParseError::InvalidKey(pos) => "Expected dictionary key string or identifier at offset "@
            + decimal(pos as nat) + "."@,
        ParseError::ExpectedColon(pos) => "Expected ':' after dictionary key at offset "@ + decimal(
            pos as nat,
        ) + "."@,
        ParseError::UnmatchedBracket(ch, pos) => "Unmatched bracket '"@ + seq![ch] + "' at offset "@
            + decimal(pos as nat) + "."@,
    }
}

impl ParseError {
    /// The human-readable message of the error.
    pub fn describe(&self) -> (r: String)
        ensures
            r@ == error_text(*self),
    {
        let mut out = String::new();
        match *self {
            ParseError::UnexpectedEOF => {
                push_str(&mut out, "Unexpected end of input while parsing Python literal.");
            },
            ParseError::UnexpectedCharacter(ch, pos) => {
                push_str(&mut out, "Unexpected character '");
                push_char(&mut out, ch);
                push_str(&mut out, "' at character offset ");
                push_decimal(&mut out, pos);
                push_str(&mut out, ".");
            },
            ParseError::InvalidKey(pos) => {
                push_str(&mut out, "Expected dictionary key string or identifier at offset ");
                push_decimal(&mut out, pos);
                push_str(&mut out, ".");
            },
            ParseError::ExpectedColon(pos) => {
                push_str(&mut out, "Expected ':' after dictionary key at offset ");
                push_decimal(&mut out, pos);
                push_str(&mut out, ".");
            },
            ParseError::UnmatchedBracket(ch, pos) => {
                push_str(&mut out, "Unmatched bracket '");
                push_char(&mut out, ch);
                push_str(&mut out, "' at offset ");
                push_decimal(&mut out, pos);
                push_str(&mut out, ".");
            },
        }
        proof {
            assert(out@ =~= error_text(*self));
        }
        out
    }
}

// ---------------------------------------------------------------------
// Grammar

/// The position of the line break ending a `#` comment, or the end.
pub open spec fn comment_end(s: Seq<char>, i: int) -> int
    decreases s.len() - i,
{
    if i < 0 || i >= s.len() || s[i] == '\n' || s[i] == '\r' {
        i
    } else {
        comment_end(s, i + 1)
    }
}

pub proof fn lemma_comment_end(s: Seq<char>, i: int)
    requires
        0 <= i <= s.len(),
    ensures
        i <= comment_end(s, i) <= s.len(),
        comment_end(s, i) < s.len() ==> (s[comment_end(s, i)] == '\n' || s[comment_end(s, i)]
            == '\r'),
    decreases s.len() - i,
{
    if i < s.len() && s[i] != '\n' && s[i] != '\r' {
        lemma_comment_end(s, i + 1);
    }
}

/// White space and `#` comments from `i` on are skipped.
pub open spec fn py_skip(s: Seq<char>, i: int) -> int
    decreases s.len() - i, 1int,
{
    if i < 0 || i >= s.len() {
        i
    } else if is_ws(s[i]) {
        py_skip(s, i + 1)
    } else if s[i] == '#' {
        proof {
            lemma_comment_end(s, i + 1);
        }
        py_skip(s, comment_end(s, i + 1))
    } else {
        i
    }
}

pub proof fn lemma_py_skip(s: Seq<char>, i: int)
    requires
        0 <= i <= s.len(),
    ensures
        i <= py_skip(s, i) <= s.len(),
        py_skip(s, py_skip(s, i)) == py_skip(s, i),
    decreases s.len() - i,
{
    if i < s.len() {
        if is_ws(s[i]) {
            lemma_py_skip(s, i + 1);
        } else if s[i] == '#' {
            lemma_comment_end(s, i + 1);
            lemma_py_skip(s, comment_end(s, i + 1));
        }
    }
}

/// A character that may continue a bare name.
pub open spec fn is_name_char(c: char) -> bool {
    alphabetic(c) || is_digit(c) || c == '_' || c == '$'
}

/// A character that may start a bare dictionary key.
pub open spec fn is_ident_start_spec(c: char) -> bool {
    alphabetic(c) || c == '_' || c == '$'
}

pub open spec fn name_end(s: Seq<char>, i: int) -> int
    decreases s.len() - i,
{
    if i < 0 || i >= s.len() || !is_name_char(s[i]) {
        i
    } else {
        name_end(s, i + 1)
    }
}

pub proof fn lemma_name_end(s: Seq<char>, i: int)
    requires
        0 <= i <= s.len(),
    ensures
        i <= name_end(s, i) <= s.len(),
    decreases s.len() - i,
{
    if i < s.len() && is_name_char(s[i]) {
        lemma_name_end(s, i + 1);
    }
}

/// The value of a bare name: a keyword, or the name as a string.
pub open spec fn keyword_value(name: Seq<char>) -> Json {
    if name == "True"@ || name == "true"@ {
        Json::Bool(true)
    } else if name == "False"@ || name == "false"@ {
        Json::Bool(false)
    } else if name == "None"@ || name == "null"@ || name == "none"@ || name == "nan"@ || name
        == "NaN"@ {
        Json::Null
    } else {
        Json::Str(name)
    }
}

/// Characters a number token is made of (`_` separators are dropped).
pub open spec fn is_number_char(c: char) -> bool {
    is_digit(c) || c == '.' || c == '-' || c == '+' || c == 'e' || c == 'E' || c == '_'
}

pub open spec fn number_end(s: Seq<char>, i: int) -> int
    decreases s.len() - i,
{
    if i < 0 || i >= s.len() || !is_number_char(s[i]) {
        i
    } else {
        number_end(s, i + 1)
    }
}

/// The characters of `t` without `_`.
pub open spec fn without_underscores(t: Seq<char>) -> Seq<char>
    decreases t.len(),
{
    if t.len() == 0 {
        Seq::empty()
    } else if t.last() == '_' {
        without_underscores(t.drop_last())
    } else {
        without_underscores(t.drop_last()).push(t.last())
    }
}

pub proof fn lemma_number_end(s: Seq<char>, i: int)
    requires
        0 <= i <= s.len(),
    ensures
        i <= number_end(s, i) <= s.len(),
    decreases s.len() - i,
{
    if i < s.len() && is_number_char(s[i]) {
        lemma_number_end(s, i + 1);
    }
}

/// The character at `i`, or NUL past the end.
pub open spec fn char_at(s: Seq<char>, i: int) -> char {
    if 0 <= i < s.len() {
        s[i]
    } else {
        '\0'
    }
}

pub open spec fn py_number(s: Seq<char>, j: int) -> Result<(Json, int), ParseError> {
    let e = number_end(s, j);
    let num = without_underscores(s.subrange(j, e));
    if float_syntax(num) {
        Ok((Json::Number(num), e))
    } else {
        Err(ParseError::UnexpectedCharacter(char_at(s, e), e as usize))
    }
}

/// The value of the hexadecimal digits of `d`.
pub open spec fn hex_digits_value(d: Seq<char>) -> nat
    decreases d.len(),
{
    if d.len() == 0 {
        0
    } else {
        hex_digits_value(d.drop_last()) * 16 + hex_value(d.last())
    }
}

pub open spec fn all_hex(d: Seq<char>) -> bool {
    forall|k: int| 0 <= k < d.len() ==> is_hex_digit(#[trigger] d[k])
}

/// Base-16 reading of `hex` (`u32::from_str_radix(hex, 16)` on at most
/// four characters): an optional `+`, then one or more hexadecimal digits.
pub open spec fn radix16(hex: Seq<char>) -> Option<nat> {
    let d = if hex.len() > 0 && hex[0] == '+' {
        hex.drop_first()
    } else {
        hex
    };
    if d.len() > 0 && all_hex(d) {
        Some(hex_digits_value(d))
    } else {
        None
    }
}

/// What a `\u` escape followed by `hex` stands for.
pub open spec fn py_unicode(hex: Seq<char>) -> Seq<char> {
    match radix16(hex) {
        Some(code) => match scalar_of(code) {
            Some(c) => seq![c],
            None => seq!['\\', 'u'] + hex,
        },
        None => seq!['\\', 'u'] + hex,
    }
}

pub open spec fn py_simple_escape(n: char) -> char {
    if n == 'n' {
        '\n'
    } else if n == 'r' {
        '\r'
    } else if n == 't' {
        '\t'
    } else if n == 'b' {
        '\u{0008}'
    } else if n == 'f' {
        '\u{000C}'
    } else {
        n
    }
}

pub open spec fn min_int(a: int, b: int) -> int {
    if a < b {
        a
    } else {
        b
    }
}

/// Reads a string body from `i` on, after `acc`.
pub open spec fn py_string_body(s: Seq<char>, quote: char, triple: bool, i: int, acc: Seq<char>) -> Result<
    (Seq<char>, int),
    ParseError,
>
    decreases s.len() - i,
{
    if i < 0 || i >= s.len() {
        Err(ParseError::UnexpectedEOF)
    } else if s[i] == '\\' {
        if i + 1 >= s.len() {
            Err(ParseError::UnexpectedEOF)
        } else if s[i + 1] == 'u' {
            let next = min_int(i + 6, s.len() as int);
            py_string_body(s, quote, triple, next, acc + py_unicode(s.subrange(i + 2, next)))
        } else {
            py_string_body(s, quote, triple, i + 2, acc.push(py_simple_escape(s[i + 1])))
        }
    } else if triple {
        if s[i] == quote && i + 2 < s.len() && s[i + 1] == quote && s[i + 2] == quote {
            Ok((acc, i + 3))
        } else {
            py_string_body(s, quote, triple, i + 1, acc.push(s[i]))
        }
    } else if s[i] == quote {
        Ok((acc, i + 1))
    } else {
        py_string_body(s, quote, triple, i + 1, acc.push(s[i]))
    }
}

/// A string whose opening quote is at `q`; three quotes open a triple
/// quoted string.
pub open spec fn py_string(s: Seq<char>, q: int) -> Result<(Seq<char>, int), ParseError> {
    let quote = s[q];
    let p = q + 1;
    let triple = p < s.len() && s[p] == quote && p + 1 < s.len() && s[p + 1] == quote;
    py_string_body(s, quote, triple, if triple { p + 2 } else { p }, Seq::empty())
}

pub proof fn lemma_py_string_body(s: Seq<char>, quote: char, triple: bool, i: int, acc: Seq<char>)
    requires
        0 <= i,
    ensures
        py_string_body(s, quote, triple, i, acc) matches Ok((t, e)) ==> i < e <= s.len(),
    decreases s.len() - i,
{
    if 0 <= i < s.len() {
        if s[i] == '\\' {
            if i + 1 < s.len() {
                if s[i + 1] == 'u' {
                    lemma_py_string_body(s, quote, triple, min_int(i + 6, s.len() as int), acc + py_unicode(s.subrange(i + 2, min_int(i + 6, s.len() as int))));
                } else {
                    lemma_py_string_body(s, quote, triple, i + 2, acc.push(py_simple_escape(s[i + 1])));
                }
            }
        } else {
            lemma_py_string_body(s, quote, triple, i + 1, acc.push(s[i]));
        }
    }
}

pub open spec fn is_string_prefix(c: char) -> bool {
    c == 'r' || c == 'u' || c == 'b' || c == 'R' || c == 'U' || c == 'B'
}

/// The value starting at or after `i` (after white space and comments).
pub open spec fn py_value(s: Seq<char>, i: int) -> Result<(Json, int), ParseError>
    decreases s.len() - i, 3int,
{
    if i < 0 || i > s.len() {
        Err(ParseError::UnexpectedEOF)
    } else {
        let j = py_skip(s, i);
        if j < i || j >= s.len() {
            Err(ParseError::UnexpectedEOF)
        } else {
            let c = s[j];
            if c == '{' {
                py_dict(s, j)
            } else if c == '[' {
                py_list(s, j, ']')
            } else if c == '(' {
                py_list(s, j, ')')
            } else if c == '"' || c == '\'' {
                match py_string(s, j) {
                    Ok((t, e)) => Ok((Json::Str(t), e)),
                    Err(e) => Err(e),
                }
            } else if is_string_prefix(c) && j + 1 < s.len() && (s[j + 1] == '\'' || s[j + 1]
                == '"') {
                match py_string(s, j + 1) {
                    Ok((t, e)) => Ok((Json::Str(t), e)),
                    Err(e) => Err(e),
                }
            } else if c == '-' || c == '+' || is_digit(c) {
                py_number(s, j)
            } else {
                Ok((keyword_value(s.subrange(j, name_end(s, j))), name_end(s, j)))
            }
        }
    }
}

pub open spec fn py_dict(s: Seq<char>, open: int) -> Result<(Json, int), ParseError>
    decreases s.len() - open, 2int,
{
    if open < 0 || open >= s.len() {
        Err(ParseError::UnmatchedBracket('}', open as usize))
    } else {
        let k = py_skip(s, open + 1);
        if k <= open || k > s.len() {
            Err(ParseError::UnmatchedBracket('}', k as usize))
        } else {
            dict_members(s, k, Seq::empty())
        }
    }
}

/// The key of a dictionary member at `k`.
pub open spec fn py_key(s: Seq<char>, k: int) -> Result<(Seq<char>, int), ParseError> {
    if s[k] == '\'' || s[k] == '"' {
        py_string(s, k)
    } else if is_ident_start_spec(s[k]) {
        Ok((s.subrange(k, name_end(s, k)), name_end(s, k)))
    } else {
        Err(ParseError::InvalidKey(k as usize))
    }
}

/// The members of a dictionary from position `k` on, after `acc`.
pub open spec fn dict_members(s: Seq<char>, k: int, acc: Seq<(Seq<char>, Json)>) -> Result<
    (Json, int),
    ParseError,
>
    decreases s.len() - k, 1int,
{
    if k < 0 || k >= s.len() {
        Err(ParseError::UnmatchedBracket('}', k as usize))
    } else if s[k] == '}' {
        Ok((Json::Object(acc), k + 1))
    } else {
        let k1 = py_skip(s, k);
        if k1 < k || k1 >= s.len() {
            Err(ParseError::UnmatchedBracket('}', k1 as usize))
        } else if s[k1] == '}' {
            Ok((Json::Object(acc), k1 + 1))
        } else {
            match py_key(s, k1) {
                Err(e) => Err(e),
                Ok((key, k2)) => {
                    let k3 = py_skip(s, k2);
                    if k2 <= k1 || k3 < k2 || k3 >= s.len() || s[k3] != ':' {
                        Err(ParseError::ExpectedColon(k3 as usize))
                    } else {
                        match py_value(s, k3 + 1) {
                            Err(e) => Err(e),
                            Ok((v, k5)) => {
                                let acc2 = acc.push((key, v));
                                let k6 = py_skip(s, k5);
                                if k6 < 0 || k6 >= s.len() {
                                    Err(ParseError::UnmatchedBracket('}', k6 as usize))
                                } else if s[k6] == ',' {
                                    let k7 = py_skip(s, k6 + 1);
                                    if k7 > k && k7 <= s.len() {
                                        dict_members(s, k7, acc2)
                                    } else {
                                        Err(ParseError::UnmatchedBracket('}', k7 as usize))
                                    }
                                } else if s[k6] == '}' {
                                    Ok((Json::Object(acc2), k6 + 1))
                                } else {
                                    Err(ParseError::UnexpectedCharacter(s[k6], k6 as usize))
                                }
                            },
                        }
                    }
                },
            }
        }
    }
}

pub open spec fn py_list(s: Seq<char>, open: int, closing: char) -> Result<(Json, int), ParseError>
    decreases s.len() - open, 2int,
{
    if open < 0 || open >= s.len() {
        Err(ParseError::UnmatchedBracket(closing, open as usize))
    } else {
        let k = py_skip(s, open + 1);
        if k <= open || k > s.len() {
            Err(ParseError::UnmatchedBracket(closing, k as usize))
        } else {
            list_items(s, k, closing, Seq::empty())
        }
    }
}

/// The elements of a list or tuple from position `k` on, after `acc`.
pub open spec fn list_items(s: Seq<char>, k: int, closing: char, acc: Seq<Json>) -> Result<
    (Json, int),
    ParseError,
>
    decreases s.len() - k, 4int,
{
    if k < 0 || k >= s.len() {
        Err(ParseError::UnmatchedBracket(closing, k as usize))
    } else if s[k] == closing {
        Ok((Json::Array(acc), k + 1))
    } else {
        let k1 = py_skip(s, k);
        if k1 < k || k1 >= s.len() {
            Err(ParseError::UnmatchedBracket(closing, k1 as usize))
        } else if s[k1] == closing {
            Ok((Json::Array(acc), k1 + 1))
        } else {
            match py_value(s, k1) {
                Err(e) => Err(e),
                Ok((v, k5)) => {
                    let acc2 = acc.push(v);
                    let k6 = py_skip(s, k5);
                    if k6 < 0 || k6 >= s.len() {
                        Err(ParseError::UnmatchedBracket(closing, k6 as usize))
                    } else if s[k6] == ',' {
                        let k7 = py_skip(s, k6 + 1);
                        if k7 > k && k7 <= s.len() {
                            list_items(s, k7, closing, acc2)
                        } else {
                            Err(ParseError::UnmatchedBracket(closing, k7 as usize))
                        }
                    } else if s[k6] == closing {
                        Ok((Json::Array(acc2), k6 + 1))
                    } else {
                        Err(ParseError::UnexpectedCharacter(s[k6], k6 as usize))
                    }
                },
            }
        }
    }
}

// ---------------------------------------------------------------------
// The whole literal

/// The position of the first `=`, or the length.
pub open spec fn first_eq(s: Seq<char>, i: int) -> int
    decreases s.len() - i,
{
    if i < 0 || i >= s.len() || s[i] == '=' {
        i
    } else {
        first_eq(s, i + 1)
    }
}

/// A character allowed in an assignment target such as `data: dict`.
pub open spec fn is_target_char(c: char) -> bool {
    alphabetic(c) || is_digit(c) || c == '_' || c == ':' || is_ws(c)
}

/// The literal text: trimmed, and without a leading `name =` when a
/// `{`, `[` or `(` follows it.
pub open spec fn python_source(text: Seq<char>) -> Seq<char> {
    let c = trim_seq(text);
    let eq = first_eq(c, 0);
    if eq < c.len() {
        let prefix = trim_seq(c.take(eq));
        let valid = prefix.len() > 0 && (forall|k: int|
            0 <= k < prefix.len() ==> is_target_char(#[trigger] prefix[k]));
        let suffix = trim_seq(c.skip(eq + 1));
        if valid && suffix.len() > 0 && (suffix[0] == '{' || suffix[0] == '[' || suffix[0] == '(') {
            suffix
        } else {
            c
        }
    } else {
        c
    }
}

/// The value of a Python literal.
pub open spec fn python_literal(text: Seq<char>) -> Result<Json, ParseError> {
    let s = python_source(text);
    if py_skip(s, 0) >= s.len() {
        Err(ParseError::UnexpectedEOF)
    } else {
        match py_value(s, 0) {
            Ok((v, e)) => Ok(v),
            Err(e) => Err(e),
        }
    }
}

// ---------------------------------------------------------------------
// Progress

pub proof fn lemma_name_end_start(s: Seq<char>, k: int)
    requires
        0 <= k < s.len(),
        is_name_char(s[k]),
    ensures
        k < name_end(s, k) <= s.len(),
{
    lemma_name_end(s, k + 1);
}

pub proof fn lemma_py_string(s: Seq<char>, q: int)
    requires
        0 <= q < s.len(),
    ensures
        py_string(s, q) matches Ok((t, e)) ==> q < e <= s.len(),
{
    let quote = s[q];
    let p = q + 1;
    let triple = p < s.len() && s[p] == quote && p + 1 < s.len() && s[p + 1] == quote;
    lemma_py_string_body(s, quote, triple, if triple { p + 2 } else { p }, Seq::empty());
}

pub proof fn lemma_py_key(s: Seq<char>, k: int)
    requires
        0 <= k < s.len(),
    ensures
        py_key(s, k) matches Ok((t, e)) ==> k < e <= s.len(),
{
    if s[k] == '\'' || s[k] == '"' {
        lemma_py_string(s, k);
    } else if is_ident_start_spec(s[k]) {
        lemma_name_end_start(s, k);
    }
}

/// A value that parses ends within the text, not before where it started.
pub proof fn lemma_py_value_progress(s: Seq<char>, i: int)
    ensures
        py_value(s, i) matches Ok((v, e)) ==> 0 <= i <= e <= s.len(),
    decreases s.len() - i, 3int,
{
    if 0 <= i <= s.len() {
        lemma_py_skip(s, i);
        let j = py_skip(s, i);
        if j < s.len() {
            let c = s[j];
            if c == '{' {
                lemma_py_dict_progress(s, j);
            } else if c == '[' {
                lemma_py_list_progress(s, j, ']');
            } else if c == '(' {
                lemma_py_list_progress(s, j, ')');
            } else if c == '"' || c == '\'' {
                lemma_py_string(s, j);
            } else if is_string_prefix(c) && j + 1 < s.len() && (s[j + 1] == '\'' || s[j + 1]
                == '"') {
                lemma_py_string(s, j + 1);
            } else if c == '-' || c == '+' || is_digit(c) {
                lemma_number_end(s, j);
            } else {
                lemma_name_end(s, j);
            }
        }
    }
}

pub proof fn lemma_py_dict_progress(s: Seq<char>, open: int)
    ensures
        py_dict(s, open) matches Ok((v, e)) ==> 0 <= open < e <= s.len(),
    decreases s.len() - open, 2int,
{
    if 0 <= open < s.len() {
        lemma_py_skip(s, open + 1);
        let k = py_skip(s, open + 1);
        lemma_dict_members_progress(s, k, Seq::empty());
    }
}

#[verifier::rlimit(30)]
pub proof fn lemma_dict_members_progress(s: Seq<char>, k: int, acc: Seq<(Seq<char>, Json)>)
    ensures
        dict_members(s, k, acc) matches Ok((v, e)) ==> 0 <= k < e <= s.len(),
    decreases s.len() - k, 1int,
{
    if 0 <= k < s.len() && s[k] != '}' {
        lemma_py_skip(s, k);
        let k1 = py_skip(s, k);
        if k1 < s.len() && s[k1] != '}' {
            lemma_py_key(s, k1);
            if let Ok((key, k2)) = py_key(s, k1) {
                lemma_py_skip(s, k2);
                let k3 = py_skip(s, k2);
                if k2 > k1 && k3 >= k2 && k3 < s.len() && s[k3] == ':' {
                    lemma_py_value_progress(s, k3 + 1);
                    if let Ok((v, k5)) = py_value(s, k3 + 1) {
                        lemma_py_skip(s, k5);
                        let k6 = py_skip(s, k5);
                        if 0 <= k6 < s.len() && s[k6] == ',' {
                            lemma_py_skip(s, k6 + 1);
                            let k7 = py_skip(s, k6 + 1);
                            if k7 > k && k7 <= s.len() {
                                lemma_dict_members_progress(s, k7, acc.push((key, v)));
                            }
                        }
                    }
                }
            }
        }
    }
}

pub proof fn lemma_py_list_progress(s: Seq<char>, open: int, closing: char)
    ensures
        py_list(s, open, closing) matches Ok((v, e)) ==> 0 <= open < e <= s.len(),
    decreases s.len() - open, 2int,
{
    if 0 <= open < s.len() {
        lemma_py_skip(s, open + 1);
        let k = py_skip(s, open + 1);
        lemma_list_items_progress(s, k, closing, Seq::empty());
    }
}

pub proof fn lemma_list_items_progress(s: Seq<char>, k: int, closing: char, acc: Seq<Json>)
    ensures
        list_items(s, k, closing, acc) matches Ok((v, e)) ==> 0 <= k < e <= s.len(),
    decreases s.len() - k, 4int,
{
    if 0 <= k < s.len() && s[k] != closing {
        lemma_py_skip(s, k);
        let k1 = py_skip(s, k);
        if k1 < s.len() && s[k1] != closing {
            lemma_py_value_progress(s, k1);
            if let Ok((v, k5)) = py_value(s, k1) {
                lemma_py_skip(s, k5);
                let k6 = py_skip(s, k5);
                if 0 <= k6 < s.len() && s[k6] == ',' {
                    lemma_py_skip(s, k6 + 1);
                    let k7 = py_skip(s, k6 + 1);
                    if k7 > k && k7 <= s.len() {
                        lemma_list_items_progress(s, k7, closing, acc.push(v));
                    }
                }
            }
        }
    }
}

// ---------------------------------------------------------------------
// The parser

/// A parse result agrees with the grammar's outcome, ending at `idx`.
pub open spec fn py_agrees_at(
    r: Result<JSONValue, ParseError>,
    sp: Result<(Json, int), ParseError>,
    idx: int,
) -> bool {
    match sp {
        Ok((v, e)) => r is Ok && view_value(r->Ok_0) == v && idx == e,
        Err(err) => r is Err && r->Err_0 == err,
    }
}

/// A parse result agrees with the grammar's outcome.
pub open spec fn py_agrees(r: Result<JSONValue, ParseError>, sp: Result<Json, ParseError>) -> bool {
    match sp {
        Ok(v) => r is Ok && view_value(r->Ok_0) == v,
        Err(err) => r is Err && r->Err_0 == err,
    }
}

fn is_ident_start(ch: char) -> (r: bool)
    ensures
        r == is_ident_start_spec(ch),
{
    is_alphabetic(ch) || ch == '_' || ch == '$'
}

fn is_name_char_exec(ch: char) -> (r: bool)
    ensures
        r == is_name_char(ch),
{
    is_alphabetic(ch) || ('0' <= ch && ch <= '9') || ch == '_' || ch == '$'
}

fn is_number_char_exec(ch: char) -> (r: bool)
    ensures
        r == is_number_char(ch),
{
    ('0' <= ch && ch <= '9') || ch == '.' || ch == '-' || ch == '+' || ch == 'e' || ch == 'E'
        || ch == '_'
}

fn simple_escape(n: char) -> (r: char)
    ensures
        r == py_simple_escape(n),
{
    if n == 'n' {
        '\n'
    } else if n == 'r' {
        '\r'
    } else if n == 't' {
        '\t'
    } else if n == 'b' {
        '\u{0008}'
    } else if n == 'f' {
        '\u{000C}'
    } else {
        n
    }
}

pub open spec fn pow16(n: nat) -> nat
    decreases n,
{
    if n == 0 {
        1
    } else {
        16 * pow16((n - 1) as nat)
    }
}

proof fn lemma_pow16_small()
    ensures
        pow16(0) == 1,
        pow16(1) == 16,
        pow16(2) == 256,
        pow16(3) == 4096,
        pow16(4) == 65536,
{
    reveal_with_fuel(pow16, 5);
}

proof fn lemma_hex_digits_bound(d: Seq<char>)
    requires
        all_hex(d),
    ensures
        hex_digits_value(d) < pow16(d.len()),
    decreases d.len(),
{
    if d.len() > 0 {
        let p = d.drop_last();
        assert(all_hex(p)) by {
            assert forall|k: int| 0 <= k < p.len() implies is_hex_digit(#[trigger] p[k]) by {
                assert(p[k] == d[k]);
            }
        }
        lemma_hex_digits_bound(p);
        assert(is_hex_digit(d[d.len() - 1]));
        let a = hex_digits_value(p);
        let b = pow16(p.len());
        let h = hex_value(d.last());
        assert(h < 16);
        assert(a * 16 + h < b * 16) by (nonlinear_arith)
            requires
                a < b,
                h < 16,
        ;
    }
}

/// Base-16 reading of at most four characters (`u32::from_str_radix(_, 16)`).
fn radix16_exec(hex: &Vec<char>) -> (r: Option<u32>)
    requires
        hex@.len() <= 4,
    ensures
        match radix16(hex@) {
            Some(v) => r == Some(v as u32) && v < 0x10000,
            None => r is None,
        },
{
    let n = hex.len();
    let start: usize = if n > 0 && hex[0] == '+' {
        1
    } else {
        0
    };
    let ghost d = if n > 0 && hex@[0] == '+' {
        hex@.drop_first()
    } else {
        hex@
    };
    proof {
        assert(d =~= hex@.subrange(start as int, n as int));
        lemma_pow16_small();
    }
    if start >= n {
        return None;
    }
    let mut v: u32 = 0;
    let mut k = start;
    proof {
        assert(hex@.subrange(start as int, start as int) =~= Seq::<char>::empty());
    }
    while k < n
        invariant
            start <= k <= n == hex@.len() <= 4,
            start <= 1,
            d == hex@.subrange(start as int, n as int),
            d == (if hex@.len() > 0 && hex@[0] == '+' {
                hex@.drop_first()
            } else {
                hex@
            }),
            all_hex(hex@.subrange(start as int, k as int)),
            v == hex_digits_value(hex@.subrange(start as int, k as int)),
            v < pow16((k - start) as nat),
            pow16(0) == 1,
            pow16(1) == 16,
            pow16(2) == 256,
            pow16(3) == 4096,
        decreases n - k,
    {
        let c = hex[k];
        if !is_hex_digit_exec(c) {
            proof {
                assert(d[k - start] == c);
            }
            return None;
        }
        let h = hex_value_exec(c);
        let ghost prev = hex@.subrange(start as int, k as int);
        let ghost next = hex@.subrange(start as int, k + 1);
        proof {
            assert(next.drop_last() =~= prev);
            assert(next.last() == c);
            assert forall|m: int| 0 <= m < next.len() implies is_hex_digit(#[trigger] next[m]) by {
                if m < prev.len() {
                    assert(next[m] == prev[m]);
                }
            }
            assert(k - start <= 3);
            assert(v < 4096);
        }
        v = v * 16 + h;
        k += 1;
    }
    proof {
        lemma_hex_digits_bound(d);
    }
    Some(v)
}

struct Parser {
    chars: Vec<char>,
    index: usize,
}

impl Parser {
    spec fn wf(&self) -> bool {
        self.index <= self.chars@.len()
    }

    fn new(chars: Vec<char>) -> (p: Self)
        ensures
            p.wf(),
            p.chars@ == chars@,
            p.index == 0,
    {
        Parser { chars, index: 0 }
    }

    fn has_more(&self) -> (r: bool)
        ensures
            r == (self.index < self.chars@.len()),
    {
        self.index < self.chars.len()
    }

    fn current(&self) -> (r: char)
        ensures
            r == char_at(self.chars@, self.index as int),
    {
        if self.has_more() {
            self.chars[self.index]
        } else {
            '\0'
        }
    }

    fn advance(&mut self)
        requires
            old(self).wf(),
        ensures
            final(self).wf(),
            final(self).chars@ == old(self).chars@,
            final(self).index == if old(self).index < old(self).chars@.len() {
                old(self).index + 1
            } else {
                old(self).index as int
            },
    {
        if self.index < self.chars.len() {
            self.index += 1;
        }
    }

    /// The character `n` places ahead, if there is one.
    fn peek(&self, n: usize) -> (r: Option<char>)
        requires
            self.wf(),
        ensures
            r == if self.index + n < self.chars@.len() {
                Some(self.chars@[self.index + n])
            } else {
                None::<char>
            },
    {
        if n < self.chars.len() - self.index {
            Some(self.chars[self.index + n])
        } else {
            None
        }
    }

    fn peek_is(&self, n: usize, c: char) -> (r: bool)
        requires
            self.wf(),
        ensures
            r == (self.index + n < self.chars@.len() && self.chars@[self.index + n] == c),
    {
        match self.peek(n) {
            Some(d) => d == c,
            None => false,
        }
    }

    fn skip_ws_and_comments(&mut self)
        requires
            old(self).wf(),
        ensures
            final(self).wf(),
            final(self).chars@ == old(self).chars@,
            final(self).index == py_skip(old(self).chars@, old(self).index as int),
    {
        let ghost s = self.chars@;
        let ghost i0 = self.index as int;
        loop
            invariant
                self.wf(),
                self.chars@ == s,
                s == old(self).chars@,
                i0 == old(self).index,
                i0 <= self.index <= s.len(),
                py_skip(s, i0) == py_skip(s, self.index as int),
            ensures
                self.wf(),
                self.chars@ == s,
                self.index == py_skip(s, i0),
            decreases s.len() - self.index,
        {
            if !self.has_more() {
                break;
            }
            let ch = self.current();
            if is_whitespace(ch) {
                self.advance();
            } else if ch == '#' {
                let ghost c0 = self.index as int;
                proof {
                    lemma_comment_end(s, c0 + 1);
                }
                while self.has_more() && self.current() != '\n' && self.current() != '\r'
                    invariant
                        self.wf(),
                        self.chars@ == s,
                        s == old(self).chars@,
                        i0 == old(self).index,
                        i0 <= c0,
                        py_skip(s, i0) == py_skip(s, c0),
                        c0 <= self.index <= comment_end(s, c0 + 1),
                        c0 < s.len(),
                        s[c0] == '#',
                        comment_end(s, self.index as int) == comment_end(s, c0 + 1),
                    decreases s.len() - self.index,
                {
                    proof {
                        lemma_comment_end(s, self.index + 1);
                    }
                    self.advance();
                }
            } else {
                break;
            }
        }
    }

    /// A string starting at its opening quote.
    fn parse_string(&mut self) -> (r: Result<String, ParseError>)
        requires
            old(self).wf(),
            old(self).index < old(self).chars@.len(),
        ensures
            final(self).wf(),
            final(self).chars@ == old(self).chars@,
            match py_string(old(self).chars@, old(self).index as int) {
                Ok((t, e)) => r is Ok && r->Ok_0@ == t && final(self).index == e,
                Err(err) => r is Err && r->Err_0 == err,
            },
    {
        let ghost s = self.chars@;
        let ghost q = self.index as int;
        let quote = self.current();
        self.advance();
        let mut is_triple = false;
        if self.has_more() && self.current() == quote && self.peek_is(1, quote) {
            self.advance();
            self.advance();
            is_triple = true;
        }
        let mut result = String::new();
        proof {
            assert(result@ =~= Seq::<char>::empty());
        }
        while self.has_more()
            invariant
                self.wf(),
                self.chars@ == s,
                s == old(self).chars@,
                q == old(self).index,
                0 <= q < self.index,
                quote == s[q],
                py_string(s, q) == py_string_body(s, quote, is_triple, self.index as int, result@),
            decreases s.len() - self.index,
        {
            let ghost i = self.index as int;
            let ch = self.current();
            if ch == '\\' {
                self.advance();
                if !self.has_more() {
                    return Err(ParseError::UnexpectedEOF);
                }
                let esc = self.current();
                if esc == 'u' {
                    let mut hex: Vec<char> = Vec::new();
                    let mut n: usize = 0;
                    proof {
                        assert(s.subrange(i + 2, i + 2) =~= Seq::<char>::empty());
                    }
                    while n < 4
                        invariant
                            self.wf(),
                            self.chars@ == s,
                            s == old(self).chars@,
                            q == old(self).index,
                            0 <= q < i,
                            quote == s[q],
                            py_string(s, q) == py_string_body(s, quote, is_triple, i, result@),
                            n <= 4,
                            i + 1 < s.len(),
                            self.index == min_int(i + 1 + n, s.len() as int),
                            hex@ == s.subrange(i + 2, min_int(i + 2 + n, s.len() as int)),
                        decreases 4 - n,
                    {
                        self.advance();
                        if self.has_more() {
                            let c = self.current();
                            proof {
                                assert(self.index == i + 2 + n);
                                assert(c == s[i + 2 + n]);
                                assert(s.subrange(i + 2, i + 3 + n) =~= s.subrange(i + 2, i + 2 + n).push(c));
                            }
                            hex.push(c);
                        }
                        n += 1;
                    }
                    let ghost h = s.subrange(i + 2, min_int(i + 6, s.len() as int));
                    let ghost before = result@;
                    match radix16_exec(&hex) {
                        Some(code) => match char_from_u32(code) {
                            Some(scalar) => {
                                push_char(&mut result, scalar);
                            },
                            None => {
                                push_char(&mut result, '\\');
                                push_char(&mut result, 'u');
                                let hs = string_from_chars(&hex);
                                push_str(&mut result, hs.as_str());
                            },
                        },
                        None => {
                            push_char(&mut result, '\\');
                            push_char(&mut result, 'u');
                            let hs = string_from_chars(&hex);
                            push_str(&mut result, hs.as_str());
                        },
                    }
                    proof {
                        assert(result@ =~= before + py_unicode(h));
                    }
                    self.advance();
                } else {
                    push_char(&mut result, simple_escape(esc));
                    self.advance();
                }
            } else if is_triple {
                if ch == quote && self.peek_is(1, quote) && self.peek_is(2, quote) {
                    self.advance();
                    self.advance();
                    self.advance();
                    return Ok(result);
                } else {
                    push_char(&mut result, ch);
                    self.advance();
                }
            } else if ch == quote {
                self.advance();
                return Ok(result);
            } else {
                push_char(&mut result, ch);
                self.advance();
            }
        }
        Err(ParseError::UnexpectedEOF)
    }

    /// A number: digits, signs, dots and exponent marks, `_` dropped.
    fn parse_number(&mut self) -> (r: Result<JSONValue, ParseError>)
        requires
            old(self).wf(),
        ensures
            final(self).wf(),
            final(self).chars@ == old(self).chars@,
            py_agrees_at(r, py_number(old(self).chars@, old(self).index as int), final(self).index as int),
    {
        let ghost s = self.chars@;
        let ghost j = self.index as int;
        let mut num: Vec<char> = Vec::new();
        proof {
            assert(s.subrange(j, j) =~= Seq::<char>::empty());
        }
        while self.has_more() && is_number_char_exec(self.current())
            invariant
                self.wf(),
                self.chars@ == s,
                s == old(self).chars@,
                j == old(self).index,
                j <= self.index <= s.len(),
                number_end(s, j) == number_end(s, self.index as int),
                num@ == without_underscores(s.subrange(j, self.index as int)),
            decreases s.len() - self.index,
        {
            let ghost k = self.index as int;
            let ch = self.current();
            proof {
                assert(s.subrange(j, k + 1).drop_last() =~= s.subrange(j, k));
                assert(s.subrange(j, k + 1).last() == ch);
            }
            if ch != '_' {
                num.push(ch);
            }
            self.advance();
        }
        if is_float_literal(&num) {
            Ok(JSONValue::Number(string_from_chars(&num)))
        } else {
            Err(ParseError::UnexpectedCharacter(self.current(), self.index))
        }
    }

    /// A bare name: letters, digits, `_` and `$`.
    fn parse_ident_name(&mut self) -> (r: String)
        requires
            old(self).wf(),
        ensures
            final(self).wf(),
            final(self).chars@ == old(self).chars@,
            final(self).index == name_end(old(self).chars@, old(self).index as int),
            r@ == old(self).chars@.subrange(old(self).index as int, final(self).index as int),
    {
        let ghost s = self.chars@;
        let start = self.index;
        while self.has_more() && is_name_char_exec(self.current())
            invariant
                self.wf(),
                self.chars@ == s,
                s == old(self).chars@,
                start == old(self).index,
                start <= self.index <= s.len(),
                name_end(s, start as int) == name_end(s, self.index as int),
            decreases s.len() - self.index,
        {
            self.advance();
        }
        string_from_range(&self.chars, start, self.index)
    }

    /// A bare name, read as a keyword where it is one.
    fn parse_ident_or_keyword(&mut self) -> (r: JSONValue)
        requires
            old(self).wf(),
        ensures
            final(self).wf(),
            final(self).chars@ == old(self).chars@,
            final(self).index == name_end(old(self).chars@, old(self).index as int),
            view_value(r) == keyword_value(
                old(self).chars@.subrange(old(self).index as int, final(self).index as int),
            ),
    {
        let name = self.parse_ident_name();
        let n = name.as_str();
        if seq_eq(n, "True") || seq_eq(n, "true") {
            JSONValue::Bool(true)
        } else if seq_eq(n, "False") || seq_eq(n, "false") {
            JSONValue::Bool(false)
        } else if seq_eq(n, "None") || seq_eq(n, "null") || seq_eq(n, "none") || seq_eq(n, "nan")
            || seq_eq(n, "NaN") {
            JSONValue::Null
        } else {
            JSONValue::Str(name)
        }
    }

    /// The value at or after the current position.
    fn parse_value(&mut self) -> (r: Result<JSONValue, ParseError>)
        requires
            old(self).wf(),
        ensures
            final(self).wf(),
            final(self).chars@ == old(self).chars@,
            py_agrees_at(r, py_value(old(self).chars@, old(self).index as int), final(self).index as int),
        decreases old(self).chars@.len() - old(self).index, 3int,
    {
        let ghost s = self.chars@;
        let ghost i0 = self.index as int;
        proof {
            lemma_py_skip(s, i0);
        }
        self.skip_ws_and_comments();
        if !self.has_more() {
            return Err(ParseError::UnexpectedEOF);
        }
        let ch = self.current();
        if ch == '{' {
            self.parse_dict()
        } else if ch == '[' {
            self.parse_list(']')
        } else if ch == '(' {
            self.parse_list(')')
        } else if ch == '"' || ch == '\'' {
            match self.parse_string() {
                Ok(t) => Ok(JSONValue::Str(t)),
                Err(e) => Err(e),
            }
        } else if (ch == 'r' || ch == 'u' || ch == 'b' || ch == 'R' || ch == 'U' || ch == 'B') && (
        self.peek_is(1, '\'') || self.peek_is(1, '"')) {
            self.advance();
            match self.parse_string() {
                Ok(t) => Ok(JSONValue::Str(t)),
                Err(e) => Err(e),
            }
        } else if ch == '-' || ch == '+' || ('0' <= ch && ch <= '9') {
            self.parse_number()
        } else {
            Ok(self.parse_ident_or_keyword())
        }
    }

    /// A dictionary starting at its `{`.
    fn parse_dict(&mut self) -> (r: Result<JSONValue, ParseError>)
        requires
            old(self).wf(),
            old(self).index < old(self).chars@.len(),
        ensures
            final(self).wf(),
            final(self).chars@ == old(self).chars@,
            py_agrees_at(r, py_dict(old(self).chars@, old(self).index as int), final(self).index as int),
        decreases old(self).chars@.len() - old(self).index, 2int,
    {
        let ghost s = self.chars@;
        let open = self.index;
        self.advance();
        proof {
            lemma_py_skip(s, open + 1);
        }
        self.skip_ws_and_comments();
        let mut props: Vec<JSONProperty> = Vec::new();
        proof {
            assert(view_props(props@) =~= Seq::<(Seq<char>, Json)>::empty());
        }
        loop
            invariant
                self.wf(),
                self.chars@ == s,
                s == old(self).chars@,
                open == old(self).index,
                open < self.index <= s.len(),
                py_dict(s, open as int) == dict_members(s, self.index as int, view_props(props@)),
            decreases s.len() - self.index,
        {
            let ghost k = self.index as int;
            if !self.has_more() {
                return Err(ParseError::UnmatchedBracket('}', self.index));
            }
            if self.current() == '}' {
                self.advance();
                return Ok(JSONValue::Object(props));
            }
            proof {
                lemma_py_skip(s, k);
            }
            self.skip_ws_and_comments();
            if !self.has_more() {
                return Err(ParseError::UnmatchedBracket('}', self.index));
            }
            if self.current() == '}' {
                self.advance();
                return Ok(JSONValue::Object(props));
            }
            let ghost k1 = self.index as int;
            proof {
                lemma_py_key(s, k1);
            }
            let ch = self.current();
            let key: String = if ch == '\'' || ch == '"' {
                match self.parse_string() {
                    Ok(t) => t,
                    Err(e) => return Err(e),
                }
            } else if is_ident_start(ch) {
                self.parse_ident_name()
            } else {
                return Err(ParseError::InvalidKey(self.index));
            };
            let ghost k2 = self.index as int;
            proof {
                lemma_py_skip(s, k2);
            }
            self.skip_ws_and_comments();
            if !self.has_more() || self.current() != ':' {
                return Err(ParseError::ExpectedColon(self.index));
            }
            self.advance();
            let ghost k4 = self.index as int;
            proof {
                lemma_py_value_skip(s, k4);
                lemma_py_skip(s, k4);
            }
            self.skip_ws_and_comments();
            proof {
                lemma_py_value_progress(s, self.index as int);
            }
            let val = match self.parse_value() {
                Ok(v) => v,
                Err(e) => return Err(e),
            };
            let ghost k5 = self.index as int;
            let prop = JSONProperty { key, value: val };
            proof {
                lemma_view_props_push(props@, prop);
            }
            props.push(prop);
            proof {
                lemma_py_skip(s, k5);
            }
            self.skip_ws_and_comments();
            if !self.has_more() {
                return Err(ParseError::UnmatchedBracket('}', self.index));
            }
            if self.current() == ',' {
                self.advance();
                proof {
                    lemma_py_skip(s, self.index as int);
                }
                self.skip_ws_and_comments();
            } else if self.current() == '}' {
                self.advance();
                return Ok(JSONValue::Object(props));
            } else {
                return Err(ParseError::UnexpectedCharacter(self.current(), self.index));
            }
        }
    }

    /// A list or tuple starting at its opening bracket.
    fn parse_list(&mut self, closing: char) -> (r: Result<JSONValue, ParseError>)
        requires
            old(self).wf(),
            old(self).index < old(self).chars@.len(),
        ensures
            final(self).wf(),
            final(self).chars@ == old(self).chars@,
            py_agrees_at(
                r,
                py_list(old(self).chars@, old(self).index as int, closing),
                final(self).index as int,
            ),
        decreases old(self).chars@.len() - old(self).index, 2int,
    {
        let ghost s = self.chars@;
        let open = self.index;
        self.advance();
        proof {
            lemma_py_skip(s, open + 1);
        }
        self.skip_ws_and_comments();
        let mut elements: Vec<JSONValue> = Vec::new();
        proof {
            assert(view_items(elements@) =~= Seq::<Json>::empty());
        }
        loop
            invariant
                self.wf(),
                self.chars@ == s,
                s == old(self).chars@,
                open == old(self).index,
                open < self.index <= s.len(),
                py_list(s, open as int, closing) == list_items(
                    s,
                    self.index as int,
                    closing,
                    view_items(elements@),
                ),
            decreases s.len() - self.index,
        {
            let ghost k = self.index as int;
            if !self.has_more() {
                return Err(ParseError::UnmatchedBracket(closing, self.index));
            }
            if self.current() == closing {
                self.advance();
                return Ok(JSONValue::Array(elements));
            }
            proof {
                lemma_py_skip(s, k);
            }
            self.skip_ws_and_comments();
            if !self.has_more() {
                return Err(ParseError::UnmatchedBracket(closing, self.index));
            }
            if self.current() == closing {
                self.advance();
                return Ok(JSONValue::Array(elements));
            }
            proof {
                lemma_py_value_progress(s, self.index as int);
            }
            let val = match self.parse_value() {
                Ok(v) => v,
                Err(e) => return Err(e),
            };
            let ghost k5 = self.index as int;
            proof {
                lemma_view_items_push(elements@, val);
            }
            elements.push(val);
            proof {
                lemma_py_skip(s, k5);
            }
            self.skip_ws_and_comments();
            if !self.has_more() {
                return Err(ParseError::UnmatchedBracket(closing, self.index));
            }
            if self.current() == ',' {
                self.advance();
                proof {
                    lemma_py_skip(s, self.index as int);
                }
                self.skip_ws_and_comments();
            } else if self.current() == closing {
                self.advance();
                return Ok(JSONValue::Array(elements));
            } else {
                return Err(ParseError::UnexpectedCharacter(self.current(), self.index));
            }
        }
    }
}


/// Skipping white space and comments first does not change the value read.
pub proof fn lemma_py_value_skip(s: Seq<char>, i: int)
    requires
        0 <= i <= s.len(),
    ensures
        py_value(s, py_skip(s, i)) == py_value(s, i),
{
    lemma_py_skip(s, i);
}

// ---------------------------------------------------------------------
// The whole literal, executable

fn is_target_char_exec(c: char) -> (r: bool)
    ensures
        r == is_target_char(c),
{
    is_alphabetic(c) || ('0' <= c && c <= '9') || c == '_' || c == ':' || is_whitespace(c)
}

/// The characters of `python_source(text)`.
fn python_source_exec(text: &str) -> (r: Vec<char>)
    ensures
        r@ == python_source(text@),
{
    let all = chars_of(text);
    let (a, b) = trim_bounds(&all);
    let c = subvec(&all, a, b);
    let mut eq: usize = 0;
    while eq < c.len() && c[eq] != '='
        invariant
            eq <= c@.len(),
            first_eq(c@, 0) == first_eq(c@, eq as int),
        decreases c@.len() - eq,
    {
        eq += 1;
    }
    if eq < c.len() {
        let head = subvec(&c, 0, eq);
        let (pa, pb) = trim_bounds(&head);
        let ghost prefix = trim_seq(c@.take(eq as int));
        proof {
            assert(head@ =~= c@.take(eq as int));
        }
        let mut valid = pa < pb;
        let mut k = pa;
        while valid && k < pb
            invariant
                pa <= k <= pb <= head@.len(),
                prefix == head@.subrange(pa as int, pb as int),
                valid ==> pa < pb,
                valid ==> forall|m: int| 0 <= m < k - pa ==> is_target_char(#[trigger] prefix[m]),
                !valid ==> !(prefix.len() > 0 && forall|m: int|
                    0 <= m < prefix.len() ==> is_target_char(#[trigger] prefix[m])),
            decreases pb - k + (if valid { 1int } else { 0int }),
        {
            if !is_target_char_exec(head[k]) {
                proof {
                    assert(prefix[k - pa] == head@[k as int]);
                }
                valid = false;
            } else {
                proof {
                    assert(prefix[k - pa] == head@[k as int]);
                }
                k += 1;
            }
        }
        let tail = subvec(&c, eq + 1, c.len());
        let (sa, sb) = trim_bounds(&tail);
        proof {
            assert(tail@ =~= c@.skip(eq + 1));
        }
        if valid && sa < sb && (tail[sa] == '{' || tail[sa] == '[' || tail[sa] == '(') {
            let r = subvec(&tail, sa, sb);
            proof {
                let cs = trim_seq(text@);
                assert(c@ == cs);
                assert(first_eq(cs, 0) == eq);
                assert(k == pb);
                assert(prefix.len() == pb - pa);
                assert(prefix.len() > 0 && forall|m: int|
                    0 <= m < prefix.len() ==> is_target_char(#[trigger] prefix[m]));
                let suffix = trim_seq(cs.skip(eq + 1));
                assert(suffix == r@);
                assert(suffix[0] == tail@[sa as int]);
            }
            return r;
        }
    }
    c
}

/// Reads a Python literal (a dict, list, tuple, string, number or
/// keyword, possibly after `name =`) as a JSON value. Text after the first
/// complete value is ignored.
pub fn parse_python_literal(text: &str) -> (r: Result<JSONValue, ParseError>)
    ensures
        py_agrees(r, python_literal(text@)),
{
    let cleaned = python_source_exec(text);
    let mut parser = Parser::new(cleaned);
    let ghost s = parser.chars@;
    parser.skip_ws_and_comments();
    if !parser.has_more() {
        return Err(ParseError::UnexpectedEOF);
    }
    proof {
        lemma_py_value_skip(s, 0);
    }
    let val = match parser.parse_value() {
        Ok(v) => v,
        Err(e) => return Err(e),
    };
    parser.skip_ws_and_comments();
    Ok(val)
}

} // verus!
