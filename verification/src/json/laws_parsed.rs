//! Every value the parser returns is well formed: each number it holds is
//! a literal that reads back as written. So the round trips through the
//! printers hold of every document that parses.

use vstd::prelude::*;
use crate::text::is_digit;
use super::value::Json;
use super::grammar::{parse_document, parse_value, parse_object, object_members, parse_array,
    array_items, parse_number, number_token, digits_end, lemma_digits_end, is_exp_mark, skip_ws,
    lemma_skip_ws, lemma_number_token};
use super::laws::{json_wf, items_wf, props_wf, number_ok, law_minify_then_parse, lemma_items_wf,
    lemma_props_wf};
use super::laws_pretty::{sorted_json, law_sorted_format_then_parse};
use super::format::{minify_json, minify_items, minify_props, format_json, quoted, escape_char,
    escape_chars, comma_if};
use super::stringified::{unescaped, law_stringify_then_unescape};
use crate::text::hex_char;

verus! {

/// Counting digits inside the window `s[j..e]` gives the same end as in
/// `s`, when the run of digits stops inside the window.
proof fn lemma_digits_end_sub(s: Seq<char>, j: int, e: int, a: int)
    requires
        0 <= j,
        0 <= a,
        j + a <= e <= s.len(),
        digits_end(s, j + a) <= e,
    ensures
        digits_end(s.subrange(j, e), a) == digits_end(s, j + a) - j,
    decreases e - (j + a),
{
    let raw = s.subrange(j, e);
    if j + a < e {
        assert(raw[a] == s[j + a]);
        if is_digit(s[j + a]) {
            lemma_digits_end_sub(s, j, e, a + 1);
        }
    } else {
        lemma_digits_end(s, j + a);
    }
}

/// The number token read at `j`, read again on its own, is all of itself.
proof fn lemma_number_token_sub(s: Seq<char>, j: int)
    requires
        0 <= j < s.len(),
    ensures
        number_token(s.subrange(j, number_token(s, j).0), 0) == (
            number_token(s, j).0 - j,
            number_token(s, j).1,
        ),
{
    let e = number_token(s, j).0;
    lemma_number_token(s, j);
    let raw = s.subrange(j, e);
    let i0 = if j < s.len() && s[j] == '-' {
        j + 1
    } else {
        j
    };
    lemma_digits_end(s, i0);
    let i1 = digits_end(s, i0);
    let dot = i1 < s.len() && s[i1] == '.';
    if dot {
        lemma_digits_end(s, i1 + 1);
    }
    let i2 = if dot {
        digits_end(s, i1 + 1)
    } else {
        i1
    };
    let ex = i2 < s.len() && is_exp_mark(s[i2]);
    let i3 = if i2 + 1 < s.len() && (s[i2 + 1] == '+' || s[i2 + 1] == '-') {
        i2 + 2
    } else {
        i2 + 1
    };
    if ex {
        lemma_digits_end(s, i3);
    }
    assert(i0 <= i1 <= i2 <= e);
    if j < e {
        assert(raw[0] == s[j]);
    }
    lemma_digits_end_sub(s, j, e, i0 - j);
    if i1 < e {
        assert(raw[i1 - j] == s[i1]);
    }
    if dot {
        lemma_digits_end_sub(s, j, e, i1 + 1 - j);
    }
    if i2 < e {
        assert(raw[i2 - j] == s[i2]);
    }
    if ex {
        if i2 + 1 < e {
            assert(raw[i2 + 1 - j] == s[i2 + 1]);
        }
        lemma_digits_end_sub(s, j, e, i3 - j);
    }
}

/// A number the parser reads at a sign or digit is well formed.
proof fn lemma_parse_number_wf(s: Seq<char>, j: int)
    requires
        0 <= j < s.len(),
        s[j] == '-' || is_digit(s[j]),
    ensures
        parse_number(s, j) matches Ok((v, e)) ==> json_wf(v),
{
    let e = number_token(s, j).0;
    lemma_number_token(s, j);
    lemma_number_token_sub(s, j);
    if number_token(s, j).1 {
        assert(s.subrange(j, e)[0] == s[j]);
    }
}

proof fn lemma_all_items_wf(items: Seq<Json>, k: int)
    requires
        0 <= k <= items.len(),
        forall|j: int| 0 <= j < k ==> json_wf(#[trigger] items[j]),
    ensures
        items_wf(items, k),
    decreases k,
{
    if k > 0 {
        lemma_all_items_wf(items, k - 1);
    }
}

proof fn lemma_all_props_wf(ps: Seq<(Seq<char>, Json)>, k: int)
    requires
        0 <= k <= ps.len(),
        forall|j: int| 0 <= j < k ==> json_wf(#[trigger] ps[j].1),
    ensures
        props_wf(ps, k),
    decreases k,
{
    if k > 0 {
        lemma_all_props_wf(ps, k - 1);
    }
}

/// A value the parser reads at `i` is well formed.
pub proof fn lemma_parse_value_wf(s: Seq<char>, i: int)
    ensures
        parse_value(s, i) matches Ok((v, e)) ==> json_wf(v),
    decreases s.len() - i, 3int,
{
    if 0 <= i <= s.len() {
        lemma_skip_ws(s, i);
        let j = skip_ws(s, i);
        if j < s.len() {
            let c = s[j];
            if c == '{' {
                lemma_parse_object_wf(s, j);
            } else if c == '[' {
                lemma_parse_array_wf(s, j);
            } else if c == '-' || is_digit(c) {
                lemma_parse_number_wf(s, j);
            }
        }
    }
}

proof fn lemma_parse_object_wf(s: Seq<char>, open: int)
    requires
        0 <= open < s.len(),
    ensures
        parse_object(s, open) matches Ok((v, e)) ==> json_wf(v),
    decreases s.len() - open, 2int,
{
    lemma_skip_ws(s, open + 1);
    let k = skip_ws(s, open + 1);
    if !(k < s.len() && s[k] == '}') {
        lemma_object_members_wf(s, open, k, Seq::empty());
    }
}

proof fn lemma_object_members_wf(s: Seq<char>, open: int, k: int, acc: Seq<(Seq<char>, Json)>)
    requires
        forall|j: int| 0 <= j < acc.len() ==> json_wf(#[trigger] acc[j].1),
    ensures
        object_members(s, open, k, acc) matches Ok((v, e)) ==> json_wf(v),
    decreases s.len() - k, 1int,
{
    if 0 <= k < s.len() {
        let k2 = skip_ws(s, k);
        if k <= k2 < s.len() {
            if s[k2] == '}' {
                lemma_all_props_wf(acc, acc.len() as int);
            } else {
                match super::grammar::parse_key(s, k2) {
                    Err(_) => {},
                    Ok((key, k3)) => {
                        let k4 = skip_ws(s, k3);
                        if k2 < k3 && k3 <= k4 < s.len() && s[k4] == ':' {
                            lemma_parse_value_wf(s, k4 + 1);
                            match parse_value(s, k4 + 1) {
                                Err(_) => {},
                                Ok((v, k5)) => {
                                    let acc2 = acc.push((key, v));
                                    assert forall|j: int| 0 <= j < acc2.len() implies json_wf(
                                        #[trigger] acc2[j].1,
                                    ) by {
                                        if j < acc.len() {
                                            assert(acc2[j] == acc[j]);
                                        }
                                    }
                                    lemma_all_props_wf(acc2, acc2.len() as int);
                                    let k6 = skip_ws(s, k5);
                                    if 0 <= k6 < s.len() && s[k6] == ',' {
                                        lemma_skip_ws(s, k6 + 1);
                                        let k7 = skip_ws(s, k6 + 1);
                                        if !(k7 < s.len() && s[k7] == '}') && k7 > k {
                                            lemma_object_members_wf(s, open, k7, acc2);
                                        }
                                    }
                                },
                            }
                        }
                    },
                }
            }
        }
    }
}

proof fn lemma_parse_array_wf(s: Seq<char>, open: int)
    requires
        0 <= open < s.len(),
    ensures
        parse_array(s, open) matches Ok((v, e)) ==> json_wf(v),
    decreases s.len() - open, 2int,
{
    lemma_skip_ws(s, open + 1);
    let k = skip_ws(s, open + 1);
    if !(k < s.len() && s[k] == ']') {
        lemma_array_items_wf(s, open, k, Seq::empty());
    }
}

proof fn lemma_array_items_wf(s: Seq<char>, open: int, k: int, acc: Seq<Json>)
    requires
        forall|j: int| 0 <= j < acc.len() ==> json_wf(#[trigger] acc[j]),
    ensures
        array_items(s, open, k, acc) matches Ok((v, e)) ==> json_wf(v),
    decreases s.len() - k, 4int,
{
    if 0 <= k < s.len() {
        let k2 = skip_ws(s, k);
        if k <= k2 < s.len() {
            if s[k2] == ']' {
                lemma_all_items_wf(acc, acc.len() as int);
            } else {
                lemma_parse_value_wf(s, k2);
                match parse_value(s, k2) {
                    Err(_) => {},
                    Ok((v, k5)) => {
                        let acc2 = acc.push(v);
                        assert forall|j: int| 0 <= j < acc2.len() implies json_wf(
                            #[trigger] acc2[j],
                        ) by {
                            if j < acc.len() {
                                assert(acc2[j] == acc[j]);
                            }
                        }
                        lemma_all_items_wf(acc2, acc2.len() as int);
                        let k6 = skip_ws(s, k5);
                        if 0 <= k6 < s.len() && s[k6] == ',' {
                            lemma_skip_ws(s, k6 + 1);
                            let k7 = skip_ws(s, k6 + 1);
                            if !(k7 < s.len() && s[k7] == ']') && k7 > k {
                                lemma_array_items_wf(s, open, k7, acc2);
                            }
                        }
                    },
                }
            }
        }
    }
}

/// Every value a whole document parses to is well formed.
pub proof fn law_parsed_is_wf(s: Seq<char>)
    ensures
        parse_document(s) matches Ok(v) ==> json_wf(v),
{
    lemma_parse_value_wf(s, skip_ws(s, 0));
}


// ---------------------------------------------------------------------
// Compact text holds no line break

/// Whether `t` holds neither a newline nor a carriage return.
pub open spec fn no_line_break(t: Seq<char>) -> bool {
    forall|i: int| 0 <= i < t.len() ==> #[trigger] t[i] != '\n' && t[i] != '\r'
}

proof fn lemma_no_break_add(a: Seq<char>, b: Seq<char>)
    requires
        no_line_break(a),
        no_line_break(b),
    ensures
        no_line_break(a + b),
{
    assert forall|i: int| 0 <= i < (a + b).len() implies #[trigger] (a + b)[i] != '\n' && (a
        + b)[i] != '\r' by {
        if i < a.len() {
            assert((a + b)[i] == a[i]);
        } else {
            assert((a + b)[i] == b[i - a.len()]);
        }
    }
}

proof fn lemma_escape_chars_no_break(t: Seq<char>, esc: bool)
    ensures
        no_line_break(escape_chars(t, esc)),
    decreases t.len(),
{
    if t.len() > 0 {
        lemma_escape_chars_no_break(t.drop_last(), esc);
        let c = t.last();
        if (c as u32) < 0x20 {
            let d1 = (c as u32 / 16) as nat;
            let d2 = (c as u32 % 16) as nat;
            assert(hex_char(d1) != '\n' && hex_char(d1) != '\r');
            assert(hex_char(d2) != '\n' && hex_char(d2) != '\r');
        }
        assert(no_line_break(escape_char(c, esc)));
        lemma_no_break_add(escape_chars(t.drop_last(), esc), escape_char(c, esc));
    }
}

proof fn lemma_quoted_no_break(t: Seq<char>, esc: bool)
    ensures
        no_line_break(quoted(t, esc)),
{
    lemma_escape_chars_no_break(t, esc);
    lemma_no_break_add(seq!['"'], escape_chars(t, esc));
    lemma_no_break_add(seq!['"'] + escape_chars(t, esc), seq!['"']);
}

/// A well-formed number literal is made of digits, signs, `.` and `e`.
proof fn lemma_number_no_break(raw: Seq<char>)
    requires
        number_ok(raw),
    ensures
        no_line_break(raw),
{
    let i0: int = if raw[0] == '-' {
        1
    } else {
        0
    };
    lemma_digits_end(raw, i0);
    let i1 = digits_end(raw, i0);
    let dot = i1 < raw.len() && raw[i1] == '.';
    if dot {
        lemma_digits_end(raw, i1 + 1);
    }
    let i2 = if dot {
        digits_end(raw, i1 + 1)
    } else {
        i1
    };
    let ex = i2 < raw.len() && is_exp_mark(raw[i2]);
    let i3 = if i2 + 1 < raw.len() && (raw[i2 + 1] == '+' || raw[i2 + 1] == '-') {
        i2 + 2
    } else {
        i2 + 1
    };
    if ex {
        lemma_digits_end(raw, i3);
    }
    assert forall|i: int| 0 <= i < raw.len() implies #[trigger] raw[i] != '\n' && raw[i]
        != '\r' by {
        if i < i0 {
        } else if i < i1 {
            assert(is_digit(raw[i]));
        } else if dot && i == i1 {
        } else if i < i2 {
            assert(is_digit(raw[i]));
        } else if ex && i == i2 {
        } else if ex && i < i3 {
        } else {
            assert(is_digit(raw[i]));
        }
    }
}

/// The compact text of a well-formed value holds no line break.
pub proof fn lemma_minify_no_break(v: Json, esc: bool)
    requires
        json_wf(v),
    ensures
        no_line_break(minify_json(v, esc)),
    decreases v, 1int,
{
    match v {
        Json::Null => {},
        Json::Bool(b) => {},
        Json::Number(raw) => lemma_number_no_break(raw),
        Json::Str(t) => lemma_quoted_no_break(t, esc),
        Json::Array(items) => {
            lemma_minify_items_no_break(items, items.len() as int, esc);
            lemma_no_break_add(seq!['['], minify_items(items, items.len() as int, esc));
            lemma_no_break_add(seq!['['] + minify_items(items, items.len() as int, esc), seq![']']);
        },
        Json::Object(ps) => {
            lemma_minify_props_no_break(ps, ps.len() as int, esc);
            lemma_no_break_add(seq!['{'], minify_props(ps, ps.len() as int, esc));
            lemma_no_break_add(seq!['{'] + minify_props(ps, ps.len() as int, esc), seq!['}']);
        },
    }
}

proof fn lemma_minify_items_no_break(items: Seq<Json>, k: int, esc: bool)
    requires
        items_wf(items, items.len() as int),
    ensures
        no_line_break(minify_items(items, k, esc)),
    decreases items, 0int, k,
{
    if 0 < k <= items.len() {
        lemma_minify_items_no_break(items, k - 1, esc);
        lemma_items_wf(items, items.len() as int, k - 1);
        lemma_minify_no_break(items[k - 1], esc);
        let a = minify_items(items, k - 1, esc);
        let b = minify_json(items[k - 1], esc);
        lemma_no_break_add(a, b);
        lemma_no_break_add(a + b, comma_if(k < items.len()));
    }
}

proof fn lemma_minify_props_no_break(ps: Seq<(Seq<char>, Json)>, k: int, esc: bool)
    requires
        props_wf(ps, ps.len() as int),
    ensures
        no_line_break(minify_props(ps, k, esc)),
    decreases ps, 0int, k,
{
    if 0 < k <= ps.len() {
        lemma_minify_props_no_break(ps, k - 1, esc);
        lemma_props_wf(ps, ps.len() as int, k - 1);
        lemma_minify_no_break(ps[k - 1].1, esc);
        lemma_quoted_no_break(ps[k - 1].0, esc);
        let a = minify_props(ps, k - 1, esc);
        let q = quoted(ps[k - 1].0, esc);
        let b = minify_json(ps[k - 1].1, esc);
        lemma_no_break_add(a, q);
        lemma_no_break_add(a + q, seq![':']);
        lemma_no_break_add(a + q + seq![':'], b);
        lemma_no_break_add(a + q + seq![':'] + b, comma_if(k < ps.len()));
    }
}

// ---------------------------------------------------------------------
// Round trips of parsed documents

/// The compact text of a parsed document parses back to the same value
/// and holds no line break.
pub proof fn law_parsed_minify_then_parse(s: Seq<char>, esc: bool)
    requires
        parse_document(s) is Ok,
    ensures
        parse_document(minify_json(parse_document(s)->Ok_0, esc)) == parse_document(s),
        no_line_break(minify_json(parse_document(s)->Ok_0, esc)),
{
    law_parsed_is_wf(s);
    law_minify_then_parse(parse_document(s)->Ok_0, esc);
    lemma_minify_no_break(parse_document(s)->Ok_0, esc);
}

/// The pretty text of a parsed document, at any indentation, parses back
/// to the same value, its members sorted by key where keys are sorted.
pub proof fn law_parsed_format_then_parse(s: Seq<char>, indent_spaces: i32, sort_keys: bool, esc: bool)
    requires
        parse_document(s) is Ok,
    ensures
        parse_document(format_json(parse_document(s)->Ok_0, 0, indent_spaces, sort_keys, esc))
            == Ok::<Json, (Seq<char>, nat, nat)>(sorted_json(parse_document(s)->Ok_0, sort_keys)),
{
    law_parsed_is_wf(s);
    law_sorted_format_then_parse(parse_document(s)->Ok_0, indent_spaces, sort_keys, esc);
}

/// Unescaping the stringified text of a parsed document gives that
/// document pretty printed with two spaces.
pub proof fn law_parsed_stringify_then_unescape(s: Seq<char>, esc: bool)
    requires
        parse_document(s) is Ok,
    ensures
        unescaped(quoted(minify_json(parse_document(s)->Ok_0, false), esc)) == format_json(
            parse_document(s)->Ok_0,
            0,
            2,
            false,
            false,
        ),
{
    law_parsed_is_wf(s);
    law_stringify_then_unescape(parse_document(s)->Ok_0, esc);
}

} // verus!
