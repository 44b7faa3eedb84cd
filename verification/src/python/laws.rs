//! The Python rendering of a value reads back as that value, also for
//! every parsed document whose texts avoid the `\xNN` characters.

use vstd::prelude::*;
use crate::text::{is_digit, is_ws, first_non_ws, last_non_ws_end, trim_seq, is_ascii_alpha};
use crate::json::value::Json;
use crate::json::format::{py_escape_char, py_escape_chars, py_quoted, python_json, python_items,
    python_props, comma_if, repeat, sat_add};
use crate::json::grammar::{number_token, digits_end, lemma_digits_end, is_exp_mark};
use crate::json::laws::{occurs_at, lemma_occurs_split, lemma_occurs_index, lemma_occurs_prefix,
    number_ok, json_wf, items_wf, props_wf};
use crate::json::grammar::parse_document;
use crate::json::laws_parsed::law_parsed_is_wf;
use crate::python::{py_string, py_string_body, py_simple_escape, py_number, number_end,
    is_number_char, without_underscores, name_end, is_name_char, keyword_value, py_skip,
    comment_end, py_value, py_list, list_items, py_dict, dict_members, py_key, alphabetic,
    is_string_prefix, python_source, python_literal, first_eq, is_target_char,
    lemma_py_value_skip};

verus! {

/// A character the Python rendering writes so that it reads back: all but
/// the control characters written as `\xNN`.
pub open spec fn py_char_ok(c: char) -> bool {
    !((c as u32) < 0x20 && c != '\t' && c != '\n' && c != '\r' && c != '\u{08}' && c != '\u{0C}')
}

pub open spec fn py_text_ok(t: Seq<char>) -> bool {
    forall|i: int| 0 <= i < t.len() ==> py_char_ok(#[trigger] t[i])
}

/// A value whose Python rendering reads back: valid number literals, and
/// strings and keys of characters that are not written as `\xNN`.
pub open spec fn py_wf(v: Json) -> bool
    decreases v, 0int,
{
    match v {
        Json::Number(raw) => number_ok(raw),
        Json::Str(t) => py_text_ok(t),
        Json::Array(items) => py_items_wf(items, items.len() as int),
        Json::Object(ps) => py_props_wf(ps, ps.len() as int),
        _ => true,
    }
}

pub open spec fn py_items_wf(items: Seq<Json>, k: int) -> bool
    decreases items, k,
{
    if k <= 0 || k > items.len() {
        true
    } else {
        py_items_wf(items, k - 1) && py_wf(items[k - 1])
    }
}

pub open spec fn py_props_wf(ps: Seq<(Seq<char>, Json)>, k: int) -> bool
    decreases ps, k,
{
    if k <= 0 || k > ps.len() {
        true
    } else {
        py_props_wf(ps, k - 1) && py_text_ok(ps[k - 1].0) && py_wf(ps[k - 1].1)
    }
}

pub proof fn lemma_py_items_wf(items: Seq<Json>, k: int, j: int)
    requires
        py_items_wf(items, k),
        0 <= j < k <= items.len(),
    ensures
        py_wf(items[j]),
    decreases k,
{
    if j < k - 1 {
        lemma_py_items_wf(items, k - 1, j);
    }
}

pub proof fn lemma_py_props_wf(ps: Seq<(Seq<char>, Json)>, k: int, j: int)
    requires
        py_props_wf(ps, k),
        0 <= j < k <= ps.len(),
    ensures
        py_text_ok(ps[j].0),
        py_wf(ps[j].1),
    decreases k,
{
    if j < k - 1 {
        lemma_py_props_wf(ps, k - 1, j);
    }
}

// ---------------------------------------------------------------------
// Strings

pub proof fn lemma_py_escape_chars_add(a: Seq<char>, b: Seq<char>)
    ensures
        py_escape_chars(a + b) == py_escape_chars(a) + py_escape_chars(b),
    decreases b.len(),
{
    if b.len() == 0 {
        assert(a + b =~= a);
        assert(py_escape_chars(a) + py_escape_chars(b) =~= py_escape_chars(a));
    } else {
        lemma_py_escape_chars_add(a, b.drop_last());
        assert((a + b).drop_last() =~= a + b.drop_last());
        assert(py_escape_chars(a + b) =~= py_escape_chars(a) + py_escape_chars(b));
    }
}

pub proof fn lemma_py_escape_chars_around(t: Seq<char>, k: int)
    requires
        0 <= k < t.len(),
    ensures
        py_escape_chars(t) == py_escape_chars(t.take(k)) + py_escape_char(t[k]) + py_escape_chars(
            t.skip(k + 1),
        ),
        py_escape_chars(t.take(k + 1)) == py_escape_chars(t.take(k)) + py_escape_char(t[k]),
{
    lemma_py_escape_chars_add(t.take(k + 1), t.skip(k + 1));
    assert(t.take(k + 1) + t.skip(k + 1) =~= t);
    assert(t.take(k + 1).drop_last() =~= t.take(k));
}

/// Reading one written character back.
pub proof fn lemma_py_chunk(s: Seq<char>, p: int, c: char, acc: Seq<char>)
    requires
        py_char_ok(c),
        0 <= p,
        p + py_escape_char(c).len() < s.len(),
        forall|m: int| 0 <= m < py_escape_char(c).len() ==> s[p + m] == py_escape_char(c)[m],
    ensures
        py_string_body(s, '\'', false, p, acc) == py_string_body(
            s,
            '\'',
            false,
            p + py_escape_char(c).len(),
            acc.push(c),
        ),
{
    let chunk = py_escape_char(c);
    assert(s[p] == chunk[0]);
    if chunk.len() == 2 {
        assert(s[p + 1] == chunk[1]);
    } else {
        assert(chunk == seq![c]);
    }
}

/// Reading the rendering of `t` from its `k`-th character on gives `t`.
pub proof fn lemma_py_scan(s: Seq<char>, q: int, t: Seq<char>, k: int)
    requires
        occurs_at(s, q, py_quoted(t)),
        py_text_ok(t),
        0 <= k <= t.len(),
    ensures
        py_string_body(s, '\'', false, q + 1 + py_escape_chars(t.take(k)).len(), t.take(k)) == Ok::<
            (Seq<char>, int),
            crate::python::ParseError,
        >((t, q + py_quoted(t).len())),
    decreases t.len() - k,
{
    let e = py_escape_chars(t);
    let p = q + 1 + py_escape_chars(t.take(k)).len();
    lemma_occurs_split(s, q, seq!['\''] + e, seq!['\'']);
    lemma_occurs_split(s, q, seq!['\''], e);
    if k == t.len() {
        assert(t.take(k) =~= t);
        lemma_occurs_index(s, q + 1 + e.len(), seq!['\''], 0);
    } else {
        let c = t[k];
        let chunk = py_escape_char(c);
        lemma_py_escape_chars_around(t, k);
        lemma_occurs_split(s, q + 1, py_escape_chars(t.take(k)) + chunk, py_escape_chars(t.skip(k + 1)));
        lemma_occurs_split(s, q + 1, py_escape_chars(t.take(k)), chunk);
        assert forall|m: int| 0 <= m < chunk.len() implies s[p + m] == chunk[m] by {
            lemma_occurs_index(s, p, chunk, m);
        }
        lemma_occurs_index(s, q + 1 + e.len(), seq!['\''], 0);
        lemma_py_chunk(s, p, c, t.take(k));
        assert(t.take(k).push(c) =~= t.take(k + 1));
        lemma_py_scan(s, q, t, k + 1);
    }
}

/// A rendered string not followed by a quote reads back.
pub proof fn lemma_py_string_ok(s: Seq<char>, q: int, t: Seq<char>)
    requires
        occurs_at(s, q, py_quoted(t)),
        py_text_ok(t),
        q + py_quoted(t).len() < s.len() ==> s[q + py_quoted(t).len()] != '\'',
    ensures
        py_string(s, q) == Ok::<(Seq<char>, int), crate::python::ParseError>(
            (t, q + py_quoted(t).len()),
        ),
{
    let e = py_escape_chars(t);
    lemma_occurs_split(s, q, seq!['\''] + e, seq!['\'']);
    lemma_occurs_split(s, q, seq!['\''], e);
    lemma_occurs_index(s, q, seq!['\''], 0);
    lemma_occurs_index(s, q + 1 + e.len(), seq!['\''], 0);
    lemma_py_scan(s, q, t, 0);
    assert(t.take(0) =~= Seq::<char>::empty());
    if t.len() > 0 {
        lemma_py_escape_chars_around(t, 0);
        lemma_occurs_split(s, q + 1, py_escape_chars(t.take(0)) + py_escape_char(t[0]), py_escape_chars(t.skip(1)));
        lemma_occurs_split(s, q + 1, py_escape_chars(t.take(0)), py_escape_char(t[0]));
        lemma_occurs_index(s, q + 1, py_escape_char(t[0]), 0);
        assert(py_escape_chars(t.take(0)).len() == 0);
        assert(s[q + 1] != '\'');
    } else {
        assert(e.len() == 0);
    }
}

// ---------------------------------------------------------------------
// Numbers and keywords

/// Every character of a valid number literal belongs to a number token
/// and none is `_`.
pub proof fn lemma_number_chars(raw: Seq<char>)
    requires
        number_ok(raw),
    ensures
        forall|i: int| 0 <= i < raw.len() ==> is_number_char(#[trigger] raw[i]) && raw[i] != '_',
{
    let s = raw;
    let i0: int = if 0 < s.len() && s[0] == '-' {
        1
    } else {
        0
    };
    lemma_digits_end(s, i0);
    let i1 = digits_end(s, i0);
    let i2 = if i1 < s.len() && s[i1] == '.' {
        lemma_digits_end(s, i1 + 1);
        digits_end(s, i1 + 1)
    } else {
        i1
    };
    if i2 < s.len() && is_exp_mark(s[i2]) {
        let i3 = if i2 + 1 < s.len() && (s[i2 + 1] == '+' || s[i2 + 1] == '-') {
            i2 + 2
        } else {
            i2 + 1
        };
        lemma_digits_end(s, i3);
    }
    assert forall|i: int| 0 <= i < raw.len() implies is_number_char(#[trigger] raw[i]) && raw[i] != '_' by {
        if i < i0 {
        } else if i < i1 {
            assert(is_digit(s[i]));
        } else if i < i2 {
            if i > i1 {
                assert(is_digit(s[i]));
            }
        } else {
            if i > i2 + 1 || (i == i2 + 1 && !(s[i2 + 1] == '+' || s[i2 + 1] == '-')) {
                assert(is_digit(s[i]));
            }
        }
    }
}

pub proof fn lemma_without_underscores(t: Seq<char>)
    requires
        forall|i: int| 0 <= i < t.len() ==> #[trigger] t[i] != '_',
    ensures
        without_underscores(t) == t,
    decreases t.len(),
{
    if t.len() > 0 {
        lemma_without_underscores(t.drop_last());
        assert(t.drop_last().push(t.last()) =~= t);
    }
}

pub proof fn lemma_number_end_at(s: Seq<char>, j: int, raw: Seq<char>, a: int)
    requires
        occurs_at(s, j, raw),
        forall|i: int| 0 <= i < raw.len() ==> is_number_char(#[trigger] raw[i]),
        j + raw.len() < s.len() ==> !is_number_char(s[j + raw.len()]),
        0 <= a <= raw.len(),
    ensures
        number_end(s, j + a) == j + raw.len(),
    decreases raw.len() - a,
{
    if a < raw.len() {
        lemma_occurs_index(s, j, raw, a);
        lemma_number_end_at(s, j, raw, a + 1);
    }
}

/// A valid number literal followed by something else reads back.
pub proof fn lemma_py_number_ok(s: Seq<char>, j: int, raw: Seq<char>)
    requires
        occurs_at(s, j, raw),
        number_ok(raw),
        j + raw.len() < s.len() ==> !is_number_char(s[j + raw.len()]),
    ensures
        py_number(s, j) == Ok::<(Json, int), crate::python::ParseError>(
            (Json::Number(raw), j + raw.len()),
        ),
{
    lemma_number_chars(raw);
    lemma_number_end_at(s, j, raw, 0);
    assert(s.subrange(j, j + raw.len()) == raw);
    lemma_without_underscores(raw);
}

pub proof fn lemma_name_end_at(s: Seq<char>, j: int, w: Seq<char>, a: int)
    requires
        occurs_at(s, j, w),
        forall|i: int| 0 <= i < w.len() ==> is_name_char(#[trigger] w[i]),
        j + w.len() < s.len() ==> !is_name_char(s[j + w.len()]),
        0 <= a <= w.len(),
    ensures
        name_end(s, j + a) == j + w.len(),
    decreases w.len() - a,
{
    if a < w.len() {
        lemma_occurs_index(s, j, w, a);
        lemma_name_end_at(s, j, w, a + 1);
    }
}

/// `None`, `True` and `False` read back as the keywords they are.
pub proof fn lemma_py_keyword(s: Seq<char>, j: int, v: Json)
    requires
        v is Null || v is Bool,
        occurs_at(s, j, python_json(v, 0, 0)),
        j + python_json(v, 0, 0).len() < s.len() ==> !is_name_char(s[j + python_json(v, 0, 0).len()]),
    ensures
        name_end(s, j) == j + python_json(v, 0, 0).len(),
        keyword_value(s.subrange(j, name_end(s, j))) == v,
{
    let w = python_json(v, 0, 0);
    assert forall|i: int| 0 <= i < w.len() implies is_name_char(#[trigger] w[i]) by {
        assert(is_ascii_alpha(w[i]));
    }
    lemma_name_end_at(s, j, w, 0);
    assert(s.subrange(j, j + w.len()) == w);
    reveal_strlit("True");
    reveal_strlit("true");
    reveal_strlit("False");
    reveal_strlit("false");
    reveal_strlit("None");
    match v {
        Json::Null => {
            assert(w =~= "None"@);
            assert(w != "True"@);
            assert(w != "true"@);
            assert(w != "False"@);
            assert(w != "false"@);
        },
        Json::Bool(b) => {
            if b {
                assert(w =~= "True"@);
            } else {
                assert(w =~= "False"@);
                assert(w != "True"@);
                assert(w != "true"@);
            }
        },
        _ => {},
    }
}

// ---------------------------------------------------------------------
// White space

/// Skipping a run of spaces and line feeds that is followed by something
/// else.
pub proof fn lemma_py_skip_run(s: Seq<char>, p: int, run: Seq<char>)
    requires
        occurs_at(s, p, run),
        forall|m: int| 0 <= m < run.len() ==> (#[trigger] run[m] == ' ' || run[m] == '\n'),
        p + run.len() < s.len(),
        !is_ws(s[p + run.len()]),
        s[p + run.len()] != '#',
    ensures
        py_skip(s, p) == p + run.len(),
    decreases run.len(),
{
    if run.len() > 0 {
        lemma_occurs_index(s, p, run, 0);
        assert(seq![run[0]] + run.drop_first() =~= run);
        lemma_occurs_split(s, p, seq![run[0]], run.drop_first());
        lemma_py_skip_run(s, p + 1, run.drop_first());
    } else {
        assert(py_skip(s, p) == p);
    }
}

// ---------------------------------------------------------------------
// Layout of the rendering

/// A character that can begin a rendered value.
pub open spec fn py_starts(c: char) -> bool {
    c == '[' || c == '{' || c == '\'' || c == 'N' || c == 'T' || c == 'F' || c == '-' || is_digit(c)
}

/// What may follow a rendered value: the end, a comma or a line feed.
pub open spec fn py_end_ok(s: Seq<char>, p: int) -> bool {
    p == s.len() || (0 <= p < s.len() && (s[p] == ',' || s[p] == '\n'))
}

pub proof fn lemma_python_first(v: Json, cur: nat, ind: nat)
    requires
        py_wf(v),
    ensures
        python_json(v, cur, ind).len() > 0,
        py_starts(python_json(v, cur, ind)[0]),
{
}

pub proof fn lemma_repeat_spaces(n: nat)
    ensures
        forall|m: int| 0 <= m < n ==> #[trigger] repeat(' ', n)[m] == ' ',
        repeat(' ', n).len() == n,
{
}

pub proof fn lemma_python_items_prefix(items: Seq<Json>, k: int, n: int, cur: nat, ind: nat)
    requires
        0 <= k <= n <= items.len(),
    ensures
        python_items(items, k, cur, ind).is_prefix_of(python_items(items, n, cur, ind)),
    decreases n - k,
{
    if k < n {
        lemma_python_items_prefix(items, k, n - 1, cur, ind);
        let a = python_items(items, k, cur, ind);
        let b = python_items(items, n - 1, cur, ind);
        let c = python_items(items, n, cur, ind);
        assert(a =~= c.subrange(0, a.len() as int)) by {
            assert forall|m: int| 0 <= m < a.len() implies a[m] == c[m] by {
                assert(a[m] == b[m]);
            }
        }
    }
}

pub proof fn lemma_python_props_prefix(ps: Seq<(Seq<char>, Json)>, k: int, n: int, cur: nat, ind: nat)
    requires
        0 <= k <= n <= ps.len(),
    ensures
        python_props(ps, k, cur, ind).is_prefix_of(python_props(ps, n, cur, ind)),
    decreases n - k,
{
    if k < n {
        lemma_python_props_prefix(ps, k, n - 1, cur, ind);
        let a = python_props(ps, k, cur, ind);
        let b = python_props(ps, n - 1, cur, ind);
        let c = python_props(ps, n, cur, ind);
        assert(a =~= c.subrange(0, a.len() as int)) by {
            assert forall|m: int| 0 <= m < a.len() implies a[m] == c[m] by {
                assert(a[m] == b[m]);
            }
        }
    }
}

/// One rendered item: indentation, the value, an optional comma, a line feed.
pub proof fn lemma_ppiece(items: Seq<Json>, cur: nat, ind: nat, s: Seq<char>, base: int, k: int)
    requires
        py_items_wf(items, items.len() as int),
        0 <= k < items.len(),
        occurs_at(s, base, python_items(items, k + 1, cur, ind)),
    ensures
        ({
            let child = sat_add(cur, ind);
            let p = base + python_items(items, k, cur, ind).len();
            let q = p + child;
            let pk = python_json(items[k], child, ind);
            let e = q + pk.len();
            let c = comma_if(k + 1 < items.len()).len();
            &&& occurs_at(s, q, pk)
            &&& py_wf(items[k])
            &&& py_starts(s[q])
            &&& py_skip(s, p) == q
            &&& (k + 1 < items.len() ==> s[e] == ',')
            &&& s[e + c] == '\n'
            &&& base + python_items(items, k + 1, cur, ind).len() == e + c + 1
        }),
{
    let n = items.len() as int;
    let child = sat_add(cur, ind);
    let pre = python_items(items, k, cur, ind);
    let p = base + pre.len();
    let q = p + child;
    let pk = python_json(items[k], child, ind);
    let e = q + pk.len();
    assert(python_items(items, k + 1, cur, ind) == pre + repeat(' ', child) + pk + comma_if(k + 1 < n)
        + seq!['\n']);
    lemma_occurs_split(s, base, pre + repeat(' ', child) + pk + comma_if(k + 1 < n), seq!['\n']);
    lemma_occurs_split(s, base, pre + repeat(' ', child) + pk, comma_if(k + 1 < n));
    lemma_occurs_split(s, base, pre + repeat(' ', child), pk);
    lemma_occurs_split(s, base, pre, repeat(' ', child));
    lemma_py_items_wf(items, n, k);
    lemma_python_first(items[k], child, ind);
    lemma_occurs_index(s, q, pk, 0);
    lemma_repeat_spaces(child);
    lemma_py_skip_run(s, p, repeat(' ', child));
    lemma_occurs_index(s, e + comma_if(k + 1 < n).len(), seq!['\n'], 0);
    if k + 1 < n {
        lemma_occurs_index(s, e, comma_if(true), 0);
    }
}

/// Where item `k` of a rendered list sits, and what follows it.
pub proof fn lemma_pitem_window(items: Seq<Json>, cur: nat, ind: nat, s: Seq<char>, open: int, k: int)
    requires
        py_items_wf(items, items.len() as int),
        0 <= k < items.len(),
        occurs_at(s, open, python_json(Json::Array(items), cur, ind)),
    ensures
        ({
            let child = sat_add(cur, ind);
            let q = open + 2 + python_items(items, k, cur, ind).len() + child;
            let e = q + python_json(items[k], child, ind).len();
            let whole = python_json(Json::Array(items), cur, ind);
            &&& occurs_at(s, q, python_json(items[k], child, ind))
            &&& py_wf(items[k])
            &&& py_starts(s[q])
            &&& py_skip(s, open + 2 + python_items(items, k, cur, ind).len()) == q
            &&& e < s.len()
            &&& (k + 1 < items.len() ==> s[e] == ',' && s[e + 1] == '\n' && py_skip(s, e + 2)
                == open + 2 + python_items(items, k + 1, cur, ind).len() + child && open + 2
                + python_items(items, k + 1, cur, ind).len() == e + 2)
            &&& (k + 1 == items.len() ==> s[e] == '\n' && py_skip(s, e + 1) == open + whole.len() - 1
                && s[open + whole.len() - 1] == ']')
        }),
{
    let n = items.len() as int;
    let child = sat_add(cur, ind);
    let whole = python_json(Json::Array(items), cur, ind);
    let all = python_items(items, n, cur, ind);
    let base = open + 2;
    let tail = repeat(' ', cur) + seq![']'];
    assert(whole == seq!['[', '\n'] + all + tail);
    lemma_occurs_split(s, open, seq!['[', '\n'] + all, tail);
    lemma_occurs_split(s, open, seq!['[', '\n'], all);
    lemma_occurs_split(s, base + all.len(), repeat(' ', cur), seq![']']);
    lemma_python_items_prefix(items, k + 1, n, cur, ind);
    lemma_occurs_prefix(s, base, python_items(items, k + 1, cur, ind), all);
    lemma_ppiece(items, cur, ind, s, base, k);
    if k + 1 < n {
        lemma_python_items_prefix(items, k + 2, n, cur, ind);
        lemma_occurs_prefix(s, base, python_items(items, k + 2, cur, ind), all);
        lemma_ppiece(items, cur, ind, s, base, k + 1);
    } else {
        lemma_occurs_index(s, base + all.len() + cur, seq![']'], 0);
        lemma_repeat_spaces(cur);
        lemma_py_skip_run(s, base + all.len(), repeat(' ', cur));
    }
}

/// One rendered member: indentation, `'key': value`, an optional comma, a
/// line feed.
pub proof fn lemma_pmember(ps: Seq<(Seq<char>, Json)>, cur: nat, ind: nat, s: Seq<char>, base: int, k: int)
    requires
        py_props_wf(ps, ps.len() as int),
        0 <= k < ps.len(),
        occurs_at(s, base, python_props(ps, k + 1, cur, ind)),
    ensures
        ({
            let child = sat_add(cur, ind);
            let p = base + python_props(ps, k, cur, ind).len();
            let q = p + child;
            let qk = py_quoted(ps[k].0);
            let vpos = q + qk.len() + 2;
            let pv = python_json(ps[k].1, child, ind);
            let e = vpos + pv.len();
            let c = comma_if(k + 1 < ps.len()).len();
            &&& occurs_at(s, q, qk)
            &&& s[q] == '\''
            &&& s[q + qk.len()] == ':'
            &&& s[q + qk.len() + 1] == ' '
            &&& occurs_at(s, vpos, pv)
            &&& py_text_ok(ps[k].0)
            &&& py_wf(ps[k].1)
            &&& py_starts(s[vpos])
            &&& py_skip(s, p) == q
            &&& (k + 1 < ps.len() ==> s[e] == ',')
            &&& s[e + c] == '\n'
            &&& base + python_props(ps, k + 1, cur, ind).len() == e + c + 1
        }),
{
    let n = ps.len() as int;
    let child = sat_add(cur, ind);
    let pre = python_props(ps, k, cur, ind);
    let p = base + pre.len();
    let q = p + child;
    let qk = py_quoted(ps[k].0);
    let pv = python_json(ps[k].1, child, ind);
    let vpos = q + qk.len() + 2;
    let e = vpos + pv.len();
    assert(python_props(ps, k + 1, cur, ind) == pre + repeat(' ', child) + qk + seq![':', ' '] + pv
        + comma_if(k + 1 < n) + seq!['\n']);
    lemma_occurs_split(s, base, pre + repeat(' ', child) + qk + seq![':', ' '] + pv + comma_if(k + 1 < n), seq!['\n']);
    lemma_occurs_split(s, base, pre + repeat(' ', child) + qk + seq![':', ' '] + pv, comma_if(k + 1 < n));
    lemma_occurs_split(s, base, pre + repeat(' ', child) + qk + seq![':', ' '], pv);
    lemma_occurs_split(s, base, pre + repeat(' ', child) + qk, seq![':', ' ']);
    lemma_occurs_split(s, base, pre + repeat(' ', child), qk);
    lemma_occurs_split(s, base, pre, repeat(' ', child));
    lemma_py_props_wf(ps, n, k);
    lemma_python_first(ps[k].1, child, ind);
    lemma_occurs_index(s, q, qk, 0);
    lemma_occurs_index(s, q + qk.len(), seq![':', ' '], 0);
    lemma_occurs_index(s, q + qk.len(), seq![':', ' '], 1);
    lemma_occurs_index(s, vpos, pv, 0);
    lemma_repeat_spaces(child);
    lemma_py_skip_run(s, p, repeat(' ', child));
    lemma_occurs_index(s, e + comma_if(k + 1 < n).len(), seq!['\n'], 0);
    if k + 1 < n {
        lemma_occurs_index(s, e, comma_if(true), 0);
    }
}

/// Where member `k` of a rendered dictionary sits, and what follows it.
pub proof fn lemma_pmember_window(
    ps: Seq<(Seq<char>, Json)>,
    cur: nat,
    ind: nat,
    s: Seq<char>,
    open: int,
    k: int,
)
    requires
        py_props_wf(ps, ps.len() as int),
        0 <= k < ps.len(),
        occurs_at(s, open, python_json(Json::Object(ps), cur, ind)),
    ensures
        ({
            let child = sat_add(cur, ind);
            let p = open + 2 + python_props(ps, k, cur, ind).len();
            let q = p + child;
            let qk = py_quoted(ps[k].0);
            let vpos = q + qk.len() + 2;
            let e = vpos + python_json(ps[k].1, child, ind).len();
            let whole = python_json(Json::Object(ps), cur, ind);
            &&& occurs_at(s, q, qk)
            &&& s[q] == '\''
            &&& s[q + qk.len()] == ':'
            &&& s[q + qk.len() + 1] == ' '
            &&& occurs_at(s, vpos, python_json(ps[k].1, child, ind))
            &&& py_text_ok(ps[k].0)
            &&& py_wf(ps[k].1)
            &&& py_starts(s[vpos])
            &&& py_skip(s, p) == q
            &&& e < s.len()
            &&& (k + 1 < ps.len() ==> s[e] == ',' && s[e + 1] == '\n' && py_skip(s, e + 2) == open
                + 2 + python_props(ps, k + 1, cur, ind).len() + child && open + 2 + python_props(
                ps,
                k + 1,
                cur,
                ind,
            ).len() == e + 2)
            &&& (k + 1 == ps.len() ==> s[e] == '\n' && py_skip(s, e + 1) == open + whole.len() - 1
                && s[open + whole.len() - 1] == '}')
        }),
{
    let n = ps.len() as int;
    let child = sat_add(cur, ind);
    let whole = python_json(Json::Object(ps), cur, ind);
    let all = python_props(ps, n, cur, ind);
    let base = open + 2;
    let tail = repeat(' ', cur) + seq!['}'];
    assert(whole == seq!['{', '\n'] + all + tail);
    lemma_occurs_split(s, open, seq!['{', '\n'] + all, tail);
    lemma_occurs_split(s, open, seq!['{', '\n'], all);
    lemma_occurs_split(s, base + all.len(), repeat(' ', cur), seq!['}']);
    lemma_python_props_prefix(ps, k + 1, n, cur, ind);
    lemma_occurs_prefix(s, base, python_props(ps, k + 1, cur, ind), all);
    lemma_pmember(ps, cur, ind, s, base, k);
    if k + 1 < n {
        lemma_python_props_prefix(ps, k + 2, n, cur, ind);
        lemma_occurs_prefix(s, base, python_props(ps, k + 2, cur, ind), all);
        lemma_pmember(ps, cur, ind, s, base, k + 1);
    } else {
        lemma_occurs_index(s, base + all.len() + cur, seq!['}'], 0);
        lemma_repeat_spaces(cur);
        lemma_py_skip_run(s, base + all.len(), repeat(' ', cur));
    }
}

// ---------------------------------------------------------------------
// Reading the rendering back

/// A character that can begin a rendered value is not skipped.
pub proof fn lemma_py_skip_at_start(s: Seq<char>, i: int)
    requires
        0 <= i < s.len(),
        py_starts(s[i]) || s[i] == ',' || s[i] == ':' || s[i] == ']' || s[i] == '}',
    ensures
        py_skip(s, i) == i,
{
}

pub proof fn lemma_python_parses(v: Json, cur: nat, ind: nat, s: Seq<char>, i: int)
    requires
        py_wf(v),
        occurs_at(s, i, python_json(v, cur, ind)),
        py_end_ok(s, i + python_json(v, cur, ind).len()),
    ensures
        py_value(s, i) == Ok::<(Json, int), crate::python::ParseError>(
            (v, i + python_json(v, cur, ind).len()),
        ),
    decreases v, 1int,
{
    let m = python_json(v, cur, ind);
    lemma_python_first(v, cur, ind);
    lemma_occurs_index(s, i, m, 0);
    lemma_py_skip_at_start(s, i);
    let e = i + m.len();
    match v {
        Json::Null => {
            assert(python_json(v, cur, ind) == python_json(v, 0, 0));
            lemma_py_keyword(s, i, v);
        },
        Json::Bool(b) => {
            assert(python_json(v, cur, ind) == python_json(v, 0, 0));
            lemma_py_keyword(s, i, v);
        },
        Json::Number(raw) => {
            lemma_py_number_ok(s, i, raw);
        },
        Json::Str(t) => {
            lemma_py_string_ok(s, i, t);
        },
        Json::Array(items) => {
            lemma_python_array_parses(items, cur, ind, s, i);
        },
        Json::Object(ps) => {
            lemma_python_object_parses(ps, cur, ind, s, i);
        },
    }
}

#[verifier::spinoff_prover]
#[verifier::rlimit(60)]
pub proof fn lemma_python_array_parses(items: Seq<Json>, cur: nat, ind: nat, s: Seq<char>, i: int)
    requires
        py_items_wf(items, items.len() as int),
        occurs_at(s, i, python_json(Json::Array(items), cur, ind)),
    ensures
        py_value(s, i) == Ok::<(Json, int), crate::python::ParseError>(
            (Json::Array(items), i + python_json(Json::Array(items), cur, ind).len()),
        ),
    decreases items, items.len() + 1,
{
    let m = python_json(Json::Array(items), cur, ind);
    lemma_occurs_index(s, i, m, 0);
    lemma_occurs_index(s, i, m, 1);
    assert(s[i] == '[');
    lemma_py_skip_at_start(s, i);
    if items.len() == 0 {
        assert(s[i + 1] == ']');
        lemma_py_skip_at_start(s, i + 1);
        assert(items =~= Seq::<Json>::empty());
        assert(py_list(s, i, ']') == list_items(s, i + 1, ']', Seq::empty()));
    } else {
        let child = sat_add(cur, ind);
        lemma_pitem_window(items, cur, ind, s, i, 0);
        lemma_pitems_parse(items, cur, ind, s, i, 0);
        assert(items.take(0) =~= Seq::<Json>::empty());
        assert(python_items(items, 0, cur, ind).len() == 0);
        assert(s[i + 1] == '\n');
        assert(py_skip(s, i + 1) == py_skip(s, i + 2));
        assert(py_list(s, i, ']') == list_items(s, i + 2 + child, ']', Seq::empty()));
    }
    assert(py_value(s, i) == py_list(s, i, ']'));
}

#[verifier::spinoff_prover]
#[verifier::rlimit(60)]
pub proof fn lemma_python_object_parses(ps: Seq<(Seq<char>, Json)>, cur: nat, ind: nat, s: Seq<char>, i: int)
    requires
        py_props_wf(ps, ps.len() as int),
        occurs_at(s, i, python_json(Json::Object(ps), cur, ind)),
    ensures
        py_value(s, i) == Ok::<(Json, int), crate::python::ParseError>(
            (Json::Object(ps), i + python_json(Json::Object(ps), cur, ind).len()),
        ),
    decreases ps, ps.len() + 1,
{
    let m = python_json(Json::Object(ps), cur, ind);
    lemma_occurs_index(s, i, m, 0);
    lemma_occurs_index(s, i, m, 1);
    assert(s[i] == '{');
    lemma_py_skip_at_start(s, i);
    if ps.len() == 0 {
        assert(s[i + 1] == '}');
        lemma_py_skip_at_start(s, i + 1);
        assert(ps =~= Seq::<(Seq<char>, Json)>::empty());
        assert(py_dict(s, i) == dict_members(s, i + 1, Seq::empty()));
    } else {
        let child = sat_add(cur, ind);
        lemma_pmember_window(ps, cur, ind, s, i, 0);
        lemma_pmembers_parse(ps, cur, ind, s, i, 0);
        assert(ps.take(0) =~= Seq::<(Seq<char>, Json)>::empty());
        assert(python_props(ps, 0, cur, ind).len() == 0);
        assert(s[i + 1] == '\n');
        assert(py_skip(s, i + 1) == py_skip(s, i + 2));
        assert(py_dict(s, i) == dict_members(s, i + 2 + child, Seq::empty()));
    }
    assert(py_value(s, i) == py_dict(s, i));
}

/// One step over a list item, given that the item itself reads back.
#[verifier::spinoff_prover]
#[verifier::rlimit(60)]
pub proof fn lemma_pitem_step(items: Seq<Json>, cur: nat, ind: nat, s: Seq<char>, open: int, k: int)
    requires
        py_items_wf(items, items.len() as int),
        0 <= k < items.len(),
        occurs_at(s, open, python_json(Json::Array(items), cur, ind)),
        py_value(s, open + 2 + python_items(items, k, cur, ind).len() + sat_add(cur, ind)) == Ok::<
            (Json, int),
            crate::python::ParseError,
        >(
            (
                items[k],
                open + 2 + python_items(items, k, cur, ind).len() + sat_add(cur, ind) + python_json(
                    items[k],
                    sat_add(cur, ind),
                    ind,
                ).len(),
            ),
        ),
    ensures
        ({
            let child = sat_add(cur, ind);
            let q = open + 2 + python_items(items, k, cur, ind).len() + child;
            let whole = python_json(Json::Array(items), cur, ind);
            &&& k + 1 < items.len() ==> list_items(s, q, ']', items.take(k)) == list_items(
                s,
                open + 2 + python_items(items, k + 1, cur, ind).len() + child,
                ']',
                items.take(k + 1),
            )
            &&& k + 1 == items.len() ==> list_items(s, q, ']', items.take(k)) == Ok::<
                (Json, int),
                crate::python::ParseError,
            >((Json::Array(items), open + whole.len()))
        }),
{
    let n = items.len() as int;
    let child = sat_add(cur, ind);
    let q = open + 2 + python_items(items, k, cur, ind).len() + child;
    let e = q + python_json(items[k], child, ind).len();
    lemma_pitem_window(items, cur, ind, s, open, k);
    lemma_py_skip_at_start(s, q);
    assert(items.take(k).push(items[k]) =~= items.take(k + 1));
    if k + 1 < n {
        lemma_py_skip_at_start(s, e);
        lemma_pitem_window(items, cur, ind, s, open, k + 1);
        assert(e + 1 < s.len());
        assert(is_ws(s[e + 1]));
        assert(py_skip(s, e + 1) == py_skip(s, e + 2));
    } else {
        assert(py_skip(s, e) == py_skip(s, e + 1));
        assert(items.take(k + 1) =~= items);
    }
}

pub proof fn lemma_pitems_parse(items: Seq<Json>, cur: nat, ind: nat, s: Seq<char>, open: int, k: int)
    requires
        py_items_wf(items, items.len() as int),
        0 <= k < items.len(),
        occurs_at(s, open, python_json(Json::Array(items), cur, ind)),
    ensures
        list_items(
            s,
            open + 2 + python_items(items, k, cur, ind).len() + sat_add(cur, ind),
            ']',
            items.take(k),
        ) == Ok::<(Json, int), crate::python::ParseError>(
            (Json::Array(items), open + python_json(Json::Array(items), cur, ind).len()),
        ),
    decreases items, items.len() - k,
{
    let n = items.len() as int;
    let child = sat_add(cur, ind);
    let q = open + 2 + python_items(items, k, cur, ind).len() + child;
    lemma_pitem_window(items, cur, ind, s, open, k);
    lemma_python_parses(items[k], child, ind, s, q);
    lemma_pitem_step(items, cur, ind, s, open, k);
    if k + 1 < n {
        lemma_pitems_parse(items, cur, ind, s, open, k + 1);
    }
}

/// One step over a dictionary member, given that its value reads back.
#[verifier::spinoff_prover]
#[verifier::rlimit(80)]
pub proof fn lemma_pmember_step(
    ps: Seq<(Seq<char>, Json)>,
    cur: nat,
    ind: nat,
    s: Seq<char>,
    open: int,
    k: int,
)
    requires
        py_props_wf(ps, ps.len() as int),
        0 <= k < ps.len(),
        occurs_at(s, open, python_json(Json::Object(ps), cur, ind)),
        ({
            let child = sat_add(cur, ind);
            let q = open + 2 + python_props(ps, k, cur, ind).len() + child;
            let vpos = q + py_quoted(ps[k].0).len() + 2;
            py_value(s, vpos) == Ok::<(Json, int), crate::python::ParseError>(
                (ps[k].1, vpos + python_json(ps[k].1, child, ind).len()),
            )
        }),
    ensures
        ({
            let child = sat_add(cur, ind);
            let q = open + 2 + python_props(ps, k, cur, ind).len() + child;
            let whole = python_json(Json::Object(ps), cur, ind);
            &&& k + 1 < ps.len() ==> dict_members(s, q, ps.take(k)) == dict_members(
                s,
                open + 2 + python_props(ps, k + 1, cur, ind).len() + child,
                ps.take(k + 1),
            )
            &&& k + 1 == ps.len() ==> dict_members(s, q, ps.take(k)) == Ok::<
                (Json, int),
                crate::python::ParseError,
            >((Json::Object(ps), open + whole.len()))
        }),
{
    let n = ps.len() as int;
    let child = sat_add(cur, ind);
    let q = open + 2 + python_props(ps, k, cur, ind).len() + child;
    let qk = py_quoted(ps[k].0);
    let k2 = q + qk.len();
    let vpos = k2 + 2;
    let e = vpos + python_json(ps[k].1, child, ind).len();
    lemma_pmember_window(ps, cur, ind, s, open, k);
    lemma_py_skip_at_start(s, q);
    lemma_py_string_ok(s, q, ps[k].0);
    assert(py_key(s, q) == Ok::<(Seq<char>, int), crate::python::ParseError>((ps[k].0, k2)));
    lemma_py_skip_at_start(s, k2);
    lemma_py_skip_at_start(s, vpos);
    assert(py_skip(s, k2 + 1) == vpos);
    lemma_py_value_skip(s, k2 + 1);
    assert(py_value(s, k2 + 1) == Ok::<(Json, int), crate::python::ParseError>((ps[k].1, e)));
    assert(ps.take(k).push((ps[k].0, ps[k].1)) =~= ps.take(k + 1));
    if k + 1 < n {
        lemma_py_skip_at_start(s, e);
        lemma_pmember_window(ps, cur, ind, s, open, k + 1);
        assert(e + 1 < s.len());
        assert(is_ws(s[e + 1]));
        assert(py_skip(s, e + 1) == py_skip(s, e + 2));
    } else {
        assert(py_skip(s, e) == py_skip(s, e + 1));
        assert(ps.take(k + 1) =~= ps);
    }
}

pub proof fn lemma_pmembers_parse(
    ps: Seq<(Seq<char>, Json)>,
    cur: nat,
    ind: nat,
    s: Seq<char>,
    open: int,
    k: int,
)
    requires
        py_props_wf(ps, ps.len() as int),
        0 <= k < ps.len(),
        occurs_at(s, open, python_json(Json::Object(ps), cur, ind)),
    ensures
        dict_members(
            s,
            open + 2 + python_props(ps, k, cur, ind).len() + sat_add(cur, ind),
            ps.take(k),
        ) == Ok::<(Json, int), crate::python::ParseError>(
            (Json::Object(ps), open + python_json(Json::Object(ps), cur, ind).len()),
        ),
    decreases ps, ps.len() - k,
{
    let n = ps.len() as int;
    let child = sat_add(cur, ind);
    let q = open + 2 + python_props(ps, k, cur, ind).len() + child;
    let vpos = q + py_quoted(ps[k].0).len() + 2;
    lemma_pmember_window(ps, cur, ind, s, open, k);
    lemma_python_parses(ps[k].1, child, ind, s, vpos);
    lemma_pmember_step(ps, cur, ind, s, open, k);
    if k + 1 < n {
        lemma_pmembers_parse(ps, cur, ind, s, open, k + 1);
    }
}

// ---------------------------------------------------------------------
// The whole rendering

/// No `=` from `i` on: the search for an assignment runs to the end.
pub proof fn lemma_first_eq_none(s: Seq<char>, i: int)
    requires
        0 <= i <= s.len(),
        forall|k: int| i <= k < s.len() ==> #[trigger] s[k] != '=',
    ensures
        first_eq(s, i) == s.len(),
    decreases s.len() - i,
{
    if i < s.len() {
        lemma_first_eq_none(s, i + 1);
    }
}

/// The search for an assignment stops before the end, at an `=`, and not
/// before `i`.
pub proof fn lemma_first_eq_found(s: Seq<char>, i: int)
    requires
        0 <= i <= s.len(),
        first_eq(s, i) < s.len(),
    ensures
        i <= first_eq(s, i),
        s[first_eq(s, i)] == '=',
    decreases s.len() - i,
{
    if i < s.len() && s[i] != '=' {
        lemma_first_eq_found(s, i + 1);
    }
}

pub proof fn lemma_last_non_ws_positive(t: Seq<char>, j: int)
    requires
        1 <= j <= t.len(),
        !is_ws(t[0]),
    ensures
        1 <= last_non_ws_end(t, j),
    decreases j,
{
    if j > 1 && is_ws(t[j - 1]) {
        lemma_last_non_ws_positive(t, j - 1);
    }
}

/// Trimming keeps a first character that is not white space.
pub proof fn lemma_trim_keeps_first(t: Seq<char>)
    requires
        t.len() > 0,
        !is_ws(t[0]),
    ensures
        trim_seq(t).len() > 0,
        trim_seq(t)[0] == t[0],
{
    lemma_last_non_ws_positive(t, t.len() as int);
    crate::text::lemma_last_non_ws_end(t, t.len() as int);
    assert(first_non_ws(t, 0) == 0);
}

/// The last character of a rendering is `e`, a quote, a bracket, a brace
/// or a number character.
pub proof fn lemma_python_last(v: Json, cur: nat, ind: nat)
    requires
        py_wf(v),
    ensures
        ({
            let m = python_json(v, cur, ind);
            &&& m.len() > 0
            &&& !is_ws(m[m.len() - 1])
        }),
{
    let m = python_json(v, cur, ind);
    match v {
        Json::Number(raw) => {
            lemma_number_chars(raw);
            assert(is_number_char(raw[raw.len() - 1]));
        },
        _ => {},
    }
}

/// A scalar rendering holds no `=`.
pub proof fn lemma_python_scalar_no_eq(v: Json, cur: nat, ind: nat)
    requires
        py_wf(v),
        v is Null || v is Bool || v is Number,
    ensures
        forall|k: int|
            0 <= k < python_json(v, cur, ind).len() ==> #[trigger] python_json(v, cur, ind)[k]
                != '=',
{
    match v {
        Json::Number(raw) => {
            lemma_number_chars(raw);
        },
        _ => {},
    }
}

/// The rendering of a value is its own literal text: nothing is trimmed
/// and no assignment is taken off.
pub proof fn lemma_python_source_whole(v: Json, ind: nat)
    requires
        py_wf(v),
    ensures
        python_source(python_json(v, 0, ind)) == python_json(v, 0, ind),
{
    let s = python_json(v, 0, ind);
    lemma_python_first(v, 0, ind);
    lemma_python_last(v, 0, ind);
    assert(first_non_ws(s, 0) == 0);
    assert(last_non_ws_end(s, s.len() as int) == s.len());
    assert(s.subrange(0, s.len() as int) =~= s);
    assert(trim_seq(s) == s);
    if v is Null || v is Bool || v is Number {
        lemma_python_scalar_no_eq(v, 0, ind);
        lemma_first_eq_none(s, 0);
    } else {
        let eq = first_eq(s, 0);
        if eq < s.len() {
            lemma_first_eq_found(s, 0);
            assert(eq > 0);
            let head = s.take(eq);
            assert(head[0] == s[0]);
            lemma_trim_keeps_first(head);
            let prefix = trim_seq(head);
            assert(!is_target_char(prefix[0]));
        }
    }
}

/// What the Python rendering writes, the Python reader reads back as the
/// same value, at every indentation width.
pub proof fn law_python_then_read(v: Json, indent: nat)
    requires
        py_wf(v),
    ensures
        python_literal(python_json(v, 0, indent)) == Ok::<Json, crate::python::ParseError>(v),
{
    let s = python_json(v, 0, indent);
    lemma_python_source_whole(v, indent);
    lemma_python_first(v, 0, indent);
    lemma_py_skip_at_start(s, 0);
    assert(s.subrange(0, s.len() as int) =~= s);
    lemma_python_parses(v, 0, indent, s, 0);
}


/// Whether every string and key of `v` is free of the control characters
/// the Python rendering writes as `\xNN`.
pub open spec fn py_texts_ok(v: Json) -> bool
    decreases v, 0int,
{
    match v {
        Json::Str(t) => py_text_ok(t),
        Json::Array(items) => py_items_texts_ok(items, items.len() as int),
        Json::Object(ps) => py_props_texts_ok(ps, ps.len() as int),
        _ => true,
    }
}

pub open spec fn py_items_texts_ok(items: Seq<Json>, k: int) -> bool
    decreases items, k,
{
    if k <= 0 || k > items.len() {
        true
    } else {
        py_items_texts_ok(items, k - 1) && py_texts_ok(items[k - 1])
    }
}

pub open spec fn py_props_texts_ok(ps: Seq<(Seq<char>, Json)>, k: int) -> bool
    decreases ps, k,
{
    if k <= 0 || k > ps.len() {
        true
    } else {
        py_props_texts_ok(ps, k - 1) && py_text_ok(ps[k - 1].0) && py_texts_ok(ps[k - 1].1)
    }
}

/// A well-formed value whose texts avoid `\xNN` characters renders to
/// Python that reads back.
pub proof fn lemma_wf_texts_py_wf(v: Json)
    requires
        json_wf(v),
        py_texts_ok(v),
    ensures
        py_wf(v),
    decreases v, 1int,
{
    match v {
        Json::Array(items) => lemma_items_py_wf(items, items.len() as int),
        Json::Object(ps) => lemma_props_py_wf(ps, ps.len() as int),
        _ => {},
    }
}

proof fn lemma_items_py_wf(items: Seq<Json>, k: int)
    requires
        items_wf(items, k),
        py_items_texts_ok(items, k),
    ensures
        py_items_wf(items, k),
    decreases items, 0int, k,
{
    if 0 < k <= items.len() {
        lemma_items_py_wf(items, k - 1);
        lemma_wf_texts_py_wf(items[k - 1]);
    }
}

proof fn lemma_props_py_wf(ps: Seq<(Seq<char>, Json)>, k: int)
    requires
        props_wf(ps, k),
        py_props_texts_ok(ps, k),
    ensures
        py_props_wf(ps, k),
    decreases ps, 0int, k,
{
    if 0 < k <= ps.len() {
        lemma_props_py_wf(ps, k - 1);
        lemma_wf_texts_py_wf(ps[k - 1].1);
    }
}

/// The Python rendering of a parsed document whose strings and keys avoid
/// the `\xNN` control characters reads back as the same value, at every
/// indentation width.
pub proof fn law_parsed_python_then_read(s: Seq<char>, indent: nat)
    requires
        parse_document(s) is Ok,
        py_texts_ok(parse_document(s)->Ok_0),
    ensures
        python_literal(python_json(parse_document(s)->Ok_0, 0, indent)) == Ok::<
            Json,
            crate::python::ParseError,
        >(parse_document(s)->Ok_0),
{
    law_parsed_is_wf(s);
    lemma_wf_texts_py_wf(parse_document(s)->Ok_0);
    law_python_then_read(parse_document(s)->Ok_0, indent);
}

} // verus!
