//! What the serializers and the parser promise together: printed text
//! parses back to the value it was printed from.

use vstd::prelude::*;
use crate::text::{is_digit, hex_char, is_hex_digit, hex_value};
use super::value::{Json, kind_name_of};
use super::format::{escape_char, escape_chars, quoted, minify_json, minify_items, minify_props,
    comma_if, null_text, bool_text};
use super::grammar::{scan_string, parse_string, decode_escapes, scalar_of, hex4, digits_end,
    number_token, is_exp_mark, float_syntax, skip_ws, is_json_ws, parse_value, parse_array,
    array_items, parse_object, object_members, parse_key, parse_document, matches_at,
    parse_number, parse_bool, parse_null};

verus! {

/// `t` occurs in `s` at position `i`.
pub open spec fn occurs_at(s: Seq<char>, i: int, t: Seq<char>) -> bool {
    0 <= i && i + t.len() <= s.len() && s.subrange(i, i + t.len()) == t
}

pub proof fn lemma_occurs_split(s: Seq<char>, i: int, a: Seq<char>, b: Seq<char>)
    requires
        occurs_at(s, i, a + b),
    ensures
        occurs_at(s, i, a),
        occurs_at(s, i + a.len(), b),
{
    let x = s.subrange(i, i + a.len() + b.len());
    assert(x == a + b);
    assert(s.subrange(i, i + a.len()) =~= a) by {
        assert forall|m: int| 0 <= m < a.len() implies s.subrange(i, i + a.len())[m] == a[m] by {
            assert(x[m] == s[i + m]);
            assert((a + b)[m] == a[m]);
        }
    }
    assert(s.subrange(i + a.len(), i + a.len() + b.len()) =~= b) by {
        assert forall|m: int| 0 <= m < b.len() implies s.subrange(
            i + a.len(),
            i + a.len() + b.len(),
        )[m] == b[m] by {
            assert(x[a.len() + m] == s[i + a.len() + m]);
            assert((a + b)[a.len() + m] == b[m]);
        }
    }
}

pub proof fn lemma_occurs_index(s: Seq<char>, i: int, t: Seq<char>, j: int)
    requires
        occurs_at(s, i, t),
        0 <= j < t.len(),
    ensures
        s[i + j] == t[j],
{
    assert(s.subrange(i, i + t.len())[j] == t[j]);
}

/// A character that is written as itself inside a JSON string.
pub open spec fn plain(c: char, esc: bool) -> bool {
    escape_char(c, esc) == seq![c]
}

pub open spec fn all_plain(t: Seq<char>, esc: bool) -> bool {
    forall|j: int| 0 <= j < t.len() ==> plain(#[trigger] t[j], esc)
}

pub proof fn lemma_escape_chars_add(a: Seq<char>, b: Seq<char>, esc: bool)
    ensures
        escape_chars(a + b, esc) == escape_chars(a, esc) + escape_chars(b, esc),
    decreases b.len(),
{
    if b.len() == 0 {
        assert(a + b =~= a);
        assert(escape_chars(a, esc) + escape_chars(b, esc) =~= escape_chars(a, esc));
    } else {
        lemma_escape_chars_add(a, b.drop_last(), esc);
        assert((a + b).drop_last() =~= a + b.drop_last());
        assert(escape_chars(a + b, esc) =~= escape_chars(a, esc) + escape_chars(b, esc));
    }
}

pub proof fn lemma_escape_chars_take(t: Seq<char>, k: int, esc: bool)
    requires
        0 <= k < t.len(),
    ensures
        escape_chars(t.take(k + 1), esc) == escape_chars(t.take(k), esc) + escape_char(t[k], esc),
{
    assert(t.take(k + 1).drop_last() =~= t.take(k));
}

/// The escapes of `t` split around its `k`-th character.
pub proof fn lemma_escape_chars_around(t: Seq<char>, k: int, esc: bool)
    requires
        0 <= k < t.len(),
    ensures
        escape_chars(t, esc) == escape_chars(t.take(k), esc) + escape_char(t[k], esc)
            + escape_chars(t.skip(k + 1), esc),
{
    lemma_escape_chars_add(t.take(k + 1), t.skip(k + 1), esc);
    assert(t.take(k + 1) + t.skip(k + 1) =~= t);
    lemma_escape_chars_take(t, k, esc);
}

pub proof fn lemma_all_plain_escape(t: Seq<char>, esc: bool)
    requires
        all_plain(t, esc),
    ensures
        escape_chars(t, esc) == t,
    decreases t.len(),
{
    if t.len() > 0 {
        assert(plain(t[t.len() - 1], esc));
        lemma_all_plain_escape(t.drop_last(), esc);
        assert(t.drop_last().push(t.last()) =~= t);
    }
}

/// Decoding one escaped character.
pub proof fn lemma_decode_chunk(e: Seq<char>, j: int, acc: Seq<char>, c: char, esc: bool)
    requires
        0 <= j,
        j + escape_char(c, esc).len() <= e.len(),
        forall|m: int| 0 <= m < escape_char(c, esc).len() ==> e[j + m] == escape_char(c, esc)[m],
    ensures
        decode_escapes(e, j, acc) == decode_escapes(e, j + escape_char(c, esc).len(), acc.push(c)),
{
    let chunk = escape_char(c, esc);
    assert(e[j] == chunk[0]);
    if chunk.len() == 6 {
        assert(e[j + 1] == chunk[1]);
        assert(e[j + 2] == chunk[2]);
        assert(e[j + 3] == chunk[3]);
        assert(e[j + 4] == chunk[4]);
        assert(e[j + 5] == chunk[5]);
        let sub = e.subrange(j + 2, j + 6);
        assert(sub[0] == chunk[2]);
        assert(sub[1] == chunk[3]);
        assert(sub[2] == chunk[4]);
        assert(sub[3] == chunk[5]);
        let v = c as u32;
        assert(hex_value(hex_char((v / 16) as nat)) == v / 16);
        assert(hex_value(hex_char((v % 16) as nat)) == v % 16);
        assert(hex4(sub) == v);
        vstd::utf8::char_u32_cast(c, v);
        assert(scalar_of(hex4(sub)) == Some(c));
    } else if chunk.len() == 2 {
        assert(e[j + 1] == chunk[1]);
    }
}

/// Decoding the escapes of `t` from its `k`-th character on finishes `t`.
pub proof fn lemma_decode_escaped(t: Seq<char>, esc: bool, k: int)
    requires
        0 <= k <= t.len(),
    ensures
        decode_escapes(escape_chars(t, esc), escape_chars(t.take(k), esc).len() as int, t.take(k))
            == Ok::<Seq<char>, Seq<char>>(t),
    decreases t.len() - k,
{
    let e = escape_chars(t, esc);
    let j = escape_chars(t.take(k), esc).len() as int;
    if k == t.len() {
        assert(t.take(k) =~= t);
    } else {
        let c = t[k];
        let chunk = escape_char(c, esc);
        lemma_escape_chars_around(t, k, esc);
        lemma_escape_chars_take(t, k, esc);
        assert(t.take(k).push(c) =~= t.take(k + 1));
        assert forall|m: int| 0 <= m < chunk.len() implies e[j + m] == chunk[m] by {
            assert(e == escape_chars(t.take(k), esc) + chunk + escape_chars(t.skip(k + 1), esc));
            assert((escape_chars(t.take(k), esc) + chunk)[j + m] == chunk[m]);
        }
        lemma_decode_chunk(e, j, t.take(k), c, esc);
        lemma_decode_escaped(t, esc, k + 1);
    }
}

/// Scanning over characters that neither end nor escape anything.
proof fn lemma_scan_plain_run(s: Seq<char>, start: int, p: int, n: int, h: bool)
    requires
        1 <= start <= p,
        0 <= n,
        p + n < s.len(),
        forall|m: int|
            0 <= m < n ==> {
                let d = #[trigger] s[p + m];
                d != '"' && d != '\\' && d != '\n' && d != '\r'
            },
    ensures
        scan_string(s, '"', start, p, h) == scan_string(s, '"', start, p + n, h),
    decreases n,
{
    if n > 0 {
        let d = s[p];
        assert(s[p + 0] == d);
        assert forall|m: int| 0 <= m < n - 1 implies {
            let d = #[trigger] s[(p + 1) + m];
            d != '"' && d != '\\' && d != '\n' && d != '\r'
        } by {
            assert(s[p + (m + 1)] == s[(p + 1) + m]);
        }
        lemma_scan_plain_run(s, start, p + 1, n - 1, h);
    }
}

proof fn lemma_hex_char_plain(d: nat)
    requires
        d < 16,
    ensures
        hex_char(d) != '"',
        hex_char(d) != '\\',
        hex_char(d) != '\n',
        hex_char(d) != '\r',
{
}

/// Scanning over one escaped character.
pub proof fn lemma_scan_chunk(s: Seq<char>, start: int, p: int, c: char, esc: bool, h: bool)
    requires
        1 <= start <= p,
        p + escape_char(c, esc).len() < s.len(),
        forall|m: int| 0 <= m < escape_char(c, esc).len() ==> s[p + m] == escape_char(c, esc)[m],
    ensures
        scan_string(s, '"', start, p, h) == scan_string(
            s,
            '"',
            start,
            p + escape_char(c, esc).len(),
            h || !plain(c, esc),
        ),
{
    let chunk = escape_char(c, esc);
    assert(s[p] == chunk[0]);
    if chunk.len() == 6 {
        let hi = (c as u32 / 16) as nat;
        let lo = (c as u32 % 16) as nat;
        lemma_hex_char_plain(hi);
        lemma_hex_char_plain(lo);
        assert(chunk[1] == 'u');
        assert(s[p + 2] == chunk[2]);
        assert(s[p + 3] == chunk[3]);
        assert(s[p + 4] == chunk[4]);
        assert(s[p + 5] == chunk[5]);
        assert(chunk[4] == hex_char(hi));
        assert(chunk[5] == hex_char(lo));
        assert forall|m: int| 0 <= m < 4 implies {
            let d = #[trigger] s[(p + 2) + m];
            d != '"' && d != '\\' && d != '\n' && d != '\r'
        } by {
            assert(s[(p + 2) + m] == s[p + (m + 2)]);
            assert(s[p + (m + 2)] == chunk[m + 2]);
        }
        lemma_scan_plain_run(s, start, p + 2, 4, true);
        assert(!plain(c, esc));
    } else if chunk.len() == 2 {
        assert(s[p + 1] == chunk[1]);
    } else {
        assert(chunk == seq![c]);
    }
}

/// Scanning the quoted form of `t` from its `k`-th character on yields `t`.
pub proof fn lemma_scan_escaped(s: Seq<char>, q: int, t: Seq<char>, esc: bool, k: int)
    requires
        occurs_at(s, q, quoted(t, esc)),
        0 <= k <= t.len(),
    ensures
        scan_string(
            s,
            '"',
            q + 1,
            q + 1 + escape_chars(t.take(k), esc).len(),
            !all_plain(t.take(k), esc),
        ) == Ok::<(Seq<char>, int), (Seq<char>, nat, nat)>((t, q + quoted(t, esc).len())),
    decreases t.len() - k,
{
    let e = escape_chars(t, esc);
    let p = q + 1 + escape_chars(t.take(k), esc).len();
    lemma_occurs_split(s, q, seq!['"'] + e, seq!['"']);
    lemma_occurs_split(s, q, seq!['"'], e);
    if k == t.len() {
        assert(t.take(k) =~= t);
        lemma_occurs_index(s, q + 1 + e.len(), seq!['"'], 0);
        assert(s.subrange(q + 1, p) == e);
        if all_plain(t, esc) {
            lemma_all_plain_escape(t, esc);
        } else {
            lemma_decode_escaped(t, esc, 0);
            assert(t.take(0) =~= Seq::<char>::empty());
        }
    } else {
        let c = t[k];
        let chunk = escape_char(c, esc);
        lemma_escape_chars_around(t, k, esc);
        lemma_escape_chars_take(t, k, esc);
        lemma_occurs_split(s, q + 1, escape_chars(t.take(k), esc) + chunk, escape_chars(t.skip(k + 1), esc));
        lemma_occurs_split(s, q + 1, escape_chars(t.take(k), esc), chunk);
        assert forall|m: int| 0 <= m < chunk.len() implies s[p + m] == chunk[m] by {
            lemma_occurs_index(s, p, chunk, m);
        }
        lemma_scan_chunk(s, q + 1, p, c, esc, !all_plain(t.take(k), esc));
        assert(all_plain(t.take(k + 1), esc) == (all_plain(t.take(k), esc) && plain(c, esc))) by {
            if all_plain(t.take(k), esc) && plain(c, esc) {
                assert forall|j: int| 0 <= j < k + 1 implies plain(#[trigger] t.take(k + 1)[j], esc) by {
                    if j < k {
                        assert(t.take(k + 1)[j] == t.take(k)[j]);
                    }
                }
            }
            if all_plain(t.take(k + 1), esc) {
                assert(plain(t.take(k + 1)[k], esc));
                assert forall|j: int| 0 <= j < k implies plain(#[trigger] t.take(k)[j], esc) by {
                    assert(t.take(k + 1)[j] == t.take(k)[j]);
                    assert(plain(t.take(k + 1)[j], esc));
                }
            }
        }
        lemma_scan_escaped(s, q, t, esc, k + 1);
    }
}

/// A quoted string parses back to the text it quotes.
pub proof fn lemma_parse_quoted(s: Seq<char>, q: int, t: Seq<char>, esc: bool)
    requires
        occurs_at(s, q, quoted(t, esc)),
    ensures
        parse_string(s, q) == Ok::<(Seq<char>, int), (Seq<char>, nat, nat)>((t, q + quoted(t, esc).len())),
{
    lemma_occurs_index(s, q, quoted(t, esc), 0);
    lemma_scan_escaped(s, q, t, esc, 0);
    assert(t.take(0) =~= Seq::<char>::empty());
}


// ---------------------------------------------------------------------
// Numbers

/// A character that cannot continue a number token.
pub open spec fn ends_number(c: char) -> bool {
    !(is_digit(c) || c == '.' || c == 'e' || c == 'E' || c == '+' || c == '-')
}

/// Position `p` of `s` is the end of the text or a character that ends a number.
pub open spec fn number_may_end(s: Seq<char>, p: int) -> bool {
    p == s.len() || (0 <= p < s.len() && ends_number(s[p]))
}

/// A number literal the parser reads back as written: an optional minus,
/// digits with an optional fraction and exponent, and valid float syntax.
pub open spec fn number_ok(raw: Seq<char>) -> bool {
    &&& raw.len() > 0
    &&& (raw[0] == '-' || is_digit(raw[0]))
    &&& number_token(raw, 0) == (raw.len() as int, true)
    &&& float_syntax(raw)
}

pub proof fn lemma_digits_end_local(s: Seq<char>, i: int, raw: Seq<char>, a: int)
    requires
        occurs_at(s, i, raw),
        number_may_end(s, i + raw.len()),
        0 <= a <= raw.len(),
    ensures
        digits_end(s, i + a) == i + digits_end(raw, a),
    decreases raw.len() - a,
{
    if a < raw.len() {
        lemma_occurs_index(s, i, raw, a);
        if is_digit(raw[a]) {
            lemma_digits_end_local(s, i, raw, a + 1);
        }
    }
}

pub proof fn lemma_number_token_local(s: Seq<char>, i: int, raw: Seq<char>)
    requires
        occurs_at(s, i, raw),
        number_may_end(s, i + raw.len()),
        raw.len() > 0,
    ensures
        number_token(s, i) == (i + number_token(raw, 0).0, number_token(raw, 0).1),
{
    lemma_occurs_index(s, i, raw, 0);
    let a0: int = if raw[0] == '-' {
        1
    } else {
        0
    };
    lemma_digits_end_local(s, i, raw, a0);
    crate::json::grammar::lemma_digits_end(raw, a0);
    let a1 = digits_end(raw, a0);
    if a1 < raw.len() {
        lemma_occurs_index(s, i, raw, a1);
    }
    if a1 < raw.len() && raw[a1] == '.' {
        lemma_digits_end_local(s, i, raw, a1 + 1);
        crate::json::grammar::lemma_digits_end(raw, a1 + 1);
    }
    let a2 = if a1 < raw.len() && raw[a1] == '.' {
        digits_end(raw, a1 + 1)
    } else {
        a1
    };
    if a2 < raw.len() {
        lemma_occurs_index(s, i, raw, a2);
    }
    if a2 < raw.len() && is_exp_mark(raw[a2]) {
        if a2 + 1 < raw.len() {
            lemma_occurs_index(s, i, raw, a2 + 1);
        }
        let a3 = if a2 + 1 < raw.len() && (raw[a2 + 1] == '+' || raw[a2 + 1] == '-') {
            a2 + 2
        } else {
            a2 + 1
        };
        lemma_digits_end_local(s, i, raw, a3);
    }
}

pub proof fn lemma_parse_number_ok(s: Seq<char>, i: int, raw: Seq<char>)
    requires
        occurs_at(s, i, raw),
        number_may_end(s, i + raw.len()),
        number_ok(raw),
    ensures
        parse_number(s, i) == Ok::<(Json, int), (Seq<char>, nat, nat)>(
            (Json::Number(raw), i + raw.len()),
        ),
{
    lemma_number_token_local(s, i, raw);
}


// ---------------------------------------------------------------------
// Well-formed values

/// Every number of the value is a literal the parser reads back as written.
pub open spec fn json_wf(v: Json) -> bool
    decreases v, 0int,
{
    match v {
        Json::Number(raw) => number_ok(raw),
        Json::Array(items) => items_wf(items, items.len() as int),
        Json::Object(ps) => props_wf(ps, ps.len() as int),
        _ => true,
    }
}

pub open spec fn items_wf(items: Seq<Json>, k: int) -> bool
    decreases items, k,
{
    if k <= 0 || k > items.len() {
        true
    } else {
        items_wf(items, k - 1) && json_wf(items[k - 1])
    }
}

pub open spec fn props_wf(ps: Seq<(Seq<char>, Json)>, k: int) -> bool
    decreases ps, k,
{
    if k <= 0 || k > ps.len() {
        true
    } else {
        props_wf(ps, k - 1) && json_wf(ps[k - 1].1)
    }
}

pub proof fn lemma_items_wf(items: Seq<Json>, k: int, j: int)
    requires
        items_wf(items, k),
        0 <= j < k <= items.len(),
    ensures
        json_wf(items[j]),
    decreases k,
{
    if j < k - 1 {
        lemma_items_wf(items, k - 1, j);
    }
}

pub proof fn lemma_props_wf(ps: Seq<(Seq<char>, Json)>, k: int, j: int)
    requires
        props_wf(ps, k),
        0 <= j < k <= ps.len(),
    ensures
        json_wf(ps[j].1),
    decreases k,
{
    if j < k - 1 {
        lemma_props_wf(ps, k - 1, j);
    }
}

/// A character that can begin a printed value.
pub open spec fn starts_value(c: char) -> bool {
    c == 'n' || c == 't' || c == 'f' || c == 'N' || c == 'T' || c == 'F' || c == '-' || is_digit(c)
        || c == '"' || c == '\'' || c == '[' || c == '{'
}

pub proof fn lemma_minify_first(v: Json, esc: bool)
    requires
        json_wf(v),
    ensures
        minify_json(v, esc).len() > 0,
        starts_value(minify_json(v, esc)[0]),
{
}

pub proof fn lemma_occurs_prefix(s: Seq<char>, i: int, a: Seq<char>, b: Seq<char>)
    requires
        occurs_at(s, i, b),
        a.is_prefix_of(b),
    ensures
        occurs_at(s, i, a),
{
    assert(b =~= a + b.skip(a.len() as int));
    lemma_occurs_split(s, i, a, b.skip(a.len() as int));
}

pub proof fn lemma_minify_items_prefix(items: Seq<Json>, k: int, n: int, esc: bool)
    requires
        0 <= k <= n <= items.len(),
    ensures
        minify_items(items, k, esc).is_prefix_of(minify_items(items, n, esc)),
    decreases n - k,
{
    if k < n {
        lemma_minify_items_prefix(items, k, n - 1, esc);
        let a = minify_items(items, k, esc);
        let b = minify_items(items, n - 1, esc);
        let c = minify_items(items, n, esc);
        assert(c == b + minify_json(items[n - 1], esc) + comma_if(n < items.len()));
        assert(a =~= c.subrange(0, a.len() as int)) by {
            assert forall|m: int| 0 <= m < a.len() implies a[m] == c[m] by {
                assert(a[m] == b[m]);
            }
        }
    }
}

pub proof fn lemma_minify_props_prefix(ps: Seq<(Seq<char>, Json)>, k: int, n: int, esc: bool)
    requires
        0 <= k <= n <= ps.len(),
    ensures
        minify_props(ps, k, esc).is_prefix_of(minify_props(ps, n, esc)),
    decreases n - k,
{
    if k < n {
        lemma_minify_props_prefix(ps, k, n - 1, esc);
        let a = minify_props(ps, k, esc);
        let b = minify_props(ps, n - 1, esc);
        let c = minify_props(ps, n, esc);
        assert(c == b + quoted(ps[n - 1].0, esc) + seq![':'] + minify_json(ps[n - 1].1, esc)
            + comma_if(n < ps.len()));
        assert(a =~= c.subrange(0, a.len() as int)) by {
            assert forall|m: int| 0 <= m < a.len() implies a[m] == c[m] by {
                assert(a[m] == b[m]);
            }
        }
    }
}

// ---------------------------------------------------------------------
// Compact text parses back

/// A compact scalar parses back.
proof fn lemma_minify_scalar_parses(v: Json, esc: bool, s: Seq<char>, i: int)
    requires
        json_wf(v),
        !(v is Array),
        !(v is Object),
        occurs_at(s, i, minify_json(v, esc)),
        number_may_end(s, i + minify_json(v, esc).len()),
    ensures
        parse_value(s, i) == Ok::<(Json, int), (Seq<char>, nat, nat)>(
            (v, i + minify_json(v, esc).len()),
        ),
{
    let m = minify_json(v, esc);
    lemma_minify_first(v, esc);
    lemma_occurs_index(s, i, m, 0);
    assert(skip_ws(s, i) == i);
    match v {
        Json::Null => {
            assert(matches_at(s, i, seq!['n', 'u', 'l', 'l']));
            assert(parse_value(s, i) == parse_null(s, i));
        },
        Json::Bool(b) => {
            assert(matches_at(s, i, seq!['t', 'r', 'u', 'e']) == b);
            if !b {
                assert(matches_at(s, i, seq!['f', 'a', 'l', 's', 'e']));
            }
        },
        Json::Number(raw) => {
            lemma_parse_number_ok(s, i, raw);
        },
        Json::Str(t) => {
            lemma_parse_quoted(s, i, t, esc);
        },
        _ => {},
    }
}

#[verifier::spinoff_prover]
#[verifier::rlimit(40)]
pub proof fn lemma_minify_parses(v: Json, esc: bool, s: Seq<char>, i: int)
    requires
        json_wf(v),
        occurs_at(s, i, minify_json(v, esc)),
        number_may_end(s, i + minify_json(v, esc).len()),
    ensures
        parse_value(s, i) == Ok::<(Json, int), (Seq<char>, nat, nat)>(
            (v, i + minify_json(v, esc).len()),
        ),
    decreases v, 0int,
{
    let m = minify_json(v, esc);
    match v {
        Json::Array(items) => {
            lemma_minify_first(v, esc);
            lemma_occurs_index(s, i, m, 0);
            assert(skip_ws(s, i) == i);
            lemma_occurs_index(s, i, m, 1);
            assert(s[i] == '[');
            if items.len() == 0 {
                assert(s[i + 1] == ']');
                assert(items =~= Seq::<Json>::empty());
            } else {
                lemma_item_window(items, esc, s, i, 0);
                lemma_minify_items_parse(items, esc, s, i, 0);
                assert(items.take(0) =~= Seq::<Json>::empty());
                assert(minify_items(items, 0, esc).len() == 0);
                assert(skip_ws(s, i + 1) == i + 1);
                assert(parse_array(s, i) == array_items(s, i, i + 1, Seq::empty()));
            }
        },
        Json::Object(ps) => {
            lemma_minify_first(v, esc);
            lemma_occurs_index(s, i, m, 0);
            assert(skip_ws(s, i) == i);
            lemma_occurs_index(s, i, m, 1);
            assert(s[i] == '{');
            if ps.len() == 0 {
                assert(s[i + 1] == '}');
                assert(ps =~= Seq::<(Seq<char>, Json)>::empty());
            } else {
                lemma_prop_window(ps, esc, s, i, 0);
                lemma_minify_props_parse(ps, esc, s, i, 0);
                assert(ps.take(0) =~= Seq::<(Seq<char>, Json)>::empty());
                assert(minify_props(ps, 0, esc).len() == 0);
                assert(skip_ws(s, i + 1) == i + 1);
                assert(parse_object(s, i) == object_members(s, i, i + 1, Seq::empty()));
            }
        },
        _ => {
            lemma_minify_scalar_parses(v, esc, s, i);
        },
    }
}

/// Where item `k` of a compact array sits, and what follows it.
pub proof fn lemma_item_window(items: Seq<Json>, esc: bool, s: Seq<char>, open: int, k: int)
    requires
        items_wf(items, items.len() as int),
        0 <= k < items.len(),
        occurs_at(s, open, minify_json(Json::Array(items), esc)),
    ensures
        ({
            let p = open + 1 + minify_items(items, k, esc).len();
            let c = p + minify_json(items[k], esc).len();
            &&& occurs_at(s, p, minify_json(items[k], esc))
            &&& json_wf(items[k])
            &&& starts_value(s[p])
            &&& c < s.len()
            &&& (k + 1 < items.len() ==> s[c] == ',' && c + 1 == open + 1 + minify_items(
                items,
                k + 1,
                esc,
            ).len())
            &&& (k + 1 == items.len() ==> s[c] == ']' && c + 1 == open + minify_json(
                Json::Array(items),
                esc,
            ).len())
        }),
{
    let n = items.len() as int;
    let whole = minify_json(Json::Array(items), esc);
    let all = minify_items(items, n, esc);
    let pre = minify_items(items, k, esc);
    let p = open + 1 + pre.len();
    let mk = minify_json(items[k], esc);
    let c = p + mk.len();
    lemma_occurs_split(s, open, seq!['['] + all, seq![']']);
    lemma_occurs_split(s, open, seq!['['], all);
    lemma_minify_items_prefix(items, k + 1, n, esc);
    lemma_occurs_prefix(s, open + 1, minify_items(items, k + 1, esc), all);
    assert(minify_items(items, k + 1, esc) == pre + mk + comma_if(k + 1 < n));
    lemma_occurs_split(s, open + 1, pre + mk, comma_if(k + 1 < n));
    lemma_occurs_split(s, open + 1, pre, mk);
    lemma_items_wf(items, n, k);
    lemma_minify_first(items[k], esc);
    lemma_occurs_index(s, p, mk, 0);
    if k + 1 < n {
        lemma_occurs_index(s, c, comma_if(true), 0);
    } else {
        assert(minify_items(items, k + 1, esc) =~= pre + mk);
        lemma_occurs_index(s, open + 1 + all.len(), seq![']'], 0);
    }
}

pub proof fn lemma_minify_items_parse(items: Seq<Json>, esc: bool, s: Seq<char>, open: int, k: int)
    requires
        items_wf(items, items.len() as int),
        0 <= k < items.len(),
        occurs_at(s, open, minify_json(Json::Array(items), esc)),
    ensures
        array_items(s, open, open + 1 + minify_items(items, k, esc).len(), items.take(k))
            == Ok::<(Json, int), (Seq<char>, nat, nat)>(
            (Json::Array(items), open + minify_json(Json::Array(items), esc).len()),
        ),
    decreases items, items.len() - k,
{
    let n = items.len() as int;
    let p = open + 1 + minify_items(items, k, esc).len();
    let c = p + minify_json(items[k], esc).len();
    lemma_item_window(items, esc, s, open, k);
    lemma_minify_parses(items[k], esc, s, p);
    assert(items.take(k).push(items[k]) =~= items.take(k + 1));
    if k + 1 < n {
        lemma_item_window(items, esc, s, open, k + 1);
        lemma_minify_items_parse(items, esc, s, open, k + 1);
    } else {
        assert(items.take(k + 1) =~= items);
    }
}

/// Where member `k` of a compact object sits, and what follows it.
pub proof fn lemma_prop_window(ps: Seq<(Seq<char>, Json)>, esc: bool, s: Seq<char>, open: int, k: int)
    requires
        props_wf(ps, ps.len() as int),
        0 <= k < ps.len(),
        occurs_at(s, open, minify_json(Json::Object(ps), esc)),
    ensures
        ({
            let p = open + 1 + minify_props(ps, k, esc).len();
            let vpos = p + quoted(ps[k].0, esc).len() + 1;
            let c = vpos + minify_json(ps[k].1, esc).len();
            &&& occurs_at(s, p, quoted(ps[k].0, esc))
            &&& s[p] == '"'
            &&& s[vpos - 1] == ':'
            &&& occurs_at(s, vpos, minify_json(ps[k].1, esc))
            &&& json_wf(ps[k].1)
            &&& starts_value(s[vpos])
            &&& c < s.len()
            &&& (k + 1 < ps.len() ==> s[c] == ',' && c + 1 == open + 1 + minify_props(
                ps,
                k + 1,
                esc,
            ).len())
            &&& (k + 1 == ps.len() ==> s[c] == '}' && c + 1 == open + minify_json(
                Json::Object(ps),
                esc,
            ).len())
        }),
{
    let n = ps.len() as int;
    let all = minify_props(ps, n, esc);
    let pre = minify_props(ps, k, esc);
    let p = open + 1 + pre.len();
    let qk = quoted(ps[k].0, esc);
    let mk = minify_json(ps[k].1, esc);
    let vpos = p + qk.len() + 1;
    let c = vpos + mk.len();
    lemma_occurs_split(s, open, seq!['{'] + all, seq!['}']);
    lemma_occurs_split(s, open, seq!['{'], all);
    lemma_minify_props_prefix(ps, k + 1, n, esc);
    lemma_occurs_prefix(s, open + 1, minify_props(ps, k + 1, esc), all);
    assert(minify_props(ps, k + 1, esc) == pre + qk + seq![':'] + mk + comma_if(k + 1 < n));
    lemma_occurs_split(s, open + 1, pre + qk + seq![':'] + mk, comma_if(k + 1 < n));
    lemma_occurs_split(s, open + 1, pre + qk + seq![':'], mk);
    lemma_occurs_split(s, open + 1, pre + qk, seq![':']);
    lemma_occurs_split(s, open + 1, pre, qk);
    lemma_props_wf(ps, n, k);
    lemma_minify_first(ps[k].1, esc);
    lemma_occurs_index(s, p, qk, 0);
    lemma_occurs_index(s, p + qk.len(), seq![':'], 0);
    lemma_occurs_index(s, vpos, mk, 0);
    if k + 1 < n {
        lemma_occurs_index(s, c, comma_if(true), 0);
    } else {
        assert(minify_props(ps, k + 1, esc) =~= pre + qk + seq![':'] + mk);
        lemma_occurs_index(s, open + 1 + all.len(), seq!['}'], 0);
    }
}

/// One step over a compact member, given that its value parses back.
#[verifier::spinoff_prover]
pub proof fn lemma_minify_prop_step(
    ps: Seq<(Seq<char>, Json)>,
    esc: bool,
    s: Seq<char>,
    open: int,
    k: int,
)
    requires
        props_wf(ps, ps.len() as int),
        0 <= k < ps.len(),
        occurs_at(s, open, minify_json(Json::Object(ps), esc)),
        ({
            let p = open + 1 + minify_props(ps, k, esc).len();
            let vpos = p + quoted(ps[k].0, esc).len() + 1;
            parse_value(s, vpos) == Ok::<(Json, int), (Seq<char>, nat, nat)>(
                (ps[k].1, vpos + minify_json(ps[k].1, esc).len()),
            )
        }),
    ensures
        ({
            let p = open + 1 + minify_props(ps, k, esc).len();
            &&& k + 1 < ps.len() ==> object_members(s, open, p, ps.take(k)) == object_members(
                s,
                open,
                open + 1 + minify_props(ps, k + 1, esc).len(),
                ps.take(k + 1),
            )
            &&& k + 1 == ps.len() ==> object_members(s, open, p, ps.take(k)) == Ok::<
                (Json, int),
                (Seq<char>, nat, nat),
            >((Json::Object(ps), open + minify_json(Json::Object(ps), esc).len()))
        }),
{
    let n = ps.len() as int;
    let p = open + 1 + minify_props(ps, k, esc).len();
    lemma_prop_window(ps, esc, s, open, k);
    lemma_parse_quoted(s, p, ps[k].0, esc);
    assert(ps.take(k).push((ps[k].0, ps[k].1)) =~= ps.take(k + 1));
    if k + 1 < n {
        lemma_prop_window(ps, esc, s, open, k + 1);
    } else {
        assert(ps.take(k + 1) =~= ps);
    }
}

pub proof fn lemma_minify_props_parse(
    ps: Seq<(Seq<char>, Json)>,
    esc: bool,
    s: Seq<char>,
    open: int,
    k: int,
)
    requires
        props_wf(ps, ps.len() as int),
        0 <= k < ps.len(),
        occurs_at(s, open, minify_json(Json::Object(ps), esc)),
    ensures
        object_members(s, open, open + 1 + minify_props(ps, k, esc).len(), ps.take(k))
            == Ok::<(Json, int), (Seq<char>, nat, nat)>(
            (Json::Object(ps), open + minify_json(Json::Object(ps), esc).len()),
        ),
    decreases ps, ps.len() - k,
{
    let n = ps.len() as int;
    let p = open + 1 + minify_props(ps, k, esc).len();
    let vpos = p + quoted(ps[k].0, esc).len() + 1;
    lemma_prop_window(ps, esc, s, open, k);
    lemma_minify_parses(ps[k].1, esc, s, vpos);
    lemma_minify_prop_step(ps, esc, s, open, k);
    if k + 1 < n {
        lemma_minify_props_parse(ps, esc, s, open, k + 1);
    }
}

/// Compact text parses back to exactly the value it was printed from.
pub proof fn law_minify_then_parse(v: Json, esc: bool)
    requires
        json_wf(v),
    ensures
        parse_document(minify_json(v, esc)) == Ok::<Json, (Seq<char>, nat, nat)>(v),
{
    let s = minify_json(v, esc);
    assert(s.subrange(0, s.len() as int) =~= s);
    lemma_minify_first(v, esc);
    lemma_minify_parses(v, esc, s, 0);
}


// ---------------------------------------------------------------------
// White space between tokens, and the names of the kinds

/// Space, tab, line feed and carriage return are JSON white space: where
/// the parser skips to the next token, one of them at `i` is passed over,
/// so a text with CRLF line breaks reads as with LF ones. Any other
/// character that does not open a comment is where skipping stops.
pub proof fn law_json_ws_skipped(s: Seq<char>, i: int)
    requires
        0 <= i < s.len(),
    ensures
        (s[i] == ' ' || s[i] == '\t' || s[i] == '\n' || s[i] == '\r') ==> skip_ws(s, i) == skip_ws(
            s,
            i + 1,
        ),
        !(s[i] == ' ' || s[i] == '\t' || s[i] == '\n' || s[i] == '\r' || s[i] == '/') ==> skip_ws(
            s,
            i,
        ) == i,
{
}

/// Whether `a` and `b` are values of the same kind.
pub open spec fn same_kind(a: Json, b: Json) -> bool {
    ||| (a is Null && b is Null)
    ||| (a is Bool && b is Bool)
    ||| (a is Number && b is Number)
    ||| (a is Str && b is Str)
    ||| (a is Array && b is Array)
    ||| (a is Object && b is Object)
}

/// Every kind of value has a name of its own: two values have the same
/// kind name exactly when they are of the same kind; the names are those
/// of the JSON kinds (`null`, `boolean`, `number`, `string`, `array`,
/// `object`).
pub proof fn law_kind_names_distinct(a: Json, b: Json, items: Seq<Json>, ps: Seq<(Seq<char>, Json)>)
    ensures
        (kind_name_of(a) == kind_name_of(b)) == same_kind(a, b),
        a is Null ==> kind_name_of(a) == seq!['n', 'u', 'l', 'l'],
        a is Bool ==> kind_name_of(a) == seq!['b', 'o', 'o', 'l', 'e', 'a', 'n'],
        a is Number ==> kind_name_of(a) == seq!['n', 'u', 'm', 'b', 'e', 'r'],
        a is Str ==> kind_name_of(a) == seq!['s', 't', 'r', 'i', 'n', 'g'],
        kind_name_of(Json::Array(items)) == seq!['a', 'r', 'r', 'a', 'y'],
        kind_name_of(Json::Object(ps)) == seq!['o', 'b', 'j', 'e', 'c', 't'],
{
    reveal_strlit("null");
    reveal_strlit("boolean");
    reveal_strlit("number");
    reveal_strlit("string");
    reveal_strlit("array");
    reveal_strlit("object");
    let na = kind_name_of(a);
    let nb = kind_name_of(b);
    if !same_kind(a, b) {
        assert(na != nb) by {
            if na.len() == nb.len() && na.len() == 6 {
                assert(na[0] != nb[0]);
            }
        }
    }
}

} // verus!
