//! Pretty printed text parses back to the value it was printed from,
//! whatever the indentation, with the members of each object in the order
//! they were printed.

use vstd::prelude::*;
use super::value::Json;
use super::format::{quoted, format_json, format_items, format_props, comma_if, repeat,
    indent_unit, indent_step, sat_add, member_order, identity_order, lemma_member_order};
use super::grammar::{skip_ws, is_json_ws, parse_value, parse_array, array_items, parse_object,
    object_members, parse_document, matches_at, parse_null, lemma_skip_ws, parse_key};
use super::laws::{occurs_at, lemma_occurs_split, lemma_occurs_index, lemma_occurs_prefix,
    json_wf, items_wf, props_wf, lemma_items_wf, lemma_props_wf, starts_value, number_may_end,
    lemma_parse_number_ok, lemma_parse_quoted};

verus! {

/// The value as pretty printing lays it out: every object's members in
/// printing order (by key where `sort_keys`), all else as it is.
pub open spec fn sorted_json(v: Json, sort_keys: bool) -> Json
    decreases v, 1int,
{
    match v {
        Json::Array(items) => Json::Array(sorted_items(items, sort_keys, items.len() as int)),
        Json::Object(ps) => Json::Object(
            sorted_members(ps, member_order(ps, sort_keys), sort_keys, ps.len() as int),
        ),
        _ => v,
    }
}

/// The first `k` items, each laid out as pretty printing does.
pub open spec fn sorted_items(items: Seq<Json>, sort_keys: bool, k: int) -> Seq<Json>
    decreases items, k,
{
    if k <= 0 || k > items.len() {
        Seq::empty()
    } else {
        sorted_items(items, sort_keys, k - 1).push(sorted_json(items[k - 1], sort_keys))
    }
}

/// The members named by the first `k` entries of `order`, in that order,
/// their values laid out as pretty printing does.
pub open spec fn sorted_members(
    ps: Seq<(Seq<char>, Json)>,
    order: Seq<int>,
    sort_keys: bool,
    k: int,
) -> Seq<(Seq<char>, Json)>
    decreases ps, k,
{
    if k <= 0 || k > order.len() {
        Seq::empty()
    } else {
        let j = order[k - 1];
        let rest = sorted_members(ps, order, sort_keys, k - 1);
        if 0 <= j < ps.len() {
            rest.push((ps[j].0, sorted_json(ps[j].1, sort_keys)))
        } else {
            rest
        }
    }
}

/// Skipping a run of white space that is followed by a value.
pub proof fn lemma_skip_run(s: Seq<char>, p: int, run: Seq<char>)
    requires
        occurs_at(s, p, run),
        forall|m: int| 0 <= m < run.len() ==> is_json_ws(#[trigger] run[m]),
        p + run.len() < s.len(),
        starts_value(s[p + run.len()]) || s[p + run.len()] == ']' || s[p + run.len()] == '}'
            || s[p + run.len()] == ':',
    ensures
        skip_ws(s, p) == p + run.len(),
    decreases run.len(),
{
    if run.len() > 0 {
        lemma_occurs_index(s, p, run, 0);
        assert(seq![run[0]] + run.drop_first() =~= run);
        lemma_occurs_split(s, p, seq![run[0]], run.drop_first());
        lemma_skip_run(s, p + 1, run.drop_first());
    }
}

/// Parsing a value skips the white space in front of it.
pub proof fn lemma_parse_value_after_ws(s: Seq<char>, i: int, j: int)
    requires
        0 <= i <= j < s.len(),
        skip_ws(s, i) == j,
        starts_value(s[j]),
    ensures
        parse_value(s, i) == parse_value(s, j),
{
}

pub proof fn lemma_format_first(v: Json, cur: nat, ind: i32, sk: bool, esc: bool)
    requires
        json_wf(v),
    ensures
        format_json(v, cur, ind, sk, esc).len() > 0,
        starts_value(format_json(v, cur, ind, sk, esc)[0]),
{
}

pub proof fn lemma_repeat_ws(ind: i32, n: nat)
    ensures
        forall|m: int| 0 <= m < n ==> is_json_ws(#[trigger] repeat(indent_unit(ind), n)[m]),
        repeat(indent_unit(ind), n).len() == n,
{
}

pub proof fn lemma_format_items_prefix(
    items: Seq<Json>,
    k: int,
    n: int,
    cur: nat,
    ind: i32,
    sk: bool,
    esc: bool,
)
    requires
        0 <= k <= n <= items.len(),
    ensures
        format_items(items, k, cur, ind, sk, esc).is_prefix_of(
            format_items(items, n, cur, ind, sk, esc),
        ),
    decreases n - k,
{
    if k < n {
        lemma_format_items_prefix(items, k, n - 1, cur, ind, sk, esc);
        let a = format_items(items, k, cur, ind, sk, esc);
        let b = format_items(items, n - 1, cur, ind, sk, esc);
        let c = format_items(items, n, cur, ind, sk, esc);
        assert(a =~= c.subrange(0, a.len() as int)) by {
            assert forall|m: int| 0 <= m < a.len() implies a[m] == c[m] by {
                assert(a[m] == b[m]);
            }
        }
    }
}

pub proof fn lemma_format_props_prefix(
    ps: Seq<(Seq<char>, Json)>,
    order: Seq<int>,
    k: int,
    n: int,
    cur: nat,
    ind: i32,
    sk: bool,
    esc: bool,
)
    requires
        0 <= k <= n <= order.len(),
    ensures
        format_props(ps, order, k, cur, ind, sk, esc).is_prefix_of(
            format_props(ps, order, n, cur, ind, sk, esc),
        ),
    decreases n - k,
{
    if k < n {
        lemma_format_props_prefix(ps, order, k, n - 1, cur, ind, sk, esc);
        let a = format_props(ps, order, k, cur, ind, sk, esc);
        let b = format_props(ps, order, n - 1, cur, ind, sk, esc);
        let c = format_props(ps, order, n, cur, ind, sk, esc);
        assert(a =~= c.subrange(0, a.len() as int)) by {
            assert forall|m: int| 0 <= m < a.len() implies a[m] == c[m] by {
                assert(a[m] == b[m]);
            }
        }
    }
}

/// One printed item: indentation, the value, an optional comma, a newline.
pub proof fn lemma_fpiece(
    items: Seq<Json>,
    cur: nat,
    ind: i32,
    sk: bool,
    esc: bool,
    s: Seq<char>,
    base: int,
    k: int,
)
    requires
        items_wf(items, items.len() as int),
        0 <= k < items.len(),
        occurs_at(s, base, format_items(items, k + 1, cur, ind, sk, esc)),
    ensures
        ({
            let child = sat_add(cur, indent_step(ind));
            let p = base + format_items(items, k, cur, ind, sk, esc).len();
            let q = p + child;
            let fk = format_json(items[k], child, ind, sk, esc);
            let e = q + fk.len();
            let c = comma_if(k + 1 < items.len()).len();
            &&& occurs_at(s, q, fk)
            &&& json_wf(items[k])
            &&& starts_value(s[q])
            &&& skip_ws(s, p) == q
            &&& (k + 1 < items.len() ==> s[e] == ',')
            &&& s[e + c] == '\n'
            &&& base + format_items(items, k + 1, cur, ind, sk, esc).len() == e + c + 1
        }),
{
    let n = items.len() as int;
    let child = sat_add(cur, indent_step(ind));
    let unit = indent_unit(ind);
    let pre = format_items(items, k, cur, ind, sk, esc);
    let p = base + pre.len();
    let q = p + child;
    let fk = format_json(items[k], child, ind, sk, esc);
    let e = q + fk.len();
    assert(format_items(items, k + 1, cur, ind, sk, esc) == pre + repeat(unit, child) + fk
        + comma_if(k + 1 < n) + seq!['\n']);
    lemma_occurs_split(s, base, pre + repeat(unit, child) + fk + comma_if(k + 1 < n), seq!['\n']);
    lemma_occurs_split(s, base, pre + repeat(unit, child) + fk, comma_if(k + 1 < n));
    lemma_occurs_split(s, base, pre + repeat(unit, child), fk);
    lemma_occurs_split(s, base, pre, repeat(unit, child));
    lemma_items_wf(items, n, k);
    lemma_format_first(items[k], child, ind, sk, esc);
    lemma_occurs_index(s, q, fk, 0);
    lemma_repeat_ws(ind, child);
    lemma_skip_run(s, p, repeat(unit, child));
    lemma_occurs_index(s, e + comma_if(k + 1 < n).len(), seq!['\n'], 0);
    if k + 1 < n {
        lemma_occurs_index(s, e, comma_if(true), 0);
    }
}

/// Where item `k` of a pretty printed array sits, and what follows it.
pub proof fn lemma_fitem_window(
    items: Seq<Json>,
    cur: nat,
    ind: i32,
    sk: bool,
    esc: bool,
    s: Seq<char>,
    open: int,
    k: int,
)
    requires
        items_wf(items, items.len() as int),
        0 <= k < items.len(),
        occurs_at(s, open, format_json(Json::Array(items), cur, ind, sk, esc)),
    ensures
        ({
            let child = sat_add(cur, indent_step(ind));
            let q = open + 2 + format_items(items, k, cur, ind, sk, esc).len() + child;
            let e = q + format_json(items[k], child, ind, sk, esc).len();
            let whole = format_json(Json::Array(items), cur, ind, sk, esc);
            &&& occurs_at(s, q, format_json(items[k], child, ind, sk, esc))
            &&& json_wf(items[k])
            &&& starts_value(s[q])
            &&& skip_ws(s, open + 2 + format_items(items, k, cur, ind, sk, esc).len()) == q
            &&& e < s.len()
            &&& (k + 1 < items.len() ==> s[e] == ',' && skip_ws(s, e + 1) == open + 2
                + format_items(items, k + 1, cur, ind, sk, esc).len() + child)
            &&& (k + 1 == items.len() ==> s[e] == '\n' && skip_ws(s, e) == open + whole.len() - 1
                && s[open + whole.len() - 1] == ']')
        }),
{
    let n = items.len() as int;
    let child = sat_add(cur, indent_step(ind));
    let unit = indent_unit(ind);
    let whole = format_json(Json::Array(items), cur, ind, sk, esc);
    let all = format_items(items, n, cur, ind, sk, esc);
    let base = open + 2;
    let tail = repeat(unit, cur) + seq![']'];
    assert(whole == seq!['[', '\n'] + all + tail);
    lemma_occurs_split(s, open, seq!['[', '\n'] + all, tail);
    lemma_occurs_split(s, open, seq!['[', '\n'], all);
    lemma_occurs_split(s, base + all.len(), repeat(unit, cur), seq![']']);
    lemma_format_items_prefix(items, k + 1, n, cur, ind, sk, esc);
    lemma_occurs_prefix(s, base, format_items(items, k + 1, cur, ind, sk, esc), all);
    lemma_fpiece(items, cur, ind, sk, esc, s, base, k);
    if k + 1 < n {
        lemma_format_items_prefix(items, k + 2, n, cur, ind, sk, esc);
        lemma_occurs_prefix(s, base, format_items(items, k + 2, cur, ind, sk, esc), all);
        lemma_fpiece(items, cur, ind, sk, esc, s, base, k + 1);
    } else {
        lemma_occurs_index(s, base + all.len() + cur, seq![']'], 0);
        lemma_repeat_ws(ind, cur);
        lemma_skip_run(s, base + all.len(), repeat(unit, cur));
    }
}

/// One printed member: indentation, `"key": value`, an optional comma, a
/// newline; the `k`-th member printed is member `order[k]`.
pub proof fn lemma_fmember(
    ps: Seq<(Seq<char>, Json)>,
    cur: nat,
    ind: i32,
    sk: bool,
    esc: bool,
    s: Seq<char>,
    base: int,
    k: int,
)
    requires
        props_wf(ps, ps.len() as int),
        0 <= k < ps.len(),
        occurs_at(s, base, format_props(ps, member_order(ps, sk), k + 1, cur, ind, sk, esc)),
    ensures
        ({
            let child = sat_add(cur, indent_step(ind));
            let order = member_order(ps, sk);
            let j = order[k];
            let p = base + format_props(ps, order, k, cur, ind, sk, esc).len();
            let q = p + child;
            let qk = quoted(ps[j].0, esc);
            let vpos = q + qk.len() + 2;
            let fv = format_json(ps[j].1, child, ind, sk, esc);
            let e = vpos + fv.len();
            let c = comma_if(k + 1 < ps.len()).len();
            &&& 0 <= j < ps.len()
            &&& occurs_at(s, q, qk)
            &&& s[q] == '"'
            &&& s[q + qk.len()] == ':'
            &&& s[q + qk.len() + 1] == ' '
            &&& occurs_at(s, vpos, fv)
            &&& json_wf(ps[j].1)
            &&& starts_value(s[vpos])
            &&& skip_ws(s, p) == q
            &&& (k + 1 < ps.len() ==> s[e] == ',')
            &&& s[e + c] == '\n'
            &&& base + format_props(ps, order, k + 1, cur, ind, sk, esc).len() == e + c + 1
        }),
{
    let n = ps.len() as int;
    let order = member_order(ps, sk);
    lemma_member_order(ps, sk);
    let j = order[k];
    let child = sat_add(cur, indent_step(ind));
    let unit = indent_unit(ind);
    let pre = format_props(ps, order, k, cur, ind, sk, esc);
    let p = base + pre.len();
    let q = p + child;
    let qk = quoted(ps[j].0, esc);
    let fv = format_json(ps[j].1, child, ind, sk, esc);
    let vpos = q + qk.len() + 2;
    let e = vpos + fv.len();
    assert(format_props(ps, order, k + 1, cur, ind, sk, esc) == pre + (repeat(unit, child) + qk
        + seq![':', ' '] + fv + comma_if(k + 1 < n) + seq!['\n']));
    assert(pre + (repeat(unit, child) + qk + seq![':', ' '] + fv + comma_if(k + 1 < n) + seq!['\n'])
        =~= pre + repeat(unit, child) + qk + seq![':', ' '] + fv + comma_if(k + 1 < n) + seq!['\n']);
    lemma_occurs_split(s, base, pre + repeat(unit, child) + qk + seq![':', ' '] + fv + comma_if(k + 1 < n), seq!['\n']);
    lemma_occurs_split(s, base, pre + repeat(unit, child) + qk + seq![':', ' '] + fv, comma_if(k + 1 < n));
    lemma_occurs_split(s, base, pre + repeat(unit, child) + qk + seq![':', ' '], fv);
    lemma_occurs_split(s, base, pre + repeat(unit, child) + qk, seq![':', ' ']);
    lemma_occurs_split(s, base, pre + repeat(unit, child), qk);
    lemma_occurs_split(s, base, pre, repeat(unit, child));
    lemma_props_wf(ps, n, j);
    lemma_format_first(ps[j].1, child, ind, sk, esc);
    lemma_occurs_index(s, q, qk, 0);
    lemma_occurs_index(s, q + qk.len(), seq![':', ' '], 0);
    lemma_occurs_index(s, q + qk.len(), seq![':', ' '], 1);
    lemma_occurs_index(s, vpos, fv, 0);
    lemma_repeat_ws(ind, child);
    lemma_skip_run(s, p, repeat(unit, child));
    lemma_occurs_index(s, e + comma_if(k + 1 < n).len(), seq!['\n'], 0);
    if k + 1 < n {
        lemma_occurs_index(s, e, comma_if(true), 0);
    }
}

/// Where the `k`-th printed member of a pretty printed object sits, and
/// what follows it.
pub proof fn lemma_fmember_window(
    ps: Seq<(Seq<char>, Json)>,
    cur: nat,
    ind: i32,
    sk: bool,
    esc: bool,
    s: Seq<char>,
    open: int,
    k: int,
)
    requires
        props_wf(ps, ps.len() as int),
        0 <= k < ps.len(),
        occurs_at(s, open, format_json(Json::Object(ps), cur, ind, sk, esc)),
    ensures
        ({
            let child = sat_add(cur, indent_step(ind));
            let order = member_order(ps, sk);
            let j = order[k];
            let p = open + 2 + format_props(ps, order, k, cur, ind, sk, esc).len();
            let q = p + child;
            let qk = quoted(ps[j].0, esc);
            let vpos = q + qk.len() + 2;
            let e = vpos + format_json(ps[j].1, child, ind, sk, esc).len();
            let whole = format_json(Json::Object(ps), cur, ind, sk, esc);
            &&& 0 <= j < ps.len()
            &&& occurs_at(s, q, qk)
            &&& s[q] == '"'
            &&& s[q + qk.len()] == ':'
            &&& s[q + qk.len() + 1] == ' '
            &&& occurs_at(s, vpos, format_json(ps[j].1, child, ind, sk, esc))
            &&& json_wf(ps[j].1)
            &&& starts_value(s[vpos])
            &&& skip_ws(s, p) == q
            &&& e < s.len()
            &&& (k + 1 < ps.len() ==> s[e] == ',' && skip_ws(s, e + 1) == open + 2
                + format_props(ps, order, k + 1, cur, ind, sk, esc).len() + child)
            &&& (k + 1 == ps.len() ==> s[e] == '\n' && skip_ws(s, e) == open + whole.len() - 1
                && s[open + whole.len() - 1] == '}')
        }),
{
    let n = ps.len() as int;
    let order = member_order(ps, sk);
    lemma_member_order(ps, sk);
    let child = sat_add(cur, indent_step(ind));
    let unit = indent_unit(ind);
    let whole = format_json(Json::Object(ps), cur, ind, sk, esc);
    let all = format_props(ps, order, n, cur, ind, sk, esc);
    let base = open + 2;
    let tail = repeat(unit, cur) + seq!['}'];
    assert(whole == seq!['{', '\n'] + all + tail);
    lemma_occurs_split(s, open, seq!['{', '\n'] + all, tail);
    lemma_occurs_split(s, open, seq!['{', '\n'], all);
    lemma_occurs_split(s, base + all.len(), repeat(unit, cur), seq!['}']);
    lemma_format_props_prefix(ps, order, k + 1, n, cur, ind, sk, esc);
    lemma_occurs_prefix(s, base, format_props(ps, order, k + 1, cur, ind, sk, esc), all);
    lemma_fmember(ps, cur, ind, sk, esc, s, base, k);
    if k + 1 < n {
        lemma_format_props_prefix(ps, order, k + 2, n, cur, ind, sk, esc);
        lemma_occurs_prefix(s, base, format_props(ps, order, k + 2, cur, ind, sk, esc), all);
        lemma_fmember(ps, cur, ind, sk, esc, s, base, k + 1);
    } else {
        lemma_occurs_index(s, base + all.len() + cur, seq!['}'], 0);
        lemma_repeat_ws(ind, cur);
        lemma_skip_run(s, base + all.len(), repeat(unit, cur));
    }
}

pub proof fn lemma_format_parses(v: Json, cur: nat, ind: i32, sk: bool, esc: bool, s: Seq<char>, i: int)
    requires
        json_wf(v),
        occurs_at(s, i, format_json(v, cur, ind, sk, esc)),
        number_may_end(s, i + format_json(v, cur, ind, sk, esc).len()),
    ensures
        parse_value(s, i) == Ok::<(Json, int), (Seq<char>, nat, nat)>(
            (sorted_json(v, sk), i + format_json(v, cur, ind, sk, esc).len()),
        ),
    decreases v, 1int,
{
    let m = format_json(v, cur, ind, sk, esc);
    lemma_format_first(v, cur, ind, sk, esc);
    lemma_occurs_index(s, i, m, 0);
    assert(skip_ws(s, i) == i);
    match v {
        Json::Null => {
            assert(m == seq!['n', 'u', 'l', 'l']);
            assert(matches_at(s, i, seq!['n', 'u', 'l', 'l']));
            assert(parse_value(s, i) == parse_null(s, i));
        },
        Json::Bool(b) => {
            assert(matches_at(s, i, seq!['t', 'r', 'u', 'e']) == b);
            if !b {
                assert(matches_at(s, i, seq!['f', 'a', 'l', 's', 'e']));
            }
        },
        Json::Number(raw) => {
            lemma_parse_number_ok(s, i, raw);
        },
        Json::Str(t) => {
            lemma_parse_quoted(s, i, t, esc);
            assert(m[0] == '"');
        },
        Json::Array(items) => {
            lemma_format_array_parses(items, cur, ind, sk, esc, s, i);
        },
        Json::Object(ps) => {
            lemma_format_object_parses(ps, cur, ind, sk, esc, s, i);
        },
    }
}

#[verifier::spinoff_prover]
#[verifier::rlimit(60)]
pub proof fn lemma_format_array_parses(
    items: Seq<Json>,
    cur: nat,
    ind: i32,
    sk: bool,
    esc: bool,
    s: Seq<char>,
    i: int,
)
    requires
        items_wf(items, items.len() as int),
        occurs_at(s, i, format_json(Json::Array(items), cur, ind, sk, esc)),
    ensures
        parse_value(s, i) == Ok::<(Json, int), (Seq<char>, nat, nat)>(
            (sorted_json(Json::Array(items), sk), i + format_json(Json::Array(items), cur, ind, sk, esc).len()),
        ),
    decreases items, items.len() + 1,
{
    let m = format_json(Json::Array(items), cur, ind, sk, esc);
    lemma_occurs_index(s, i, m, 0);
    lemma_occurs_index(s, i, m, 1);
    assert(s[i] == '[');
    assert(skip_ws(s, i) == i);
    if items.len() == 0 {
        assert(s[i + 1] == ']');
        assert(sorted_items(items, sk, 0) =~= Seq::<Json>::empty());
    } else {
        let child = sat_add(cur, indent_step(ind));
        lemma_fitem_window(items, cur, ind, sk, esc, s, i, 0);
        lemma_format_items_parse(items, cur, ind, sk, esc, s, i, 0);
        assert(sorted_items(items, sk, 0) =~= Seq::<Json>::empty());
        assert(format_items(items, 0, cur, ind, sk, esc).len() == 0);
        assert(s[i + 1] == '\n');
        assert(skip_ws(s, i + 1) == skip_ws(s, i + 2));
        assert(skip_ws(s, i + 1) == i + 2 + child);
        assert(parse_array(s, i) == array_items(s, i, i + 2 + child, Seq::empty()));
        assert(parse_value(s, i) == parse_array(s, i));
    }
}

#[verifier::spinoff_prover]
#[verifier::rlimit(60)]
pub proof fn lemma_format_object_parses(
    ps: Seq<(Seq<char>, Json)>,
    cur: nat,
    ind: i32,
    sk: bool,
    esc: bool,
    s: Seq<char>,
    i: int,
)
    requires
        props_wf(ps, ps.len() as int),
        occurs_at(s, i, format_json(Json::Object(ps), cur, ind, sk, esc)),
    ensures
        parse_value(s, i) == Ok::<(Json, int), (Seq<char>, nat, nat)>(
            (sorted_json(Json::Object(ps), sk), i + format_json(Json::Object(ps), cur, ind, sk, esc).len()),
        ),
    decreases ps, ps.len() + 1,
{
    let m = format_json(Json::Object(ps), cur, ind, sk, esc);
    let order = member_order(ps, sk);
    lemma_member_order(ps, sk);
    lemma_occurs_index(s, i, m, 0);
    lemma_occurs_index(s, i, m, 1);
    assert(s[i] == '{');
    assert(skip_ws(s, i) == i);
    if ps.len() == 0 {
        assert(s[i + 1] == '}');
        assert(sorted_members(ps, order, sk, 0) =~= Seq::<(Seq<char>, Json)>::empty());
    } else {
        let child = sat_add(cur, indent_step(ind));
        lemma_fmember_window(ps, cur, ind, sk, esc, s, i, 0);
        lemma_format_members_parse(ps, cur, ind, sk, esc, s, i, 0);
        assert(sorted_members(ps, order, sk, 0) =~= Seq::<(Seq<char>, Json)>::empty());
        assert(format_props(ps, order, 0, cur, ind, sk, esc).len() == 0);
        assert(s[i + 1] == '\n');
        assert(skip_ws(s, i + 1) == skip_ws(s, i + 2));
        assert(skip_ws(s, i + 1) == i + 2 + child);
        assert(s[i + 2 + child] == '"');
        assert(parse_object(s, i) == object_members(s, i, i + 2 + child, Seq::empty()));
        assert(parse_value(s, i) == parse_object(s, i));
    }
}

/// One step over an array item, given that the item itself parses.
#[verifier::spinoff_prover]
#[verifier::rlimit(60)]
pub proof fn lemma_fitem_step(
    items: Seq<Json>,
    cur: nat,
    ind: i32,
    sk: bool,
    esc: bool,
    s: Seq<char>,
    open: int,
    k: int,
)
    requires
        items_wf(items, items.len() as int),
        0 <= k < items.len(),
        occurs_at(s, open, format_json(Json::Array(items), cur, ind, sk, esc)),
        parse_value(
            s,
            open + 2 + format_items(items, k, cur, ind, sk, esc).len() + sat_add(
                cur,
                indent_step(ind),
            ),
        ) == Ok::<(Json, int), (Seq<char>, nat, nat)>(
            (
                sorted_json(items[k], sk),
                open + 2 + format_items(items, k, cur, ind, sk, esc).len() + sat_add(
                    cur,
                    indent_step(ind),
                ) + format_json(items[k], sat_add(cur, indent_step(ind)), ind, sk, esc).len(),
            ),
        ),
    ensures
        ({
            let child = sat_add(cur, indent_step(ind));
            let q = open + 2 + format_items(items, k, cur, ind, sk, esc).len() + child;
            let whole = format_json(Json::Array(items), cur, ind, sk, esc);
            &&& k + 1 < items.len() ==> array_items(s, open, q, sorted_items(items, sk, k))
                == array_items(
                s,
                open,
                open + 2 + format_items(items, k + 1, cur, ind, sk, esc).len() + child,
                sorted_items(items, sk, k + 1),
            )
            &&& k + 1 == items.len() ==> array_items(s, open, q, sorted_items(items, sk, k))
                == Ok::<(Json, int), (Seq<char>, nat, nat)>(
                (sorted_json(Json::Array(items), sk), open + whole.len()),
            )
        }),
{
    let n = items.len() as int;
    lemma_fitem_window(items, cur, ind, sk, esc, s, open, k);
    assert(sorted_items(items, sk, k).push(sorted_json(items[k], sk)) == sorted_items(items, sk, k + 1));
    if k + 1 < n {
        lemma_fitem_window(items, cur, ind, sk, esc, s, open, k + 1);
    }
}

pub proof fn lemma_format_items_parse(
    items: Seq<Json>,
    cur: nat,
    ind: i32,
    sk: bool,
    esc: bool,
    s: Seq<char>,
    open: int,
    k: int,
)
    requires
        items_wf(items, items.len() as int),
        0 <= k < items.len(),
        occurs_at(s, open, format_json(Json::Array(items), cur, ind, sk, esc)),
    ensures
        array_items(
            s,
            open,
            open + 2 + format_items(items, k, cur, ind, sk, esc).len() + sat_add(
                cur,
                indent_step(ind),
            ),
            sorted_items(items, sk, k),
        ) == Ok::<(Json, int), (Seq<char>, nat, nat)>(
            (sorted_json(Json::Array(items), sk), open + format_json(Json::Array(items), cur, ind, sk, esc).len()),
        ),
    decreases items, items.len() - k,
{
    let n = items.len() as int;
    let child = sat_add(cur, indent_step(ind));
    let q = open + 2 + format_items(items, k, cur, ind, sk, esc).len() + child;
    lemma_fitem_window(items, cur, ind, sk, esc, s, open, k);
    lemma_format_parses(items[k], child, ind, sk, esc, s, q);
    lemma_fitem_step(items, cur, ind, sk, esc, s, open, k);
    if k + 1 < n {
        lemma_format_items_parse(items, cur, ind, sk, esc, s, open, k + 1);
    }
}

/// The key of the `k`-th printed member reads back, and its value starts
/// after the colon and a space.
#[verifier::spinoff_prover]
#[verifier::rlimit(40)]
pub proof fn lemma_fmember_key(
    ps: Seq<(Seq<char>, Json)>,
    cur: nat,
    ind: i32,
    sk: bool,
    esc: bool,
    s: Seq<char>,
    open: int,
    k: int,
)
    requires
        props_wf(ps, ps.len() as int),
        0 <= k < ps.len(),
        occurs_at(s, open, format_json(Json::Object(ps), cur, ind, sk, esc)),
    ensures
        ({
            let child = sat_add(cur, indent_step(ind));
            let order = member_order(ps, sk);
            let j = order[k];
            let q = open + 2 + format_props(ps, order, k, cur, ind, sk, esc).len() + child;
            let k3 = q + quoted(ps[j].0, esc).len();
            &&& skip_ws(s, q) == q
            &&& parse_key(s, q) == Ok::<(Seq<char>, int), (Seq<char>, nat, nat)>((ps[j].0, k3))
            &&& skip_ws(s, k3) == k3
            &&& 0 <= k3 < s.len()
            &&& s[k3] == ':'
            &&& skip_ws(s, k3 + 1) == k3 + 2
        }),
{
    let order = member_order(ps, sk);
    lemma_member_order(ps, sk);
    let j = order[k];
    let child = sat_add(cur, indent_step(ind));
    let q = open + 2 + format_props(ps, order, k, cur, ind, sk, esc).len() + child;
    let k3 = q + quoted(ps[j].0, esc).len();
    lemma_fmember_window(ps, cur, ind, sk, esc, s, open, k);
    lemma_parse_quoted(s, q, ps[j].0, esc);
    assert(is_json_ws(s[k3 + 1]));
    assert(skip_ws(s, k3 + 2) == k3 + 2);
    assert(skip_ws(s, k3 + 1) == k3 + 2);
}

/// One step over an object member, given that its value parses.
#[verifier::spinoff_prover]
#[verifier::rlimit(60)]
pub proof fn lemma_fmember_step(
    ps: Seq<(Seq<char>, Json)>,
    cur: nat,
    ind: i32,
    sk: bool,
    esc: bool,
    s: Seq<char>,
    open: int,
    k: int,
)
    requires
        props_wf(ps, ps.len() as int),
        0 <= k < ps.len(),
        occurs_at(s, open, format_json(Json::Object(ps), cur, ind, sk, esc)),
        ({
            let child = sat_add(cur, indent_step(ind));
            let order = member_order(ps, sk);
            let j = order[k];
            let q = open + 2 + format_props(ps, order, k, cur, ind, sk, esc).len() + child;
            let vpos = q + quoted(ps[j].0, esc).len() + 2;
            parse_value(s, vpos) == Ok::<(Json, int), (Seq<char>, nat, nat)>(
                (sorted_json(ps[j].1, sk), vpos + format_json(ps[j].1, child, ind, sk, esc).len()),
            )
        }),
    ensures
        ({
            let child = sat_add(cur, indent_step(ind));
            let order = member_order(ps, sk);
            let q = open + 2 + format_props(ps, order, k, cur, ind, sk, esc).len() + child;
            let whole = format_json(Json::Object(ps), cur, ind, sk, esc);
            &&& k + 1 < ps.len() ==> object_members(s, open, q, sorted_members(ps, order, sk, k))
                == object_members(
                s,
                open,
                open + 2 + format_props(ps, order, k + 1, cur, ind, sk, esc).len() + child,
                sorted_members(ps, order, sk, k + 1),
            )
            &&& k + 1 == ps.len() ==> object_members(s, open, q, sorted_members(ps, order, sk, k))
                == Ok::<(Json, int), (Seq<char>, nat, nat)>(
                (sorted_json(Json::Object(ps), sk), open + whole.len()),
            )
        }),
{
    let n = ps.len() as int;
    let order = member_order(ps, sk);
    lemma_member_order(ps, sk);
    let j = order[k];
    let child = sat_add(cur, indent_step(ind));
    let q = open + 2 + format_props(ps, order, k, cur, ind, sk, esc).len() + child;
    let qk = quoted(ps[j].0, esc);
    let vpos = q + qk.len() + 2;
    let e = vpos + format_json(ps[j].1, child, ind, sk, esc).len();
    let k3 = q + qk.len();
    lemma_fmember_window(ps, cur, ind, sk, esc, s, open, k);
    lemma_fmember_key(ps, cur, ind, sk, esc, s, open, k);
    lemma_parse_value_after_ws(s, k3 + 1, vpos);
    assert(parse_value(s, k3 + 1) == Ok::<(Json, int), (Seq<char>, nat, nat)>(
        (sorted_json(ps[j].1, sk), e),
    ));
    assert(skip_ws(s, q) == q);
    assert(sorted_members(ps, order, sk, k).push((ps[j].0, sorted_json(ps[j].1, sk)))
        == sorted_members(ps, order, sk, k + 1));
    if k + 1 < n {
        lemma_fmember_window(ps, cur, ind, sk, esc, s, open, k + 1);
        assert(skip_ws(s, e) == e);
    }
}

pub proof fn lemma_format_members_parse(
    ps: Seq<(Seq<char>, Json)>,
    cur: nat,
    ind: i32,
    sk: bool,
    esc: bool,
    s: Seq<char>,
    open: int,
    k: int,
)
    requires
        props_wf(ps, ps.len() as int),
        0 <= k < ps.len(),
        occurs_at(s, open, format_json(Json::Object(ps), cur, ind, sk, esc)),
    ensures
        object_members(
            s,
            open,
            open + 2 + format_props(ps, member_order(ps, sk), k, cur, ind, sk, esc).len()
                + sat_add(cur, indent_step(ind)),
            sorted_members(ps, member_order(ps, sk), sk, k),
        ) == Ok::<(Json, int), (Seq<char>, nat, nat)>(
            (sorted_json(Json::Object(ps), sk), open + format_json(Json::Object(ps), cur, ind, sk, esc).len()),
        ),
    decreases ps, ps.len() - k,
{
    let n = ps.len() as int;
    let order = member_order(ps, sk);
    lemma_member_order(ps, sk);
    let j = order[k];
    let child = sat_add(cur, indent_step(ind));
    let q = open + 2 + format_props(ps, order, k, cur, ind, sk, esc).len() + child;
    let qk = quoted(ps[j].0, esc);
    let vpos = q + qk.len() + 2;
    lemma_fmember_window(ps, cur, ind, sk, esc, s, open, k);
    lemma_format_parses(ps[j].1, child, ind, sk, esc, s, vpos);
    lemma_fmember_step(ps, cur, ind, sk, esc, s, open, k);
    if k + 1 < n {
        lemma_format_members_parse(ps, cur, ind, sk, esc, s, open, k + 1);
    }
}

/// Printing members in their own order reorders nothing.
pub proof fn lemma_sorted_unsorted(v: Json)
    ensures
        sorted_json(v, false) == v,
    decreases v,
{
    match v {
        Json::Array(items) => {
            lemma_sorted_items_unsorted(items, items.len() as int);
            assert(sorted_items(items, false, items.len() as int) =~= items);
        },
        Json::Object(ps) => {
            lemma_sorted_members_unsorted(ps, ps.len() as int);
            assert(sorted_members(ps, member_order(ps, false), false, ps.len() as int) =~= ps);
        },
        _ => {},
    }
}

proof fn lemma_sorted_items_unsorted(items: Seq<Json>, k: int)
    requires
        0 <= k <= items.len(),
    ensures
        sorted_items(items, false, k) =~= items.take(k),
    decreases items, k,
{
    if k > 0 {
        lemma_sorted_items_unsorted(items, k - 1);
        lemma_sorted_unsorted(items[k - 1]);
        assert(items.take(k - 1).push(items[k - 1]) =~= items.take(k));
    }
}

proof fn lemma_sorted_members_unsorted(ps: Seq<(Seq<char>, Json)>, k: int)
    requires
        0 <= k <= ps.len(),
    ensures
        sorted_members(ps, member_order(ps, false), false, k) =~= ps.take(k),
    decreases ps, k,
{
    if k > 0 {
        lemma_sorted_members_unsorted(ps, k - 1);
        assert(member_order(ps, false)[k - 1] == k - 1);
        lemma_sorted_unsorted(ps[k - 1].1);
        assert(ps.take(k - 1).push((ps[k - 1].0, ps[k - 1].1)) =~= ps.take(k));
    }
}

/// Pretty printed text (members in their own order) parses back to
/// exactly the value it was printed from, for any indentation.
pub proof fn law_format_then_parse(v: Json, indent_spaces: i32, esc: bool)
    requires
        json_wf(v),
    ensures
        parse_document(format_json(v, 0, indent_spaces, false, esc)) == Ok::<
            Json,
            (Seq<char>, nat, nat),
        >(v),
{
    law_sorted_format_then_parse(v, indent_spaces, false, esc);
    lemma_sorted_unsorted(v);
}

/// Pretty printed text parses back to the value it was printed from, with
/// every object's members in the order they were printed: by key where
/// keys are sorted (equal keys keeping their order), else as they were.
pub proof fn law_sorted_format_then_parse(v: Json, indent_spaces: i32, sort_keys: bool, esc: bool)
    requires
        json_wf(v),
    ensures
        parse_document(format_json(v, 0, indent_spaces, sort_keys, esc)) == Ok::<
            Json,
            (Seq<char>, nat, nat),
        >(sorted_json(v, sort_keys)),
{
    let s = format_json(v, 0, indent_spaces, sort_keys, esc);
    assert(s.subrange(0, s.len() as int) =~= s);
    lemma_format_first(v, 0, indent_spaces, sort_keys, esc);
    lemma_format_parses(v, 0, indent_spaces, sort_keys, esc, s, 0);
}

} // verus!
