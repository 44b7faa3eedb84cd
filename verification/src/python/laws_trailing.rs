//! A dictionary whose members each end with a comma, the last one too (as
//! formatters write multi-line dictionaries), reads as the same value as
//! without the trailing comma.

use vstd::prelude::*;
use crate::text::{is_ws, first_non_ws, last_non_ws_end, trim_seq};
use crate::json::value::Json;
use crate::json::format::{py_quoted, python_json, repeat, sat_add};
use crate::json::laws::{occurs_at, lemma_occurs_split, lemma_occurs_index, lemma_occurs_prefix};
use crate::python::{py_skip, py_value, py_dict, dict_members, py_key, python_literal, python_source,
    first_eq, is_target_char, lemma_py_value_skip, ParseError};
use crate::python::laws::{py_wf, py_props_wf, py_text_ok, py_starts, lemma_py_props_wf,
    lemma_python_first, lemma_repeat_spaces, lemma_py_skip_run, lemma_py_skip_at_start,
    lemma_py_string_ok, lemma_python_parses, lemma_first_eq_found, lemma_trim_keeps_first,
    law_python_then_read};

verus! {

/// The first `k` members, each as `'key': value,` on a line of its own.
pub open spec fn python_props_tc(ps: Seq<(Seq<char>, Json)>, k: int, cur: nat, indent: nat) -> Seq<
    char,
>
    decreases k,
{
    if k <= 0 || k > ps.len() {
        Seq::empty()
    } else {
        let child = sat_add(cur, indent);
        python_props_tc(ps, k - 1, cur, indent) + repeat(' ', child) + py_quoted(ps[k - 1].0) + seq![
            ':',
            ' ',
        ] + python_json(ps[k - 1].1, child, indent) + seq![',', '\n']
    }
}

/// A non-empty dictionary written with a comma after every member.
pub open spec fn python_dict_tc(ps: Seq<(Seq<char>, Json)>, cur: nat, indent: nat) -> Seq<char> {
    seq!['{', '\n'] + python_props_tc(ps, ps.len() as int, cur, indent) + repeat(' ', cur) + seq!['}']
}

proof fn lemma_props_tc_prefix(ps: Seq<(Seq<char>, Json)>, k: int, n: int, cur: nat, ind: nat)
    requires
        0 <= k <= n <= ps.len(),
    ensures
        python_props_tc(ps, k, cur, ind).is_prefix_of(python_props_tc(ps, n, cur, ind)),
    decreases n - k,
{
    if k < n {
        lemma_props_tc_prefix(ps, k, n - 1, cur, ind);
        let a = python_props_tc(ps, k, cur, ind);
        let b = python_props_tc(ps, n - 1, cur, ind);
        let c = python_props_tc(ps, n, cur, ind);
        assert(a =~= c.subrange(0, a.len() as int)) by {
            assert forall|m: int| 0 <= m < a.len() implies a[m] == c[m] by {
                assert(a[m] == b[m]);
            }
        }
    }
}

/// One member: indentation, `'key': value`, a comma, a line feed.
proof fn lemma_tc_member(ps: Seq<(Seq<char>, Json)>, cur: nat, ind: nat, s: Seq<char>, base: int, k: int)
    requires
        py_props_wf(ps, ps.len() as int),
        0 <= k < ps.len(),
        occurs_at(s, base, python_props_tc(ps, k + 1, cur, ind)),
    ensures
        ({
            let child = sat_add(cur, ind);
            let p = base + python_props_tc(ps, k, cur, ind).len();
            let q = p + child;
            let qk = py_quoted(ps[k].0);
            let vpos = q + qk.len() + 2;
            let pv = python_json(ps[k].1, child, ind);
            let e = vpos + pv.len();
            &&& occurs_at(s, q, qk)
            &&& s[q] == '\''
            &&& s[q + qk.len()] == ':'
            &&& s[q + qk.len() + 1] == ' '
            &&& occurs_at(s, vpos, pv)
            &&& py_text_ok(ps[k].0)
            &&& py_wf(ps[k].1)
            &&& py_starts(s[vpos])
            &&& py_skip(s, p) == q
            &&& s[e] == ','
            &&& s[e + 1] == '\n'
            &&& base + python_props_tc(ps, k + 1, cur, ind).len() == e + 2
        }),
{
    let n = ps.len() as int;
    let child = sat_add(cur, ind);
    let pre = python_props_tc(ps, k, cur, ind);
    let p = base + pre.len();
    let q = p + child;
    let qk = py_quoted(ps[k].0);
    let pv = python_json(ps[k].1, child, ind);
    let vpos = q + qk.len() + 2;
    let e = vpos + pv.len();
    assert(python_props_tc(ps, k + 1, cur, ind) == pre + repeat(' ', child) + qk + seq![':', ' ']
        + pv + seq![',', '\n']);
    lemma_occurs_split(s, base, pre + repeat(' ', child) + qk + seq![':', ' '] + pv, seq![',', '\n']);
    lemma_occurs_split(s, base, pre + repeat(' ', child) + qk + seq![':', ' '], pv);
    lemma_occurs_split(s, base, pre + repeat(' ', child) + qk, seq![':', ' ']);
    lemma_occurs_split(s, base, pre + repeat(' ', child), qk);
    lemma_occurs_split(s, base, pre, repeat(' ', child));
    lemma_py_props_wf(ps, n, k);
    lemma_python_first(ps[k].1, child, ind);
    lemma_occurs_index(s, q, qk, 0);
    lemma_occurs_index(s, q + qk.len(), seq![':', ' '], 0);
    lemma_occurs_index(s, q + qk.len(), seq![':', ' '], 1);
    lemma_occurs_index(s, vpos, pv, 0);
    lemma_repeat_spaces(child);
    lemma_py_skip_run(s, p, repeat(' ', child));
    lemma_occurs_index(s, e, seq![',', '\n'], 0);
    lemma_occurs_index(s, e, seq![',', '\n'], 1);
}

/// Where member `k` sits in the dictionary, and what follows it.
proof fn lemma_tc_window(ps: Seq<(Seq<char>, Json)>, cur: nat, ind: nat, s: Seq<char>, open: int, k: int)
    requires
        py_props_wf(ps, ps.len() as int),
        0 <= k < ps.len(),
        occurs_at(s, open, python_dict_tc(ps, cur, ind)),
    ensures
        ({
            let child = sat_add(cur, ind);
            let p = open + 2 + python_props_tc(ps, k, cur, ind).len();
            let q = p + child;
            let qk = py_quoted(ps[k].0);
            let vpos = q + qk.len() + 2;
            let e = vpos + python_json(ps[k].1, child, ind).len();
            let whole = python_dict_tc(ps, cur, ind);
            &&& occurs_at(s, q, qk)
            &&& s[q] == '\''
            &&& s[q + qk.len()] == ':'
            &&& s[q + qk.len() + 1] == ' '
            &&& occurs_at(s, vpos, python_json(ps[k].1, child, ind))
            &&& py_text_ok(ps[k].0)
            &&& py_wf(ps[k].1)
            &&& py_starts(s[vpos])
            &&& py_skip(s, p) == q
            &&& e + 1 < s.len()
            &&& s[e] == ','
            &&& s[e + 1] == '\n'
            &&& (k + 1 < ps.len() ==> py_skip(s, e + 2) == open + 2 + python_props_tc(
                ps,
                k + 1,
                cur,
                ind,
            ).len() + child && open + 2 + python_props_tc(ps, k + 1, cur, ind).len() == e + 2)
            &&& (k + 1 == ps.len() ==> py_skip(s, e + 2) == open + whole.len() - 1 && s[open
                + whole.len() - 1] == '}')
        }),
{
    let n = ps.len() as int;
    let child = sat_add(cur, ind);
    let whole = python_dict_tc(ps, cur, ind);
    let all = python_props_tc(ps, n, cur, ind);
    let base = open + 2;
    let tail = repeat(' ', cur) + seq!['}'];
    assert(whole == seq!['{', '\n'] + all + tail);
    lemma_occurs_split(s, open, seq!['{', '\n'] + all, tail);
    lemma_occurs_split(s, open, seq!['{', '\n'], all);
    lemma_occurs_split(s, base + all.len(), repeat(' ', cur), seq!['}']);
    lemma_props_tc_prefix(ps, k + 1, n, cur, ind);
    lemma_occurs_prefix(s, base, python_props_tc(ps, k + 1, cur, ind), all);
    lemma_tc_member(ps, cur, ind, s, base, k);
    if k + 1 < n {
        lemma_props_tc_prefix(ps, k + 2, n, cur, ind);
        lemma_occurs_prefix(s, base, python_props_tc(ps, k + 2, cur, ind), all);
        lemma_tc_member(ps, cur, ind, s, base, k + 1);
    } else {
        lemma_occurs_index(s, base + all.len() + cur, seq!['}'], 0);
        lemma_repeat_spaces(cur);
        lemma_py_skip_run(s, base + all.len(), repeat(' ', cur));
    }
}

/// One step over a member, given that its value reads back.
#[verifier::spinoff_prover]
#[verifier::rlimit(80)]
proof fn lemma_tc_step(ps: Seq<(Seq<char>, Json)>, cur: nat, ind: nat, s: Seq<char>, open: int, k: int)
    requires
        py_props_wf(ps, ps.len() as int),
        0 <= k < ps.len(),
        occurs_at(s, open, python_dict_tc(ps, cur, ind)),
        ({
            let child = sat_add(cur, ind);
            let q = open + 2 + python_props_tc(ps, k, cur, ind).len() + child;
            let vpos = q + py_quoted(ps[k].0).len() + 2;
            py_value(s, vpos) == Ok::<(Json, int), ParseError>(
                (ps[k].1, vpos + python_json(ps[k].1, child, ind).len()),
            )
        }),
    ensures
        ({
            let child = sat_add(cur, ind);
            let q = open + 2 + python_props_tc(ps, k, cur, ind).len() + child;
            let whole = python_dict_tc(ps, cur, ind);
            &&& k + 1 < ps.len() ==> dict_members(s, q, ps.take(k)) == dict_members(
                s,
                open + 2 + python_props_tc(ps, k + 1, cur, ind).len() + child,
                ps.take(k + 1),
            )
            &&& k + 1 == ps.len() ==> dict_members(s, q, ps.take(k)) == Ok::<(Json, int), ParseError>(
                (Json::Object(ps), open + whole.len()),
            )
        }),
{
    let n = ps.len() as int;
    let child = sat_add(cur, ind);
    let q = open + 2 + python_props_tc(ps, k, cur, ind).len() + child;
    let qk = py_quoted(ps[k].0);
    let k2 = q + qk.len();
    let vpos = k2 + 2;
    let e = vpos + python_json(ps[k].1, child, ind).len();
    lemma_tc_window(ps, cur, ind, s, open, k);
    lemma_py_skip_at_start(s, q);
    lemma_py_string_ok(s, q, ps[k].0);
    assert(py_key(s, q) == Ok::<(Seq<char>, int), ParseError>((ps[k].0, k2)));
    lemma_py_skip_at_start(s, k2);
    lemma_py_skip_at_start(s, vpos);
    assert(py_skip(s, k2 + 1) == vpos);
    lemma_py_value_skip(s, k2 + 1);
    assert(py_value(s, k2 + 1) == Ok::<(Json, int), ParseError>((ps[k].1, e)));
    assert(ps.take(k).push((ps[k].0, ps[k].1)) =~= ps.take(k + 1));
    lemma_py_skip_at_start(s, e);
    assert(is_ws(s[e + 1]));
    assert(py_skip(s, e + 1) == py_skip(s, e + 2));
    let acc = ps.take(k);
    assert(py_skip(s, e) == e);
    if k + 1 < n {
        lemma_tc_window(ps, cur, ind, s, open, k + 1);
        let q2 = open + 2 + python_props_tc(ps, k + 1, cur, ind).len() + child;
        assert(py_skip(s, e + 1) == q2);
        assert(q2 > q);
        assert(dict_members(s, q, acc) == dict_members(s, q2, acc.push((ps[k].0, ps[k].1))));
    } else {
        assert(ps.take(k + 1) =~= ps);
        let close = open + python_dict_tc(ps, cur, ind).len() - 1;
        assert(py_skip(s, e + 1) == close);
        assert(close > q);
        assert(dict_members(s, close, ps) == Ok::<(Json, int), ParseError>((Json::Object(ps), close + 1)));
        assert(dict_members(s, q, acc) == dict_members(s, close, acc.push((ps[k].0, ps[k].1))));
    }
}

proof fn lemma_tc_members_parse(ps: Seq<(Seq<char>, Json)>, cur: nat, ind: nat, s: Seq<char>, open: int, k: int)
    requires
        py_props_wf(ps, ps.len() as int),
        0 <= k < ps.len(),
        occurs_at(s, open, python_dict_tc(ps, cur, ind)),
    ensures
        dict_members(
            s,
            open + 2 + python_props_tc(ps, k, cur, ind).len() + sat_add(cur, ind),
            ps.take(k),
        ) == Ok::<(Json, int), ParseError>((Json::Object(ps), open + python_dict_tc(ps, cur, ind).len())),
    decreases ps.len() - k,
{
    let n = ps.len() as int;
    let child = sat_add(cur, ind);
    let q = open + 2 + python_props_tc(ps, k, cur, ind).len() + child;
    let vpos = q + py_quoted(ps[k].0).len() + 2;
    lemma_tc_window(ps, cur, ind, s, open, k);
    lemma_python_parses(ps[k].1, child, ind, s, vpos);
    lemma_tc_step(ps, cur, ind, s, open, k);
    if k + 1 < n {
        lemma_tc_members_parse(ps, cur, ind, s, open, k + 1);
    }
}

/// Wherever it stands, a dictionary written with a comma after every
/// member, the last one included, reads as that dictionary: the trailing
/// comma before the closing brace is allowed.
#[verifier::spinoff_prover]
#[verifier::rlimit(60)]
pub proof fn law_trailing_comma_dict_reads(
    ps: Seq<(Seq<char>, Json)>,
    cur: nat,
    ind: nat,
    s: Seq<char>,
    i: int,
)
    requires
        py_props_wf(ps, ps.len() as int),
        ps.len() > 0,
        occurs_at(s, i, python_dict_tc(ps, cur, ind)),
    ensures
        py_value(s, i) == Ok::<(Json, int), ParseError>(
            (Json::Object(ps), i + python_dict_tc(ps, cur, ind).len()),
        ),
{
    let m = python_dict_tc(ps, cur, ind);
    let child = sat_add(cur, ind);
    lemma_occurs_index(s, i, m, 0);
    lemma_occurs_index(s, i, m, 1);
    assert(s[i] == '{');
    lemma_py_skip_at_start(s, i);
    lemma_tc_window(ps, cur, ind, s, i, 0);
    lemma_tc_members_parse(ps, cur, ind, s, i, 0);
    assert(ps.take(0) =~= Seq::<(Seq<char>, Json)>::empty());
    assert(python_props_tc(ps, 0, cur, ind).len() == 0);
    assert(s[i + 1] == '\n');
    assert(py_skip(s, i + 1) == py_skip(s, i + 2));
    assert(py_dict(s, i) == dict_members(s, i + 2 + child, Seq::empty()));
    assert(py_value(s, i) == py_dict(s, i));
}

/// A whole literal that is a dictionary written with trailing commas
/// reads as the same value as its rendering without them.
pub proof fn law_trailing_comma_same_value(ps: Seq<(Seq<char>, Json)>, ind: nat)
    requires
        py_props_wf(ps, ps.len() as int),
        ps.len() > 0,
    ensures
        python_literal(python_dict_tc(ps, 0, ind)) == python_literal(
            python_json(Json::Object(ps), 0, ind),
        ),
        python_literal(python_dict_tc(ps, 0, ind)) == Ok::<Json, ParseError>(Json::Object(ps)),
{
    let s = python_dict_tc(ps, 0, ind);
    // The text is its own literal source: trimmed already, no assignment.
    assert(s[0] == '{');
    assert(s[s.len() - 1] == '}');
    assert(first_non_ws(s, 0) == 0);
    assert(last_non_ws_end(s, s.len() as int) == s.len());
    assert(s.subrange(0, s.len() as int) =~= s);
    assert(trim_seq(s) == s);
    let eq = first_eq(s, 0);
    if eq < s.len() {
        lemma_first_eq_found(s, 0);
        assert(eq > 0);
        let head = s.take(eq);
        assert(head[0] == s[0]);
        lemma_trim_keeps_first(head);
        let prefix = trim_seq(head);
        assert(!is_target_char(prefix[0]));
    }
    assert(python_source(s) == s);
    assert(occurs_at(s, 0, s)) by {
        assert(s.subrange(0, s.len() as int) =~= s);
    }
    law_trailing_comma_dict_reads(ps, 0, ind, s, 0);
    lemma_py_skip_at_start(s, 0);
    assert(py_wf(Json::Object(ps)));
    law_python_then_read(Json::Object(ps), ind);
}

} // verus!
