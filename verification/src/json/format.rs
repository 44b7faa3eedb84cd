//! Serializers: pretty printing, minification, stringification and the
//! Python-literal rendering, each with the exact text it produces.

use vstd::prelude::*;
use crate::text::{push_char, push_str, hex_char, hex_char_exec, chars_of};
use super::value::{Json, JSONValue, JSONProperty, view_value, view_items, view_props,
    lemma_view_items, lemma_view_props};

verus! {

broadcast use {lemma_view_items, lemma_view_props};

// ---------------------------------------------------------------------
// Specification

/// The JSON escape of one character inside a double-quoted string.
pub open spec fn escape_char(c: char, escape_slashes: bool) -> Seq<char> {
    if c == '"' {
        seq!['\\', '"']
    } else if c == '\\' {
        seq!['\\', '\\']
    } else if c == '/' {
        if escape_slashes {
            seq!['\\', '/']
        } else {
            seq!['/']
        }
    } else if c == '\t' {
        seq!['\\', 't']
    } else if c == '\n' {
        seq!['\\', 'n']
    } else if c == '\r' {
        seq!['\\', 'r']
    } else if c == '\u{08}' {
        seq!['\\', 'b']
    } else if c == '\u{0C}' {
        seq!['\\', 'f']
    } else if (c as u32) < 0x20 {
        seq!['\\', 'u', '0', '0', hex_char((c as u32 / 16) as nat), hex_char((c as u32 % 16) as nat)]
    } else {
        seq![c]
    }
}

/// The escapes of all characters of `s`, concatenated.
pub open spec fn escape_chars(s: Seq<char>, escape_slashes: bool) -> Seq<char>
    decreases s.len(),
{
    if s.len() == 0 {
        Seq::empty()
    } else {
        escape_chars(s.drop_last(), escape_slashes) + escape_char(s.last(), escape_slashes)
    }
}

/// `s` as a double-quoted JSON string literal.
pub open spec fn quoted(s: Seq<char>, escape_slashes: bool) -> Seq<char> {
    seq!['"'] + escape_chars(s, escape_slashes) + seq!['"']
}

/// The escape of one character inside a single-quoted Python string.
pub open spec fn py_escape_char(c: char) -> Seq<char> {
    if c == '\'' {
        seq!['\\', '\'']
    } else if c == '\\' {
        seq!['\\', '\\']
    } else if c == '\t' {
        seq!['\\', 't']
    } else if c == '\n' {
        seq!['\\', 'n']
    } else if c == '\r' {
        seq!['\\', 'r']
    } else if c == '\u{08}' {
        seq!['\\', 'b']
    } else if c == '\u{0C}' {
        seq!['\\', 'f']
    } else if (c as u32) < 0x20 {
        seq!['\\', 'x', hex_char((c as u32 / 16) as nat), hex_char((c as u32 % 16) as nat)]
    } else {
        seq![c]
    }
}

pub open spec fn py_escape_chars(s: Seq<char>) -> Seq<char>
    decreases s.len(),
{
    if s.len() == 0 {
        Seq::empty()
    } else {
        py_escape_chars(s.drop_last()) + py_escape_char(s.last())
    }
}

/// `s` as a single-quoted Python string literal.
pub open spec fn py_quoted(s: Seq<char>) -> Seq<char> {
    seq!['\''] + py_escape_chars(s) + seq!['\'']
}

pub open spec fn null_text() -> Seq<char> {
    seq!['n', 'u', 'l', 'l']
}

pub open spec fn bool_text(b: bool) -> Seq<char> {
    if b {
        seq!['t', 'r', 'u', 'e']
    } else {
        seq!['f', 'a', 'l', 's', 'e']
    }
}

/// `,` between items, nothing after the last one.
pub open spec fn comma_if(more: bool) -> Seq<char> {
    if more {
        seq![',']
    } else {
        Seq::empty()
    }
}

/// Compact JSON: no whitespace at all.
pub open spec fn minify_json(v: Json, esc: bool) -> Seq<char>
    decreases v, 0int,
{
    match v {
        Json::Null => null_text(),
        Json::Bool(b) => bool_text(b),
        Json::Number(raw) => raw,
        Json::Str(s) => quoted(s, esc),
        Json::Array(items) => seq!['['] + minify_items(items, items.len() as int, esc) + seq![']'],
        Json::Object(ps) => seq!['{'] + minify_props(ps, ps.len() as int, esc) + seq!['}'],
    }
}

/// The first `k` items of an array, each followed by `,` unless it is the last.
pub open spec fn minify_items(items: Seq<Json>, k: int, esc: bool) -> Seq<char>
    decreases items, k,
{
    if k <= 0 || k > items.len() {
        Seq::empty()
    } else {
        minify_items(items, k - 1, esc) + minify_json(items[k - 1], esc) + comma_if(k < items.len())
    }
}

/// The first `k` members of an object as `"key":value`, comma separated.
pub open spec fn minify_props(ps: Seq<(Seq<char>, Json)>, k: int, esc: bool) -> Seq<char>
    decreases ps, k,
{
    if k <= 0 || k > ps.len() {
        Seq::empty()
    } else {
        minify_props(ps, k - 1, esc) + quoted(ps[k - 1].0, esc) + seq![':'] + minify_json(
            ps[k - 1].1,
            esc,
        ) + comma_if(k < ps.len())
    }
}

/// Lexicographic order of character sequences by code point.
pub open spec fn key_le(a: Seq<char>, b: Seq<char>) -> bool
    decreases a.len(),
{
    if a.len() == 0 {
        true
    } else if b.len() == 0 {
        false
    } else if a[0] != b[0] {
        (a[0] as u32) < (b[0] as u32)
    } else {
        key_le(a.drop_first(), b.drop_first())
    }
}

/// Inserts index `x` into `sorted` after every index whose key is not greater.
pub open spec fn insert_by_key(sorted: Seq<int>, x: int, keys: Seq<Seq<char>>) -> Seq<int>
    decreases sorted.len(),
{
    if sorted.len() == 0 {
        seq![x]
    } else if key_le(keys[sorted.last()], keys[x]) {
        sorted.push(x)
    } else {
        insert_by_key(sorted.drop_last(), x, keys).push(sorted.last())
    }
}

/// The stable ordering of the indices `order` by their keys.
pub open spec fn sort_by_key(order: Seq<int>, keys: Seq<Seq<char>>) -> Seq<int>
    decreases order.len(),
{
    if order.len() == 0 {
        Seq::empty()
    } else {
        insert_by_key(sort_by_key(order.drop_last(), keys), order.last(), keys)
    }
}

pub open spec fn identity_order(n: nat) -> Seq<int> {
    Seq::new(n, |i: int| i)
}

pub open spec fn prop_keys(ps: Seq<(Seq<char>, Json)>) -> Seq<Seq<char>> {
    Seq::new(ps.len(), |i: int| ps[i].0)
}

/// The order in which object members are printed.
pub open spec fn member_order(ps: Seq<(Seq<char>, Json)>, sort_keys: bool) -> Seq<int> {
    if sort_keys {
        sort_by_key(identity_order(ps.len()), prop_keys(ps))
    } else {
        identity_order(ps.len())
    }
}

/// `n` copies of `c`.
pub open spec fn repeat(c: char, n: nat) -> Seq<char> {
    Seq::new(n, |i: int| c)
}

/// Addition that stops at the largest `usize`.
pub open spec fn sat_add(a: nat, b: nat) -> nat {
    if a + b > usize::MAX {
        usize::MAX as nat
    } else {
        a + b
    }
}

/// The indentation character: a tab for a negative indent, else a space.
pub open spec fn indent_unit(indent_spaces: i32) -> char {
    if indent_spaces < 0 {
        '\t'
    } else {
        ' '
    }
}

/// How much one nesting level adds to the indentation.
pub open spec fn indent_step(indent_spaces: i32) -> nat {
    if indent_spaces < 0 {
        1
    } else {
        indent_spaces as nat
    }
}

/// Pretty printed JSON: one item per line, members as `"key": value`,
/// nested levels indented by `indent_step` more characters.
pub open spec fn format_json(v: Json, cur: nat, ind: i32, sort_keys: bool, esc: bool) -> Seq<char>
    decreases v, 0int,
{
    match v {
        Json::Null => null_text(),
        Json::Bool(b) => bool_text(b),
        Json::Number(raw) => raw,
        Json::Str(s) => quoted(s, esc),
        Json::Array(items) => if items.len() == 0 {
            seq!['[', ']']
        } else {
            seq!['[', '\n'] + format_items(items, items.len() as int, cur, ind, sort_keys, esc)
                + repeat(indent_unit(ind), cur) + seq![']']
        },
        Json::Object(ps) => if ps.len() == 0 {
            seq!['{', '}']
        } else {
            seq!['{', '\n'] + format_props(
                ps,
                member_order(ps, sort_keys),
                ps.len() as int,
                cur,
                ind,
                sort_keys,
                esc,
            ) + repeat(indent_unit(ind), cur) + seq!['}']
        },
    }
}

pub open spec fn format_items(
    items: Seq<Json>,
    k: int,
    cur: nat,
    ind: i32,
    sort_keys: bool,
    esc: bool,
) -> Seq<char>
    decreases items, k,
{
    if k <= 0 || k > items.len() {
        Seq::empty()
    } else {
        let child = sat_add(cur, indent_step(ind));
        format_items(items, k - 1, cur, ind, sort_keys, esc) + repeat(indent_unit(ind), child)
            + format_json(items[k - 1], child, ind, sort_keys, esc) + comma_if(k < items.len())
            + seq!['\n']
    }
}

pub open spec fn format_props(
    ps: Seq<(Seq<char>, Json)>,
    order: Seq<int>,
    k: int,
    cur: nat,
    ind: i32,
    sort_keys: bool,
    esc: bool,
) -> Seq<char>
    decreases ps, k,
{
    if k <= 0 || k > order.len() {
        Seq::empty()
    } else {
        let j = order[k - 1];
        let child = sat_add(cur, indent_step(ind));
        let piece = if 0 <= j < ps.len() {
            repeat(indent_unit(ind), child) + quoted(ps[j].0, esc) + seq![':', ' '] + format_json(
                ps[j].1,
                child,
                ind,
                sort_keys,
                esc,
            ) + comma_if(k < order.len()) + seq!['\n']
        } else {
            Seq::empty()
        };
        format_props(ps, order, k - 1, cur, ind, sort_keys, esc) + piece
    }
}

/// The Python literal rendering: `None`/`True`/`False`, single-quoted
/// strings, `indent` spaces per level.
pub open spec fn python_json(v: Json, cur: nat, indent: nat) -> Seq<char>
    decreases v, 0int,
{
    match v {
        Json::Null => seq!['N', 'o', 'n', 'e'],
        Json::Bool(b) => if b {
            seq!['T', 'r', 'u', 'e']
        } else {
            seq!['F', 'a', 'l', 's', 'e']
        },
        Json::Number(raw) => raw,
        Json::Str(s) => py_quoted(s),
        Json::Array(items) => if items.len() == 0 {
            seq!['[', ']']
        } else {
            seq!['[', '\n'] + python_items(items, items.len() as int, cur, indent) + repeat(
                ' ',
                cur,
            ) + seq![']']
        },
        Json::Object(ps) => if ps.len() == 0 {
            seq!['{', '}']
        } else {
            seq!['{', '\n'] + python_props(ps, ps.len() as int, cur, indent) + repeat(' ', cur)
                + seq!['}']
        },
    }
}

pub open spec fn python_items(items: Seq<Json>, k: int, cur: nat, indent: nat) -> Seq<char>
    decreases items, k,
{
    if k <= 0 || k > items.len() {
        Seq::empty()
    } else {
        let child = sat_add(cur, indent);
        python_items(items, k - 1, cur, indent) + repeat(' ', child) + python_json(
            items[k - 1],
            child,
            indent,
        ) + comma_if(k < items.len()) + seq!['\n']
    }
}

pub open spec fn python_props(ps: Seq<(Seq<char>, Json)>, k: int, cur: nat, indent: nat) -> Seq<
    char,
>
    decreases ps, k,
{
    if k <= 0 || k > ps.len() {
        Seq::empty()
    } else {
        let child = sat_add(cur, indent);
        python_props(ps, k - 1, cur, indent) + repeat(' ', child) + py_quoted(ps[k - 1].0) + seq![
            ':',
            ' ',
        ] + python_json(ps[k - 1].1, child, indent) + comma_if(k < ps.len()) + seq!['\n']
    }
}

} // verus!

verus! {

// ---------------------------------------------------------------------
// Execution

/// Options of the pretty printer.
pub struct JSONFormatOptions {
    /// Spaces per nesting level; a negative value indents with one tab per level.
    pub indent_spaces: i32,
    /// Print object members ordered by key.
    pub sort_keys: bool,
    /// Write `/` as `\/` inside strings.
    pub escape_slashes: bool,
}

impl JSONFormatOptions {
    pub fn new(indent_spaces: i32, sort_keys: bool, escape_slashes: bool) -> (r: Self)
        ensures
            r.indent_spaces == indent_spaces,
            r.sort_keys == sort_keys,
            r.escape_slashes == escape_slashes,
    {
        Self { indent_spaces, sort_keys, escape_slashes }
    }
}

impl Default for JSONFormatOptions {
    fn default() -> (r: Self)
        ensures
            r.indent_spaces == 2,
            !r.sort_keys,
            !r.escape_slashes,
    {
        Self { indent_spaces: 2, sort_keys: false, escape_slashes: false }
    }
}

fn push_null(out: &mut String)
    ensures
        final(out)@ == old(out)@ + null_text(),
{
    push_char(out, 'n');
    push_char(out, 'u');
    push_char(out, 'l');
    push_char(out, 'l');
    proof {
        assert(final(out)@ =~= old(out)@ + null_text());
    }
}

fn push_bool(out: &mut String, b: bool)
    ensures
        final(out)@ == old(out)@ + bool_text(b),
{
    if b {
        push_char(out, 't');
        push_char(out, 'r');
        push_char(out, 'u');
        push_char(out, 'e');
    } else {
        push_char(out, 'f');
        push_char(out, 'a');
        push_char(out, 'l');
        push_char(out, 's');
        push_char(out, 'e');
    }
    proof {
        assert(final(out)@ =~= old(out)@ + bool_text(b));
    }
}

fn push_two(out: &mut String, a: char, b: char)
    ensures
        final(out)@ == old(out)@ + seq![a, b],
{
    push_char(out, a);
    push_char(out, b);
    proof {
        assert(final(out)@ =~= old(out)@ + seq![a, b]);
    }
}

/// Appends `n` copies of `c`.
fn push_repeat(out: &mut String, c: char, n: usize)
    ensures
        final(out)@ == old(out)@ + repeat(c, n as nat),
{
    let mut i: usize = 0;
    while i < n
        invariant
            i <= n,
            out@ == old(out)@ + repeat(c, i as nat),
        decreases n - i,
    {
        push_char(out, c);
        i += 1;
        proof {
            assert(out@ =~= old(out)@ + repeat(c, i as nat));
        }
    }
}

fn push_escaped(out: &mut String, c: char, escape_slashes: bool)
    ensures
        final(out)@ == old(out)@ + escape_char(c, escape_slashes),
{
    if c == '"' {
        push_two(out, '\\', '"');
    } else if c == '\\' {
        push_two(out, '\\', '\\');
    } else if c == '/' {
        if escape_slashes {
            push_two(out, '\\', '/');
        } else {
            push_char(out, '/');
        }
    } else if c == '\t' {
        push_two(out, '\\', 't');
    } else if c == '\n' {
        push_two(out, '\\', 'n');
    } else if c == '\r' {
        push_two(out, '\\', 'r');
    } else if c == '\u{08}' {
        push_two(out, '\\', 'b');
    } else if c == '\u{0C}' {
        push_two(out, '\\', 'f');
    } else {
        let v = c as u32;
        if v < 0x20 {
            push_two(out, '\\', 'u');
            push_two(out, '0', '0');
            push_two(out, hex_char_exec(v / 16), hex_char_exec(v % 16));
        } else {
            push_char(out, c);
        }
    }
    proof {
        assert(final(out)@ =~= old(out)@ + escape_char(c, escape_slashes));
    }
}

fn push_py_escaped(out: &mut String, c: char)
    ensures
        final(out)@ == old(out)@ + py_escape_char(c),
{
    if c == '\'' {
        push_two(out, '\\', '\'');
    } else if c == '\\' {
        push_two(out, '\\', '\\');
    } else if c == '\t' {
        push_two(out, '\\', 't');
    } else if c == '\n' {
        push_two(out, '\\', 'n');
    } else if c == '\r' {
        push_two(out, '\\', 'r');
    } else if c == '\u{08}' {
        push_two(out, '\\', 'b');
    } else if c == '\u{0C}' {
        push_two(out, '\\', 'f');
    } else {
        let v = c as u32;
        if v < 0x20 {
            push_two(out, '\\', 'x');
            push_two(out, hex_char_exec(v / 16), hex_char_exec(v % 16));
        } else {
            push_char(out, c);
        }
    }
    proof {
        assert(final(out)@ =~= old(out)@ + py_escape_char(c));
    }
}

/// `s` as a double-quoted JSON string literal with JSON escapes.
pub fn escape_string(s: &str, escape_slashes: bool) -> (r: String)
    ensures
        r@ == quoted(s@, escape_slashes),
{
    let mut out = String::new();
    push_char(&mut out, '"');
    for ch in it: s.chars()
        invariant
            out@ == seq!['"'] + escape_chars(it.seq().take(it.index() as int), escape_slashes),
    {
        let ghost before = it.seq().take(it.index() as int);
        push_escaped(&mut out, ch, escape_slashes);
        proof {
            let after = it.seq().take(it.index() + 1);
            assert(after.drop_last() =~= before);
            assert(out@ =~= seq!['"'] + escape_chars(after, escape_slashes));
        }
    }
    proof {
        assert(s@.take(s@.len() as int) =~= s@);
    }
    push_char(&mut out, '"');
    proof {
        assert(out@ =~= quoted(s@, escape_slashes));
    }
    out
}

/// The same as [`escape_string`]: the text quoted as one JSON string.
pub fn quote_and_escape_string(s: &str, escape_slashes: bool) -> (r: String)
    ensures
        r@ == quoted(s@, escape_slashes),
{
    escape_string(s, escape_slashes)
}

/// `s` as a single-quoted Python string literal.
pub fn escape_python_string(s: &str) -> (r: String)
    ensures
        r@ == py_quoted(s@),
{
    let mut out = String::new();
    push_char(&mut out, '\'');
    for ch in it: s.chars()
        invariant
            out@ == seq!['\''] + py_escape_chars(it.seq().take(it.index() as int)),
    {
        let ghost before = it.seq().take(it.index() as int);
        push_py_escaped(&mut out, ch);
        proof {
            let after = it.seq().take(it.index() + 1);
            assert(after.drop_last() =~= before);
            assert(out@ =~= seq!['\''] + py_escape_chars(after));
        }
    }
    proof {
        assert(s@.take(s@.len() as int) =~= s@);
    }
    push_char(&mut out, '\'');
    proof {
        assert(out@ =~= py_quoted(s@));
    }
    out
}

} // verus!

verus! {

/// Membership in a sequence extended by one element.
pub proof fn lemma_push_contains<A>(s: Seq<A>, a: A)
    ensures
        forall|y: A| #[trigger] s.push(a).contains(y) <==> (s.contains(y) || y == a),
{
    assert forall|y: A| #[trigger] s.push(a).contains(y) <==> (s.contains(y) || y == a) by {
        if s.push(a).contains(y) {
            let i = choose|i: int| 0 <= i < s.push(a).len() && s.push(a)[i] == y;
            if i < s.len() {
                assert(s[i] == y);
            }
        }
        if s.contains(y) {
            let i = choose|i: int| 0 <= i < s.len() && s[i] == y;
            assert(s.push(a)[i] == y);
        }
        if y == a {
            assert(s.push(a)[s.len() as int] == y);
        }
    }
}

/// Inserting into a sorted order adds exactly one index.
pub proof fn lemma_insert_by_key(sorted: Seq<int>, x: int, keys: Seq<Seq<char>>)
    ensures
        insert_by_key(sorted, x, keys).len() == sorted.len() + 1,
        forall|y: int| #[trigger]
            insert_by_key(sorted, x, keys).contains(y) <==> (sorted.contains(y) || y == x),
    decreases sorted.len(),
{
    let r = insert_by_key(sorted, x, keys);
    if sorted.len() == 0 {
        assert(r =~= Seq::<int>::empty().push(x));
        lemma_push_contains(Seq::<int>::empty(), x);
    } else if key_le(keys[sorted.last()], keys[x]) {
        lemma_push_contains(sorted, x);
    } else {
        let d = sorted.drop_last();
        lemma_insert_by_key(d, x, keys);
        let inner = insert_by_key(d, x, keys);
        assert(sorted =~= d.push(sorted.last()));
        lemma_push_contains(d, sorted.last());
        lemma_push_contains(inner, sorted.last());
    }
}

pub proof fn lemma_sort_by_key(order: Seq<int>, keys: Seq<Seq<char>>)
    ensures
        sort_by_key(order, keys).len() == order.len(),
        forall|y: int| #[trigger] sort_by_key(order, keys).contains(y) <==> order.contains(y),
    decreases order.len(),
{
    if order.len() > 0 {
        let d = order.drop_last();
        lemma_sort_by_key(d, keys);
        lemma_insert_by_key(sort_by_key(d, keys), order.last(), keys);
        assert(order =~= d.push(order.last()));
        lemma_push_contains(d, order.last());
    }
}

/// Every index of the printing order names a member.
pub proof fn lemma_member_order(ps: Seq<(Seq<char>, Json)>, sort_keys: bool)
    ensures
        member_order(ps, sort_keys).len() == ps.len(),
        forall|i: int|
            0 <= i < ps.len() ==> 0 <= #[trigger] member_order(ps, sort_keys)[i] < ps.len(),
{
    let id = identity_order(ps.len());
    if sort_keys {
        lemma_sort_by_key(id, prop_keys(ps));
        let s = sort_by_key(id, prop_keys(ps));
        assert forall|i: int| 0 <= i < ps.len() implies 0 <= #[trigger] s[i] < ps.len() by {
            assert(s.contains(s[i]));
            let j = choose|j: int| 0 <= j < id.len() && id[j] == s[i];
        }
    }
}

/// The indices as mathematical integers.
pub open spec fn as_ints(s: Seq<usize>) -> Seq<int> {
    s.map_values(|x: usize| x as int)
}

/// Comparing by `key_le` from position `i` on gives the same answer as
/// comparing the whole keys, where they agree before `i`.
proof fn lemma_key_le_skip(a: Seq<char>, b: Seq<char>, i: int)
    requires
        0 <= i <= a.len(),
        i <= b.len(),
        a.take(i) == b.take(i),
    ensures
        key_le(a, b) == key_le(a.skip(i), b.skip(i)),
    decreases i,
{
    if i > 0 {
        assert(a[0] == a.take(i)[0]);
        assert(b[0] == b.take(i)[0]);
        assert(a.drop_first().take(i - 1) =~= a.take(i).drop_first());
        assert(b.drop_first().take(i - 1) =~= b.take(i).drop_first());
        lemma_key_le_skip(a.drop_first(), b.drop_first(), i - 1);
        assert(a.drop_first().skip(i - 1) =~= a.skip(i));
        assert(b.drop_first().skip(i - 1) =~= b.skip(i));
    } else {
        assert(a.skip(0) =~= a);
        assert(b.skip(0) =~= b);
    }
}

/// How two keys compare.
#[derive(Clone, Copy, PartialEq, Eq, Structural, Debug)]
enum KeyCmp {
    Before,
    Same,
    After,
}

/// How two keys compare, character by character by code point, a prefix
/// first.
fn key_compare(a: &str, b: &str) -> (r: KeyCmp)
    ensures
        (r == KeyCmp::Same) == (a@ == b@),
        (r == KeyCmp::Before) == (key_le(a@, b@) && a@ != b@),
        (r == KeyCmp::After) == !key_le(a@, b@),
{
    let x = chars_of(a);
    let y = chars_of(b);
    let mut i: usize = 0;
    while i < x.len() && i < y.len() && x[i] == y[i]
        invariant
            x@ == a@,
            y@ == b@,
            i <= x@.len(),
            i <= y@.len(),
            x@.take(i as int) == y@.take(i as int),
        decreases x@.len() - i,
    {
        proof {
            assert(x@.take(i + 1) =~= x@.take(i as int).push(x@[i as int]));
            assert(y@.take(i + 1) =~= y@.take(i as int).push(y@[i as int]));
        }
        i = i + 1;
    }
    proof {
        lemma_key_le_skip(x@, y@, i as int);
        lemma_key_le_skip(y@, x@, i as int);
    }
    if i == x.len() && i == y.len() {
        proof {
            assert(x@ =~= x@.take(i as int));
            assert(y@ =~= y@.take(i as int));
        }
        KeyCmp::Same
    } else if i == x.len() {
        proof {
            assert(x@.skip(i as int).len() == 0);
            assert(a@ != b@) by {
                assert(a@.len() < b@.len());
            }
        }
        KeyCmp::Before
    } else if i == y.len() {
        proof {
            assert(y@.skip(i as int).len() == 0);
            assert(x@.skip(i as int).len() > 0);
        }
        KeyCmp::After
    } else if (x[i] as u32) < (y[i] as u32) {
        proof {
            assert(x@.skip(i as int)[0] == x@[i as int]);
            assert(y@.skip(i as int)[0] == y@[i as int]);
            assert(a@[i as int] != b@[i as int]);
        }
        KeyCmp::Before
    } else {
        proof {
            assert(x@.skip(i as int)[0] == x@[i as int]);
            assert(y@.skip(i as int)[0] == y@[i as int]);
            assert(a@[i as int] != b@[i as int]);
        }
        KeyCmp::After
    }
}

/// Whether key `a` sorts after key `b`.
fn key_after(a: &str, b: &str) -> (r: bool)
    ensures
        r == !key_le(a@, b@),
{
    match key_compare(a, b) {
        KeyCmp::After => true,
        _ => false,
    }
}

/// Inserting into a sorted order puts `x` just after the last index, from
/// the end, whose key is not greater.
proof fn lemma_insert_at(s: Seq<int>, x: int, keys: Seq<Seq<char>>, j: int)
    requires
        0 <= j <= s.len(),
        forall|m: int| j <= m < s.len() ==> !key_le(#[trigger] keys[s[m]], keys[x]),
        j == 0 || key_le(keys[s[j - 1]], keys[x]),
    ensures
        insert_by_key(s, x, keys) == s.take(j).push(x) + s.skip(j),
    decreases s.len(),
{
    if j == s.len() {
        assert(s.take(j) =~= s);
        assert(s.skip(j) =~= Seq::<int>::empty());
        if s.len() == 0 {
            assert(insert_by_key(s, x, keys) =~= seq![x]);
        }
        assert(s.take(j).push(x) + s.skip(j) =~= s.push(x));
    } else {
        let d = s.drop_last();
        lemma_insert_at(d, x, keys, j);
        assert(d.take(j) =~= s.take(j));
        assert(s.skip(j) =~= d.skip(j).push(s.last()));
        assert(insert_by_key(s, x, keys) == insert_by_key(d, x, keys).push(s.last()));
        assert(d.take(j).push(x) + d.skip(j).push(s.last()) =~= (d.take(j).push(x) + d.skip(j)).push(
            s.last(),
        ));
    }
}

/// Inserts member index `x` into the key-sorted `sorted`, after every
/// index whose key is not greater.
fn insert_member_index(sorted: &mut Vec<usize>, x: usize, ps: &Vec<JSONProperty>)
    requires
        x < ps@.len(),
        forall|i: int| 0 <= i < old(sorted)@.len() ==> old(sorted)@[i] < ps@.len(),
    ensures
        as_ints(final(sorted)@) == insert_by_key(
            as_ints(old(sorted)@),
            x as int,
            prop_keys(view_props(ps@)),
        ),
        forall|i: int| 0 <= i < final(sorted)@.len() ==> final(sorted)@[i] < ps@.len(),
{
    let ghost keys = prop_keys(view_props(ps@));
    let ghost s = as_ints(sorted@);
    let mut j = sorted.len();
    while j > 0 && key_after(ps[sorted[j - 1]].key.as_str(), ps[x].key.as_str())
        invariant
            j <= sorted@.len(),
            x < ps@.len(),
            s == as_ints(sorted@),
            keys == prop_keys(view_props(ps@)),
            forall|i: int| 0 <= i < sorted@.len() ==> sorted@[i] < ps@.len(),
            forall|m: int| j <= m < s.len() ==> !key_le(#[trigger] keys[s[m]], keys[x as int]),
        decreases j,
    {
        proof {
            assert(s[j - 1] == sorted@[j - 1] as int);
        }
        j -= 1;
    }
    proof {
        if j > 0 {
            assert(s[j - 1] == sorted@[j - 1] as int);
        }
        lemma_insert_at(s, x as int, keys, j as int);
    }
    sorted.insert(j, x);
    proof {
        assert(as_ints(sorted@) =~= s.take(j as int).push(x as int) + s.skip(j as int));
    }
}

/// Sorts member indices stably by their keys: an insertion sort, each
/// index placed after every earlier one whose key is not greater.
fn sort_member_indices(order: &mut Vec<usize>, ps: &Vec<JSONProperty>)
    requires
        forall|i: int| 0 <= i < old(order)@.len() ==> old(order)@[i] < ps@.len(),
    ensures
        as_ints(final(order)@) == sort_by_key(as_ints(old(order)@), prop_keys(view_props(ps@))),
{
    let ghost keys = prop_keys(view_props(ps@));
    let ghost o = as_ints(order@);
    let mut sorted: Vec<usize> = Vec::new();
    let mut i: usize = 0;
    proof {
        assert(o.take(0) =~= Seq::<int>::empty());
        assert(as_ints(sorted@) =~= Seq::<int>::empty());
    }
    while i < order.len()
        invariant
            i <= order@.len(),
            o == as_ints(order@),
            keys == prop_keys(view_props(ps@)),
            forall|k: int| 0 <= k < order@.len() ==> order@[k] < ps@.len(),
            forall|k: int| 0 <= k < sorted@.len() ==> sorted@[k] < ps@.len(),
            as_ints(sorted@) == sort_by_key(o.take(i as int), keys),
        decreases order@.len() - i,
    {
        proof {
            assert(o.take(i + 1).drop_last() =~= o.take(i as int));
            assert(o.take(i + 1).last() == order@[i as int] as int);
        }
        insert_member_index(&mut sorted, order[i], ps);
        i += 1;
    }
    proof {
        assert(o.take(i as int) =~= o);
    }
    *order = sorted;
}

/// The order in which the members of `ps` are printed.
fn member_order_exec(ps: &Vec<JSONProperty>, sort_keys: bool) -> (r: Vec<usize>)
    ensures
        as_ints(r@) == member_order(view_props(ps@), sort_keys),
        r@.len() == ps@.len(),
        forall|i: int| 0 <= i < r@.len() ==> r@[i] < ps@.len(),
{
    let mut order: Vec<usize> = Vec::new();
    let n = ps.len();
    let mut i: usize = 0;
    while i < n
        invariant
            i <= n == ps@.len(),
            order@.len() == i,
            forall|j: int| 0 <= j < i ==> order@[j] == j,
        decreases n - i,
    {
        order.push(i);
        i += 1;
    }
    proof {
        assert(as_ints(order@) =~= identity_order(view_props(ps@).len()));
    }
    if sort_keys {
        sort_member_indices(&mut order, ps);
    }
    proof {
        lemma_member_order(view_props(ps@), sort_keys);
        assert forall|i: int| 0 <= i < order@.len() implies order@[i] < ps@.len() by {
            assert(as_ints(order@)[i] == order@[i] as int);
        }
    }
    order
}

/// One more member of a pretty printed object.
proof fn lemma_format_props_step(
    ps: Seq<(Seq<char>, Json)>,
    order: Seq<int>,
    k: int,
    cur: nat,
    ind: i32,
    sort_keys: bool,
    esc: bool,
)
    requires
        0 <= k < order.len(),
        0 <= order[k] < ps.len(),
    ensures
        format_props(ps, order, k + 1, cur, ind, sort_keys, esc) == format_props(
            ps,
            order,
            k,
            cur,
            ind,
            sort_keys,
            esc,
        ) + (repeat(indent_unit(ind), sat_add(cur, indent_step(ind))) + quoted(ps[order[k]].0, esc)
            + seq![':', ' '] + format_json(
            ps[order[k]].1,
            sat_add(cur, indent_step(ind)),
            ind,
            sort_keys,
            esc,
        ) + comma_if(k + 1 < order.len()) + seq!['\n']),
{
}

impl JSONValue {
    fn minify_into(&self, out: &mut String, escape_slashes: bool)
        ensures
            final(out)@ == old(out)@ + minify_json(self@, escape_slashes),
        decreases self,
    {
        match self {
            JSONValue::Null => push_null(out),
            JSONValue::Bool(b) => push_bool(out, *b),
            JSONValue::Number(raw) => push_str(out, raw.as_str()),
            JSONValue::Str(s) => {
                let e = escape_string(s.as_str(), escape_slashes);
                push_str(out, e.as_str());
            },
            JSONValue::Array(items) => {
                let ghost vs = view_items(items@);
                push_char(out, '[');
                let n = items.len();
                let mut i: usize = 0;
                while i < n
                    invariant
                        i <= n == items@.len() == vs.len(),
                        vs == view_items(items@),
                        *self == JSONValue::Array(*items),
                        out@ == old(out)@ + seq!['['] + minify_items(vs, i as int, escape_slashes),
                    decreases n - i,
                {
                    proof {
                        assert(decreases_to!(*self => (*self)->Array_0));
                        assert(decreases_to!(*items => items@));
                        assert(decreases_to!(items@ => items@[i as int]));
                        assert(decreases_to!(*self => items@[i as int]));
                    }
                    items[i].minify_into(out, escape_slashes);
                    if i + 1 < n {
                        push_char(out, ',');
                    }
                    i += 1;
                    proof {
                        assert(out@ =~= old(out)@ + seq!['['] + minify_items(
                            vs,
                            i as int,
                            escape_slashes,
                        ));
                    }
                }
                push_char(out, ']');
                proof {
                    assert(final(out)@ =~= old(out)@ + minify_json(self@, escape_slashes));
                }
            },
            JSONValue::Object(ps) => {
                let ghost vs = view_props(ps@);
                push_char(out, '{');
                let n = ps.len();
                let mut i: usize = 0;
                while i < n
                    invariant
                        i <= n == ps@.len() == vs.len(),
                        vs == view_props(ps@),
                        *self == JSONValue::Object(*ps),
                        out@ == old(out)@ + seq!['{'] + minify_props(vs, i as int, escape_slashes),
                    decreases n - i,
                {
                    let p = &ps[i];
                    proof {
                        assert(decreases_to!(*self => (*self)->Object_0));
                        assert(decreases_to!(*ps => ps@));
                        assert(decreases_to!(ps@ => ps@[i as int]));
                        assert(decreases_to!(ps@[i as int] => ps@[i as int].value));
                        assert(decreases_to!(*self => ps@[i as int].value));
                    }
                    let k = escape_string(p.key.as_str(), escape_slashes);
                    push_str(out, k.as_str());
                    push_char(out, ':');
                    p.value.minify_into(out, escape_slashes);
                    if i + 1 < n {
                        push_char(out, ',');
                    }
                    i += 1;
                    proof {
                        assert(out@ =~= old(out)@ + seq!['{'] + minify_props(
                            vs,
                            i as int,
                            escape_slashes,
                        ));
                    }
                }
                push_char(out, '}');
                proof {
                    assert(final(out)@ =~= old(out)@ + minify_json(self@, escape_slashes));
                }
            },
        }
    }

    #[verifier::rlimit(60)]
    fn format_into(&self, out: &mut String, cur: usize, options: &JSONFormatOptions)
        ensures
            final(out)@ == old(out)@ + format_json(
                self@,
                cur as nat,
                options.indent_spaces,
                options.sort_keys,
                options.escape_slashes,
            ),
        decreases self,
    {
        let ghost ind = options.indent_spaces;
        let ghost sk = options.sort_keys;
        let ghost esc = options.escape_slashes;
        let unit = if options.indent_spaces < 0 {
            '\t'
        } else {
            ' '
        };
        let step: usize = if options.indent_spaces < 0 {
            1
        } else {
            options.indent_spaces as usize
        };
        let child = cur.saturating_add(step);
        assert(unit == indent_unit(ind));
        assert(child as nat == sat_add(cur as nat, indent_step(ind)));
        match self {
            JSONValue::Null => push_null(out),
            JSONValue::Bool(b) => push_bool(out, *b),
            JSONValue::Number(raw) => push_str(out, raw.as_str()),
            JSONValue::Str(s) => {
                let e = escape_string(s.as_str(), options.escape_slashes);
                push_str(out, e.as_str());
            },
            JSONValue::Array(items) => {
                let ghost vs = view_items(items@);
                let n = items.len();
                if n == 0 {
                    push_two(out, '[', ']');
                    return;
                }
                push_two(out, '[', '\n');
                let mut i: usize = 0;
                while i < n
                    invariant
                        i <= n == items@.len() == vs.len(),
                        vs == view_items(items@),
                        *self == JSONValue::Array(*items),
                        ind == options.indent_spaces,
                        sk == options.sort_keys,
                        esc == options.escape_slashes,
                        unit == indent_unit(ind),
                        child as nat == sat_add(cur as nat, indent_step(ind)),
                        out@ == old(out)@ + seq!['[', '\n'] + format_items(
                            vs,
                            i as int,
                            cur as nat,
                            ind,
                            sk,
                            esc,
                        ),
                    decreases n - i,
                {
                    proof {
                        assert(decreases_to!(*self => (*self)->Array_0));
                        assert(decreases_to!(*items => items@));
                        assert(decreases_to!(items@ => items@[i as int]));
                        assert(decreases_to!(*self => items@[i as int]));
                    }
                    push_repeat(out, unit, child);
                    items[i].format_into(out, child, options);
                    if i + 1 < n {
                        push_char(out, ',');
                    }
                    push_char(out, '\n');
                    i += 1;
                    proof {
                        assert(out@ =~= old(out)@ + seq!['[', '\n'] + format_items(
                            vs,
                            i as int,
                            cur as nat,
                            ind,
                            sk,
                            esc,
                        ));
                    }
                }
                push_repeat(out, unit, cur);
                push_char(out, ']');
                proof {
                    assert(final(out)@ =~= old(out)@ + format_json(self@, cur as nat, ind, sk, esc));
                }
            },
            JSONValue::Object(ps) => {
                let ghost vs = view_props(ps@);
                let n = ps.len();
                if n == 0 {
                    push_two(out, '{', '}');
                    return;
                }
                push_two(out, '{', '\n');
                let order = member_order_exec(ps, options.sort_keys);
                let ghost ord = member_order(vs, sk);
                let mut i: usize = 0;
                while i < n
                    invariant
                        i <= n == ps@.len() == vs.len() == order@.len(),
                        vs == view_props(ps@),
                        *self == JSONValue::Object(*ps),
                        ind == options.indent_spaces,
                        sk == options.sort_keys,
                        esc == options.escape_slashes,
                        unit == indent_unit(ind),
                        child as nat == sat_add(cur as nat, indent_step(ind)),
                        ord == member_order(vs, sk),
                        as_ints(order@) == ord,
                        forall|j: int| 0 <= j < order@.len() ==> order@[j] < ps@.len(),
                        out@ == old(out)@ + seq!['{', '\n'] + format_props(
                            vs,
                            ord,
                            i as int,
                            cur as nat,
                            ind,
                            sk,
                            esc,
                        ),
                    decreases n - i,
                {
                    let j = order[i];
                    proof {
                        assert(as_ints(order@)[i as int] == j as int);
                        assert(ord[i as int] == j as int);
                        lemma_format_props_step(vs, ord, i as int, cur as nat, ind, sk, esc);
                        assert(decreases_to!(*self => (*self)->Object_0));
                        assert(decreases_to!(*ps => ps@));
                        assert(decreases_to!(ps@ => ps@[j as int]));
                        assert(decreases_to!(ps@[j as int] => ps@[j as int].value));
                        assert(decreases_to!(*self => ps@[j as int].value));
                    }
                    let p = &ps[j];
                    let ghost before = out@;
                    let mut piece = String::new();
                    push_repeat(&mut piece, unit, child);
                    let k = escape_string(p.key.as_str(), options.escape_slashes);
                    push_str(&mut piece, k.as_str());
                    push_two(&mut piece, ':', ' ');
                    p.value.format_into(&mut piece, child, options);
                    if i + 1 < n {
                        push_char(&mut piece, ',');
                    }
                    push_char(&mut piece, '\n');
                    proof {
                        assert(vs[j as int] == (ps@[j as int].key@, view_value(ps@[j as int].value)));
                        assert(piece@ =~= repeat(indent_unit(ind), sat_add(cur as nat, indent_step(ind)))
                            + quoted(vs[j as int].0, esc) + seq![':', ' '] + format_json(
                            vs[j as int].1,
                            sat_add(cur as nat, indent_step(ind)),
                            ind,
                            sk,
                            esc,
                        ) + comma_if(i + 1 < ord.len()) + seq!['\n']);
                    }
                    push_str(out, piece.as_str());
                    i += 1;
                    proof {
                        assert(out@ =~= old(out)@ + seq!['{', '\n'] + format_props(
                            vs,
                            ord,
                            i as int,
                            cur as nat,
                            ind,
                            sk,
                            esc,
                        ));
                    }
                }
                push_repeat(out, unit, cur);
                push_char(out, '}');
                proof {
                    lemma_member_order(vs, sk);
                    assert(final(out)@ =~= old(out)@ + format_json(self@, cur as nat, ind, sk, esc));
                }
            },
        }
    }

    /// Pretty printed JSON text of the value.
    pub fn format(&self, indent_spaces: i32, sort_keys: bool, escape_slashes: bool) -> (r: String)
        ensures
            r@ == format_json(self@, 0, indent_spaces, sort_keys, escape_slashes),
    {
        self.format_with_options(&JSONFormatOptions::new(indent_spaces, sort_keys, escape_slashes))
    }

    /// Pretty printed JSON text of the value, with the options given.
    pub fn format_with_options(&self, options: &JSONFormatOptions) -> (r: String)
        ensures
            r@ == format_json(
                self@,
                0,
                options.indent_spaces,
                options.sort_keys,
                options.escape_slashes,
            ),
    {
        let mut out = String::new();
        self.format_into(&mut out, 0, options);
        proof {
            assert(out@ =~= format_json(
                self@,
                0,
                options.indent_spaces,
                options.sort_keys,
                options.escape_slashes,
            ));
        }
        out
    }

    fn python_into(&self, out: &mut String, cur: usize, indent_spaces: usize)
        ensures
            final(out)@ == old(out)@ + python_json(self@, cur as nat, indent_spaces as nat),
        decreases self,
    {
        let child = cur.saturating_add(indent_spaces);
        assert(child as nat == sat_add(cur as nat, indent_spaces as nat));
        match self {
            JSONValue::Null => {
                push_two(out, 'N', 'o');
                push_two(out, 'n', 'e');
                proof {
                    assert(final(out)@ =~= old(out)@ + python_json(self@, cur as nat, indent_spaces as nat));
                }
            },
            JSONValue::Bool(b) => {
                if *b {
                    push_two(out, 'T', 'r');
                    push_two(out, 'u', 'e');
                } else {
                    push_two(out, 'F', 'a');
                    push_two(out, 'l', 's');
                    push_char(out, 'e');
                }
                proof {
                    assert(final(out)@ =~= old(out)@ + python_json(self@, cur as nat, indent_spaces as nat));
                }
            },
            JSONValue::Number(raw) => push_str(out, raw.as_str()),
            JSONValue::Str(s) => {
                let e = escape_python_string(s.as_str());
                push_str(out, e.as_str());
            },
            JSONValue::Array(items) => {
                let ghost vs = view_items(items@);
                let n = items.len();
                if n == 0 {
                    push_two(out, '[', ']');
                    return;
                }
                push_two(out, '[', '\n');
                let mut i: usize = 0;
                while i < n
                    invariant
                        i <= n == items@.len() == vs.len(),
                        vs == view_items(items@),
                        *self == JSONValue::Array(*items),
                        child as nat == sat_add(cur as nat, indent_spaces as nat),
                        out@ == old(out)@ + seq!['[', '\n'] + python_items(
                            vs,
                            i as int,
                            cur as nat,
                            indent_spaces as nat,
                        ),
                    decreases n - i,
                {
                    proof {
                        assert(decreases_to!(*self => (*self)->Array_0));
                        assert(decreases_to!(*items => items@));
                        assert(decreases_to!(items@ => items@[i as int]));
                        assert(decreases_to!(*self => items@[i as int]));
                    }
                    push_repeat(out, ' ', child);
                    items[i].python_into(out, child, indent_spaces);
                    if i + 1 < n {
                        push_char(out, ',');
                    }
                    push_char(out, '\n');
                    i += 1;
                    proof {
                        assert(out@ =~= old(out)@ + seq!['[', '\n'] + python_items(
                            vs,
                            i as int,
                            cur as nat,
                            indent_spaces as nat,
                        ));
                    }
                }
                push_repeat(out, ' ', cur);
                push_char(out, ']');
                proof {
                    assert(final(out)@ =~= old(out)@ + python_json(self@, cur as nat, indent_spaces as nat));
                }
            },
            JSONValue::Object(ps) => {
                let ghost vs = view_props(ps@);
                let n = ps.len();
                if n == 0 {
                    push_two(out, '{', '}');
                    return;
                }
                push_two(out, '{', '\n');
                let mut i: usize = 0;
                while i < n
                    invariant
                        i <= n == ps@.len() == vs.len(),
                        vs == view_props(ps@),
                        *self == JSONValue::Object(*ps),
                        child as nat == sat_add(cur as nat, indent_spaces as nat),
                        out@ == old(out)@ + seq!['{', '\n'] + python_props(
                            vs,
                            i as int,
                            cur as nat,
                            indent_spaces as nat,
                        ),
                    decreases n - i,
                {
                    proof {
                        assert(decreases_to!(*self => (*self)->Object_0));
                        assert(decreases_to!(*ps => ps@));
                        assert(decreases_to!(ps@ => ps@[i as int]));
                        assert(decreases_to!(ps@[i as int] => ps@[i as int].value));
                        assert(decreases_to!(*self => ps@[i as int].value));
                    }
                    let p = &ps[i];
                    push_repeat(out, ' ', child);
                    let k = escape_python_string(p.key.as_str());
                    push_str(out, k.as_str());
                    push_two(out, ':', ' ');
                    p.value.python_into(out, child, indent_spaces);
                    if i + 1 < n {
                        push_char(out, ',');
                    }
                    push_char(out, '\n');
                    i += 1;
                    proof {
                        assert(out@ =~= old(out)@ + seq!['{', '\n'] + python_props(
                            vs,
                            i as int,
                            cur as nat,
                            indent_spaces as nat,
                        ));
                    }
                }
                push_repeat(out, ' ', cur);
                push_char(out, '}');
                proof {
                    assert(final(out)@ =~= old(out)@ + python_json(self@, cur as nat, indent_spaces as nat));
                }
            },
        }
    }

    /// The value written as a Python literal, `indent_spaces` spaces per level.
    pub fn to_python_object(&self, indent_spaces: usize) -> (r: String)
        ensures
            r@ == python_json(self@, 0, indent_spaces as nat),
    {
        let mut out = String::new();
        self.python_into(&mut out, 0, indent_spaces);
        proof {
            assert(out@ =~= python_json(self@, 0, indent_spaces as nat));
        }
        out
    }

    /// Compact JSON text of the value; where every number is a valid
    /// literal (as in any parsed value), it holds no line break.
    pub fn minify(&self, escape_slashes: bool) -> (r: String)
        ensures
            r@ == minify_json(self@, escape_slashes),
            super::laws::json_wf(self@) ==> super::laws_parsed::no_line_break(r@),
    {
        let mut out = String::new();
        self.minify_into(&mut out, escape_slashes);
        proof {
            assert(out@ =~= minify_json(self@, escape_slashes));
            if super::laws::json_wf(self@) {
                super::laws_parsed::lemma_minify_no_break(self@, escape_slashes);
            }
        }
        out
    }

    /// The compact JSON text of the value, quoted as one JSON string.
    pub fn stringify(&self, escape_slashes: bool) -> (r: String)
        ensures
            r@ == quoted(minify_json(self@, false), escape_slashes),
    {
        let min = self.minify(false);
        quote_and_escape_string(min.as_str(), escape_slashes)
    }
}

} // verus!
