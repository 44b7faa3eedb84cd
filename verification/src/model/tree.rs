//! Nodes, their texts and rows, sets of paths, finding and searching.

use vstd::prelude::*;
use crate::text::{push_char, push_str, push_decimal, to_owned_string, copy_string, seq_eq,
    decimal, decimal_string, chars_of, string_from_range, has_char, char_count, lowercase,
    to_lowercase, occurs_in, lower_text,
    contains_chars};
use crate::json::value::{Json, JSONValue, JSONProperty, view_items, view_props,
    lemma_view_items, lemma_view_props, lemma_view_lens, kind_name_of};
use crate::json::format::{format_json, sat_add};

verus! {

/// The document shown when the application starts.
pub const SAMPLE_JSON: &'static str = "{\n  \"title\": \"JSON Viewer macOS\",\n  \"version\": \"1.0.0\",\n  \"description\": \"Native Mac JSON Viewer & Formatter\",\n  \"active\": true,\n  \"rating\": 4.95,\n  \"nullProperty\": null,\n  \"author\": {\n    \"name\": \"Antigravity & Stack.hu\",\n    \"email\": \"local@mac.internal\"\n  },\n  \"features\": [\n    \"Hierarchical Tree View\",\n    \"Property Grid Inspection\",\n    \"2-Space Indented Formatting\",\n    \"Whitespace Minification\",\n    \"Remote URL Loading\",\n    \"Full Key & Value Search\"\n  ],\n  \"statistics\": {\n    \"downloads\": 12840,\n    \"stars\": 892\n  }\n}";

/// One node of the displayed tree: its key, its value, its path from the
/// root (`$`, `$.key`, `$[index]`), and its children in order.
#[derive(Debug)]
pub struct Node {
    pub key: String,
    pub value: JSONValue,
    pub path: String,
    pub children: Vec<Node>,
}

/// The mathematical form of a node.
#[verifier::ext_equal]
pub struct NodeView {
    pub key: Seq<char>,
    pub value: Json,
    pub path: Seq<char>,
    pub children: Seq<NodeView>,
}

pub open spec fn node_view(n: Node) -> NodeView
    decreases n,
{
    NodeView { key: n.key@, value: n.value@, path: n.path@, children: nodes_view(n.children@) }
}

pub open spec fn nodes_view(ns: Seq<Node>) -> Seq<NodeView>
    decreases ns,
{
    if ns.len() == 0 {
        Seq::empty()
    } else {
        nodes_view(ns.drop_last()).push(node_view(ns.last()))
    }
}

impl View for Node {
    type V = NodeView;

    open spec fn view(&self) -> NodeView {
        node_view(*self)
    }
}

pub proof fn lemma_nodes_view(ns: Seq<Node>)
    ensures
        nodes_view(ns).len() == ns.len(),
        forall|i: int| 0 <= i < ns.len() ==> nodes_view(ns)[i] == node_view(#[trigger] ns[i]),
    decreases ns.len(),
{
    if ns.len() > 0 {
        lemma_nodes_view(ns.drop_last());
        assert forall|i: int| 0 <= i < ns.len() implies nodes_view(ns)[i] == node_view(
            #[trigger] ns[i],
        ) by {
            if i < ns.len() - 1 {
                assert(ns.drop_last()[i] == ns[i]);
            }
        }
    }
}

pub proof fn lemma_nodes_view_push(ns: Seq<Node>, x: Node)
    ensures
        nodes_view(ns.push(x)) == nodes_view(ns).push(node_view(x)),
{
    assert(ns.push(x).drop_last() =~= ns);
}

// ---------------------------------------------------------------------
// Building the tree

/// The path of member `key` of the node at `path`.
pub open spec fn member_path(path: Seq<char>, key: Seq<char>) -> Seq<char> {
    path + seq!['.'] + key
}

/// The path of item `i` of the array at `path`.
pub open spec fn item_path(path: Seq<char>, i: nat) -> Seq<char> {
    path + seq!['['] + decimal(i) + seq![']']
}

/// The tree of `v` under `key` at `path`: object members and array items
/// become children in order, array items keyed by their index.
pub open spec fn tree_of(key: Seq<char>, v: Json, path: Seq<char>) -> NodeView
    decreases v, 0int,
{
    NodeView {
        key,
        value: v,
        path,
        children: match v {
            Json::Object(ps) => member_nodes(ps, path, ps.len() as int),
            Json::Array(items) => item_nodes(items, path, items.len() as int),
            _ => Seq::empty(),
        },
    }
}

/// The trees of the first `k` members of an object at `path`.
pub open spec fn member_nodes(ps: Seq<(Seq<char>, Json)>, path: Seq<char>, k: int) -> Seq<NodeView>
    decreases ps, k,
{
    if k <= 0 || k > ps.len() {
        Seq::empty()
    } else {
        member_nodes(ps, path, k - 1).push(
            tree_of(ps[k - 1].0, ps[k - 1].1, member_path(path, ps[k - 1].0)),
        )
    }
}

/// The trees of the first `k` items of an array at `path`.
pub open spec fn item_nodes(items: Seq<Json>, path: Seq<char>, k: int) -> Seq<NodeView>
    decreases items, k,
{
    if k <= 0 || k > items.len() {
        Seq::empty()
    } else {
        item_nodes(items, path, k - 1).push(
            tree_of(decimal((k - 1) as nat), items[k - 1], item_path(path, (k - 1) as nat)),
        )
    }
}

pub proof fn lemma_member_nodes_len(ps: Seq<(Seq<char>, Json)>, path: Seq<char>, k: int)
    requires
        0 <= k <= ps.len(),
    ensures
        member_nodes(ps, path, k).len() == k,
    decreases k,
{
    if k > 0 {
        lemma_member_nodes_len(ps, path, k - 1);
    }
}

pub proof fn lemma_item_nodes_len(items: Seq<Json>, path: Seq<char>, k: int)
    requires
        0 <= k <= items.len(),
    ensures
        item_nodes(items, path, k).len() == k,
    decreases k,
{
    if k > 0 {
        lemma_item_nodes_len(items, path, k - 1);
    }
}

fn build_node(key: &str, value: &JSONValue, path: &str) -> (n: Node)
    ensures
        n@ == tree_of(key@, value@, path@),
    decreases value,
{
    match value {
        JSONValue::Object(pairs) => {
            let ghost ps = view_props(pairs@);
            let mut children: Vec<Node> = Vec::new();
            let mut i: usize = 0;
            proof {
                lemma_view_props(pairs@);
            }
            while i < pairs.len()
                invariant
                    *value == JSONValue::Object(*pairs),
                    ps == view_props(pairs@),
                    ps.len() == pairs@.len(),
                    forall|j: int| 0 <= j < pairs@.len() ==> ps[j] == ((#[trigger] pairs@[j]).key@,
                        pairs@[j].value@),
                    i <= pairs@.len(),
                    nodes_view(children@) == member_nodes(ps, path@, i as int),
                decreases pairs@.len() - i,
            {
                let mut child_path = to_owned_string(path);
                push_char(&mut child_path, '.');
                push_str(&mut child_path, pairs[i].key.as_str());
                proof {
                    assert(decreases_to!(*value => (*value)->Object_0));
                    assert(decreases_to!(*pairs => pairs@));
                    assert(decreases_to!(pairs@ => pairs@[i as int]));
                    assert(decreases_to!(pairs@[i as int] => pairs@[i as int].value));
                }
                let c = build_node(pairs[i].key.as_str(), &pairs[i].value, child_path.as_str());
                proof {
                    lemma_nodes_view_push(children@, c);
                    assert(ps[i as int] == (pairs@[i as int].key@, pairs@[i as int].value@));
                    assert(child_path@ =~= member_path(path@, pairs@[i as int].key@));
                }
                children.push(c);
                i += 1;
            }
            Node {
                key: to_owned_string(key),
                value: value.deep_clone(),
                path: to_owned_string(path),
                children,
            }
        },
        JSONValue::Array(items) => {
            let ghost vs = view_items(items@);
            let mut children: Vec<Node> = Vec::new();
            let mut i: usize = 0;
            proof {
                lemma_view_items(items@);
            }
            while i < items.len()
                invariant
                    *value == JSONValue::Array(*items),
                    vs == view_items(items@),
                    vs.len() == items@.len(),
                    forall|j: int| 0 <= j < items@.len() ==> vs[j] == (#[trigger] items@[j])@,
                    i <= items@.len(),
                    nodes_view(children@) == item_nodes(vs, path@, i as int),
                decreases items@.len() - i,
            {
                let k = decimal_string(i);
                let mut child_path = to_owned_string(path);
                push_char(&mut child_path, '[');
                push_str(&mut child_path, k.as_str());
                push_char(&mut child_path, ']');
                proof {
                    assert(decreases_to!(*value => (*value)->Array_0));
                    assert(decreases_to!(*items => items@));
                    assert(decreases_to!(items@ => items@[i as int]));
                }
                let c = build_node(k.as_str(), &items[i], child_path.as_str());
                proof {
                    lemma_nodes_view_push(children@, c);
                    assert(child_path@ =~= item_path(path@, i as nat));
                }
                children.push(c);
                i += 1;
            }
            Node {
                key: to_owned_string(key),
                value: value.deep_clone(),
                path: to_owned_string(path),
                children,
            }
        },
        _ => {
            let children: Vec<Node> = Vec::new();
            proof {
                assert(nodes_view(children@) =~= Seq::<NodeView>::empty());
            }
            Node {
                key: to_owned_string(key),
                value: value.deep_clone(),
                path: to_owned_string(path),
                children,
            }
        },
    }
}

impl Node {
    /// A copy of the node and everything under it.
    pub fn deep_clone(&self) -> (r: Node)
        ensures
            r@ == self@,
        decreases self,
    {
        let mut children: Vec<Node> = Vec::new();
        let mut i: usize = 0;
        proof {
            lemma_nodes_view(self.children@);
        }
        while i < self.children.len()
            invariant
                i <= self.children@.len(),
                nodes_view(children@) == nodes_view(self.children@.take(i as int)),
            decreases self.children@.len() - i,
        {
            proof {
                assert(decreases_to!(*self => self.children));
                assert(decreases_to!(self.children => self.children@));
                assert(decreases_to!(self.children@ => self.children@[i as int]));
            }
            let c = self.children[i].deep_clone();
            proof {
                lemma_nodes_view_push(children@, c);
                lemma_nodes_view_push(self.children@.take(i as int), self.children@[i as int]);
                assert(self.children@.take(i as int).push(self.children@[i as int])
                    =~= self.children@.take(i + 1));
            }
            children.push(c);
            i += 1;
        }
        proof {
            assert(self.children@.take(i as int) =~= self.children@);
        }
        Node {
            key: copy_string(&self.key),
            value: self.value.deep_clone(),
            path: copy_string(&self.path),
            children,
        }
    }
}

impl Clone for Node {
    fn clone(&self) -> (r: Self)
        ensures
            r@ == self@,
    {
        self.deep_clone()
    }
}

// ---------------------------------------------------------------------
// What a node shows

pub open spec fn bool_word(b: bool) -> Seq<char> {
    if b {
        "true"@
    } else {
        "false"@
    }
}

/// `key : value` for scalars, `key [n]` / `key {n}` for containers.
pub open spec fn display_text_of(n: NodeView) -> Seq<char> {
    match n.value {
        Json::Null => n.key + " : null"@,
        Json::Bool(b) => n.key + " : "@ + bool_word(b),
        Json::Number(raw) => n.key + " : "@ + raw,
        Json::Str(s) => n.key + " : \""@ + s + "\""@,
        Json::Array(items) => n.key + " ["@ + decimal(items.len()) + "]"@,
        Json::Object(ps) => n.key + " {"@ + decimal(ps.len()) + "}"@,
    }
}

/// `[n]` for an array, `{n}` for an object, nothing otherwise.
pub open spec fn badge_of(v: Json) -> Seq<char> {
    match v {
        Json::Array(items) => "["@ + decimal(items.len()) + "]"@,
        Json::Object(ps) => "{"@ + decimal(ps.len()) + "}"@,
        _ => Seq::empty(),
    }
}

/// At most `max` characters of `s`, with `…` where some were cut.
pub open spec fn truncated(s: Seq<char>, max: nat) -> Seq<char> {
    if s.len() <= max {
        s
    } else {
        s.take(max as int) + seq!['…']
    }
}

pub open spec fn tree_label_of(n: NodeView) -> Seq<char> {
    if n.children.len() > 0 {
        n.key + " "@ + badge_of(n.value)
    } else {
        truncated(display_text_of(n), 160)
    }
}

pub open spec fn value_string_of(n: NodeView) -> Seq<char> {
    match n.value {
        Json::Null => "null"@,
        Json::Bool(b) => bool_word(b),
        Json::Number(raw) => raw,
        Json::Str(s) => s,
        Json::Array(_) => "["@ + decimal(n.children.len()) + " items]"@,
        Json::Object(_) => "{"@ + decimal(n.children.len()) + " properties}"@,
    }
}

/// The index of the first `c` in `s` at or after `i`, or the length.
pub open spec fn index_of_from(s: Seq<char>, c: char, i: int) -> int
    decreases s.len() - i,
{
    if i < 0 || i >= s.len() || s[i] == c {
        i
    } else {
        index_of_from(s, c, i + 1)
    }
}

/// The first line of `s` (`str::lines`): up to the first line feed, with a
/// carriage return just before it dropped.
pub open spec fn first_line(s: Seq<char>) -> Seq<char> {
    let k = index_of_from(s, '\n', 0);
    if k < s.len() && k > 0 && s[k - 1] == '\r' {
        s.take(k - 1)
    } else {
        s.take(k)
    }
}

/// The short form of a value, for the property grid and tree rows: long
/// or multi-line strings are cut to their first line (at most 80
/// characters) with their length.
pub open spec fn value_short_of(n: NodeView) -> Seq<char> {
    match n.value {
        Json::Str(s) => if s.contains('\n') || s.len() > 80 {
            let fl = first_line(s);
            if fl.len() > 80 {
                "\""@ + fl.take(80) + "…\" ("@ + decimal(s.len()) + " chars)"@
            } else {
                "\""@ + fl + "\"… ("@ + decimal(s.len()) + " chars)"@
            }
        } else {
            "\""@ + s + "\""@
        },
        _ => value_string_of(n),
    }
}

pub open spec fn is_long_text_of(n: NodeView) -> bool {
    match n.value {
        Json::Str(s) => s.len() > 45 || s.contains('\n'),
        _ => false,
    }
}

pub open spec fn formatted_value_of(n: NodeView) -> Seq<char> {
    match n.value {
        Json::Array(_) => format_json(n.value, 0, 2, false, false),
        Json::Object(_) => format_json(n.value, 0, 2, false, false),
        _ => value_string_of(n),
    }
}

pub open spec fn type_badge_of(v: Json) -> Seq<char> {
    match v {
        Json::Str(_) => "str"@,
        Json::Number(_) => "num"@,
        Json::Bool(_) => "bool"@,
        Json::Null => "null"@,
        _ => badge_of(v),
    }
}

fn push_bool_word(out: &mut String, b: bool)
    ensures
        final(out)@ == old(out)@ + bool_word(b),
{
    if b {
        push_str(out, "true");
    } else {
        push_str(out, "false");
    }
}

fn push_badge(out: &mut String, v: &JSONValue)
    ensures
        final(out)@ == old(out)@ + badge_of(v@),
{
    proof {
        lemma_view_lens(*v);
    }
    match v {
        JSONValue::Array(items) => {
            push_str(out, "[");
            push_decimal(out, items.len());
            push_str(out, "]");
        },
        JSONValue::Object(pairs) => {
            push_str(out, "{");
            push_decimal(out, pairs.len());
            push_str(out, "}");
        },
        _ => {},
    }
    proof {
        assert(final(out)@ =~= old(out)@ + badge_of(v@));
    }
}

/// The first line of `s`.
fn first_line_exec(s: &str) -> (r: String)
    ensures
        r@ == first_line(s@),
{
    let v = chars_of(s);
    let mut k: usize = 0;
    while k < v.len() && v[k] != '\n'
        invariant
            v@ == s@,
            k <= v@.len(),
            index_of_from(s@, '\n', 0) == index_of_from(s@, '\n', k as int),
        decreases v@.len() - k,
    {
        k += 1;
    }
    if k < v.len() && k > 0 && v[k - 1] == '\r' {
        string_from_range(&v, 0, k - 1)
    } else {
        string_from_range(&v, 0, k)
    }
}

/// `s` cut to at most `max_chars` characters, with `…` where some were cut.
pub fn truncate_chars(s: &str, max_chars: usize) -> (r: String)
    ensures
        r@ == truncated(s@, max_chars as nat),
{
    let v = chars_of(s);
    if v.len() <= max_chars {
        return to_owned_string(s);
    }
    let mut out = string_from_range(&v, 0, max_chars);
    push_char(&mut out, '…');
    out
}

impl Node {
    pub fn id(&self) -> (r: &str)
        ensures
            r@ == self.path@,
    {
        self.path.as_str()
    }

    pub fn is_leaf(&self) -> (r: bool)
        ensures
            r == (self@.children.len() == 0),
    {
        proof {
            lemma_nodes_view(self.children@);
        }
        self.children.len() == 0
    }

    pub fn is_container(&self) -> (r: bool)
        ensures
            r == (self@.children.len() > 0),
    {
        !self.is_leaf()
    }

    pub fn display_text(&self) -> (r: String)
        ensures
            r@ == display_text_of(self@),
    {
        proof {
            lemma_view_lens(self.value);
        }
        let mut out = to_owned_string(self.key.as_str());
        match &self.value {
            JSONValue::Null => push_str(&mut out, " : null"),
            JSONValue::Bool(b) => {
                push_str(&mut out, " : ");
                push_bool_word(&mut out, *b);
            },
            JSONValue::Number(raw) => {
                push_str(&mut out, " : ");
                push_str(&mut out, raw.as_str());
            },
            JSONValue::Str(s) => {
                push_str(&mut out, " : \"");
                push_str(&mut out, s.as_str());
                push_str(&mut out, "\"");
            },
            JSONValue::Array(items) => {
                push_str(&mut out, " [");
                push_decimal(&mut out, items.len());
                push_str(&mut out, "]");
            },
            JSONValue::Object(pairs) => {
                push_str(&mut out, " {");
                push_decimal(&mut out, pairs.len());
                push_str(&mut out, "}");
            },
        }
        proof {
            assert(out@ =~= display_text_of(self@));
        }
        out
    }

    /// The text of the node's tree row.
    pub fn tree_label(&self) -> (r: String)
        ensures
            r@ == tree_label_of(self@),
    {
        if self.is_container() {
            let mut out = to_owned_string(self.key.as_str());
            push_str(&mut out, " ");
            push_badge(&mut out, &self.value);
            proof {
                assert(out@ =~= tree_label_of(self@));
            }
            out
        } else {
            let d = self.display_text();
            truncate_chars(d.as_str(), 160)
        }
    }

    pub fn value_string(&self) -> (r: String)
        ensures
            r@ == value_string_of(self@),
    {
        proof {
            lemma_nodes_view(self.children@);
        }
        let mut out = String::new();
        match &self.value {
            JSONValue::Null => push_str(&mut out, "null"),
            JSONValue::Bool(b) => push_bool_word(&mut out, *b),
            JSONValue::Number(raw) => push_str(&mut out, raw.as_str()),
            JSONValue::Str(s) => push_str(&mut out, s.as_str()),
            JSONValue::Array(_) => {
                push_str(&mut out, "[");
                push_decimal(&mut out, self.children.len());
                push_str(&mut out, " items]");
            },
            JSONValue::Object(_) => {
                push_str(&mut out, "{");
                push_decimal(&mut out, self.children.len());
                push_str(&mut out, " properties}");
            },
        }
        proof {
            assert(out@ =~= value_string_of(self@));
        }
        out
    }

    /// The short form of the value, for the property grid and tree rows.
    pub fn value_string_short(&self) -> (r: String)
        ensures
            r@ == value_short_of(self@),
    {
        match &self.value {
            JSONValue::Str(s) => {
                let count = char_count(s.as_str());
                let mut out = String::new();
                if has_char(s.as_str(), '\n') || count > 80 {
                    let first = first_line_exec(s.as_str());
                    let fv = chars_of(first.as_str());
                    if fv.len() > 80 {
                        push_str(&mut out, "\"");
                        let head = string_from_range(&fv, 0, 80);
                        push_str(&mut out, head.as_str());
                        push_str(&mut out, "…\" (");
                        push_decimal(&mut out, count);
                        push_str(&mut out, " chars)");
                    } else {
                        push_str(&mut out, "\"");
                        push_str(&mut out, first.as_str());
                        push_str(&mut out, "\"… (");
                        push_decimal(&mut out, count);
                        push_str(&mut out, " chars)");
                    }
                } else {
                    push_str(&mut out, "\"");
                    push_str(&mut out, s.as_str());
                    push_str(&mut out, "\"");
                }
                proof {
                    assert(out@ =~= value_short_of(self@));
                }
                out
            },
            _ => self.value_string(),
        }
    }

    /// Whether the value is a string longer than 45 characters or with a
    /// line break.
    pub fn is_long_text(&self) -> (r: bool)
        ensures
            r == is_long_text_of(self@),
    {
        match &self.value {
            JSONValue::Str(s) => char_count(s.as_str()) > 45 || has_char(s.as_str(), '\n'),
            _ => false,
        }
    }

    /// The full value: containers pretty printed with two spaces.
    pub fn formatted_value_string(&self) -> (r: String)
        ensures
            r@ == formatted_value_of(self@),
    {
        match &self.value {
            JSONValue::Array(_) => self.value.format(2, false, false),
            JSONValue::Object(_) => self.value.format(2, false, false),
            _ => self.value_string(),
        }
    }

    pub fn type_badge(&self) -> (r: String)
        ensures
            r@ == type_badge_of(self@.value),
    {
        let mut out = String::new();
        match &self.value {
            JSONValue::Str(_) => push_str(&mut out, "str"),
            JSONValue::Number(_) => push_str(&mut out, "num"),
            JSONValue::Bool(_) => push_str(&mut out, "bool"),
            JSONValue::Null => push_str(&mut out, "null"),
            _ => push_badge(&mut out, &self.value),
        }
        proof {
            assert(out@ =~= type_badge_of(self@.value));
        }
        out
    }

    /// The tree of `value`, rooted at path `$` under `root_key`.
    pub fn build_tree(value: &JSONValue, root_key: &str) -> (r: Node)
        ensures
            r@ == tree_of(root_key@, value@, "$"@),
    {
        build_node(root_key, value, "$")
    }
}

// ---------------------------------------------------------------------
// Rows

/// One row of the property grid.
#[derive(Clone, Debug, PartialEq)]
pub struct PropertyRow {
    pub name: String,
    pub value: String,
    pub typ: String,
    pub path: String,
    pub is_container: bool,
}

/// The property row describing node `n`.
pub open spec fn property_row_of(n: NodeView) -> (Seq<char>, Seq<char>, Seq<char>, Seq<char>, bool) {
    (n.key, value_short_of(n), kind_name_of(n.value), n.path, n.children.len() > 0)
}

impl View for PropertyRow {
    type V = (Seq<char>, Seq<char>, Seq<char>, Seq<char>, bool);

    open spec fn view(&self) -> (Seq<char>, Seq<char>, Seq<char>, Seq<char>, bool) {
        (self.name@, self.value@, self.typ@, self.path@, self.is_container)
    }
}

impl PropertyRow {
    /// The property row describing `n`.
    pub fn of_node(n: &Node) -> (r: PropertyRow)
        ensures
            r@ == property_row_of(n@),
    {
        PropertyRow {
            name: copy_string(&n.key),
            value: n.value_string_short(),
            typ: to_owned_string(n.value.kind_name()),
            path: copy_string(&n.path),
            is_container: n.is_container(),
        }
    }
}

/// Whether a property row passes the grid's filter `q` (already lower
/// case): an empty filter passes everything, else its name, value or type
/// in lower case must contain it.
pub open spec fn property_matches(
    r: (Seq<char>, Seq<char>, Seq<char>, Seq<char>, bool),
    q: Seq<char>,
) -> bool {
    q.len() == 0 || occurs_in(lowercase(r.0), q) || occurs_in(lowercase(r.1), q) || occurs_in(
        lowercase(r.2),
        q,
    )
}

/// The rows that pass the filter `q`, in their order.
pub open spec fn matching_properties(
    rows: Seq<(Seq<char>, Seq<char>, Seq<char>, Seq<char>, bool)>,
    q: Seq<char>,
) -> Seq<(Seq<char>, Seq<char>, Seq<char>, Seq<char>, bool)>
    decreases rows.len(),
{
    if rows.len() == 0 {
        Seq::empty()
    } else {
        let rest = matching_properties(rows.drop_last(), q);
        if property_matches(rows.last(), q) {
            rest.push(rows.last())
        } else {
            rest
        }
    }
}

/// How many filtered properties the grid draws at most.
pub const PROPERTY_DISPLAY_LIMIT: usize = 500;

impl PropertyRow {
    /// A copy of the row.
    pub fn copy(&self) -> (r: PropertyRow)
        ensures
            r@ == self@,
    {
        PropertyRow {
            name: copy_string(&self.name),
            value: copy_string(&self.value),
            typ: copy_string(&self.typ),
            path: copy_string(&self.path),
            is_container: self.is_container,
        }
    }

    /// Whether the row passes the filter `q`, given in lower case.
    pub fn matches_filter(&self, q: &str) -> (r: bool)
        ensures
            r == property_matches(self@, q@),
    {
        let n = chars_of(q);
        if n.len() == 0 {
            return true;
        }
        contains_chars(&chars_of(to_lowercase(self.name.as_str()).as_str()), &n)
            || contains_chars(&chars_of(to_lowercase(self.value.as_str()).as_str()), &n)
            || contains_chars(&chars_of(to_lowercase(self.typ.as_str()).as_str()), &n)
    }
}

/// The property rows that pass the grid's filter, matched without regard
/// to case, in their order.
pub fn filter_properties(rows: &Vec<PropertyRow>, filter: &str) -> (r: Vec<PropertyRow>)
    ensures
        r@.map_values(|x: PropertyRow| x@) == matching_properties(
            rows@.map_values(|x: PropertyRow| x@),
            lowercase(filter@),
        ),
{
    let q = to_lowercase(filter);
    let ghost all = rows@.map_values(|x: PropertyRow| x@);
    let mut out: Vec<PropertyRow> = Vec::new();
    let mut i: usize = 0;
    while i < rows.len()
        invariant
            i <= rows.len(),
            all == rows@.map_values(|x: PropertyRow| x@),
            q@ == lowercase(filter@),
            out@.map_values(|x: PropertyRow| x@) == matching_properties(all.take(i as int), q@),
        decreases rows.len() - i,
    {
        proof {
            assert(all.take(i + 1).drop_last() =~= all.take(i as int));
            assert(all.take(i + 1).last() == rows@[i as int]@);
        }
        if rows[i].matches_filter(q.as_str()) {
            let c = rows[i].copy();
            out.push(c);
            proof {
                assert(out@.map_values(|x: PropertyRow| x@) =~= matching_properties(
                    all.take(i as int),
                    q@,
                ).push(rows@[i as int]@));
            }
        }
        i = i + 1;
    }
    proof {
        assert(all.take(rows.len() as int) =~= all);
    }
    out
}

/// How many property rows the window's grid holds at most.
pub const GRID_CAP: usize = 10000;

/// The rows the window's grid holds: at most the first `GRID_CAP`, and,
/// where there were more, how many there were.
pub fn cap_grid_rows(rows: Vec<PropertyRow>) -> (r: (Vec<PropertyRow>, Option<usize>))
    ensures
        r.0@ == rows@.take(if rows@.len() > GRID_CAP {
            GRID_CAP as int
        } else {
            rows@.len() as int
        }),
        r.1 == if rows@.len() > GRID_CAP {
            Some(rows@.len() as usize)
        } else {
            None::<usize>
        },
{
    let total = rows.len();
    let mut rows = rows;
    if total > GRID_CAP {
        rows.truncate(GRID_CAP);
        (rows, Some(total))
    } else {
        proof {
            assert(rows@.take(rows@.len() as int) =~= rows@);
        }
        (rows, None)
    }
}

/// The note under a grid that shows only the first
/// `PROPERTY_DISPLAY_LIMIT` of `total` rows.
pub fn property_limit_note(total: usize) -> (r: Option<String>)
    ensures
        total <= PROPERTY_DISPLAY_LIMIT ==> r is None,
        total > PROPERTY_DISPLAY_LIMIT ==> (r matches Some(t) && t@ == "Showing first "@ + decimal(
            PROPERTY_DISPLAY_LIMIT as nat,
        ) + " of "@ + decimal(total as nat) + " items. Use Filter to narrow down."@),
{
    if total <= PROPERTY_DISPLAY_LIMIT {
        return None;
    }
    let mut t = to_owned_string("Showing first ");
    push_decimal(&mut t, PROPERTY_DISPLAY_LIMIT);
    push_str(&mut t, " of ");
    push_decimal(&mut t, total);
    push_str(&mut t, " items. Use Filter to narrow down.");
    Some(t)
}

/// One visible row of the tree, in pre-order, with what drawing it needs.
#[derive(Clone, Debug, PartialEq)]
pub struct FlatTreeRow {
    pub path: String,
    pub key: String,
    pub depth: usize,
    pub is_container: bool,
    pub is_expanded: bool,
    pub is_leaf_expanded: bool,
    pub is_match: bool,
    pub badge_text: String,
    pub value_repr: String,
    pub full_str: Option<String>,
    pub char_count: usize,
    pub kind_name: &'static str,
}

/// The mathematical form of a tree row.
pub struct TreeRowView {
    pub path: Seq<char>,
    pub key: Seq<char>,
    pub depth: nat,
    pub is_container: bool,
    pub is_expanded: bool,
    pub is_leaf_expanded: bool,
    pub is_match: bool,
    pub badge_text: Seq<char>,
    pub value_repr: Seq<char>,
    pub full_str: Option<Seq<char>>,
    pub char_count: nat,
    pub kind_name: Seq<char>,
}

impl View for FlatTreeRow {
    type V = TreeRowView;

    open spec fn view(&self) -> TreeRowView {
        TreeRowView {
            path: self.path@,
            key: self.key@,
            depth: self.depth as nat,
            is_container: self.is_container,
            is_expanded: self.is_expanded,
            is_leaf_expanded: self.is_leaf_expanded,
            is_match: self.is_match,
            badge_text: self.badge_text@,
            value_repr: self.value_repr@,
            full_str: match self.full_str {
                Some(s) => Some(s@),
                None => None,
            },
            char_count: self.char_count as nat,
            kind_name: self.kind_name@,
        }
    }
}

/// The colour, as red, green and blue, that marks values of the kind named
/// `t` (short or long name); grey for anything else.
pub open spec fn kind_color(t: Seq<char>) -> (u8, u8, u8) {
    if t == "string"@ || t == "str"@ {
        (90, 160, 255)
    } else if t == "number"@ || t == "num"@ {
        (90, 205, 125)
    } else if t == "boolean"@ || t == "bool"@ {
        (235, 195, 75)
    } else if t == "null"@ {
        (235, 90, 90)
    } else if t == "object"@ {
        (185, 130, 255)
    } else if t == "array"@ {
        (140, 140, 255)
    } else {
        (170, 170, 170)
    }
}

/// The colour of values of the kind named `t`: blue strings, green
/// numbers, amber booleans, red null, purple objects, indigo arrays.
pub fn type_color_by_name(t: &str) -> (r: (u8, u8, u8))
    ensures
        r == kind_color(t@),
{
    if seq_eq(t, "string") || seq_eq(t, "str") {
        (90, 160, 255)
    } else if seq_eq(t, "number") || seq_eq(t, "num") {
        (90, 205, 125)
    } else if seq_eq(t, "boolean") || seq_eq(t, "bool") {
        (235, 195, 75)
    } else if seq_eq(t, "null") {
        (235, 90, 90)
    } else if seq_eq(t, "object") {
        (185, 130, 255)
    } else if seq_eq(t, "array") {
        (140, 140, 255)
    } else {
        (170, 170, 170)
    }
}

impl FlatTreeRow {
    /// Whether the row offers a toggle for its full text: a string longer
    /// than 45 characters.
    pub fn has_text_toggle(&self) -> (r: bool)
        ensures
            r == (self.full_str is Some && self.char_count > 45),
    {
        self.full_str.is_some() && self.char_count > 45
    }

    /// The label of the row: the key of a container, `key : value` for a
    /// leaf.
    pub fn label_text(&self) -> (r: String)
        ensures
            r@ == if self.is_container {
                self.key@
            } else {
                self.key@ + " : "@ + self.value_repr@
            },
    {
        let mut out = copy_string(&self.key);
        if !self.is_container {
            push_str(&mut out, " : ");
            push_str(&mut out, self.value_repr.as_str());
        }
        out
    }

    /// What copying the row's value copies: the full text of a string,
    /// else the shown value.
    pub fn copy_value(&self) -> (r: String)
        ensures
            r@ == match self.full_str {
                Some(t) => t@,
                None => self.value_repr@,
            },
    {
        match &self.full_str {
            Some(t) => copy_string(t),
            None => copy_string(&self.value_repr),
        }
    }

    /// The colour of the row's badge and leaf text.
    pub fn badge_color(&self) -> (r: (u8, u8, u8))
        ensures
            r == kind_color(self.kind_name@),
    {
        type_color_by_name(self.kind_name)
    }
}

pub open spec fn rows_view(rows: Seq<FlatTreeRow>) -> Seq<TreeRowView> {
    rows.map_values(|r: FlatTreeRow| r@)
}

/// What the tree draws for `n` at `depth`, given the expanded nodes, the
/// expanded long strings and the search hits.
pub open spec fn tree_row_of(
    n: NodeView,
    depth: nat,
    expanded: Set<Seq<char>>,
    leaf_expanded: Set<Seq<char>>,
    hits: Set<Seq<char>>,
) -> TreeRowView {
    TreeRowView {
        path: n.path,
        key: n.key,
        depth,
        is_container: n.children.len() > 0,
        is_expanded: expanded.contains(n.path),
        is_leaf_expanded: leaf_expanded.contains(n.path),
        is_match: hits.contains(n.path),
        badge_text: type_badge_of(n.value),
        value_repr: value_short_of(n),
        full_str: match n.value {
            Json::Str(s) => Some(s),
            _ => None,
        },
        char_count: match n.value {
            Json::Str(s) => s.len(),
            _ => 0,
        },
        kind_name: kind_name_of(n.value),
    }
}

/// The rows shown for `n` and, where it is an expanded container, for
/// everything visible under it, in pre-order.
pub open spec fn visible_rows(
    n: NodeView,
    depth: nat,
    expanded: Set<Seq<char>>,
    leaf_expanded: Set<Seq<char>>,
    hits: Set<Seq<char>>,
) -> Seq<TreeRowView>
    decreases n, 1int,
{
    seq![tree_row_of(n, depth, expanded, leaf_expanded, hits)] + if n.children.len() > 0
        && expanded.contains(n.path) {
        visible_children(
            n.children,
            sat_add(depth, 1),
            expanded,
            leaf_expanded,
            hits,
            n.children.len() as int,
        )
    } else {
        Seq::empty()
    }
}

/// The visible rows of the first `k` of `cs`.
pub open spec fn visible_children(
    cs: Seq<NodeView>,
    depth: nat,
    expanded: Set<Seq<char>>,
    leaf_expanded: Set<Seq<char>>,
    hits: Set<Seq<char>>,
    k: int,
) -> Seq<TreeRowView>
    decreases cs, k,
{
    if k <= 0 || k > cs.len() {
        Seq::empty()
    } else {
        visible_children(cs, depth, expanded, leaf_expanded, hits, k - 1) + visible_rows(
            cs[k - 1],
            depth,
            expanded,
            leaf_expanded,
            hits,
        )
    }
}

/// One pre-order row of the whole tree.
#[derive(Clone, Debug)]
pub struct FlatRow {
    pub path: String,
    pub label: String,
    pub depth: usize,
    pub is_container: bool,
}

impl View for FlatRow {
    type V = (Seq<char>, Seq<char>, nat, bool);

    open spec fn view(&self) -> (Seq<char>, Seq<char>, nat, bool) {
        (self.path@, self.label@, self.depth as nat, self.is_container)
    }
}

/// Every node under and including `n`, in pre-order, as `(path, label,
/// depth, is_container)`.
pub open spec fn flat_rows(n: NodeView, depth: nat) -> Seq<(Seq<char>, Seq<char>, nat, bool)>
    decreases n, 1int,
{
    seq![(n.path, tree_label_of(n), depth, n.children.len() > 0)] + flat_children(
        n.children,
        sat_add(depth, 1),
        n.children.len() as int,
    )
}

pub open spec fn flat_children(cs: Seq<NodeView>, depth: nat, k: int) -> Seq<
    (Seq<char>, Seq<char>, nat, bool),
>
    decreases cs, k,
{
    if k <= 0 || k > cs.len() {
        Seq::empty()
    } else {
        flat_children(cs, depth, k - 1) + flat_rows(cs[k - 1], depth)
    }
}

/// The shape of pre-order rows that start at depth `d`: the first row is
/// at `d`, the rest deeper; each row is at most one level deeper than the
/// one before it, and only right below a container.
pub open spec fn preorder_shaped(r: Seq<(Seq<char>, Seq<char>, nat, bool)>, d: nat) -> bool {
    &&& r.len() > 0
    &&& r[0].2 == d
    &&& forall|i: int| 1 <= i < r.len() ==> #[trigger] r[i].2 > d
    &&& forall|i: int|
        0 <= i < r.len() - 1 ==> #[trigger] r[i + 1].2 <= r[i].2 + 1 && (r[i + 1].2 > r[i].2
            ==> r[i].3)
}

/// No row is at the deepest depth a `usize` holds.
pub open spec fn depths_bounded(r: Seq<(Seq<char>, Seq<char>, nat, bool)>) -> bool {
    forall|i: int| 0 <= i < r.len() ==> #[trigger] r[i].2 < usize::MAX
}

pub proof fn lemma_flat_children_shaped(cs: Seq<NodeView>, d: nat, k: int)
    requires
        0 <= k <= cs.len(),
        depths_bounded(flat_children(cs, d, k)),
    ensures
        ({
            let c = flat_children(cs, d, k);
            &&& c.len() > 0 ==> c[0].2 == d
            &&& forall|i: int| 0 <= i < c.len() ==> #[trigger] c[i].2 >= d
            &&& forall|i: int|
                0 <= i < c.len() - 1 ==> #[trigger] c[i + 1].2 <= c[i].2 + 1 && (c[i + 1].2
                    > c[i].2 ==> c[i].3)
        }),
    decreases cs, k,
{
    if k > 0 {
        let a = flat_children(cs, d, k - 1);
        let b = flat_rows(cs[k - 1], d);
        let c = flat_children(cs, d, k);
        assert(c == a + b);
        assert forall|i: int| 0 <= i < a.len() implies #[trigger] a[i].2 < usize::MAX by {
            assert(c[i] == a[i]);
        }
        assert forall|i: int| 0 <= i < b.len() implies #[trigger] b[i].2 < usize::MAX by {
            assert(c[a.len() + i] == b[i]);
        }
        lemma_flat_children_shaped(cs, d, k - 1);
        lemma_flat_rows_shaped(cs[k - 1], d);
        assert forall|i: int| 0 <= i < c.len() implies #[trigger] c[i].2 >= d by {
            if i < a.len() {
                assert(c[i] == a[i]);
            } else {
                assert(c[i] == b[i - a.len()]);
            }
        }
        assert forall|i: int| 0 <= i < c.len() - 1 implies #[trigger] c[i + 1].2 <= c[i].2 + 1 && (c[i
            + 1].2 > c[i].2 ==> c[i].3) by {
            if i + 1 < a.len() {
                assert(c[i] == a[i] && c[i + 1] == a[i + 1]);
            } else if i + 1 == a.len() {
                assert(c[i] == a[i] && c[i + 1] == b[0]);
            } else {
                assert(c[i] == b[i - a.len()] && c[i + 1] == b[i + 1 - a.len()]);
                assert(b[(i - a.len()) + 1] == b[i + 1 - a.len()]);
            }
        }
        if a.len() > 0 {
            assert(c[0] == a[0]);
        } else {
            assert(c[0] == b[0]);
        }
    }
}

/// Pre-order rows of a tree have the shape that lets each row's parent be
/// found from the depths alone.
pub proof fn lemma_flat_rows_shaped(n: NodeView, d: nat)
    requires
        depths_bounded(flat_rows(n, d)),
    ensures
        preorder_shaped(flat_rows(n, d), d),
    decreases n, 0int,
{
    let r = flat_rows(n, d);
    let head = seq![(n.path, tree_label_of(n), d, n.children.len() > 0)];
    let c = flat_children(n.children, sat_add(d, 1), n.children.len() as int);
    assert(r == head + c);
    assert(r[0].2 == d);
    assert(d < usize::MAX);
    assert(sat_add(d, 1) == d + 1);
    assert forall|i: int| 0 <= i < c.len() implies #[trigger] c[i].2 < usize::MAX by {
        assert(r[1 + i] == c[i]);
    }
    lemma_flat_children_shaped(n.children, sat_add(d, 1), n.children.len() as int);
    if c.len() > 0 {
        assert(n.children.len() > 0);
    }
    assert forall|i: int| 1 <= i < r.len() implies #[trigger] r[i].2 > d by {
        assert(r[i] == c[i - 1]);
    }
    assert forall|i: int| 0 <= i < r.len() - 1 implies #[trigger] r[i + 1].2 <= r[i].2 + 1 && (r[i
        + 1].2 > r[i].2 ==> r[i].3) by {
        if i == 0 {
            assert(r[1] == c[0]);
        } else {
            assert(r[i] == c[i - 1] && r[i + 1] == c[i]);
            assert(c[(i - 1) + 1] == c[i]);
        }
    }
}

fn flatten_into(node: &Node, depth: usize, out: &mut Vec<FlatRow>)
    ensures
        final(out)@.map_values(|r: FlatRow| r@) == old(out)@.map_values(|r: FlatRow| r@) + flat_rows(
            node@,
            depth as nat,
        ),
    decreases node,
{
    let ghost before = out@.map_values(|r: FlatRow| r@);
    let row = FlatRow {
        path: copy_string(&node.path),
        label: node.tree_label(),
        depth,
        is_container: node.is_container(),
    };
    out.push(row);
    proof {
        assert(out@.map_values(|r: FlatRow| r@) =~= before + seq![row@]);
        lemma_nodes_view(node.children@);
    }
    let child_depth = depth.saturating_add(1);
    let mut i: usize = 0;
    while i < node.children.len()
        invariant
            i <= node.children@.len(),
            child_depth == sat_add(depth as nat, 1),
            nodes_view(node.children@).len() == node.children@.len(),
            forall|j: int| 0 <= j < node.children@.len() ==> nodes_view(node.children@)[j]
                == node_view(#[trigger] node.children@[j]),
            out@.map_values(|r: FlatRow| r@) == before + seq![row@] + flat_children(
                node@.children,
                child_depth as nat,
                i as int,
            ),
        decreases node.children@.len() - i,
    {
        proof {
            assert(decreases_to!(*node => node.children));
            assert(decreases_to!(node.children => node.children@));
            assert(decreases_to!(node.children@ => node.children@[i as int]));
        }
        let ghost mid = out@.map_values(|r: FlatRow| r@);
        flatten_into(&node.children[i], child_depth, out);
        proof {
            assert(node@.children[i as int] == node.children@[i as int]@);
            assert(out@.map_values(|r: FlatRow| r@) =~= before + seq![row@] + flat_children(
                node@.children,
                child_depth as nat,
                i + 1,
            ));
        }
        i += 1;
    }
    proof {
        assert(before + seq![row@] + flat_children(node@.children, child_depth as nat, i as int)
            =~= before + flat_rows(node@, depth as nat));
    }
}

/// Every node of the tree under `root`, in pre-order.
pub fn flatten(root: &Node) -> (r: Vec<FlatRow>)
    ensures
        r@.map_values(|x: FlatRow| x@) == flat_rows(root@, 0),
{
    let mut out: Vec<FlatRow> = Vec::new();
    proof {
        assert(out@.map_values(|x: FlatRow| x@) =~= Seq::<(Seq<char>, Seq<char>, nat, bool)>::empty());
    }
    flatten_into(root, 0, &mut out);
    proof {
        assert(Seq::<(Seq<char>, Seq<char>, nat, bool)>::empty() + flat_rows(root@, 0) =~= flat_rows(root@, 0));
    }
    out
}

/// The views the application can open on.
#[derive(Clone, Copy, PartialEq, Eq, Structural, Debug)]
pub enum AppTab {
    Viewer,
    Text,
    Split,
}

/// The tab named `t`: `Viewer`, `Split`, or else `Text`.
pub open spec fn tab_named(t: Seq<char>) -> AppTab {
    if t == "Viewer"@ {
        AppTab::Viewer
    } else if t == "Split"@ {
        AppTab::Split
    } else {
        AppTab::Text
    }
}

impl AppTab {
    /// The tab named in the settings; an unknown name gives `Text`.
    pub fn from_settings(s: &str) -> (r: Self)
        ensures
            r == tab_named(s@),
    {
        if seq_eq(s, "Viewer") {
            AppTab::Viewer
        } else if seq_eq(s, "Split") {
            AppTab::Split
        } else {
            AppTab::Text
        }
    }
}

// ---------------------------------------------------------------------
// Sets of paths

/// A set of node paths.
#[derive(Clone, Debug)]
pub struct PathSet {
    paths: Vec<String>,
}

/// Whether one of `ps` is `q`.
pub open spec fn has_path(ps: Seq<String>, q: Seq<char>) -> bool {
    exists|i: int| 0 <= i < ps.len() && (#[trigger] ps[i])@ == q
}

impl View for PathSet {
    type V = Set<Seq<char>>;

    closed spec fn view(&self) -> Set<Seq<char>> {
        Set::new(|q: Seq<char>| has_path(self.paths@, q))
    }
}

impl PathSet {
    pub fn new() -> (r: Self)
        ensures
            r@ == Set::<Seq<char>>::empty(),
    {
        let r = PathSet { paths: Vec::new() };
        proof {
            assert(r@ =~= Set::<Seq<char>>::empty());
        }
        r
    }

    pub fn contains(&self, p: &str) -> (r: bool)
        ensures
            r == self@.contains(p@),
    {
        let mut i: usize = 0;
        while i < self.paths.len()
            invariant
                i <= self.paths@.len(),
                forall|j: int| 0 <= j < i ==> (#[trigger] self.paths@[j])@ != p@,
            decreases self.paths@.len() - i,
        {
            if seq_eq(self.paths[i].as_str(), p) {
                proof {
                    assert(self.paths@[i as int]@ == p@);
                }
                return true;
            }
            i += 1;
        }
        false
    }

    pub fn insert(&mut self, p: String)
        ensures
            final(self)@ == old(self)@.insert(p@),
    {
        if !self.contains(p.as_str()) {
            let ghost old_paths = self.paths@;
            self.paths.push(p);
            proof {
                assert forall|q: Seq<char>| #[trigger] has_path(self.paths@, q) == (has_path(old_paths, q) || q == p@) by {
                    if has_path(old_paths, q) {
                        let i = choose|i: int| 0 <= i < old_paths.len() && (#[trigger] old_paths[i])@ == q;
                        assert(self.paths@[i] == old_paths[i]);
                    }
                    if has_path(self.paths@, q) && q != p@ {
                        let i = choose|i: int| 0 <= i < self.paths@.len() && (#[trigger] self.paths@[i])@ == q;
                        assert(i < old_paths.len());
                        assert(old_paths[i] == self.paths@[i]);
                    }
                    if q == p@ {
                        assert(self.paths@[old_paths.len() as int]@ == q);
                    }
                }
                assert(self@ =~= old(self)@.insert(p@));
            }
        } else {
            proof {
                assert(self@ =~= old(self)@.insert(p@));
            }
        }
    }

    pub fn remove(&mut self, p: &str)
        ensures
            final(self)@ == old(self)@.remove(p@),
    {
        let mut kept: Vec<String> = Vec::new();
        let mut i: usize = 0;
        while i < self.paths.len()
            invariant
                i <= self.paths@.len(),
                forall|q: Seq<char>| #[trigger] has_path(kept@, q) <==> (q != p@ && has_path(
                    self.paths@.take(i as int),
                    q,
                )),
            decreases self.paths@.len() - i,
        {
            let ghost prev = self.paths@.take(i as int);
            let ghost next = self.paths@.take(i + 1);
            proof {
                assert forall|j: int| 0 <= j < prev.len() implies next[j] == prev[j] by {}
                assert(next[i as int] == self.paths@[i as int]);
            }
            if !seq_eq(self.paths[i].as_str(), p) {
                let c = copy_string(&self.paths[i]);
                let ghost before = kept@;
                kept.push(c);
                proof {
                    assert forall|q: Seq<char>| #[trigger] has_path(kept@, q) <==> (q != p@ && has_path(next, q)) by {
                        if has_path(kept@, q) {
                            let j = choose|j: int| 0 <= j < kept@.len() && (#[trigger] kept@[j])@ == q;
                            if j < before.len() {
                                assert(kept@[j] == before[j]);
                                assert(has_path(before, q));
                                let k = choose|k: int| 0 <= k < prev.len() && (#[trigger] prev[k])@ == q;
                                assert(next[k] == prev[k]);
                            } else {
                                assert(next[i as int]@ == q);
                            }
                        }
                        if q != p@ && has_path(next, q) {
                            let j = choose|j: int| 0 <= j < next.len() && (#[trigger] next[j])@ == q;
                            if j < i {
                                assert(prev[j] == next[j]);
                                assert(has_path(prev, q));
                                assert(has_path(before, q));
                                let k = choose|k: int| 0 <= k < before.len() && (#[trigger] before[k])@ == q;
                                assert(kept@[k] == before[k]);
                            } else {
                                assert(kept@[before.len() as int]@ == q);
                            }
                        }
                    }
                }
            } else {
                proof {
                    assert forall|q: Seq<char>| #[trigger] has_path(kept@, q) <==> (q != p@ && has_path(next, q)) by {
                        if q != p@ && has_path(next, q) {
                            let j = choose|j: int| 0 <= j < next.len() && (#[trigger] next[j])@ == q;
                            assert(j < i);
                            assert(prev[j] == next[j]);
                            assert(has_path(prev, q));
                        }
                        if has_path(kept@, q) {
                            assert(has_path(prev, q));
                            let k = choose|k: int| 0 <= k < prev.len() && (#[trigger] prev[k])@ == q;
                            assert(next[k] == prev[k]);
                        }
                    }
                }
            }
            i += 1;
        }
        let ghost old_view = self@;
        proof {
            assert(self.paths@.take(i as int) =~= self.paths@);
        }
        self.paths = kept;
        proof {
            assert(self@ =~= old_view.remove(p@));
        }
    }

    pub fn clear(&mut self)
        ensures
            final(self)@ == Set::<Seq<char>>::empty(),
    {
        self.paths = Vec::new();
        proof {
            assert(self@ =~= Set::<Seq<char>>::empty());
        }
    }
}

// ---------------------------------------------------------------------
// Finding nodes

/// The first node under and including `n`, in pre-order, with path `p`.
pub open spec fn find_spec(n: NodeView, p: Seq<char>) -> Option<NodeView>
    decreases n, 1int,
{
    if n.path == p {
        Some(n)
    } else {
        find_among(n.children, p, 0)
    }
}

/// The first match among `cs[i..]`.
pub open spec fn find_among(cs: Seq<NodeView>, p: Seq<char>, i: int) -> Option<NodeView>
    decreases cs, cs.len() - i,
{
    if i < 0 || i >= cs.len() {
        None
    } else {
        match find_spec(cs[i], p) {
            Some(x) => Some(x),
            None => find_among(cs, p, i + 1),
        }
    }
}

/// The parent of the first node below `n`, in pre-order, with path `p`.
pub open spec fn parent_spec(n: NodeView, p: Seq<char>) -> Option<NodeView>
    decreases n, 1int,
{
    parent_among(n, n.children, p, 0)
}

/// The parent of the first match among `cs[i..]`, the children of `n`.
pub open spec fn parent_among(n: NodeView, cs: Seq<NodeView>, p: Seq<char>, i: int) -> Option<
    NodeView,
>
    decreases cs, cs.len() - i,
{
    if i < 0 || i >= cs.len() {
        None
    } else if cs[i].path == p {
        Some(n)
    } else {
        match parent_spec(cs[i], p) {
            Some(x) => Some(x),
            None => parent_among(n, cs, p, i + 1),
        }
    }
}

/// The paths from `n` down to the parent of the first node with path `p`,
/// if there is one.
pub open spec fn ancestors_spec(n: NodeView, p: Seq<char>) -> Option<Seq<Seq<char>>>
    decreases n, 1int,
{
    if n.path == p {
        Some(Seq::empty())
    } else {
        ancestors_among(n.path, n.children, p, 0)
    }
}

pub open spec fn ancestors_among(top: Seq<char>, cs: Seq<NodeView>, p: Seq<char>, i: int) -> Option<
    Seq<Seq<char>>,
>
    decreases cs, cs.len() - i,
{
    if i < 0 || i >= cs.len() {
        None
    } else {
        match ancestors_spec(cs[i], p) {
            Some(a) => Some(seq![top] + a),
            None => ancestors_among(top, cs, p, i + 1),
        }
    }
}

/// The views of a list of strings.
pub open spec fn strings_view(v: Seq<String>) -> Seq<Seq<char>> {
    v.map_values(|s: String| s@)
}

pub proof fn lemma_child_decreases(node: &Node, i: int)
    requires
        0 <= i < node.children@.len(),
    ensures
        decreases_to!(*node => node.children@[i]),
{
    assert(decreases_to!(*node => node.children));
    assert(decreases_to!(node.children => node.children@));
    assert(decreases_to!(node.children@ => node.children@[i]));
}

/// The first node under and including `node` with path `path`.
pub(crate) fn find_in<'a>(node: &'a Node, path: &str) -> (r: Option<&'a Node>)
    ensures
        match find_spec(node@, path@) {
            Some(x) => r is Some && r->0@ == x,
            None => r is None,
        },
    decreases node,
{
    if seq_eq(node.path.as_str(), path) {
        return Some(node);
    }
    proof {
        lemma_nodes_view(node.children@);
    }
    let mut i: usize = 0;
    while i < node.children.len()
        invariant
            i <= node.children@.len(),
            node@.path != path@,
            nodes_view(node.children@).len() == node.children@.len(),
            forall|j: int| 0 <= j < node.children@.len() ==> nodes_view(node.children@)[j]
                == node_view(#[trigger] node.children@[j]),
            find_spec(node@, path@) == find_among(node@.children, path@, i as int),
        decreases node.children@.len() - i,
    {
        proof {
            lemma_child_decreases(node, i as int);
            assert(node@.children[i as int] == node.children@[i as int]@);
        }
        let f = find_in(&node.children[i], path);
        if f.is_some() {
            return f;
        }
        i += 1;
    }
    None
}

/// The parent of the first node strictly under `node` with path `path`.
pub(crate) fn find_parent<'a>(node: &'a Node, path: &str) -> (r: Option<&'a Node>)
    ensures
        match parent_spec(node@, path@) {
            Some(x) => r is Some && r->0@ == x,
            None => r is None,
        },
    decreases node,
{
    proof {
        lemma_nodes_view(node.children@);
    }
    let mut i: usize = 0;
    while i < node.children.len()
        invariant
            i <= node.children@.len(),
            nodes_view(node.children@).len() == node.children@.len(),
            forall|j: int| 0 <= j < node.children@.len() ==> nodes_view(node.children@)[j]
                == node_view(#[trigger] node.children@[j]),
            parent_spec(node@, path@) == parent_among(node@, node@.children, path@, i as int),
        decreases node.children@.len() - i,
    {
        proof {
            lemma_child_decreases(node, i as int);
            assert(node@.children[i as int] == node.children@[i as int]@);
        }
        let child = &node.children[i];
        if seq_eq(child.path.as_str(), path) {
            return Some(node);
        }
        let f = find_parent(child, path);
        if f.is_some() {
            return f;
        }
        i += 1;
    }
    None
}

/// Appends to `stack` the paths from `node` down to the parent of the
/// first node with path `target`, and tells whether there is one; where
/// there is none, `stack` is left as it was.
pub(crate) fn collect_ancestors(node: &Node, target: &str, stack: &mut Vec<String>) -> (found: bool)
    ensures
        match ancestors_spec(node@, target@) {
            Some(a) => found && strings_view(final(stack)@) == strings_view(old(stack)@) + a,
            None => !found && strings_view(final(stack)@) == strings_view(old(stack)@),
        },
    decreases node,
{
    if seq_eq(node.path.as_str(), target) {
        proof {
            assert(strings_view(stack@) =~= strings_view(stack@) + Seq::<Seq<char>>::empty());
        }
        return true;
    }
    proof {
        lemma_nodes_view(node.children@);
    }
    let ghost start = strings_view(stack@);
    let mut i: usize = 0;
    while i < node.children.len()
        invariant
            i <= node.children@.len(),
            node@.path != target@,
            start == strings_view(old(stack)@),
            strings_view(stack@) == start,
            nodes_view(node.children@).len() == node.children@.len(),
            forall|j: int| 0 <= j < node.children@.len() ==> nodes_view(node.children@)[j]
                == node_view(#[trigger] node.children@[j]),
            ancestors_spec(node@, target@) == ancestors_among(
                node@.path,
                node@.children,
                target@,
                i as int,
            ),
        decreases node.children@.len() - i,
    {
        proof {
            lemma_child_decreases(node, i as int);
            assert(node@.children[i as int] == node.children@[i as int]@);
        }
        stack.push(copy_string(&node.path));
        let ghost pushed = strings_view(stack@);
        proof {
            assert(pushed =~= start.push(node@.path));
        }
        if collect_ancestors(&node.children[i], target, stack) {
            proof {
                let a = ancestors_spec(node.children@[i as int]@, target@)->Some_0;
                assert(strings_view(stack@) =~= start + (seq![node@.path] + a));
            }
            return true;
        }
        let ghost before_pop = stack@;
        stack.pop();
        proof {
            assert(strings_view(before_pop) == pushed);
            assert(stack@ =~= before_pop.drop_last());
            assert(strings_view(stack@) =~= strings_view(before_pop).drop_last());
            assert(strings_view(stack@) =~= start);
        }
        i += 1;
    }
    false
}

// ---------------------------------------------------------------------
// Searching

/// Whether `h` contains `n`, compared case-insensitively: `n` is already
/// lower case and is looked for in the lower-case form of `h`
/// (`str::to_lowercase`); an empty `n` is always found.
pub open spec fn haystack_matches(h: Seq<char>, n: Seq<char>) -> bool {
    n.len() == 0 || occurs_in(lower_text(h), n)
}

pub(crate) fn haystack_contains(haystack: &str, needle_lower: &str) -> (r: bool)
    ensures
        r == haystack_matches(haystack@, needle_lower@),
{
    let n = chars_of(needle_lower);
    if n.len() == 0 {
        return true;
    }
    let low = to_lowercase(haystack);
    let lv = chars_of(low.as_str());
    contains_chars(&lv, &n)
}

/// The text of a value that a search looks at.
pub open spec fn search_text(v: Json) -> Seq<char> {
    match v {
        Json::Null => "null"@,
        Json::Bool(b) => bool_word(b),
        Json::Number(raw) => raw,
        Json::Str(s) => s,
        _ => badge_of(v),
    }
}

/// Whether a node matches a lower-case query: by key, path or value.
pub open spec fn node_matches(n: NodeView, q: Seq<char>) -> bool {
    haystack_matches(n.key, q) || haystack_matches(n.path, q)
        || haystack_matches(search_text(n.value), q)
}

fn node_matches_search(node: &Node, q: &str) -> (r: bool)
    ensures
        r == node_matches(node@, q@),
{
    if haystack_contains(node.key.as_str(), q) {
        return true;
    }
    if haystack_contains(node.path.as_str(), q) {
        return true;
    }
    match &node.value {
        JSONValue::Null => haystack_contains("null", q),
        JSONValue::Bool(b) => haystack_contains(
            if *b {
                "true"
            } else {
                "false"
            },
            q,
        ),
        JSONValue::Number(raw) => haystack_contains(raw.as_str(), q),
        JSONValue::Str(s) => haystack_contains(s.as_str(), q),
        _ => {
            let mut badge = String::new();
            push_badge(&mut badge, &node.value);
            proof {
                assert(badge@ =~= badge_of(node@.value));
            }
            haystack_contains(badge.as_str(), q)
        },
    }
}

/// The paths of the nodes under and including `n` that match, in pre-order.
pub open spec fn search_hits(n: NodeView, q: Seq<char>) -> Seq<Seq<char>>
    decreases n, 1int,
{
    (if node_matches(n, q) {
        seq![n.path]
    } else {
        Seq::empty()
    }) + hits_among(n.children, q, n.children.len() as int)
}

pub open spec fn hits_among(cs: Seq<NodeView>, q: Seq<char>, k: int) -> Seq<Seq<char>>
    decreases cs, k,
{
    if k <= 0 || k > cs.len() {
        Seq::empty()
    } else {
        hits_among(cs, q, k - 1) + search_hits(cs[k - 1], q)
    }
}

fn search_recursive(node: &Node, q: &str, out: &mut Vec<String>)
    ensures
        strings_view(final(out)@) == strings_view(old(out)@) + search_hits(node@, q@),
    decreases node,
{
    let ghost start = strings_view(out@);
    if node_matches_search(node, q) {
        out.push(copy_string(&node.path));
    }
    let ghost mid = strings_view(out@);
    proof {
        assert(mid =~= start + (if node_matches(node@, q@) {
            seq![node@.path]
        } else {
            Seq::empty()
        }));
        lemma_nodes_view(node.children@);
    }
    let mut i: usize = 0;
    while i < node.children.len()
        invariant
            i <= node.children@.len(),
            nodes_view(node.children@).len() == node.children@.len(),
            forall|j: int| 0 <= j < node.children@.len() ==> nodes_view(node.children@)[j]
                == node_view(#[trigger] node.children@[j]),
            strings_view(out@) == mid + hits_among(node@.children, q@, i as int),
        decreases node.children@.len() - i,
    {
        proof {
            lemma_child_decreases(node, i as int);
            assert(node@.children[i as int] == node.children@[i as int]@);
        }
        search_recursive(&node.children[i], q, out);
        proof {
            assert(strings_view(out@) =~= mid + hits_among(node@.children, q@, i + 1));
        }
        i += 1;
    }
    proof {
        assert(strings_view(out@) =~= start + search_hits(node@, q@));
    }
}

/// The paths of the nodes that match `query`, compared case-insensitively,
/// in pre-order.
pub(crate) fn search_in(node: &Node, query: &str) -> (r: Vec<String>)
    ensures
        strings_view(r@) == search_hits(node@, lower_text(query@)),
{
    let q = to_lowercase(query);
    let mut out: Vec<String> = Vec::new();
    proof {
        assert(strings_view(out@) =~= Seq::<Seq<char>>::empty());
    }
    search_recursive(node, q.as_str(), &mut out);
    proof {
        assert(strings_view(out@) =~= search_hits(node@, lower_text(query@)));
    }
    out
}

/// Whether `s[i..=i + limit]` holds no line feed.
pub open spec fn run_without_newline(s: Seq<char>, i: int, limit: nat) -> bool {
    forall|k: int| i <= k <= i + limit ==> #[trigger] s[k] != '\n'
}

/// Whether some line of `s` has more than `limit` characters.
pub open spec fn has_long_line(s: Seq<char>, limit: nat) -> bool {
    exists|i: int| 0 <= i && i + limit < s.len() && #[trigger] run_without_newline(s, i, limit)
}

pub(crate) fn has_huge_line(s: &str, limit: usize) -> (r: bool)
    ensures
        r == has_long_line(s@, limit as nat),
{
    let v = chars_of(s);
    let mut count: usize = 0;
    let mut i: usize = 0;
    while i < v.len()
        invariant
            v@ == s@,
            i <= v@.len(),
            count <= i,
            count <= limit,
            forall|k: int| i - count <= k < i ==> #[trigger] v@[k] != '\n',
            i - count > 0 ==> v@[i - count - 1] == '\n',
            forall|j: int| 0 <= j && j + limit < i ==> !#[trigger] run_without_newline(v@, j, limit as nat),
        decreases v@.len() - i,
    {
        if v[i] == '\n' {
            count = 0;
        } else {
            count += 1;
            if count > limit {
                proof {
                    let j = i - limit;
                    assert(run_without_newline(s@, j, limit as nat));
                }
                return true;
            }
        }
        proof {
            assert forall|j: int| 0 <= j && j + limit < i + 1 implies !#[trigger] run_without_newline(
                v@,
                j,
                limit as nat,
            ) by {
                if j + limit == i {
                    if v@[i as int] != '\n' {
                        let k = i - count;
                        assert(v@[k] == '\n');
                    }
                }
            }
        }
        i += 1;
    }
    false
}

// ---------------------------------------------------------------------
// Containers and visible rows, executable

/// The container paths under and including `n`, in the order a
/// last-child-first depth-first walk meets them.
pub open spec fn containers_rev(n: NodeView) -> Seq<Seq<char>>
    decreases n, 1int,
{
    if n.children.len() > 0 {
        seq![n.path] + containers_rev_among(n.children, n.children.len() as int)
    } else {
        Seq::empty()
    }
}

/// The container paths under `cs[k-1]`, then `cs[k-2]`, ... `cs[0]`.
pub open spec fn containers_rev_among(cs: Seq<NodeView>, k: int) -> Seq<Seq<char>>
    decreases cs, k,
{
    if k <= 0 || k > cs.len() {
        Seq::empty()
    } else {
        containers_rev(cs[k - 1]) + containers_rev_among(cs, k - 1)
    }
}

pub open spec fn min_nat(a: nat, b: nat) -> nat {
    if a < b {
        a
    } else {
        b
    }
}

pub proof fn lemma_take_to_set<A>(l: Seq<A>, a: int, b: int)
    requires
        0 <= a <= b <= l.len(),
    ensures
        l.take(b).to_set() == l.take(a).to_set().union(l.subrange(a, b).to_set()),
{
    assert forall|x: A| #[trigger] l.take(b).to_set().contains(x) == l.take(a).to_set().union(
        l.subrange(a, b).to_set(),
    ).contains(x) by {
        if l.take(b).contains(x) {
            let i = choose|i: int| 0 <= i < l.take(b).len() && l.take(b)[i] == x;
            if i < a {
                assert(l.take(a)[i] == x);
            } else {
                assert(l.subrange(a, b)[i - a] == x);
            }
        }
        if l.take(a).contains(x) {
            let i = choose|i: int| 0 <= i < l.take(a).len() && l.take(a)[i] == x;
            assert(l.take(b)[i] == x);
        }
        if l.subrange(a, b).contains(x) {
            let i = choose|i: int| 0 <= i < l.subrange(a, b).len() && l.subrange(a, b)[i] == x;
            assert(l.take(b)[a + i] == x);
        }
    }
    assert(l.take(b).to_set() =~= l.take(a).to_set().union(l.subrange(a, b).to_set()));
}

/// Inserts the container paths under `node`, in `containers_rev` order,
/// counting them in `count`, and stops once `count` passes `cap`. Tells
/// whether it stopped.
pub(crate) fn insert_containers(node: &Node, set: &mut PathSet, count: &mut usize, cap: usize) -> (stopped: bool)
    requires
        *old(count) <= cap,
        cap < usize::MAX,
    ensures
        ({
            let l = containers_rev(node@);
            let taken = min_nat(l.len(), (cap + 1 - *old(count)) as nat);
            &&& final(set)@ == old(set)@.union(l.take(taken as int).to_set())
            &&& *final(count) == *old(count) + taken
            &&& stopped == (*final(count) > cap)
        }),
    decreases node,
{
    let ghost l = containers_rev(node@);
    let ghost set0 = set@;
    let ghost count0 = *count as nat;
    proof {
        lemma_nodes_view(node.children@);
    }
    if !node.is_container() {
        proof {
            assert(l.take(0) =~= Seq::<Seq<char>>::empty());
            assert(set@.union(Seq::<Seq<char>>::empty().to_set()) =~= set@);
        }
        return false;
    }
    set.insert(copy_string(&node.path));
    *count = *count + 1;
    let ghost cs = node@.children;
    proof {
        assert(l.take(1) =~= seq![node@.path]);
        assert(l.take(1)[0] == node@.path);
        assert(l.take(1).contains(node@.path));
        assert(set@ =~= set0.union(l.take(1).to_set()));
        assert(l.skip(1) =~= containers_rev_among(cs, cs.len() as int));
    }
    if *count > cap {
        return true;
    }
    let mut i: usize = node.children.len();
    while i > 0
        invariant
            i <= node.children@.len(),
            cs == node@.children,
            cs.len() == node.children@.len(),
            forall|j: int| 0 <= j < node.children@.len() ==> cs[j] == node_view(
                #[trigger] node.children@[j],
            ),
            l == containers_rev(node@),
            count0 + 1 <= *count <= cap,
            count0 == *old(count),
            set0 == old(set)@,
            cap < usize::MAX,
            ({
                let done = (*count - count0) as int;
                &&& done <= l.len()
                &&& l.skip(done) == containers_rev_among(cs, i as int)
                &&& set@ == set0.union(l.take(done).to_set())
            }),
        decreases i,
    {
        proof {
            lemma_child_decreases(node, i - 1);
        }
        let ghost done = (*count - count0) as int;
        let ghost c = cs[i - 1];
        let ghost before_set = set@;
        let ghost before_count = *count as nat;
        proof {
            assert(containers_rev_among(cs, i as int) == containers_rev(c) + containers_rev_among(cs, i - 1));
        }
        let stopped = insert_containers(&node.children[i - 1], set, count, cap);
        proof {
            let lc = containers_rev(c);
            let taken_c = min_nat(lc.len(), (cap + 1 - before_count) as nat);
            assert(l.skip(done) == lc + containers_rev_among(cs, i - 1));
            assert(l.subrange(done, done + taken_c) =~= lc.take(taken_c as int)) by {
                assert forall|m: int| 0 <= m < taken_c implies #[trigger] l.subrange(done, done + taken_c)[m]
                    == lc.take(taken_c as int)[m] by {
                    assert(l.skip(done)[m] == l[done + m]);
                    assert((lc + containers_rev_among(cs, i - 1))[m] == lc[m]);
                }
            }
            lemma_take_to_set(l, done, done + taken_c);
            assert(set@ =~= set0.union(l.take(done + taken_c).to_set()));
            if stopped {
                assert(done + lc.len() <= l.len()) by {
                    assert(l.skip(done).len() == lc.len() + containers_rev_among(cs, i - 1).len());
                }
                assert(*count - count0 == done + taken_c);
                assert(*count == cap + 1);
                assert(min_nat(l.len(), (cap + 1 - count0) as nat) == cap + 1 - count0);
            }
            if !stopped {
                assert(taken_c == lc.len());
                assert(l.skip(done + taken_c) =~= containers_rev_among(cs, i - 1)) by {
                    assert forall|m: int| 0 <= m < l.skip(done + taken_c).len() implies #[trigger] l.skip(done + taken_c)[m]
                        == containers_rev_among(cs, i - 1)[m] by {
                        assert(l.skip(done)[taken_c + m] == l[done + taken_c + m]);
                        assert((lc + containers_rev_among(cs, i - 1))[taken_c + m]
                            == containers_rev_among(cs, i - 1)[m]);
                    }
                }
            }
        }
        if stopped {
            return true;
        }
        i -= 1;
    }
    proof {
        let done = (*count - count0) as int;
        assert(l.skip(done).len() == 0);
        assert(l.take(done) =~= l);
    }
    false
}

} // verus!
