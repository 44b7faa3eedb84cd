//! The document being viewed and edited: its text, the value parsed from
//! it, the tree and its visible rows, the selection, and the search.

use vstd::prelude::*;
use crate::text::{push_char, push_str, push_decimal, to_owned_string, copy_string, seq_eq,
    decimal, chars_of, string_from_range};
use crate::json::value::{Json, JSONValue};
use crate::json::parser::JSONParseError;
use crate::model::tree::{Node, NodeView, PathSet, FlatTreeRow, TreeRowView, PropertyRow,
    AppTab, rows_view, visible_rows, visible_children, tree_row_of, lemma_nodes_view,
    nodes_view, node_view, find_spec, is_long_text_of, tab_named, formatted_value_of, parent_spec, ancestors_spec, strings_view,
    property_row_of, GRID_CAP, containers_rev, containers_rev_among, min_nat, find_in, find_parent,
    collect_ancestors, insert_containers, lemma_child_decreases, lemma_take_to_set,
    type_badge_of, value_short_of, search_in, search_hits, has_huge_line, has_long_line,
    SAMPLE_JSON};
use crate::text::lower_text;
use crate::json::value::kind_name_of;
use crate::json::format::{sat_add, format_json, minify_json, python_json, quoted,
    quote_and_escape_string};
use crate::json::grammar::{parse_document, PErr};
use crate::json::parser::{JSONParser, agrees};
use crate::json::stringified::{unescaped, unescape_stringified_json};
use crate::python::{python_literal, parse_python_literal, py_agrees, error_text};
use crate::settings::Settings;
use crate::text::{trim_seq, trim_string, char_count};
use crate::model::tree::tree_of;

verus! {

/// The document: its text, the value and tree read from it, what is
/// expanded, selected and searched for, and the rows the tree shows.
pub struct DocumentModel {
    pub raw_text: String,
    pub json_value: Option<JSONValue>,
    pub root: Option<Node>,
    pub selected_path: Option<String>,
    pub parse_error: Option<JSONParseError>,
    pub error_message: String,
    pub search_query: String,
    pub search_results: Vec<String>,
    pub search_result_ids: PathSet,
    pub current_search_index: usize,
    pub search_status: String,
    pub last_executed_query: String,
    pub character_count: usize,
    pub line_count: usize,
    pub is_dirty: bool,
    pub active_tab: AppTab,
    pub expanded_nodes: PathSet,
    pub expanded_leaf_nodes: PathSet,
    pub visible_tree_rows: Vec<FlatTreeRow>,
    pub tree_version: usize,
    pub requested_scroll_path: Option<String>,
}

// ---------------------------------------------------------------------
// What stays the same

pub open spec fn same_content(a: DocumentModel, b: DocumentModel) -> bool {
    &&& a.raw_text == b.raw_text
    &&& a.json_value == b.json_value
    &&& a.root == b.root
    &&& a.parse_error == b.parse_error
    &&& a.error_message == b.error_message
    &&& a.is_dirty == b.is_dirty
    &&& a.active_tab == b.active_tab
}

pub open spec fn same_metrics(a: DocumentModel, b: DocumentModel) -> bool {
    a.character_count == b.character_count && a.line_count == b.line_count
}

pub open spec fn same_search(a: DocumentModel, b: DocumentModel) -> bool {
    &&& a.search_query == b.search_query
    &&& a.search_results == b.search_results
    &&& a.search_result_ids == b.search_result_ids
    &&& a.current_search_index == b.current_search_index
    &&& a.search_status == b.search_status
    &&& a.last_executed_query == b.last_executed_query
}

pub open spec fn same_selection(a: DocumentModel, b: DocumentModel) -> bool {
    a.selected_path == b.selected_path && a.requested_scroll_path == b.requested_scroll_path
}

pub open spec fn same_expansion(a: DocumentModel, b: DocumentModel) -> bool {
    a.expanded_nodes == b.expanded_nodes && a.expanded_leaf_nodes == b.expanded_leaf_nodes
}

pub open spec fn same_rows(a: DocumentModel, b: DocumentModel) -> bool {
    a.visible_tree_rows == b.visible_tree_rows && a.tree_version == b.tree_version
}

/// The tree as a value, if there is one.
/// The expanded set after expanding the subtree at `path`: every
/// container under and including that node is added.
pub open spec fn subtree_expanded(m: DocumentModel, path: Seq<char>) -> Set<Seq<char>> {
    match root_view(m) {
        Some(r) => match find_spec(r, path) {
            Some(n) => m.expanded_nodes@.union(containers_rev(n).to_set()),
            None => m.expanded_nodes@,
        },
        None => m.expanded_nodes@,
    }
}

/// The paths that collapsing the subtree of `n` removes: `n` itself and
/// every container under it.
pub open spec fn collapse_set(n: NodeView) -> Set<Seq<char>> {
    (seq![n.path] + containers_rev_among(n.children, n.children.len() as int)).to_set()
}

/// The expanded set after collapsing the subtree at `path`.
pub open spec fn subtree_collapsed(m: DocumentModel, path: Seq<char>) -> Set<Seq<char>> {
    match root_view(m) {
        Some(r) => match find_spec(r, path) {
            Some(n) => m.expanded_nodes@.difference(collapse_set(n)),
            None => m.expanded_nodes@,
        },
        None => m.expanded_nodes@,
    }
}

pub open spec fn root_view(m: DocumentModel) -> Option<NodeView> {
    match m.root {
        Some(r) => Some(r@),
        None => None,
    }
}

/// Where the last `.`-separated part of `s[..j]` starts.
pub open spec fn segment_start(s: Seq<char>, j: int) -> int
    decreases j,
{
    if j <= 0 {
        0
    } else if s[j - 1] == '.' {
        j
    } else {
        segment_start(s, j - 1)
    }
}

/// The last `.`-separated part of a path, `JSON (Root)` for the root.
pub open spec fn display_name(p: Seq<char>) -> Seq<char> {
    let last = p.subrange(segment_start(p, p.len() as int), p.len() as int);
    if last == "$"@ {
        "JSON (Root)"@
    } else {
        last
    }
}

/// The label of the button that jumps to the parent: `← Root` when the
/// parent is the root.
pub fn parent_button_label(parent_path: &str, parent_key: &str) -> (r: &'static str)
    ensures
        r@ == if parent_key@ == "JSON"@ || parent_path@ == "$"@ {
            "← Root"@
        } else {
            "← Parent"@
        },
{
    if seq_eq(parent_key, "JSON") || seq_eq(parent_path, "$") {
        "← Root"
    } else {
        "← Parent"
    }
}

/// The key and text of the selected node, when it holds a string that
/// counts as long.
pub open spec fn selected_long_spec(m: DocumentModel) -> Option<(Seq<char>, Seq<char>)> {
    match (m.selected_path, root_view(m)) {
        (Some(p), Some(rv)) => match find_spec(rv, p@) {
            Some(n) => match n.value {
                Json::Str(t) => if is_long_text_of(n) {
                    Some((n.key, t))
                } else {
                    None
                },
                _ => None,
            },
            None => None,
        },
        _ => None,
    }
}

/// The rows the tree shows for the current tree, expansions and hits.
pub open spec fn rows_spec(m: DocumentModel) -> Seq<TreeRowView> {
    match m.root {
        Some(r) => visible_rows(
            r@,
            0,
            m.expanded_nodes@,
            m.expanded_leaf_nodes@,
            m.search_result_ids@,
        ),
        None => Seq::empty(),
    }
}

/// Whether the drawn rows are those of the current state.
pub open spec fn rows_current(m: DocumentModel) -> bool {
    rows_view(m.visible_tree_rows@) == rows_spec(m)
}

/// `s` with `p` taken out where it is in it, and put in where it is not.
pub open spec fn toggled(s: Set<Seq<char>>, p: Seq<char>) -> Set<Seq<char>> {
    if s.contains(p) {
        s.remove(p)
    } else {
        s.insert(p)
    }
}

/// The next value of the change counter (wrapping).
pub open spec fn next_version(v: usize) -> usize {
    if v < usize::MAX {
        (v + 1) as usize
    } else {
        0
    }
}

/// After the rows are rebuilt from `b`'s state: they are current, and the
/// change counter moved on where there is a tree.
pub open spec fn refreshed(a: DocumentModel, b: DocumentModel) -> bool {
    &&& rows_current(b)
    &&& b.tree_version == if b.root is Some {
        next_version(a.tree_version)
    } else {
        a.tree_version
    }
}

/// `b` is `a` with the node at `path` revealed: where the tree holds such
/// a node, its ancestors are expanded, the view is asked to scroll to it
/// and the rows are rebuilt; elsewhere expansion, rows and the scroll
/// request stay as they were.
pub open spec fn revealed(a: DocumentModel, b: DocumentModel, path: Seq<char>) -> bool {
    &&& match root_view(a) {
        Some(rv) => match ancestors_spec(rv, path) {
            Some(anc) => {
                &&& b.expanded_nodes@ == a.expanded_nodes@.union(anc.to_set())
                &&& b.requested_scroll_path is Some
                &&& b.requested_scroll_path->0@ == path
                &&& refreshed(a, b)
            },
            None => same_expansion(a, b) && same_rows(a, b) && b.requested_scroll_path
                == a.requested_scroll_path,
        },
        None => same_expansion(a, b) && same_rows(a, b) && b.requested_scroll_path
            == a.requested_scroll_path,
    }
    &&& b.expanded_leaf_nodes == a.expanded_leaf_nodes
}

// ---------------------------------------------------------------------
// Metrics

/// The length of `s` in UTF-16 code units.
pub open spec fn utf16_len(s: Seq<char>) -> nat
    decreases s.len(),
{
    if s.len() == 0 {
        0
    } else {
        utf16_len(s.drop_last()) + if (s.last() as u32) >= 0x10000 {
            2nat
        } else {
            1nat
        }
    }
}

/// The number of line feeds in `s`.
pub open spec fn newline_count(s: Seq<char>) -> nat
    decreases s.len(),
{
    if s.len() == 0 {
        0
    } else {
        newline_count(s.drop_last()) + if s.last() == '\n' {
            1nat
        } else {
            0nat
        }
    }
}

/// `n`, or the largest `usize` where it is larger.
pub open spec fn capped(n: nat) -> nat {
    if n > usize::MAX {
        usize::MAX as nat
    } else {
        n
    }
}

// ---------------------------------------------------------------------
// Rows, executable

proof fn lemma_rows_view_push(rows: Seq<FlatTreeRow>, x: FlatTreeRow)
    ensures
        rows_view(rows.push(x)) == rows_view(rows).push(x@),
{
    assert(rows_view(rows.push(x)) =~= rows_view(rows).push(x@));
}

/// Appends the visible rows of `node` at `depth`.
fn push_visible(
    node: &Node,
    depth: usize,
    expanded: &PathSet,
    leaf_expanded: &PathSet,
    hits: &PathSet,
    out: &mut Vec<FlatTreeRow>,
)
    ensures
        rows_view(final(out)@) == rows_view(old(out)@) + visible_rows(
            node@,
            depth as nat,
            expanded@,
            leaf_expanded@,
            hits@,
        ),
    decreases node,
{
    let ghost start = rows_view(out@);
    let is_container = node.is_container();
    let is_expanded = expanded.contains(node.path.as_str());
    let (full_str, count) = match &node.value {
        JSONValue::Str(s) => (Some(copy_string(s)), crate::text::char_count(s.as_str())),
        _ => (None, 0),
    };
    let row = FlatTreeRow {
        path: copy_string(&node.path),
        key: copy_string(&node.key),
        depth,
        is_container,
        is_expanded,
        is_leaf_expanded: leaf_expanded.contains(node.path.as_str()),
        is_match: hits.contains(node.path.as_str()),
        badge_text: node.type_badge(),
        value_repr: node.value_string_short(),
        full_str,
        char_count: count,
        kind_name: node.value.kind_name(),
    };
    proof {
        assert(row@ == tree_row_of(node@, depth as nat, expanded@, leaf_expanded@, hits@));
        lemma_rows_view_push(out@, row);
    }
    out.push(row);
    let ghost mid = rows_view(out@);
    proof {
        lemma_nodes_view(node.children@);
    }
    if is_container && is_expanded {
        let child_depth = depth.saturating_add(1);
        let mut i: usize = 0;
        while i < node.children.len()
            invariant
                i <= node.children@.len(),
                child_depth == sat_add(depth as nat, 1),
                nodes_view(node.children@).len() == node.children@.len(),
                forall|j: int| 0 <= j < node.children@.len() ==> nodes_view(node.children@)[j]
                    == node_view(#[trigger] node.children@[j]),
                rows_view(out@) == mid + visible_children(
                    node@.children,
                    child_depth as nat,
                    expanded@,
                    leaf_expanded@,
                    hits@,
                    i as int,
                ),
            decreases node.children@.len() - i,
        {
            proof {
                lemma_child_decreases(node, i as int);
                assert(node@.children[i as int] == node.children@[i as int]@);
            }
            push_visible(&node.children[i], child_depth, expanded, leaf_expanded, hits, out);
            proof {
                assert(rows_view(out@) =~= mid + visible_children(
                    node@.children,
                    child_depth as nat,
                    expanded@,
                    leaf_expanded@,
                    hits@,
                    i + 1,
                ));
            }
            i += 1;
        }
        proof {
            assert(rows_view(out@) =~= start + visible_rows(
                node@,
                depth as nat,
                expanded@,
                leaf_expanded@,
                hits@,
            ));
        }
    } else {
        proof {
            assert(rows_view(out@) =~= start + visible_rows(
                node@,
                depth as nat,
                expanded@,
                leaf_expanded@,
                hits@,
            ));
        }
    }
}

pub proof fn lemma_concat_to_set<A>(a: Seq<A>, b: Seq<A>)
    ensures
        (a + b).to_set() == a.to_set().union(b.to_set()),
{
    assert forall|x: A| #[trigger] (a + b).to_set().contains(x) == a.to_set().union(b.to_set()).contains(x) by {
        if (a + b).contains(x) {
            let i = choose|i: int| 0 <= i < (a + b).len() && (a + b)[i] == x;
            if i < a.len() {
                assert(a[i] == x);
            } else {
                assert(b[i - a.len()] == x);
            }
        }
        if a.contains(x) {
            let i = choose|i: int| 0 <= i < a.len() && a[i] == x;
            assert((a + b)[i] == x);
        }
        if b.contains(x) {
            let i = choose|i: int| 0 <= i < b.len() && b[i] == x;
            assert((a + b)[a.len() + i] == x);
        }
    }
    assert((a + b).to_set() =~= a.to_set().union(b.to_set()));
}

/// Inserts every container path under and including `node`.
fn insert_all_containers(node: &Node, set: &mut PathSet)
    ensures
        final(set)@ == old(set)@.union(containers_rev(node@).to_set()),
    decreases node,
{
    let ghost l = containers_rev(node@);
    let ghost set0 = set@;
    if !node.is_container() {
        proof {
            assert(set@.union(l.to_set()) =~= set@);
        }
        return;
    }
    set.insert(copy_string(&node.path));
    proof {
        lemma_nodes_view(node.children@);
    }
    let ghost cs = node@.children;
    let ghost top = set0.insert(node@.path);
    let mut i: usize = 0;
    proof {
        assert(set@.union(containers_rev_among(cs, 0).to_set()) =~= set@);
    }
    while i < node.children.len()
        invariant
            i <= node.children@.len(),
            cs == node@.children,
            cs.len() == node.children@.len(),
            forall|j: int| 0 <= j < node.children@.len() ==> cs[j] == node_view(
                #[trigger] node.children@[j],
            ),
            l == seq![node@.path] + containers_rev_among(cs, cs.len() as int),
            set0 == old(set)@,
            top == set0.insert(node@.path),
            set@ == top.union(containers_rev_among(cs, i as int).to_set()),
        decreases node.children@.len() - i,
    {
        proof {
            lemma_child_decreases(node, i as int);
        }
        insert_all_containers(&node.children[i], set);
        proof {
            assert(containers_rev_among(cs, i + 1) == containers_rev(cs[i as int])
                + containers_rev_among(cs, i as int));
            lemma_concat_to_set(containers_rev(cs[i as int]), containers_rev_among(cs, i as int));
            assert(set@ =~= top.union(containers_rev_among(cs, i + 1).to_set()));
        }
        i += 1;
    }
    proof {
        lemma_concat_to_set(seq![node@.path], containers_rev_among(cs, cs.len() as int));
        assert(seq![node@.path].to_set() =~= set![node@.path]) by {
            assert(seq![node@.path][0] == node@.path);
        }
        assert(set@ =~= set0.union(l.to_set()));
    }
}

/// Appends the container paths under and including `node`, in
/// `containers_rev` order.
fn collect_containers(node: &Node, out: &mut Vec<String>)
    ensures
        strings_view(final(out)@) == strings_view(old(out)@) + containers_rev(node@),
    decreases node,
{
    let ghost start = strings_view(out@);
    if !node.is_container() {
        proof {
            assert(strings_view(out@) =~= start + containers_rev(node@));
        }
        return;
    }
    out.push(copy_string(&node.path));
    proof {
        lemma_nodes_view(node.children@);
    }
    let ghost cs = node@.children;
    let ghost mid = start.push(node@.path);
    proof {
        assert(strings_view(out@) =~= mid);
    }
    let mut i: usize = node.children.len();
    while i > 0
        invariant
            i <= node.children@.len(),
            cs == node@.children,
            cs.len() == node.children@.len(),
            forall|j: int| 0 <= j < node.children@.len() ==> cs[j] == node_view(
                #[trigger] node.children@[j],
            ),
            mid == start.push(node@.path),
            strings_view(out@) + containers_rev_among(cs, i as int) == mid + containers_rev_among(
                cs,
                cs.len() as int,
            ),
        decreases i,
    {
        proof {
            lemma_child_decreases(node, i - 1);
        }
        let ghost before = strings_view(out@);
        collect_containers(&node.children[i - 1], out);
        proof {
            assert(containers_rev_among(cs, i as int) == containers_rev(cs[i - 1]) + containers_rev_among(
                cs,
                i - 1,
            ));
            assert(strings_view(out@) + containers_rev_among(cs, i - 1) =~= before
                + containers_rev_among(cs, i as int));
        }
        i -= 1;
    }
    proof {
        assert(strings_view(out@) + containers_rev_among(cs, 0) =~= strings_view(out@));
        assert(strings_view(out@) =~= start + containers_rev(node@));
    }
}

pub proof fn lemma_singleton_to_set<A>(x: A)
    ensures
        seq![x].to_set() == set![x],
{
    assert(seq![x][0] == x);
    assert(seq![x].to_set() =~= set![x]);
}

/// Inserts every path of `paths`.
fn insert_paths(set: &mut PathSet, paths: &Vec<String>)
    ensures
        final(set)@ == old(set)@.union(strings_view(paths@).to_set()),
{
    let mut i: usize = 0;
    while i < paths.len()
        invariant
            i <= paths@.len(),
            set@ == old(set)@.union(strings_view(paths@.take(i as int)).to_set()),
        decreases paths@.len() - i,
    {
        let ghost before = set@;
        set.insert(copy_string(&paths[i]));
        proof {
            assert(strings_view(paths@.take(i + 1)) =~= strings_view(paths@.take(i as int)).push(
                paths@[i as int]@,
            ));
            let p = paths@[i as int]@;
            assert(strings_view(paths@.take(i as int)).push(p) =~= strings_view(paths@.take(i as int))
                + seq![p]);
            lemma_concat_to_set(strings_view(paths@.take(i as int)), seq![p]);
            lemma_singleton_to_set(p);
            assert(set@ =~= old(set)@.union(strings_view(paths@.take(i + 1)).to_set()));
        }
        i += 1;
    }
    proof {
        assert(paths@.take(i as int) =~= paths@);
    }
}

/// Removes every path of `paths`.
fn remove_paths(set: &mut PathSet, paths: &Vec<String>)
    ensures
        final(set)@ == old(set)@.difference(strings_view(paths@).to_set()),
{
    let mut i: usize = 0;
    while i < paths.len()
        invariant
            i <= paths@.len(),
            set@ == old(set)@.difference(strings_view(paths@.take(i as int)).to_set()),
        decreases paths@.len() - i,
    {
        set.remove(paths[i].as_str());
        proof {
            assert(strings_view(paths@.take(i + 1)) =~= strings_view(paths@.take(i as int)).push(
                paths@[i as int]@,
            ));
            let p = paths@[i as int]@;
            assert(strings_view(paths@.take(i as int)).push(p) =~= strings_view(paths@.take(i as int))
                + seq![p]);
            lemma_concat_to_set(strings_view(paths@.take(i as int)), seq![p]);
            lemma_singleton_to_set(p);
            assert(set@ =~= old(set)@.difference(strings_view(paths@.take(i + 1)).to_set()));
        }
        i += 1;
    }
    proof {
        assert(paths@.take(i as int) =~= paths@);
    }
}

/// The property grid for the selection: the parent's path and key, and
/// the rows of the selected container's children, or of the selected
/// leaf's siblings.
pub open spec fn properties_spec(m: DocumentModel) -> (
    Option<(Seq<char>, Seq<char>)>,
    Seq<(Seq<char>, Seq<char>, Seq<char>, Seq<char>, bool)>,
) {
    match (m.selected_path, m.root) {
        (Some(sel), Some(r)) => match find_spec(r@, sel@) {
            None => (None, Seq::empty()),
            Some(node) => {
                let parent = parent_spec(r@, sel@);
                let parent_info = match parent {
                    Some(p) => Some((p.path, p.key)),
                    None => None,
                };
                if node.children.len() == 0 && parent is None {
                    (None, seq![property_row_of(node)])
                } else {
                    let container = if node.children.len() > 0 {
                        node
                    } else {
                        parent->Some_0
                    };
                    if container.children.len() == 0 {
                        (parent_info, seq![property_row_of(container)])
                    } else {
                        (parent_info, container.children.map_values(|c: NodeView| property_row_of(c)))
                    }
                }
            },
        },
        _ => (None, Seq::empty()),
    }
}

pub open spec fn status_spec(m: DocumentModel) -> Seq<char> {
    match m.parse_error {
        Some(e) => "Error: "@ + e.message@ + " (Line "@ + decimal(e.line as nat) + ", Col "@
            + decimal(e.column as nat) + ")"@,
        None => if m.raw_text@.len() > 0 {
            "Valid JSON"@
        } else {
            "Ready"@
        },
    }
}

/// `b` is `a` marked as edited, with its text counted again.
pub open spec fn edited(a: DocumentModel, b: DocumentModel) -> bool {
    &&& b.character_count == capped(utf16_len(a.raw_text@))
    &&& b.line_count == capped(1 + newline_count(a.raw_text@))
    &&& b == (DocumentModel {
        is_dirty: true,
        character_count: b.character_count,
        line_count: b.line_count,
        ..a
    })
}

/// `b` is `a` with every container expanded (the first 80,001 in reverse
/// pre-order) and the rows rebuilt.
pub open spec fn all_expanded(a: DocumentModel, b: DocumentModel) -> bool {
    &&& match a.root {
        Some(r) => {
            &&& b.expanded_nodes@ == a.expanded_nodes@.union(
                containers_rev(r@).take(
                    min_nat(containers_rev(r@).len(), 80001) as int,
                ).to_set(),
            )
            &&& refreshed(a, b)
        },
        None => same_expansion(a, b) && same_rows(a, b),
    }
    &&& b.expanded_leaf_nodes == a.expanded_leaf_nodes
    &&& same_content(a, b)
    &&& same_metrics(a, b)
    &&& same_search(a, b)
    &&& same_selection(a, b)
}

/// `b` is `a` with everything collapsed but the root, and the rows rebuilt.
pub open spec fn all_collapsed(a: DocumentModel, b: DocumentModel) -> bool {
    &&& b.expanded_nodes@ == match a.root {
        Some(r) => set![r@.path],
        None => Set::<Seq<char>>::empty(),
    }
    &&& b.expanded_leaf_nodes@ == Set::<Seq<char>>::empty()
    &&& same_content(a, b)
    &&& same_metrics(a, b)
    &&& same_search(a, b)
    &&& same_selection(a, b)
    &&& refreshed(a, b)
}

impl DocumentModel {
    /// Recounts the characters (in UTF-16 code units) and lines of the text.
    pub fn update_metrics(&mut self)
        ensures
            final(self).character_count == capped(utf16_len(old(self).raw_text@)),
            final(self).line_count == capped(1 + newline_count(old(self).raw_text@)),
            same_content(*old(self), *final(self)),
            same_search(*old(self), *final(self)),
            same_selection(*old(self), *final(self)),
            same_expansion(*old(self), *final(self)),
            same_rows(*old(self), *final(self)),
    {
        let v = chars_of(self.raw_text.as_str());
        let mut units: usize = 0;
        let mut lines: usize = 1;
        let mut i: usize = 0;
        proof {
            assert(v@.take(0) =~= Seq::<char>::empty());
        }
        while i < v.len()
            invariant
                i <= v@.len(),
                units == capped(utf16_len(v@.take(i as int))),
                lines == capped(1 + newline_count(v@.take(i as int))),
            decreases v@.len() - i,
        {
            let c = v[i];
            proof {
                assert(v@.take(i + 1).drop_last() =~= v@.take(i as int));
                assert(v@.take(i + 1).last() == c);
            }
            let w: usize = if (c as u32) >= 0x10000 {
                2
            } else {
                1
            };
            units = units.saturating_add(w);
            if c == '\n' {
                lines = lines.saturating_add(1);
            }
            i += 1;
        }
        proof {
            assert(v@.take(i as int) =~= self.raw_text@);
        }
        self.character_count = units;
        self.line_count = lines;
    }

    /// Records an edit of the text.
    pub fn mark_edited(&mut self)
        ensures
            edited(*old(self), *final(self)),
    {
        self.is_dirty = true;
        self.update_metrics();
    }

    /// Rebuilds the rows the tree shows.
    pub fn update_visible_rows(&mut self)
        ensures
            same_content(*old(self), *final(self)),
            same_metrics(*old(self), *final(self)),
            same_search(*old(self), *final(self)),
            same_selection(*old(self), *final(self)),
            same_expansion(*old(self), *final(self)),
            refreshed(*old(self), *final(self)),
    {
        let mut rows: Vec<FlatTreeRow> = Vec::new();
        proof {
            assert(rows_view(rows@) =~= Seq::<TreeRowView>::empty());
        }
        match &self.root {
            Some(r) => {
                push_visible(
                    r,
                    0,
                    &self.expanded_nodes,
                    &self.expanded_leaf_nodes,
                    &self.search_result_ids,
                    &mut rows,
                );
                proof {
                    assert(rows_view(rows@) =~= rows_spec(*self));
                }
                self.visible_tree_rows = rows;
                self.tree_version = if self.tree_version < usize::MAX {
                    self.tree_version + 1
                } else {
                    0
                };
            },
            None => {
                self.visible_tree_rows = rows;
            },
        }
    }

    /// Expands the node at `path`, or collapses it where it is expanded.
    pub fn toggle_expand(&mut self, path: &str)
        ensures
            final(self).expanded_nodes@ == toggled(old(self).expanded_nodes@, path@),
            final(self).expanded_leaf_nodes == old(self).expanded_leaf_nodes,
            same_content(*old(self), *final(self)),
            same_metrics(*old(self), *final(self)),
            same_search(*old(self), *final(self)),
            same_selection(*old(self), *final(self)),
            refreshed(*old(self), *final(self)),
    {
        if self.expanded_nodes.contains(path) {
            self.expanded_nodes.remove(path);
        } else {
            self.expanded_nodes.insert(to_owned_string(path));
        }
        self.update_visible_rows();
    }

    /// Shows a long string in full, or folds it back.
    pub fn toggle_expand_leaf(&mut self, path: &str)
        ensures
            final(self).expanded_leaf_nodes@ == toggled(old(self).expanded_leaf_nodes@, path@),
            final(self).expanded_nodes == old(self).expanded_nodes,
            same_content(*old(self), *final(self)),
            same_metrics(*old(self), *final(self)),
            same_search(*old(self), *final(self)),
            same_selection(*old(self), *final(self)),
            refreshed(*old(self), *final(self)),
    {
        if self.expanded_leaf_nodes.contains(path) {
            self.expanded_leaf_nodes.remove(path);
        } else {
            self.expanded_leaf_nodes.insert(to_owned_string(path));
        }
        self.update_visible_rows();
    }

    /// Expands every container, up to the first 80,001 met by a
    /// last-child-first walk.
    pub fn expand_all(&mut self)
        ensures
            all_expanded(*old(self), *final(self)),
    {
        if let Some(r) = &self.root {
            let mut count: usize = 0;
            let _ = insert_containers(r, &mut self.expanded_nodes, &mut count, 80000);
            self.update_visible_rows();
        }
    }

    /// Collapses everything but the root, and folds every long string.
    pub fn collapse_all(&mut self)
        ensures
            all_collapsed(*old(self), *final(self)),
    {
        self.expanded_nodes.clear();
        self.expanded_leaf_nodes.clear();
        if let Some(r) = &self.root {
            self.expanded_nodes.insert(copy_string(&r.path));
            proof {
                assert(self.expanded_nodes@ =~= set![r@.path]);
            }
        }
        self.update_visible_rows();
    }

    /// Expands every container under and including the node at `path`.
    pub fn expand_subtree(&mut self, path: &str)
        ensures
            final(self).expanded_nodes@ == subtree_expanded(*old(self), path@),
            final(self).expanded_leaf_nodes == old(self).expanded_leaf_nodes,
            same_content(*old(self), *final(self)),
            same_metrics(*old(self), *final(self)),
            same_search(*old(self), *final(self)),
            same_selection(*old(self), *final(self)),
            refreshed(*old(self), *final(self)),
    {
        let mut paths: Vec<String> = Vec::new();
        match &self.root {
            Some(r) => match find_in(r, path) {
                Some(node) => collect_containers(node, &mut paths),
                None => {},
            },
            None => {},
        }
        proof {
            assert(strings_view(paths@) == match root_view(*self) {
                Some(r) => match find_spec(r, path@) {
                    Some(n) => containers_rev(n),
                    None => Seq::<Seq<char>>::empty(),
                },
                None => Seq::<Seq<char>>::empty(),
            });
            assert(Seq::<Seq<char>>::empty().to_set() =~= Set::<Seq<char>>::empty());
            assert(self.expanded_nodes@.union(Set::<Seq<char>>::empty()) =~= self.expanded_nodes@);
        }
        insert_paths(&mut self.expanded_nodes, &paths);
        self.update_visible_rows();
    }

    /// Collapses the node at `path` and every container under it.
    pub fn collapse_subtree(&mut self, path: &str)
        ensures
            final(self).expanded_nodes@ == subtree_collapsed(*old(self), path@),
            final(self).expanded_leaf_nodes == old(self).expanded_leaf_nodes,
            same_content(*old(self), *final(self)),
            same_metrics(*old(self), *final(self)),
            same_search(*old(self), *final(self)),
            same_selection(*old(self), *final(self)),
            refreshed(*old(self), *final(self)),
    {
        let mut paths: Vec<String> = Vec::new();
        match &self.root {
            Some(r) => match find_in(r, path) {
                Some(node) => {
                    paths.push(copy_string(&node.path));
                    proof {
                        lemma_nodes_view(node.children@);
                    }
                    let ghost cs = node@.children;
                    let mut i: usize = node.children.len();
                    while i > 0
                        invariant
                            i <= node.children@.len(),
                            cs == node@.children,
                            cs.len() == node.children@.len(),
                            forall|j: int| 0 <= j < node.children@.len() ==> cs[j] == node_view(
                                #[trigger] node.children@[j],
                            ),
                            strings_view(paths@) + containers_rev_among(cs, i as int) == seq![
                                node@.path,
                            ] + containers_rev_among(cs, cs.len() as int),
                        decreases i,
                    {
                        let ghost before = strings_view(paths@);
                        collect_containers(&node.children[i - 1], &mut paths);
                        proof {
                            assert(cs[i - 1] == node.children@[i - 1]@);
                            assert(containers_rev_among(cs, i as int) == containers_rev(cs[i - 1])
                                + containers_rev_among(cs, i - 1));
                            assert(strings_view(paths@) + containers_rev_among(cs, i - 1) =~= before
                                + containers_rev_among(cs, i as int));
                        }
                        i -= 1;
                    }
                    proof {
                        assert(strings_view(paths@) + containers_rev_among(cs, 0) =~= strings_view(paths@));
                    }
                },
                None => {},
            },
            None => {},
        }
        proof {
            assert(Seq::<Seq<char>>::empty().to_set() =~= Set::<Seq<char>>::empty());
            assert(self.expanded_nodes@.difference(Set::<Seq<char>>::empty()) =~= self.expanded_nodes@);
        }
        remove_paths(&mut self.expanded_nodes, &paths);
        self.update_visible_rows();
    }

    /// The name the property grid shows for the selection: the last
    /// `.`-separated part of its path, `JSON (Root)` for the root.
    pub fn selected_name(&self) -> (r: Option<String>)
        ensures
            match self.selected_path {
                Some(p) => (r matches Some(t) && t@ == display_name(p@)),
                None => r is None,
            },
    {
        let sel = match &self.selected_path {
            Some(p) => p,
            None => return None,
        };
        let v = chars_of(sel.as_str());
        let mut j: usize = v.len();
        while j > 0 && v[j - 1] != '.'
            invariant
                j <= v@.len(),
                segment_start(v@, j as int) == segment_start(v@, v@.len() as int),
            decreases j,
        {
            j = j - 1;
        }
        let name = string_from_range(&v, j, v.len());
        if seq_eq(name.as_str(), "$") {
            Some(to_owned_string("JSON (Root)"))
        } else {
            Some(name)
        }
    }

    /// Takes the request to scroll to a node, once: gives the position of
    /// the first shown row with its path, if a request was pending and
    /// such a row is shown.
    pub fn take_scroll_row(&mut self) -> (r: Option<usize>)
        ensures
            final(self).requested_scroll_path is None,
            *final(self) == (DocumentModel { requested_scroll_path: None, ..*old(self) }),
            match old(self).requested_scroll_path {
                Some(p) => match r {
                    Some(i) => i < old(self).visible_tree_rows@.len() && old(
                        self,
                    ).visible_tree_rows@[i as int].path@ == p@ && forall|k: int|
                        0 <= k < i ==> #[trigger] old(self).visible_tree_rows@[k].path@ != p@,
                    None => forall|k: int|
                        0 <= k < old(self).visible_tree_rows@.len() ==> #[trigger] old(
                            self,
                        ).visible_tree_rows@[k].path@ != p@,
                },
                None => r is None,
            },
    {
        let target = self.requested_scroll_path.take();
        match target {
            Some(p) => {
                let mut i: usize = 0;
                while i < self.visible_tree_rows.len()
                    invariant
                        *self == (DocumentModel { requested_scroll_path: None, ..*old(self) }),
                        i <= self.visible_tree_rows@.len(),
                        old(self).requested_scroll_path == Some(p),
                        forall|k: int| 0 <= k < i ==> #[trigger] self.visible_tree_rows@[k].path@ != p@,
                    decreases self.visible_tree_rows@.len() - i,
                {
                    if seq_eq(self.visible_tree_rows[i].path.as_str(), p.as_str()) {
                        return Some(i);
                    }
                    i = i + 1;
                }
                None
            },
            None => None,
        }
    }

    /// The key and text of the selected node when it holds a long string
    /// (the one the expanded text panel shows).
    pub fn selected_long_text(&self) -> (r: Option<(String, String)>)
        ensures
            match selected_long_spec(*self) {
                Some((k, t)) => (r matches Some((a, b)) && a@ == k && b@ == t),
                None => r is None,
            },
    {
        let path = match &self.selected_path {
            Some(p) => p,
            None => return None,
        };
        let node = match self.find_node(path.as_str()) {
            Some(n) => n,
            None => return None,
        };
        let long = node.is_long_text();
        match &node.value {
            JSONValue::Str(s) => {
                if long {
                    Some((copy_string(&node.key), copy_string(s)))
                } else {
                    None
                }
            },
            _ => None,
        }
    }

    /// Whether the expanded text panel shows: not on the text tab, only
    /// when it is open on the selected node, and only while that node
    /// holds a long string.
    pub fn expand_should_show(&self, expand_visible: bool, expand_path: &Option<String>) -> (r:
        bool)
        ensures
            r == (self.active_tab != AppTab::Text && expand_visible && match (
                *expand_path,
                self.selected_path,
            ) {
                (Some(ep), Some(sel)) => ep@ == sel@ && selected_long_spec(*self) is Some,
                _ => false,
            }),
    {
        if self.active_tab == AppTab::Text {
            return false;
        }
        if !expand_visible {
            return false;
        }
        match (expand_path, &self.selected_path) {
            (Some(ep), Some(sel)) => {
                if seq_eq(ep.as_str(), sel.as_str()) {
                    self.selected_long_text().is_some()
                } else {
                    false
                }
            },
            _ => false,
        }
    }

    /// The first node in pre-order with path `path`.
    pub fn find_node(&self, path: &str) -> (r: Option<&Node>)
        ensures
            match root_view(*self) {
                Some(rv) => match find_spec(rv, path@) {
                    Some(x) => r is Some && r->0@ == x,
                    None => r is None,
                },
                None => r is None,
            },
    {
        match &self.root {
            Some(root) => find_in(root, path),
            None => None,
        }
    }

    /// The paths from the root down to the parent of the node at `path`,
    /// where there is such a node.
    pub fn find_with_ancestors(&self, path: &str) -> (r: Option<(Vec<String>, bool)>)
        ensures
            match root_view(*self) {
                Some(rv) => match ancestors_spec(rv, path@) {
                    Some(a) => (r matches Some((v, f)) && strings_view(v@) == a && f),
                    None => r is None,
                },
                None => r is None,
            },
    {
        let mut ancestors: Vec<String> = Vec::new();
        match &self.root {
            Some(root) => {
                let found = collect_ancestors(root, path, &mut ancestors);
                proof {
                    assert(strings_view(Seq::<String>::empty()) =~= Seq::<Seq<char>>::empty());
                    if found {
                        assert(strings_view(ancestors@) =~= ancestors_spec(root@, path@)->Some_0);
                    }
                }
                if found {
                    Some((ancestors, true))
                } else {
                    None
                }
            },
            None => None,
        }
    }

    /// The path and key of the selected node's parent.
    pub fn parent_of_selected(&self) -> (r: Option<(String, String)>)
        ensures
            match (self.selected_path, root_view(*self)) {
                (Some(sel), Some(rv)) => match parent_spec(rv, sel@) {
                    Some(p) => (r matches Some((pp, pk)) && pp@ == p.path && pk@ == p.key),
                    None => r is None,
                },
                _ => r is None,
            },
    {
        match (&self.selected_path, &self.root) {
            (Some(sel), Some(root)) => match find_parent(root, sel.as_str()) {
                Some(p) => Some((copy_string(&p.path), copy_string(&p.key))),
                None => None,
            },
            _ => None,
        }
    }

    /// The property grid for the selection: a container shows its
    /// children, a leaf its siblings; with the parent's path and key.
    pub fn properties_for_selected(&self) -> (r: (Option<(String, String)>, Vec<PropertyRow>))
        ensures
            ({
                let (pi, rows) = properties_spec(*self);
                &&& match pi {
                    Some((pp, pk)) => (r.0 matches Some((a, b)) && a@ == pp && b@ == pk),
                    None => r.0 is None,
                }
                &&& r.1@.map_values(|x: PropertyRow| x@) == rows
            }),
    {
        let (sel, root) = match (&self.selected_path, &self.root) {
            (Some(sel), Some(root)) => (sel, root),
            _ => {
                let v: Vec<PropertyRow> = Vec::new();
                proof {
                    assert(v@.map_values(|x: PropertyRow| x@) =~= Seq::<(Seq<char>, Seq<char>, Seq<char>, Seq<char>, bool)>::empty());
                }
                return (None, v);
            },
        };
        let node = match find_in(root, sel.as_str()) {
            Some(n) => n,
            None => {
                let v: Vec<PropertyRow> = Vec::new();
                proof {
                    assert(v@.map_values(|x: PropertyRow| x@) =~= Seq::<(Seq<char>, Seq<char>, Seq<char>, Seq<char>, bool)>::empty());
                }
                return (None, v);
            },
        };
        let parent = find_parent(root, sel.as_str());
        let parent_info = match parent {
            Some(p) => Some((copy_string(&p.path), copy_string(&p.key))),
            None => None,
        };
        let container: &Node = if node.is_container() {
            node
        } else {
            match parent {
                Some(p) => p,
                None => {
                    let mut v: Vec<PropertyRow> = Vec::new();
                    v.push(PropertyRow::of_node(node));
                    proof {
                        assert(v@.map_values(|x: PropertyRow| x@) =~= seq![property_row_of(node@)]);
                    }
                    return (None, v);
                },
            }
        };
        if !container.is_container() {
            let mut v: Vec<PropertyRow> = Vec::new();
            v.push(PropertyRow::of_node(container));
            proof {
                assert(v@.map_values(|x: PropertyRow| x@) =~= seq![property_row_of(container@)]);
            }
            return (parent_info, v);
        }
        let mut rows: Vec<PropertyRow> = Vec::new();
        proof {
            lemma_nodes_view(container.children@);
        }
        let mut i: usize = 0;
        while i < container.children.len()
            invariant
                i <= container.children@.len(),
                nodes_view(container.children@).len() == container.children@.len(),
                forall|j: int| 0 <= j < container.children@.len() ==> nodes_view(container.children@)[j]
                    == node_view(#[trigger] container.children@[j]),
                rows@.map_values(|x: PropertyRow| x@) == container@.children.take(i as int).map_values(
                    |c: NodeView| property_row_of(c),
                ),
            decreases container.children@.len() - i,
        {
            let row = PropertyRow::of_node(&container.children[i]);
            let ghost prev = rows@;
            rows.push(row);
            proof {
                assert(container@.children[i as int] == container.children@[i as int]@);
                assert(rows@.map_values(|x: PropertyRow| x@) =~= prev.map_values(|x: PropertyRow| x@).push(
                    row@,
                ));
                assert(container@.children.take(i + 1) =~= container@.children.take(i as int).push(
                    container@.children[i as int],
                ));
                assert(rows@.map_values(|x: PropertyRow| x@) =~= container@.children.take(i + 1).map_values(
                    |c: NodeView| property_row_of(c),
                ));
            }
            i += 1;
        }
        proof {
            assert(container@.children.take(i as int) =~= container@.children);
        }
        (parent_info, rows)
    }

    /// Expands the ancestors of the node at `path` and asks the view to
    /// scroll to it, where there is such a node.
    pub fn ensure_visible(&mut self, path: &str)
        ensures
            revealed(*old(self), *final(self), path@),
            final(self).selected_path == old(self).selected_path,
            same_content(*old(self), *final(self)),
            same_metrics(*old(self), *final(self)),
            same_search(*old(self), *final(self)),
    {
        if let Some((ancestors, true)) = self.find_with_ancestors(path) {
            insert_paths(&mut self.expanded_nodes, &ancestors);
            self.requested_scroll_path = Some(to_owned_string(path));
            self.update_visible_rows();
        }
    }

    /// Selects the parent of the selection and reveals it.
    pub fn navigate_to_parent(&mut self)
        ensures
            match (old(self).selected_path, root_view(*old(self))) {
                (Some(sel), Some(rv)) => match parent_spec(rv, sel@) {
                    Some(p) => {
                        &&& final(self).selected_path is Some
                        &&& final(self).selected_path->0@ == p.path
                        &&& revealed(*old(self), *final(self), p.path)
                    },
                    None => *final(self) == *old(self),
                },
                _ => *final(self) == *old(self),
            },
            same_content(*old(self), *final(self)),
            same_metrics(*old(self), *final(self)),
            same_search(*old(self), *final(self)),
    {
        if let Some((parent_path, _)) = self.parent_of_selected() {
            self.selected_path = Some(copy_string(&parent_path));
            self.ensure_visible(parent_path.as_str());
        }
    }

    /// Selects the node at `path` and reveals it.
    pub fn navigate_to_property(&mut self, path: &str)
        ensures
            final(self).selected_path is Some,
            final(self).selected_path->0@ == path@,
            revealed(*old(self), *final(self), path@),
            same_content(*old(self), *final(self)),
            same_metrics(*old(self), *final(self)),
            same_search(*old(self), *final(self)),
    {
        self.selected_path = Some(to_owned_string(path));
        self.ensure_visible(path);
    }

    /// The status line: the parse error, `Valid JSON`, or `Ready`.
    pub fn status_text(&self) -> (r: String)
        ensures
            r@ == status_spec(*self),
    {
        match &self.parse_error {
            Some(e) => {
                let mut out = to_owned_string("Error: ");
                push_str(&mut out, e.message.as_str());
                push_str(&mut out, " (Line ");
                push_decimal(&mut out, e.line);
                push_str(&mut out, ", Col ");
                push_decimal(&mut out, e.column);
                push_str(&mut out, ")");
                proof {
                    assert(out@ =~= status_spec(*self));
                }
                out
            },
            None => if crate::text::char_count(self.raw_text.as_str()) > 0 {
                to_owned_string("Valid JSON")
            } else {
                to_owned_string("Ready")
            },
        }
    }

    /// `<lines> lines, <characters> characters`.
    pub fn metrics_text(&self) -> (r: String)
        ensures
            r@ == decimal(self.line_count as nat) + " lines, "@ + decimal(self.character_count as nat)
                + " characters"@,
    {
        let mut out = String::new();
        push_decimal(&mut out, self.line_count);
        push_str(&mut out, " lines, ");
        push_decimal(&mut out, self.character_count);
        push_str(&mut out, " characters");
        proof {
            assert(out@ =~= decimal(self.line_count as nat) + " lines, "@ + decimal(
                self.character_count as nat,
            ) + " characters"@);
        }
        out
    }

    /// The status bar of the window: the status, the counts, and, where
    /// the grid was cut at `GRID_CAP` rows, how many there were.
    pub fn window_status_text(&self, grid_truncated: Option<usize>) -> (r: String)
        ensures
            r@ == status_spec(*self) + "    |    "@ + decimal(self.line_count as nat) + " lines, "@
                + decimal(self.character_count as nat) + " characters"@ + match grid_truncated {
                Some(total) => "    |    grid shows first "@ + decimal(GRID_CAP as nat) + " of "@
                    + decimal(total as nat) + " properties"@,
                None => Seq::empty(),
            },
    {
        let mut text = self.status_text();
        push_str(&mut text, "    |    ");
        let m = self.metrics_text();
        push_str(&mut text, m.as_str());
        if let Some(total) = grid_truncated {
            push_str(&mut text, "    |    grid shows first ");
            push_decimal(&mut text, GRID_CAP);
            push_str(&mut text, " of ");
            push_decimal(&mut text, total);
            push_str(&mut text, " properties");
        }
        proof {
            match grid_truncated {
                Some(total) => {
                    assert(text@ =~= status_spec(*self) + "    |    "@ + decimal(self.line_count as nat)
                        + " lines, "@ + decimal(self.character_count as nat) + " characters"@
                        + ("    |    grid shows first "@ + decimal(GRID_CAP as nat) + " of "@
                        + decimal(total as nat) + " properties"@));
                },
                None => {
                    assert(text@ =~= status_spec(*self) + "    |    "@ + decimal(self.line_count as nat)
                        + " lines, "@ + decimal(self.character_count as nat) + " characters"@
                        + Seq::<char>::empty());
                },
            }
        }
        text
    }
}

// ---------------------------------------------------------------------
// Reading the text

/// What a trimmed text reads as: JSON; else a Python literal; else, where
/// stringified JSON is unwrapped and unescaping changes the text, the
/// unescaped text as JSON or as a Python literal. `true` marks a Python
/// literal. The error is that of reading the text as JSON.
pub open spec fn load_spec(t: Seq<char>, unwrap: bool) -> Result<(Json, bool), PErr> {
    match parse_document(t) {
        Ok(v) => Ok((v, false)),
        Err(e) => match python_literal(t) {
            Ok(v) => Ok((v, true)),
            Err(_) => if unwrap && unescaped(t) != t {
                match parse_document(unescaped(t)) {
                    Ok(v) => Ok((v, false)),
                    Err(_) => match python_literal(unescaped(t)) {
                        Ok(v) => Ok((v, true)),
                        Err(_) => Err(e),
                    },
                }
            } else {
                Err(e)
            },
        },
    }
}

/// Whether `t` starts with `{` and ends with `}`, or starts with `[` and
/// ends with `]`.
pub open spec fn bracketed(t: Seq<char>) -> bool {
    t.len() > 0 && ((t[0] == '{' && t.last() == '}') || (t[0] == '[' && t.last() == ']'))
}

/// A string value holding a bracketed JSON document is replaced by that
/// document, where stringified JSON is unwrapped.
pub open spec fn unwrap_spec(v: Json, unwrap: bool) -> Json {
    match v {
        Json::Str(inner) => if unwrap && bracketed(trim_seq(inner)) {
            match parse_document(trim_seq(inner)) {
                Ok(u) => u,
                Err(_) => v,
            }
        } else {
            v
        },
        _ => v,
    }
}

/// Pretty printed with the indentation and key order of the settings.
pub open spec fn settings_format(v: Json, s: Settings, esc: bool) -> Seq<char> {
    format_json(v, 0, s.indent_spaces, s.sort_keys_alphabetically, esc)
}

/// The character and line counts of a text.
pub open spec fn metrics_for(t: Seq<char>) -> (nat, nat) {
    (capped(utf16_len(t)), capped(1 + newline_count(t)))
}

pub open spec fn metrics_of(m: DocumentModel) -> (nat, nat) {
    (m.character_count as nat, m.line_count as nat)
}

pub open spec fn empty_text_message() -> Seq<char> {
    "JSON error: Please enter JSON code in the Text tab first."@
}

pub open spec fn invalid_json_message(e: PErr) -> Seq<char> {
    "JSON error: Invalid JSON variable\n\n"@ + e.0 + " at line "@ + decimal(e.1) + ", col "@
        + decimal(e.2)
}

/// `b` is `a` after the text `text` (with counts `m0`) was read: on
/// success the value (with a string holding JSON unwrapped), a fresh tree
/// with only its root expanded and selected, and, for a Python literal,
/// the text replaced by its JSON form; on failure the error. `silent`
/// keeps the error message as it was.
pub open spec fn rebuild(
    text: Seq<char>,
    m0: (nat, nat),
    a: DocumentModel,
    b: DocumentModel,
    silent: bool,
    s: Settings,
) -> bool {
    let t = trim_seq(text);
    &&& same_search(a, b)
    &&& b.active_tab == a.active_tab
    &&& if t.len() == 0 {
        &&& b.raw_text@ == text
        &&& metrics_of(b) == m0
        &&& b.error_message@ == if silent {
            a.error_message@
        } else {
            empty_text_message()
        }
        &&& b.json_value == a.json_value
        &&& b.root == a.root
        &&& b.parse_error == a.parse_error
        &&& b.is_dirty == a.is_dirty
        &&& same_selection(a, b)
        &&& same_expansion(a, b)
        &&& same_rows(a, b)
    } else {
        match load_spec(t, s.auto_unwrap_stringified) {
            Err(e) => {
                &&& b.raw_text@ == text
                &&& metrics_of(b) == m0
                &&& b.parse_error matches Some(pe) && pe@ == e
                &&& b.error_message@ == if silent {
                    a.error_message@
                } else {
                    invalid_json_message(e)
                }
                &&& b.json_value == a.json_value
                &&& b.root == a.root
                &&& b.is_dirty == a.is_dirty
                &&& same_selection(a, b)
                &&& same_expansion(a, b)
                &&& same_rows(a, b)
            },
            Ok((v, py)) => {
                let w = unwrap_spec(v, s.auto_unwrap_stringified);
                &&& b.raw_text@ == if py {
                    settings_format(v, s, s.escape_slashes_in_stringify)
                } else {
                    text
                }
                &&& metrics_of(b) == if py {
                    metrics_for(b.raw_text@)
                } else {
                    m0
                }
                &&& b.json_value matches Some(jv) && jv@ == w
                &&& b.root matches Some(r) && r@ == tree_of("JSON"@, w, "$"@)
                &&& b.selected_path matches Some(p) && p@ == "$"@
                &&& b.parse_error is None
                &&& !b.is_dirty
                &&& b.error_message == a.error_message
                &&& b.expanded_nodes@ == set!["$"@]
                &&& b.expanded_leaf_nodes == a.expanded_leaf_nodes
                &&& b.requested_scroll_path == a.requested_scroll_path
                &&& refreshed(a, b)
            },
        }
    }
}

fn is_bracketed(t: &str) -> (r: bool)
    ensures
        r == bracketed(t@),
{
    let v = chars_of(t);
    if v.len() == 0 {
        return false;
    }
    let first = v[0];
    let last = v[v.len() - 1];
    (first == '{' && last == '}') || (first == '[' && last == ']')
}

fn is_blank(s: &str) -> (r: bool)
    ensures
        r == (trim_seq(s@).len() == 0),
{
    let t = trim_string(s);
    char_count(t.as_str()) == 0
}

/// `format!("JSON error: Invalid JSON variable\n\n{} at line {}, col {}", ..)`.
fn invalid_json_text(e: &JSONParseError) -> (r: String)
    ensures
        r@ == invalid_json_message(e@),
{
    let mut out = to_owned_string("JSON error: Invalid JSON variable\n\n");
    push_str(&mut out, e.message.as_str());
    push_str(&mut out, " at line ");
    push_decimal(&mut out, e.line);
    push_str(&mut out, ", col ");
    push_decimal(&mut out, e.column);
    proof {
        assert(out@ =~= invalid_json_message(e@));
    }
    out
}

/// The value of a trimmed text, with the JSON form of a Python literal.
fn load_value(trimmed: &str, settings: &Settings) -> (r: (Result<JSONValue, JSONParseError>, Option<String>))
    ensures
        match load_spec(trimmed@, settings.auto_unwrap_stringified) {
            Ok((v, py)) => {
                &&& r.0 matches Ok(x) && x@ == v
                &&& py ==> (r.1 matches Some(c) && c@ == settings_format(
                    v,
                    *settings,
                    settings.escape_slashes_in_stringify,
                ))
                &&& !py ==> r.1 is None
            },
            Err(e) => r.0 matches Err(x) && x@ == e && r.1 is None,
        },
{
    match JSONParser::parse(trimmed) {
        Ok(v) => (Ok(v), None),
        Err(initial) => match parse_python_literal(trimmed) {
            Ok(py) => {
                let c = py.format(
                    settings.indent_spaces,
                    settings.sort_keys_alphabetically,
                    settings.escape_slashes_in_stringify,
                );
                (Ok(py), Some(c))
            },
            Err(_) => {
                if settings.auto_unwrap_stringified {
                    let u = unescape_stringified_json(trimmed);
                    if !seq_eq(u.as_str(), trimmed) {
                        match JSONParser::parse(u.as_str()) {
                            Ok(fb) => (Ok(fb), None),
                            Err(_) => match parse_python_literal(u.as_str()) {
                                Ok(fb_py) => {
                                    let c = fb_py.format(
                                        settings.indent_spaces,
                                        settings.sort_keys_alphabetically,
                                        settings.escape_slashes_in_stringify,
                                    );
                                    (Ok(fb_py), Some(c))
                                },
                                Err(_) => (Err(initial), None),
                            },
                        }
                    } else {
                        (Err(initial), None)
                    }
                } else {
                    (Err(initial), None)
                }
            },
        },
    }
}

impl DocumentModel {
    /// Reads the text: as JSON, else as a Python literal (whose JSON form
    /// then replaces the text), else, where stringified JSON is unwrapped,
    /// after unescaping; builds the tree, selects and expands its root.
    /// On failure records the error (and, unless `silent`, a message).
    pub fn parse_and_build_tree(&mut self, silent: bool, settings: &Settings) -> (ok: bool)
        ensures
            ok == (trim_seq(old(self).raw_text@).len() > 0 && load_spec(
                trim_seq(old(self).raw_text@),
                settings.auto_unwrap_stringified,
            ) is Ok),
            rebuild(
                old(self).raw_text@,
                metrics_of(*old(self)),
                *old(self),
                *final(self),
                silent,
                *settings,
            ),
    {
        let trimmed = trim_string(self.raw_text.as_str());
        if char_count(trimmed.as_str()) == 0 {
            if !silent {
                self.error_message = to_owned_string(
                    "JSON error: Please enter JSON code in the Text tab first.",
                );
            }
            return false;
        }
        let (parsed, converted) = load_value(trimmed.as_str(), settings);
        let ghost text = old(self).raw_text@;
        if let Some(c) = converted {
            self.raw_text = c;
            self.update_metrics();
        }
        let mut parsed = match parsed {
            Ok(v) => v,
            Err(e) => {
                if !silent {
                    self.error_message = invalid_json_text(&e);
                }
                self.parse_error = Some(e);
                return false;
            },
        };
        if settings.auto_unwrap_stringified {
            let inner_parsed = match &parsed {
                JSONValue::Str(inner) => {
                    let t = trim_string(inner.as_str());
                    if is_bracketed(t.as_str()) {
                        match JSONParser::parse(t.as_str()) {
                            Ok(u) => Some(u),
                            Err(_) => None,
                        }
                    } else {
                        None
                    }
                },
                _ => None,
            };
            if let Some(u) = inner_parsed {
                parsed = u;
            }
        }
        let root = Node::build_tree(&parsed, "JSON");
        let root_path = copy_string(&root.path);
        self.selected_path = Some(copy_string(&root_path));
        self.json_value = Some(parsed);
        self.root = Some(root);
        self.parse_error = None;
        self.is_dirty = false;
        self.expanded_nodes.clear();
        self.expanded_nodes.insert(root_path);
        proof {
            assert(self.expanded_nodes@ =~= set!["$"@]);
        }
        self.update_visible_rows();
        true
    }
}

// ---------------------------------------------------------------------
// Transformations

/// Nothing observable changed from `a` to `b`.
pub open spec fn unchanged(a: DocumentModel, b: DocumentModel) -> bool {
    &&& same_content(a, b)
    &&& same_metrics(a, b)
    &&& same_search(a, b)
    &&& same_selection(a, b)
    &&& same_expansion(a, b)
    &&& same_rows(a, b)
}

/// The value a transformation starts from: the text as JSON, else as a
/// Python literal; else the JSON error, as a message.
pub open spec fn transform_spec(t: Seq<char>) -> Result<Json, Seq<char>> {
    match parse_document(t) {
        Ok(v) => Ok(v),
        Err(e) => match python_literal(t) {
            Ok(v) => Ok(v),
            Err(_) => Err(
                "Invalid JSON or Python Object ("@ + e.0 + " at line "@ + decimal(e.1) + ", col "@
                    + decimal(e.2) + ")"@,
            ),
        },
    }
}

/// A string value read as JSON, else as a Python literal, where stringified
/// JSON is unwrapped.
pub open spec fn beautify_unwrap(v: Json, unwrap: bool) -> Json {
    match v {
        Json::Str(s) => if unwrap {
            match parse_document(trim_seq(s)) {
                Ok(u) => u,
                Err(_) => match python_literal(trim_seq(s)) {
                    Ok(u) => u,
                    Err(_) => v,
                },
            }
        } else {
            v
        },
        _ => v,
    }
}

/// The Python indentation for the settings: four spaces for tabs.
pub open spec fn python_indent(s: Settings) -> nat {
    if s.indent_spaces < 0 {
        4
    } else {
        s.indent_spaces as nat
    }
}

/// The value the copy commands use: the current value, else the text read
/// as JSON or as a Python literal.
pub open spec fn current_spec(m: DocumentModel) -> Option<Json> {
    match m.json_value {
        Some(v) => Some(v@),
        None => {
            let t = trim_seq(m.raw_text@);
            if t.len() == 0 {
                None
            } else {
                match parse_document(t) {
                    Ok(v) => Some(v),
                    Err(_) => match python_literal(t) {
                        Ok(v) => Some(v),
                        Err(_) => None,
                    },
                }
            }
        },
    }
}

fn parse_error_detail(prefix: &str, e: &JSONParseError) -> (r: String)
    ensures
        r@ == prefix@ + e.message@ + " at line "@ + decimal(e.line as nat) + ", col "@ + decimal(
            e.column as nat,
        ) + ")"@,
{
    let mut out = to_owned_string(prefix);
    push_str(&mut out, e.message.as_str());
    push_str(&mut out, " at line ");
    push_decimal(&mut out, e.line);
    push_str(&mut out, ", col ");
    push_decimal(&mut out, e.column);
    push_str(&mut out, ")");
    proof {
        assert(out@ =~= prefix@ + e.message@ + " at line "@ + decimal(e.line as nat) + ", col "@
            + decimal(e.column as nat) + ")"@);
    }
    out
}

fn python_indent_exec(settings: &Settings) -> (r: usize)
    ensures
        r == python_indent(*settings),
{
    if settings.indent_spaces < 0 {
        4
    } else {
        settings.indent_spaces as usize
    }
}

impl DocumentModel {
    /// The value a transformation starts from.
    fn parse_for_transform(&self) -> (r: Result<JSONValue, String>)
        ensures
            match transform_spec(trim_seq(self.raw_text@)) {
                Ok(v) => r matches Ok(x) && x@ == v,
                Err(msg) => r matches Err(x) && x@ == msg,
            },
    {
        let trimmed = trim_string(self.raw_text.as_str());
        match JSONParser::parse(trimmed.as_str()) {
            Ok(v) => Ok(v),
            Err(e) => match parse_python_literal(trimmed.as_str()) {
                Ok(v) => Ok(v),
                Err(_) => Err(parse_error_detail("Invalid JSON or Python Object (", &e)),
            },
        }
    }

    /// Sets the text and re-reads it quietly.
    fn replace_text(&mut self, text: String, settings: &Settings)
        ensures
            rebuild(text@, metrics_for(text@), *old(self), *final(self), true, *settings),
    {
        self.raw_text = text;
        self.update_metrics();
        let _ = self.parse_and_build_tree(true, settings);
    }

    /// Pretty prints the document (a string holding JSON or a Python
    /// literal is unwrapped first, where the settings ask for it).
    pub fn beautify(&mut self, settings: &Settings) -> (r: Result<(), String>)
        ensures
            beautified(*old(self), *final(self), *settings, r),
    {
        if is_blank(self.raw_text.as_str()) {
            return Ok(());
        }
        let mut val = match self.parse_for_transform() {
            Ok(v) => v,
            Err(e) => return Err(e),
        };
        if settings.auto_unwrap_stringified {
            let replaced = match &val {
                JSONValue::Str(s) => {
                    let t = trim_string(s.as_str());
                    match JSONParser::parse(t.as_str()) {
                        Ok(u) => Some(u),
                        Err(_) => match parse_python_literal(t.as_str()) {
                            Ok(u) => Some(u),
                            Err(_) => None,
                        },
                    }
                },
                _ => None,
            };
            if let Some(u) = replaced {
                val = u;
            }
        }
        let text = val.format(
            settings.indent_spaces,
            settings.sort_keys_alphabetically,
            settings.escape_slashes_in_stringify,
        );
        self.replace_text(text, settings);
        Ok(())
    }

    /// Writes the document as compact JSON; the text must be JSON.
    pub fn minify(&mut self, settings: &Settings) -> (r: Result<(), String>)
        ensures
            minified(*old(self), *final(self), *settings, r),
    {
        if is_blank(self.raw_text.as_str()) {
            return Ok(());
        }
        let trimmed = trim_string(self.raw_text.as_str());
        match JSONParser::parse(trimmed.as_str()) {
            Ok(val) => {
                let text = val.minify(settings.escape_slashes_in_stringify);
                self.replace_text(text, settings);
                Ok(())
            },
            Err(e) => Err(parse_error_detail("Invalid JSON (", &e)),
        }
    }

    /// Replaces the text by one JSON string: the compact form of the
    /// document where it is JSON, else the text itself, quoted.
    pub fn stringify(&mut self, settings: &Settings)
        ensures
            stringified(*old(self), *final(self), *settings),
    {
        let trimmed = trim_string(self.raw_text.as_str());
        if char_count(trimmed.as_str()) == 0 {
            return;
        }
        let text = match JSONParser::parse(trimmed.as_str()) {
            Ok(val) => val.stringify(settings.escape_slashes_in_stringify),
            Err(_) => quote_and_escape_string(
                self.raw_text.as_str(),
                settings.escape_slashes_in_stringify,
            ),
        };
        self.replace_text(text, settings);
    }

    /// Replaces the text by its unescaped form and re-reads it.
    pub fn unescape(&mut self, settings: &Settings)
        ensures
            unescaped_doc(*old(self), *final(self), *settings),
    {
        let text = unescape_stringified_json(self.raw_text.as_str());
        self.replace_text(text, settings);
    }

    /// Replaces the text by the document written as a Python literal.
    pub fn json_to_python(&mut self, settings: &Settings) -> (r: Result<(), String>)
        ensures
            pythonized(*old(self), *final(self), *settings, r),
    {
        if is_blank(self.raw_text.as_str()) {
            return Ok(());
        }
        let val = match self.parse_for_transform() {
            Ok(v) => v,
            Err(e) => return Err(e),
        };
        let indent = python_indent_exec(settings);
        self.raw_text = val.to_python_object(indent);
        self.update_metrics();
        Ok(())
    }

    /// Replaces a Python literal by its JSON form and re-reads it.
    pub fn python_to_json(&mut self, settings: &Settings) -> (r: Result<(), String>)
        ensures
            from_python(*old(self), *final(self), *settings, r),
    {
        if is_blank(self.raw_text.as_str()) {
            return Ok(());
        }
        let trimmed = trim_string(self.raw_text.as_str());
        match parse_python_literal(trimmed.as_str()) {
            Ok(val) => {
                let text = val.format(settings.indent_spaces, settings.sort_keys_alphabetically, false);
                self.replace_text(text, settings);
                Ok(())
            },
            Err(e) => {
                let mut msg = to_owned_string("Invalid Python dictionary syntax (");
                let d = e.describe();
                push_str(&mut msg, d.as_str());
                push_str(&mut msg, ")");
                Err(msg)
            },
        }
    }

    /// The value the copy commands use.
    fn current_value(&self) -> (r: Option<JSONValue>)
        ensures
            match current_spec(*self) {
                Some(v) => r matches Some(x) && x@ == v,
                None => r is None,
            },
    {
        if let Some(v) = &self.json_value {
            return Some(v.deep_clone());
        }
        let t = trim_string(self.raw_text.as_str());
        if char_count(t.as_str()) == 0 {
            return None;
        }
        match JSONParser::parse(t.as_str()) {
            Ok(v) => Some(v),
            Err(_) => match parse_python_literal(t.as_str()) {
                Ok(v) => Some(v),
                Err(_) => None,
            },
        }
    }

    pub fn copy_text(&self) -> (r: String)
        ensures
            r@ == self.raw_text@,
    {
        copy_string(&self.raw_text)
    }

    /// The document pretty printed, or the text where it cannot be read.
    pub fn copy_beautified(&self, settings: &Settings) -> (r: String)
        ensures
            r@ == match current_spec(*self) {
                Some(v) => settings_format(v, *settings, false),
                None => self.raw_text@,
            },
    {
        match self.current_value() {
            Some(v) => v.format(settings.indent_spaces, settings.sort_keys_alphabetically, false),
            None => copy_string(&self.raw_text),
        }
    }

    /// The document as compact JSON, or the text where it cannot be read.
    pub fn copy_minified(&self) -> (r: String)
        ensures
            r@ == match current_spec(*self) {
                Some(v) => minify_json(v, false),
                None => self.raw_text@,
            },
    {
        match self.current_value() {
            Some(v) => v.minify(false),
            None => copy_string(&self.raw_text),
        }
    }

    /// The document as one JSON string, or the text quoted.
    pub fn copy_stringified(&self, settings: &Settings) -> (r: String)
        ensures
            r@ == match current_spec(*self) {
                Some(v) => quoted(minify_json(v, false), settings.escape_slashes_in_stringify),
                None => quoted(self.raw_text@, settings.escape_slashes_in_stringify),
            },
    {
        match self.current_value() {
            Some(v) => v.stringify(settings.escape_slashes_in_stringify),
            None => quote_and_escape_string(
                self.raw_text.as_str(),
                settings.escape_slashes_in_stringify,
            ),
        }
    }

    /// The document as a Python literal, or the text.
    pub fn copy_python(&self, settings: &Settings) -> (r: String)
        ensures
            r@ == match current_spec(*self) {
                Some(v) => python_json(v, 0, python_indent(*settings)),
                None => self.raw_text@,
            },
    {
        match self.current_value() {
            Some(v) => v.to_python_object(python_indent_exec(settings)),
            None => copy_string(&self.raw_text),
        }
    }
}

/// The text a copy command of kind `kind` takes from the document:
/// beautified, minified, stringified, as Python, or the raw text.
pub open spec fn copy_kind_text(m: DocumentModel, kind: Seq<char>, s: Settings) -> Seq<char> {
    if kind == "beautified"@ {
        match current_spec(m) {
            Some(v) => settings_format(v, s, false),
            None => m.raw_text@,
        }
    } else if kind == "minified"@ {
        match current_spec(m) {
            Some(v) => minify_json(v, false),
            None => m.raw_text@,
        }
    } else if kind == "stringified"@ {
        match current_spec(m) {
            Some(v) => quoted(minify_json(v, false), s.escape_slashes_in_stringify),
            None => quoted(m.raw_text@, s.escape_slashes_in_stringify),
        }
    } else if kind == "python"@ {
        match current_spec(m) {
            Some(v) => python_json(v, 0, python_indent(s)),
            None => m.raw_text@,
        }
    } else {
        m.raw_text@
    }
}

/// The status a copy command of kind `kind` reports.
pub open spec fn copy_kind_label(kind: Seq<char>) -> Seq<char> {
    if kind == "beautified"@ {
        "Copied Beautified JSON!"@
    } else if kind == "minified"@ {
        "Copied Minified JSON!"@
    } else if kind == "stringified"@ {
        "Copied Stringified JSON!"@
    } else if kind == "python"@ {
        "Copied Python Dictionary!"@
    } else {
        "Copied Text!"@
    }
}

/// What a node's context-menu copy of kind `kind` takes: its key, its
/// path, its value pretty printed as JSON or as Python, or its value as
/// shown in full.
pub open spec fn node_copy_text(n: NodeView, kind: Seq<char>, s: Settings) -> Seq<char> {
    if kind == "key"@ {
        n.key
    } else if kind == "path"@ {
        n.path
    } else if kind == "subtree"@ {
        settings_format(n.value, s, false)
    } else if kind == "python"@ {
        python_json(n.value, 0, python_indent(s))
    } else {
        formatted_value_of(n)
    }
}

/// The status a node's context-menu copy of kind `kind` reports.
pub open spec fn node_copy_label(kind: Seq<char>) -> Seq<char> {
    if kind == "key"@ {
        "Copied Key!"@
    } else if kind == "path"@ {
        "Copied JSON Path!"@
    } else if kind == "subtree"@ {
        "Copied Subtree as JSON!"@
    } else if kind == "python"@ {
        "Copied Python Dictionary!"@
    } else {
        "Copied Value!"@
    }
}

impl DocumentModel {
    /// The text for the copy command `kind` and the status it reports.
    pub fn copy_for(&self, kind: &str, settings: &Settings) -> (r: (String, &'static str))
        ensures
            r.0@ == copy_kind_text(*self, kind@, *settings),
            r.1@ == copy_kind_label(kind@),
    {
        if seq_eq(kind, "beautified") {
            (self.copy_beautified(settings), "Copied Beautified JSON!")
        } else if seq_eq(kind, "minified") {
            (self.copy_minified(), "Copied Minified JSON!")
        } else if seq_eq(kind, "stringified") {
            (self.copy_stringified(settings), "Copied Stringified JSON!")
        } else if seq_eq(kind, "python") {
            (self.copy_python(settings), "Copied Python Dictionary!")
        } else {
            (self.copy_text(), "Copied Text!")
        }
    }

    /// The text a context-menu copy of kind `kind` takes from the node at
    /// `path`, and the status it reports; nothing where there is no such
    /// node.
    pub fn node_copy(&self, path: &str, kind: &str, settings: &Settings) -> (r: Option<(String, &'static str)>)
        ensures
            match root_view(*self) {
                Some(rv) => match find_spec(rv, path@) {
                    Some(n) => (r matches Some((t, l)) && t@ == node_copy_text(n, kind@, *settings)
                        && l@ == node_copy_label(kind@)),
                    None => r is None,
                },
                None => r is None,
            },
    {
        let node = match self.find_node(path) {
            Some(n) => n,
            None => return None,
        };
        if seq_eq(kind, "key") {
            Some((copy_string(&node.key), "Copied Key!"))
        } else if seq_eq(kind, "path") {
            Some((copy_string(&node.path), "Copied JSON Path!"))
        } else if seq_eq(kind, "subtree") {
            Some(
                (
                    node.value.format(
                        settings.indent_spaces,
                        settings.sort_keys_alphabetically,
                        false,
                    ),
                    "Copied Subtree as JSON!",
                ),
            )
        } else if seq_eq(kind, "python") {
            Some((node.value.to_python_object(python_indent_exec(settings)), "Copied Python Dictionary!"))
        } else {
            Some((node.formatted_value_string(), "Copied Value!"))
        }
    }
}

/// Reads the text and writes it back pretty printed, unwrapping stringified
/// JSON where the settings ask for it; an error message where it cannot.
pub open spec fn beautified(a: DocumentModel, b: DocumentModel, s: Settings, r: Result<(), String>) -> bool {
    &&& (trim_seq(a.raw_text@).len() == 0 ==> r is Ok && unchanged(a, b))
    &&& (trim_seq(a.raw_text@).len() > 0 ==> match transform_spec(trim_seq(a.raw_text@)) {
        Err(msg) => (r matches Err(x) && x@ == msg) && unchanged(a, b),
        Ok(v) => {
            let t = settings_format(
                beautify_unwrap(v, s.auto_unwrap_stringified),
                s,
                s.escape_slashes_in_stringify,
            );
            r is Ok && rebuild(t, metrics_for(t), a, b, true, s)
        },
    })
}

/// Reads the text as JSON and writes it back compact; an error message
/// where it is no JSON.
pub open spec fn minified(a: DocumentModel, b: DocumentModel, s: Settings, r: Result<(), String>) -> bool {
    &&& (trim_seq(a.raw_text@).len() == 0 ==> r is Ok && unchanged(a, b))
    &&& (trim_seq(a.raw_text@).len() > 0 ==> match parse_document(trim_seq(a.raw_text@)) {
        Err(e) => (r matches Err(x) && x@ == "Invalid JSON ("@ + e.0 + " at line "@ + decimal(e.1)
            + ", col "@ + decimal(e.2) + ")"@) && unchanged(a, b),
        Ok(v) => {
            let t = minify_json(v, s.escape_slashes_in_stringify);
            r is Ok && rebuild(t, metrics_for(t), a, b, true, s)
        },
    })
}

/// Replaces the text by a JSON string literal holding it (compact where it
/// is JSON).
pub open spec fn stringified(a: DocumentModel, b: DocumentModel, s: Settings) -> bool {
    &&& (trim_seq(a.raw_text@).len() == 0 ==> unchanged(a, b))
    &&& (trim_seq(a.raw_text@).len() > 0 ==> {
        let t = match parse_document(trim_seq(a.raw_text@)) {
            Ok(v) => quoted(minify_json(v, false), s.escape_slashes_in_stringify),
            Err(_) => quoted(a.raw_text@, s.escape_slashes_in_stringify),
        };
        rebuild(t, metrics_for(t), a, b, true, s)
    })
}

/// Replaces the text by its stringified payload, unescaped.
pub open spec fn unescaped_doc(a: DocumentModel, b: DocumentModel, s: Settings) -> bool {
    rebuild(unescaped(a.raw_text@), metrics_for(unescaped(a.raw_text@)), a, b, true, s)
}

/// Replaces the text by the value written as a Python literal; an error
/// message where it cannot be read.
pub open spec fn pythonized(a: DocumentModel, b: DocumentModel, s: Settings, r: Result<(), String>) -> bool {
    &&& (trim_seq(a.raw_text@).len() == 0 ==> r is Ok && unchanged(a, b))
    &&& (trim_seq(a.raw_text@).len() > 0 ==> match transform_spec(trim_seq(a.raw_text@)) {
        Err(msg) => (r matches Err(x) && x@ == msg) && unchanged(a, b),
        Ok(v) => {
            &&& r is Ok
            &&& b.raw_text@ == python_json(v, 0, python_indent(s))
            &&& metrics_of(b) == metrics_for(b.raw_text@)
            &&& b.json_value == a.json_value
            &&& b.root == a.root
            &&& b.parse_error == a.parse_error
            &&& b.error_message == a.error_message
            &&& b.is_dirty == a.is_dirty
            &&& b.active_tab == a.active_tab
            &&& same_search(a, b)
            &&& same_selection(a, b)
            &&& same_expansion(a, b)
            &&& same_rows(a, b)
        },
    })
}

/// Reads the text as a Python literal and writes it back as JSON; an error
/// message where it is no Python literal.
pub open spec fn from_python(a: DocumentModel, b: DocumentModel, s: Settings, r: Result<(), String>) -> bool {
    &&& (trim_seq(a.raw_text@).len() == 0 ==> r is Ok && unchanged(a, b))
    &&& (trim_seq(a.raw_text@).len() > 0 ==> match python_literal(trim_seq(a.raw_text@)) {
        Err(e) => (r matches Err(x) && x@ == "Invalid Python dictionary syntax ("@ + error_text(e)
            + ")"@) && unchanged(a, b),
        Ok(v) => {
            let t = settings_format(v, s, false);
            r is Ok && rebuild(t, metrics_for(t), a, b, true, s)
        },
    })
}

/// What pasting `text` into an editor inserts: where the text (trimmed)
/// is no JSON but a Python literal, its value pretty printed as JSON;
/// else the text itself. `true` with a conversion.
pub open spec fn editor_paste_spec(text: Seq<char>, s: Settings) -> (Seq<char>, bool) {
    let t = trim_seq(text);
    if parse_document(t) is Err && python_literal(t) is Ok {
        (settings_format(python_literal(t)->Ok_0, s, s.escape_slashes_in_stringify), true)
    } else {
        (text, false)
    }
}

/// What pasting `text` into an editor inserts, and whether it was
/// converted from a Python literal.
pub fn editor_paste_text(text: &str, settings: &Settings) -> (r: (String, bool))
    ensures
        r.0@ == editor_paste_spec(text@, *settings).0,
        r.1 == editor_paste_spec(text@, *settings).1,
{
    let trimmed = trim_string(text);
    let json = JSONParser::parse(trimmed.as_str());
    if json.is_err() {
        match parse_python_literal(trimmed.as_str()) {
            Ok(v) => {
                let out = v.format(
                    settings.indent_spaces,
                    settings.sort_keys_alphabetically,
                    settings.escape_slashes_in_stringify,
                );
                return (out, true);
            },
            Err(_) => {},
        }
    }
    (to_owned_string(text), false)
}

/// The lines `name: value` of the grid rows at the selected indices (those
/// within the rows), in the order selected.
pub open spec fn grid_lines(
    rows: Seq<(Seq<char>, Seq<char>, Seq<char>, Seq<char>, bool)>,
    sel: Seq<usize>,
) -> Seq<Seq<char>>
    decreases sel.len(),
{
    if sel.len() == 0 {
        Seq::empty()
    } else {
        let rest = grid_lines(rows, sel.drop_last());
        let i = sel.last() as int;
        if i < rows.len() {
            rest.push(rows[i].0 + ": "@ + rows[i].1)
        } else {
            rest
        }
    }
}

/// The lines joined with `\r\n` between them.
pub open spec fn crlf_joined(lines: Seq<Seq<char>>) -> Seq<char>
    decreases lines.len(),
{
    if lines.len() == 0 {
        Seq::empty()
    } else if lines.len() == 1 {
        lines[0]
    } else {
        crlf_joined(lines.drop_last()) + "\r\n"@ + lines.last()
    }
}

/// The text copying selected grid rows gives: `name: value` per row, one
/// per line; nothing where no selected index is a row.
pub fn copy_grid_rows(rows: &Vec<PropertyRow>, selected: &Vec<usize>) -> (r: Option<String>)
    ensures
        ({
            let lines = grid_lines(rows@.map_values(|x: PropertyRow| x@), selected@);
            &&& lines.len() == 0 ==> r is None
            &&& lines.len() > 0 ==> (r matches Some(t) && t@ == crlf_joined(lines))
        }),
{
    let ghost rv = rows@.map_values(|x: PropertyRow| x@);
    let mut out = String::new();
    let mut count: usize = 0;
    let mut k: usize = 0;
    while k < selected.len()
        invariant
            k <= selected@.len(),
            rv == rows@.map_values(|x: PropertyRow| x@),
            count == grid_lines(rv, selected@.take(k as int)).len(),
            out@ == crlf_joined(grid_lines(rv, selected@.take(k as int))),
            count <= k,
        decreases selected@.len() - k,
    {
        let i = selected[k];
        proof {
            assert(selected@.take(k + 1).drop_last() =~= selected@.take(k as int));
            assert(selected@.take(k + 1).last() == i);
        }
        if i < rows.len() {
            let ghost before = out@;
            if count > 0 {
                push_str(&mut out, "\r\n");
            }
            push_str(&mut out, rows[i].name.as_str());
            push_str(&mut out, ": ");
            push_str(&mut out, rows[i].value.as_str());
            proof {
                let lines = grid_lines(rv, selected@.take(k + 1));
                assert(lines == grid_lines(rv, selected@.take(k as int)).push(
                    rv[i as int].0 + ": "@ + rv[i as int].1,
                ));
                if count > 0 {
                    assert(lines.drop_last() =~= grid_lines(rv, selected@.take(k as int)));
                    assert(out@ =~= crlf_joined(lines));
                } else {
                    assert(out@ =~= crlf_joined(lines));
                }
            }
            count = count + 1;
        }
        k = k + 1;
    }
    proof {
        assert(selected@.take(k as int) =~= selected@);
    }
    if count == 0 {
        None
    } else {
        Some(out)
    }
}

// ---------------------------------------------------------------------
// Pasting, loading, clearing

/// Pasting `text`: a Python literal that is not JSON is read and replaced
/// by its JSON form, JSON with a line longer than 8000 characters is pretty
/// printed, anything else is kept; `r` tells which.
pub open spec fn pasted(a: DocumentModel, b: DocumentModel, text: Seq<char>, s: Settings, r: Seq<char>) -> bool {
    let t = trim_seq(text);
    match parse_document(t) {
        Err(_) => match python_literal(t) {
            Ok(py) => {
                let c = settings_format(py, s, false);
                r == "converted-python"@ && rebuild(
                    c,
                    metrics_for(c),
                    a,
                    b,
                    true,
                    s,
                )
            },
            Err(_) => r == "pasted"@ && rebuild(
                text,
                metrics_for(text),
                a,
                b,
                true,
                s,
            ),
        },
        Ok(v) => {
            let c = if has_long_line(t, 8000) {
                settings_format(v, s, s.escape_slashes_in_stringify)
            } else {
                text
            };
            r == "pasted"@ && rebuild(c, metrics_for(c), a, b, true, s)
        },
    }
}

/// Opening a file that holds `text`: JSON with a line longer than 8000
/// characters is shown pretty printed, anything else as it is.
pub open spec fn loaded_text(a: DocumentModel, b: DocumentModel, text: Seq<char>, s: Settings) -> bool {
    let shown = if has_long_line(text, 8000) {
        match parse_document(trim_seq(text)) {
            Ok(v) => {
                let p = settings_format(v, s, s.escape_slashes_in_stringify);
                if p.len() > 0 {
                    p
                } else {
                    text
                }
            },
            Err(_) => text,
        }
    } else {
        text
    };
    rebuild(shown, metrics_for(shown), a, b, true, s)
}


/// `b` is `a` with the search forgotten and the rows rebuilt.
pub open spec fn search_cleared(a: DocumentModel, b: DocumentModel) -> bool {
    &&& b.search_query@.len() == 0
    &&& b.search_results@.len() == 0
    &&& b.search_result_ids@ == Set::<Seq<char>>::empty()
    &&& b.search_status@.len() == 0
    &&& b.last_executed_query@.len() == 0
    &&& b.current_search_index == 0
    &&& same_content(a, b)
    &&& same_metrics(a, b)
    &&& same_selection(a, b)
    &&& same_expansion(a, b)
    &&& refreshed(a, b)
}

impl DocumentModel {
    /// Takes pasted text: a Python literal (that is not JSON) is replaced
    /// by its JSON form, JSON with a line longer than 8000 characters is
    /// pretty printed, anything else is kept as pasted; then it is read.
    pub fn paste(&mut self, text: &str, settings: &Settings) -> (r: &'static str)
        ensures
            pasted(*old(self), *final(self), text@, *settings, r@),
    {
        let trimmed = trim_string(text);
        match JSONParser::parse(trimmed.as_str()) {
            Err(_) => {
                if let Ok(py) = parse_python_literal(trimmed.as_str()) {
                    let c = py.format(settings.indent_spaces, settings.sort_keys_alphabetically, false);
                    self.replace_text(c, settings);
                    return "converted-python";
                }
            },
            Ok(v) => {
                if has_huge_line(trimmed.as_str(), 8000) {
                    let c = v.format(
                        settings.indent_spaces,
                        settings.sort_keys_alphabetically,
                        settings.escape_slashes_in_stringify,
                    );
                    self.replace_text(c, settings);
                    return "pasted";
                }
            },
        }
        self.replace_text(to_owned_string(text), settings);
        "pasted"
    }

    /// Records that the text was written to a file.
    pub fn mark_saved(&mut self)
        ensures
            *final(self) == (DocumentModel { is_dirty: false, ..*old(self) }),
    {
        self.is_dirty = false;
    }

    /// Takes the text of an opened file: JSON with a line longer than 8000
    /// characters is pretty printed first; then it is read.
    pub fn load_text(&mut self, text: String, settings: &Settings)
        ensures
            loaded_text(*old(self), *final(self), text@, *settings),
    {
        let mut shown = text;
        if has_huge_line(shown.as_str(), 8000) {
            let trimmed = trim_string(shown.as_str());
            if let Ok(v) = JSONParser::parse(trimmed.as_str()) {
                let pretty = v.format(
                    settings.indent_spaces,
                    settings.sort_keys_alphabetically,
                    settings.escape_slashes_in_stringify,
                );
                if char_count(pretty.as_str()) > 0 {
                    shown = pretty;
                }
            }
        }
        self.replace_text(shown, settings);
    }

    /// Empties the search.
    pub fn clear_search(&mut self)
        ensures
            search_cleared(*old(self), *final(self)),
    {
        self.search_query = String::new();
        self.search_results = Vec::new();
        self.search_result_ids.clear();
        self.search_status = String::new();
        self.last_executed_query = String::new();
        self.current_search_index = 0;
        self.update_visible_rows();
    }

    /// Empties the document.
    pub fn clear(&mut self)
        ensures
            final(self).raw_text@.len() == 0,
            final(self).json_value is None,
            final(self).root is None,
            final(self).selected_path is None,
            final(self).parse_error is None,
            final(self).requested_scroll_path is None,
            final(self).search_query@.len() == 0,
            final(self).search_results@.len() == 0,
            final(self).search_result_ids@ == Set::<Seq<char>>::empty(),
            final(self).search_status@.len() == 0,
            final(self).last_executed_query@.len() == 0,
            final(self).current_search_index == 0,
            final(self).expanded_nodes@ == Set::<Seq<char>>::empty(),
            final(self).expanded_leaf_nodes@ == Set::<Seq<char>>::empty(),
            final(self).visible_tree_rows@.len() == 0,
            final(self).character_count == 0,
            final(self).line_count == 1,
            !final(self).is_dirty,
            final(self).error_message == old(self).error_message,
            final(self).active_tab == old(self).active_tab,
            final(self).tree_version == old(self).tree_version,
    {
        self.raw_text = String::new();
        self.json_value = None;
        self.root = None;
        self.selected_path = None;
        self.parse_error = None;
        self.requested_scroll_path = None;
        self.clear_search();
        self.expanded_nodes.clear();
        self.expanded_leaf_nodes.clear();
        self.visible_tree_rows = Vec::new();
        self.update_metrics();
        self.is_dirty = false;
    }
}

// ---------------------------------------------------------------------
// Searching

pub open spec fn not_found_message() -> Seq<char> {
    "Phrase not found!"@
}

/// `<i> of <n> matches`.
pub open spec fn match_status(i: nat, n: nat) -> Seq<char> {
    decimal(i) + " of "@ + decimal(n) + " matches"@
}

/// The paths expanded to reveal `target`: its ancestors, and itself where
/// it is a container.
pub open spec fn reveal_set(r: NodeView, target: Seq<char>) -> Set<Seq<char>> {
    (match ancestors_spec(r, target) {
        Some(a) => a.to_set(),
        None => Set::empty(),
    }).union(
        match find_spec(r, target) {
            Some(n) => if n.children.len() > 0 {
                set![target]
            } else {
                Set::empty()
            },
            None => Set::empty(),
        },
    )
}

/// `b` is `a` with match `target` selected, revealed and scrolled to (the
/// rows are rebuilt afterwards).
pub open spec fn focused(a: DocumentModel, b: DocumentModel, target: Seq<char>) -> bool {
    &&& b.selected_path matches Some(p) && p@ == target
    &&& match root_view(a) {
        Some(r) => {
            &&& b.expanded_nodes@ == a.expanded_nodes@.union(reveal_set(r, target))
            &&& if ancestors_spec(r, target) is Some {
                b.requested_scroll_path matches Some(p) && p@ == target
            } else {
                b.requested_scroll_path == a.requested_scroll_path
            }
        },
        None => b.expanded_nodes == a.expanded_nodes && b.requested_scroll_path
            == a.requested_scroll_path,
    }
    &&& b.expanded_leaf_nodes == a.expanded_leaf_nodes
}

/// `b` is `a` (which has a tree) after searching for `q`: the matches in
/// pre-order, the first one focused.
pub open spec fn searched(a: DocumentModel, b: DocumentModel, q: Seq<char>) -> bool {
    let r = root_view(a)->Some_0;
    let hits = search_hits(r, lower_text(q));
    &&& strings_view(b.search_results@) == hits
    &&& b.search_result_ids@ == hits.to_set()
    &&& b.search_query == a.search_query
    &&& b.last_executed_query@ == q
    &&& same_content(a, b)
    &&& same_metrics(a, b)
    &&& rows_current(b)
    &&& b.tree_version == next_version(a.tree_version)
    &&& if hits.len() == 0 {
        &&& b.search_status@ == not_found_message()
        &&& b.current_search_index == a.current_search_index
        &&& same_selection(a, b)
        &&& same_expansion(a, b)
    } else {
        &&& b.current_search_index == 0
        &&& b.search_status@ == match_status(1, hits.len())
        &&& focused(a, b, hits[0])
    }
}

/// `b` is `a` after a search was started with the settings `s`; without a
/// tree the text is read first.
pub open spec fn started(a: DocumentModel, b: DocumentModel, s: Settings) -> bool {
    let q = trim_seq(a.search_query@);
    if q.len() == 0 {
        &&& b.search_query@.len() == 0
        &&& b.search_results@.len() == 0
        &&& b.search_result_ids@ == Set::<Seq<char>>::empty()
        &&& b.search_status@.len() == 0
        &&& b.last_executed_query@.len() == 0
        &&& b.current_search_index == 0
        &&& same_content(a, b)
        &&& same_metrics(a, b)
        &&& same_selection(a, b)
        &&& same_expansion(a, b)
        &&& refreshed(a, b)
    } else if a.root is Some {
        searched(a, b, q)
    } else {
        exists|mid: DocumentModel|
            #[trigger] rebuild(a.raw_text@, metrics_of(a), a, mid, true, s) && if mid.root is Some {
                searched(mid, b, q)
            } else {
                &&& b.search_status@ == not_found_message()
                &&& b.last_executed_query@ == q
                &&& same_content(mid, b)
                &&& same_metrics(mid, b)
                &&& same_selection(mid, b)
                &&& same_expansion(mid, b)
                &&& same_rows(mid, b)
                &&& b.search_query == mid.search_query
                &&& b.search_results == mid.search_results
                &&& b.search_result_ids == mid.search_result_ids
                &&& b.current_search_index == mid.current_search_index
            }
    }
}

impl DocumentModel {
    /// Selects `target`, expands what reveals it and asks the view to
    /// scroll to it.
    fn focus_match(&mut self, target: &str)
        ensures
            focused(*old(self), *final(self), target@),
            same_content(*old(self), *final(self)),
            same_metrics(*old(self), *final(self)),
            same_search(*old(self), *final(self)),
            same_rows(*old(self), *final(self)),
    {
        self.selected_path = Some(to_owned_string(target));
        let ghost before = self.expanded_nodes@;
        if let Some((ancestors, true)) = self.find_with_ancestors(target) {
            insert_paths(&mut self.expanded_nodes, &ancestors);
            self.requested_scroll_path = Some(to_owned_string(target));
        }
        let is_container = match self.find_node(target) {
            Some(n) => n.is_container(),
            None => false,
        };
        let ghost mid = self.expanded_nodes@;
        if is_container {
            self.expanded_nodes.insert(to_owned_string(target));
        }
        proof {
            if let Some(r) = root_view(*old(self)) {
                let a = match ancestors_spec(r, target@) {
                    Some(a) => a.to_set(),
                    None => Set::<Seq<char>>::empty(),
                };
                assert(mid =~= before.union(a));
                assert(self.expanded_nodes@ =~= before.union(reveal_set(r, target@)));
            }
        }
    }

    /// Searches the tree for `query`, focusing the first match.
    fn run_search(&mut self, query: String)
        requires
            old(self).root is Some,
        ensures
            searched(*old(self), *final(self), query@),
    {
        let matches = match &self.root {
            Some(r) => search_in(r, query.as_str()),
            None => Vec::new(),
        };
        self.last_executed_query = query;
        let mut ids = PathSet::new();
        insert_paths(&mut ids, &matches);
        proof {
            assert(Set::<Seq<char>>::empty().union(strings_view(matches@).to_set()) =~= strings_view(
                matches@,
            ).to_set());
        }
        self.search_result_ids = ids;
        self.search_results = matches;
        if self.search_results.len() == 0 {
            self.search_status = to_owned_string("Phrase not found!");
        } else {
            self.current_search_index = 0;
            let target = copy_string(&self.search_results[0]);
            self.focus_match(target.as_str());
            proof {
                assert(strings_view(self.search_results@)[0] == target@);
            }
            let mut status = String::new();
            push_decimal(&mut status, 1);
            push_str(&mut status, " of ");
            push_decimal(&mut status, self.search_results.len());
            push_str(&mut status, " matches");
            proof {
                assert(status@ =~= match_status(1, self.search_results@.len() as nat));
            }
            self.search_status = status;
        }
        self.update_visible_rows();
    }

    /// Searches the tree (read from the text first, where there is none)
    /// for the trimmed query, case-insensitively, in keys, paths and
    /// values; focuses the first match.
    pub fn search_start(&mut self, settings: &Settings)
        ensures
            started(*old(self), *final(self), *settings),
    {
        let query = trim_string(self.search_query.as_str());
        if char_count(query.as_str()) == 0 {
            self.clear_search();
            return;
        }
        if self.root.is_none() {
            let ok = self.parse_and_build_tree(true, settings);
            let ghost mid = *self;
            if !ok || self.root.is_none() {
                self.last_executed_query = query;
                self.search_status = to_owned_string("Phrase not found!");
                proof {
                    assert(rebuild(old(self).raw_text@, metrics_of(*old(self)), *old(self), mid, true, *settings));
                }
                return;
            }
            self.run_search(query);
            proof {
                assert(rebuild(old(self).raw_text@, metrics_of(*old(self)), *old(self), mid, true, *settings));
            }
            return;
        }
        self.run_search(query);
    }
}

proof fn lemma_next_index(idx: int, n: int)
    requires
        idx >= 0,
        n > 0,
    ensures
        (idx + 1) % n == if idx % n + 1 == n {
            0
        } else {
            idx % n + 1
        },
        0 <= idx % n < n,
{
    let q = idx / n;
    let r = idx % n;
    vstd::arithmetic::div_mod::lemma_fundamental_div_mod(idx, n);
    vstd::arithmetic::div_mod::lemma_mod_bound(idx, n);
    assert(n * q == q * n) by (nonlinear_arith);
    if r + 1 < n {
        vstd::arithmetic::div_mod::lemma_fundamental_div_mod_converse(idx + 1, n, q, r + 1);
    } else {
        assert((q + 1) * n == q * n + n) by (nonlinear_arith);
        vstd::arithmetic::div_mod::lemma_fundamental_div_mod_converse(idx + 1, n, q + 1, 0);
    }
}

/// `b` is `a` with match `i` of `n` focused.
pub open spec fn moved_to(a: DocumentModel, b: DocumentModel, i: int) -> bool {
    let n = a.search_results@.len();
    &&& 0 <= i < n
    &&& b.current_search_index == i
    &&& focused(a, b, a.search_results@[i]@)
    &&& b.search_status@ == match_status((i + 1) as nat, n)
    &&& same_content(a, b)
    &&& same_metrics(a, b)
    &&& b.search_query == a.search_query
    &&& b.search_results == a.search_results
    &&& b.search_result_ids == a.search_result_ids
    &&& b.last_executed_query == a.last_executed_query
    &&& refreshed(a, b)
}

/// `b` is `a` after a step to the next match: nothing without a query, a
/// new search for a new query (or when nothing was found), else the match
/// after the current one, cycling.
pub open spec fn next_step(a: DocumentModel, b: DocumentModel, s: Settings) -> bool {
    let q = trim_seq(a.search_query@);
    let n = a.search_results@.len();
    if q.len() == 0 {
        unchanged(a, b)
    } else if q != a.last_executed_query@ || n == 0 {
        started(a, b, s)
    } else {
        moved_to(a, b, (a.current_search_index + 1) % (n as int))
    }
}

/// `b` is `a` after a step to the previous match: nothing without a query,
/// a new search focused on its last match for a new query (or when nothing
/// was found), else the match before the current one, cycling.
pub open spec fn previous_step(a: DocumentModel, b: DocumentModel, s: Settings) -> bool {
    let q = trim_seq(a.search_query@);
    let n = a.search_results@.len();
    let i = a.current_search_index;
    if q.len() == 0 {
        unchanged(a, b)
    } else if q != a.last_executed_query@ || n == 0 {
        exists|mid: DocumentModel|
            #[trigger] started(a, mid, s) && if mid.search_results@.len() > 0 {
                moved_to(mid, b, mid.search_results@.len() - 1)
            } else {
                unchanged(mid, b)
            }
    } else {
        moved_to(a, b, if i == 0 {
            n - 1
        } else {
            i - 1
        })
    }
}

/// A new document holding the sample text, read with `s`, pretty printed,
/// and opened on the tab `s` names.
pub open spec fn fresh(m: DocumentModel, s: Settings) -> bool {
    &&& ({
        let t = trim_seq(SAMPLE_JSON@);
        if t.len() == 0 {
            &&& m.parse_error is None
            &&& m.json_value is None
            &&& m.root is None
            &&& m.selected_path is None
            &&& m.expanded_nodes@ == Set::<Seq<char>>::empty()
            &&& m.raw_text@ == SAMPLE_JSON@
            &&& m.visible_tree_rows@.len() == 0
            &&& m.tree_version == 0
        } else {
            match load_spec(t, s.auto_unwrap_stringified) {
                Ok((v, py)) => {
                    let w = unwrap_spec(v, s.auto_unwrap_stringified);
                    let p = settings_format(w, s, s.escape_slashes_in_stringify);
                    &&& m.json_value matches Some(jv) && jv@ == w
                    &&& m.root matches Some(r) && r@ == tree_of("JSON"@, w, "$"@)
                    &&& m.selected_path matches Some(sp) && sp@ == "$"@
                    &&& m.parse_error is None
                    &&& m.expanded_nodes@ == set!["$"@]
                    &&& m.raw_text@ == if p.len() > 0 {
                        p
                    } else if py {
                        settings_format(v, s, s.escape_slashes_in_stringify)
                    } else {
                        SAMPLE_JSON@
                    }
                    &&& rows_current(m)
                    &&& m.tree_version == 1
                },
                Err(e) => {
                    &&& m.parse_error matches Some(pe) && pe@ == e
                    &&& m.json_value is None
                    &&& m.root is None
                    &&& m.selected_path is None
                    &&& m.expanded_nodes@ == Set::<Seq<char>>::empty()
                    &&& m.raw_text@ == SAMPLE_JSON@
                    &&& m.visible_tree_rows@.len() == 0
                    &&& m.tree_version == 0
                },
            }
        }
    })
    &&& metrics_of(m) == metrics_for(m.raw_text@)
    &&& !m.is_dirty
    &&& m.error_message@.len() == 0
    &&& m.search_query@.len() == 0
    &&& m.search_results@.len() == 0
    &&& m.search_result_ids@ == Set::<Seq<char>>::empty()
    &&& m.current_search_index == 0
    &&& m.search_status@.len() == 0
    &&& m.last_executed_query@.len() == 0
    &&& m.expanded_leaf_nodes@ == Set::<Seq<char>>::empty()
    &&& m.requested_scroll_path is None
    &&& m.active_tab == tab_named(s.default_tab@)
}

impl DocumentModel {
    /// Focuses match `i` and reports it as `<i+1> of <n> matches`.
    fn move_to_match(&mut self, i: usize)
        requires
            i < old(self).search_results@.len(),
        ensures
            moved_to(*old(self), *final(self), i as int),
    {
        let n = self.search_results.len();
        self.current_search_index = i;
        let target = copy_string(&self.search_results[i]);
        self.focus_match(target.as_str());
        self.update_visible_rows();
        let mut status = String::new();
        push_decimal(&mut status, i + 1);
        push_str(&mut status, " of ");
        push_decimal(&mut status, n);
        push_str(&mut status, " matches");
        proof {
            assert(status@ =~= match_status((i + 1) as nat, self.search_results@.len() as nat));
        }
        self.search_status = status;
    }

    /// Focuses the next match, cycling; a new query starts a new search.
    pub fn search_next(&mut self, settings: &Settings)
        ensures
            next_step(*old(self), *final(self), *settings),
    {
        let query = trim_string(self.search_query.as_str());
        if char_count(query.as_str()) == 0 {
            return;
        }
        if !seq_eq(query.as_str(), self.last_executed_query.as_str()) || self.search_results.len() == 0 {
            self.search_start(settings);
            return;
        }
        let n = self.search_results.len();
        let m = self.current_search_index % n;
        let i = if m + 1 == n {
            0
        } else {
            m + 1
        };
        proof {
            lemma_next_index(self.current_search_index as int, n as int);
        }
        self.move_to_match(i);
    }

    /// Focuses the previous match, cycling; a new query starts a new search
    /// and focuses its last match.
    pub fn search_previous(&mut self, settings: &Settings)
        requires
            trim_seq(old(self).search_query@) == old(self).last_executed_query@ && old(
                self,
            ).search_results@.len() > 0 ==> old(self).current_search_index <= old(
                self,
            ).search_results@.len(),
        ensures
            previous_step(*old(self), *final(self), *settings),
    {
        let query = trim_string(self.search_query.as_str());
        if char_count(query.as_str()) == 0 {
            return;
        }
        if !seq_eq(query.as_str(), self.last_executed_query.as_str()) || self.search_results.len() == 0 {
            self.search_start(settings);
            let ghost mid = *self;
            if self.search_results.len() > 0 {
                let last = self.search_results.len() - 1;
                self.move_to_match(last);
            }
            proof {
                assert(started(*old(self), mid, *settings));
            }
            return;
        }
        let i = if self.current_search_index == 0 {
            self.search_results.len() - 1
        } else {
            self.current_search_index - 1
        };
        self.move_to_match(i);
    }

    /// A document holding the sample text, read with `settings`, pretty
    /// printed, and opened on the tab the settings name.
    pub fn new(settings: &Settings) -> (m: Self)
        ensures
            fresh(m, *settings),
    {
        let mut m = DocumentModel {
            raw_text: to_owned_string(SAMPLE_JSON),
            json_value: None,
            root: None,
            selected_path: None,
            parse_error: None,
            error_message: String::new(),
            search_query: String::new(),
            search_results: Vec::new(),
            search_result_ids: PathSet::new(),
            current_search_index: 0,
            search_status: String::new(),
            last_executed_query: String::new(),
            character_count: 0,
            line_count: 1,
            is_dirty: false,
            active_tab: AppTab::from_settings(settings.default_tab.as_str()),
            expanded_nodes: PathSet::new(),
            expanded_leaf_nodes: PathSet::new(),
            visible_tree_rows: Vec::new(),
            tree_version: 0,
            requested_scroll_path: None,
        };
        let _ = m.parse_and_build_tree(true, settings);
        let pretty = match &m.json_value {
            Some(v) => Some(
                v.format(
                    settings.indent_spaces,
                    settings.sort_keys_alphabetically,
                    settings.escape_slashes_in_stringify,
                ),
            ),
            None => None,
        };
        if let Some(p) = pretty {
            if char_count(p.as_str()) > 0 {
                m.raw_text = p;
            }
        }
        m.update_metrics();
        m.is_dirty = false;
        m
    }
}

} // verus!
