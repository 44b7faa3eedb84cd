//! What holds across the model's operations: toggling, that a node whose
//! ancestors are expanded, such as a focused search match, is shown, and
//! that a step back undoes a step forward through the matches, and that
//! collapsing a subtree takes back what expanding it added, and that
//! unescaping a stringified document gives it back pretty printed.

use vstd::prelude::*;
use crate::model::tree::{NodeView, TreeRowView, rows_view, visible_rows, visible_children,
    tree_row_of, ancestors_spec, ancestors_among, search_hits, hits_among, strings_view,
    node_matches};
use crate::model::document::{DocumentModel, toggled, searched, moved_to, root_view, next_step,
    previous_step, same_content, subtree_expanded, subtree_collapsed, collapse_set};
use crate::model::tree::containers_rev;
use crate::model::tree::find_spec;
use crate::settings::Settings;
use crate::text::{trim_seq, is_ws, first_non_ws, last_non_ws_end};
use crate::model::document::{stringified, unescaped_doc, unwrap_spec};
use crate::json::value::Json;
use crate::json::grammar::parse_document;
use crate::json::format::{format_json, minify_json, quoted};
use crate::json::laws::law_minify_then_parse;
use crate::json::laws_pretty::law_format_then_parse;
use crate::json::laws_parsed::{law_parsed_is_wf, law_parsed_stringify_then_unescape};
use crate::json::format::sat_add;
use crate::text::{lower_text, occurs_in, all_ascii, ascii_lower_seq};

verus! {

/// Whether some row shows the node at path `p`.
pub open spec fn shows_path(rows: Seq<TreeRowView>, p: Seq<char>) -> bool {
    exists|i: int| 0 <= i < rows.len() && #[trigger] rows[i].path == p
}

/// Toggling the same path twice leaves the set as it was.
pub proof fn law_toggle_twice(s: Set<Seq<char>>, p: Seq<char>)
    ensures
        toggled(toggled(s, p), p) == s,
{
    assert(toggled(toggled(s, p), p) =~= s);
}

/// The child whose search gives the ancestors found among `cs[i..]`.
proof fn lemma_ancestors_found(top: Seq<char>, cs: Seq<NodeView>, p: Seq<char>, i: int) -> (j: int)
    requires
        ancestors_among(top, cs, p, i) is Some,
    ensures
        i <= j < cs.len(),
        0 <= j,
        ancestors_spec(cs[j], p) is Some,
        ancestors_among(top, cs, p, i) == Some(seq![top] + ancestors_spec(cs[j], p)->Some_0),
    decreases cs.len() - i,
{
    if ancestors_spec(cs[i], p) is Some {
        i
    } else {
        lemma_ancestors_found(top, cs, p, i + 1)
    }
}

/// A shown row of child `j` is a shown row of the first `k` children.
proof fn lemma_children_show(
    cs: Seq<NodeView>,
    depth: nat,
    exp: Set<Seq<char>>,
    leaf: Set<Seq<char>>,
    hits: Set<Seq<char>>,
    k: int,
    j: int,
    p: Seq<char>,
)
    requires
        0 <= j < k <= cs.len(),
        shows_path(visible_rows(cs[j], depth, exp, leaf, hits), p),
    ensures
        shows_path(visible_children(cs, depth, exp, leaf, hits, k), p),
    decreases k,
{
    let prev = visible_children(cs, depth, exp, leaf, hits, k - 1);
    let last = visible_rows(cs[k - 1], depth, exp, leaf, hits);
    assert(visible_children(cs, depth, exp, leaf, hits, k) == prev + last);
    if j == k - 1 {
        let i = choose|i: int| 0 <= i < last.len() && #[trigger] last[i].path == p;
        assert((prev + last)[prev.len() + i] == last[i]);
    } else {
        lemma_children_show(cs, depth, exp, leaf, hits, k - 1, j, p);
        let i = choose|i: int| 0 <= i < prev.len() && #[trigger] prev[i].path == p;
        assert((prev + last)[i] == prev[i]);
    }
}

/// A node whose ancestors are all expanded is shown: expanding the paths
/// from the root down to a node's parent makes its row visible.
pub proof fn law_expanded_ancestors_show_node(
    r: NodeView,
    p: Seq<char>,
    depth: nat,
    exp: Set<Seq<char>>,
    leaf: Set<Seq<char>>,
    hits: Set<Seq<char>>,
)
    requires
        ancestors_spec(r, p) is Some,
        forall|q: Seq<char>| ancestors_spec(r, p)->Some_0.contains(q) ==> #[trigger] exp.contains(q),
    ensures
        shows_path(visible_rows(r, depth, exp, leaf, hits), p),
    decreases r,
{
    let rows = visible_rows(r, depth, exp, leaf, hits);
    assert(rows[0] == tree_row_of(r, depth, exp, leaf, hits));
    if r.path == p {
        assert(rows[0].path == p);
    } else {
        let cs = r.children;
        let j = lemma_ancestors_found(r.path, cs, p, 0);
        let a = ancestors_spec(r, p)->Some_0;
        let rest = ancestors_spec(cs[j], p)->Some_0;
        assert(a == seq![r.path] + rest);
        assert(a[0] == r.path);
        assert(exp.contains(r.path));
        assert forall|q: Seq<char>| rest.contains(q) implies #[trigger] exp.contains(q) by {
            let k = choose|k: int| 0 <= k < rest.len() && rest[k] == q;
            assert(a[k + 1] == q);
        }
        let d = sat_add(depth, 1);
        assert(decreases_to!(r => r.children));
        assert(decreases_to!(r.children => r.children[j]));
        law_expanded_ancestors_show_node(cs[j], p, d, exp, leaf, hits);
        lemma_children_show(cs, d, exp, leaf, hits, cs.len() as int, j, p);
        let tail = visible_children(cs, d, exp, leaf, hits, cs.len() as int);
        assert(rows == seq![tree_row_of(r, depth, exp, leaf, hits)] + tail);
        let i = choose|i: int| 0 <= i < tail.len() && #[trigger] tail[i].path == p;
        assert(rows[i + 1] == tail[i]);
    }
}

/// A match found among `cs[..k]` is the hit of one child.
proof fn lemma_hit_child(cs: Seq<NodeView>, q: Seq<char>, k: int, p: Seq<char>) -> (j: int)
    requires
        0 <= k <= cs.len(),
        hits_among(cs, q, k).contains(p),
    ensures
        0 <= j < k,
        search_hits(cs[j], q).contains(p),
    decreases k,
{
    let prev = hits_among(cs, q, k - 1);
    let last = search_hits(cs[k - 1], q);
    assert(hits_among(cs, q, k) == prev + last);
    let i = choose|i: int| 0 <= i < (prev + last).len() && (prev + last)[i] == p;
    if i < prev.len() {
        assert(prev[i] == p);
        lemma_hit_child(cs, q, k - 1, p)
    } else {
        assert(last[i - prev.len()] == p);
        k - 1
    }
}

/// Where child `j` leads to `p`, the search from child `i <= j` on does.
proof fn lemma_ancestors_from(top: Seq<char>, cs: Seq<NodeView>, p: Seq<char>, i: int, j: int)
    requires
        0 <= i <= j < cs.len(),
        ancestors_spec(cs[j], p) is Some,
    ensures
        ancestors_among(top, cs, p, i) is Some,
    decreases j - i,
{
    if ancestors_spec(cs[i], p) is None {
        lemma_ancestors_from(top, cs, p, i + 1, j);
    }
}

/// Every match of a search is the path of a node of the tree.
pub proof fn lemma_hit_is_node(r: NodeView, q: Seq<char>, p: Seq<char>)
    requires
        search_hits(r, q).contains(p),
    ensures
        ancestors_spec(r, p) is Some,
    decreases r,
{
    if r.path != p {
        let own = if crate::model::tree::node_matches(r, q) {
            seq![r.path]
        } else {
            Seq::<Seq<char>>::empty()
        };
        let below = hits_among(r.children, q, r.children.len() as int);
        assert(search_hits(r, q) == own + below);
        let i = choose|i: int| 0 <= i < (own + below).len() && (own + below)[i] == p;
        assert(i >= own.len());
        assert(below[i - own.len()] == p);
        let j = lemma_hit_child(r.children, q, r.children.len() as int, p);
        assert(decreases_to!(r => r.children));
        assert(decreases_to!(r.children => r.children[j]));
        lemma_hit_is_node(r.children[j], q, p);
        lemma_ancestors_from(r.path, r.children, p, 0, j);
    }
}

/// After a search that finds matches, the row of the focused first match
/// is shown.
pub proof fn law_search_shows_match(a: DocumentModel, b: DocumentModel, q: Seq<char>)
    requires
        a.root is Some,
        searched(a, b, q),
        b.search_results@.len() > 0,
    ensures
        shows_path(rows_view(b.visible_tree_rows@), b.search_results@[0]@),
{
    let r = root_view(a)->Some_0;
    let lq = lower_text(q);
    let hits = search_hits(r, lq);
    assert(strings_view(b.search_results@) == hits);
    let target = hits[0];
    assert(b.search_results@[0]@ == target);
    assert(hits.contains(target));
    lemma_hit_is_node(r, lq, target);
    let anc = ancestors_spec(r, target)->Some_0;
    assert forall|x: Seq<char>| anc.contains(x) implies #[trigger] b.expanded_nodes@.contains(x) by {
        assert(anc.to_set().contains(x));
    }
    law_expanded_ancestors_show_node(
        r,
        target,
        0,
        b.expanded_nodes@,
        b.expanded_leaf_nodes@,
        b.search_result_ids@,
    );
}

/// After moving to another match that is a node of the tree, its row is
/// shown.
pub proof fn law_move_shows_match(a: DocumentModel, b: DocumentModel, i: int)
    requires
        a.root is Some,
        0 <= i < a.search_results@.len(),
        ancestors_spec(root_view(a)->Some_0, a.search_results@[i]@) is Some,
        moved_to(a, b, i),
    ensures
        shows_path(rows_view(b.visible_tree_rows@), b.search_results@[i]@),
{
    let r = root_view(a)->Some_0;
    let target = a.search_results@[i]@;
    let anc = ancestors_spec(r, target)->Some_0;
    assert forall|x: Seq<char>| anc.contains(x) implies #[trigger] b.expanded_nodes@.contains(x) by {
        assert(anc.to_set().contains(x));
    }
    law_expanded_ancestors_show_node(
        r,
        target,
        0,
        b.expanded_nodes@,
        b.expanded_leaf_nodes@,
        b.search_result_ids@,
    );
}

/// A search whose first match is a container expands that container, so
/// its children show.
pub proof fn law_search_expands_container_match(a: DocumentModel, b: DocumentModel, q: Seq<char>)
    requires
        a.root is Some,
        searched(a, b, q),
        b.search_results@.len() > 0,
        find_spec(root_view(a)->Some_0, b.search_results@[0]@) matches Some(n)
            && n.children.len() > 0,
    ensures
        b.expanded_nodes@.contains(b.search_results@[0]@),
{
    let r = root_view(a)->Some_0;
    let lq = lower_text(q);
    let hits = search_hits(r, lq);
    assert(strings_view(b.search_results@) == hits);
    assert(b.search_results@[0]@ == hits[0]);
}

/// Stepping to the next match and then to the previous one comes back to
/// the match one started from, selected.
pub proof fn law_previous_undoes_next(
    a: DocumentModel,
    b: DocumentModel,
    c: DocumentModel,
    s: Settings,
)
    requires
        trim_seq(a.search_query@).len() > 0,
        trim_seq(a.search_query@) == a.last_executed_query@,
        a.current_search_index < a.search_results@.len(),
        next_step(a, b, s),
        previous_step(b, c, s),
    ensures
        c.current_search_index == a.current_search_index,
        c.search_results == a.search_results,
        c.selected_path matches Some(p) && p@ == a.search_results@[a.current_search_index as int]@,
{
    let n = a.search_results@.len() as int;
    let i = a.current_search_index as int;
    assert(moved_to(a, b, (i + 1) % n));
    assert(b.current_search_index == (i + 1) % n);
    if i + 1 < n {
        assert((i + 1) % n == i + 1) by (nonlinear_arith)
            requires
                0 <= i,
                i + 1 < n,
        ;
    } else {
        assert((i + 1) % n == 0) by (nonlinear_arith)
            requires
                i + 1 == n,
                n > 0,
        ;
    }
}

/// Expanding the subtree at `path` and then collapsing it leaves the
/// expanded set as it was before, less the node at `path` and the
/// containers under it: what the expansion added is gone again.
pub proof fn law_collapse_undoes_expand(a: DocumentModel, b: DocumentModel, path: Seq<char>)
    requires
        same_content(a, b),
        b.expanded_nodes@ == subtree_expanded(a, path),
    ensures
        subtree_collapsed(b, path) == match root_view(a) {
            Some(r) => match find_spec(r, path) {
                Some(n) => a.expanded_nodes@.difference(collapse_set(n)),
                None => a.expanded_nodes@,
            },
            None => a.expanded_nodes@,
        },
{
    match root_view(a) {
        Some(r) => match find_spec(r, path) {
            Some(n) => {
                assert(containers_rev(n).to_set().subset_of(collapse_set(n))) by {
                    if n.children.len() == 0 {
                        assert(containers_rev(n).to_set() =~= Set::<Seq<char>>::empty());
                    }
                }
                assert(subtree_collapsed(b, path) =~= a.expanded_nodes@.difference(collapse_set(n)));
            },
            None => {},
        },
        None => {},
    }
}


/// Text that starts and ends with a non-white-space character is its own
/// trim.
proof fn lemma_trim_whole(t: Seq<char>)
    requires
        t.len() > 0,
        !is_ws(t[0]),
        !is_ws(t[t.len() - 1]),
    ensures
        trim_seq(t) == t,
{
    assert(first_non_ws(t, 0) == 0);
    assert(last_non_ws_end(t, t.len() as int) == t.len());
    assert(t.subrange(0, t.len() as int) =~= t);
}

/// The pretty text of an array or object is bracketed.
proof fn lemma_format_bracketed(v: Json)
    requires
        v is Array || v is Object,
    ensures
        format_json(v, 0, 2, false, false).len() > 0,
        !is_ws(format_json(v, 0, 2, false, false)[0]),
        !is_ws(
            format_json(v, 0, 2, false, false)[format_json(v, 0, 2, false, false).len() - 1],
        ),
{
    let f = format_json(v, 0, 2, false, false);
    match v {
        Json::Array(items) => {
            if items.len() > 0 {
                assert(f[f.len() - 1] == ']');
                assert(f[0] == '[');
            }
        },
        Json::Object(ps) => {
            if ps.len() > 0 {
                assert(f[f.len() - 1] == '}');
                assert(f[0] == '{');
            }
        },
        _ => {},
    }
}

/// Stringifying a document that holds an array or object and then
/// unescaping it gives the document back, pretty printed with two spaces
/// whatever the settings, read as the same value, without error.
pub proof fn law_unescape_undoes_stringify(
    a: DocumentModel,
    b: DocumentModel,
    c: DocumentModel,
    s1: Settings,
    s2: Settings,
)
    requires
        parse_document(trim_seq(a.raw_text@)) matches Ok(v) && (v is Array || v is Object),
        stringified(a, b, s1),
        unescaped_doc(b, c, s2),
    ensures
        c.raw_text@ == format_json(parse_document(trim_seq(a.raw_text@))->Ok_0, 0, 2, false, false),
        c.json_value matches Some(jv) && jv@ == parse_document(trim_seq(a.raw_text@))->Ok_0,
        c.parse_error is None,
{
    let v = parse_document(trim_seq(a.raw_text@))->Ok_0;
    let esc = s1.escape_slashes_in_stringify;
    let m = minify_json(v, false);
    let t = quoted(m, esc);
    assert(trim_seq(a.raw_text@).len() > 0) by {
        if trim_seq(a.raw_text@).len() == 0 {
            assert(parse_document(trim_seq(a.raw_text@)) is Err);
        }
    }
    // The stringified text is one JSON string literal.
    assert(t[0] == '"');
    assert(t[t.len() - 1] == '"');
    lemma_trim_whole(t);
    law_minify_then_parse(Json::Str(m), esc);
    assert(minify_json(Json::Str(m), esc) == t);
    assert(b.raw_text@ == t);
    // Unescaping it gives the pretty text, which reads back as `v`.
    law_parsed_stringify_then_unescape(trim_seq(a.raw_text@), esc);
    let f = format_json(v, 0, 2, false, false);
    assert(crate::json::stringified::unescaped(b.raw_text@) == f);
    lemma_format_bracketed(v);
    lemma_trim_whole(f);
    law_parsed_is_wf(trim_seq(a.raw_text@));
    law_format_then_parse(v, 2, false);
    assert(unwrap_spec(v, s2.auto_unwrap_stringified) == v);
}


// ---------------------------------------------------------------------
// The rows are exactly the open nodes

/// Every node under and including `n`, in pre-order, each with the paths
/// of its proper ancestors (those of `n` being `anc`).
pub open spec fn pre_nodes(n: NodeView, anc: Seq<Seq<char>>) -> Seq<(NodeView, Seq<Seq<char>>)>
    decreases n, 1int,
{
    seq![(n, anc)] + pre_children(n.children, anc.push(n.path), n.children.len() as int)
}

/// `pre_nodes` of the first `k` children `cs`, whose ancestors are `anc`.
pub open spec fn pre_children(cs: Seq<NodeView>, anc: Seq<Seq<char>>, k: int) -> Seq<
    (NodeView, Seq<Seq<char>>),
>
    decreases cs, k,
{
    if k <= 0 || k > cs.len() {
        Seq::empty()
    } else {
        pre_children(cs, anc, k - 1) + pre_nodes(cs[k - 1], anc)
    }
}

/// Whether every path of `a` is expanded.
pub open spec fn all_expanded(a: Seq<Seq<char>>, exp: Set<Seq<char>>) -> bool {
    forall|i: int| 0 <= i < a.len() ==> exp.contains(#[trigger] a[i])
}

/// The depth of a node with `n` ancestors, as rows count it (held at
/// `usize::MAX`).
pub open spec fn depth_for(n: nat) -> nat {
    if n > usize::MAX {
        usize::MAX as nat
    } else {
        n
    }
}

/// The rows of the nodes of `l` whose ancestors are all expanded, in order.
pub open spec fn open_rows(
    l: Seq<(NodeView, Seq<Seq<char>>)>,
    exp: Set<Seq<char>>,
    leaf: Set<Seq<char>>,
    hits: Set<Seq<char>>,
) -> Seq<TreeRowView>
    decreases l.len(),
{
    if l.len() == 0 {
        Seq::empty()
    } else {
        open_rows(l.drop_last(), exp, leaf, hits) + if all_expanded(l.last().1, exp) {
            seq![tree_row_of(l.last().0, depth_for(l.last().1.len()), exp, leaf, hits)]
        } else {
            Seq::empty()
        }
    }
}

proof fn lemma_open_rows_add(
    a: Seq<(NodeView, Seq<Seq<char>>)>,
    b: Seq<(NodeView, Seq<Seq<char>>)>,
    exp: Set<Seq<char>>,
    leaf: Set<Seq<char>>,
    hits: Set<Seq<char>>,
)
    ensures
        open_rows(a + b, exp, leaf, hits) == open_rows(a, exp, leaf, hits) + open_rows(b, exp, leaf, hits),
    decreases b.len(),
{
    if b.len() == 0 {
        assert(a + b =~= a);
        assert(open_rows(a, exp, leaf, hits) + open_rows(b, exp, leaf, hits) =~= open_rows(a, exp, leaf, hits));
    } else {
        lemma_open_rows_add(a, b.drop_last(), exp, leaf, hits);
        assert((a + b).drop_last() =~= a + b.drop_last());
        assert((a + b).last() == b.last());
        let tail = if all_expanded(b.last().1, exp) {
            seq![tree_row_of(b.last().0, depth_for(b.last().1.len()), exp, leaf, hits)]
        } else {
            Seq::<TreeRowView>::empty()
        };
        assert(open_rows(a, exp, leaf, hits) + open_rows(b.drop_last(), exp, leaf, hits) + tail
            =~= open_rows(a, exp, leaf, hits) + (open_rows(b.drop_last(), exp, leaf, hits) + tail));
    }
}

/// Under an ancestor that is not expanded no node is open.
proof fn lemma_hidden_nodes(
    n: NodeView,
    anc: Seq<Seq<char>>,
    exp: Set<Seq<char>>,
    leaf: Set<Seq<char>>,
    hits: Set<Seq<char>>,
)
    requires
        !all_expanded(anc, exp),
    ensures
        open_rows(pre_nodes(n, anc), exp, leaf, hits) == Seq::<TreeRowView>::empty(),
    decreases n, 1int,
{
    let anc2 = anc.push(n.path);
    assert(!all_expanded(anc2, exp)) by {
        let i = choose|i: int| 0 <= i < anc.len() && !exp.contains(#[trigger] anc[i]);
        assert(anc2[i] == anc[i]);
    }
    lemma_hidden_children(n.children, anc2, n.children.len() as int, exp, leaf, hits);
    let head = seq![(n, anc)];
    lemma_open_rows_add(head, pre_children(n.children, anc2, n.children.len() as int), exp, leaf, hits);
    assert(head.drop_last() =~= Seq::<(NodeView, Seq<Seq<char>>)>::empty());
    assert(open_rows(head.drop_last(), exp, leaf, hits) =~= Seq::<TreeRowView>::empty());
    assert(head.last() == (n, anc));
    assert(open_rows(head, exp, leaf, hits) =~= Seq::<TreeRowView>::empty());
    assert(open_rows(pre_nodes(n, anc), exp, leaf, hits) =~= Seq::<TreeRowView>::empty());
}

proof fn lemma_hidden_children(
    cs: Seq<NodeView>,
    anc: Seq<Seq<char>>,
    k: int,
    exp: Set<Seq<char>>,
    leaf: Set<Seq<char>>,
    hits: Set<Seq<char>>,
)
    requires
        !all_expanded(anc, exp),
    ensures
        open_rows(pre_children(cs, anc, k), exp, leaf, hits) == Seq::<TreeRowView>::empty(),
    decreases cs, 0int, k,
{
    if 0 < k <= cs.len() {
        lemma_hidden_children(cs, anc, k - 1, exp, leaf, hits);
        lemma_hidden_nodes(cs[k - 1], anc, exp, leaf, hits);
        lemma_open_rows_add(pre_children(cs, anc, k - 1), pre_nodes(cs[k - 1], anc), exp, leaf, hits);
        assert(Seq::<TreeRowView>::empty() + Seq::<TreeRowView>::empty() =~= Seq::<TreeRowView>::empty());
    } else {
        assert(open_rows(Seq::<(NodeView, Seq<Seq<char>>)>::empty(), exp, leaf, hits) =~= Seq::<TreeRowView>::empty());
    }
}

/// Where the ancestors are all expanded, the open rows of a subtree are
/// its visible rows.
proof fn lemma_open_nodes(
    n: NodeView,
    anc: Seq<Seq<char>>,
    exp: Set<Seq<char>>,
    leaf: Set<Seq<char>>,
    hits: Set<Seq<char>>,
)
    requires
        all_expanded(anc, exp),
    ensures
        open_rows(pre_nodes(n, anc), exp, leaf, hits) == visible_rows(n, depth_for(anc.len()), exp, leaf, hits),
    decreases n, 1int,
{
    let anc2 = anc.push(n.path);
    let k = n.children.len() as int;
    let head = seq![(n, anc)];
    let d = depth_for(anc.len());
    lemma_open_rows_add(head, pre_children(n.children, anc2, k), exp, leaf, hits);
    assert(head.drop_last() =~= Seq::<(NodeView, Seq<Seq<char>>)>::empty());
    assert(open_rows(head.drop_last(), exp, leaf, hits) =~= Seq::<TreeRowView>::empty());
    assert(head.last() == (n, anc));
    assert(open_rows(head, exp, leaf, hits) =~= seq![tree_row_of(n, d, exp, leaf, hits)]);
    assert(depth_for(anc2.len()) == sat_add(d, 1));
    if k > 0 && exp.contains(n.path) {
        assert(all_expanded(anc2, exp)) by {
            assert forall|i: int| 0 <= i < anc2.len() implies exp.contains(#[trigger] anc2[i]) by {
                if i < anc.len() {
                    assert(anc2[i] == anc[i]);
                }
            }
        }
        lemma_open_children(n.children, anc2, k, exp, leaf, hits);
    } else if k > 0 {
        assert(!all_expanded(anc2, exp)) by {
            assert(anc2[anc.len() as int] == n.path);
        }
        lemma_hidden_children(n.children, anc2, k, exp, leaf, hits);
        assert(seq![tree_row_of(n, d, exp, leaf, hits)] + Seq::<TreeRowView>::empty() =~= seq![
            tree_row_of(n, d, exp, leaf, hits),
        ]);
    } else {
        assert(open_rows(Seq::<(NodeView, Seq<Seq<char>>)>::empty(), exp, leaf, hits) =~= Seq::<TreeRowView>::empty());
        assert(seq![tree_row_of(n, d, exp, leaf, hits)] + Seq::<TreeRowView>::empty() =~= seq![
            tree_row_of(n, d, exp, leaf, hits),
        ]);
    }
}

proof fn lemma_open_children(
    cs: Seq<NodeView>,
    anc: Seq<Seq<char>>,
    k: int,
    exp: Set<Seq<char>>,
    leaf: Set<Seq<char>>,
    hits: Set<Seq<char>>,
)
    requires
        all_expanded(anc, exp),
        0 <= k <= cs.len(),
    ensures
        open_rows(pre_children(cs, anc, k), exp, leaf, hits) == visible_children(
            cs,
            depth_for(anc.len()),
            exp,
            leaf,
            hits,
            k,
        ),
    decreases cs, 0int, k,
{
    if k > 0 {
        lemma_open_children(cs, anc, k - 1, exp, leaf, hits);
        lemma_open_nodes(cs[k - 1], anc, exp, leaf, hits);
        lemma_open_rows_add(pre_children(cs, anc, k - 1), pre_nodes(cs[k - 1], anc), exp, leaf, hits);
    } else {
        assert(open_rows(Seq::<(NodeView, Seq<Seq<char>>)>::empty(), exp, leaf, hits) =~= Seq::<TreeRowView>::empty());
    }
}

/// The rows of a tree are exactly its nodes, in pre-order, whose proper
/// ancestors are all expanded, each at the depth of its ancestor count.
pub proof fn law_rows_are_open_nodes(
    r: NodeView,
    exp: Set<Seq<char>>,
    leaf: Set<Seq<char>>,
    hits: Set<Seq<char>>,
)
    ensures
        visible_rows(r, 0, exp, leaf, hits) == open_rows(pre_nodes(r, Seq::empty()), exp, leaf, hits),
{
    lemma_open_nodes(r, Seq::empty(), exp, leaf, hits);
}


// ---------------------------------------------------------------------
// What a search finds

/// The paths of the nodes of `l` that match the lower-case query `q`, in
/// order.
pub open spec fn matching_paths(l: Seq<(NodeView, Seq<Seq<char>>)>, q: Seq<char>) -> Seq<Seq<char>>
    decreases l.len(),
{
    if l.len() == 0 {
        Seq::empty()
    } else {
        matching_paths(l.drop_last(), q) + if node_matches(l.last().0, q) {
            seq![l.last().0.path]
        } else {
            Seq::empty()
        }
    }
}

proof fn lemma_matching_paths_add(
    a: Seq<(NodeView, Seq<Seq<char>>)>,
    b: Seq<(NodeView, Seq<Seq<char>>)>,
    q: Seq<char>,
)
    ensures
        matching_paths(a + b, q) == matching_paths(a, q) + matching_paths(b, q),
    decreases b.len(),
{
    if b.len() == 0 {
        assert(a + b =~= a);
        assert(matching_paths(a, q) + matching_paths(b, q) =~= matching_paths(a, q));
    } else {
        lemma_matching_paths_add(a, b.drop_last(), q);
        assert((a + b).drop_last() =~= a + b.drop_last());
        assert((a + b).last() == b.last());
        let tail = if node_matches(b.last().0, q) {
            seq![b.last().0.path]
        } else {
            Seq::<Seq<char>>::empty()
        };
        assert(matching_paths(a, q) + matching_paths(b.drop_last(), q) + tail =~= matching_paths(a, q)
            + (matching_paths(b.drop_last(), q) + tail));
    }
}

proof fn lemma_hits_nodes(n: NodeView, anc: Seq<Seq<char>>, q: Seq<char>)
    ensures
        search_hits(n, q) == matching_paths(pre_nodes(n, anc), q),
    decreases n, 1int,
{
    let anc2 = anc.push(n.path);
    let k = n.children.len() as int;
    let head = seq![(n, anc)];
    lemma_hits_children(n.children, anc2, k, q);
    lemma_matching_paths_add(head, pre_children(n.children, anc2, k), q);
    assert(head.drop_last() =~= Seq::<(NodeView, Seq<Seq<char>>)>::empty());
    assert(matching_paths(head.drop_last(), q) =~= Seq::<Seq<char>>::empty());
    assert(head.last() == (n, anc));
    let own = if node_matches(n, q) {
        seq![n.path]
    } else {
        Seq::<Seq<char>>::empty()
    };
    assert(matching_paths(head, q) =~= own);
}

proof fn lemma_hits_children(cs: Seq<NodeView>, anc: Seq<Seq<char>>, k: int, q: Seq<char>)
    ensures
        hits_among(cs, q, k) == matching_paths(pre_children(cs, anc, k), q),
    decreases cs, 0int, k,
{
    if 0 < k <= cs.len() {
        lemma_hits_children(cs, anc, k - 1, q);
        lemma_hits_nodes(cs[k - 1], anc, q);
        lemma_matching_paths_add(pre_children(cs, anc, k - 1), pre_nodes(cs[k - 1], anc), q);
    } else {
        assert(matching_paths(Seq::<(NodeView, Seq<Seq<char>>)>::empty(), q) =~= Seq::<Seq<char>>::empty());
    }
}

/// A search finds exactly the nodes of the tree, in pre-order, that match
/// the query by key, path or value.
pub proof fn law_search_hits_are_matching_nodes(r: NodeView, q: Seq<char>)
    ensures
        search_hits(r, q) == matching_paths(pre_nodes(r, Seq::empty()), q),
{
    lemma_hits_nodes(r, Seq::empty(), q);
}

/// The ASCII words a value is shown as are their own lower-case form.
proof fn lemma_lower_word(w: Seq<char>)
    requires
        forall|i: int| 0 <= i < w.len() ==> 'a' <= #[trigger] w[i] <= 'z',
    ensures
        lower_text(w) == w,
{
    assert(all_ascii(w)) by {
        assert forall|i: int| 0 <= i < w.len() implies (#[trigger] w[i] as u32) < 128 by {
            assert('a' <= w[i] <= 'z');
        }
    }
    assert(ascii_lower_seq(w) =~= w);
}

/// A node is found by its key, its path, and its value as shown: `null`,
/// `true` or `false`, a number as written, a string's text; the query is
/// compared with their lower-case forms.
pub proof fn law_search_matches_shown_value(n: NodeView, q: Seq<char>)
    requires
        q.len() > 0,
    ensures
        occurs_in(lower_text(n.key), q) ==> node_matches(n, q),
        occurs_in(lower_text(n.path), q) ==> node_matches(n, q),
        n.value is Null && occurs_in(seq!['n', 'u', 'l', 'l'], q) ==> node_matches(n, q),
        n.value == Json::Bool(true) && occurs_in(seq!['t', 'r', 'u', 'e'], q) ==> node_matches(n, q),
        n.value == Json::Bool(false) && occurs_in(seq!['f', 'a', 'l', 's', 'e'], q) ==> node_matches(
            n,
            q,
        ),
        n.value matches Json::Number(raw) && occurs_in(lower_text(raw), q) ==> node_matches(n, q),
        n.value matches Json::Str(t) && occurs_in(lower_text(t), q) ==> node_matches(n, q),
{
    reveal_strlit("null");
    reveal_strlit("true");
    reveal_strlit("false");
    lemma_lower_word(seq!['n', 'u', 'l', 'l']);
    lemma_lower_word(seq!['t', 'r', 'u', 'e']);
    lemma_lower_word(seq!['f', 'a', 'l', 's', 'e']);
    assert("null"@ =~= seq!['n', 'u', 'l', 'l']);
    assert("true"@ =~= seq!['t', 'r', 'u', 'e']);
    assert("false"@ =~= seq!['f', 'a', 'l', 's', 'e']);
}


proof fn lemma_matching_paths_contains(
    l: Seq<(NodeView, Seq<Seq<char>>)>,
    q: Seq<char>,
    n: NodeView,
    anc: Seq<Seq<char>>,
)
    requires
        l.contains((n, anc)),
        node_matches(n, q),
    ensures
        matching_paths(l, q).contains(n.path),
    decreases l.len(),
{
    let rest = matching_paths(l.drop_last(), q);
    if l.last() == (n, anc) {
        let all = rest + seq![n.path];
        assert(all[rest.len() as int] == n.path);
    } else {
        let i = choose|i: int| 0 <= i < l.len() && l[i] == (n, anc);
        assert(i < l.len() - 1);
        assert(l.drop_last()[i] == (n, anc));
        lemma_matching_paths_contains(l.drop_last(), q, n, anc);
        let j = choose|j: int| 0 <= j < rest.len() && rest[j] == n.path;
        let tail = if node_matches(l.last().0, q) {
            seq![l.last().0.path]
        } else {
            Seq::<Seq<char>>::empty()
        };
        assert((rest + tail)[j] == n.path);
    }
}

/// After a search, every node of the tree that matches the query by key,
/// path or shown value is among the results; in particular a query that
/// occurs in `null` finds every node whose value is null.
pub proof fn law_search_finds_every_match(
    a: DocumentModel,
    b: DocumentModel,
    q: Seq<char>,
    n: NodeView,
    anc: Seq<Seq<char>>,
)
    requires
        a.root is Some,
        searched(a, b, q),
        pre_nodes(root_view(a)->Some_0, Seq::empty()).contains((n, anc)),
        node_matches(n, lower_text(q)) || (n.value is Null && lower_text(q).len() > 0 && occurs_in(
            seq!['n', 'u', 'l', 'l'],
            lower_text(q),
        )),
    ensures
        strings_view(b.search_results@).contains(n.path),
{
    let r = root_view(a)->Some_0;
    let lq = lower_text(q);
    if lq.len() > 0 {
        law_search_matches_shown_value(n, lq);
    }
    law_search_hits_are_matching_nodes(r, lq);
    lemma_matching_paths_contains(pre_nodes(r, Seq::empty()), lq, n, anc);
}

} // verus!
