//! Filling the window's tree a slice at a time from its pre-order rows:
//! each row goes under the nearest container above it that is still open
//! and shallower than the row.

use vstd::prelude::*;
use crate::model::tree::{FlatRow, NodeView, flat_rows, preorder_shaped, depths_bounded,
    lemma_flat_rows_shaped};
use crate::text::{decimal, push_decimal, push_str, to_owned_string};

verus! {

/// How many rows one step of a fill places.
pub const FILL_CHUNK: usize = 4000;

/// Row `j` is a container still open when row `i` comes: no row between
/// them is as shallow as it.
pub open spec fn open_at(rows: Seq<FlatRow>, j: int, i: int) -> bool {
    &&& 0 <= j < i
    &&& rows[j].is_container
    &&& forall|k: int| j < k < i ==> #[trigger] rows[k].depth > rows[j].depth
}

/// Row `j` is where row `i` goes: the last container open at `i` that is
/// shallower than it.
pub open spec fn is_parent_row(rows: Seq<FlatRow>, j: int, i: int) -> bool {
    &&& open_at(rows, j, i)
    &&& rows[j].depth < rows[i].depth
    &&& forall|m: int| j < m < i && #[trigger] open_at(rows, m, i) ==> rows[m].depth >= rows[i].depth
}

/// Row `i` is placed under `p`: its parent row, or the top where no open
/// container is shallower.
pub open spec fn placed_under(rows: Seq<FlatRow>, i: int, p: Option<usize>) -> bool {
    match p {
        Some(j) => is_parent_row(rows, j as int, i),
        None => forall|j: int| #[trigger] open_at(rows, j, i) ==> rows[j].depth >= rows[i].depth,
    }
}

/// A fill in progress: the rows, how many are placed, and the containers
/// still open, outermost first, as `(depth, row)`.
pub struct TreeFill {
    rows: Vec<FlatRow>,
    next: usize,
    stack: Vec<(usize, usize)>,
}

impl TreeFill {
    /// How many rows are placed.
    pub closed spec fn placed(self) -> nat {
        self.next as nat
    }

    /// The rows to place, in pre-order.
    pub closed spec fn row_seq(self) -> Seq<FlatRow> {
        self.rows@
    }

    /// The rows to place.
    pub fn rows(&self) -> (r: &Vec<FlatRow>)
        ensures
            r@ == self.row_seq(),
    {
        &self.rows
    }

    /// The open containers are exactly those on the stack, outermost first,
    /// each with its depth.
    pub closed spec fn wf(self) -> bool {
        let st = self.stack@;
        &&& self.next <= self.rows@.len()
        &&& forall|a: int, b: int|
            0 <= a < b < st.len() ==> #[trigger] st[a].1 < #[trigger] st[b].1 && st[a].0 < st[b].0
        &&& forall|a: int|
            0 <= a < st.len() ==> #[trigger] st[a].1 < self.next && st[a].0 == self.rows@[st[a].1 as int].depth
                && open_at(self.rows@, st[a].1 as int, self.next as int)
        &&& forall|j: int|
            #[trigger] open_at(self.rows@, j, self.next as int) ==> exists|a: int|
                0 <= a < st.len() && #[trigger] st[a].1 == j
    }

    /// A fill of `rows` that has placed nothing yet.
    pub fn new(rows: Vec<FlatRow>) -> (f: TreeFill)
        ensures
            f.wf(),
            f.row_seq() == rows@,
            f.placed() == 0,
    {
        TreeFill { rows, next: 0, stack: Vec::new() }
    }

    /// Whether every row is placed.
    pub fn is_done(&self) -> (r: bool)
        requires
            self.wf(),
        ensures
            r == (self.placed() == self.row_seq().len()),
    {
        self.next >= self.rows.len()
    }

    /// `Loading tree… <placed> of <rows> nodes`.
    pub fn progress_text(&self) -> (r: String)
        ensures
            r@ == "Loading tree… "@ + decimal(self.placed()) + " of "@ + decimal(self.row_seq().len())
                + " nodes"@,
    {
        let mut t = to_owned_string("Loading tree… ");
        push_decimal(&mut t, self.next);
        push_str(&mut t, " of ");
        push_decimal(&mut t, self.rows.len());
        push_str(&mut t, " nodes");
        t
    }

    /// Places the next row; gives the row it goes under.
    fn place_next(&mut self) -> (p: Option<usize>)
        requires
            old(self).wf(),
            old(self).next < old(self).rows@.len(),
        ensures
            final(self).wf(),
            final(self).rows == old(self).rows,
            final(self).next == old(self).next + 1,
            placed_under(old(self).rows@, old(self).next as int, p),
    {
        let ghost rows = self.rows@;
        let ghost n = self.next as int;
        let ghost st0 = self.stack@;
        let len = self.rows.len();
        let d = self.rows[self.next].depth;
        while self.stack.len() > 0 && self.stack[self.stack.len() - 1].0 >= d
            invariant
                self.rows == old(self).rows,
                self.rows@ == rows,
                len == rows.len(),
                self.next as int == n,
                0 <= n < rows.len(),
                d == rows[n].depth,
                self.stack@.len() <= st0.len(),
                self.stack@ == st0.take(self.stack@.len() as int),
                forall|a: int| self.stack@.len() <= a < st0.len() ==> #[trigger] st0[a].0 >= d,
                forall|a: int, b: int|
                    0 <= a < b < st0.len() ==> #[trigger] st0[a].1 < #[trigger] st0[b].1 && st0[a].0 < st0[b].0,
            decreases self.stack.len(),
        {
            self.stack.pop();
        }
        let k = self.stack.len();
        let p = if k > 0 {
            Some(self.stack[k - 1].1)
        } else {
            None
        };
        proof {
            let st = self.stack@;
            assert forall|a: int| 0 <= a < st.len() implies #[trigger] st[a].0 < d by {
                if k > 0 && a < k - 1 {
                    assert(st0[a].1 < st0[k - 1].1);
                    assert(st0[a].0 < st0[k - 1].0);
                }
            }
            match p {
                Some(j) => {
                    assert(open_at(rows, j as int, n));
                    assert forall|m: int| j < m < n && #[trigger] open_at(rows, m, n) implies rows[m].depth
                        >= rows[n].depth by {
                        let a = choose|a: int| 0 <= a < st0.len() && #[trigger] st0[a].1 == m;
                        if a < k {
                            assert(st0[a].1 <= st0[k - 1].1);
                        }
                    }
                },
                None => {
                    assert forall|j: int| #[trigger] open_at(rows, j, n) implies rows[j].depth >= rows[n].depth by {
                        let a = choose|a: int| 0 <= a < st0.len() && #[trigger] st0[a].1 == j;
                    }
                },
            }
        }
        assert(self.next < len);
        let row_container = self.rows[self.next].is_container;
        if row_container {
            self.stack.push((d, self.next));
        }
        self.next = self.next + 1;
        proof {
            let st = self.stack@;
            let n1 = n + 1;
            assert forall|a: int| 0 <= a < st.len() implies #[trigger] st[a].1 < self.next && st[a].0
                == rows[st[a].1 as int].depth && open_at(rows, st[a].1 as int, n1) by {
                if a < k {
                    assert(st[a] == st0[a]);
                    assert(st0[a].0 < d);
                    assert forall|q: int| st[a].1 < q < n1 implies #[trigger] rows[q].depth > rows[st[a].1 as int].depth by {
                        if q < n {
                            assert(open_at(rows, st0[a].1 as int, n));
                        }
                    }
                }
            }
            assert forall|a: int, b: int| 0 <= a < b < st.len() implies #[trigger] st[a].1 < #[trigger] st[b].1
                && st[a].0 < st[b].0 by {
                if b < k {
                    assert(st[a] == st0[a] && st[b] == st0[b]);
                } else {
                    assert(st[a] == st0[a]);
                    assert(st0[a].0 < d);
                }
            }
            assert forall|j: int| #[trigger] open_at(rows, j, n1) implies exists|a: int|
                0 <= a < st.len() && #[trigger] st[a].1 == j by {
                if j == n {
                    assert(st[k as int].1 == j);
                } else {
                    assert(rows[n].depth > rows[j].depth);
                    assert(open_at(rows, j, n));
                    let a = choose|a: int| 0 <= a < st0.len() && #[trigger] st0[a].1 == j;
                    if a >= k {
                        assert(st0[a].0 >= d);
                    }
                    assert(st[a] == st0[a]);
                }
            }
        }
        p
    }

    /// Places the next `FILL_CHUNK` rows (or the rest); gives each placed
    /// row with the row it goes under.
    pub fn step(&mut self) -> (placed: Vec<(usize, Option<usize>)>)
        requires
            old(self).wf(),
        ensures
            final(self).wf(),
            final(self).row_seq() == old(self).row_seq(),
            final(self).placed() == if old(self).placed() + FILL_CHUNK < old(self).row_seq().len() {
                old(self).placed() + FILL_CHUNK
            } else {
                old(self).row_seq().len() as int
            },
            placed@.len() == final(self).placed() - old(self).placed(),
            forall|t: int|
                0 <= t < placed@.len() ==> (#[trigger] placed@[t]).0 == old(self).placed() + t
                    && placed_under(old(self).row_seq(), old(self).placed() + t, placed@[t].1),
    {
        let start = self.next;
        let end = if self.rows.len() - self.next > FILL_CHUNK {
            self.next + FILL_CHUNK
        } else {
            self.rows.len()
        };
        let mut out: Vec<(usize, Option<usize>)> = Vec::new();
        while self.next < end
            invariant
                self.wf(),
                self.rows == old(self).rows,
                start == old(self).next,
                start <= self.next <= end <= self.rows@.len(),
                out@.len() == self.next - start,
                forall|t: int|
                    0 <= t < out@.len() ==> (#[trigger] out@[t]).0 == start + t && placed_under(
                        self.rows@,
                        start + t,
                        out@[t].1,
                    ),
            decreases end - self.next,
        {
            let i = self.next;
            let p = self.place_next();
            out.push((i, p));
        }
        assert forall|t: int| 0 <= t < out@.len() implies (#[trigger] out@[t]).0 == old(self).placed() + t
            && placed_under(old(self).row_seq(), old(self).placed() + t, out@[t].1) by {
            assert(out@[t].0 == start + t);
            assert(placed_under(self.rows@, start + t, out@[t].1));
        }
        out
    }
}

/// The last row before `i` shallower than `d`, or `-1`.
pub open spec fn last_shallower(rows: Seq<FlatRow>, i: int, d: nat) -> int
    decreases i,
{
    if i <= 0 {
        -1
    } else if rows[i - 1].depth < d {
        i - 1
    } else {
        last_shallower(rows, i - 1, d)
    }
}

proof fn lemma_last_shallower(rows: Seq<FlatRow>, i: int, d: nat)
    requires
        0 <= i <= rows.len(),
    ensures
        -1 <= last_shallower(rows, i, d) < i,
        last_shallower(rows, i, d) >= 0 ==> rows[last_shallower(rows, i, d)].depth < d,
        forall|m: int| last_shallower(rows, i, d) < m < i ==> #[trigger] rows[m].depth >= d,
    decreases i,
{
    if i > 0 && rows[i - 1].depth >= d {
        lemma_last_shallower(rows, i - 1, d);
    }
}

/// Rows as their views.
pub open spec fn row_views(rows: Seq<FlatRow>) -> Seq<(Seq<char>, Seq<char>, nat, bool)> {
    rows.map_values(|r: FlatRow| r@)
}

/// Filling the rows of a tree in pre-order puts each row under the row one
/// level up, and only the first row at the top.
pub proof fn law_fill_rebuilds_levels(
    rows: Seq<FlatRow>,
    root: NodeView,
    i: int,
    p: Option<usize>,
)
    requires
        row_views(rows) == flat_rows(root, 0),
        depths_bounded(flat_rows(root, 0)),
        0 <= i < rows.len(),
        placed_under(rows, i, p),
    ensures
        (i == 0) == (p is None),
        p matches Some(j) ==> j < i && rows[j as int].depth + 1 == rows[i].depth,
{
    let v = row_views(rows);
    lemma_flat_rows_shaped(root, 0);
    assert forall|k: int| 0 <= k < rows.len() implies #[trigger] v[k] == rows[k]@ by {}
    let d = rows[i].depth as nat;
    if i == 0 {
        match p {
            Some(j) => {
                assert(open_at(rows, j as int, 0));
            },
            None => {},
        }
    } else {
        assert(v[i].2 > 0);
        assert(v[0].2 == 0);
        lemma_last_shallower(rows, i, d);
        let js = last_shallower(rows, i, d);
        if js < 0 {
            assert(rows[0].depth >= d);
        }
        assert(js >= 0);
        // the row after js is at most one deeper, and deeper only below a container
        assert(v[js + 1].2 <= v[js].2 + 1 && (v[js + 1].2 > v[js].2 ==> v[js].3));
        if js + 1 < i {
            assert(rows[js + 1].depth >= d);
        }
        assert(rows[js].depth + 1 == d);
        assert(rows[js].is_container);
        assert(open_at(rows, js, i)) by {
            assert forall|k: int| js < k < i implies #[trigger] rows[k].depth > rows[js].depth by {
                assert(rows[k].depth >= d);
            }
        }
        match p {
            Some(j) => {
                assert(is_parent_row(rows, j as int, i));
                if (j as int) < js {
                    assert(open_at(rows, js, i));
                    assert(rows[js].depth >= rows[i].depth);
                }
                if (j as int) > js {
                    assert(rows[j as int].depth >= d);
                }
                assert(j as int == js);
            },
            None => {
                assert(rows[js].depth >= rows[i].depth);
            },
        }
    }
}

} // verus!
