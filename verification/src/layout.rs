//! Where the main window puts its controls for a client area of a given
//! size: the toolbar rows, the editor, tree, property grid and full-text
//! panel of the open tab, the search bar, the status and path lines.

use vstd::prelude::*;
use crate::model::tree::AppTab;

verus! {

/// A control's place: left, top, width, height.
#[derive(Clone, Copy, PartialEq, Eq, Structural, Debug)]
pub struct Rect {
    pub x: i32,
    pub y: i32,
    pub w: i32,
    pub h: i32,
}

/// The full-text panel under the tree: header label, Copy and Collapse
/// buttons, and the text.
#[derive(Clone, Copy, PartialEq, Eq, Structural, Debug)]
pub struct ExpandPanel {
    pub label: Rect,
    pub copy: Rect,
    pub collapse: Rect,
    pub text: Rect,
}

/// The search bar: label, field, Go, Previous, Next, and the match status.
#[derive(Clone, Copy, PartialEq, Eq, Structural, Debug)]
pub struct SearchBar {
    pub label: Rect,
    pub field: Rect,
    pub go: Rect,
    pub prev: Rect,
    pub next: Rect,
    pub status: Rect,
}

/// The places of the main window's controls; a control without a place
/// is hidden.
#[derive(Clone, Copy, PartialEq, Eq, Structural, Debug)]
pub struct WindowLayout {
    pub utils_x: i32,
    pub text_row: bool,
    pub editor: Option<Rect>,
    pub tree: Option<Rect>,
    pub grid: Option<Rect>,
    pub expand: Option<ExpandPanel>,
    pub search: Option<SearchBar>,
    pub status: Rect,
    pub path: Rect,
}

/// Height of a toolbar row, and where the two rows start.
pub const ROW_H: i32 = 26;
pub const ROW1_Y: i32 = 4;
pub const ROW2_Y: i32 = 34;

pub open spec fn imax(a: int, b: int) -> int {
    if a >= b {
        a
    } else {
        b
    }
}

pub open spec fn imin(a: int, b: int) -> int {
    if a <= b {
        a
    } else {
        b
    }
}

/// `a / b` rounded toward zero, as integer division does.
pub open spec fn tdiv(a: int, b: int) -> int {
    if a >= 0 {
        a / b
    } else {
        -((-a) / b)
    }
}

/// Where the controls of a toolbar row go: each after the one before it
/// and a gap of 4.
pub open spec fn bar_x(widths: Seq<i32>, x0: int, k: int) -> int
    decreases k,
{
    if k <= 0 {
        x0
    } else {
        bar_x(widths, x0, k - 1) + widths[k - 1] + 4
    }
}

/// The left edge of each control of a toolbar row that starts at `x0`;
/// every edge must fit in an `i32`.
pub fn bar_positions(widths: &Vec<i32>, x0: i32) -> (r: Vec<i32>)
    requires
        forall|k: int|
            0 <= k < widths@.len() ==> i32::MIN <= #[trigger] bar_x(widths@, x0 as int, k)
                <= i32::MAX,
    ensures
        r@.len() == widths@.len(),
        forall|k: int| 0 <= k < r@.len() ==> #[trigger] r@[k] == bar_x(widths@, x0 as int, k),
{
    let mut out: Vec<i32> = Vec::new();
    let mut x = x0;
    let mut i: usize = 0;
    while i < widths.len()
        invariant
            i <= widths@.len(),
            forall|k: int|
                0 <= k < widths@.len() ==> i32::MIN <= #[trigger] bar_x(widths@, x0 as int, k)
                    <= i32::MAX,
            i < widths@.len() ==> x == bar_x(widths@, x0 as int, i as int),
            out@.len() == i,
            forall|k: int| 0 <= k < i ==> #[trigger] out@[k] == bar_x(widths@, x0 as int, k),
        decreases widths@.len() - i,
    {
        out.push(x);
        if i + 1 < widths.len() {
            let next: i64 = x as i64 + widths[i] as i64 + 4;
            assert(next == bar_x(widths@, x0 as int, i + 1));
            x = next as i32;
        }
        i = i + 1;
    }
    out
}

/// The widths of the grid's Property, Value and Type columns for a grid
/// `w` wide; nothing for a grid of 60 or less.
pub open spec fn grid_columns(w: int) -> Option<(int, int, int)> {
    if w <= 60 {
        None
    } else {
        let prop = imax(w * 36 / 100, 120);
        let val = imax(w * 44 / 100, 120);
        Some((prop, val, imax(w - prop - val, 70)))
    }
}

/// The column widths of a grid `w` wide.
pub fn grid_column_widths(w: i32) -> (r: Option<(i32, i32, i32)>)
    requires
        w * 44 <= i32::MAX,
    ensures
        match grid_columns(w as int) {
            Some((p, v, t)) => r == Some((p as i32, v as i32, t as i32)),
            None => r is None,
        },
{
    if w <= 60 {
        return None;
    }
    let p0 = w * 36 / 100;
    let prop = if p0 > 120 {
        p0
    } else {
        120
    };
    let v0 = w * 44 / 100;
    let val = if v0 > 120 {
        v0
    } else {
        120
    };
    let t0 = w - prop - val;
    let typ = if t0 > 70 {
        t0
    } else {
        70
    };
    Some((prop, val, typ))
}

/// Where the tree and, below it, the full-text panel go in a column at
/// `x`, `w` wide, from `top`, with `tree_h` for the tree and `expand_h`
/// for the panel.
pub open spec fn expand_panel(x: int, w: int, top: int, tree_h: int, expand_h: int) -> ExpandPanel {
    let ey = top + tree_h + 8;
    let label_w = imax(w - 70 - 80 - 16, 80);
    ExpandPanel {
        label: Rect { x: x as i32, y: ey as i32, w: label_w as i32, h: 24 },
        copy: Rect { x: (x + label_w + 6) as i32, y: ey as i32, w: 70, h: 24 },
        collapse: Rect { x: (x + label_w + 6 + 70 + 4) as i32, y: ey as i32, w: 80, h: 24 },
        text: Rect { x: x as i32, y: (ey + 26) as i32, w: w as i32, h: imax(expand_h - 28, 40) as i32 },
    }
}

/// The layout of the main window for a client area `w` by `h`, the open
/// tab, whether the property grid and the full-text panel show, and the
/// total width `utils_w` of the right-hand toolbar buttons.
pub open spec fn layout_of(
    w: int,
    h: int,
    tab: AppTab,
    props: bool,
    expand_on: bool,
    utils_w: int,
) -> WindowLayout {
    let content_y = ROW2_Y + ROW_H + 6;
    let search_visible = tab != AppTab::Text;
    let bottom = 24 + 22 + if search_visible {
        30int
    } else {
        0int
    };
    let content_h = imax(h - content_y - bottom, 60);
    let expand_h = if expand_on && tab != AppTab::Text {
        imin(imin(imax(content_h * 35 / 100, 120), 260), imax(content_h - 80, 80))
    } else {
        0
    };
    let tree_h = if expand_on && tab != AppTab::Text {
        imax(content_h - expand_h - 8, 60)
    } else {
        content_h
    };
    let edit_w = tdiv((w - 24) * 40, 100);
    let rest_x = 16 + edit_w;
    let rest_w = w - 8 - rest_x;
    let (tree_x, tree_w, grid) = match tab {
        AppTab::Text => (0, 0, None::<Rect>),
        AppTab::Viewer => if props {
            let tw = tdiv((w - 24) * 68, 100);
            (8, tw, Some(Rect { x: (16 + tw) as i32, y: content_y as i32, w: (w - 24 - tw) as i32, h: content_h as i32 }))
        } else {
            (8, w - 16, None)
        },
        AppTab::Split => if props {
            let tw = tdiv(rest_w * 65, 100);
            (rest_x, tw, Some(Rect { x: (rest_x + tw + 8) as i32, y: content_y as i32, w: (rest_w - tw - 8) as i32, h: content_h as i32 }))
        } else {
            (rest_x, rest_w, None)
        },
    };
    let sy = content_y + content_h + 2;
    let stat_y = sy + if search_visible {
        30int
    } else {
        4int
    };
    WindowLayout {
        utils_x: imax(w - 8 - utils_w, 300) as i32,
        text_row: tab != AppTab::Viewer,
        editor: match tab {
            AppTab::Text => Some(Rect { x: 8, y: content_y as i32, w: (w - 16) as i32, h: content_h as i32 }),
            AppTab::Split => Some(Rect { x: 8, y: content_y as i32, w: edit_w as i32, h: content_h as i32 }),
            AppTab::Viewer => None,
        },
        tree: if tab == AppTab::Text {
            None
        } else {
            Some(Rect { x: tree_x as i32, y: content_y as i32, w: tree_w as i32, h: tree_h as i32 })
        },
        grid,
        expand: if expand_on && tab != AppTab::Text {
            Some(expand_panel(tree_x, tree_w, content_y, tree_h, expand_h))
        } else {
            None
        },
        search: if search_visible {
            Some(
                SearchBar {
                    label: Rect { x: 8, y: sy as i32, w: 60, h: 24 },
                    field: Rect { x: 70, y: sy as i32, w: 260, h: 24 },
                    go: Rect { x: 336, y: sy as i32, w: 60, h: 24 },
                    prev: Rect { x: 402, y: sy as i32, w: 80, h: 24 },
                    next: Rect { x: 488, y: sy as i32, w: 70, h: 24 },
                    status: Rect { x: 566, y: sy as i32, w: (w - 574) as i32, h: 24 },
                },
            )
        } else {
            None
        },
        status: Rect { x: 8, y: stat_y as i32, w: (w - 16) as i32, h: 22 },
        path: Rect { x: 8, y: (stat_y + 22) as i32, w: (w - 16) as i32, h: 20 },
    }
}

/// The largest client area the layout is computed for, in either
/// direction.
pub const MAX_EXTENT: i32 = 10000000;

fn expand_panel_exec(x: i32, w: i32, top: i32, tree_h: i32, expand_h: i32) -> (r: ExpandPanel)
    requires
        -MAX_EXTENT <= x <= MAX_EXTENT,
        -MAX_EXTENT <= w <= MAX_EXTENT,
        -MAX_EXTENT <= top <= MAX_EXTENT,
        -MAX_EXTENT <= tree_h <= MAX_EXTENT,
        -MAX_EXTENT <= expand_h <= MAX_EXTENT,
    ensures
        r == expand_panel(x as int, w as int, top as int, tree_h as int, expand_h as int),
{
    let ey = top + tree_h + 8;
    let l0 = w - 70 - 80 - 16;
    let label_w = if l0 > 80 {
        l0
    } else {
        80
    };
    let t0 = expand_h - 28;
    let text_h = if t0 > 40 {
        t0
    } else {
        40
    };
    ExpandPanel {
        label: Rect { x, y: ey, w: label_w, h: 24 },
        copy: Rect { x: x + label_w + 6, y: ey, w: 70, h: 24 },
        collapse: Rect { x: x + label_w + 6 + 70 + 4, y: ey, w: 80, h: 24 },
        text: Rect { x, y: ey + 26, w, h: text_h },
    }
}

/// `a / 100` rounded toward zero.
fn tdiv100(a: i32) -> (r: i32)
    requires
        a > i32::MIN,
    ensures
        r == tdiv(a as int, 100),
{
    if a >= 0 {
        a / 100
    } else {
        -((-a) / 100)
    }
}

/// The layout of the main window; see `layout_of`.
pub fn window_layout(w: i32, h: i32, tab: AppTab, props: bool, expand_on: bool, utils_w: i32) -> (r:
    WindowLayout)
    requires
        0 <= w <= MAX_EXTENT,
        0 <= h <= MAX_EXTENT,
        0 <= utils_w <= MAX_EXTENT,
    ensures
        r == layout_of(w as int, h as int, tab, props, expand_on, utils_w as int),
{
    let content_y: i32 = ROW2_Y + ROW_H + 6;
    let search_visible = tab != AppTab::Text;
    let bottom: i32 = 24 + 22 + if search_visible {
        30
    } else {
        0
    };
    let c0 = h - content_y - bottom;
    let content_h = if c0 > 60 {
        c0
    } else {
        60
    };
    let panel = expand_on && tab != AppTab::Text;
    let expand_h = if panel {
        let a0 = content_h * 35 / 100;
        let a1 = if a0 > 120 {
            a0
        } else {
            120
        };
        let a2 = if a1 < 260 {
            a1
        } else {
            260
        };
        let b0 = content_h - 80;
        let b1 = if b0 > 80 {
            b0
        } else {
            80
        };
        if a2 < b1 {
            a2
        } else {
            b1
        }
    } else {
        0
    };
    let tree_h = if panel {
        let t0 = content_h - expand_h - 8;
        if t0 > 60 {
            t0
        } else {
            60
        }
    } else {
        content_h
    };
    let edit_w = tdiv100((w - 24) * 40);
    let rest_x = 16 + edit_w;
    let rest_w = w - 8 - rest_x;
    let (tree_x, tree_w, grid) = match tab {
        AppTab::Text => (0, 0, None),
        AppTab::Viewer => if props {
            let tw = tdiv100((w - 24) * 68);
            (8, tw, Some(Rect { x: 16 + tw, y: content_y, w: w - 24 - tw, h: content_h }))
        } else {
            (8, w - 16, None)
        },
        AppTab::Split => if props {
            let tw = tdiv100(rest_w * 65);
            (rest_x, tw, Some(Rect { x: rest_x + tw + 8, y: content_y, w: rest_w - tw - 8, h: content_h }))
        } else {
            (rest_x, rest_w, None)
        },
    };
    let sy = content_y + content_h + 2;
    let stat_y = sy + if search_visible {
        30
    } else {
        4
    };
    let u0 = w - 8 - utils_w;
    let utils_x = if u0 > 300 {
        u0
    } else {
        300
    };
    let editor = match tab {
        AppTab::Text => Some(Rect { x: 8, y: content_y, w: w - 16, h: content_h }),
        AppTab::Split => Some(Rect { x: 8, y: content_y, w: edit_w, h: content_h }),
        AppTab::Viewer => None,
    };
    let tree = if tab == AppTab::Text {
        None
    } else {
        Some(Rect { x: tree_x, y: content_y, w: tree_w, h: tree_h })
    };
    let expand = if panel {
        Some(expand_panel_exec(tree_x, tree_w, content_y, tree_h, expand_h))
    } else {
        None
    };
    let search = if search_visible {
        Some(
            SearchBar {
                label: Rect { x: 8, y: sy, w: 60, h: 24 },
                field: Rect { x: 70, y: sy, w: 260, h: 24 },
                go: Rect { x: 336, y: sy, w: 60, h: 24 },
                prev: Rect { x: 402, y: sy, w: 80, h: 24 },
                next: Rect { x: 488, y: sy, w: 70, h: 24 },
                status: Rect { x: 566, y: sy, w: w - 574, h: 24 },
            },
        )
    } else {
        None
    };
    WindowLayout {
        utils_x,
        text_row: tab != AppTab::Viewer,
        editor,
        tree,
        grid,
        expand,
        search,
        status: Rect { x: 8, y: stat_y, w: w - 16, h: 22 },
        path: Rect { x: 8, y: stat_y + 22, w: w - 16, h: 20 },
    }
}

} // verus!
