use jsonviewer::layout::{bar_positions, grid_column_widths, window_layout, ExpandPanel, Rect};
use jsonviewer::model::AppTab;

fn r(x: i32, y: i32, w: i32, h: i32) -> Rect {
    Rect { x, y, w, h }
}

#[test]
fn viewer_layout_splits_tree_and_grid() {
    let l = window_layout(1000, 800, AppTab::Viewer, true, false, 200);
    assert_eq!(l.utils_x, 792);
    assert!(!l.text_row);
    assert_eq!(l.editor, None);
    assert_eq!(l.tree, Some(r(8, 66, 663, 658)));
    assert_eq!(l.grid, Some(r(679, 66, 313, 658)));
    assert_eq!(l.expand, None);
    let s = l.search.unwrap();
    assert_eq!(s.field, r(70, 726, 260, 24));
    assert_eq!(s.status, r(566, 726, 426, 24));
    assert_eq!(l.status, r(8, 756, 984, 22));
    assert_eq!(l.path, r(8, 778, 984, 20));
}

#[test]
fn split_layout_with_text_panel() {
    let l = window_layout(1000, 800, AppTab::Split, false, true, 0);
    assert!(l.text_row);
    assert_eq!(l.editor, Some(r(8, 66, 390, 658)));
    assert_eq!(l.tree, Some(r(406, 66, 586, 420)));
    assert_eq!(l.grid, None);
    assert_eq!(
        l.expand,
        Some(ExpandPanel {
            label: r(406, 494, 420, 24),
            copy: r(832, 494, 70, 24),
            collapse: r(906, 494, 80, 24),
            text: r(406, 520, 586, 202),
        })
    );
}

#[test]
fn text_layout_hides_tree_and_search() {
    let l = window_layout(500, 300, AppTab::Text, true, true, 100);
    assert_eq!(l.editor, Some(r(8, 66, 484, 188)));
    assert_eq!(l.tree, None);
    assert_eq!(l.grid, None);
    assert_eq!(l.expand, None);
    assert!(l.search.is_none());
    assert_eq!(l.status, r(8, 260, 484, 22));
    assert_eq!(l.utils_x, 392);
}

#[test]
fn toolbar_rows_and_grid_columns() {
    assert_eq!(bar_positions(&vec![50, 60, 10], 8), vec![8, 62, 126]);
    assert_eq!(grid_column_widths(50), None);
    assert_eq!(grid_column_widths(1000), Some((360, 440, 200)));
    assert_eq!(grid_column_widths(200), Some((120, 120, 70)));
}
