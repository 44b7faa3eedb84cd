use jsonviewer::input::{
    grid_double_click_expands, idle_action, large_file_note, route_key, tab_indent_text,
    tree_double_click_expands, Focus,
    IdleAction, KeyEvent, LoopAction, LARGE_FILE_BYTES,
};
use jsonviewer::model::{AppTab, DocumentModel};
use jsonviewer::settings::Settings;

fn down(vk: u32, ctrl: bool, shift: bool) -> KeyEvent {
    KeyEvent::KeyDown { vk, ctrl, alt: false, shift }
}

fn loaded(text: &str) -> DocumentModel {
    let s = Settings::default();
    let mut m = DocumentModel::new(&s);
    m.raw_text = text.to_string();
    assert!(m.parse_and_build_tree(true, &s));
    m
}

#[test]
fn keys_route_by_focus() {
    let v = AppTab::Viewer;
    assert_eq!(route_key(down(0x09, false, false), Focus::Editor, v, false), LoopAction::TabIndent);
    assert_eq!(route_key(down(0x09, false, false), Focus::Tree, v, false), LoopAction::Pass);
    assert_eq!(route_key(down(0x1B, false, false), Focus::SearchEdit, AppTab::Text, false), LoopAction::ClearSearch);
    assert_eq!(route_key(down(0x1B, false, false), Focus::Grid, v, false), LoopAction::ClearSearch);
    assert_eq!(route_key(down(0x1B, false, false), Focus::Grid, AppTab::Text, false), LoopAction::Pass);
    assert_eq!(route_key(down(0x0D, false, false), Focus::SearchEdit, v, false), LoopAction::SearchAdvance(1));
    assert_eq!(route_key(down(0x0D, false, true), Focus::SearchEdit, v, false), LoopAction::SearchAdvance(-1));
    assert_eq!(route_key(down(0x0D, false, false), Focus::SearchGo, v, false), LoopAction::SearchAdvance(0));
    assert_eq!(route_key(down(0x0D, false, false), Focus::SearchPrev, v, false), LoopAction::SearchAdvance(-1));
    assert_eq!(route_key(down(0x0D, false, false), Focus::Tree, v, false), LoopAction::Pass);
    assert_eq!(route_key(down(0x0D, false, true), Focus::Tree, v, true), LoopAction::SearchAdvance(-1));
    assert_eq!(route_key(down(0x0D, false, false), Focus::SearchEdit, AppTab::Text, true), LoopAction::Pass);
    assert_eq!(route_key(down(0x43, true, false), Focus::Editor, v, false), LoopAction::SkipAccelerator);
    assert_eq!(route_key(down(0x58, true, false), Focus::Tree, v, false), LoopAction::Pass);
    assert_eq!(route_key(KeyEvent::Char('/' as u32), Focus::Tree, AppTab::Text, false), LoopAction::FocusSearch);
    assert_eq!(route_key(KeyEvent::Char('?' as u32), Focus::Other, v, false), LoopAction::ShowShortcuts);
    assert_eq!(route_key(KeyEvent::Char('/' as u32), Focus::Editor, v, false), LoopAction::Pass);
    assert_eq!(route_key(KeyEvent::Other, Focus::Editor, v, false), LoopAction::Pass);
}

#[test]
fn tab_inserts_the_indentation() {
    assert_eq!(tab_indent_text(-1), "\t");
    assert_eq!(tab_indent_text(4), "    ");
    assert_eq!(tab_indent_text(0), "");
}

#[test]
fn idle_tick_rereads_small_split_texts_only() {
    let s = Settings::default();
    let mut m = DocumentModel::new(&s);
    m.active_tab = AppTab::Split;
    m.is_dirty = false;
    if m.root.is_some() {
        assert_eq!(idle_action(&m, 10), IdleAction::Nothing);
    } else {
        assert_eq!(idle_action(&m, 10), IdleAction::Reparse);
    }
    m.is_dirty = true;
    assert_eq!(idle_action(&m, 10), IdleAction::Reparse);
    assert_eq!(idle_action(&m, LARGE_FILE_BYTES), IdleAction::Reparse);
    assert_eq!(idle_action(&m, LARGE_FILE_BYTES + 1), IdleAction::LargeFileNote);
    m.active_tab = AppTab::Text;
    assert_eq!(idle_action(&m, 10), IdleAction::Nothing);
    assert_eq!(idle_action(&m, 2_000_000), IdleAction::LargeFileNote);
    m.is_dirty = false;
    assert_eq!(idle_action(&m, 2_000_000), IdleAction::Nothing);
    let m = loaded("[1]");
    let note = large_file_note(&m);
    assert!(note.ends_with("    |    large file — press Refresh to update tree"));
    assert_eq!(note, format!("{}    |    large file — press Refresh to update tree", m.window_status_text(None)));
}

#[test]
fn double_click_opens_long_strings() {
    let long = "y".repeat(60);
    let m = loaded(&format!("{{\"s\": \"x\", \"l\": \"{}\", \"n\": 5, \"t\": \"a\\nb\"}}", long));
    assert!(!tree_double_click_expands(m.find_node("$.s").unwrap()));
    assert!(tree_double_click_expands(m.find_node("$.l").unwrap()));
    assert!(tree_double_click_expands(m.find_node("$.t").unwrap()));
    assert!(!tree_double_click_expands(m.find_node("$.n").unwrap()));
    assert!(grid_double_click_expands(m.find_node("$.l").unwrap()));
    assert!(!grid_double_click_expands(m.find_node("$.s").unwrap()));
    assert!(!grid_double_click_expands(m.find_node("$.n").unwrap()));
}
