use jsonviewer::model::AppTab;
use jsonviewer::settings::Settings;
use jsonviewer::viewer::{
    button_colors, filter_shortcuts, shortcut_list, tab_switch_action, tree_menu_items, Effect, Key,
    MenuItem, Start, TabAction, Transform, ViewerApp, DARK_ACCENT_BG, DARK_BTN, DARK_DIM_TEXT,
    DARK_TEXT,
};

fn viewer(text: &str) -> ViewerApp {
    ViewerApp::new(Settings::default(), Start::Text(text.to_string()))
}

#[test]
fn viewer_starts_on_the_given_text() {
    let v = viewer("{\"a\": [1, 2]}");
    assert_eq!(v.doc.raw_text, "{\"a\": [1, 2]}");
    assert_eq!(v.editor_text, v.doc.raw_text);
    assert_eq!(v.split_text, v.doc.raw_text);
    assert!(v.doc.root.is_some());
    assert!(v.show_props && v.show_search && !v.initialized);
    let blank = ViewerApp::new(Settings::default(), Start::Text("   ".to_string()));
    assert!(blank.doc.raw_text.starts_with("{\n  \"title\""));
    let file = ViewerApp::new(Settings::default(), Start::File("[true]".to_string()));
    assert_eq!(file.doc.raw_text, "[true]");
}

#[test]
fn first_frame_opens_the_default_tab() {
    let mut s = Settings::default();
    s.default_tab = "Split".to_string();
    let mut v = ViewerApp::new(s, Start::Sample);
    v.first_frame();
    assert!(v.initialized);
    assert_eq!(v.doc.active_tab, AppTab::Split);
    v.doc.active_tab = AppTab::Viewer;
    v.first_frame();
    assert_eq!(v.doc.active_tab, AppTab::Viewer);
}

#[test]
fn transforms_update_editors_or_report_errors() {
    let mut v = viewer("{\"a\":1}");
    v.apply_transform("format");
    assert_eq!(v.doc.raw_text, "{\n  \"a\": 1\n}");
    assert_eq!(v.editor_text, v.doc.raw_text);
    v.apply_transform("minify");
    assert_eq!(v.split_text, "{\"a\":1}");
    v.apply_transform("j2p");
    assert_eq!(v.editor_text, "{\n  'a': 1\n}");
    v.apply_transform("p2j");
    assert_eq!(v.editor_text, "{\n  \"a\": 1\n}");
    v.apply_transform("stringify");
    assert!(v.editor_text.starts_with('"'));
    v.apply_transform("unescape");
    assert_eq!(v.editor_text, "{\n  \"a\": 1\n}");
    let before = v.editor_text.clone();
    v.apply_transform("nothing");
    assert_eq!(v.editor_text, before);
    v.run_transform(Transform::Minify);
    assert_eq!(v.editor_text, "{\"a\":1}");
    let mut bad = viewer("{oops");
    bad.apply_transform("minify");
    assert!(bad.toast.as_deref().unwrap().starts_with("Invalid JSON ("));
    assert_eq!(bad.editor_text, "{oops");
}

#[test]
fn keys_switch_tabs_zoom_and_toggle_panels() {
    let mut v = viewer("{\"a\": {\"b\": 1}}");
    assert_eq!(v.handle_key(Key::Num2, true, false, false, false), Effect::Nothing);
    assert_eq!(v.doc.active_tab, AppTab::Text);
    assert_eq!(v.handle_key(Key::Num1, true, false, false, false), Effect::Nothing);
    assert_eq!(v.doc.active_tab, AppTab::Viewer);
    assert_eq!(v.handle_key(Key::Plus, true, false, false, false), Effect::SaveSettings);
    assert_eq!(v.settings.font_size, 14);
    assert_eq!(v.handle_key(Key::Num0, true, false, false, false), Effect::SaveSettings);
    assert_eq!(v.settings.font_size, 12);
    assert_eq!(v.handle_key(Key::O, true, false, false, false), Effect::OpenFile);
    assert_eq!(v.handle_key(Key::S, true, false, false, false), Effect::SaveFile);
    let props = v.show_props;
    v.handle_key(Key::P, true, false, true, false);
    assert_eq!(v.show_props, !props);
    v.handle_key(Key::E, true, false, false, false);
    assert!(v.doc.expanded_nodes.contains("$.a"));
    v.handle_key(Key::E, true, true, false, false);
    assert!(!v.doc.expanded_nodes.contains("$.a"));
    v.handle_key(Key::Slash, false, true, false, false);
    assert!(v.show_search && v.focus_search && v.show_shortcuts);
    v.handle_key(Key::Escape, false, false, false, false);
    assert!(!v.show_shortcuts);
    v.handle_key(Key::Escape, false, false, false, false);
    assert!(!v.show_search);
    v.handle_key(Key::Comma, true, false, false, false);
    assert!(v.show_settings);
    let before = v.settings.font_size;
    v.handle_key(Key::Plus, false, false, false, true);
    assert_eq!(v.settings.font_size, before);
}

#[test]
fn search_field_enter_button_and_escape() {
    let mut v = viewer("{\"x\": \"hit\", \"y\": \"hit\"}");
    v.search_input = "hit".to_string();
    v.search_enter(false);
    assert_eq!(v.doc.search_status, "1 of 2 matches");
    v.search_enter(false);
    assert_eq!(v.doc.search_status, "2 of 2 matches");
    v.search_button();
    assert_eq!(v.doc.search_status, "1 of 2 matches");
    v.search_enter(true);
    assert_eq!(v.doc.search_status, "2 of 2 matches");
    v.handle_key(Key::G, true, true, false, false);
    assert_eq!(v.doc.search_status, "1 of 2 matches");
    v.search_field_escape();
    assert!(v.search_input.is_empty() && v.doc.search_results.is_empty());
    v.search_field_escape();
    assert!(!v.show_search);
}

#[test]
fn edits_are_reread_after_a_pause() {
    let mut v = viewer("[1]");
    v.editor_text = "[1, 2]".to_string();
    v.text_edited();
    assert!(v.pending_reparse && v.doc.is_dirty);
    assert_eq!(v.doc.raw_text, "[1, 2]");
    v.reparse_if_due(100);
    assert!(v.pending_reparse);
    v.reparse_if_due(400);
    assert!(v.pending_reparse);
    v.reparse_if_due(601);
    assert!(!v.pending_reparse);
    assert_eq!(v.doc.root.as_ref().unwrap().children.len(), 2);
    v.split_text = "[3]".to_string();
    v.split_edited();
    assert_eq!(v.editor_text, "[3]");
    v.doc.active_tab = AppTab::Text;
    v.sync_tab();
    assert_eq!(v.last_tab, AppTab::Text);
}

#[test]
fn pasting_copying_and_files_report_what_happened() {
    let mut v = viewer("[]");
    v.paste_from_clipboard(None);
    assert_eq!(v.toast.as_deref(), Some("Clipboard is empty"));
    v.paste_from_clipboard(Some("{'a': True}".to_string()));
    assert_eq!(v.toast.as_deref(), Some("Pasted Python dict — converted to JSON"));
    assert_eq!(v.editor_text, "{\n  \"a\": true\n}");
    v.paste_from_clipboard(Some("[5]".to_string()));
    assert_eq!(v.toast.as_deref(), Some("Pasted"));
    v.show_toast("hello".to_string());
    assert_eq!(v.toast.as_deref(), Some("hello"));
    v.copied("Value", "x", false);
    assert_eq!(v.toast.as_deref(), Some("Value — copied!"));
    v.copied("Value", "", false);
    assert_eq!(v.toast.as_deref(), Some("Value — copy failed"));
    v.expire_toast(2);
    assert!(v.toast.is_some());
    v.expire_toast(4);
    assert!(v.toast.is_none());
    v.file_opened("a.json", "{\"k\": 1}".to_string());
    assert_eq!(v.toast.as_deref(), Some("Opened a.json"));
    assert_eq!(v.editor_text, "{\"k\": 1}");
    v.doc.is_dirty = true;
    v.file_saved("b.json");
    assert!(!v.doc.is_dirty);
    assert_eq!(v.toast.as_deref(), Some("Saved b.json"));
}

#[test]
fn shortcut_cheatsheet_filters() {
    assert_eq!(shortcut_list().len(), 17);
    let zoom = filter_shortcuts("ZOOM");
    assert_eq!(zoom, vec![("Ctrl+Plus / Ctrl+Minus", "Zoom in / Zoom out"), ("Ctrl+0", "Reset zoom (12pt)")]);
    assert_eq!(filter_shortcuts("").len(), 17);
    assert_eq!(filter_shortcuts("ctrl+shift+e"), vec![("Ctrl+Shift+E", "Collapse all nodes")]);
    assert!(filter_shortcuts("nope").is_empty());
}

#[test]
fn tree_context_menus_depend_on_the_node() {
    let long = "z".repeat(60);
    let v = viewer(&format!("{{\"o\": {{\"a\": 1}}, \"t\": \"{}\", \"n\": 1}}", long));
    let copies = [
        MenuItem::CopyValue,
        MenuItem::CopyKey,
        MenuItem::CopyPath,
        MenuItem::CopySubtree,
        MenuItem::CopyPython,
    ];
    let o = tree_menu_items(&v.doc, "$.o", false, &None);
    assert_eq!(&o[..3], &[MenuItem::ExpandSubtree, MenuItem::Collapse, MenuItem::Separator]);
    assert_eq!(&o[3..], &copies);
    let t = tree_menu_items(&v.doc, "$.t", false, &None);
    assert_eq!(t[0], MenuItem::ExpandFullText);
    let t2 = tree_menu_items(&v.doc, "$.t", true, &Some("$.t".to_string()));
    assert_eq!(t2[0], MenuItem::CollapseFullText);
    assert_eq!(t2[0].label(), "Collapse Full Text");
    let n = tree_menu_items(&v.doc, "$.n", false, &None);
    assert_eq!(n, copies.to_vec());
    assert_eq!(MenuItem::CopyPython.label(), "Copy as Python Dictionary");
    assert_eq!(MenuItem::Separator.label(), "");
}

#[test]
fn tab_switches_and_button_colours() {
    assert_eq!(tab_switch_action(AppTab::Text, true, true, true, false), TabAction::CancelFill);
    assert_eq!(tab_switch_action(AppTab::Viewer, true, true, true, true), TabAction::Reparse);
    assert_eq!(tab_switch_action(AppTab::Split, false, false, false, true), TabAction::Reparse);
    assert_eq!(tab_switch_action(AppTab::Viewer, false, true, true, false), TabAction::KeepFilling);
    assert_eq!(tab_switch_action(AppTab::Viewer, false, true, false, false), TabAction::RestartFill);
    assert_eq!(tab_switch_action(AppTab::Split, false, true, false, true), TabAction::Nothing);
    assert_eq!(button_colors(true, true, true), (DARK_BTN, DARK_DIM_TEXT));
    assert_eq!(button_colors(false, false, true), (DARK_ACCENT_BG, DARK_TEXT));
    assert_eq!(button_colors(false, false, false), (DARK_BTN, DARK_TEXT));
    assert_eq!(button_colors(false, true, false).0, 0x094771);
}
