//! What the viewer window decides: the effect of key presses, edits,
//! transform buttons, pasting and copying on the document and on the
//! window's own state. Drawing, timers, files and the clipboard stay with
//! the window toolkit, which hands their results in as plain values.

use vstd::prelude::*;
use crate::model::document::{DocumentModel, fresh, loaded_text, rebuild, metrics_for, metrics_of,
    started, next_step, previous_step, beautified, minified, stringified, unescaped_doc,
    pythonized, from_python, pasted, all_expanded, all_collapsed, search_cleared, edited,
    root_view};
use crate::model::tree::{AppTab, tab_named, find_spec, is_long_text_of};
use crate::settings::{Settings, zoomed_font};
use crate::text::{copy_string, to_owned_string, push_str, trim_seq, trim_string, char_count, seq_eq,
    lowercase, occurs_in, to_lowercase, chars_of, contains_chars};

verus! {

/// How the window starts: on the sample document, on the text of a file,
/// or on text given in place of a file.
pub enum Start {
    Sample,
    File(String),
    Text(String),
}

/// The window's state around its document.
pub struct ViewerApp {
    pub doc: DocumentModel,
    pub settings: Settings,
    pub editor_text: String,
    pub split_text: String,
    pub search_input: String,
    pub show_props: bool,
    pub show_search: bool,
    pub show_settings: bool,
    pub show_shortcuts: bool,
    pub show_about: bool,
    pub prop_filter: String,
    pub shortcut_filter: String,
    pub toast: Option<String>,
    pub pending_reparse: bool,
    pub focus_search: bool,
    pub initialized: bool,
    pub last_tab: AppTab,
}

/// The text editors of `a` and `b` are the same, and so is whether a
/// reread is due.
pub open spec fn same_editors(a: ViewerApp, b: ViewerApp) -> bool {
    a.editor_text == b.editor_text && a.split_text == b.split_text && a.pending_reparse
        == b.pending_reparse
}

/// The panels and dialogs of `a` and `b` are in the same state.
pub open spec fn same_panels(a: ViewerApp, b: ViewerApp) -> bool {
    &&& a.show_props == b.show_props
    &&& a.show_search == b.show_search
    &&& a.show_settings == b.show_settings
    &&& a.show_shortcuts == b.show_shortcuts
    &&& a.show_about == b.show_about
    &&& a.focus_search == b.focus_search
}

/// The input fields of `a` and `b` hold the same text.
pub open spec fn same_inputs(a: ViewerApp, b: ViewerApp) -> bool {
    a.search_input == b.search_input && a.prop_filter == b.prop_filter && a.shortcut_filter
        == b.shortcut_filter
}

/// The frame bookkeeping of `a` and `b` is the same.
pub open spec fn same_frame(a: ViewerApp, b: ViewerApp) -> bool {
    a.initialized == b.initialized && a.last_tab == b.last_tab
}

/// Both editors of `b` show its document's text and no reread is due.
pub open spec fn editors_synced(b: ViewerApp) -> bool {
    b.editor_text@ == b.doc.raw_text@ && b.split_text@ == b.doc.raw_text@ && !b.pending_reparse
}

/// The message shown after copying `text` under `label`.
pub open spec fn copy_message(label: Seq<char>, text: Seq<char>, ok: bool) -> Seq<char> {
    if ok || text.len() > 0 {
        label + " — copied!"@
    } else {
        label + " — copy failed"@
    }
}

impl ViewerApp {
    /// The window's state at start: a new document, then the file's text
    /// or the given text read into it; both editors show the text, the
    /// property and search panels are open.
    pub fn new(settings: Settings, start: Start) -> (v: ViewerApp)
        ensures
            exists|d0: DocumentModel|
                #[trigger] fresh(d0, settings) && match start {
                    Start::Sample => v.doc == d0,
                    Start::File(t) => loaded_text(d0, v.doc, t@, settings),
                    Start::Text(t) => if trim_seq(t@).len() == 0 {
                        v.doc == d0
                    } else {
                        rebuild(t@, metrics_for(t@), d0, v.doc, true, settings)
                    },
                },
            v.settings == settings,
            v.editor_text@ == v.doc.raw_text@,
            v.split_text@ == v.doc.raw_text@,
            v.search_input@.len() == 0,
            v.show_props,
            v.show_search,
            !v.show_settings,
            !v.show_shortcuts,
            !v.show_about,
            v.prop_filter@.len() == 0,
            v.shortcut_filter@.len() == 0,
            v.toast is None,
            !v.pending_reparse,
            !v.focus_search,
            !v.initialized,
            v.last_tab == v.doc.active_tab,
    {
        let mut doc = DocumentModel::new(&settings);
        let ghost d0 = doc;
        match start {
            Start::Sample => {},
            Start::File(t) => {
                doc.load_text(t, &settings);
            },
            Start::Text(t) => {
                let trimmed = trim_string(t.as_str());
                if char_count(trimmed.as_str()) > 0 {
                    doc.raw_text = t;
                    doc.update_metrics();
                    doc.parse_and_build_tree(true, &settings);
                }
            },
        }
        let editor_text = copy_string(&doc.raw_text);
        let split_text = copy_string(&doc.raw_text);
        let initial_tab = doc.active_tab;
        let v = ViewerApp {
            doc,
            settings,
            editor_text,
            split_text,
            search_input: String::new(),
            show_props: true,
            show_search: true,
            show_settings: false,
            show_shortcuts: false,
            show_about: false,
            prop_filter: String::new(),
            shortcut_filter: String::new(),
            toast: None,
            pending_reparse: false,
            focus_search: false,
            initialized: false,
            last_tab: initial_tab,
        };
        assert(fresh(d0, v.settings));
        v
    }

    /// On the first frame, opens the tab the settings name.
    pub fn first_frame(&mut self)
        ensures
            old(self).initialized ==> *final(self) == *old(self),
            !old(self).initialized ==> *final(self) == (ViewerApp {
                initialized: true,
                doc: DocumentModel { active_tab: tab_named(old(self).settings.default_tab@), ..old(self).doc },
                ..*old(self)
            }),
    {
        if !self.initialized {
            self.initialized = true;
            self.doc.active_tab = AppTab::from_settings(self.settings.default_tab.as_str());
        }
    }

    /// Shows the document's text in both editors; no reread is due.
    pub fn sync_editors_from_doc(&mut self)
        ensures
            editors_synced(*final(self)),
            final(self).doc == old(self).doc,
            final(self).settings == old(self).settings,
            final(self).toast == old(self).toast,
            same_panels(*old(self), *final(self)),
            same_inputs(*old(self), *final(self)),
            same_frame(*old(self), *final(self)),
    {
        self.editor_text = copy_string(&self.doc.raw_text);
        self.split_text = copy_string(&self.doc.raw_text);
        self.pending_reparse = false;
    }

    /// Shows the message `msg` in the status bar.
    pub fn show_toast(&mut self, msg: String)
        ensures
            final(self).toast == Some(msg),
            final(self).doc == old(self).doc,
            final(self).settings == old(self).settings,
            same_editors(*old(self), *final(self)),
            same_panels(*old(self), *final(self)),
            same_inputs(*old(self), *final(self)),
            same_frame(*old(self), *final(self)),
    {
        self.toast = Some(msg);
    }

    /// Takes the message away once it has been shown for more than three
    /// seconds.
    pub fn expire_toast(&mut self, shown_for_secs: u64)
        ensures
            final(self).toast == if shown_for_secs > 3 {
                None
            } else {
                old(self).toast
            },
            final(self).doc == old(self).doc,
            final(self).settings == old(self).settings,
            same_editors(*old(self), *final(self)),
            same_panels(*old(self), *final(self)),
            same_inputs(*old(self), *final(self)),
            same_frame(*old(self), *final(self)),
    {
        if shown_for_secs > 3 {
            self.toast = None;
        }
    }

    /// Reports a copy of `text` under `label`: copied where the clipboard
    /// took it or there was something to copy, failed otherwise.
    pub fn copied(&mut self, label: &str, text: &str, ok: bool)
        ensures
            final(self).toast matches Some(t) && t@ == copy_message(label@, text@, ok),
            final(self).doc == old(self).doc,
            final(self).settings == old(self).settings,
            same_editors(*old(self), *final(self)),
            same_panels(*old(self), *final(self)),
            same_inputs(*old(self), *final(self)),
            same_frame(*old(self), *final(self)),
    {
        let mut msg = to_owned_string(label);
        if ok || char_count(text) > 0 {
            push_str(&mut msg, " — copied!");
        } else {
            push_str(&mut msg, " — copy failed");
        }
        self.toast = Some(msg);
    }
}

/// `d` is `a` with the search query `q`.
pub open spec fn with_query(a: DocumentModel, d: DocumentModel, q: Seq<char>) -> bool {
    d.search_query@ == q && d == (DocumentModel { search_query: d.search_query, ..a })
}

/// Only the document of `a` and `b` may differ.
pub open spec fn only_doc(a: ViewerApp, b: ViewerApp) -> bool {
    &&& b.settings == a.settings
    &&& b.toast == a.toast
    &&& same_editors(a, b)
    &&& same_panels(a, b)
    &&& same_inputs(a, b)
    &&& same_frame(a, b)
}

/// What follows a transform that gave `r`: the editors show the new text,
/// or the error is shown and the editors stay.
pub open spec fn after_transform(a: ViewerApp, b: ViewerApp, r: Result<(), String>) -> bool {
    &&& match r {
        Ok(_) => editors_synced(b) && b.toast == a.toast,
        Err(e) => (b.toast matches Some(t) && t@ == e@) && same_editors(a, b),
    }
    &&& b.settings == a.settings
    &&& same_panels(a, b)
    &&& same_inputs(a, b)
    &&& same_frame(a, b)
}

/// A transform the window offers.
#[derive(Clone, Copy, PartialEq, Eq, Structural, Debug)]
pub enum Transform {
    Format,
    Minify,
    ToPython,
    FromPython,
    Stringify,
    Unescape,
}

/// The transform a button name stands for: `format`, `minify`, `j2p`,
/// `p2j`, `stringify`, `unescape`.
pub open spec fn transform_named(kind: Seq<char>) -> Option<Transform> {
    if kind == "format"@ {
        Some(Transform::Format)
    } else if kind == "minify"@ {
        Some(Transform::Minify)
    } else if kind == "j2p"@ {
        Some(Transform::ToPython)
    } else if kind == "p2j"@ {
        Some(Transform::FromPython)
    } else if kind == "stringify"@ {
        Some(Transform::Stringify)
    } else if kind == "unescape"@ {
        Some(Transform::Unescape)
    } else {
        None
    }
}

/// `b` is `a` after transform `t` gave `r`: the document pretty printed,
/// compacted, written as Python, read from Python, wrapped in or
/// unwrapped from a string literal; then the editors show the new text,
/// or the error.
pub open spec fn transform_outcome(
    t: Transform,
    a: ViewerApp,
    b: ViewerApp,
    r: Result<(), String>,
) -> bool {
    &&& match t {
        Transform::Format => beautified(a.doc, b.doc, a.settings, r),
        Transform::Minify => minified(a.doc, b.doc, a.settings, r),
        Transform::ToPython => pythonized(a.doc, b.doc, a.settings, r),
        Transform::FromPython => from_python(a.doc, b.doc, a.settings, r),
        Transform::Stringify => stringified(a.doc, b.doc, a.settings) && r is Ok,
        Transform::Unescape => unescaped_doc(a.doc, b.doc, a.settings) && r is Ok,
    }
    &&& after_transform(a, b, r)
}

/// The message shown after pasting, by what the paste did.
pub open spec fn paste_message(r: Seq<char>) -> Seq<char> {
    if r == "converted-python"@ {
        "Pasted Python dict — converted to JSON"@
    } else {
        "Pasted"@
    }
}

impl ViewerApp {
    /// Searches for what the search field holds.
    pub fn do_search_go(&mut self)
        ensures
            exists|d: DocumentModel|
                with_query(old(self).doc, d, old(self).search_input@) && #[trigger] started(
                    d,
                    final(self).doc,
                    old(self).settings,
                ),
            only_doc(*old(self), *final(self)),
    {
        self.doc.search_query = copy_string(&self.search_input);
        let ghost d = self.doc;
        self.doc.search_start(&self.settings);
        assert(with_query(old(self).doc, d, old(self).search_input@));
    }

    /// Steps to the next match of what the search field holds.
    pub fn do_search_next(&mut self)
        ensures
            exists|d: DocumentModel|
                with_query(old(self).doc, d, old(self).search_input@) && #[trigger] next_step(
                    d,
                    final(self).doc,
                    old(self).settings,
                ),
            only_doc(*old(self), *final(self)),
    {
        self.doc.search_query = copy_string(&self.search_input);
        let ghost d = self.doc;
        self.doc.search_next(&self.settings);
        assert(with_query(old(self).doc, d, old(self).search_input@));
    }

    /// Steps to the previous match of what the search field holds.
    pub fn do_search_prev(&mut self)
        requires
            trim_seq(old(self).search_input@) == old(self).doc.last_executed_query@ && old(
                self,
            ).doc.search_results@.len() > 0 ==> old(self).doc.current_search_index <= old(
                self,
            ).doc.search_results@.len(),
        ensures
            exists|d: DocumentModel|
                with_query(old(self).doc, d, old(self).search_input@) && #[trigger] previous_step(
                    d,
                    final(self).doc,
                    old(self).settings,
                ),
            only_doc(*old(self), *final(self)),
    {
        self.doc.search_query = copy_string(&self.search_input);
        let ghost d = self.doc;
        self.doc.search_previous(&self.settings);
        assert(with_query(old(self).doc, d, old(self).search_input@));
    }

    /// Runs the transform named `kind`: `format`, `minify`, `j2p` (JSON to
    /// Python), `p2j` (Python to JSON), `stringify` or `unescape`; the
    /// editors then show the new text, or an error is shown. Other names
    /// do nothing.
    pub fn apply_transform(&mut self, kind: &str)
        ensures
            match transform_named(kind@) {
                Some(t) => exists|r: Result<(), String>|
                    #[trigger] transform_outcome(t, *old(self), *final(self), r),
                None => *final(self) == *old(self),
            },
    {
        proof {
            reveal_strlit("format");
            reveal_strlit("minify");
            reveal_strlit("j2p");
            reveal_strlit("p2j");
            reveal_strlit("stringify");
            reveal_strlit("unescape");
        }
        if seq_eq(kind, "format") {
            self.run_transform(Transform::Format);
        } else if seq_eq(kind, "minify") {
            self.run_transform(Transform::Minify);
        } else if seq_eq(kind, "j2p") {
            self.run_transform(Transform::ToPython);
        } else if seq_eq(kind, "p2j") {
            self.run_transform(Transform::FromPython);
        } else if seq_eq(kind, "stringify") {
            self.run_transform(Transform::Stringify);
        } else if seq_eq(kind, "unescape") {
            self.run_transform(Transform::Unescape);
        }
    }

    /// Runs transform `t` on the document and shows the outcome.
    pub fn run_transform(&mut self, t: Transform)
        ensures
            exists|r: Result<(), String>| #[trigger] transform_outcome(t, *old(self), *final(self), r),
    {
        let r = match t {
            Transform::Format => self.doc.beautify(&self.settings),
            Transform::Minify => self.doc.minify(&self.settings),
            Transform::ToPython => self.doc.json_to_python(&self.settings),
            Transform::FromPython => self.doc.python_to_json(&self.settings),
            Transform::Stringify => {
                self.doc.stringify(&self.settings);
                Ok(())
            },
            Transform::Unescape => {
                self.doc.unescape(&self.settings);
                Ok(())
            },
        };
        let ghost g = r;
        self.finish_transform(r);
        assert(transform_outcome(t, *old(self), *self, g));
    }

    /// Shows the outcome `r` of a transform: the new text in both editors,
    /// or the error.
    fn finish_transform(&mut self, r: Result<(), String>)
        ensures
            after_transform(*old(self), *final(self), r),
            final(self).doc == old(self).doc,
    {
        match r {
            Ok(()) => self.sync_editors_from_doc(),
            Err(e) => self.toast = Some(e),
        }
    }

    /// Pastes what the clipboard held (`None` where it was empty) into the
    /// document, and says what happened.
    pub fn paste_from_clipboard(&mut self, clip: Option<String>)
        ensures
            match clip {
                None => {
                    &&& final(self).toast matches Some(t) && t@ == "Clipboard is empty"@
                    &&& final(self).doc == old(self).doc
                    &&& same_editors(*old(self), *final(self))
                },
                Some(text) => exists|r: Seq<char>|
                    #[trigger] pasted(old(self).doc, final(self).doc, text@, old(self).settings, r)
                        && editors_synced(*final(self)) && (final(self).toast matches Some(t) && t@
                        == paste_message(r)),
            },
            final(self).settings == old(self).settings,
            same_panels(*old(self), *final(self)),
            same_inputs(*old(self), *final(self)),
            same_frame(*old(self), *final(self)),
    {
        match clip {
            Some(text) => {
                let flag = self.doc.paste(text.as_str(), &self.settings);
                self.sync_editors_from_doc();
                if seq_eq(flag, "converted-python") {
                    self.toast = Some(to_owned_string("Pasted Python dict — converted to JSON"));
                } else {
                    self.toast = Some(to_owned_string("Pasted"));
                }
            },
            None => {
                self.toast = Some(to_owned_string("Clipboard is empty"));
            },
        }
    }
}

/// A key the window answers.
#[derive(Clone, Copy, PartialEq, Eq, Structural, Debug)]
pub enum Key {
    Num0,
    Num1,
    Num2,
    Num3,
    E,
    F,
    G,
    O,
    S,
    P,
    Plus,
    Equals,
    Minus,
    Comma,
    Slash,
    Escape,
}

/// What the window has to do itself after a key press.
#[derive(Clone, Copy, PartialEq, Eq, Structural, Debug)]
pub enum Effect {
    Nothing,
    OpenFile,
    SaveFile,
    SaveSettings,
}

/// The keys that act together with Ctrl (and without Alt).
pub open spec fn is_ctrl_key(k: Key) -> bool {
    !(k == Key::P || k == Key::Slash || k == Key::Escape)
}

/// `b` is `a` with tab `tab` open; the editor of that tab is filled with
/// the document's text.
pub open spec fn tab_selected(a: ViewerApp, b: ViewerApp, tab: AppTab) -> bool {
    &&& b.doc == (DocumentModel { active_tab: tab, ..a.doc })
    &&& match tab {
        AppTab::Text => b.editor_text@ == a.doc.raw_text@ && b.split_text == a.split_text,
        AppTab::Split => b.split_text@ == a.doc.raw_text@ && b.editor_text == a.editor_text,
        AppTab::Viewer => b.editor_text == a.editor_text && b.split_text == a.split_text,
    }
    &&& b.pending_reparse == a.pending_reparse
    &&& b.settings == a.settings
    &&& b.toast == a.toast
    &&& same_panels(a, b)
    &&& same_inputs(a, b)
    &&& same_frame(a, b)
}

/// `b` is `a` with the font zoomed by `delta`.
pub open spec fn zoomed(a: ViewerApp, b: ViewerApp, delta: int) -> bool {
    b == (ViewerApp {
        settings: Settings { font_size: zoomed_font(a.settings.font_size as int, delta) as u32, ..a.settings },
        ..a
    })
}

/// `b` is `a` after every container was expanded (or, with `collapse`,
/// all was collapsed but the root).
pub open spec fn all_toggled(a: ViewerApp, b: ViewerApp, collapse: bool) -> bool {
    &&& if collapse {
        all_collapsed(a.doc, b.doc)
    } else {
        all_expanded(a.doc, b.doc)
    }
    &&& only_doc(a, b)
}

/// `b` is `a` after a step to the next (or, with `back`, the previous)
/// match of what the search field holds.
pub open spec fn search_stepped(a: ViewerApp, b: ViewerApp, back: bool) -> bool {
    &&& exists|d: DocumentModel|
        #[trigger] with_query(a.doc, d, a.search_input@) && if back {
            previous_step(d, b.doc, a.settings)
        } else {
            next_step(d, b.doc, a.settings)
        }
    &&& only_doc(a, b)
}

/// What a key pressed with Ctrl does: tabs, expanding, searching,
/// opening, saving, zooming, the settings dialog.
pub open spec fn ctrl_outcome(a: ViewerApp, b: ViewerApp, key: Key, shift: bool, e: Effect) -> bool {
    match key {
        Key::Num1 => tab_selected(a, b, AppTab::Viewer) && e == Effect::Nothing,
        Key::Num2 => tab_selected(a, b, AppTab::Text) && e == Effect::Nothing,
        Key::Num3 => tab_selected(a, b, AppTab::Split) && e == Effect::Nothing,
        Key::E => all_toggled(a, b, shift) && e == Effect::Nothing,
        Key::F => b == (ViewerApp { show_search: true, focus_search: true, ..a }) && e
            == Effect::Nothing,
        Key::G => search_stepped(a, b, shift) && e == Effect::Nothing,
        Key::O => b == a && e == Effect::OpenFile,
        Key::S => b == a && e == Effect::SaveFile,
        Key::Plus => zoomed(a, b, 1) && e == Effect::SaveSettings,
        Key::Equals => zoomed(a, b, 1) && e == Effect::SaveSettings,
        Key::Minus => zoomed(a, b, -1) && e == Effect::SaveSettings,
        Key::Num0 => zoomed(a, b, 0) && e == Effect::SaveSettings,
        _ => b == (ViewerApp { show_settings: true, ..a }) && e == Effect::Nothing,
    }
}

/// What Escape does: close the open dialogs, else empty the search field
/// and forget the search, else hide the search bar.
pub open spec fn escape_outcome(a: ViewerApp, b: ViewerApp) -> bool {
    if a.show_shortcuts || a.show_settings || a.show_about {
        b == (ViewerApp { show_shortcuts: false, show_settings: false, show_about: false, ..a })
    } else if a.search_input@.len() > 0 {
        &&& b.search_input@.len() == 0
        &&& search_cleared(a.doc, b.doc)
        &&& b.prop_filter == a.prop_filter
        &&& b.shortcut_filter == a.shortcut_filter
        &&& b.settings == a.settings
        &&& b.toast == a.toast
        &&& same_editors(a, b)
        &&& same_panels(a, b)
        &&& same_frame(a, b)
    } else if a.show_search {
        b == (ViewerApp { show_search: false, ..a })
    } else {
        b == a
    }
}

/// `b` is `a` after `key` was pressed with the given modifiers, while a
/// text field has the keyboard (`editing`) or not; `e` is what the window
/// has to do itself.
pub open spec fn key_handled(
    a: ViewerApp,
    b: ViewerApp,
    key: Key,
    ctrl: bool,
    shift: bool,
    alt: bool,
    editing: bool,
    e: Effect,
) -> bool {
    if ctrl && !alt && is_ctrl_key(key) {
        ctrl_outcome(a, b, key, shift, e)
    } else if ctrl && alt && key == Key::P {
        b == (ViewerApp { show_props: !a.show_props, ..a }) && e == Effect::Nothing
    } else if !editing && key == Key::Slash {
        b == (ViewerApp {
            show_search: true,
            focus_search: true,
            show_shortcuts: shift || a.show_shortcuts,
            ..a
        }) && e == Effect::Nothing
    } else if !editing && key == Key::Escape {
        escape_outcome(a, b) && e == Effect::Nothing
    } else {
        b == a && e == Effect::Nothing
    }
}

/// The condition under which stepping back through the matches is safe:
/// a current search keeps its index within its matches.
pub open spec fn step_back_ok(v: ViewerApp) -> bool {
    trim_seq(v.search_input@) == v.doc.last_executed_query@ && v.doc.search_results@.len() > 0
        ==> v.doc.current_search_index <= v.doc.search_results@.len()
}

impl ViewerApp {
    /// Opens tab `tab`, filling its editor with the document's text.
    pub fn select_tab(&mut self, tab: AppTab)
        ensures
            tab_selected(*old(self), *final(self), tab),
    {
        self.doc.active_tab = tab;
        match tab {
            AppTab::Text => self.editor_text = copy_string(&self.doc.raw_text),
            AppTab::Split => self.split_text = copy_string(&self.doc.raw_text),
            AppTab::Viewer => {},
        }
    }

    fn toggle_all(&mut self, collapse: bool)
        ensures
            all_toggled(*old(self), *final(self), collapse),
    {
        if collapse {
            self.doc.collapse_all();
        } else {
            self.doc.expand_all();
        }
    }

    fn search_step(&mut self, back: bool)
        requires
            back ==> step_back_ok(*old(self)),
        ensures
            search_stepped(*old(self), *final(self), back),
    {
        if back {
            self.do_search_prev();
            let ghost d = choose|d: DocumentModel|
                with_query(old(self).doc, d, old(self).search_input@) && #[trigger] previous_step(
                    d,
                    self.doc,
                    old(self).settings,
                );
            assert(with_query(old(self).doc, d, old(self).search_input@));
        } else {
            self.do_search_next();
            let ghost d = choose|d: DocumentModel|
                with_query(old(self).doc, d, old(self).search_input@) && #[trigger] next_step(
                    d,
                    self.doc,
                    old(self).settings,
                );
            assert(with_query(old(self).doc, d, old(self).search_input@));
        }
    }

    fn ctrl_key(&mut self, key: Key, shift: bool) -> (e: Effect)
        requires
            is_ctrl_key(key),
            shift && key == Key::G ==> step_back_ok(*old(self)),
        ensures
            ctrl_outcome(*old(self), *final(self), key, shift, e),
    {
        match key {
            Key::Num1 => {
                self.select_tab(AppTab::Viewer);
                Effect::Nothing
            },
            Key::Num2 => {
                self.select_tab(AppTab::Text);
                Effect::Nothing
            },
            Key::Num3 => {
                self.select_tab(AppTab::Split);
                Effect::Nothing
            },
            Key::E => {
                self.toggle_all(shift);
                Effect::Nothing
            },
            Key::F => {
                self.show_search = true;
                self.focus_search = true;
                Effect::Nothing
            },
            Key::G => {
                self.search_step(shift);
                Effect::Nothing
            },
            Key::O => Effect::OpenFile,
            Key::S => Effect::SaveFile,
            Key::Plus | Key::Equals => {
                self.settings.zoom(1);
                Effect::SaveSettings
            },
            Key::Minus => {
                self.settings.zoom(-1);
                Effect::SaveSettings
            },
            Key::Num0 => {
                self.settings.zoom(0);
                Effect::SaveSettings
            },
            _ => {
                self.show_settings = true;
                Effect::Nothing
            },
        }
    }

    fn escape(&mut self)
        ensures
            escape_outcome(*old(self), *final(self)),
    {
        if self.show_shortcuts || self.show_settings || self.show_about {
            self.show_shortcuts = false;
            self.show_settings = false;
            self.show_about = false;
        } else if char_count(self.search_input.as_str()) > 0 {
            self.search_input = String::new();
            self.doc.clear_search();
        } else if self.show_search {
            self.show_search = false;
        }
    }

    /// Answers a key press; says what the window has to do itself.
    pub fn handle_key(&mut self, key: Key, ctrl: bool, shift: bool, alt: bool, editing: bool) -> (e:
        Effect)
        requires
            ctrl && !alt && shift && key == Key::G ==> step_back_ok(*old(self)),
        ensures
            key_handled(*old(self), *final(self), key, ctrl, shift, alt, editing, e),
    {
        if ctrl && !alt && key != Key::P && key != Key::Slash && key != Key::Escape {
            return self.ctrl_key(key, shift);
        }
        if ctrl && alt && key == Key::P {
            self.show_props = !self.show_props;
            return Effect::Nothing;
        }
        if !editing && key == Key::Slash {
            self.show_search = true;
            self.focus_search = true;
            if shift {
                self.show_shortcuts = true;
            }
            return Effect::Nothing;
        }
        if !editing && key == Key::Escape {
            self.escape();
        }
        Effect::Nothing
    }
}

/// `d` is `a` holding the text `t`.
pub open spec fn with_text(a: DocumentModel, d: DocumentModel, t: Seq<char>) -> bool {
    d.raw_text@ == t && d == (DocumentModel { raw_text: d.raw_text, ..a })
}

impl ViewerApp {
    /// Brings the editors and the tree in step after the tab changed: the
    /// text tabs' editors take the document's text, the viewer rereads it.
    pub fn sync_tab(&mut self)
        ensures
            old(self).last_tab == old(self).doc.active_tab ==> *final(self) == *old(self),
            old(self).last_tab != old(self).doc.active_tab ==> {
                &&& final(self).last_tab == old(self).doc.active_tab
                &&& match old(self).doc.active_tab {
                    AppTab::Text => final(self).editor_text@ == old(self).doc.raw_text@
                        && final(self).split_text == old(self).split_text && final(self).doc
                        == old(self).doc,
                    AppTab::Split => final(self).split_text@ == old(self).doc.raw_text@
                        && final(self).editor_text == old(self).editor_text && final(self).doc
                        == old(self).doc,
                    AppTab::Viewer => rebuild(
                        old(self).doc.raw_text@,
                        metrics_of(old(self).doc),
                        old(self).doc,
                        final(self).doc,
                        true,
                        old(self).settings,
                    ) && final(self).editor_text == old(self).editor_text && final(self).split_text
                        == old(self).split_text,
                }
                &&& final(self).pending_reparse == old(self).pending_reparse
                &&& final(self).settings == old(self).settings
                &&& final(self).toast == old(self).toast
                &&& final(self).initialized == old(self).initialized
                &&& same_panels(*old(self), *final(self))
                &&& same_inputs(*old(self), *final(self))
            },
    {
        if self.last_tab != self.doc.active_tab {
            match self.doc.active_tab {
                AppTab::Text => self.editor_text = copy_string(&self.doc.raw_text),
                AppTab::Split => self.split_text = copy_string(&self.doc.raw_text),
                AppTab::Viewer => {
                    self.doc.parse_and_build_tree(true, &self.settings);
                },
            }
            self.last_tab = self.doc.active_tab;
        }
    }

    /// Takes an edit made in the text tab's editor: the document holds the
    /// editor's text, marked as edited, and a reread is due.
    pub fn text_edited(&mut self)
        ensures
            exists|d: DocumentModel|
                #[trigger] with_text(old(self).doc, d, old(self).editor_text@) && edited(
                    d,
                    final(self).doc,
                ),
            final(self).pending_reparse,
            final(self).editor_text == old(self).editor_text,
            final(self).split_text == old(self).split_text,
            final(self).settings == old(self).settings,
            final(self).toast == old(self).toast,
            same_panels(*old(self), *final(self)),
            same_inputs(*old(self), *final(self)),
            same_frame(*old(self), *final(self)),
    {
        self.doc.raw_text = copy_string(&self.editor_text);
        let ghost d = self.doc;
        self.doc.mark_edited();
        self.pending_reparse = true;
        assert(with_text(old(self).doc, d, old(self).editor_text@));
    }

    /// Takes an edit made in the split tab's editor: the document and the
    /// text tab's editor hold its text, marked as edited, and a reread is
    /// due.
    pub fn split_edited(&mut self)
        ensures
            exists|d: DocumentModel|
                #[trigger] with_text(old(self).doc, d, old(self).split_text@) && edited(
                    d,
                    final(self).doc,
                ),
            final(self).pending_reparse,
            final(self).editor_text@ == old(self).split_text@,
            final(self).split_text == old(self).split_text,
            final(self).settings == old(self).settings,
            final(self).toast == old(self).toast,
            same_panels(*old(self), *final(self)),
            same_inputs(*old(self), *final(self)),
            same_frame(*old(self), *final(self)),
    {
        self.doc.raw_text = copy_string(&self.split_text);
        self.editor_text = copy_string(&self.split_text);
        let ghost d = self.doc;
        self.doc.mark_edited();
        self.pending_reparse = true;
        assert(with_text(old(self).doc, d, old(self).split_text@));
    }

    /// Rereads the text once more than 0.6 s (600 ms) have passed since the
    /// last edit, if a reread is due.
    pub fn reparse_if_due(&mut self, since_edit_ms: u64)
        ensures
            old(self).pending_reparse && since_edit_ms > 600 ==> {
                &&& rebuild(
                    old(self).doc.raw_text@,
                    metrics_of(old(self).doc),
                    old(self).doc,
                    final(self).doc,
                    true,
                    old(self).settings,
                )
                &&& !final(self).pending_reparse
                &&& final(self).editor_text == old(self).editor_text
                &&& final(self).split_text == old(self).split_text
                &&& final(self).settings == old(self).settings
                &&& final(self).toast == old(self).toast
                &&& same_panels(*old(self), *final(self))
                &&& same_inputs(*old(self), *final(self))
                &&& same_frame(*old(self), *final(self))
            },
            !(old(self).pending_reparse && since_edit_ms > 600) ==> *final(self) == *old(self),
    {
        if self.pending_reparse && since_edit_ms > 600 {
            self.doc.parse_and_build_tree(true, &self.settings);
            self.pending_reparse = false;
        }
    }
}

impl ViewerApp {
    /// Takes the text of the file `name` the user opened: the document
    /// reads it, both editors show it, and the status says so.
    pub fn file_opened(&mut self, name: &str, text: String)
        ensures
            loaded_text(old(self).doc, final(self).doc, text@, old(self).settings),
            editors_synced(*final(self)),
            final(self).toast matches Some(t) && t@ == "Opened "@ + name@,
            final(self).settings == old(self).settings,
            same_panels(*old(self), *final(self)),
            same_inputs(*old(self), *final(self)),
            same_frame(*old(self), *final(self)),
    {
        self.doc.load_text(text, &self.settings);
        self.sync_editors_from_doc();
        let mut msg = to_owned_string("Opened ");
        push_str(&mut msg, name);
        self.toast = Some(msg);
    }

    /// Records that the text was written to the file `name`.
    pub fn file_saved(&mut self, name: &str)
        ensures
            final(self).doc == (DocumentModel { is_dirty: false, ..old(self).doc }),
            final(self).toast matches Some(t) && t@ == "Saved "@ + name@,
            final(self).settings == old(self).settings,
            same_editors(*old(self), *final(self)),
            same_panels(*old(self), *final(self)),
            same_inputs(*old(self), *final(self)),
            same_frame(*old(self), *final(self)),
    {
        self.doc.mark_saved();
        let mut msg = to_owned_string("Saved ");
        push_str(&mut msg, name);
        self.toast = Some(msg);
    }
}

/// `b` is `a` after a new search for what the search field holds.
pub open spec fn search_restarted(a: ViewerApp, b: ViewerApp) -> bool {
    &&& exists|d: DocumentModel|
        #[trigger] with_query(a.doc, d, a.search_input@) && started(d, b.doc, a.settings)
    &&& only_doc(a, b)
}

/// `b` is `a` with the search field emptied and the search forgotten.
pub open spec fn search_input_cleared(a: ViewerApp, b: ViewerApp) -> bool {
    &&& b.search_input@.len() == 0
    &&& search_cleared(a.doc, b.doc)
    &&& b.prop_filter == a.prop_filter
    &&& b.shortcut_filter == a.shortcut_filter
    &&& b.settings == a.settings
    &&& b.toast == a.toast
    &&& same_editors(a, b)
    &&& same_panels(a, b)
    &&& same_frame(a, b)
}

/// The keyboard shortcuts the cheat sheet lists, each with what it does.
pub open spec fn shortcut_table() -> Seq<(Seq<char>, Seq<char>)> {
    seq![
        ("?"@, "Show shortcuts cheatsheet"@),
        ("/"@, "Focus search bar"@),
        ("Ctrl+F"@, "Focus search bar"@),
        ("Enter / Shift+Enter"@, "Next / previous search match"@),
        ("Ctrl+G / Ctrl+Shift+G"@, "Global next / previous match"@),
        ("Ctrl+1"@, "Viewer Tab"@),
        ("Ctrl+2"@, "Text Tab"@),
        ("Ctrl+3"@, "Split Tab"@),
        ("Ctrl+Alt+P"@, "Toggle Properties panel"@),
        ("Ctrl+E"@, "Expand all nodes"@),
        ("Ctrl+Shift+E"@, "Collapse all nodes"@),
        ("Ctrl+O"@, "Open JSON file"@),
        ("Ctrl+S"@, "Save JSON file"@),
        ("Ctrl+Plus / Ctrl+Minus"@, "Zoom in / Zoom out"@),
        ("Ctrl+0"@, "Reset zoom (12pt)"@),
        ("Ctrl+,"@, "Open settings"@),
        ("Esc"@, "Close dialog / clear search"@),
    ]
}

/// The shortcuts that pass the filter `q` (already lower case): an empty
/// filter passes all, else the keys or the description in lower case must
/// contain it.
pub open spec fn matching_shortcuts(
    rows: Seq<(Seq<char>, Seq<char>)>,
    q: Seq<char>,
) -> Seq<(Seq<char>, Seq<char>)>
    decreases rows.len(),
{
    if rows.len() == 0 {
        Seq::empty()
    } else {
        let rest = matching_shortcuts(rows.drop_last(), q);
        let r = rows.last();
        if q.len() == 0 || occurs_in(lowercase(r.0), q) || occurs_in(lowercase(r.1), q) {
            rest.push(r)
        } else {
            rest
        }
    }
}

/// Pairs of string slices as pairs of character sequences.
pub open spec fn pairs_view(v: Seq<(&'static str, &'static str)>) -> Seq<(Seq<char>, Seq<char>)> {
    v.map_values(|p: (&'static str, &'static str)| (p.0@, p.1@))
}

/// The keyboard shortcuts the cheat sheet lists.
pub fn shortcut_list() -> (r: Vec<(&'static str, &'static str)>)
    ensures
        pairs_view(r@) == shortcut_table(),
{
    let mut v: Vec<(&'static str, &'static str)> = Vec::new();
    v.push(("?", "Show shortcuts cheatsheet"));
    v.push(("/", "Focus search bar"));
    v.push(("Ctrl+F", "Focus search bar"));
    v.push(("Enter / Shift+Enter", "Next / previous search match"));
    v.push(("Ctrl+G / Ctrl+Shift+G", "Global next / previous match"));
    v.push(("Ctrl+1", "Viewer Tab"));
    v.push(("Ctrl+2", "Text Tab"));
    v.push(("Ctrl+3", "Split Tab"));
    v.push(("Ctrl+Alt+P", "Toggle Properties panel"));
    v.push(("Ctrl+E", "Expand all nodes"));
    v.push(("Ctrl+Shift+E", "Collapse all nodes"));
    v.push(("Ctrl+O", "Open JSON file"));
    v.push(("Ctrl+S", "Save JSON file"));
    v.push(("Ctrl+Plus / Ctrl+Minus", "Zoom in / Zoom out"));
    v.push(("Ctrl+0", "Reset zoom (12pt)"));
    v.push(("Ctrl+,", "Open settings"));
    v.push(("Esc", "Close dialog / clear search"));
    assert(pairs_view(v@) =~= shortcut_table());
    v
}

/// The shortcuts that pass the cheat sheet's filter, matched without
/// regard to case, in their order.
pub fn filter_shortcuts(filter: &str) -> (r: Vec<(&'static str, &'static str)>)
    ensures
        pairs_view(r@) == matching_shortcuts(shortcut_table(), lowercase(filter@)),
{
    let all = shortcut_list();
    let q = to_lowercase(filter);
    let n = chars_of(q.as_str());
    let mut out: Vec<(&'static str, &'static str)> = Vec::new();
    let mut i: usize = 0;
    while i < all.len()
        invariant
            i <= all.len(),
            pairs_view(all@) == shortcut_table(),
            n@ == lowercase(filter@),
            pairs_view(out@) == matching_shortcuts(pairs_view(all@).take(i as int), n@),
        decreases all.len() - i,
    {
        let (k, a) = all[i];
        proof {
            assert(pairs_view(all@).take(i + 1).drop_last() =~= pairs_view(all@).take(i as int));
            assert(pairs_view(all@).take(i + 1).last() == (k@, a@));
        }
        let keep = n.len() == 0 || contains_chars(&chars_of(to_lowercase(k).as_str()), &n)
            || contains_chars(&chars_of(to_lowercase(a).as_str()), &n);
        if keep {
            out.push((k, a));
            proof {
                assert(pairs_view(out@) =~= matching_shortcuts(
                    pairs_view(all@).take(i as int),
                    n@,
                ).push((k@, a@)));
            }
        }
        i = i + 1;
    }
    proof {
        assert(pairs_view(all@).take(all.len() as int) =~= pairs_view(all@));
    }
    out
}

impl ViewerApp {
    /// Enter in the search field: with Shift the previous match; a new
    /// query starts a search; else the next match.
    pub fn search_enter(&mut self, shift: bool)
        requires
            shift ==> step_back_ok(*old(self)),
        ensures
            shift ==> search_stepped(*old(self), *final(self), true),
            !shift && old(self).doc.last_executed_query@ != trim_seq(old(self).search_input@)
                ==> search_restarted(*old(self), *final(self)),
            !shift && old(self).doc.last_executed_query@ == trim_seq(old(self).search_input@)
                ==> search_stepped(*old(self), *final(self), false),
    {
        let q = trim_string(self.search_input.as_str());
        if shift {
            self.search_step(true);
        } else if !seq_eq(self.doc.last_executed_query.as_str(), q.as_str()) {
            self.restart_search();
        } else {
            self.search_step(false);
        }
    }

    /// The search button: the next match where the query ran already and
    /// found something, else a new search.
    pub fn search_button(&mut self)
        ensures
            old(self).doc.last_executed_query@ == trim_seq(old(self).search_input@) && old(
                self,
            ).doc.search_results@.len() > 0 ==> search_stepped(*old(self), *final(self), false),
            !(old(self).doc.last_executed_query@ == trim_seq(old(self).search_input@) && old(
                self,
            ).doc.search_results@.len() > 0) ==> search_restarted(*old(self), *final(self)),
    {
        let q = trim_string(self.search_input.as_str());
        if seq_eq(self.doc.last_executed_query.as_str(), q.as_str())
            && self.doc.search_results.len() > 0 {
            self.search_step(false);
        } else {
            self.restart_search();
        }
    }

    /// Escape in the search field: empties a field that holds something
    /// and forgets the search, else hides the search bar.
    pub fn search_field_escape(&mut self)
        ensures
            old(self).search_input@.len() > 0 ==> search_input_cleared(*old(self), *final(self)),
            old(self).search_input@.len() == 0 ==> *final(self) == (ViewerApp {
                show_search: false,
                ..*old(self)
            }),
    {
        if char_count(self.search_input.as_str()) > 0 {
            self.clear_search_input();
        } else {
            self.show_search = false;
        }
    }

    /// Empties the search field and forgets the search.
    pub fn clear_search_input(&mut self)
        ensures
            search_input_cleared(*old(self), *final(self)),
    {
        self.search_input = String::new();
        self.doc.clear_search();
    }

    fn restart_search(&mut self)
        ensures
            search_restarted(*old(self), *final(self)),
    {
        self.do_search_go();
        let ghost d = choose|d: DocumentModel|
            with_query(old(self).doc, d, old(self).search_input@) && #[trigger] started(
                d,
                self.doc,
                old(self).settings,
            );
        assert(with_query(old(self).doc, d, old(self).search_input@));
    }
}

/// An entry of a tree node's context menu.
#[derive(Clone, Copy, PartialEq, Eq, Structural, Debug)]
pub enum MenuItem {
    ExpandSubtree,
    Collapse,
    ExpandFullText,
    CollapseFullText,
    CopyValue,
    CopyKey,
    CopyPath,
    CopySubtree,
    CopyPython,
    Separator,
}

/// The context menu of the node at `path`: a container can be expanded or
/// collapsed below, a long text shown or hidden in full (hidden where the
/// panel already shows it); then the copy commands.
pub open spec fn menu_items(
    m: DocumentModel,
    path: Seq<char>,
    expand_visible: bool,
    expand_path: Option<Seq<char>>,
) -> Seq<MenuItem> {
    let node = match root_view(m) {
        Some(r) => find_spec(r, path),
        None => None,
    };
    let head = match node {
        Some(n) => if n.children.len() > 0 {
            seq![MenuItem::ExpandSubtree, MenuItem::Collapse, MenuItem::Separator]
        } else if is_long_text_of(n) {
            seq![
                if expand_visible && expand_path == Some(path) {
                    MenuItem::CollapseFullText
                } else {
                    MenuItem::ExpandFullText
                },
                MenuItem::Separator,
            ]
        } else {
            Seq::empty()
        },
        None => Seq::empty(),
    };
    head + seq![
        MenuItem::CopyValue,
        MenuItem::CopyKey,
        MenuItem::CopyPath,
        MenuItem::CopySubtree,
        MenuItem::CopyPython,
    ]
}

/// The label a menu entry shows.
pub open spec fn menu_label(i: MenuItem) -> Seq<char> {
    match i {
        MenuItem::ExpandSubtree => "Expand All Sub-levels"@,
        MenuItem::Collapse => "Collapse"@,
        MenuItem::ExpandFullText => "Expand Full Text"@,
        MenuItem::CollapseFullText => "Collapse Full Text"@,
        MenuItem::CopyValue => "Copy Value"@,
        MenuItem::CopyKey => "Copy Key"@,
        MenuItem::CopyPath => "Copy JSON Path"@,
        MenuItem::CopySubtree => "Copy Subtree as JSON"@,
        MenuItem::CopyPython => "Copy as Python Dictionary"@,
        MenuItem::Separator => Seq::empty(),
    }
}

impl MenuItem {
    /// The label the entry shows; empty for a separator.
    pub fn label(&self) -> (r: &'static str)
        ensures
            r@ == menu_label(*self),
    {
        match self {
            MenuItem::ExpandSubtree => "Expand All Sub-levels",
            MenuItem::Collapse => "Collapse",
            MenuItem::ExpandFullText => "Expand Full Text",
            MenuItem::CollapseFullText => "Collapse Full Text",
            MenuItem::CopyValue => "Copy Value",
            MenuItem::CopyKey => "Copy Key",
            MenuItem::CopyPath => "Copy JSON Path",
            MenuItem::CopySubtree => "Copy Subtree as JSON",
            MenuItem::CopyPython => "Copy as Python Dictionary",
            MenuItem::Separator => {
                proof {
                    reveal_strlit("");
                }
                ""
            },
        }
    }
}

/// The context menu of the node at `path`, given whether the full-text
/// panel is open and on which node.
pub fn tree_menu_items(
    doc: &DocumentModel,
    path: &str,
    expand_visible: bool,
    expand_path: &Option<String>,
) -> (r: Vec<MenuItem>)
    ensures
        r@ == menu_items(
            *doc,
            path@,
            expand_visible,
            match expand_path {
                Some(p) => Some(p@),
                None => None,
            },
        ),
{
    let mut items: Vec<MenuItem> = Vec::new();
    match doc.find_node(path) {
        Some(n) => {
            if n.is_container() {
                items.push(MenuItem::ExpandSubtree);
                items.push(MenuItem::Collapse);
                items.push(MenuItem::Separator);
            } else if n.is_long_text() {
                let shown = match expand_path {
                    Some(p) => expand_visible && seq_eq(p.as_str(), path),
                    None => false,
                };
                items.push(
                    if shown {
                        MenuItem::CollapseFullText
                    } else {
                        MenuItem::ExpandFullText
                    },
                );
                items.push(MenuItem::Separator);
            }
        },
        None => {},
    }
    items.push(MenuItem::CopyValue);
    items.push(MenuItem::CopyKey);
    items.push(MenuItem::CopyPath);
    items.push(MenuItem::CopySubtree);
    items.push(MenuItem::CopyPython);
    proof {
        let ep = match expand_path {
            Some(p) => Some(p@),
            None => None::<Seq<char>>,
        };
        assert(items@ =~= menu_items(*doc, path@, expand_visible, ep));
    }
    items
}

/// What switching tabs asks of the tree: read the text again, leave a fill
/// that is under way, start the fill again, nothing, or stop a fill.
#[derive(Clone, Copy, PartialEq, Eq, Structural, Debug)]
pub enum TabAction {
    Reparse,
    KeepFilling,
    RestartFill,
    Nothing,
    CancelFill,
}

/// What the tree needs when tab `tab` opens: a tab that shows the tree
/// rereads an edited text or one without a tree, lets a fill under way
/// go on, and finishes a tree left unfinished; the text tab stops any
/// fill.
pub open spec fn tab_action(
    tab: AppTab,
    is_dirty: bool,
    has_root: bool,
    filling: bool,
    tree_complete: bool,
) -> TabAction {
    if tab == AppTab::Text {
        TabAction::CancelFill
    } else if is_dirty || !has_root {
        TabAction::Reparse
    } else if filling {
        TabAction::KeepFilling
    } else if !tree_complete {
        TabAction::RestartFill
    } else {
        TabAction::Nothing
    }
}

/// What the tree needs when tab `tab` opens; see `tab_action`.
pub fn tab_switch_action(
    tab: AppTab,
    is_dirty: bool,
    has_root: bool,
    filling: bool,
    tree_complete: bool,
) -> (r: TabAction)
    ensures
        r == tab_action(tab, is_dirty, has_root, filling, tree_complete),
{
    if tab == AppTab::Text {
        TabAction::CancelFill
    } else if is_dirty || !has_root {
        TabAction::Reparse
    } else if filling {
        TabAction::KeepFilling
    } else if !tree_complete {
        TabAction::RestartFill
    } else {
        TabAction::Nothing
    }
}

/// The dark theme's colours, as `0x00BBGGRR`.
pub const DARK_TEXT: u32 = 0xD4D4D4;
pub const DARK_DIM_TEXT: u32 = 0x858585;
pub const DARK_BORDER: u32 = 0x3F3F46;
pub const DARK_BTN: u32 = 0x2D2D2D;
pub const DARK_BTN_DOWN: u32 = 0x094771;
pub const DARK_ACCENT_BG: u32 = 0x094771;

/// The background and text colours of a toolbar button: a disabled one is
/// plain with dim text, a pressed one dark blue, the button of the open
/// tab in the accent colour.
pub open spec fn button_colors_of(disabled: bool, pressed: bool, active_tab: bool) -> (u32, u32) {
    let bg = if disabled {
        DARK_BTN
    } else if pressed {
        DARK_BTN_DOWN
    } else if active_tab {
        DARK_ACCENT_BG
    } else {
        DARK_BTN
    };
    (bg, if disabled {
        DARK_DIM_TEXT
    } else {
        DARK_TEXT
    })
}

/// The background and text colours of a toolbar button.
pub fn button_colors(disabled: bool, pressed: bool, active_tab: bool) -> (r: (u32, u32))
    ensures
        r == button_colors_of(disabled, pressed, active_tab),
{
    let bg = if disabled {
        DARK_BTN
    } else if pressed {
        DARK_BTN_DOWN
    } else if active_tab {
        DARK_ACCENT_BG
    } else {
        DARK_BTN
    };
    (bg, if disabled {
        DARK_DIM_TEXT
    } else {
        DARK_TEXT
    })
}

} // verus!
