//! The native window's own decisions: where a key goes given the focus,
//! what the idle tick does, and when a double-click opens the full text.

use vstd::prelude::*;
use crate::model::tree::{Node, AppTab, is_long_text_of};
use crate::model::document::{DocumentModel, status_spec};
use crate::json::value::Json;
use crate::text::{push_char, push_str, char_count, decimal};

verus! {

/// The control that holds the keyboard focus.
#[derive(Clone, Copy, PartialEq, Eq, Structural, Debug)]
pub enum Focus {
    Editor,
    SearchEdit,
    Tree,
    Grid,
    ExpandText,
    SearchGo,
    SearchPrev,
    SearchNext,
    Other,
}

/// A keyboard message: a key going down (with its virtual-key code and
/// modifiers), a typed character, or anything else.
#[derive(Clone, Copy, PartialEq, Eq, Structural, Debug)]
pub enum KeyEvent {
    KeyDown { vk: u32, ctrl: bool, alt: bool, shift: bool },
    Char(u32),
    Other,
}

/// What the message loop does with a keyboard message before the window
/// sees it.
#[derive(Clone, Copy, PartialEq, Eq, Structural, Debug)]
pub enum LoopAction {
    /// Translate accelerators and dispatch as usual.
    Pass,
    /// Dispatch to the control without accelerators (its own copy/cut).
    SkipAccelerator,
    /// Insert the indentation into the editor.
    TabIndent,
    FocusSearch,
    ShowShortcuts,
    /// A search step: 0 a new search, 1 the next match, -1 the previous.
    SearchAdvance(i32),
    ClearSearch,
}

pub const VK_TAB: u32 = 0x09;
pub const VK_RETURN: u32 = 0x0D;
pub const VK_ESCAPE: u32 = 0x1B;
pub const VK_C: u32 = 0x43;
pub const VK_X: u32 = 0x58;

/// Whether the focus is on one of the views of the results.
pub open spec fn on_results(f: Focus) -> bool {
    f == Focus::Tree || f == Focus::Grid || f == Focus::ExpandText
}

/// The routing of a keyboard message. Tab in the editor indents; Escape
/// clears the search from the search field, or from the views when the
/// search bar shows; Enter steps the search from the field (Shift for
/// back), from the three search buttons, or from the views while a search
/// is active; Ctrl+C and Ctrl+X stay with the editors; `/` and `?` typed
/// outside the editors focus the search or show the shortcuts.
pub open spec fn route_spec(ev: KeyEvent, focus: Focus, tab: AppTab, search_active: bool) -> LoopAction {
    let search_visible = tab != AppTab::Text;
    match ev {
        KeyEvent::KeyDown { vk, ctrl, alt, shift } => {
            if vk == VK_TAB && focus == Focus::Editor && !ctrl && !alt {
                LoopAction::TabIndent
            } else if vk == VK_ESCAPE && !ctrl && !alt && (focus == Focus::SearchEdit || (on_results(
                focus,
            ) && search_visible)) {
                LoopAction::ClearSearch
            } else if vk == VK_RETURN && !ctrl && !alt && search_visible {
                if focus == Focus::SearchEdit {
                    LoopAction::SearchAdvance(if shift { -1i32 } else { 1i32 })
                } else if focus == Focus::SearchGo {
                    LoopAction::SearchAdvance(0i32)
                } else if focus == Focus::SearchPrev {
                    LoopAction::SearchAdvance(-1i32)
                } else if focus == Focus::SearchNext {
                    LoopAction::SearchAdvance(1i32)
                } else if on_results(focus) && search_active {
                    LoopAction::SearchAdvance(if shift { -1i32 } else { 1i32 })
                } else {
                    LoopAction::Pass
                }
            } else if ctrl && !alt && (focus == Focus::Editor || focus == Focus::SearchEdit || focus
                == Focus::ExpandText) && (vk == VK_C || vk == VK_X) {
                LoopAction::SkipAccelerator
            } else {
                LoopAction::Pass
            }
        },
        KeyEvent::Char(ch) => {
            let typing = focus == Focus::Editor || focus == Focus::SearchEdit;
            if ch == 0x2F && !typing {
                LoopAction::FocusSearch
            } else if ch == 0x3F && !typing {
                LoopAction::ShowShortcuts
            } else {
                LoopAction::Pass
            }
        },
        KeyEvent::Other => LoopAction::Pass,
    }
}

fn on_results_exec(f: Focus) -> (r: bool)
    ensures
        r == on_results(f),
{
    match f {
        Focus::Tree | Focus::Grid | Focus::ExpandText => true,
        _ => false,
    }
}

/// Routes a keyboard message; see `route_spec`. `search_active` is
/// whether a query or results are there.
pub fn route_key(ev: KeyEvent, focus: Focus, tab: AppTab, search_active: bool) -> (r: LoopAction)
    ensures
        r == route_spec(ev, focus, tab, search_active),
{
    let search_visible = tab != AppTab::Text;
    let results = on_results_exec(focus);
    match ev {
        KeyEvent::KeyDown { vk, ctrl, alt, shift } => {
            if vk == VK_TAB && focus == Focus::Editor && !ctrl && !alt {
                LoopAction::TabIndent
            } else if vk == VK_ESCAPE && !ctrl && !alt && (focus == Focus::SearchEdit || (results
                && search_visible)) {
                LoopAction::ClearSearch
            } else if vk == VK_RETURN && !ctrl && !alt && search_visible {
                if focus == Focus::SearchEdit {
                    LoopAction::SearchAdvance(if shift { -1 } else { 1 })
                } else if focus == Focus::SearchGo {
                    LoopAction::SearchAdvance(0)
                } else if focus == Focus::SearchPrev {
                    LoopAction::SearchAdvance(-1)
                } else if focus == Focus::SearchNext {
                    LoopAction::SearchAdvance(1)
                } else if results && search_active {
                    LoopAction::SearchAdvance(if shift { -1 } else { 1 })
                } else {
                    LoopAction::Pass
                }
            } else if ctrl && !alt && (focus == Focus::Editor || focus == Focus::SearchEdit || focus
                == Focus::ExpandText) && (vk == VK_C || vk == VK_X) {
                LoopAction::SkipAccelerator
            } else {
                LoopAction::Pass
            }
        },
        KeyEvent::Char(ch) => {
            let typing = focus == Focus::Editor || focus == Focus::SearchEdit;
            if ch == 0x2F && !typing {
                LoopAction::FocusSearch
            } else if ch == 0x3F && !typing {
                LoopAction::ShowShortcuts
            } else {
                LoopAction::Pass
            }
        },
        KeyEvent::Other => LoopAction::Pass,
    }
}

/// The text Tab inserts into the editor: a tab character for a negative
/// indentation, else that many spaces.
pub fn tab_indent_text(indent: i32) -> (r: String)
    ensures
        indent < 0 ==> r@ == seq!['\t'],
        indent >= 0 ==> r@ == Seq::new(indent as nat, |i: int| ' '),
{
    let mut out = String::new();
    if indent < 0 {
        push_char(&mut out, '\t');
        assert(out@ =~= seq!['\t']);
        return out;
    }
    let mut i: i32 = 0;
    assert(out@ =~= Seq::new(0, |k: int| ' '));
    while i < indent
        invariant
            0 <= i <= indent,
            out@ == Seq::new(i as nat, |k: int| ' '),
        decreases indent - i,
    {
        push_char(&mut out, ' ');
        proof {
            assert(out@ =~= Seq::new((i + 1) as nat, |k: int| ' '));
        }
        i += 1;
    }
    out
}

/// Above this many bytes of text the Split tab no longer rereads the text
/// on the idle tick.
pub const LARGE_FILE_BYTES: usize = 1_000_000;

/// What the idle tick does after taking the editor's text.
#[derive(Clone, Copy, PartialEq, Eq, Structural, Debug)]
pub enum IdleAction {
    /// Reread the text and show the tree.
    Reparse,
    /// Say in the status bar that the tree waits for a refresh.
    LargeFileNote,
    Nothing,
}

/// The idle rule: in the Split tab, where there is no tree yet or the
/// text changed, a text of at most `LARGE_FILE_BYTES` bytes is reread; a
/// larger changed text only gets a note in the status bar.
pub open spec fn idle_spec(tab: AppTab, has_tree: bool, dirty: bool, text_bytes: nat) -> IdleAction {
    let big = text_bytes > LARGE_FILE_BYTES;
    if tab == AppTab::Split && (!has_tree || dirty) && !big {
        IdleAction::Reparse
    } else if big && dirty {
        IdleAction::LargeFileNote
    } else {
        IdleAction::Nothing
    }
}

/// What the idle tick does for the document, whose text is `text_bytes`
/// bytes long in UTF-8.
pub fn idle_action(doc: &DocumentModel, text_bytes: usize) -> (r: IdleAction)
    ensures
        r == idle_spec(doc.active_tab, doc.root is Some, doc.is_dirty, text_bytes as nat),
{
    let big = text_bytes > LARGE_FILE_BYTES;
    if doc.active_tab == AppTab::Split && (doc.root.is_none() || doc.is_dirty) && !big {
        IdleAction::Reparse
    } else if big && doc.is_dirty {
        IdleAction::LargeFileNote
    } else {
        IdleAction::Nothing
    }
}

/// The status bar's note for a large changed text: the status, the
/// counts, and that the tree waits for a refresh.
pub fn large_file_note(doc: &DocumentModel) -> (r: String)
    ensures
        r@ == status_spec(*doc) + "    |    "@ + decimal(doc.line_count as nat) + " lines, "@
            + decimal(doc.character_count as nat) + " characters"@
            + "    |    large file — press Refresh to update tree"@,
{
    let mut text = doc.window_status_text(None);
    push_str(&mut text, "    |    large file — press Refresh to update tree");
    proof {
        assert(text@ =~= status_spec(*doc) + "    |    "@ + decimal(doc.line_count as nat)
            + " lines, "@ + decimal(doc.character_count as nat) + " characters"@
            + "    |    large file — press Refresh to update tree"@);
    }
    text
}

/// Double-clicking a tree node opens its full text below the tree when it
/// is a long string value.
pub fn tree_double_click_expands(n: &Node) -> (r: bool)
    ensures
        r == (n@.value is Str && is_long_text_of(n@)),
{
    match &n.value {
        crate::json::value::JSONValue::Str(_) => n.is_long_text(),
        _ => false,
    }
}

/// Double-clicking a grid row opens the full text when its node is a
/// string value that is long or holds more than 200 characters; other rows
/// jump to their node in the tree.
pub fn grid_double_click_expands(n: &Node) -> (r: bool)
    ensures
        r == match n@.value {
            Json::Str(s) => is_long_text_of(n@) || s.len() > 200,
            _ => false,
        },
{
    match &n.value {
        crate::json::value::JSONValue::Str(s) => n.is_long_text() || char_count(s.as_str()) > 200,
        _ => false,
    }
}

} // verus!
