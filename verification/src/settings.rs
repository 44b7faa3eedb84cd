//! User preferences that shape formatting and the initial view.

use vstd::prelude::*;
use crate::text::{seq_eq, to_owned_string, decimal, decimal_string};

verus! {

/// The application's name, used for its configuration directory.
pub const APP_NAME: &'static str = "JSONViewer";

/// Formatting and display preferences. The font size is kept in whole
/// points.
#[derive(Clone, Debug)]
pub struct Settings {
    pub indent_spaces: i32,
    pub sort_keys_alphabetically: bool,
    pub escape_slashes_in_stringify: bool,
    pub auto_unwrap_stringified: bool,
    pub default_tab: String,
    pub font_size: u32,
    pub wrap_lines: bool,
    pub natural_scrolling: bool,
}

/// Whether `s` holds the default preferences.
pub open spec fn is_default_settings(s: Settings) -> bool {
    &&& s.indent_spaces == 2
    &&& !s.sort_keys_alphabetically
    &&& s.escape_slashes_in_stringify
    &&& s.auto_unwrap_stringified
    &&& s.default_tab@ == "Text"@
    &&& s.font_size == 13
    &&& s.wrap_lines
    &&& !s.natural_scrolling
}

/// The indentation settings the library understands: two or four spaces,
/// or tabs (`-1`).
pub open spec fn indent_supported(n: i32) -> bool {
    n == 2 || n == 4 || n == -1
}

pub open spec fn tab_supported(t: Seq<char>) -> bool {
    t == "Text"@ || t == "Viewer"@ || t == "Split"@
}

/// The indentation a setting stands for: an unsupported one becomes 2.
pub open spec fn clamp_indent(n: i32) -> i32 {
    if indent_supported(n) {
        n
    } else {
        2
    }
}

/// The tab a setting stands for: an unknown one becomes `Text`.
pub open spec fn clamp_tab(t: Seq<char>) -> Seq<char> {
    if tab_supported(t) {
        t
    } else {
        "Text"@
    }
}

/// `v` limited to the range `[lo, hi]`.
pub open spec fn clamp_nat(v: int, lo: int, hi: int) -> int {
    if v < lo {
        lo
    } else if v > hi {
        hi
    } else {
        v
    }
}

/// The font size after one zoom step of `delta`: `0` resets to 12 points,
/// otherwise one point up or down, held between 9 and 24.
pub open spec fn zoomed_font(font: int, delta: int) -> int {
    if delta == 0 {
        12
    } else if delta > 0 {
        clamp_nat(font + 1, 9, 24)
    } else {
        clamp_nat(font - 1, 9, 24)
    }
}

impl Default for Settings {
    fn default() -> (r: Self)
        ensures
            is_default_settings(r),
    {
        Settings {
            indent_spaces: 2,
            sort_keys_alphabetically: false,
            escape_slashes_in_stringify: true,
            auto_unwrap_stringified: true,
            default_tab: to_owned_string("Text"),
            font_size: 13,
            wrap_lines: true,
            natural_scrolling: false,
        }
    }
}

impl Settings {
    /// The same settings with every value brought into its supported
    /// range: an unknown indentation becomes 2, an unknown tab `Text`, and
    /// the font size is held between 9 and 24 points.
    pub fn clamped(&self) -> (c: Settings)
        ensures
            c.indent_spaces == clamp_indent(self.indent_spaces),
            c.default_tab@ == clamp_tab(self.default_tab@),
            c.font_size == clamp_nat(self.font_size as int, 9, 24),
            c.sort_keys_alphabetically == self.sort_keys_alphabetically,
            c.escape_slashes_in_stringify == self.escape_slashes_in_stringify,
            c.auto_unwrap_stringified == self.auto_unwrap_stringified,
            c.wrap_lines == self.wrap_lines,
            c.natural_scrolling == self.natural_scrolling,
    {
        let indent = if self.indent_spaces != 2 && self.indent_spaces != 4 && self.indent_spaces
            != -1 {
            2
        } else {
            self.indent_spaces
        };
        let t = self.default_tab.as_str();
        let tab = if !seq_eq(t, "Text") && !seq_eq(t, "Viewer") && !seq_eq(t, "Split") {
            to_owned_string("Text")
        } else {
            to_owned_string(t)
        };
        let font = if self.font_size < 9 {
            9
        } else if self.font_size > 24 {
            24
        } else {
            self.font_size
        };
        Settings {
            indent_spaces: indent,
            sort_keys_alphabetically: self.sort_keys_alphabetically,
            escape_slashes_in_stringify: self.escape_slashes_in_stringify,
            auto_unwrap_stringified: self.auto_unwrap_stringified,
            default_tab: tab,
            font_size: font,
            wrap_lines: self.wrap_lines,
            natural_scrolling: self.natural_scrolling,
        }
    }

    pub fn reset_to_defaults(&mut self)
        ensures
            is_default_settings(*final(self)),
    {
        *self = Settings::default();
    }

    /// Steps the font size: `0` resets it to 12 points, a positive step
    /// adds a point and a negative one takes a point off, the result held
    /// between 9 and 24.
    pub fn zoom(&mut self, delta: i32)
        ensures
            final(self).font_size == zoomed_font(old(self).font_size as int, delta as int),
            *final(self) == (Settings { font_size: final(self).font_size, ..*old(self) }),
    {
        let f = self.font_size;
        self.font_size = if delta == 0 {
            12
        } else if delta > 0 {
            if f < 9 {
                9
            } else if f < 24 {
                f + 1
            } else {
                24
            }
        } else {
            if f <= 9 {
                9
            } else if f > 24 {
                24
            } else {
                f - 1
            }
        };
    }

    /// The label of the indentation choice.
    pub fn indent_label(&self) -> (r: String)
        ensures
            r@ == if self.indent_spaces == 4 {
                "4 Spaces"@
            } else if self.indent_spaces == -1 {
                "Tabs"@
            } else {
                "2 Spaces (Default)"@
            },
    {
        if self.indent_spaces == 4 {
            to_owned_string("4 Spaces")
        } else if self.indent_spaces == -1 {
            to_owned_string("Tabs")
        } else {
            to_owned_string("2 Spaces (Default)")
        }
    }
}

/// What the settings dialog shows and edits, as plain values: the
/// indentation choice (0: two spaces, 1: four, 2: tabs), the check boxes,
/// the tab choice (0: Text, 1: Viewer, 2: Split) and the font size text.
pub struct SettingsForm {
    pub indent_choice: usize,
    pub sort_keys: bool,
    pub escape_slashes: bool,
    pub auto_unwrap: bool,
    pub wrap_lines: bool,
    pub tab_choice: usize,
    pub font_text: String,
}

/// The dialog's indentation choice for the setting `n`.
pub open spec fn indent_choice_of(n: i32) -> usize {
    if n == 4 {
        1
    } else if n == -1 {
        2
    } else {
        0
    }
}

/// The indentation setting the dialog's choice `c` stands for.
pub open spec fn indent_of_choice(c: usize) -> i32 {
    if c == 1 {
        4i32
    } else if c == 2 {
        -1i32
    } else {
        2i32
    }
}

/// The dialog's tab choice for the tab named `t`.
pub open spec fn tab_choice_of(t: Seq<char>) -> usize {
    if t == "Viewer"@ {
        1
    } else if t == "Split"@ {
        2
    } else {
        0
    }
}

/// The tab name the dialog's choice `c` stands for.
pub open spec fn tab_of_choice(c: usize) -> Seq<char> {
    if c == 1 {
        "Viewer"@
    } else if c == 2 {
        "Split"@
    } else {
        "Text"@
    }
}

impl Settings {
    /// The dialog's form filled from these settings.
    pub fn to_form(&self) -> (f: SettingsForm)
        ensures
            f.indent_choice == indent_choice_of(self.indent_spaces),
            f.sort_keys == self.sort_keys_alphabetically,
            f.escape_slashes == self.escape_slashes_in_stringify,
            f.auto_unwrap == self.auto_unwrap_stringified,
            f.wrap_lines == self.wrap_lines,
            f.tab_choice == tab_choice_of(self.default_tab@),
            f.font_text@ == decimal(self.font_size as nat),
    {
        let indent_choice = if self.indent_spaces == 4 {
            1
        } else if self.indent_spaces == -1 {
            2
        } else {
            0
        };
        let t = self.default_tab.as_str();
        let tab_choice = if seq_eq(t, "Viewer") {
            1
        } else if seq_eq(t, "Split") {
            2
        } else {
            0
        };
        SettingsForm {
            indent_choice,
            sort_keys: self.sort_keys_alphabetically,
            escape_slashes: self.escape_slashes_in_stringify,
            auto_unwrap: self.auto_unwrap_stringified,
            wrap_lines: self.wrap_lines,
            tab_choice,
            font_text: decimal_string(self.font_size as usize),
        }
    }

    /// Takes the dialog's form; `font` is the size its text reads as, if
    /// it reads as a number, held between 9 and 24 points; otherwise the
    /// size stays.
    pub fn apply_form(&mut self, f: &SettingsForm, font: Option<u32>)
        ensures
            final(self).indent_spaces == indent_of_choice(f.indent_choice),
            final(self).sort_keys_alphabetically == f.sort_keys,
            final(self).escape_slashes_in_stringify == f.escape_slashes,
            final(self).auto_unwrap_stringified == f.auto_unwrap,
            final(self).wrap_lines == f.wrap_lines,
            final(self).default_tab@ == tab_of_choice(f.tab_choice),
            final(self).font_size == match font {
                Some(v) => clamp_nat(v as int, 9, 24) as u32,
                None => old(self).font_size,
            },
            final(self).natural_scrolling == old(self).natural_scrolling,
    {
        self.indent_spaces = if f.indent_choice == 1 {
            4
        } else if f.indent_choice == 2 {
            -1
        } else {
            2
        };
        self.sort_keys_alphabetically = f.sort_keys;
        self.escape_slashes_in_stringify = f.escape_slashes;
        self.auto_unwrap_stringified = f.auto_unwrap;
        self.wrap_lines = f.wrap_lines;
        self.default_tab = if f.tab_choice == 1 {
            to_owned_string("Viewer")
        } else if f.tab_choice == 2 {
            to_owned_string("Split")
        } else {
            to_owned_string("Text")
        };
        if let Some(v) = font {
            self.font_size = if v < 9 {
                9
            } else if v > 24 {
                24
            } else {
                v
            };
        }
    }
}

/// The dialog shows settings that are in range as they are: taking back
/// its form changes none of them.
pub proof fn law_form_round_trip(indent: i32, tab: Seq<char>, font: u32)
    requires
        indent_supported(indent),
        tab_supported(tab),
        9 <= font <= 24,
    ensures
        indent_of_choice(indent_choice_of(indent)) == indent,
        tab_of_choice(tab_choice_of(tab)) == tab,
        clamp_nat(font as int, 9, 24) as u32 == font,
{
    reveal_strlit("Viewer");
    reveal_strlit("Split");
    reveal_strlit("Text");
}

/// Bringing settings into range twice changes nothing more than doing it
/// once.
pub proof fn law_clamp_idempotent(indent: i32, tab: Seq<char>, font: u32)
    ensures
        clamp_indent(clamp_indent(indent)) == clamp_indent(indent),
        clamp_tab(clamp_tab(tab)) == clamp_tab(tab),
        clamp_nat(clamp_nat(font as int, 9, 24), 9, 24) == clamp_nat(font as int, 9, 24),
{
}

/// The default settings are already in range.
pub proof fn law_defaults_in_range(s: Settings)
    requires
        is_default_settings(s),
    ensures
        clamp_indent(s.indent_spaces) == s.indent_spaces,
        clamp_tab(s.default_tab@) == s.default_tab@,
        clamp_nat(s.font_size as int, 9, 24) == s.font_size,
{
}

/// Zooming always leaves the font size in range.
pub proof fn law_zoom_stays_in_range(font: u32, delta: i32)
    ensures
        9 <= zoomed_font(font as int, delta as int) <= 24,
        clamp_nat(zoomed_font(font as int, delta as int), 9, 24) == zoomed_font(font as int, delta as int),
{
}

/// Zooming in and back out restores any size below the largest; zooming
/// out and back in restores any size above the smallest.
pub proof fn law_zoom_in_then_out(font: u32)
    ensures
        9 <= font < 24 ==> zoomed_font(zoomed_font(font as int, 1), -1) == font,
        9 < font <= 24 ==> zoomed_font(zoomed_font(font as int, -1), 1) == font,
{
}

} // verus!
