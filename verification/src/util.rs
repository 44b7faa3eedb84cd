//! Text helpers for native window toolkits: UTF-16 encoding and the
//! headers of the windows that show a long value.

use vstd::prelude::*;
use crate::text::{chars_of, push_str, push_decimal, decimal, to_owned_string};
use crate::model::tree::{truncate_chars, truncated};
use crate::model::document::{utf16_len, capped};

verus! {

/// The UTF-16 code units of one character.
pub open spec fn utf16_units(c: char) -> Seq<u16> {
    let v = c as u32;
    if v < 0x10000 {
        seq![v as u16]
    } else {
        let w = (v - 0x10000) as int;
        seq![(0xD800 + w / 0x400) as u16, (0xDC00 + w % 0x400) as u16]
    }
}

/// The UTF-16 encoding of `s`.
pub open spec fn utf16_of(s: Seq<char>) -> Seq<u16>
    decreases s.len(),
{
    if s.len() == 0 {
        Seq::empty()
    } else {
        utf16_of(s.drop_last()) + utf16_units(s.last())
    }
}

/// `s` as UTF-16 with a terminating zero, as Win32 calls take text.
pub fn wide(s: &str) -> (r: Vec<u16>)
    ensures
        r@ == utf16_of(s@).push(0u16),
{
    let v = chars_of(s);
    let mut out: Vec<u16> = Vec::new();
    let mut i: usize = 0;
    proof {
        assert(v@.take(0) =~= Seq::<char>::empty());
    }
    while i < v.len()
        invariant
            v@ == s@,
            i <= v@.len(),
            out@ == utf16_of(v@.take(i as int)),
        decreases v@.len() - i,
    {
        let c = v[i];
        let code = c as u32;
        let ghost before = out@;
        if code < 0x10000 {
            out.push(code as u16);
        } else {
            let w = code - 0x10000;
            out.push((0xD800 + w / 0x400) as u16);
            out.push((0xDC00 + w % 0x400) as u16);
        }
        proof {
            assert(v@.take(i + 1).drop_last() =~= v@.take(i as int));
            assert(v@.take(i + 1).last() == c);
            assert(out@ =~= before + utf16_units(c));
        }
        i += 1;
    }
    proof {
        assert(v@.take(i as int) =~= s@);
    }
    out.push(0);
    out
}

/// The length of `s` in UTF-16 code units (held at `usize::MAX`).
pub fn utf16_count(s: &str) -> (r: usize)
    ensures
        r == capped(utf16_len(s@)),
{
    let v = chars_of(s);
    let mut units: usize = 0;
    let mut i: usize = 0;
    proof {
        assert(v@.take(0) =~= Seq::<char>::empty());
    }
    while i < v.len()
        invariant
            v@ == s@,
            i <= v@.len(),
            units == capped(utf16_len(v@.take(i as int))),
        decreases v@.len() - i,
    {
        let c = v[i];
        proof {
            assert(v@.take(i + 1).drop_last() =~= v@.take(i as int));
            assert(v@.take(i + 1).last() == c);
        }
        let w: usize = if (c as u32) >= 0x10000 {
            2
        } else {
            1
        };
        units = units.saturating_add(w);
        i += 1;
    }
    proof {
        assert(v@.take(i as int) =~= s@);
    }
    units
}

/// The header of an expanded value: the key (at most 40 characters) and
/// the value's length in UTF-16 code units, `key • n chars`; and that length.
pub fn expand_header_text(key: &str, full: &str) -> (r: (String, usize))
    ensures
        r.1 == capped(utf16_len(full@)),
        r.0@ == truncated(key@, 40) + " • "@ + decimal(r.1 as nat) + " chars"@,
{
    let units = utf16_count(full);
    let mut text = truncate_chars(key, 40);
    push_str(&mut text, " • ");
    push_decimal(&mut text, units);
    push_str(&mut text, " chars");
    (text, units)
}

/// The title and the count line of the window that shows a value in
/// full: `Value — key` (the key cut at 60 characters) and `n characters`,
/// counted in UTF-16 code units.
pub fn value_dialog_texts(key: &str, value: &str) -> (r: (String, String))
    ensures
        r.0@ == "Value — "@ + truncated(key@, 60),
        r.1@ == decimal(capped(utf16_len(value@))) + " characters"@,
{
    let mut title = to_owned_string("Value — ");
    let short = truncate_chars(key, 60);
    push_str(&mut title, short.as_str());
    let mut count = String::new();
    push_decimal(&mut count, utf16_count(value));
    push_str(&mut count, " characters");
    (title, count)
}

} // verus!
