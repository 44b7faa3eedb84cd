//! Character classes, decimal and hexadecimal rendering, and the small
//! string-building primitives the rest of the library is written with.

use vstd::prelude::*;

verus! {

/// Appends one character to a string (`String::push`).
#[verifier::external_body]
pub(crate) fn push_char(s: &mut String, c: char)
    ensures
        final(s)@ == old(s)@.push(c),
{
    s.push(c);
}

/// Appends a string slice to a string (`String::push_str`).
#[verifier::external_body]
pub(crate) fn push_str(s: &mut String, t: &str)
    ensures
        final(s)@ == old(s)@ + t@,
{
    s.push_str(t);
}

/// The characters of a string slice, in order.
pub fn chars_of(s: &str) -> (r: Vec<char>)
    ensures
        r@ == s@,
{
    let mut out: Vec<char> = Vec::new();
    for c in it: s.chars()
        invariant
            out@ == it.seq().take(it.index() as int),
    {
        out.push(c);
    }
    proof {
        assert(out@ =~= s@);
    }
    out
}

/// A string holding the characters `v[from..to]`.
pub fn string_from_range(v: &Vec<char>, from: usize, to: usize) -> (r: String)
    requires
        from <= to <= v@.len(),
    ensures
        r@ == v@.subrange(from as int, to as int),
{
    let mut out = String::new();
    let mut i = from;
    while i < to
        invariant
            from <= i <= to <= v@.len(),
            out@ == v@.subrange(from as int, i as int),
        decreases to - i,
    {
        push_char(&mut out, v[i]);
        i += 1;
        proof {
            assert(out@ =~= v@.subrange(from as int, i as int));
        }
    }
    out
}

/// A string holding exactly the characters of `v`.
pub fn string_from_chars(v: &Vec<char>) -> (r: String)
    ensures
        r@ == v@,
{
    let r = string_from_range(v, 0, v.len());
    proof {
        assert(v@.subrange(0, v@.len() as int) =~= v@);
    }
    r
}

/// A copy of a string slice.
pub fn to_owned_string(s: &str) -> (r: String)
    ensures
        r@ == s@,
{
    let mut out = String::new();
    push_str(&mut out, s);
    proof {
        assert(out@ =~= s@);
    }
    out
}

/// A copy of a string.
pub fn copy_string(s: &String) -> (r: String)
    ensures
        r@ == s@,
{
    to_owned_string(s.as_str())
}

/// Whether two character sequences are equal, compared one by one.
pub fn seq_eq(a: &str, b: &str) -> (r: bool)
    ensures
        r == (a@ == b@),
{
    let va = chars_of(a);
    let vb = chars_of(b);
    if va.len() != vb.len() {
        return false;
    }
    let mut i: usize = 0;
    while i < va.len()
        invariant
            va@ == a@,
            vb@ == b@,
            va@.len() == vb@.len(),
            i <= va@.len(),
            forall|j: int| 0 <= j < i ==> va@[j] == vb@[j],
        decreases va@.len() - i,
    {
        if va[i] != vb[i] {
            return false;
        }
        i += 1;
    }
    proof {
        assert(va@ =~= vb@);
    }
    true
}

// ---------------------------------------------------------------------
// Character classes

/// The Unicode `White_Space` characters (what `char::is_whitespace` accepts).
pub open spec fn is_ws(c: char) -> bool {
    let v = c as u32;
    ||| (0x09 <= v && v <= 0x0D)
    ||| v == 0x20
    ||| v == 0x85
    ||| v == 0xA0
    ||| v == 0x1680
    ||| (0x2000 <= v && v <= 0x200A)
    ||| v == 0x2028
    ||| v == 0x2029
    ||| v == 0x202F
    ||| v == 0x205F
    ||| v == 0x3000
}

/// Whether `c` is Unicode white space.
pub fn is_whitespace(c: char) -> (r: bool)
    ensures
        r == is_ws(c),
{
    let v = c as u32;
    (0x09 <= v && v <= 0x0D) || v == 0x20 || v == 0x85 || v == 0xA0 || v == 0x1680 || (0x2000
        <= v && v <= 0x200A) || v == 0x2028 || v == 0x2029 || v == 0x202F || v == 0x205F || v
        == 0x3000
}

pub open spec fn is_digit(c: char) -> bool {
    '0' <= c && c <= '9'
}

pub open spec fn is_lower_ascii(c: char) -> bool {
    'a' <= c && c <= 'z'
}

pub open spec fn is_upper_ascii(c: char) -> bool {
    'A' <= c && c <= 'Z'
}

pub open spec fn is_ascii_alpha(c: char) -> bool {
    is_lower_ascii(c) || is_upper_ascii(c)
}

pub open spec fn is_hex_digit(c: char) -> bool {
    is_digit(c) || ('a' <= c && c <= 'f') || ('A' <= c && c <= 'F')
}

/// The value of a hexadecimal digit.
pub open spec fn hex_value(c: char) -> nat {
    if is_digit(c) {
        (c as u32 - '0' as u32) as nat
    } else if 'a' <= c && c <= 'f' {
        (c as u32 - 'a' as u32 + 10) as nat
    } else {
        (c as u32 - 'A' as u32 + 10) as nat
    }
}

/// ASCII lower-casing of a single character; other characters are kept.
pub open spec fn ascii_lower(c: char) -> char {
    if is_upper_ascii(c) {
        ((c as u32) + 32) as char
    } else {
        c
    }
}

pub fn ascii_lower_exec(c: char) -> (r: char)
    ensures
        r == ascii_lower(c),
{
    if 'A' <= c && c <= 'Z' {
        let v = (c as u32) + 32;
        digit_or_letter(v)
    } else {
        c
    }
}

/// The character with an ASCII code below 128.
fn digit_or_letter(v: u32) -> (r: char)
    requires
        v < 128,
    ensures
        r == v as char,
{
    let b = v as u8;
    let c = b as char;
    c
}

/// The character of a decimal digit.
pub open spec fn digit_char(d: nat) -> char {
    ((d + 48) as u32) as char
}

/// The character of a lower-case hexadecimal digit.
pub open spec fn hex_char(d: nat) -> char {
    if d < 10 {
        ((d + 48) as u32) as char
    } else {
        ((d + 87) as u32) as char
    }
}

pub fn hex_char_exec(d: u32) -> (r: char)
    requires
        d < 16,
    ensures
        r == hex_char(d as nat),
{
    if d < 10 {
        digit_or_letter(d + 48)
    } else {
        digit_or_letter(d + 87)
    }
}

/// The decimal rendering of a natural number, most significant digit first.
pub open spec fn decimal(n: nat) -> Seq<char>
    decreases n,
{
    if n < 10 {
        seq![digit_char(n)]
    } else {
        decimal(n / 10) + seq![digit_char(n % 10)]
    }
}

/// Appends the decimal rendering of `n`.
pub fn push_decimal(out: &mut String, n: usize)
    ensures
        final(out)@ == old(out)@ + decimal(n as nat),
    decreases n,
{
    if n >= 10 {
        push_decimal(out, n / 10);
    }
    let d = (n % 10) as u32;
    let c = digit_or_letter(d + 48);
    push_char(out, c);
    proof {
        assert(final(out)@ =~= old(out)@ + decimal(n as nat));
    }
}

/// The decimal rendering of `n` (`usize::to_string`).
pub fn decimal_string(n: usize) -> (r: String)
    ensures
        r@ == decimal(n as nat),
{
    let mut s = String::new();
    push_decimal(&mut s, n);
    proof {
        assert(s@ =~= decimal(n as nat));
    }
    s
}

} // verus!

verus! {

// ---------------------------------------------------------------------
// Trimming

/// The index of the first non-white-space character at or after `i`.
pub open spec fn first_non_ws(s: Seq<char>, i: int) -> int
    decreases s.len() - i,
{
    if i < 0 || i >= s.len() || !is_ws(s[i]) {
        i
    } else {
        first_non_ws(s, i + 1)
    }
}

/// The index just after the last non-white-space character before `j`.
pub open spec fn last_non_ws_end(s: Seq<char>, j: int) -> int
    decreases j,
{
    if j <= 0 || j > s.len() || !is_ws(s[j - 1]) {
        j
    } else {
        last_non_ws_end(s, j - 1)
    }
}

/// `s` without leading and trailing Unicode white space (`str::trim`).
pub open spec fn trim_seq(s: Seq<char>) -> Seq<char> {
    let a = first_non_ws(s, 0);
    let b = last_non_ws_end(s, s.len() as int);
    if a >= b {
        Seq::empty()
    } else {
        s.subrange(a, b)
    }
}

pub proof fn lemma_first_non_ws(s: Seq<char>, i: int)
    requires
        0 <= i <= s.len(),
    ensures
        i <= first_non_ws(s, i) <= s.len(),
    decreases s.len() - i,
{
    if i < s.len() && is_ws(s[i]) {
        lemma_first_non_ws(s, i + 1);
    }
}

pub proof fn lemma_last_non_ws_end(s: Seq<char>, j: int)
    requires
        0 <= j <= s.len(),
    ensures
        0 <= last_non_ws_end(s, j) <= j,
    decreases j,
{
    if j > 0 && is_ws(s[j - 1]) {
        lemma_last_non_ws_end(s, j - 1);
    }
}

/// The bounds `[a, b)` of the trimmed part of `v`.
pub fn trim_bounds(v: &Vec<char>) -> (r: (usize, usize))
    ensures
        r.0 <= r.1 <= v@.len(),
        trim_seq(v@) == v@.subrange(r.0 as int, r.1 as int),
{
    let n = v.len();
    let mut a: usize = 0;
    while a < n && is_whitespace(v[a])
        invariant
            a <= n == v@.len(),
            first_non_ws(v@, 0) == first_non_ws(v@, a as int),
        decreases n - a,
    {
        a += 1;
    }
    let mut b: usize = n;
    while b > 0 && is_whitespace(v[b - 1])
        invariant
            b <= n == v@.len(),
            last_non_ws_end(v@, n as int) == last_non_ws_end(v@, b as int),
        decreases b,
    {
        b -= 1;
    }
    if a >= b {
        proof {
            assert(v@.subrange(a as int, a as int) =~= Seq::<char>::empty());
        }
        (a, a)
    } else {
        (a, b)
    }
}

/// The string with leading and trailing white space removed (`str::trim`).
pub fn trim_string(s: &str) -> (r: String)
    ensures
        r@ == trim_seq(s@),
{
    let v = chars_of(s);
    let (a, b) = trim_bounds(&v);
    string_from_range(&v, a, b)
}

/// Whether `c` occurs in `s`.
pub fn has_char(s: &str, c: char) -> (r: bool)
    ensures
        r == s@.contains(c),
{
    let v = chars_of(s);
    let mut i: usize = 0;
    while i < v.len()
        invariant
            v@ == s@,
            i <= v@.len(),
            forall|j: int| 0 <= j < i ==> v@[j] != c,
        decreases v@.len() - i,
    {
        if v[i] == c {
            proof {
                assert(s@[i as int] == c);
            }
            return true;
        }
        i += 1;
    }
    false
}

/// The number of characters of `s`.
pub fn char_count(s: &str) -> (r: usize)
    ensures
        r == s@.len(),
{
    chars_of(s).len()
}

/// What `str::to_lowercase` gives for `s` (Unicode lower-case mapping).
pub uninterp spec fn lowercase(s: Seq<char>) -> Seq<char>;

/// `str::to_lowercase`: the result is the named `lowercase` of the input.
/// On text that is all ASCII it lower-cases the ASCII letters and keeps
/// every other character, as std documents (`to_ascii_lowercase` is the
/// same mapping restricted to ASCII). What it gives for other characters
/// is left to the name.
#[verifier::external_body]
pub(crate) fn to_lowercase(s: &str) -> (r: String)
    ensures
        r@ == lowercase(s@),
        all_ascii(s@) ==> r@ == ascii_lower_seq(s@),
{
    s.to_lowercase()
}

/// The lower-case form of `s` that `str::to_lowercase` gives: on ASCII
/// text its ASCII letters lower-cased (as the wrapper states), otherwise
/// the named `lowercase`.
pub open spec fn lower_text(s: Seq<char>) -> Seq<char> {
    if all_ascii(s) {
        ascii_lower_seq(s)
    } else {
        lowercase(s)
    }
}

/// Whether every character of `s` is ASCII.
pub open spec fn all_ascii(s: Seq<char>) -> bool {
    forall|i: int| 0 <= i < s.len() ==> (#[trigger] s[i] as u32) < 128
}

/// Whether `n` occurs in `h` as a run of consecutive characters.
pub open spec fn occurs_in(h: Seq<char>, n: Seq<char>) -> bool {
    exists|i: int| 0 <= i && i + n.len() <= h.len() && #[trigger] h.subrange(i, i + n.len()) == n
}

pub open spec fn ascii_lower_seq(s: Seq<char>) -> Seq<char> {
    s.map_values(|c: char| ascii_lower(c))
}

/// Whether `n` occurs in `h`.
pub fn contains_chars(h: &Vec<char>, n: &Vec<char>) -> (r: bool)
    ensures
        r == occurs_in(h@, n@),
{
    if n.len() == 0 {
        proof {
            let z: int = 0;
            assert(h@.subrange(z, z + n@.len()) =~= n@);
        }
        return true;
    }
    if n.len() > h.len() {
        return false;
    }
    let hn = h.len();
    let last = hn - n.len();
    let mut i: usize = 0;
    while i <= last
        invariant
            0 < n@.len() <= h@.len(),
            hn == h@.len(),
            last == h@.len() - n@.len(),
            i <= last + 1,
            forall|j: int| 0 <= j < i ==> #[trigger] h@.subrange(j, j + n@.len()) != n@,
        decreases last + 1 - i,
    {
        let mut k: usize = 0;
        let mut ok = true;
        while ok && k < n.len()
            invariant
                0 < n@.len() <= h@.len(),
                hn == h@.len(),
                i <= last,
                last == h@.len() - n@.len(),
                k <= n@.len(),
                forall|m: int| 0 <= m < k ==> #[trigger] h@[i + m] == n@[m],
                !ok ==> k < n@.len() && h@[i + k] != n@[k as int],
            decreases n@.len() - k + (if ok { 1int } else { 0int }),
        {
            if h[i + k] != n[k] {
                ok = false;
            } else {
                k += 1;
            }
        }
        if ok {
            proof {
                assert forall|m: int| 0 <= m < n@.len() implies h@.subrange(i as int, i + n@.len())[m]
                    == n@[m] by {
                    assert(h@[i + m] == n@[m]);
                }
                assert(h@.subrange(i as int, i + n@.len()) =~= n@);
            }
            return true;
        }
        proof {
            assert(h@.subrange(i as int, i + n@.len())[k as int] != n@[k as int]);
        }
        i += 1;
    }
    false
}

} // verus!
