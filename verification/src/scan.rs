//! Scanning runs of characters of a class, as the pattern grammars of the
//! catalogue pages need them.

use vstd::prelude::*;
use crate::text::{is_white_space, white_space};

verus! {

/// Unicode general category `Nd` (decimal digits), the set that the `\d`
/// class of a Unicode regular expression accepts.
pub open spec fn is_decimal_digit(c: char) -> bool {
    let n = c as u32;
    ||| 0x30 <= n <= 0x39
    ||| 0x660 <= n <= 0x669
    ||| 0x6F0 <= n <= 0x6F9
    ||| 0x7C0 <= n <= 0x7C9
    ||| 0x966 <= n <= 0x96F
    ||| 0x9E6 <= n <= 0x9EF
    ||| 0xA66 <= n <= 0xA6F
    ||| 0xAE6 <= n <= 0xAEF
    ||| 0xB66 <= n <= 0xB6F
    ||| 0xBE6 <= n <= 0xBEF
    ||| 0xC66 <= n <= 0xC6F
    ||| 0xCE6 <= n <= 0xCEF
    ||| 0xD66 <= n <= 0xD6F
    ||| 0xDE6 <= n <= 0xDEF
    ||| 0xE50 <= n <= 0xE59
    ||| 0xED0 <= n <= 0xED9
    ||| 0xF20 <= n <= 0xF29
    ||| 0x1040 <= n <= 0x1049
    ||| 0x1090 <= n <= 0x1099
    ||| 0x17E0 <= n <= 0x17E9
    ||| 0x1810 <= n <= 0x1819
    ||| 0x1946 <= n <= 0x194F
    ||| 0x19D0 <= n <= 0x19D9
    ||| 0x1A80 <= n <= 0x1A89
    ||| 0x1A90 <= n <= 0x1A99
    ||| 0x1B50 <= n <= 0x1B59
    ||| 0x1BB0 <= n <= 0x1BB9
    ||| 0x1C40 <= n <= 0x1C49
    ||| 0x1C50 <= n <= 0x1C59
    ||| 0xA620 <= n <= 0xA629
    ||| 0xA8D0 <= n <= 0xA8D9
    ||| 0xA900 <= n <= 0xA909
    ||| 0xA9D0 <= n <= 0xA9D9
    ||| 0xA9F0 <= n <= 0xA9F9
    ||| 0xAA50 <= n <= 0xAA59
    ||| 0xABF0 <= n <= 0xABF9
    ||| 0xFF10 <= n <= 0xFF19
    ||| 0x104A0 <= n <= 0x104A9
    ||| 0x10D30 <= n <= 0x10D39
    ||| 0x10D40 <= n <= 0x10D49
    ||| 0x11066 <= n <= 0x1106F
    ||| 0x110F0 <= n <= 0x110F9
    ||| 0x11136 <= n <= 0x1113F
    ||| 0x111D0 <= n <= 0x111D9
    ||| 0x112F0 <= n <= 0x112F9
    ||| 0x11450 <= n <= 0x11459
    ||| 0x114D0 <= n <= 0x114D9
    ||| 0x11650 <= n <= 0x11659
    ||| 0x116C0 <= n <= 0x116C9
    ||| 0x116D0 <= n <= 0x116E3
    ||| 0x11730 <= n <= 0x11739
    ||| 0x118E0 <= n <= 0x118E9
    ||| 0x11950 <= n <= 0x11959
    ||| 0x11BF0 <= n <= 0x11BF9
    ||| 0x11C50 <= n <= 0x11C59
    ||| 0x11D50 <= n <= 0x11D59
    ||| 0x11DA0 <= n <= 0x11DA9
    ||| 0x11F50 <= n <= 0x11F59
    ||| 0x16130 <= n <= 0x16139
    ||| 0x16A60 <= n <= 0x16A69
    ||| 0x16AC0 <= n <= 0x16AC9
    ||| 0x16B50 <= n <= 0x16B59
    ||| 0x16D70 <= n <= 0x16D79
    ||| 0x1CCF0 <= n <= 0x1CCF9
    ||| 0x1D7CE <= n <= 0x1D7FF
    ||| 0x1E140 <= n <= 0x1E149
    ||| 0x1E2F0 <= n <= 0x1E2F9
    ||| 0x1E4F0 <= n <= 0x1E4F9
    ||| 0x1E5F1 <= n <= 0x1E5FA
    ||| 0x1E950 <= n <= 0x1E959
    ||| 0x1FBF0 <= n <= 0x1FBF9
}

/// Whether `c` is a Unicode decimal digit.
pub fn decimal_digit(c: char) -> (r: bool)
    ensures
        r == is_decimal_digit(c),
{
    let n = c as u32;
    (0x30 <= n && n <= 0x39) ||
        (0x660 <= n && n <= 0x669) ||
        (0x6F0 <= n && n <= 0x6F9) ||
        (0x7C0 <= n && n <= 0x7C9) ||
        (0x966 <= n && n <= 0x96F) ||
        (0x9E6 <= n && n <= 0x9EF) ||
        (0xA66 <= n && n <= 0xA6F) ||
        (0xAE6 <= n && n <= 0xAEF) ||
        (0xB66 <= n && n <= 0xB6F) ||
        (0xBE6 <= n && n <= 0xBEF) ||
        (0xC66 <= n && n <= 0xC6F) ||
        (0xCE6 <= n && n <= 0xCEF) ||
        (0xD66 <= n && n <= 0xD6F) ||
        (0xDE6 <= n && n <= 0xDEF) ||
        (0xE50 <= n && n <= 0xE59) ||
        (0xED0 <= n && n <= 0xED9) ||
        (0xF20 <= n && n <= 0xF29) ||
        (0x1040 <= n && n <= 0x1049) ||
        (0x1090 <= n && n <= 0x1099) ||
        (0x17E0 <= n && n <= 0x17E9) ||
        (0x1810 <= n && n <= 0x1819) ||
        (0x1946 <= n && n <= 0x194F) ||
        (0x19D0 <= n && n <= 0x19D9) ||
        (0x1A80 <= n && n <= 0x1A89) ||
        (0x1A90 <= n && n <= 0x1A99) ||
        (0x1B50 <= n && n <= 0x1B59) ||
        (0x1BB0 <= n && n <= 0x1BB9) ||
        (0x1C40 <= n && n <= 0x1C49) ||
        (0x1C50 <= n && n <= 0x1C59) ||
        (0xA620 <= n && n <= 0xA629) ||
        (0xA8D0 <= n && n <= 0xA8D9) ||
        (0xA900 <= n && n <= 0xA909) ||
        (0xA9D0 <= n && n <= 0xA9D9) ||
        (0xA9F0 <= n && n <= 0xA9F9) ||
        (0xAA50 <= n && n <= 0xAA59) ||
        (0xABF0 <= n && n <= 0xABF9) ||
        (0xFF10 <= n && n <= 0xFF19) ||
        (0x104A0 <= n && n <= 0x104A9) ||
        (0x10D30 <= n && n <= 0x10D39) ||
        (0x10D40 <= n && n <= 0x10D49) ||
        (0x11066 <= n && n <= 0x1106F) ||
        (0x110F0 <= n && n <= 0x110F9) ||
        (0x11136 <= n && n <= 0x1113F) ||
        (0x111D0 <= n && n <= 0x111D9) ||
        (0x112F0 <= n && n <= 0x112F9) ||
        (0x11450 <= n && n <= 0x11459) ||
        (0x114D0 <= n && n <= 0x114D9) ||
        (0x11650 <= n && n <= 0x11659) ||
        (0x116C0 <= n && n <= 0x116C9) ||
        (0x116D0 <= n && n <= 0x116E3) ||
        (0x11730 <= n && n <= 0x11739) ||
        (0x118E0 <= n && n <= 0x118E9) ||
        (0x11950 <= n && n <= 0x11959) ||
        (0x11BF0 <= n && n <= 0x11BF9) ||
        (0x11C50 <= n && n <= 0x11C59) ||
        (0x11D50 <= n && n <= 0x11D59) ||
        (0x11DA0 <= n && n <= 0x11DA9) ||
        (0x11F50 <= n && n <= 0x11F59) ||
        (0x16130 <= n && n <= 0x16139) ||
        (0x16A60 <= n && n <= 0x16A69) ||
        (0x16AC0 <= n && n <= 0x16AC9) ||
        (0x16B50 <= n && n <= 0x16B59) ||
        (0x16D70 <= n && n <= 0x16D79) ||
        (0x1CCF0 <= n && n <= 0x1CCF9) ||
        (0x1D7CE <= n && n <= 0x1D7FF) ||
        (0x1E140 <= n && n <= 0x1E149) ||
        (0x1E2F0 <= n && n <= 0x1E2F9) ||
        (0x1E4F0 <= n && n <= 0x1E4F9) ||
        (0x1E5F1 <= n && n <= 0x1E5FA) ||
        (0x1E950 <= n && n <= 0x1E959) ||
        (0x1FBF0 <= n && n <= 0x1FBF9)
}

/// A set of characters that a pattern repeats over.
pub enum CharClass {
    /// Unicode white space (`\s`).
    WhiteSpace,
    /// Unicode decimal digits (`\d`).
    DecimalDigit,
    /// Every character but the given one (`[^c]`).
    AllBut(char),
    /// Every character but the two quotes (`[^'"]`).
    NotQuote,
}

/// Whether `c` is a single or a double quote.
pub open spec fn is_quote(c: char) -> bool {
    c == '\'' || c == '"'
}

/// `c` belongs to `cls`.
pub open spec fn in_class(cls: CharClass, c: char) -> bool {
    match cls {
        CharClass::WhiteSpace => is_white_space(c),
        CharClass::DecimalDigit => is_decimal_digit(c),
        CharClass::AllBut(x) => c != x,
        CharClass::NotQuote => !is_quote(c),
    }
}

/// Whether `c` belongs to `cls`.
pub fn class_contains(cls: &CharClass, c: char) -> (r: bool)
    ensures
        r == in_class(*cls, c),
{
    match cls {
        CharClass::WhiteSpace => white_space(c),
        CharClass::DecimalDigit => decimal_digit(c),
        CharClass::AllBut(x) => c != *x,
        CharClass::NotQuote => c != '\'' && c != '"',
    }
}

/// The end of the longest run of characters of `cls` in `s` that starts at
/// `i` (the first index at or after `i` whose character is not in `cls`, or
/// the length of `s`).
pub open spec fn span_end(s: Seq<char>, i: int, cls: CharClass) -> int
    decreases s.len() - i,
{
    if 0 <= i < s.len() && in_class(cls, s[i]) {
        span_end(s, i + 1, cls)
    } else {
        i
    }
}

/// A run lies within the string, holds only characters of the class, and
/// stops at one that is not.
pub proof fn lemma_span_end_bounds(s: Seq<char>, i: int, cls: CharClass)
    ensures
        span_end(s, i, cls) >= i,
        0 <= i <= s.len() ==> span_end(s, i, cls) <= s.len(),
        forall|j: int| i <= j < span_end(s, i, cls) ==> in_class(cls, #[trigger] s[j]),
        0 <= i ==> (span_end(s, i, cls) < s.len() ==> !in_class(cls, s[span_end(s, i, cls)])),
    decreases s.len() - i,
{
    if 0 <= i < s.len() && in_class(cls, s[i]) {
        lemma_span_end_bounds(s, i + 1, cls);
    }
}

/// `span_end` computed over a character vector.
pub fn span_end_exec(s: &Vec<char>, i: usize, cls: &CharClass) -> (r: usize)
    requires
        i <= s.len(),
    ensures
        r as int == span_end(s@, i as int, *cls),
        i <= r <= s.len(),
{
    let mut j = i;
    while j < s.len() && class_contains(cls, s[j])
        invariant
            i <= j <= s.len(),
            span_end(s@, i as int, *cls) == span_end(s@, j as int, *cls),
        decreases s.len() - j,
    {
        j += 1;
    }
    j
}

} // verus!
