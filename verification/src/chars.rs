//! Character classes used by the tokenizer and the line cleaners.

use vstd::prelude::*;

verus! {

/// The two structural delimiters that may separate words inside an entry.
pub open spec fn is_separator_char(c: char) -> bool {
    c == ' ' || c == '/'
}

pub fn separator_char(c: char) -> (r: bool)
    ensures
        r == is_separator_char(c),
{
    c == ' ' || c == '/'
}

/// An ASCII decimal digit, the only characters allowed in an entry identifier.
pub open spec fn is_digit_char(c: char) -> bool {
    '0' <= c && c <= '9'
}

pub fn digit_char(c: char) -> (r: bool)
    ensures
        r == is_digit_char(c),
{
    '0' <= c && c <= '9'
}

/// A character with the Unicode `White_Space` property; such characters are
/// stripped from both ends of every line before the line is interpreted.
pub open spec fn is_blank_char(c: char) -> bool {
    ||| ('\u{0009}' <= c && c <= '\u{000D}')
    ||| c == ' '
    ||| c == '\u{0085}'
    ||| c == '\u{00A0}'
    ||| c == '\u{1680}'
    ||| ('\u{2000}' <= c && c <= '\u{200A}')
    ||| c == '\u{2028}'
    ||| c == '\u{2029}'
    ||| c == '\u{202F}'
    ||| c == '\u{205F}'
    ||| c == '\u{3000}'
}

pub fn blank_char(c: char) -> (r: bool)
    ensures
        r == is_blank_char(c),
{
    ('\u{0009}' <= c && c <= '\u{000D}') || c == ' ' || c == '\u{0085}' || c == '\u{00A0}' || c
        == '\u{1680}' || ('\u{2000}' <= c && c <= '\u{200A}') || c == '\u{2028}' || c == '\u{2029}'
        || c == '\u{202F}' || c == '\u{205F}' || c == '\u{3000}'
}

} // verus!
