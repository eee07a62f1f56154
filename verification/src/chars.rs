//! Character classes.
use vstd::prelude::*;

verus! {

/// Unicode `White_Space`.
pub open spec fn white(c: char) -> bool {
    ||| '\u{9}' <= c <= '\u{d}'
    ||| c == ' '
    ||| c == '\u{85}'
    ||| c == '\u{a0}'
    ||| c == '\u{1680}'
    ||| '\u{2000}' <= c <= '\u{200a}'
    ||| c == '\u{2028}'
    ||| c == '\u{2029}'
    ||| c == '\u{202f}'
    ||| c == '\u{205f}'
    ||| c == '\u{3000}'
}

/// Unicode general category `Cc`.
pub open spec fn control(c: char) -> bool {
    c <= '\u{1f}' || '\u{7f}' <= c <= '\u{9f}'
}

pub open spec fn ascii_lower(c: char) -> bool {
    'a' <= c <= 'z'
}

pub open spec fn ascii_upper(c: char) -> bool {
    'A' <= c <= 'Z'
}

pub open spec fn ascii_letter(c: char) -> bool {
    ascii_lower(c) || ascii_upper(c)
}

pub open spec fn ascii_alphanumeric(c: char) -> bool {
    ascii_letter(c) || '0' <= c <= '9'
}

/// Punctuation that closes or ends what stands before it.
pub open spec fn closing(c: char) -> bool {
    ||| c == '.'
    ||| c == ','
    ||| c == ';'
    ||| c == ':'
    ||| c == '!'
    ||| c == '?'
    ||| c == ')'
    ||| c == ']'
    ||| c == '}'
    ||| c == '%'
}

/// Slashes and quotes, which stand on both sides of a word.
pub open spec fn binding(c: char) -> bool {
    c == '/' || c == '\\' || c == '\'' || c == '"'
}

/// A code point that a font without a usable Unicode mapping tends to produce: a C0 control or
/// one of the private use area past its first.
pub open spec fn buggy(code: int) -> bool {
    code <= 0x1F || 0xE000 < code <= 0xF8FF
}

/// Whether `c` is Unicode white space.
pub fn is_whitespace(c: char) -> (b: bool)
    ensures
        b == white(c),
{
    ('\u{9}' <= c && c <= '\u{d}') || c == ' ' || c == '\u{85}' || c == '\u{a0}' || c == '\u{1680}'
        || ('\u{2000}' <= c && c <= '\u{200a}') || c == '\u{2028}' || c == '\u{2029}' || c
        == '\u{202f}' || c == '\u{205f}' || c == '\u{3000}'
}

/// Whether `c` is a control character.
pub fn is_control(c: char) -> (b: bool)
    ensures
        b == control(c),
{
    c <= '\u{1f}' || ('\u{7f}' <= c && c <= '\u{9f}')
}

pub(crate) fn is_ascii_lowercase(c: char) -> (b: bool)
    ensures
        b == ascii_lower(c),
{
    'a' <= c && c <= 'z'
}

pub(crate) fn is_ascii_uppercase(c: char) -> (b: bool)
    ensures
        b == ascii_upper(c),
{
    'A' <= c && c <= 'Z'
}

pub(crate) fn is_ascii_alphabetic(c: char) -> (b: bool)
    ensures
        b == ascii_letter(c),
{
    is_ascii_lowercase(c) || is_ascii_uppercase(c)
}

pub(crate) fn is_ascii_alphanumeric(c: char) -> (b: bool)
    ensures
        b == ascii_alphanumeric(c),
{
    is_ascii_alphabetic(c) || ('0' <= c && c <= '9')
}

/// Whether no space is inferred in front of `c`.
pub fn no_space_before(c: char) -> (b: bool)
    ensures
        b == (closing(c) || binding(c)),
{
    c == '.' || c == ',' || c == ';' || c == ':' || c == '!' || c == '?' || c == ')' || c == ']'
        || c == '}' || c == '%' || c == '/' || c == '\\' || c == '\'' || c == '"'
}

/// Whether no space is inferred behind `c`.
pub fn no_space_after(c: char) -> (b: bool)
    ensures
        b == (c == '(' || c == '[' || c == '{' || binding(c)),
{
    c == '(' || c == '[' || c == '{' || c == '/' || c == '\\' || c == '\'' || c == '"'
}

/// Whether `unicode` is a code point that marks a font as unreliable.
pub fn is_buggy_codepoint(unicode: u32) -> (b: bool)
    ensures
        b == buggy(unicode as int),
{
    unicode <= 0x1F || (unicode > 0xE000 && unicode <= 0xF8FF)
}

} // verus!
