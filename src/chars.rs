use vstd::prelude::*;

verus! {

/// Whether a non-ASCII character has the Unicode `Alphabetic` property.
pub uninterp spec fn unicode_alphabetic(c: char) -> bool;

/// Whether a non-ASCII character is in one of the Unicode numeric categories (Nd, Nl, No).
pub uninterp spec fn unicode_numeric(c: char) -> bool;

pub open spec fn is_ascii_letter(c: char) -> bool {
    ('a' <= c && c <= 'z') || ('A' <= c && c <= 'Z')
}

pub open spec fn is_ascii_digit(c: char) -> bool {
    '0' <= c && c <= '9'
}

/// Letters as `char::is_alphabetic` sees them: ASCII letters, and beyond ASCII the
/// characters with the Unicode `Alphabetic` property.
pub open spec fn alphabetic(c: char) -> bool {
    is_ascii_letter(c) || (c > '\x7f' && unicode_alphabetic(c))
}

/// Numerals as `char::is_numeric` sees them: ASCII digits, and beyond ASCII the
/// characters of the Unicode numeric categories.
pub open spec fn numeric(c: char) -> bool {
    is_ascii_digit(c) || (c > '\x7f' && unicode_numeric(c))
}

pub open spec fn is_whitespace(c: char) -> bool {
    c == ' ' || c == '\n' || c == '\t'
}

/// Relies on `char::is_alphabetic`: within ASCII exactly the letters, beyond it the
/// Unicode `Alphabetic` property.
#[verifier::external_body]
pub(crate) fn char_is_alphabetic(c: char) -> (r: bool)
    ensures
        r == (is_ascii_letter(c) || (c > '\x7f' && unicode_alphabetic(c))),
{
    c.is_alphabetic()
}

/// Relies on `char::is_numeric`: within ASCII exactly the digits, beyond it the
/// Unicode categories Nd, Nl and No.
#[verifier::external_body]
pub(crate) fn char_is_numeric(c: char) -> (r: bool)
    ensures
        r == (is_ascii_digit(c) || (c > '\x7f' && unicode_numeric(c))),
{
    c.is_numeric()
}

/// Relies on `String::push`: appends one character at the end.
#[verifier::external_body]
pub(crate) fn push_char(s: &mut String, c: char)
    ensures
        final(s)@ == old(s)@.push(c),
{
    s.push(c)
}

} // verus!
