//! Character classes of the tokenizer, pinned to the standard library's
//! Unicode queries.

use vstd::prelude::*;

verus! {

/// Whether `char::is_alphabetic` holds of `c` (the Unicode `Alphabetic`
/// property), before the white-space carve-out of `alpha_char`.
pub uninterp spec fn unicode_alpha(c: char) -> bool;

/// Whether `char::is_numeric` holds of `c` (the Unicode `N*` general
/// categories), before the white-space carve-out of `numeric_char`.
pub uninterp spec fn unicode_numeric(c: char) -> bool;

/// The Unicode `White_Space` characters: exactly the set that
/// `char::is_whitespace` accepts.
pub open spec fn white_char(c: char) -> bool {
    c == ' ' || c == '\t' || c == '\n' || c == '\r' || c as u32 == 0x0b || c as u32 == 0x0c
        || c as u32 == 0x85 || c as u32 == 0xa0 || c as u32 == 0x1680 || (0x2000 <= c as u32
        && c as u32 <= 0x200a) || c as u32 == 0x2028 || c as u32 == 0x2029 || c as u32 == 0x202f
        || c as u32 == 0x205f || c as u32 == 0x3000
}

/// A word character: alphabetic, and therefore never white space.
pub open spec fn alpha_char(c: char) -> bool {
    unicode_alpha(c) && !white_char(c)
}

/// A number character: numeric, and therefore never white space.
pub open spec fn numeric_char(c: char) -> bool {
    unicode_numeric(c) && !white_char(c)
}

/// ASCII lower-casing as `char::to_ascii_lowercase` does it:
/// 'A'..='Z' map to 'a'..='z', every other character is unchanged.
pub open spec fn lower_char(c: char) -> char {
    if 65 <= c as u32 && c as u32 <= 90 {
        (((c as u32) + 32) as u8) as char
    } else {
        c
    }
}

/// Relies on `char::is_alphabetic`: the Unicode `Alphabetic` property, a
/// function of the character alone. No `White_Space` character is
/// alphabetic, so the result coincides with `alpha_char`.
pub assume_specification[ char::is_alphabetic ](c: char) -> (r: bool)
    ensures
        r == (unicode_alpha(c) && !white_char(c)),
;

/// Relies on `char::is_numeric`: the Unicode numeric general categories, a
/// function of the character alone. No `White_Space` character is numeric,
/// so the result coincides with `numeric_char`.
pub assume_specification[ char::is_numeric ](c: char) -> (r: bool)
    ensures
        r == (unicode_numeric(c) && !white_char(c)),
;

/// Relies on `char::is_whitespace`: true exactly on the Unicode
/// `White_Space` characters, which `white_char` lists in full.
pub assume_specification[ char::is_whitespace ](c: char) -> (r: bool)
    ensures
        r == white_char(c),
;

/// Relies on `char::to_ascii_lowercase`: 'A'..='Z' map to 'a'..='z' and
/// every other character is returned unchanged.
pub assume_specification[ char::to_ascii_lowercase ](c: &char) -> (r: char)
    ensures
        r == lower_char(*c),
;

/// Relies on `Iterator::collect` for `String`: collecting characters builds
/// the string of exactly those characters.
#[verifier::external_body]
pub(crate) fn string_of_chars(cs: &Vec<char>) -> (r: String)
    ensures
        r@ == cs@,
{
    cs.iter().collect()
}

/// Relies on `str::chars`: the characters of a string, in order.
#[verifier::external_body]
pub(crate) fn chars_of_string(s: &String) -> (r: Vec<char>)
    ensures
        r@ == s@,
{
    s.chars().collect()
}

} // verus!
