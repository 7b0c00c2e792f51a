//! Character facts that the conversions rest on.
use vstd::prelude::*;

verus! {

/// The Unicode `White_Space` property (PropList.txt): the characters that
/// separate words for `char::is_whitespace`, `str::trim` and
/// `str::split_whitespace`.
pub open spec fn is_white_space(c: char) -> bool {
    let u = c as u32;
    ||| 0x09 <= u <= 0x0d
    ||| u == 0x20
    ||| u == 0x85
    ||| u == 0xa0
    ||| u == 0x1680
    ||| 0x2000 <= u <= 0x200a
    ||| u == 0x2028
    ||| u == 0x2029
    ||| u == 0x202f
    ||| u == 0x205f
    ||| u == 0x3000
}

/// `char::is_whitespace`: true exactly for the characters with the Unicode
/// `White_Space` property, listed by `is_white_space`.
#[verifier::external_body]
pub(crate) fn is_whitespace(c: char) -> (r: bool)
    ensures
        r == is_white_space(c),
{
    c.is_whitespace()
}

/// The first character of the Unicode uppercase mapping of a non-ASCII `c`.
pub uninterp spec fn unicode_upper_first(c: char) -> char;

/// The ASCII case mapping: `a`..=`z` to `A`..=`Z`, every other character kept.
pub open spec fn ascii_upper(c: char) -> char {
    if 'a' <= c <= 'z' {
        ((c as u32) - 32) as char
    } else {
        c
    }
}

/// The first character of the uppercase mapping of `c`: the ASCII case
/// mapping on ASCII, the Unicode mapping (named, not written out) beyond.
pub open spec fn upper_first(c: char) -> char {
    if (c as u32) < 128 {
        ascii_upper(c)
    } else {
        unicode_upper_first(c)
    }
}

/// The first character that `char::to_uppercase` yields for `c` (the
/// iterator always yields at least one). On ASCII this is the ASCII case
/// mapping; beyond ASCII the Unicode mapping is not written out here but
/// named `unicode_upper_first`, a function of `c` alone.
#[verifier::external_body]
pub(crate) fn to_upper(c: char) -> (r: char)
    ensures
        (c as u32) < 128 ==> r == ascii_upper(c),
        (c as u32) >= 128 ==> r == unicode_upper_first(c),
{
    c.to_uppercase().next().unwrap()
}

/// `String::push` appends one character.
pub assume_specification[ String::push ](s: &mut String, ch: char)
    ensures
        final(s)@ == old(s)@.push(ch),
;

} // verus!
