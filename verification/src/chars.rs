//! Character classification used by the extractor, the sanitizer and the
//! matcher: printable ASCII bytes, acceptable UTF-16 code units, whitespace,
//! control and invisible-format characters, and ASCII case folding.

use vstd::prelude::*;

verus! {

/// A byte that the ASCII sub-scanner keeps: tab, or the printable block
/// from space through tilde.
pub open spec fn is_printable_byte(b: u8) -> bool {
    b == 9 || (0x20 <= b && b <= 0x7e)
}

/// Whether a byte is part of printable ASCII text: tab, or the inclusive
/// range from space (0x20) through tilde (0x7e).
pub fn is_printable_ascii(b: u8) -> (r: bool)
    ensures
        r == is_printable_byte(b),
{
    b == 9 || (0x20 <= b && b <= 0x7e)
}

/// A 16-bit code unit that the UTF-16LE sub-scanner keeps. The scanner maps
/// the unit to a character (surrogates map to the replacement character,
/// which is rejected) and accepts ASCII-graphic characters and the space,
/// so exactly the units from 0x20 through 0x7e survive.
pub open spec fn is_acceptable_unit(w: u16) -> bool {
    0x20 <= w && w <= 0x7e
}

/// Exec twin of [`is_acceptable_unit`].
pub fn acceptable_unit(w: u16) -> (r: bool)
    ensures
        r == is_acceptable_unit(w),
{
    0x20 <= w && w <= 0x7e
}

/// An invisible or zero-width formatting character that the sanitizer
/// strips: zero-width space, zero-width non-joiner, zero-width joiner,
/// zero-width no-break space (BOM), word joiner, soft hyphen, and the
/// combining grapheme joiner.
pub open spec fn is_invisible_format(c: char) -> bool {
    ||| c == '\u{200B}'
    ||| c == '\u{200C}'
    ||| c == '\u{200D}'
    ||| c == '\u{FEFF}'
    ||| c == '\u{2060}'
    ||| c == '\u{00AD}'
    ||| c == '\u{034F}'
}

/// Whether a character is one of the invisible/zero-width formatting
/// characters stripped from banned-list lines.
pub fn is_invisible_format_char(c: char) -> (r: bool)
    ensures
        r == is_invisible_format(c),
{
    c == '\u{200B}' || c == '\u{200C}' || c == '\u{200D}' || c == '\u{FEFF}' || c == '\u{2060}'
        || c == '\u{00AD}' || c == '\u{034F}'
}

/// A Unicode control character: the C0 block below space, and the C1 block
/// from delete (0x7f) through 0x9f.
pub open spec fn is_control_char(c: char) -> bool {
    (c as u32) < 0x20 || (0x7f <= (c as u32) && (c as u32) <= 0x9f)
}

/// Exec twin of [`is_control_char`].
pub fn control_char(c: char) -> (r: bool)
    ensures
        r == is_control_char(c),
{
    let u = c as u32;
    u < 0x20 || (0x7f <= u && u <= 0x9f)
}

/// A character with the Unicode white-space property; this is the set that
/// line trimming and token splitting go by.
pub open spec fn is_whitespace_char(c: char) -> bool {
    let u = c as u32;
    ||| (0x09 <= u && u <= 0x0d)
    ||| u == 0x20
    ||| u == 0x85
    ||| u == 0xa0
    ||| u == 0x1680
    ||| (0x2000 <= u && u <= 0x200a)
    ||| u == 0x2028
    ||| u == 0x2029
    ||| u == 0x202f
    ||| u == 0x205f
    ||| u == 0x3000
}

/// Exec twin of [`is_whitespace_char`].
pub fn whitespace_char(c: char) -> (r: bool)
    ensures
        r == is_whitespace_char(c),
{
    let u = c as u32;
    (0x09 <= u && u <= 0x0d) || u == 0x20 || u == 0x85 || u == 0xa0 || u == 0x1680 || (0x2000 <= u
        && u <= 0x200a) || u == 0x2028 || u == 0x2029 || u == 0x202f || u == 0x205f || u == 0x3000
}

/// A character the sanitizer keeps: neither invisible formatting nor a
/// control character.
pub open spec fn is_kept_char(c: char) -> bool {
    !is_invisible_format(c) && !is_control_char(c)
}

/// ASCII case folding of one character: uppercase letters map to lowercase,
/// everything else is unchanged.
pub open spec fn fold_char(c: char) -> char {
    if 0x41 <= (c as u32) && (c as u32) <= 0x5a {
        ((c as u32) + 0x20) as char
    } else {
        c
    }
}

/// Exec twin of [`fold_char`].
pub fn fold_char_exec(c: char) -> (r: char)
    ensures
        r == fold_char(c),
{
    let u = c as u32;
    if 0x41 <= u && u <= 0x5a {
        ((u + 0x20) as u8) as char
    } else {
        c
    }
}

/// ASCII case folding of a whole character sequence.
pub open spec fn fold_seq(s: Seq<char>) -> Seq<char> {
    s.map_values(|c: char| fold_char(c))
}

} // verus!
