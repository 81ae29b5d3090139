use vstd::prelude::*;

verus! {

/// The characters that may stand between tokens.
pub open spec fn is_ws(c: char) -> bool {
    c == ' ' || c == '\t' || c == '\n' || c == '\r'
}

pub open spec fn is_digit(c: char) -> bool {
    '0' <= c && c <= '9'
}

/// The value of a hexadecimal digit of either case.
pub open spec fn hex_value(c: char) -> Option<u32> {
    if '0' <= c && c <= '9' {
        Some((c as u32 - '0' as u32) as u32)
    } else if 'a' <= c && c <= 'f' {
        Some((c as u32 - 'a' as u32 + 10) as u32)
    } else if 'A' <= c && c <= 'F' {
        Some((c as u32 - 'A' as u32 + 10) as u32)
    } else {
        None
    }
}

/// A Unicode scalar value: a code point that is not a surrogate.
pub open spec fn is_scalar(code: u32) -> bool {
    code <= 0x10FFFF && !(0xD800 <= code && code <= 0xDFFF)
}

/// Relies on `String::push`: it appends one character.
pub assume_specification[ std::string::String::push ](s: &mut std::string::String, ch: char)
    ensures
        final(s)@ == old(s)@.push(ch),
;

/// Relies on `char::from_u32`: it gives the character of a scalar value, and
/// `None` for any other number.
pub assume_specification[ core::char::from_u32 ](i: u32) -> (r: Option<char>)
    ensures
        r == (if is_scalar(i) {
            Some(i as char)
        } else {
            None
        }),
;

pub fn is_ws_char(c: char) -> (r: bool)
    ensures
        r == is_ws(c),
{
    c == ' ' || c == '\t' || c == '\n' || c == '\r'
}

pub fn is_digit_char(c: char) -> (r: bool)
    ensures
        r == is_digit(c),
{
    c >= '0' && c <= '9'
}

pub fn hex_digit(c: char) -> (r: Option<u32>)
    ensures
        r == hex_value(c),
{
    if c >= '0' && c <= '9' {
        Some(c as u32 - '0' as u32)
    } else if c >= 'a' && c <= 'f' {
        Some(c as u32 - 'a' as u32 + 10)
    } else if c >= 'A' && c <= 'F' {
        Some(c as u32 - 'A' as u32 + 10)
    } else {
        None
    }
}

} // verus!
