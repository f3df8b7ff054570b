use vstd::prelude::*;

verus! {

/// The code that stands for the space character.
pub const SPACE_CODE: i32 = 100;

pub open spec fn is_lower(c: char) -> bool {
    'a' <= c && c <= 'z'
}

pub open spec fn is_upper(c: char) -> bool {
    'A' <= c && c <= 'Z'
}

pub open spec fn is_letter(c: char) -> bool {
    is_lower(c) || is_upper(c)
}

/// A character that the ciphers accept: a Latin letter of either case, or a space.
pub open spec fn is_symbol(c: char) -> bool {
    is_letter(c) || c == ' '
}

/// Position of a letter in the alphabet, case folded.
pub open spec fn letter_code(c: char) -> int {
    if is_lower(c) {
        c as int - 'a' as int
    } else {
        c as int - 'A' as int
    }
}

/// The lower-case letter at a position of the alphabet.
pub open spec fn code_letter(x: int) -> char {
    (x + 'a' as int) as char
}

pub fn get_char_numeric_equivalent(c: &char) -> (r: Option<i32>)
    ensures
        r is Some <==> is_symbol(*c),
        *c == ' ' ==> r == Some(SPACE_CODE),
        is_letter(*c) ==> r == Some(letter_code(*c) as i32),
{
    let c = *c;
    if 'a' <= c && c <= 'z' {
        Some((c as u32 - 'a' as u32) as i32)
    } else if 'A' <= c && c <= 'Z' {
        Some((c as u32 - 'A' as u32) as i32)
    } else if c == ' ' {
        Some(SPACE_CODE)
    } else {
        None
    }
}

pub fn get_numeric_char_equivalent(x: i32) -> (r: char)
    requires
        0 <= x < 26 || x == SPACE_CODE,
    ensures
        x == SPACE_CODE ==> r == ' ',
        0 <= x < 26 ==> r == code_letter(x as int),
{
    if x == SPACE_CODE {
        ' '
    } else {
        ((x as u8) + 97u8) as char
    }
}

} // verus!
