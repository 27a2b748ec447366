use vstd::prelude::*;

verus! {

/// The character whose scalar value is `v`, when `v` is one.
pub open spec fn spec_char_of(v: int) -> Option<char> {
    if 0 <= v < 0xD800 || 0xE000 <= v <= 0x10FFFF { Some(v as char) } else { None }
}

/// `char::from_u32`: by its documentation, `Some` of the character with scalar value `v`
/// exactly when `v` is a Unicode scalar value.
#[verifier::external_body]
pub(crate) fn char_from_u32(v: u32) -> (r: Option<char>)
    ensures r == spec_char_of(v as int),
{
    char::from_u32(v)
}

/// `char::from_digit(d, 10)`: by its documentation, the decimal digit `d` when `d < 10`.
#[verifier::external_body]
pub(crate) fn decimal_digit(d: u32) -> (r: Option<char>)
    ensures r == (if d < 10 { Some(('0' as int + d) as char) } else { None::<char> }),
{
    char::from_digit(d, 10)
}

/// `String::push`: appends one character.
#[verifier::external_body]
pub(crate) fn push_char(s: &mut String, c: char)
    ensures final(s)@ == old(s)@.push(c),
{
    s.push(c);
}

#[verifier::external_type_specification]
#[verifier::external_body]
pub struct ExIoError(std::io::Error);

/// `std::io::Error::new` with `ErrorKind::Other` and the given message. Nothing is stated
/// of the error value it builds.
#[verifier::external_body]
pub(crate) fn other_io_error(msg: &str) -> std::io::Error {
    std::io::Error::new(std::io::ErrorKind::Other, msg)
}

} // verus!
