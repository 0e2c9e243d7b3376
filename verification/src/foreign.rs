//! Calls into the standard library and outside crates whose behaviour the
//! library relies on without proving it. Each function here makes one call
//! and converts its result; its contract restates what the called function
//! documents.
use vstd::prelude::*;
use vstd::string::StringSliceAdditionalSpecFns;
use vstd::utf8::*;

verus! {

/// `std::str::from_utf8`: succeeds exactly on well-formed UTF-8 and then views
/// the same bytes as a string.
#[verifier::external_body]
pub(crate) fn str_from_utf8<'a>(bytes: &'a [u8]) -> (text: Option<&'a str>)
    ensures
        text is Some <==> valid_utf8(bytes@),
        text matches Some(t) ==> t.spec_bytes() == bytes@,
{
    std::str::from_utf8(bytes).ok()
}

/// Indexing a string slice by a byte range (`&text[from..to]`): both ends must
/// be character boundaries, and the result holds the bytes between them.
#[verifier::external_body]
pub(crate) fn str_range<'a>(text: &'a str, from: usize, to: usize) -> (part: &'a str)
    requires
        from <= to <= text.spec_bytes().len(),
        is_char_boundary(text.spec_bytes(), from as int),
        is_char_boundary(text.spec_bytes(), to as int),
    ensures
        part.spec_bytes() == text.spec_bytes().subrange(from as int, to as int),
{
    &text[from..to]
}

/// `char::from_u32`: the character with the given scalar value, or `None`
/// when the value is a surrogate or above `0x10FFFF`.
#[verifier::external_body]
pub(crate) fn char_from_u32(value: u32) -> (c: Option<char>)
    ensures
        c is Some <==> is_scalar(value),
        c matches Some(ch) ==> ch as u32 == value,
{
    char::from_u32(value)
}

/// `String::push`: appends one character.
#[verifier::external_body]
pub(crate) fn string_push(text: &mut String, c: char)
    ensures
        final(text)@ == old(text)@.push(c),
{
    text.push(c)
}

} // verus!
