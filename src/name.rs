//! Validation of group names.
use vstd::prelude::*;
use crate::error::Error;
use crate::text::chars_of;
use vstd::utf8::encode_utf8;

verus! {

/// The largest length of a group name, in bytes.
pub const MAX_NAME_LENGTH: usize = 255;

/// Whether Unicode gives `c` the White_Space property, which `char::is_whitespace`
/// and `str::trim` go by.
pub open spec fn is_white_space(c: char) -> bool {
    ('\u{9}' <= c && c <= '\u{d}') || c == ' ' || c == '\u{85}' || c == '\u{a0}' || c == '\u{1680}'
        || ('\u{2000}' <= c && c <= '\u{200a}') || c == '\u{2028}' || c == '\u{2029}' || c
        == '\u{202f}' || c == '\u{205f}' || c == '\u{3000}'
}

fn white_space(c: char) -> (r: bool)
    ensures
        r == is_white_space(c),
{
    ('\u{9}' <= c && c <= '\u{d}') || c == ' ' || c == '\u{85}' || c == '\u{a0}' || c == '\u{1680}'
        || ('\u{2000}' <= c && c <= '\u{200a}') || c == '\u{2028}' || c == '\u{2029}' || c
        == '\u{202f}' || c == '\u{205f}' || c == '\u{3000}'
}

/// Letters and digits of ASCII, space, hyphen, underscore, period and parentheses.
pub open spec fn name_char_allowed(c: char) -> bool {
    ('a' <= c && c <= 'z') || ('A' <= c && c <= 'Z') || ('0' <= c && c <= '9') || c == ' '
        || c == '-' || c == '_' || c == '.' || c == '(' || c == ')'
}

/// The failure that a name with characters `name` and `byte_len` bytes meets, checked
/// in order: emptiness, length, white space at either end, characters.
pub open spec fn name_error(name: Seq<char>, byte_len: int) -> Option<Error> {
    if name.len() == 0 {
        Some(Error::EmptyName)
    } else if byte_len > MAX_NAME_LENGTH {
        Some(Error::NameTooLong(byte_len as usize))
    } else if is_white_space(name[0]) || is_white_space(name.last()) {
        Some(Error::NameWhitespace)
    } else if exists|i: int| 0 <= i < name.len() && !name_char_allowed(#[trigger] name[i]) {
        Some(Error::NameInvalidCharacters)
    } else {
        None
    }
}

/// The failure that the name `name` meets, measuring its length in UTF-8 bytes.
pub open spec fn name_problem(name: Seq<char>) -> Option<Error> {
    name_error(name, (encode_utf8(name).len() as usize) as int)
}

/// Checks a group name: 1 to 255 bytes, no white space at either end, and only
/// characters of the allowed set.
pub fn validate_name(name: &str) -> (r: Result<(), Error>)
    ensures
        r is Ok <==> name_error(name@, name.len() as int) is None,
        r is Err ==> name_error(name@, name.len() as int) == Some(r->Err_0),
        r is Ok <==> name_problem(name@) is None,
        r is Err ==> name_problem(name@) == Some(r->Err_0),
{
    let cs = chars_of(name);
    if cs.len() == 0 {
        return Err(Error::EmptyName);
    }
    let n = name.len();
    if n > MAX_NAME_LENGTH {
        return Err(Error::NameTooLong(n));
    }
    if white_space(cs[0]) || white_space(cs[cs.len() - 1]) {
        return Err(Error::NameWhitespace);
    }
    let mut i: usize = 0;
    while i < cs.len()
        invariant
            i <= cs.len(),
            cs@ == name@,
            name@.len() > 0,
            name.len() <= MAX_NAME_LENGTH,
            !is_white_space(name@[0]),
            !is_white_space(name@.last()),
            forall|j: int| 0 <= j < i ==> name_char_allowed(#[trigger] cs@[j]),
        decreases cs.len() - i,
    {
        let c = cs[i];
        if !(('a' <= c && c <= 'z') || ('A' <= c && c <= 'Z') || ('0' <= c && c <= '9') || c == ' '
            || c == '-' || c == '_' || c == '.' || c == '(' || c == ')') {
            assert(!name_char_allowed(name@[i as int]));
            return Err(Error::NameInvalidCharacters);
        }
        i += 1;
    }
    Ok(())
}

} // verus!
