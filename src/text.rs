//! Character properties and string building from the standard library.
//!
//! Unicode character classes and case mappings are tables of the Unicode
//! Character Database; they are named here rather than written out, and every
//! statement about them elsewhere in the crate goes through these names.
use vstd::prelude::*;

verus! {

/// Whether the standard library classes `c` as alphabetic or numeric.
pub uninterp spec fn unicode_alphanumeric(c: char) -> bool;

/// Whether the standard library classes `c` as uppercase.
pub uninterp spec fn unicode_uppercase(c: char) -> bool;

/// Whether the standard library classes `c` as lowercase.
pub uninterp spec fn unicode_lowercase(c: char) -> bool;

/// The lowercase mapping of `c`, as the standard library yields it.
pub uninterp spec fn lowercase_mapping(c: char) -> Seq<char>;

/// Relies on `char::is_alphanumeric`, which depends on the character alone.
pub assume_specification[ char::is_alphanumeric ](c: char) -> (r: bool)
    ensures
        r == unicode_alphanumeric(c),
;

/// Relies on `char::is_uppercase`, which depends on the character alone.
pub assume_specification[ char::is_uppercase ](c: char) -> (r: bool)
    ensures
        r == unicode_uppercase(c),
;

/// Relies on `char::is_lowercase`, which depends on the character alone.
pub assume_specification[ char::is_lowercase ](c: char) -> (r: bool)
    ensures
        r == unicode_lowercase(c),
;

/// Relies on `String::push`: appends one character at the end.
pub assume_specification[ String::push ](s: &mut String, ch: char)
    ensures
        final(s)@ == old(s)@.push(ch),
;

/// Relies on `char::to_lowercase`, which yields the lowercase mapping of `c`
/// as one or more characters; they are appended to `out`.
#[verifier::external_body]
pub(crate) fn push_lowercase(out: &mut String, c: char)
    ensures
        final(out)@ == old(out)@ + lowercase_mapping(c),
        final(out)@.len() > old(out)@.len(),
{
    out.extend(c.to_lowercase())
}

} // verus!
