use vstd::prelude::*;

verus! {

/// Compares two string slices by their characters.
///
/// Wraps `<str as PartialEq>::eq` from std, which vstd leaves unspecified;
/// trusted: std documents string equality as equality of the contents.
#[verifier::external_body]
pub(crate) fn str_eq(a: &str, b: &str) -> (r: bool)
    ensures
        r == (a@ == b@),
{
    a == b
}

/// Copies a string slice into an owned `String` with the same characters.
pub fn owned(s: &str) -> (r: String)
    ensures
        r@ == s@,
{
    s.to_string()
}

} // verus!
