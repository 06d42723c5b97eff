use vstd::prelude::*;

verus! {

/// Whether validator accepts `s` as an e-mail address.
pub uninterp spec fn email_accepted(s: Seq<char>) -> bool;

/// Relies on `validator::validate_email`: whether `s` is an acceptable
/// e-mail address. An empty string, or one without '@', never is.
#[verifier::external_body]
pub(crate) fn is_email(s: &String) -> (r: bool)
    ensures
        r == email_accepted(s@),
        r ==> s@.len() > 0 && s@.contains('@'),
{
    validator::validate_email(s.as_str())
}

/// Relies on `validator::validate_length` with a lower bound only: it
/// counts the characters of `s` against `min`.
#[verifier::external_body]
pub(crate) fn has_min_length(s: &String, min: u64) -> (r: bool)
    ensures
        r == (s@.len() >= min),
{
    validator::validate_length(s, Some(min), None, None)
}

} // verus!
