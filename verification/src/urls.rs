//! Validation of user-supplied URLs through the `url` crate.

use vstd::prelude::*;

verus! {

/// What `url::Url::parse` returns on an input it accepts: the normalized
/// serialization. The result depends on the input characters alone.
pub uninterp spec fn parsed_url_of(s: Seq<char>) -> Seq<char>;

/// Relies on url::Url::parse for validation and on Url::as_str for the
/// normalized serialization of an accepted URL; `None` on a malformed one.
#[verifier::external_body]
pub(crate) fn parse_url(s: &str) -> (r: Option<String>)
    ensures
        r matches Some(u) ==> u@ == parsed_url_of(s@),
{
    match url::Url::parse(s) {
        Ok(u) => Some(String::from(u.as_str())),
        Err(_) => None,
    }
}

} // verus!
