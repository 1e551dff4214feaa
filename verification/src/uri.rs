//! Identifiers of resources, as the `http` crate reads them.

#[allow(unused_imports)]
use crate::headers::is_visible_text;
use vstd::prelude::*;
#[allow(unused_imports)]
use vstd::string::*;

verus! {

/// What `http::Uri` makes of a text: the authority that it names, if any, or, where the text is
/// no identifier, what the error reads as.
pub uninterp spec fn uri_of(text: Seq<char>) -> Result<Option<Seq<char>>, Seq<char>>;

/// The text of an authority, if there is one.
pub open spec fn optional_text(s: Option<String>) -> Option<Seq<char>> {
    match s {
        Some(s) => Some(s@),
        None => None,
    }
}

/// The texts of the authority or of the error.
pub open spec fn parsed_text(r: Result<Option<String>, String>) -> Result<
    Option<Seq<char>>,
    Seq<char>,
> {
    match r {
        Ok(authority) => Ok(optional_text(authority)),
        Err(error) => Err(error@),
    }
}

/// `<http::Uri as FromStr>::from_str`, with `Uri::authority`: a function of the text alone. The
/// parser takes no authority that is not visible ASCII.
#[verifier::external_body]
pub(crate) fn parse_uri(text: &str) -> (r: Result<Option<String>, String>)
    ensures
        parsed_text(r) == uri_of(text@),
        r matches Ok(Some(authority)) ==> is_visible_text(authority@),
{
    match text.parse::<http::Uri>() {
        Ok(uri) => Ok(uri.authority().map(|authority| authority.to_string())),
        Err(error) => Err(error.to_string()),
    }
}

} // verus!
