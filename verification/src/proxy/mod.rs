//! The way to the upstream.

pub mod http_proxy;

use vstd::prelude::*;
#[allow(unused_imports)]
use vstd::string::*;

verus! {

#[derive(Clone, Debug, PartialEq, Eq)]
pub enum ProxyError {
    Request(String),
    InvalidUri(String),
    /// A request has so many headers that no more can be added.
    TooManyHeaders,
}

impl ProxyError {
    /// What the error reads as.
    pub open spec fn text(self) -> Seq<char> {
        match self {
            ProxyError::Request(reason) => "upstream request failed: "@ + reason@,
            ProxyError::InvalidUri(reason) => "invalid upstream URI: "@ + reason@,
            ProxyError::TooManyHeaders => "too many headers"@,
        }
    }

    pub fn message(&self) -> (r: String)
        ensures
            r@ == self.text(),
    {
        match self {
            ProxyError::Request(reason) => {
                let mut s: String = "upstream request failed: ".to_owned();
                s.append(reason.as_str());
                s
            },
            ProxyError::InvalidUri(reason) => {
                let mut s: String = "invalid upstream URI: ".to_owned();
                s.append(reason.as_str());
                s
            },
            ProxyError::TooManyHeaders => "too many headers".to_owned(),
        }
    }
}

/// Errors are told with their reason.
pub proof fn proxy_errors_are_told(reason: String)
    ensures
        ProxyError::Request(reason).text() == "upstream request failed: "@ + reason@,
        ProxyError::InvalidUri(reason).text() == "invalid upstream URI: "@ + reason@,
{
}

} // verus!
