//! Requests, as far as the library reads them.

use crate::middleware::access_control::AllowlistBypassed;
use crate::network::SocketAddr;
use http::{HeaderMap, HeaderValue};
use vstd::prelude::*;

verus! {

pub struct Request {
    pub method: String,
    /// The path, without the query.
    pub path: String,
    /// The path and the query, where the request names one.
    pub path_and_query: Option<String>,
    pub headers: HeaderMap<HeaderValue>,
    /// Where the connection comes from.
    pub peer: Option<SocketAddr>,
    /// Set where the request is not to be limited.
    pub bypass: Option<AllowlistBypassed>,
}

} // verus!
