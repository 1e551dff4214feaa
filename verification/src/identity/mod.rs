//! Who a request is from.

pub mod ip;

use crate::request::Request;
use vstd::prelude::*;
#[allow(unused_imports)]
use vstd::string::*;

verus! {

/// Whom a request is counted for.
#[derive(Clone, Debug, PartialEq, Eq, Hash)]
pub struct Identity {
    pub key: String,
    pub kind: IdentityKind,
}

#[derive(Clone, Copy, Debug, PartialEq, Eq, Hash, Structural)]
pub enum IdentityKind {
    Ip,
}

/// A way to tell whom a request is from. What it goes by is up to the extractor.
pub trait IdentityExtractor {
    /// The key of whom a request is from, if it can be told.
    spec fn key_of(&self, req: Request) -> Option<Seq<char>>;

    fn extract(&self, req: &Request) -> (r: Option<Identity>)
        ensures
            match self.key_of(*req) {
                Some(key) => r matches Some(identity) && identity.key@ == key,
                None => r is None,
            },
    ;

    fn extractor_name(&self) -> &'static str;
}

} // verus!
