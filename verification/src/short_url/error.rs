//! Custom error types for the short url domain.
use vstd::prelude::*;

verus! {

/// An enumeration of the possible error types the url shortener may produce.
#[derive(Debug, Clone, Copy, PartialEq, Eq, Structural)]
pub enum RedirectErr {
    /// `Redirect` with the specified short code could not be located
    NotFound,
    /// Invalid data/request/etc according to context
    Invalid,
    /// Generic catch all error
    ServerErr,
}

impl RedirectErr {
    /// The descriptive text of this error, as the transport layer reports it.
    pub open spec fn spec_message(&self) -> Seq<char> {
        match self {
            RedirectErr::NotFound => "Redirect not found"@,
            RedirectErr::Invalid => "Redirect Invalid"@,
            RedirectErr::ServerErr => "A server error occured"@,
        }
    }

    /// Human-readable description of the error.
    pub fn message(&self) -> (r: String)
        ensures
            r@ == self.spec_message(),
    {
        match self {
            RedirectErr::NotFound => "Redirect not found".to_owned(),
            RedirectErr::Invalid => "Redirect Invalid".to_owned(),
            RedirectErr::ServerErr => "A server error occured".to_owned(),
        }
    }
}

} // verus!
