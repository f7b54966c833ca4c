//! Define the serializer interface our ports/adapters will need to implement
use vstd::prelude::*;

verus! {

use crate::short_url::error::RedirectErr;
use crate::short_url::{Redirect, RedirectView};

/// Provides methods to serialize and deserialize `Redirect` objects
///
/// A wire format is described by two spec functions: `encoding` gives the
/// byte sequence a record is written as, and `parses` gives the record a
/// byte sequence holds, when it holds one.
pub trait RedirectSerializer {
    /// The byte encoding this wire format gives to a redirect.
    spec fn encoding(&self, v: RedirectView) -> Seq<u8>;

    /// The redirect a byte sequence holds in this wire format, if any.
    spec fn parses(&self, b: Seq<u8>) -> Option<RedirectView>;

    /// The records this wire format can write at all; encoding fails
    /// exactly on the rest.
    spec fn encodable(&self, v: RedirectView) -> bool;

    /// Encode a `Redirect` to the serialization format (as a byte sequence)
    ///
    /// Success is owed on every encodable record, and the bytes are exactly
    /// its encoding; anything else is an unexpected internal encoding
    /// error, reported as `ServerErr`.
    fn encode(&self, input: &Redirect) -> (r: Result<Vec<u8>, RedirectErr>)
        ensures
            match r {
                Ok(b) => b@ == self.encoding(input@) && self.encodable(input@),
                Err(e) => e == RedirectErr::ServerErr && !self.encodable(input@),
            },
    ;

    /// Decode the serialization format (as a byte sequence) into a `Redirect`
    ///
    /// Succeeds exactly on the byte sequences the format accepts, and then
    /// returns exactly the record they hold; any malformed input is a
    /// decoding error, reported as `ServerErr`.
    fn decode(&self, input: &Vec<u8>) -> (r: Result<Redirect, RedirectErr>)
        ensures
            match r {
                Ok(red) => self.parses(input@) == Some(red@),
                Err(e) => e == RedirectErr::ServerErr && self.parses(input@) is None,
            },
    ;
}

} // verus!
