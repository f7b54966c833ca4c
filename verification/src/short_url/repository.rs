//! Repository
//!
//! Define the repository interface our ports/adapters will need to implement
use vstd::prelude::*;

verus! {

use crate::short_url::error::RedirectErr;
use crate::short_url::{Redirect, RedirectView};

/// Provides a `find` method for looking up URLs based
/// on their short code and a `store` method for saving `Redirect` objects
///
/// The abstract state of an implementation is the map from short codes to
/// the records stored under them, given by `table`.
pub trait RedirectRepository {
    /// The records the repository holds, keyed by short code. An adapter
    /// that models no state leaves it at the default.
    open spec fn table(&self) -> Map<Seq<char>, RedirectView> {
        Map::empty()
    }

    /// Whether the backing store can never fail: true only for a backing
    /// whose every operation is total, such as process memory. An adapter
    /// that reaches outside the process leaves it at the default.
    open spec fn infallible(&self) -> bool {
        false
    }

    /// Retrieve a URL from the repo based on its short code
    ///
    /// Success hands back exactly the record stored under `code`;
    /// `NotFound` comes only when no record matches; `ServerErr` covers any
    /// underlying I/O or decoding failure; `Invalid` never comes from the
    /// storage layer.
    fn find(&self, code: &str) -> (r: Result<Redirect, RedirectErr>)
        ensures
            match r {
                Ok(red) => self.table().contains_key(code@) && self.table()[code@] == red@,
                Err(e) => e != RedirectErr::Invalid && (e == RedirectErr::NotFound
                    ==> !self.table().contains_key(code@)),
            },
            self.infallible() ==> (r is Ok <==> self.table().contains_key(code@)),
            self.infallible() && r is Err ==> r == Err::<Redirect, RedirectErr>(
                RedirectErr::NotFound,
            ),
    ;

    /// Save a `Redirect` object to the repository
    ///
    /// The record is persisted verbatim under its code, replacing any record
    /// already stored there; on failure (`ServerErr` only) the repository is
    /// unchanged.
    fn store(&mut self, redirect: &Redirect) -> (r: Result<(), RedirectErr>)
        ensures
            match r {
                Ok(u) => final (self).table() == old(self).table().insert(redirect@.code, redirect@),
                Err(e) => e == RedirectErr::ServerErr && final (self).table() == old(self).table(),
            },
            old(self).infallible() ==> r is Ok,
            final (self).infallible() == old(self).infallible(),
    ;
}

} // verus!
