use vstd::prelude::*;

verus! {

use crate::short_url::error::RedirectErr;
use crate::short_url::{Redirect, RedirectView, hex_of, is_short_code};

/// Provides a `find` method for looking up URLs based
/// on their short code and a `store` method for saving `Redirect` objects
pub trait RedirectService {
    /// The records reachable through the service, keyed by short code.
    spec fn table(&self) -> Map<Seq<char>, RedirectView>;

    /// Whether the backing store can never fail; lookups on such a service
    /// miss only with `NotFound`.
    spec fn infallible(&self) -> bool;

    /// Retrieves a `Redirect` based on its short code
    ///
    /// Pure delegation to the storage layer: success hands back exactly the
    /// record stored under `code`, `NotFound` comes only when no record
    /// matches, and `Invalid` is never produced.
    fn find(&self, code: &str) -> (r: Result<Redirect, RedirectErr>)
        ensures
            match r {
                Ok(red) => self.table().contains_key(code@) && self.table()[code@] == red@,
                Err(e) => e != RedirectErr::Invalid && (e == RedirectErr::NotFound
                    ==> !self.table().contains_key(code@)),
            },
            self.infallible() ==> (r is Ok <==> self.table().contains_key(code@)),
            self.infallible() && r is Err ==> r == Err::<Redirect, RedirectErr>(
                RedirectErr::NotFound,
            ),
    ;

    /// Save a `Redirect`
    ///
    /// The service stamps the creation time, renders a freshly drawn 64-bit
    /// identifier as a 16-character lowercase-hex code, and persists a new
    /// record carrying the caller's url; the caller's `code` and
    /// `created_at` are ignored. On success the new record is returned; on
    /// failure (`ServerErr` only) nothing changes.
    fn store(&mut self, redirect: &Redirect) -> (r: Result<Redirect, RedirectErr>)
        ensures
            match r {
                Ok(nr) => {
                    &&& nr@.url == redirect@.url
                    &&& nr@.created_at >= 0
                    &&& is_short_code(nr@.code)
                    &&& (exists|b: Seq<u8>| b.len() == 8 && nr@.code == hex_of(b))
                    &&& final (self).table() == old(self).table().insert(nr@.code, nr@)
                },
                Err(e) => e == RedirectErr::ServerErr && final (self).table() == old(self).table(),
            },
            final (self).infallible() == old(self).infallible(),
    ;
}

/// Storing then finding: once a record with code `c` stands in the table, a
/// lookup of `c` cannot miss and is owed exactly that record, with the
/// caller's url and the stamped creation time.
pub proof fn lemma_store_then_find(t: Map<Seq<char>, RedirectView>, v: RedirectView)
    ensures
        t.insert(v.code, v).contains_key(v.code),
        t.insert(v.code, v)[v.code] == v,
{
}

/// Two stores under different codes leave both records independently
/// retrievable, each with its own url.
pub proof fn lemma_independent_stores(
    t: Map<Seq<char>, RedirectView>,
    v1: RedirectView,
    v2: RedirectView,
)
    requires
        v1.code != v2.code,
    ensures
        t.insert(v1.code, v1).insert(v2.code, v2).contains_key(v1.code),
        t.insert(v1.code, v1).insert(v2.code, v2).contains_key(v2.code),
        t.insert(v1.code, v1).insert(v2.code, v2)[v1.code] == v1,
        t.insert(v1.code, v1).insert(v2.code, v2)[v2.code] == v2,
{
}

/// Server-side assignment: a stored redirect never echoes a caller's code
/// that could not have been freshly generated, nor a caller's timestamp
/// lying before the epoch.
pub proof fn lemma_store_assigns_fresh(
    in_code: Seq<char>,
    in_time: int,
    out_code: Seq<char>,
    out_time: int,
)
    requires
        is_short_code(out_code),
        out_time >= 0,
    ensures
        !is_short_code(in_code) ==> out_code != in_code,
        in_time < 0 ==> out_time != in_time,
{
}

} // verus!
