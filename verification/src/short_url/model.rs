use vstd::prelude::*;

verus! {

/// The mathematical view of a [`Redirect`]: the creation time as an
/// unbounded integer and the two strings as character sequences.
pub struct RedirectView {
    pub created_at: int,
    pub code: Seq<char>,
    pub url: Seq<char>,
}

/// A URL redirect model
#[derive(Debug, PartialEq)]
pub struct Redirect {
    /// Creation timestamp
    ///
    /// An offset from the Unix epoch representing creation of this `Redirect`
    pub created_at: i64,

    /// Lookup key
    ///
    /// The identifier used to access a given redirect: the "short" part of a
    /// shortened url
    pub code: String,

    /// Destination Url
    pub url: String,
}

impl View for Redirect {
    type V = RedirectView;

    open spec fn view(&self) -> RedirectView {
        RedirectView {
            created_at: self.created_at as int,
            code: self.code@,
            url: self.url@,
        }
    }
}

} // verus!
