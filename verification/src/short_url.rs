//! `short_url` defines the domain logic and ports for a url shortening service.
use vstd::prelude::*;

pub mod error;
mod model;
mod repository;
mod serializer;
mod service;

pub use model::Redirect;
pub use model::RedirectView;
pub use repository::RedirectRepository;
pub use serializer::RedirectSerializer;
pub use service::RedirectService;
pub use service::lemma_store_then_find;
pub use service::lemma_independent_stores;
pub use service::lemma_store_assigns_fresh;

verus! {

use crate::text::{ascii_char, push_char};
use error::RedirectErr;

/// The lowercase hexadecimal digit character for a value below sixteen.
pub open spec fn hex_digit(n: u8) -> char
    recommends
        n < 16,
{
    if n < 10 {
        ascii_char((0x30 + n) as u8)
    } else {
        ascii_char((0x57 + n) as u8)
    }
}

/// The fixed-width lowercase hexadecimal rendering of a byte sequence: each
/// byte becomes exactly two digits, zero-padded.
pub open spec fn hex_of(bytes: Seq<u8>) -> Seq<char>
    decreases bytes.len(),
{
    if bytes.len() == 0 {
        Seq::<char>::empty()
    } else {
        seq![hex_digit(bytes[0] / 16), hex_digit(bytes[0] % 16)] + hex_of(bytes.drop_first())
    }
}

/// A lowercase hexadecimal digit character.
pub open spec fn is_lower_hex_char(c: char) -> bool {
    0x30 <= c as u32 <= 0x39 || 0x61 <= c as u32 <= 0x66
}

/// The shape of a code the service assigns: sixteen lowercase-hex
/// characters, the rendering of a 64-bit identifier.
pub open spec fn is_short_code(s: Seq<char>) -> bool {
    s.len() == 16 && forall|i: int| 0 <= i < s.len() ==> is_lower_hex_char(#[trigger] s[i])
}

/// A hex rendering is twice as long as its input and all lowercase-hex.
pub proof fn lemma_hex_of_props(bytes: Seq<u8>)
    ensures
        hex_of(bytes).len() == 2 * bytes.len(),
        forall|i: int| 0 <= i < hex_of(bytes).len() ==> is_lower_hex_char(#[trigger] hex_of(bytes)[i]),
    decreases bytes.len(),
{
    if bytes.len() > 0 {
        lemma_hex_of_props(bytes.drop_first());
        let b0 = bytes[0];
        assert(b0 / 16 < 16);
        assert(b0 % 16 < 16);
        assert(is_lower_hex_char(hex_digit(b0 / 16)));
        assert(is_lower_hex_char(hex_digit(b0 % 16)));
    }
}

/// Appending a byte appends its two digits.
proof fn lemma_hex_of_push(s: Seq<u8>, x: u8)
    ensures
        hex_of(s.push(x)) =~= hex_of(s) + seq![hex_digit(x / 16), hex_digit(x % 16)],
    decreases s.len(),
{
    if s.len() == 0 {
        assert(s.push(x).drop_first() =~= Seq::<u8>::empty());
        assert(s.push(x)[0] == x);
        assert(hex_of(s.push(x)) == seq![hex_digit(x / 16), hex_digit(x % 16)] + hex_of(
            Seq::<u8>::empty(),
        ));
        assert(hex_of(s.push(x)) =~= hex_of(s) + seq![hex_digit(x / 16), hex_digit(x % 16)]);
    } else {
        lemma_hex_of_push(s.drop_first(), x);
        assert(s.push(x).drop_first() =~= s.drop_first().push(x));
        assert(s.push(x)[0] == s[0]);
        assert(hex_of(s.push(x)) == seq![hex_digit(s[0] / 16), hex_digit(s[0] % 16)] + hex_of(
            s.drop_first().push(x),
        ));
        assert(hex_of(s) == seq![hex_digit(s[0] / 16), hex_digit(s[0] % 16)] + hex_of(
            s.drop_first(),
        ));
        assert(hex_of(s.push(x)) =~= hex_of(s) + seq![hex_digit(x / 16), hex_digit(x % 16)]);
    }
}

/// Convert a slice of `u8` to `String`: two lowercase hex digits per byte.
pub fn to_string(src: &[u8]) -> (r: String)
    ensures
        r@ == hex_of(src@),
{
    let mut r = String::new();
    let mut i: usize = 0;
    while i < src.len()
        invariant
            i <= src@.len(),
            r@ =~= hex_of(src@.take(i as int)),
        decreases src@.len() - i,
    {
        let b = src[i];
        let hi: u8 = b / 16;
        let lo: u8 = b % 16;
        let ch: char = if hi < 10 {
            (0x30 + hi) as char
        } else {
            (0x57 + hi) as char
        };
        let cl: char = if lo < 10 {
            (0x30 + lo) as char
        } else {
            (0x57 + lo) as char
        };
        proof {
            assert(ch == hex_digit(hi));
            assert(cl == hex_digit(lo));
        }
        push_char(&mut r, ch);
        push_char(&mut r, cl);
        proof {
            lemma_hex_of_push(src@.take(i as int), b);
            assert(src@.take(i as int + 1) =~= src@.take(i as int).push(b));
            assert(r@ =~= hex_of(src@.take(i as int + 1)));
        }
        i = i + 1;
    }
    assert(src@.take(src@.len() as int) =~= src@);
    r
}

/// Relies on `std::time::SystemTime::now`: the seconds elapsed since the
/// Unix epoch. Aborts the process when the clock reads before the epoch,
/// which the service treats as an unrecoverable fault rather than an error.
#[verifier::external_body]
fn current_unix_seconds() -> (r: u64) {
    std::time::SystemTime::now()
        .duration_since(std::time::SystemTime::UNIX_EPOCH)
        .expect("Broken clocks")
        .as_secs()
}

/// Relies on `shortid::next_short_64`: draws a pseudo-random 64-bit
/// identifier seeded by the given timestamp. Nothing is known of which
/// bytes come back, only that there are eight of them; generation may
/// fail, and its first use can abort on a pre-epoch clock, the same
/// unrecoverable fault as the clock read above.
#[verifier::external_body]
fn generate_id(seed: u64) -> (r: Option<Vec<u8>>)
    ensures
        match r {
            Some(b) => b@.len() == 8,
            None => true,
        },
{
    match shortid::next_short_64(seed) {
        Ok(arr) => Some(arr.to_vec()),
        Err(_) => None,
    }
}

/// A URL redirect service
pub struct Service<R: RedirectRepository> {
    redirect_repo: R,
}

impl<R: RedirectRepository> Service<R> {
    /// Creates an instance of the `RedirectService` interface
    pub fn new(redirect_repo: R) -> (s: Self)
        ensures
            s.table() == redirect_repo.table(),
            s.infallible() == redirect_repo.infallible(),
    {
        Service { redirect_repo }
    }
}

impl<R: RedirectRepository> RedirectService for Service<R> {
    closed spec fn table(&self) -> Map<Seq<char>, RedirectView> {
        self.redirect_repo.table()
    }

    closed spec fn infallible(&self) -> bool {
        self.redirect_repo.infallible()
    }

    /// Retrieves URLs based on their short code
    fn find(&self, code: &str) -> (r: Result<Redirect, RedirectErr>) {
        self.redirect_repo.find(code)
    }

    /// Saves `Redirect` objects
    fn store(&mut self, redirect: &Redirect) -> (r: Result<Redirect, RedirectErr>) {
        let secs = current_unix_seconds();
        if secs > 0x7fff_ffff_ffff_ffff {
            return Err(RedirectErr::ServerErr);
        }
        let created_at: i64 = secs as i64;
        let id = match generate_id(secs) {
            Some(id) => id,
            None => {
                return Err(RedirectErr::ServerErr);
            },
        };
        let code = to_string(id.as_slice());
        proof {
            lemma_hex_of_props(id@);
        }
        let new_redirect = Redirect { created_at, code, url: redirect.url.clone() };
        match self.redirect_repo.store(&new_redirect) {
            Ok(u) => {
                proof {
                    assert(new_redirect@.code == hex_of(id@) && id@.len() == 8);
                }
                Ok(new_redirect)
            },
            Err(e) => Err(e),
        }
    }
}

} // verus!
