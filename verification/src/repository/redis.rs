//! A Redis backed implementation of the repository port. The redis client
//! itself is outside code; the key scheme and the parsing of what the
//! server hands back are verified here.
use vstd::prelude::*;

verus! {

use vstd::utf8::encode_utf8;
use crate::decimal::{dec_chars, dec_string_i64, parse_i64_str, spec_parse_i64_lenient};
use crate::short_url::error::RedirectErr;
use crate::short_url::{Redirect, RedirectView};
use crate::text::str_eq;

#[verifier::external_type_specification]
#[verifier::external_body]
pub struct ExRedisClient(redis::Client);

#[verifier::external_type_specification]
#[verifier::external_body]
pub struct ExRedisConnection(redis::Connection);

/// The error raised when a `RedisRepository` cannot be configured.
#[derive(Debug, Clone, Copy, PartialEq, Eq, Structural)]
pub enum RedisInitErr {
    /// The given URL did not parse into a redis configuration
    UrlNotParsed,
}

impl RedisInitErr {
    /// Human-readable description of the error.
    pub fn message(&self) -> (r: String)
        ensures
            r@ == "Redis URL did not parse"@,
    {
        "Redis URL did not parse".to_owned()
    }
}

/// The strings that `redis::Client::open` builds a client from: those that
/// parse as an absolute URL with a redis scheme and a well-formed
/// configuration. The outcome depends on the string alone.
pub uninterp spec fn accepts_redis_url(s: Seq<char>) -> bool;

/// Relies on `redis::Client::open`: builds a client from a URL without
/// touching the network, succeeding exactly on the strings the crate's URL
/// parsing accepts. An accepted string parses as an absolute URL, whose
/// text always contains the scheme separator, so the empty string is never
/// accepted.
#[verifier::external_body]
fn open_client(redis_url: &str) -> (r: Option<redis::Client>)
    ensures
        r is Some <==> accepts_redis_url(redis_url@),
        r is Some ==> exists|k: int| 0 <= k < redis_url@.len() && redis_url@[k] == ':',
{
    redis::Client::open(redis_url).ok()
}

/// Relies on `redis::Client::get_connection`: connects to the configured
/// server; nothing comes back when the server cannot be reached.
#[verifier::external_body]
fn client_connect(client: &redis::Client) -> (r: Option<redis::Connection>) {
    client.get_connection().ok()
}

/// Relies on `redis::Commands::hgetall`: the field/value pairs of the hash
/// stored at `key`, in whatever order the server walks them; nothing comes
/// back on an I/O or conversion failure.
#[verifier::external_body]
fn hash_get_all(conn: &mut redis::Connection, key: &str) -> (r: Option<Vec<(String, String)>>) {
    redis::Commands::hgetall::<&str, Vec<(String, String)>>(conn, key).ok()
}

/// Relies on `redis::Commands::hset_multiple`: stores the given field/value
/// pairs in the hash at `key`, reporting success.
#[verifier::external_body]
fn hash_set_multiple(conn: &mut redis::Connection, key: &str, items: &Vec<(String, String)>) -> (r:
    bool) {
    redis::Commands::hset_multiple::<&str, String, String, ()>(conn, key, items.as_slice()).is_ok()
}

/// The views of a sequence of field/value pairs.
pub open spec fn pair_views(data: Seq<(String, String)>) -> Seq<(Seq<char>, Seq<char>)> {
    data.map_values(|p: (String, String)| (p.0@, p.1@))
}

/// The value under the first pair carrying `k`, if any.
pub open spec fn first_value(pv: Seq<(Seq<char>, Seq<char>)>, k: Seq<char>) -> Option<Seq<char>>
    decreases pv.len(),
{
    if pv.len() == 0 {
        None
    } else if pv[0].0 == k {
        Some(pv[0].1)
    } else {
        first_value(pv.drop_first(), k)
    }
}

/// What a set of hash entries parses to: a record is owed exactly when the
/// three expected fields are present and the creation time reads as a
/// decimal 64-bit value the way `str::parse::<i64>` reads one; anything
/// else is malformed persisted data, a decoding failure reported as
/// `ServerErr`.
pub open spec fn spec_parse_pairs(pv: Seq<(Seq<char>, Seq<char>)>) -> Result<
    RedirectView,
    RedirectErr,
> {
    match first_value(pv, "createdAt"@) {
        None => Err(RedirectErr::ServerErr),
        Some(cas) => match spec_parse_i64_lenient(encode_utf8(cas)) {
            None => Err(RedirectErr::ServerErr),
            Some(ca) => match first_value(pv, "url"@) {
                None => Err(RedirectErr::ServerErr),
                Some(u) => match first_value(pv, "code"@) {
                    None => Err(RedirectErr::ServerErr),
                    Some(co) => Ok(RedirectView { created_at: ca, code: co, url: u }),
                },
            },
        },
    }
}

/// Scans the pairs for the first one carrying `key`.
fn pairs_get<'a>(data: &'a Vec<(String, String)>, key: &str) -> (r: Option<&'a String>)
    ensures
        match r {
            Some(s) => first_value(pair_views(data@), key@) == Some(s@),
            None => first_value(pair_views(data@), key@) is None,
        },
{
    let ghost pv = pair_views(data@);
    let mut i: usize = 0;
    proof {
        assert(pv.skip(0) =~= pv);
    }
    while i < data.len()
        invariant
            i <= data@.len(),
            pv == pair_views(data@),
            first_value(pv, key@) == first_value(pv.skip(i as int), key@),
        decreases data@.len() - i,
    {
        proof {
            assert(pv.skip(i as int).drop_first() =~= pv.skip(i as int + 1));
            assert(pv.skip(i as int)[0] == pv[i as int]);
        }
        if str_eq(data[i].0.as_str(), key) {
            return Some(&data[i].1);
        }
        i = i + 1;
    }
    proof {
        assert(pv.skip(pv.len() as int).len() == 0);
    }
    None
}

/// A Redis backed `RedirectRepository` object
#[derive(Debug)]
pub struct RedisRepository {
    client: redis::Client,
}

impl RedisRepository {
    /// Initialize a new Redis client
    ///
    /// A URL without so much as a scheme separator cannot parse, so it is
    /// owed an error. Unlike the repository's operations, construction
    /// never touches the network; a caller probes the server separately
    /// through `check_connection`.
    pub fn new_redis_client(redis_url: &str) -> (r: Result<redis::Client, RedisInitErr>)
        ensures
            r is Ok <==> accepts_redis_url(redis_url@),
            r matches Err(e) ==> e == RedisInitErr::UrlNotParsed,
            (forall|k: int| 0 <= k < redis_url@.len() ==> redis_url@[k] != ':') ==> r is Err,
    {
        match open_client(redis_url) {
            Some(c) => Ok(c),
            None => Err(RedisInitErr::UrlNotParsed),
        }
    }

    /// Create an instance of RedirectRepository backed by Redis
    ///
    /// Construction only parses the URL; the connection is probed through
    /// `check_connection`.
    pub fn new(redis_url: &str) -> (r: Result<Box<RedisRepository>, RedisInitErr>)
        ensures
            r is Ok <==> accepts_redis_url(redis_url@),
            r matches Err(e) ==> e == RedisInitErr::UrlNotParsed,
            (forall|k: int| 0 <= k < redis_url@.len() ==> redis_url@[k] != ':') ==> r is Err,
    {
        match RedisRepository::new_redis_client(redis_url) {
            Ok(client) => Ok(Box::new(RedisRepository { client })),
            Err(e) => Err(e),
        }
    }

    /// Probes the configured server, reporting whether a connection could
    /// be opened.
    pub fn check_connection(&self) -> bool {
        let conn = client_connect(&self.client);
        conn.is_some()
    }

    /// Generate key for Redis store
    pub fn generate_key(code: &str) -> (r: String)
        ensures
            r@ == "redirect:"@ + code@,
    {
        let mut r = "redirect:".to_owned();
        r.append(code);
        r
    }

    /// Parse field/value pairs returned by Redis into a Redirect object or
    /// die tryin'. A hash missing one of the expected fields is malformed
    /// persisted data, a decoding failure reported as `ServerErr`.
    pub fn parse_hashmap(data: &Vec<(String, String)>) -> (r: Result<Redirect, RedirectErr>)
        ensures
            match r {
                Ok(red) => spec_parse_pairs(pair_views(data@)) == Ok::<RedirectView, RedirectErr>(
                    red@,
                ),
                Err(e) => spec_parse_pairs(pair_views(data@)) == Err::<RedirectView, RedirectErr>(e)
                    && e != RedirectErr::Invalid,
            },
    {
        let created_raw = match pairs_get(data, "createdAt") {
            Some(s) => s,
            None => {
                return Err(RedirectErr::ServerErr);
            },
        };
        let created_at = match parse_i64_str(created_raw.as_str()) {
            Some(v) => v,
            None => {
                return Err(RedirectErr::ServerErr);
            },
        };
        let url = match pairs_get(data, "url") {
            Some(s) => s,
            None => {
                return Err(RedirectErr::ServerErr);
            },
        };
        let code = match pairs_get(data, "code") {
            Some(s) => s,
            None => {
                return Err(RedirectErr::ServerErr);
            },
        };
        Ok(Redirect { created_at, code: code.clone(), url: url.clone() })
    }

    /// Look up URL based on its short code
    ///
    /// What the server holds is outside this crate, so success is never
    /// owed; whatever comes back is the exact parse of some returned hash
    /// entries, and `Invalid` is never produced.
    pub fn find(&self, code: &str) -> (r: Result<Redirect, RedirectErr>)
        ensures
            match r {
                Ok(red) => exists|pv: Seq<(Seq<char>, Seq<char>)>|
                    spec_parse_pairs(pv) == Ok::<RedirectView, RedirectErr>(red@),
                Err(e) => e != RedirectErr::Invalid,
            },
    {
        let key = RedisRepository::generate_key(code);
        let mut conn = match client_connect(&self.client) {
            Some(c) => c,
            None => {
                return Err(RedirectErr::ServerErr);
            },
        };
        let data = match hash_get_all(&mut conn, key.as_str()) {
            Some(d) => d,
            None => {
                return Err(RedirectErr::ServerErr);
            },
        };
        if data.len() == 0 {
            return Err(RedirectErr::NotFound);
        }
        let res = RedisRepository::parse_hashmap(&data);
        proof {
            if res is Ok {
                assert(spec_parse_pairs(pair_views(data@)) == Ok::<RedirectView, RedirectErr>(
                    res->Ok_0@,
                ));
            }
        }
        res
    }

    /// The field/value pairs a record is stored as: exactly the record's
    /// three fields, the creation time rendered in decimal, so that
    /// `parse_hashmap` is owed the record back.
    pub fn redirect_pairs(redirect: &Redirect) -> (v: Vec<(String, String)>)
        ensures
            pair_views(v@) == seq![
                ("code"@, redirect@.code),
                ("url"@, redirect@.url),
                ("createdAt"@, dec_chars(redirect@.created_at)),
            ],
            spec_parse_pairs(pair_views(v@)) == Ok::<RedirectView, RedirectErr>(redirect@),
    {
        let mut data: Vec<(String, String)> = Vec::new();
        data.push(("code".to_owned(), redirect.code.clone()));
        data.push(("url".to_owned(), redirect.url.clone()));
        data.push(("createdAt".to_owned(), dec_string_i64(redirect.created_at)));
        proof {
            reveal_strlit("code");
            reveal_strlit("url");
            reveal_strlit("createdAt");
            let pv = pair_views(data@);
            let s0 = ("code"@, redirect@.code);
            let s1 = ("url"@, redirect@.url);
            let s2 = ("createdAt"@, dec_chars(redirect@.created_at));
            assert(pv =~= seq![s0, s1, s2]);
            assert("code"@.len() == 4 && "url"@.len() == 3 && "createdAt"@.len() == 9);
            assert(pv.drop_first() =~= seq![s1, s2]);
            assert(seq![s1, s2].drop_first() =~= seq![s2]);
            assert(first_value(pv, "code"@) == Some(redirect@.code));
            assert(first_value(seq![s1, s2], "url"@) == Some(redirect@.url));
            assert(first_value(pv, "url"@) == Some(redirect@.url));
            assert(first_value(seq![s2], "createdAt"@) == Some(dec_chars(redirect@.created_at)));
            assert(first_value(seq![s1, s2], "createdAt"@) == Some(
                dec_chars(redirect@.created_at),
            ));
            assert(first_value(pv, "createdAt"@) == Some(dec_chars(redirect@.created_at)));
            crate::decimal::lemma_dec_chars_read_back(redirect@.created_at as int);
        }
        data
    }

    /// Save Redirect object
    ///
    /// What is handed to the server is exactly `redirect_pairs` of the
    /// record, under the key `generate_key` makes of its code; failure to
    /// reach or write the server is `ServerErr`, and no other error is
    /// produced.
    pub fn store(&self, redirect: &Redirect) -> (r: Result<(), RedirectErr>)
        ensures
            r matches Err(e) ==> e == RedirectErr::ServerErr,
    {
        let key = RedisRepository::generate_key(redirect.code.as_str());
        let mut conn = match client_connect(&self.client) {
            Some(c) => c,
            None => {
                return Err(RedirectErr::ServerErr);
            },
        };
        let data = RedisRepository::redirect_pairs(redirect);
        if hash_set_multiple(&mut conn, key.as_str(), &data) {
            Ok(())
        } else {
            Err(RedirectErr::ServerErr)
        }
    }
}

} // verus!
