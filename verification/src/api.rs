//! `api` defines the http-facing decision logic for a url shortening
//! service: everything the transport adapter needs short of the wire
//! itself.
use vstd::prelude::*;

verus! {

use vstd::string::StrSliceExecFns;
use crate::serializer::{JsonSerializer, MsgpackSerializer};
use crate::serializer::json::{json_encoding, json_parse};
use crate::serializer::msgpack::{msgpack_encoding, mp_parse};
use crate::short_url::error::RedirectErr;
use crate::short_url::{Redirect, RedirectSerializer, RedirectService, RedirectView,
    is_short_code};
use crate::text::str_eq;

/// An http response as plain data; the transport adapter turns it into a
/// real response.
pub struct HttpReply {
    /// Status code of the response
    pub status: u16,
    /// Value for the Content-Type header
    pub content_type: String,
    /// Response body
    pub body: Vec<u8>,
}

/// The answer to a lookup request: a redirect to the stored url, or a
/// plain reply carrying an error status.
pub enum GetOutcome {
    /// Redirect the client to this url
    Redirect(String),
    /// Answer with this reply
    Reply(HttpReply),
}

/// The wire formats the handler can speak, selected per request by content
/// type.
pub enum WireFormat {
    /// JSON
    Json,
    /// MessagePack
    Msgpack,
}

impl RedirectSerializer for WireFormat {
    open spec fn encoding(&self, v: RedirectView) -> Seq<u8> {
        match self {
            WireFormat::Json => json_encoding(v),
            WireFormat::Msgpack => msgpack_encoding(v),
        }
    }

    open spec fn parses(&self, b: Seq<u8>) -> Option<RedirectView> {
        match self {
            WireFormat::Json => json_parse(b),
            WireFormat::Msgpack => mp_parse(b),
        }
    }

    open spec fn encodable(&self, v: RedirectView) -> bool {
        match self {
            WireFormat::Json => true,
            WireFormat::Msgpack => vstd::utf8::encode_utf8(v.code).len() < 0x1_0000_0000
                && vstd::utf8::encode_utf8(v.url).len() < 0x1_0000_0000,
        }
    }

    fn encode(&self, input: &Redirect) -> (r: Result<Vec<u8>, RedirectErr>) {
        match self {
            WireFormat::Json => {
                let s = JsonSerializer();
                s.encode(input)
            },
            WireFormat::Msgpack => {
                let s = MsgpackSerializer();
                s.encode(input)
            },
        }
    }

    fn decode(&self, input: &Vec<u8>) -> (r: Result<Redirect, RedirectErr>) {
        match self {
            WireFormat::Json => {
                let s = JsonSerializer();
                s.decode(input)
            },
            WireFormat::Msgpack => {
                let s = MsgpackSerializer();
                s.decode(input)
            },
        }
    }
}

/// The fixed, exhaustive mapping of the error taxonomy onto http status
/// codes.
pub open spec fn status_of(e: RedirectErr) -> u16 {
    match e {
        RedirectErr::NotFound => 404,
        RedirectErr::Invalid => 400,
        RedirectErr::ServerErr => 500,
    }
}

/// The wire format a content type selects.
pub open spec fn chosen(content_type: Seq<char>) -> WireFormat {
    if content_type == "application/x-msgpack"@ {
        WireFormat::Msgpack
    } else {
        WireFormat::Json
    }
}

/// Create internal-error response
pub fn server_err_reply() -> (r: HttpReply)
    ensures
        r.status == 500,
        r.body@ == vstd::utf8::encode_utf8(RedirectErr::ServerErr.spec_message()),
{
    let msg = RedirectErr::ServerErr.message();
    HttpReply { status: 500, content_type: "text/plain".to_owned(), body: msg.as_str().as_bytes_vec() }
}

/// A concrete implementation of the `RedirectHandler` interface
pub struct Handler<S: RedirectService> {
    redirect_service: S,
}

impl<S: RedirectService> Handler<S> {
    /// Creates an instance of the `Handler` type
    pub fn new(redirect_service: S) -> (h: Handler<S>)
        ensures
            h.table() == redirect_service.table(),
    {
        Handler { redirect_service }
    }

    /// The records reachable through the handler's service.
    pub closed spec fn table(&self) -> Map<Seq<char>, RedirectView> {
        self.redirect_service.table()
    }

    /// Creates appropriate http response header
    pub fn setup_response(content_type: String, body: Vec<u8>, status_code: u16) -> (r: HttpReply)
        ensures
            r.status == status_code,
            r.content_type@ == content_type@,
            r.body@ == body@,
    {
        HttpReply { status: status_code, content_type, body }
    }

    /// Get a `RedirectSerializer` for the specified content type
    pub fn serializer(content_type: &str) -> (s: WireFormat)
        ensures
            s == chosen(content_type@),
    {
        if str_eq(content_type, "application/x-msgpack") {
            WireFormat::Msgpack
        } else {
            WireFormat::Json
        }
    }

    /// Create error response
    pub fn reply_with(e: RedirectErr) -> (r: HttpReply)
        ensures
            r.status == status_of(e),
            r.body@ == vstd::utf8::encode_utf8(e.spec_message()),
    {
        let msg = e.message();
        let status: u16 = match e {
            RedirectErr::NotFound => 404,
            RedirectErr::Invalid => 400,
            RedirectErr::ServerErr => 500,
        };
        HttpReply {
            status,
            content_type: "text/plain".to_owned(),
            body: msg.as_str().as_bytes_vec(),
        }
    }

    /// Redirect to stored url
    ///
    /// A hit hands back the stored destination; a miss is a not-found
    /// reply; anything else a server error.
    pub fn get(&self, code: String) -> (r: GetOutcome)
        ensures
            match r {
                GetOutcome::Redirect(url) => self.table().contains_key(code@)
                    && self.table()[code@].url == url@,
                GetOutcome::Reply(rep) => (rep.status == 404 && !self.table().contains_key(code@)
                    && rep.body@ == vstd::utf8::encode_utf8(RedirectErr::NotFound.spec_message()))
                    || (rep.status == 500 && rep.body@ == vstd::utf8::encode_utf8(
                    RedirectErr::ServerErr.spec_message(),
                )),
            },
    {
        match self.redirect_service.find(code.as_str()) {
            Ok(redirect) => GetOutcome::Redirect(redirect.url),
            Err(e) => {
                if e == RedirectErr::NotFound {
                    return GetOutcome::Reply(Handler::<S>::reply_with(e));
                }
                GetOutcome::Reply(server_err_reply())
            },
        }
    }

    /// Create short code for url redirect
    ///
    /// The body is decoded in the format the content type selects, the
    /// record stored under a fresh code, and the stored record written
    /// back in the same format with status 201; an undecodable body or a
    /// storage failure is a server error, and an undecodable body leaves
    /// the records untouched.
    pub fn post(&mut self, content_type: String, req_body: &Vec<u8>) -> (r: HttpReply)
        ensures
            r.status == 201 || r.status == 500,
            chosen(content_type@).parses(req_body@) is None ==> r.status == 500 && final (
            self).table() == old(self).table(),
            r.status == 201 ==> r.content_type@ == content_type@ && (exists|nr: RedirectView|
                {
                    &&& final (self).table() == old(self).table().insert(nr.code, nr)
                    &&& #[trigger] is_short_code(nr.code)
                    &&& nr.url == chosen(content_type@).parses(req_body@)->Some_0.url
                    &&& r.body@ == chosen(content_type@).encoding(nr)
                }),
    {
        let fmt = Handler::<S>::serializer(content_type.as_str());
        let redirect = match fmt.decode(req_body) {
            Ok(red) => red,
            Err(e) => {
                return server_err_reply();
            },
        };
        let stored = match self.redirect_service.store(&redirect) {
            Ok(r2) => r2,
            Err(e) => {
                if e == RedirectErr::Invalid {
                    return Handler::<S>::reply_with(e);
                }
                return server_err_reply();
            },
        };
        let res_body = match fmt.encode(&stored) {
            Ok(bts) => bts,
            Err(e) => {
                return server_err_reply();
            },
        };
        proof {
            assert(is_short_code(stored@.code));
        }
        Handler::<S>::setup_response(content_type, res_body, 201)
    }
}

} // verus!
