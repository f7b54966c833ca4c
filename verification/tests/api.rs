use hex_microservice::api::{GetOutcome, Handler, WireFormat};
use hex_microservice::repository::MemRepository;
use hex_microservice::serializer::JsonSerializer;
use hex_microservice::short_url::error::RedirectErr;
use hex_microservice::short_url::{RedirectSerializer, Service};

type MemHandler = Handler<Service<MemRepository>>;

fn handler() -> MemHandler {
    Handler::new(Service::new(MemRepository::new()))
}

#[test]
fn post_then_get_round_trip() {
    let mut h = handler();
    let body = b"{\"url\":\"https://example.com\"}".to_vec();
    let reply = h.post("application/json".to_string(), &body);
    assert_eq!(reply.status, 201);
    assert_eq!(reply.content_type, "application/json");
    let stored = JsonSerializer().decode(&reply.body).unwrap();
    assert_eq!(stored.url, "https://example.com");
    assert_eq!(stored.code.len(), 16);
    match h.get(stored.code.clone()) {
        GetOutcome::Redirect(url) => assert_eq!(url, "https://example.com"),
        GetOutcome::Reply(rep) => panic!("expected a redirect, got status {}", rep.status),
    }
}

#[test]
fn get_unknown_code_is_not_found() {
    let h = handler();
    match h.get("nonexistent".to_string()) {
        GetOutcome::Redirect(url) => panic!("unexpected redirect to {}", url),
        GetOutcome::Reply(rep) => {
            assert_eq!(rep.status, 404);
            assert_eq!(String::from_utf8(rep.body).unwrap(), "Redirect not found");
        }
    }
}

#[test]
fn post_with_undecodable_body_is_a_server_error() {
    let mut h = handler();
    let reply = h.post("application/json".to_string(), &b"not json".to_vec());
    assert_eq!(reply.status, 500);
    assert_eq!(
        String::from_utf8(reply.body).unwrap(),
        "A server error occured"
    );
}

#[test]
fn serializer_is_chosen_by_content_type() {
    assert!(matches!(
        MemHandler::serializer("application/x-msgpack"),
        WireFormat::Msgpack
    ));
    assert!(matches!(
        MemHandler::serializer("application/json"),
        WireFormat::Json
    ));
    assert!(matches!(
        MemHandler::serializer("anything/else"),
        WireFormat::Json
    ));
}

#[test]
fn reply_with_maps_the_taxonomy_exhaustively() {
    assert_eq!(MemHandler::reply_with(RedirectErr::NotFound).status, 404);
    assert_eq!(MemHandler::reply_with(RedirectErr::Invalid).status, 400);
    assert_eq!(MemHandler::reply_with(RedirectErr::ServerErr).status, 500);
}

#[test]
fn post_in_msgpack_answers_in_msgpack() {
    let mut h = handler();
    // one-entry map holding only the url "bar"
    let body: Vec<u8> = vec![129, 163, 117, 114, 108, 163, 98, 97, 114];
    let reply = h.post("application/x-msgpack".to_string(), &body);
    assert_eq!(reply.status, 201);
    assert_eq!(reply.body[0], 131);
    let stored = hex_microservice::serializer::MsgpackSerializer()
        .decode(&reply.body)
        .unwrap();
    assert_eq!(stored.url, "bar");
}
