use hex_microservice::serializer::JsonSerializer;
use hex_microservice::short_url::{Redirect, RedirectSerializer};

#[test]
fn encode_decode() {
    let serializer = JsonSerializer();
    let expected = Redirect {
        code: String::from("foo"),
        created_at: 0,
        url: String::from("bar"),
    };
    let encoded = serializer.encode(&expected).unwrap();
    let actual = serializer.decode(&encoded).unwrap();

    assert_eq!(expected, actual);
}

#[test]
fn encodes() {
    let serializer = JsonSerializer();
    let expected = "[123, 34, 99, 114, 101, 97, 116, 101, 100, 95, 97, 116, 34, 58, 48, 44, 34, 99, 111, 100, 101, 34, 58, 34, 102, 111, 111, 34, 44, 34, 117, 114, 108, 34, 58, 34, 98, 97, 114, 34, 125]";
    let data = Redirect {
        code: String::from("foo"),
        created_at: 0,
        url: String::from("bar"),
    };
    let actual = serializer.encode(&data).unwrap();
    assert_eq!(expected, format!("{:?}", actual));
}

#[test]
fn decodes() {
    let serializer = JsonSerializer();
    let data: Vec<u8> = vec![
        123, 34, 99, 114, 101, 97, 116, 101, 100, 95, 97, 116, 34, 58, 48, 44, 34, 99, 111, 100,
        101, 34, 58, 34, 102, 111, 111, 34, 44, 34, 117, 114, 108, 34, 58, 34, 98, 97, 114, 34,
        125,
    ];
    let expected = Redirect {
        code: String::from("foo"),
        created_at: 0,
        url: String::from("bar"),
    };
    let actual = serializer.decode(&data).unwrap();
    assert_eq!(expected, actual);
}

#[test]
fn decodes_url_only_with_defaults() {
    let serializer = JsonSerializer();
    let data: Vec<u8> = b"{\"url\":\"https://example.com\"}".to_vec();
    let actual = serializer.decode(&data).unwrap();
    assert_eq!(actual.created_at, 0);
    assert_eq!(actual.code, "");
    assert_eq!(actual.url, "https://example.com");
}

#[test]
fn decodes_negative_created_at() {
    let serializer = JsonSerializer();
    let data: Vec<u8> = b"{\"created_at\":-42,\"url\":\"x\"}".to_vec();
    let actual = serializer.decode(&data).unwrap();
    assert_eq!(actual.created_at, -42);
    assert_eq!(actual.code, "");
    assert_eq!(actual.url, "x");
}

#[test]
fn decodes_tolerantly() {
    let serializer = JsonSerializer();
    // whitespace, reordered members, an unknown member with a nested value
    let body = b" {\n  \"url\": \"https://example.com\",\n  \"created_at\": 7,\n  \"extra\": {\"nested\": [1, true, null, \"x\"]}\n}\n".to_vec();
    let actual = serializer.decode(&body).unwrap();
    assert_eq!(actual.url, "https://example.com");
    assert_eq!(actual.created_at, 7);
    assert_eq!(actual.code, "");
}

#[test]
fn decodes_minus_zero_and_unicode_escapes() {
    let serializer = JsonSerializer();
    let body = b"{\"created_at\":-0,\"url\":\"h\\u00e9llo \\ud83d\\ude00\"}".to_vec();
    let actual = serializer.decode(&body).unwrap();
    assert_eq!(actual.created_at, 0);
    assert_eq!(actual.url, "h\u{e9}llo \u{1f600}");
}

#[test]
fn rejects_lone_surrogates() {
    let serializer = JsonSerializer();
    assert!(serializer.decode(&b"{\"url\":\"\\ud83d\"}".to_vec()).is_err());
    assert!(serializer.decode(&b"{\"url\":\"\\ude00\"}".to_vec()).is_err());
}

#[test]
fn rejects_duplicate_members() {
    let serializer = JsonSerializer();
    let body = b"{\"url\":\"a\",\"url\":\"b\"}".to_vec();
    assert!(serializer.decode(&body).is_err());
}

#[test]
fn rejects_malformed_bodies() {
    let serializer = JsonSerializer();
    assert!(serializer.decode(&b"".to_vec()).is_err());
    assert!(serializer.decode(&b"{}".to_vec()).is_err());
    assert!(serializer.decode(&b"{\"code\":\"x\"}".to_vec()).is_err());
    assert!(serializer.decode(&b"{\"url\":\"x\"}trailing".to_vec()).is_err());
    assert!(serializer.decode(&b"{\"created_at\":012,\"url\":\"x\"}".to_vec()).is_err());
    assert!(serializer.decode(&b"{\"url\":\"x".to_vec()).is_err());
    // invalid UTF-8 inside the string content
    assert!(serializer.decode(&vec![123, 34, 117, 114, 108, 34, 58, 34, 0xff, 34, 125]).is_err());
}

#[test]
fn escapes_round_trip() {
    let serializer = JsonSerializer();
    let tricky = Redirect {
        code: String::from("a\"b\\c"),
        created_at: -1,
        url: String::from("line\nbreak\ttab\u{1}ctrl h\u{e9}llo \u{2192} end"),
    };
    let encoded = serializer.encode(&tricky).unwrap();
    let actual = serializer.decode(&encoded).unwrap();
    assert_eq!(tricky, actual);
}

#[test]
fn escaped_quote_is_written_out() {
    let serializer = JsonSerializer();
    let data = Redirect {
        code: String::new(),
        created_at: 0,
        url: String::from("a\"b"),
    };
    let encoded = serializer.encode(&data).unwrap();
    let text = String::from_utf8(encoded).unwrap();
    assert_eq!(text, "{\"created_at\":0,\"code\":\"\",\"url\":\"a\\\"b\"}");
}
