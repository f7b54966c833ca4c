use hex_microservice::serializer::MsgpackSerializer;
use hex_microservice::short_url::{Redirect, RedirectSerializer};

#[test]
fn mod_encode_decode() {
    let expected = Redirect {
        code: String::from("foo"),
        created_at: 0,
        url: String::from("bar"),
    };
    let serializer = MsgpackSerializer();
    let encoded = serializer.encode(&expected).unwrap();
    let actual = serializer.decode(&encoded).unwrap();

    assert_eq!(expected, actual);
}

#[test]
fn mod_encodes() {
    let serializer = MsgpackSerializer();
    let expected = "[131, 170, 99, 114, 101, 97, 116, 101, 100, 95, 97, 116, 0, 164, 99, 111, 100, 101, 163, 102, 111, 111, 163, 117, 114, 108, 163, 98, 97, 114]";
    let data = Redirect {
        code: String::from("foo"),
        created_at: 0,
        url: String::from("bar"),
    };
    let actual = serializer.encode(&data).unwrap();
    assert_eq!(expected, format!("{:?}", actual));
}

#[test]
fn mod_decodes() {
    let serializer = MsgpackSerializer();
    let data: Vec<u8> = vec![
        131, 170, 99, 114, 101, 97, 116, 101, 100, 95, 97, 116, 0, 164, 99, 111, 100, 101, 163,
        102, 111, 111, 163, 117, 114, 108, 163, 98, 97, 114,
    ];
    let expected = Redirect {
        code: String::from("foo"),
        created_at: 0,
        url: String::from("bar"),
    };
    let actual = serializer.decode(&data).unwrap();

    assert_eq!(expected, actual);
}

#[test]
fn int_families_round_trip() {
    let serializer = MsgpackSerializer();
    let stamps: Vec<i64> = vec![
        0,
        1,
        127,
        128,
        255,
        256,
        65535,
        65536,
        4294967295,
        4294967296,
        i64::MAX,
        -1,
        -32,
        -33,
        -128,
        -129,
        -32768,
        -32769,
        -2147483648,
        -2147483649,
        i64::MIN,
    ];
    for created_at in stamps {
        let record = Redirect {
            code: String::from("c0ffee"),
            created_at,
            url: String::from("https://example.com"),
        };
        let encoded = serializer.encode(&record).unwrap();
        let actual = serializer.decode(&encoded).unwrap();
        assert_eq!(record, actual);
    }
}

#[test]
fn long_strings_round_trip() {
    let serializer = MsgpackSerializer();
    let mut url = String::new();
    for _ in 0..5000 {
        url.push('u');
    }
    let mut code = String::new();
    for _ in 0..40 {
        code.push('c');
    }
    let record = Redirect { code, created_at: 7, url };
    let encoded = serializer.encode(&record).unwrap();
    let actual = serializer.decode(&encoded).unwrap();
    assert_eq!(record, actual);
}

#[test]
fn mod_decodes_url_only_with_defaults() {
    let serializer = MsgpackSerializer();
    // one-entry map holding only the url
    let data: Vec<u8> = vec![129, 163, 117, 114, 108, 163, 98, 97, 114];
    let actual = serializer.decode(&data).unwrap();
    assert_eq!(actual.created_at, 0);
    assert_eq!(actual.code, "");
    assert_eq!(actual.url, "bar");
}

#[test]
fn mod_decodes_tolerantly() {
    let serializer = MsgpackSerializer();
    // two-entry map: an unknown entry (nested array value), then a str8-coded
    // url key
    let body: Vec<u8> = vec![
        130, // fixmap of two entries
        165, 101, 120, 116, 114, 97, // fixstr "extra"
        146, 1, 192, // a two-item array: 1, nil
        217, 3, 117, 114, 108, // str8-coded key "url"
        163, 98, 97, 114, // "bar"
    ];
    let actual = serializer.decode(&body).unwrap();
    assert_eq!(actual.url, "bar");
    assert_eq!(actual.created_at, 0);
    assert_eq!(actual.code, "");
}

#[test]
fn mod_decodes_reordered_keys() {
    let serializer = MsgpackSerializer();
    // url first, then created_at
    let body: Vec<u8> = vec![
        130, 163, 117, 114, 108, 163, 98, 97, 114, // url: bar
        170, 99, 114, 101, 97, 116, 101, 100, 95, 97, 116, 7, // created_at: 7
    ];
    let actual = serializer.decode(&body).unwrap();
    assert_eq!(actual.url, "bar");
    assert_eq!(actual.created_at, 7);
}

#[test]
fn mod_rejects_malformed_bodies() {
    let serializer = MsgpackSerializer();
    assert!(serializer.decode(&vec![]).is_err());
    // map size does not match the entries present
    assert!(serializer.decode(&vec![130, 163, 117, 114, 108, 163, 98, 97, 114]).is_err());
    // missing url
    assert!(serializer.decode(&vec![129, 170, 99, 114, 101, 97, 116, 101, 100, 95, 97, 116, 0]).is_err());
    // truncated string
    assert!(serializer.decode(&vec![129, 163, 117, 114, 108, 163, 98, 97]).is_err());
}
