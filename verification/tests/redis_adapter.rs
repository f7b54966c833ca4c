use hex_microservice::repository::RedisRepository;
use hex_microservice::short_url::error::RedirectErr;

#[test]
fn make_key() {
    let expected = "redirect:foo";
    let actual = RedisRepository::generate_key("foo");

    assert_eq!(actual, expected);
}

#[test]
fn bad_url() {
    let expected = "Redis URL did not parse";
    let args = "";
    let actual = RedisRepository::new(args).unwrap_err();

    assert_eq!(actual.message(), expected);
}

#[test]
fn parse_hashmap_reads_the_three_fields() {
    let data: Vec<(String, String)> = vec![
        ("code".to_string(), "abc".to_string()),
        ("url".to_string(), "https://example.com".to_string()),
        ("createdAt".to_string(), "-17".to_string()),
    ];
    let red = RedisRepository::parse_hashmap(&data).unwrap();
    assert_eq!(red.code, "abc");
    assert_eq!(red.url, "https://example.com");
    assert_eq!(red.created_at, -17);
}

#[test]
fn parse_hashmap_missing_field_is_a_server_error() {
    let data: Vec<(String, String)> = vec![("createdAt".to_string(), "1".to_string())];
    assert_eq!(
        RedisRepository::parse_hashmap(&data).unwrap_err(),
        RedirectErr::ServerErr
    );
    let empty: Vec<(String, String)> = vec![];
    assert_eq!(
        RedisRepository::parse_hashmap(&empty).unwrap_err(),
        RedirectErr::ServerErr
    );
}

#[test]
fn good_url() {
    let args = "redis://localhost:6379";
    let actual = RedisRepository::new_redis_client(args);
    assert!(actual.is_ok());
}

#[test]
fn good_config() {
    let args = "redis://localhost:6379";
    let actual = RedisRepository::new(args);
    assert!(actual.is_ok());
}

#[test]
fn redirect_pairs_parse_back() {
    let record = hex_microservice::short_url::Redirect {
        code: "c0ffee".to_string(),
        created_at: -42,
        url: "https://example.com".to_string(),
    };
    let pairs = RedisRepository::redirect_pairs(&record);
    assert_eq!(RedisRepository::parse_hashmap(&pairs).unwrap(), record);
}

#[test]
fn parse_hashmap_reads_times_the_way_str_parse_does() {
    let data: Vec<(String, String)> = vec![
        ("createdAt".to_string(), "+7".to_string()),
        ("url".to_string(), "u".to_string()),
        ("code".to_string(), "c".to_string()),
    ];
    assert_eq!(RedisRepository::parse_hashmap(&data).unwrap().created_at, 7);
    let data2: Vec<(String, String)> = vec![
        ("createdAt".to_string(), "007".to_string()),
        ("url".to_string(), "u".to_string()),
        ("code".to_string(), "c".to_string()),
    ];
    assert_eq!(RedisRepository::parse_hashmap(&data2).unwrap().created_at, 7);
}

#[test]
fn parse_hashmap_unreadable_time_is_a_server_error() {
    let data: Vec<(String, String)> = vec![
        ("createdAt".to_string(), "yesterday".to_string()),
        ("url".to_string(), "u".to_string()),
        ("code".to_string(), "c".to_string()),
    ];
    assert_eq!(
        RedisRepository::parse_hashmap(&data).unwrap_err(),
        RedirectErr::ServerErr
    );
}
