use hex_microservice::repository::MemRepository;
use hex_microservice::short_url::error::RedirectErr;
use hex_microservice::short_url::{Redirect, RedirectRepository, RedirectService, Service};

fn is_lower_hex(s: &str) -> bool {
    s.chars().all(|c| ('0'..='9').contains(&c) || ('a'..='f').contains(&c))
}

#[test]
fn store_then_find_returns_the_record() {
    let mut service = Service::new(MemRepository::new());
    let input = Redirect {
        code: String::new(),
        created_at: 0,
        url: String::from("https://example.com"),
    };
    let stored = service.store(&input).unwrap();
    assert_eq!(stored.url, "https://example.com");
    assert_eq!(stored.code.len(), 16);
    assert!(is_lower_hex(&stored.code));
    assert!(stored.created_at > 0);
    let found = service.find(&stored.code).unwrap();
    assert_eq!(found, stored);
}

#[test]
fn find_on_unknown_code_is_not_found() {
    let service = Service::new(MemRepository::new());
    let err = service.find("nonexistent").unwrap_err();
    assert_eq!(err, RedirectErr::NotFound);
}

#[test]
fn store_assigns_code_and_time_itself() {
    let mut service = Service::new(MemRepository::new());
    let input = Redirect {
        code: String::from("woah"),
        created_at: -5,
        url: String::from("https://example.com"),
    };
    let stored = service.store(&input).unwrap();
    assert_ne!(stored.code, "woah");
    assert_ne!(stored.created_at, -5);
    assert!(stored.created_at >= 0);
}

#[test]
fn two_stores_are_independently_retrievable() {
    let mut service = Service::new(MemRepository::new());
    let input = Redirect {
        code: String::new(),
        created_at: 0,
        url: String::from("https://example.com"),
    };
    let first = service.store(&input).unwrap();
    let second = service.store(&input).unwrap();
    assert_ne!(first.code, second.code);
    assert_eq!(service.find(&first.code).unwrap(), first);
    assert_eq!(service.find(&second.code).unwrap(), second);
}

#[test]
fn mem_repository_stores_verbatim_and_replaces() {
    let mut repo = MemRepository::new();
    let a = Redirect {
        code: String::from("k"),
        created_at: 1,
        url: String::from("a"),
    };
    let b = Redirect {
        code: String::from("k"),
        created_at: 2,
        url: String::from("b"),
    };
    repo.store(&a).unwrap();
    assert_eq!(repo.find("k").unwrap(), a);
    repo.store(&b).unwrap();
    assert_eq!(repo.find("k").unwrap(), b);
    assert_eq!(repo.find("other").unwrap_err(), RedirectErr::NotFound);
}

#[test]
fn error_messages() {
    assert_eq!(RedirectErr::NotFound.message(), "Redirect not found");
    assert_eq!(RedirectErr::Invalid.message(), "Redirect Invalid");
    assert_eq!(RedirectErr::ServerErr.message(), "A server error occured");
}
