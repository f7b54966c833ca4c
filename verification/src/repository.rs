//! `repository` provides concrete implementations of the `RedirectRepository` trait
pub mod mem;
pub mod redis;

pub use self::mem::MemRepository;
pub use self::redis::RedisRepository;
