//! `serializer` provides concrete implementations of the `RedirectSerializer` interface
pub mod json;
pub mod msgpack;
pub mod wire;

pub use self::json::JsonSerializer;
pub use msgpack::MsgpackSerializer;
