//! A URL-shortening service built on a hexagonal (ports-and-adapters)
//! structure: a verified domain core, abstract capability traits for storage
//! and wire formats, and adapters around them.
pub mod api;
pub mod decimal;
pub mod text;
pub mod repository;
pub mod serializer;
pub mod short_url;
