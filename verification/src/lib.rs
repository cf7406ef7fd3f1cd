//! A minimal DNS responder library: a verified wire-format codec for DNS
//! messages, a TTL-keyed record cache, and the resolution dispatch that
//! ties them together.

pub mod name;
pub mod protocol;
pub mod cache;
pub mod resolver;
pub mod handler;
