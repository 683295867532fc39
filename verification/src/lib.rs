//! A verified codec for the RFC1035 DNS message wire format.
//!
//! The crate decodes and encodes DNS messages to and from their wire byte
//! layout: the fixed 12-byte header, domain names as sequences of label,
//! compression-pointer, root and reserved elements, questions, resource
//! records with opaque RDATA, and whole messages section by section.
//! A zero-copy layer records only offsets and lengths into the buffer and
//! materializes entries on demand, and a builder constructs messages from
//! dot-separated text names. Every decoder and encoder carries a contract
//! relating its result to a byte-level specification of the wire format,
//! and round-trip laws are proved against that specification.

pub mod builder;
pub mod decode;
pub mod encode;
mod error;
pub mod refs;
pub mod roundtrip;
pub mod types;
pub mod wire;
pub mod zero_copy;

pub use error::Error;
