//! A verified codec for the DNS wire format, together with the pure logic of
//! a single-datagram query/response server.
//!
//! The codec covers the fixed 12-byte header with its bit-packed flag word,
//! domain names as length-prefixed label sequences with backward compression
//! pointers, question entries, and resource (answer) records.  Every decoder
//! is proved to match a mathematical parsing function and to reject malformed
//! input with an explicit error instead of reading out of bounds.

pub mod errors;
pub mod header;
pub mod message;
pub mod name;
pub mod question;
pub mod record;
pub mod wire;
