//! Core wire representation of RTP (RFC 3550): the fixed packet header
//! codec and the per-session synchronization source identifier space.
//!
//! - `source`: the 32-bit SSRC and CSRC identifiers and their conversions.
//! - `session`: the allocator of fresh SSRCs within one session.
//! - `header`: the header value and its mathematical model.
//! - `codec`: encoding headers to bytes, decoding them back, and the laws
//!   that relate the two.
pub mod codec;
pub mod header;
pub mod session;
pub mod source;
