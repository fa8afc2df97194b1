//! A local DNS relay library: an RFC 1035 wire codec for DNS messages
//! (datagram and stream framing), a typed message model, a local-answer
//! filter over a hosts table, a TTL-bounded correlation table for matching
//! upstream replies to clients, and the decision logic of the UDP and TCP
//! forwarding engines.
pub mod codec;
pub mod engine;
pub mod message;
pub mod roundtrip;
pub mod table;
pub mod wire;
