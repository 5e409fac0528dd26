//! A small transport-layer protocol that relays arbitrary-length messages
//! over a CAN bus.
//!
//! Every message is identified by a `(topic, device)` pair, packed together
//! with a fixed protocol marker into the 29-bit extended bus identifier.
//! A message travels as one head frame (carrying the total length and the
//! first few bytes) followed by numbered tail frames; the receiving side
//! reassembles the fragments per source address in a fixed-capacity table.
//!
//! The modules mirror the protocol's components:
//! - [`codec`]: packing and unpacking of the extended bus identifier;
//! - [`filter`]: construction of the hardware acceptance-filter ranges;
//! - [`frame`]: the model of a raw bus frame;
//! - [`sender`]: fragmentation of an outbound payload into bus frames;
//! - [`receiver`]: stateful reassembly of inbound frames into messages;
//! - [`roundtrip`]: the proof that the receive path undoes the send path.

pub mod codec;
pub mod filter;
pub mod frame;
pub mod receiver;
pub mod roundtrip;
pub mod sender;
