//! A length-prefixed message-framing protocol under a single-exchange
//! request/response server, modelling a travel-itinerary service: a
//! traveller asks a tour-guide about a shared ordered list of locations
//! and the current position within it.
//!
//! The crate holds the verified core: the message vocabulary, the frame
//! codec (a 4-byte big-endian length prefix in front of a textual,
//! self-describing encoding of one message), the itinerary decision
//! function, and the per-connection exchange step. Transport I/O lives
//! outside the library and hands byte buffers in and out.

pub mod client;
pub mod codec;
pub mod dispatch;
pub mod itinerary;
pub mod messages;
