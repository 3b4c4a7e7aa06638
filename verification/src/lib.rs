//! Transport-layer building blocks for a remote-access client/server:
//! a length-prefixed frame codec over a byte stream, address-string
//! utilities, and the decision logic that picks between direct, proxied
//! and NAT64-assisted connections.

pub mod addr;
pub mod buffer;
pub mod codec;
pub mod socket_client;
