//! The server half of the WebSocket protocol (RFC 6455), as a byte-stream
//! adapter: the payloads of a connection's binary messages, one after the other,
//! are the stream; each write goes out as one binary frame.

pub mod base64;
pub mod duplex;
pub mod frame;
pub mod handshake;
pub mod sha1;
pub mod stream;
pub mod upgrade;
