//! Smart sockets: message envelopes and framing, routing among peers, resend
//! timing, connection life cycles, and a WebSocket transport.

pub mod be;
pub mod broker;
pub mod buf;
pub mod config;
pub mod conn;
pub mod dial;
pub mod frames;
pub mod guarantees;
pub mod ids;
pub mod inbound;
pub mod msgproto;
pub mod outbox;
pub mod peers;
pub mod polled;
pub mod protocol;
pub mod registry;
pub mod socket;
pub mod text;
pub mod timers;
pub mod tls;
pub mod utils;
pub mod ws;
