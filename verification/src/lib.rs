//! Server core of a small multi-user forest simulation: wire codecs, the
//! WebSocket transport, the per-connection session state machine, the tree
//! registry of the world and the message routing between the network and the
//! simulation workers.

pub mod bytes;
pub mod connections;
pub mod http;
pub mod math;
pub mod packet;
pub mod rendering;
pub mod server;
pub mod text;
pub mod world;
pub mod ws;
