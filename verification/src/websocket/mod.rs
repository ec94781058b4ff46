//! The WebSocket side of a connection: the opening handshake, the frame
//! header codec and payload masking.

pub mod frame;
pub mod mask;
pub mod middleware;

pub use middleware::accept_websocket;
