//! A federated chat server core: a compact length-prefixed binary codec for
//! the protocol messages, and the state machine of one message server.

pub mod messages;
pub mod netproto;
pub mod mailbox;
pub mod router;
pub mod server;
