//! Verified core of a TCP-over-pipe tunnel: the wire format of tunnel frames,
//! the connection dispatcher, and the per-connection read/write decisions.

pub mod codec;
pub mod frame;
pub mod message;
pub mod wire;
pub mod dispatcher;
pub mod tcp;
