//! A pipelined line-protocol server core: a newline-delimited framing codec
//! over raw bytes, a transport binding that pairs the codec with per-connection
//! buffers, a pluggable request/response service, and a per-connection pipeline
//! that answers requests strictly in arrival order.

pub mod codec;
pub mod service;
pub mod transport;
pub mod pipeline;
pub mod dispatch;
