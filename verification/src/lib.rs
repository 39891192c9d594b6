//! A minimal HTTP/1.1 server core: incremental request-head parsing,
//! response serialization, and the per-connection protocol loop, all
//! specified and verified down to the exact wire bytes.
//!
//! Socket handling (listening, reading, writing) lives outside this
//! library; the connection loop here is a pure function from received
//! bytes to response bytes.

pub mod digits;
pub mod conn;
pub mod parse;
pub mod response;
