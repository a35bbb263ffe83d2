//! Client-side core of a distributed package build network.
//!
//! The crate covers the pieces of the client with contractual behavior:
//! the length-prefixed wire framing, the session handshake state machine,
//! the JSON request/response envelope, and the line-oriented package-build
//! recipe format. All I/O (sockets, files, terminals) lives outside this
//! crate; every function here is pure computation over plain values.

pub mod args;
pub mod argparser;
pub mod config;
pub mod envelope;
pub mod frame;
pub mod handshake;
pub mod jparse;
pub mod pkgbuild;
pub mod json;
pub mod text;
pub mod util;
