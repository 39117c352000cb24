//! A local process-supervising RPC client core.
//!
//! Subprocesses speak a JSON-RPC-like protocol framed over their standard
//! streams with `Content-Length` headers. This crate holds the verified
//! logic of that client: the structured-data (JSON) model and its byte-exact
//! codec, the frame codec, the request correlator, the server registry, the
//! exchange engine's decision functions, and the lifecycle rules. All
//! process and pipe I/O is performed by the surrounding application, which
//! hands this library plain values.

pub mod frame;
pub mod ids;
pub mod json;
pub mod lifecycle;
pub mod parse;
pub mod registry;
pub mod rpc;
pub mod skills;
pub mod store;
pub mod types;
