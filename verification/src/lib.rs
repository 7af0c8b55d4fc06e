//! Backend bridge for a fixed external mail-service HTTP API.
//!
//! The library owns everything that can be stated and proved: resolving the
//! API configuration, encoding request bodies and decoding response envelopes
//! (a small JSON codec of its own), and mapping an envelope to a typed
//! success or an error string. The HTTP transport itself and the host runtime
//! live outside the library and hand it plain strings.

pub mod bridge;
pub mod codec;
pub mod config;
pub mod json;
