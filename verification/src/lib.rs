//! A verified wire-protocol engine for a minimal HTTP/1.1 server: request
//! decoding from raw bytes under partial reads and timeouts, response
//! encoding with deterministic framing, and the routing rules that map a
//! request to a response.
pub mod bytes;
pub mod http;
pub mod request;
pub mod response;
pub mod router;
