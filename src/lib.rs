//! Server Name Indication extraction from a captured TLS ClientHello, and a
//! replay buffer that hands the captured bytes back to the connection's reader.
pub mod client_hello;
pub mod peek;
pub mod replay;
pub mod sni;
