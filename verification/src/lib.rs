//! A small key-value store and the binary wire protocol it speaks:
//! an in-memory map from string keys to string values with
//! get/put/delete/scan, a variable-length little-endian integer codec,
//! whole-snapshot persistence as a flat record stream, the
//! request/response frames of the network protocol, and a line-oriented
//! text engine.
//!
//! Every function here carries a contract; the network and file I/O
//! around the library lives elsewhere and hands it plain bytes.

pub mod engine;
pub mod persistence;
pub mod protocol;
pub mod store;
pub mod tools;
