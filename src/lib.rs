//! A log-structured key-value store in the style of Bitcask, with the binary protocol that
//! carries its requests and responses.

pub mod bytes;
pub mod cmd;
pub mod compaction_policy;
pub mod engine;
pub mod error;
pub mod keydir;
pub mod laws;
pub mod reader;
pub mod response;
pub mod server;
pub mod store;
pub mod utf8;
