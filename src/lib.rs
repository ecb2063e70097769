//! Core primitives of a staged-sync Ethereum node: the EVM memory arena,
//! the header-download stage and the history-indexed state reader.

mod word;
pub mod evm;
pub mod downloader;
pub mod headers;
pub mod store;
pub mod history;
pub mod kv;
mod outstanding;
pub mod accessors;

pub use word::{Word, H256};
