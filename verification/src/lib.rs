//! A feed-ingestion and delivery engine: typed keys and values with an
//! order-preserving binary encoding, an ordered key/value store holding feed
//! and item records, and the session logic that fetches feeds, deduplicates
//! their items against the store, and hands each new item to a sender exactly
//! once.

pub mod config;
pub mod error;
pub mod feed;
pub mod key_value;
pub mod lex;
pub mod log;
pub mod model;
pub mod pipeline;
pub mod table;

pub use error::Error;
pub use error::ErrorKind;
