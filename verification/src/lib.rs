//! Moonshine: the verified core of a lightweight DarkFi wallet.
pub mod amount;
pub mod block_cache;
pub mod bytes;
pub mod clue;
pub mod coins;
pub mod config;
pub mod db;
pub mod field;
pub mod hexcodec;
pub mod import;
pub mod memo;
pub mod pairs;
pub mod pruning;
pub mod send;
pub mod serial;
pub mod server;
pub mod stub;
pub mod sync_progress;
pub mod text;
pub mod tx_builder;
