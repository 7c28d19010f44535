//! A small persistent-store core behind a single-opcode binary protocol: a
//! command dispatcher, a wire codec, a decimal-string time-key scheme that
//! turns an ordered byte-keyed namespace into an append-only time-ordered
//! log, and the store facade with retention-window scans.

pub mod bytes;
pub mod codec;
pub mod dispatch;
pub mod errors;
pub mod namespace;
pub mod store;
pub mod timekey;
