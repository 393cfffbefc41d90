//! Core logic of a local trash-can daemon: collision-safe destination naming,
//! config parsing, metadata records, and the retention-driven expiry policy.
//! All I/O (sockets, filesystem) lives outside this crate; these functions work
//! on plain byte strings and integers.

pub mod config;
pub mod expiry;
pub mod lines;
pub mod mover;
pub mod num;
pub mod record;
pub mod resolver;
