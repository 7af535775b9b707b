//! A barebones Raft node: replicated log, key/value state machine and the
//! AppendEntries exchange between a leader and its followers.

pub mod common;
pub mod raft;
pub mod node;
pub mod client;
