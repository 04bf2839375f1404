//! A minimal in-memory record store: a fixed-capacity table of fixed-width
//! rows, addressed by sequential row number, with a binary row codec and a
//! small statement layer that turns text commands into typed requests.

pub mod meta_command;
pub mod sql;
pub mod storage;
