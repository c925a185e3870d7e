//! Verified core of the Keyence scan-log station: parsing of camera log
//! lines, the per-file read positions, the split of newly appended bytes
//! into complete lines, and the decisions of one polling pass.

pub mod text;
pub mod calendar;
pub mod digest;
pub mod models;
pub mod parser;
pub mod state_store;
pub mod watcher;
pub mod config;
pub mod db;
pub mod poll;
