//! Scribe: turns the Git history of a tracked JSON or CSV file into a
//! versioned SQLite database.  This crate holds the verified core: file
//! parsing, hashing, the change-detection state machine and the history walk.

pub mod text;
pub mod error;
pub mod format;
pub mod json;
pub mod item;
pub mod sort;
pub mod hash;
pub mod processor;
pub mod git;
pub mod parser;
pub mod transform;
pub mod db;
pub mod cli;
