//! A verified core for a per-day calorie log.
//!
//! The library owns the data model (a mapping from ISO-8601 date keys to
//! ordered lists of calorie entries), the JSON document format that persists
//! it, and the command dispatcher that interprets one invocation. File and
//! terminal I/O stay outside; callers hand in file contents and command
//! arguments as plain values and receive structured results back.
pub mod config;
pub mod dispatch;
pub mod num;
pub mod json;
pub mod store;
