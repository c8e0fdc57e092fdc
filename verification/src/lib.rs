//! A small to-do list library: an in-memory collection of task items with a
//! monotonic id allocator that reclaims ids of deleted items, a command
//! parser for the interactive front end, and a JSON codec for persisting the
//! collection between sessions.

pub mod cli;
pub mod json;
pub mod manager;
pub mod models;
