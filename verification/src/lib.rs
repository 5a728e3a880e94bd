//! A live, queryable snapshot of every currently running or suspended
//! logical call frame in a process: an arena of active-call-tree nodes,
//! lifecycle handling that inserts and removes nodes as operations begin
//! and end, and a formatter that renders a consistent indented dump.

pub mod adapter;
pub mod field;
pub mod render;
pub mod text;
pub mod time;
pub mod tree;
pub mod wrapper;
