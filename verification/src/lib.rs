//! A verified core for a directory-listing tool: filesystem entries are
//! filtered, stably sorted, optionally expanded into a tree, and rendered
//! as formatted text lines.

pub mod args;
pub mod entries_handler;
pub mod entry;
pub mod humanize;
pub mod raw;
pub mod sort;
