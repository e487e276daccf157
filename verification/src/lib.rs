//! Disk usage analysis over a directory tree stored in an append-only arena.

pub mod arena;
pub mod tree;
pub mod consistency;
pub mod trav;
pub mod listing;
pub mod filetype;
pub mod counts;
pub mod totals;
pub mod size_text;
pub mod app;
pub mod display;
