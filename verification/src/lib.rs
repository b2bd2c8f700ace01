//! Verified core of a Windows disk-cleaning tool.
pub mod calendar;
pub mod order;
pub mod space;
pub mod text;
pub mod util;
pub mod walker;
pub mod category;
pub mod recovery;
pub mod clean;
pub mod scan;
pub mod dupes;
pub mod cache;
pub mod bigfiles;
pub mod settings;
pub mod uninstall;
pub mod arena;
pub mod state;
pub mod commands;
