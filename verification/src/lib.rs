//! Container tree of a tiling window manager and the logic around its
//! status bar and command line client.

pub mod seq_util;
pub mod tree;
pub mod ids;
pub mod state;
pub mod dto;
pub mod ipc;
pub mod watcher;
pub mod minibar;
pub mod cli;
pub mod platform;
