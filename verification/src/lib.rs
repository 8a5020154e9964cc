//! Verified core of a Tauri plugin that exposes files as web streams:
//! chunked reads, framed text-line reads, write-request decoding, and the
//! bookkeeping of the file resources that the plugin has opened.

pub mod io;
mod codec;

pub mod error;
pub mod config;
pub mod state;
pub mod cmds;
