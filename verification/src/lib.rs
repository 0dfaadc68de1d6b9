pub mod error;
pub mod text;
pub mod events;
pub mod config;
pub mod git;
pub mod push;
pub mod paths;
pub mod state;
pub mod platform;
pub mod hooks;
pub mod git_config;
pub mod packs;
pub mod audio;
pub mod logging;
pub mod cli;
