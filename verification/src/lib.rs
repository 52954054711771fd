//! Verified core of a launcher for VSCode workspaces.
mod platform;
pub mod text;
pub mod path_identity;
pub mod window_enum;
pub mod running;
pub mod launcher;
pub mod scanner;
pub mod config;
pub mod error;
pub mod commands;

pub use platform::Platform;
