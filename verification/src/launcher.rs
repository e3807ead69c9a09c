//! The launcher: a keyboard-driven overlay that searches the installed
//! applications by name and starts the chosen one.

pub mod apps;
pub mod config;
pub mod render;
pub mod state;
