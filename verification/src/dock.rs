//! The dock: a bar along the bottom of the screen with a row of pinned
//! applications, each a coloured rounded square with its initial.

pub mod config;
pub mod render;
pub mod state;
