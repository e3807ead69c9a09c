//! The menubar: a bar across the top of the screen with the distribution
//! label on the left and a clock on the right.

pub mod config;
pub mod state;
