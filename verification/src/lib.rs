//! The core of the pepos desktop shell: colour parsing, glyph
//! compositing, text handling for the launcher, and the decision logic of
//! the menubar, dock and launcher clients.

pub mod color;
pub mod dock;
pub mod fonts;
pub mod raster;
pub mod text;
pub mod launcher;
pub mod menubar;
pub mod surface;
