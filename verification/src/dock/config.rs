//! Dock settings (the `[dock]` table of `pepos.toml`).

use vstd::prelude::*;

pub use crate::color::hex_to_rgba;

verus! {

/// The dock's settings that its logic reads: icon side and padding in
/// pixels, and the background and text colours as CSS hex strings. (The
/// icons' corner radius, a float, stays with the renderer.)
pub struct DockConfig {
    pub icon_size: u32,
    pub padding: u32,
    pub background: String,
    pub foreground: String,
}

/// The dock's configuration file contents.
pub struct Config {
    pub dock: DockConfig,
}

impl Default for Config {
    /// 52-pixel icons with 8 pixels of padding on a near-black background.
    fn default() -> (c: Self)
        ensures
            c.dock.icon_size == 52,
            c.dock.padding == 8,
            c.dock.background@ == "#1a1a1a"@,
            c.dock.foreground@ == "#e8e8e8"@,
    {
        Config {
            dock: DockConfig {
                icon_size: 52,
                padding: 8,
                background: "#1a1a1a".to_owned(),
                foreground: "#e8e8e8".to_owned(),
            },
        }
    }
}

impl Config {
    /// Whether the bar height can be computed in `u32`.
    pub open spec fn bar_height_fits(&self) -> bool {
        self.dock.padding * 2 + self.dock.icon_size <= u32::MAX
    }

    /// The height of the dock: the icon with padding above and below.
    pub fn bar_height(&self) -> (h: u32)
        requires
            self.bar_height_fits(),
        ensures
            h == self.dock.padding * 2 + self.dock.icon_size,
    {
        self.dock.padding * 2 + self.dock.icon_size
    }
}

} // verus!
