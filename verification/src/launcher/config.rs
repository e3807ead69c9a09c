//! Launcher settings (the `[launcher]` table of `pepos.toml`).

use vstd::prelude::*;

pub use crate::color::hex_to_rgba;

verus! {

/// The height in pixels of the search row and of each result row.
pub const ROW_HEIGHT: u32 = 36;

/// The launcher's settings that its logic reads: panel width in pixels,
/// how many results are listed, and the background, text and accent
/// colours as CSS hex strings. (The corner radius, a float, stays with the
/// renderer.)
pub struct LauncherConfig {
    pub width: u32,
    pub max_results: usize,
    pub background: String,
    pub foreground: String,
    pub accent: String,
}

/// The launcher's configuration file contents.
pub struct Config {
    pub launcher: LauncherConfig,
}

impl Default for Config {
    /// A 640-pixel panel listing 8 results, with a blue accent.
    fn default() -> (c: Self)
        ensures
            c.launcher.width == 640,
            c.launcher.max_results == 8,
            c.launcher.background@ == "#1a1a1a"@,
            c.launcher.foreground@ == "#e8e8e8"@,
            c.launcher.accent@ == "#5e9bff"@,
    {
        Config {
            launcher: LauncherConfig {
                width: 640,
                max_results: 8,
                background: "#1a1a1a".to_owned(),
                foreground: "#e8e8e8".to_owned(),
                accent: "#5e9bff".to_owned(),
            },
        }
    }
}

impl Config {
    /// The panel height: one row for the search input plus one per listed
    /// result, with the result count taken as `u32` (truncated, as `as` does).
    pub open spec fn spec_panel_height(&self) -> int {
        ROW_HEIGHT + (self.launcher.max_results as u32) * ROW_HEIGHT
    }

    /// Whether the panel height can be computed in `u32`.
    pub open spec fn panel_height_fits(&self) -> bool {
        self.spec_panel_height() <= u32::MAX
    }

    /// Total height = input row + (max_results * row height).
    pub fn panel_height(&self) -> (h: u32)
        requires
            self.panel_height_fits(),
        ensures
            h == self.spec_panel_height(),
    {
        let row_h: u32 = ROW_HEIGHT;
        row_h + self.launcher.max_results as u32 * row_h
    }
}

} // verus!
