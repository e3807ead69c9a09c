//! Menubar settings (the `[menubar]` table of `pepos.toml`).

use vstd::prelude::*;

pub use crate::color::hex_to_rgba;

verus! {

/// The menubar's settings that its logic reads: bar height in pixels,
/// preferred font family, and the background, text and accent colours as
/// CSS hex strings. (The font size, a float, stays with the renderer.)
pub struct MenubarConfig {
    pub height: u32,
    pub font: String,
    pub background: String,
    pub foreground: String,
    pub accent: String,
}

/// The menubar's configuration file contents.
pub struct Config {
    pub menubar: MenubarConfig,
}

impl Default for Config {
    /// A 28-pixel bar in Inter on a near-black background.
    fn default() -> (c: Self)
        ensures
            c.menubar.height == 28,
            c.menubar.font@ == "Inter"@,
            c.menubar.background@ == "#1a1a1a"@,
            c.menubar.foreground@ == "#e8e8e8"@,
            c.menubar.accent@ == "#5e9bff"@,
    {
        Config {
            menubar: MenubarConfig {
                height: 28,
                font: "Inter".to_owned(),
                background: "#1a1a1a".to_owned(),
                foreground: "#e8e8e8".to_owned(),
                accent: "#5e9bff".to_owned(),
            },
        }
    }
}

} // verus!
