//! The launcher panel's layout and colours: the search row on top, the
//! result rows below, the selected one highlighted.

use vstd::prelude::*;
use crate::color::{color_of, hex_color_ok, hex_to_rgba};
use crate::launcher::config::{Config, ROW_HEIGHT};

verus! {

/// How opaque the selected row's accent-coloured highlight is.
pub const SELECTION_ALPHA: u8 = 40;

/// `a + b`, capped at 255.
pub open spec fn saturating_add(a: u8, b: u8) -> u8 {
    if a + b > 255 {
        255
    } else {
        (a + b) as u8
    }
}

/// The colours of the panel.
pub struct Palette {
    /// The panel background, with its alpha.
    pub background: (u8, u8, u8, u8),
    /// The search row: the background lightened by 20 per channel.
    pub input: (u8, u8, u8),
    /// Text.
    pub foreground: (u8, u8, u8),
    /// The placeholder shown while the query is empty: text at half intensity.
    pub placeholder: (u8, u8, u8),
    /// Borders and the selection highlight.
    pub accent: (u8, u8, u8),
}

/// Whether every colour of the configuration can be parsed (see `hex_to_rgba`).
pub open spec fn colors_sliceable(config: &Config) -> bool {
    &&& hex_color_ok(config.launcher.background@)
    &&& hex_color_ok(config.launcher.foreground@)
    &&& hex_color_ok(config.launcher.accent@)
}

/// The panel's colours, from the configured background, text and accent colours.
pub fn palette(config: &Config) -> (p: Palette)
    requires
        colors_sliceable(config),
    ensures
        ({
            let bg = color_of(config.launcher.background@);
            let fg = color_of(config.launcher.foreground@);
            let ac = color_of(config.launcher.accent@);
            &&& p.background == bg
            &&& p.input == (saturating_add(bg.0, 20), saturating_add(bg.1, 20), saturating_add(bg.2, 20))
            &&& p.foreground == (fg.0, fg.1, fg.2)
            &&& p.placeholder == ((fg.0 / 2) as u8, (fg.1 / 2) as u8, (fg.2 / 2) as u8)
            &&& p.accent == (ac.0, ac.1, ac.2)
        }),
{
    let (r, g, b, a) = hex_to_rgba(config.launcher.background.as_str());
    let (fr, fg, fb, _) = hex_to_rgba(config.launcher.foreground.as_str());
    let (ar, ag, ab, _) = hex_to_rgba(config.launcher.accent.as_str());
    Palette {
        background: (r, g, b, a),
        input: (r.saturating_add(20), g.saturating_add(20), b.saturating_add(20)),
        foreground: (fr, fg, fb),
        placeholder: (fr / 2, fg / 2, fb / 2),
        accent: (ar, ag, ab),
    }
}

/// What the search row shows: the query, or `Search apps...` while it is
/// empty, and whether that is the placeholder.
pub fn search_text(query: &str) -> (r: (String, bool))
    ensures
        query@.len() == 0 ==> r.0@ == "Search apps..."@ && r.1,
        query@.len() > 0 ==> r.0@ == query@ && !r.1,
{
    if query.is_empty() {
        ("Search apps...".to_owned(), true)
    } else {
        (query.to_owned(), false)
    }
}

/// A result row: which result it shows, the top of the row in pixels, and
/// whether it is highlighted.
#[derive(Clone, Copy, Debug, PartialEq, Eq)]
pub struct Row {
    pub index: usize,
    pub y: u32,
    pub selected: bool,
}

/// How many result rows are shown: at most `max_results`.
pub open spec fn shown_rows(max_results: usize, n_results: usize) -> int {
    if max_results <= n_results {
        max_results as int
    } else {
        n_results as int
    }
}

/// The result rows: the first `shown_rows` results, one row each below the
/// search row, the one at `selected` highlighted.
pub fn result_rows(max_results: usize, n_results: usize, selected: usize) -> (rows: Vec<Row>)
    requires
        shown_rows(max_results, n_results) * ROW_HEIGHT <= u32::MAX,
    ensures
        rows@.len() == shown_rows(max_results, n_results),
        forall|i: int|
            0 <= i < rows@.len() ==> #[trigger] rows@[i] == (Row {
                index: i as usize,
                y: (ROW_HEIGHT + i * ROW_HEIGHT) as u32,
                selected: i == selected,
            }),
{
    let m = if max_results <= n_results {
        max_results
    } else {
        n_results
    };
    let mut rows: Vec<Row> = Vec::new();
    let mut i: usize = 0;
    while i < m
        invariant
            i <= m,
            m == shown_rows(max_results, n_results),
            m * ROW_HEIGHT <= u32::MAX,
            rows@.len() == i,
            forall|k: int|
                0 <= k < i ==> #[trigger] rows@[k] == (Row {
                    index: k as usize,
                    y: (ROW_HEIGHT + k * ROW_HEIGHT) as u32,
                    selected: k == selected,
                }),
        decreases m - i,
    {
        let y = ROW_HEIGHT + i as u32 * ROW_HEIGHT;
        rows.push(Row { index: i, y, selected: i == selected });
        i = i + 1;
    }
    rows
}

} // verus!
