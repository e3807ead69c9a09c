//! What the dock draws: its pinned applications and their icon letters.

use vstd::prelude::*;

pub use crate::raster::blend_glyph;

verus! {

/// A pinned application: its name, the command line that starts it, and
/// the colour of its icon.
pub struct App {
    pub name: &'static str,
    pub command: &'static str,
    pub color: (u8, u8, u8),
}

/// The applications pinned to the dock, left to right.
pub fn pinned_apps() -> (v: Vec<App>)
    ensures
        v@.len() == 5,
        v@[0].name@ == "Terminal"@ && v@[0].command@ == "foot"@ && v@[0].color == (76u8, 175u8, 80u8),
        v@[1].name@ == "Browser"@ && v@[1].command@ == "firefox"@ && v@[1].color == (255u8, 152u8, 0u8),
        v@[2].name@ == "Editor"@ && v@[2].command@ == "vim"@ && v@[2].color == (33u8, 150u8, 243u8),
        v@[3].name@ == "Files"@ && v@[3].command@ == "pcmanfm"@ && v@[3].color == (156u8, 39u8, 176u8),
        v@[4].name@ == "Launcher"@ && v@[4].command@ == "pepos-launcher"@ && v@[4].color == (94u8, 155u8, 255u8),
{
    let mut v: Vec<App> = Vec::new();
    v.push(App { name: "Terminal", command: "foot", color: (76, 175, 80) });
    v.push(App { name: "Browser", command: "firefox", color: (255, 152, 0) });
    v.push(App { name: "Editor", command: "vim", color: (33, 150, 243) });
    v.push(App { name: "Files", command: "pcmanfm", color: (156, 39, 176) });
    v.push(App { name: "Launcher", command: "pepos-launcher", color: (94, 155, 255) });
    v
}

/// The first character of the uppercase form of `c`, as
/// `char::to_uppercase` gives it.
pub uninterp spec fn uppercase_first(c: char) -> Option<char>;

/// The first character of the uppercase form of `c`; calls
/// `char::to_uppercase`, which always yields at least one character. An
/// ASCII letter `a`-`z` maps to `A`-`Z`, any other ASCII character to itself.
#[verifier::external_body]
fn first_uppercase(c: char) -> (r: Option<char>)
    ensures
        r == uppercase_first(c),
        r is Some,
        'a' <= c && c <= 'z' ==> r == Some(((c as u32) - 32) as char),
        (c as u32) < 128 && !('a' <= c && c <= 'z') ==> r == Some(c),
{
    c.to_uppercase().next()
}

/// The letter shown on an icon: the uppercase of the name's first
/// character, with `?` for an empty name.
pub open spec fn initial_of(name: Seq<char>) -> char {
    let c = if name.len() > 0 {
        name[0]
    } else {
        '?'
    };
    match uppercase_first(c) {
        Some(u) => u,
        None => '?',
    }
}

/// The letter drawn on an application's icon (see `initial_of`).
pub fn icon_initial(name: &str) -> (c: char)
    ensures
        c == initial_of(name@),
{
    let first = if name.unicode_len() > 0 {
        name.get_char(0)
    } else {
        '?'
    };
    match first_uppercase(first) {
        Some(u) => u,
        None => '?',
    }
}

} // verus!
