//! Where the clients look for a TrueType font.

use vstd::prelude::*;
use vstd::string::StringExecFns;

verus! {

/// The directories searched for `.ttf` files, in order.
pub open spec fn font_dirs() -> Seq<Seq<char>> {
    seq![
        "/usr/share/fonts/TTF"@,
        "/usr/share/fonts"@,
        "/usr/share/fonts/truetype"@,
        "/usr/local/share/fonts"@,
    ]
}

/// The directories searched for `.ttf` files (see `font_dirs`).
pub fn font_directories() -> (v: Vec<&'static str>)
    ensures
        v@.len() == 4,
        forall|i: int| 0 <= i < 4 ==> #[trigger] v@[i]@ == font_dirs()[i],
{
    let mut v: Vec<&'static str> = Vec::new();
    v.push("/usr/share/fonts/TTF");
    v.push("/usr/share/fonts");
    v.push("/usr/share/fonts/truetype");
    v.push("/usr/local/share/fonts");
    v
}

/// The endings tried after a preferred font's name: `-Regular`,
/// `-regular`, then nothing.
pub open spec fn font_name_endings() -> Seq<Seq<char>> {
    seq!["-Regular"@, "-regular"@, ""@]
}

/// The `i`-th file tried for a preferred font: directory `i / 3`, ending `i % 3`.
pub open spec fn font_candidate(name: Seq<char>, i: int) -> Seq<char> {
    font_dirs()[i / 3] + "/"@ + name + font_name_endings()[i % 3] + ".ttf"@
}

/// The files to try, in order, for the font called `name`: in each font
/// directory, `name-Regular.ttf`, `name-regular.ttf`, then `name.ttf`.
pub fn font_candidates(name: &str) -> (v: Vec<String>)
    ensures
        v@.len() == 12,
        forall|i: int| 0 <= i < 12 ==> #[trigger] v@[i]@ == font_candidate(name@, i),
{
    let dirs = font_directories();
    let mut v: Vec<String> = Vec::new();
    let mut d: usize = 0;
    while d < 4
        invariant
            d <= 4,
            dirs@.len() == 4,
            forall|i: int| 0 <= i < 4 ==> #[trigger] dirs@[i]@ == font_dirs()[i],
            v@.len() == 3 * d,
            forall|i: int| 0 <= i < 3 * d ==> #[trigger] v@[i]@ == font_candidate(name@, i),
        decreases 4 - d,
    {
        let mut e: usize = 0;
        while e < 3
            invariant
                d < 4,
                e <= 3,
                dirs@.len() == 4,
                forall|i: int| 0 <= i < 4 ==> #[trigger] dirs@[i]@ == font_dirs()[i],
                v@.len() == 3 * d + e,
                forall|i: int| 0 <= i < 3 * d + e ==> #[trigger] v@[i]@ == font_candidate(name@, i),
            decreases 3 - e,
        {
            let ending = if e == 0 {
                "-Regular"
            } else if e == 1 {
                "-regular"
            } else {
                ""
            };
            let mut path = dirs[d].to_owned();
            path.append("/");
            path.append(name);
            path.append(ending);
            path.append(".ttf");
            assert(((3 * d + e) as int) / 3 == d as int);
            assert(((3 * d + e) as int) % 3 == e as int);
            v.push(path);
            e = e + 1;
        }
        d = d + 1;
    }
    v
}

} // verus!
