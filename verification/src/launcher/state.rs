//! The launcher's search state and its keyboard handling: typed keys edit
//! the query, the matching applications are filtered, the arrows move the
//! selection, Enter launches and Escape closes.

use vstd::prelude::*;
use crate::launcher::apps::App;
use crate::launcher::config::Config;
use crate::surface::{
    configured, configured_size, frame_plan, plan_frame, Anchor, FramePlan, KeyboardInteractivity,
    Layer, SurfaceRequest,
};
use crate::text::{
    chars_contain, chars_of, contains, lowercase, pop_char, push_char, split_words, string_of,
    to_lowercase, words,
};

verus! {

/// The character a Linux input keycode types on a US QWERTY keyboard
/// without shift: digits, lowercase letters and space; `None` for other keys.
pub open spec fn key_char(code: u32) -> Option<char> {
    if code == 2 { Some('1') }
    else if code == 3 { Some('2') }
    else if code == 4 { Some('3') }
    else if code == 5 { Some('4') }
    else if code == 6 { Some('5') }
    else if code == 7 { Some('6') }
    else if code == 8 { Some('7') }
    else if code == 9 { Some('8') }
    else if code == 10 { Some('9') }
    else if code == 11 { Some('0') }
    else if code == 16 { Some('q') }
    else if code == 17 { Some('w') }
    else if code == 18 { Some('e') }
    else if code == 19 { Some('r') }
    else if code == 20 { Some('t') }
    else if code == 21 { Some('y') }
    else if code == 22 { Some('u') }
    else if code == 23 { Some('i') }
    else if code == 24 { Some('o') }
    else if code == 25 { Some('p') }
    else if code == 30 { Some('a') }
    else if code == 31 { Some('s') }
    else if code == 32 { Some('d') }
    else if code == 33 { Some('f') }
    else if code == 34 { Some('g') }
    else if code == 35 { Some('h') }
    else if code == 36 { Some('j') }
    else if code == 37 { Some('k') }
    else if code == 38 { Some('l') }
    else if code == 44 { Some('z') }
    else if code == 45 { Some('x') }
    else if code == 46 { Some('c') }
    else if code == 47 { Some('v') }
    else if code == 48 { Some('b') }
    else if code == 49 { Some('n') }
    else if code == 50 { Some('m') }
    else if code == 57 { Some(' ') }
    else { None }
}

/// Maps a keycode to the character it types (see `key_char`).
pub fn scancode_to_char(code: u32) -> (r: Option<char>)
    ensures
        r == key_char(code),
{
    match code {
        2 => Some('1'),
        3 => Some('2'),
        4 => Some('3'),
        5 => Some('4'),
        6 => Some('5'),
        7 => Some('6'),
        8 => Some('7'),
        9 => Some('8'),
        10 => Some('9'),
        11 => Some('0'),
        16 => Some('q'),
        17 => Some('w'),
        18 => Some('e'),
        19 => Some('r'),
        20 => Some('t'),
        21 => Some('y'),
        22 => Some('u'),
        23 => Some('i'),
        24 => Some('o'),
        25 => Some('p'),
        30 => Some('a'),
        31 => Some('s'),
        32 => Some('d'),
        33 => Some('f'),
        34 => Some('g'),
        35 => Some('h'),
        36 => Some('j'),
        37 => Some('k'),
        38 => Some('l'),
        44 => Some('z'),
        45 => Some('x'),
        46 => Some('c'),
        47 => Some('v'),
        48 => Some('b'),
        49 => Some('n'),
        50 => Some('m'),
        57 => Some(' '),
        _ => None,
    }
}

/// The keycode of Escape.
pub const KEY_ESCAPE: u32 = 1;
/// The keycode of Backspace.
pub const KEY_BACKSPACE: u32 = 14;
/// The keycode of Enter.
pub const KEY_ENTER: u32 = 28;
/// The keycode of the up arrow.
pub const KEY_UP: u32 = 103;
/// The keycode of the down arrow.
pub const KEY_DOWN: u32 = 108;

/// The indices, in increasing order, of the applications whose lowercase
/// name contains `q`.
pub open spec fn matching(apps: Seq<App>, q: Seq<char>) -> Seq<usize>
    decreases apps.len(),
{
    if apps.len() == 0 {
        Seq::empty()
    } else {
        let m = matching(apps.drop_last(), q);
        if contains(lowercase(apps.last().name@), q) {
            m.push((apps.len() - 1) as usize)
        } else {
            m
        }
    }
}

/// The selection after the up arrow: one up, unless already at the top.
pub open spec fn select_up(selected: usize) -> usize {
    if selected > 0 {
        (selected - 1) as usize
    } else {
        selected
    }
}

/// The selection after the down arrow among `n` results: one down, unless
/// already at the last.
pub open spec fn select_down(selected: usize, n: nat) -> usize {
    if selected + 1 < n {
        (selected + 1) as usize
    } else {
        selected
    }
}

/// The query after Backspace: without its last character, if it has one.
pub open spec fn erase_last(q: Seq<char>) -> Seq<char> {
    if q.len() > 0 {
        q.drop_last()
    } else {
        q
    }
}

/// What the client has to do after a key.
pub enum KeyAction {
    /// Nothing to show.
    Nothing,
    /// The panel changed: render and commit a frame.
    Redraw,
    /// Start this program with these arguments (the first word is the program).
    Launch(Vec<String>),
}

/// The launcher's size, whether it keeps running, its configuration, and
/// the search: the query typed so far, all applications, the indices of
/// those that match, and which of the matches is selected.
pub struct AppState {
    pub width: u32,
    pub height: u32,
    pub running: bool,
    pub config: Config,
    pub query: String,
    pub apps: Vec<App>,
    pub filtered: Vec<usize>,
    pub selected: usize,
}

impl AppState {
    /// The search is consistent: the filtered indices are exactly the
    /// matches of the lowercase query, and the selection is the first
    /// result or one of the results.
    pub open spec fn wf(&self) -> bool {
        &&& self.filtered@ == matching(self.apps@, lowercase(self.query@))
        &&& (self.selected == 0 || self.selected < self.filtered@.len())
    }

    /// The words of the selected application's command line, if a result
    /// is selected and its command line has any.
    pub open spec fn launch_command(&self) -> Option<Seq<Seq<char>>> {
        if self.selected < self.filtered@.len() {
            let w = words(self.apps@[self.filtered@[self.selected as int] as int].command@);
            if w.len() > 0 {
                Some(w)
            } else {
                None
            }
        } else {
            None
        }
    }

    /// A running launcher with an empty query that lists all `apps`, the
    /// first selected, sized by the configuration (its width, and the
    /// panel height).
    pub fn new(apps: Vec<App>, config: Config) -> (s: Self)
        requires
            config.panel_height_fits(),
        ensures
            s.wf(),
            s.width == config.launcher.width,
            s.height == config.spec_panel_height(),
            s.running,
            s.config == config,
            s.query@ == Seq::<char>::empty(),
            s.apps@ == apps@,
            s.filtered@ == Seq::new(apps@.len(), |i: int| i as usize),
            s.selected == 0,
    {
        let width = config.launcher.width;
        let height = config.panel_height();
        let mut s = AppState {
            width,
            height,
            running: true,
            config,
            query: String::new(),
            apps,
            filtered: Vec::new(),
            selected: 0,
        };
        let q = to_lowercase(s.query.as_str());
        assert(q@ =~= Seq::<char>::empty());
        s.update_filter();
        let _n = s.apps.len();
        proof {
            lemma_matching_everything(s.apps@, q@);
        }
        s
    }

    /// Recomputes the matches of the query and selects the first.
    fn update_filter(&mut self)
        ensures
            final(self).filtered@ == matching(old(self).apps@, lowercase(old(self).query@)),
            final(self).selected == 0,
            final(self).wf(),
            final(self).query == old(self).query,
            final(self).apps == old(self).apps,
            final(self).running == old(self).running,
            final(self).config == old(self).config,
            final(self).width == old(self).width,
            final(self).height == old(self).height,
    {
        let q = to_lowercase(self.query.as_str());
        let qc = chars_of(q.as_str());
        let mut filtered: Vec<usize> = Vec::new();
        let n = self.apps.len();
        let mut i: usize = 0;
        while i < n
            invariant
                i <= n,
                n == self.apps@.len(),
                qc@ == lowercase(self.query@),
                filtered@ == matching(self.apps@.take(i as int), qc@),
            decreases n - i,
        {
            let lower = to_lowercase(self.apps[i].name.as_str());
            let nc = chars_of(lower.as_str());
            let hit = chars_contain(&nc, &qc);
            let ghost next = self.apps@.take(i + 1);
            assert(next.drop_last() =~= self.apps@.take(i as int));
            assert(next.last() == self.apps@[i as int]);
            if hit {
                filtered.push(i);
            }
            i = i + 1;
        }
        assert(self.apps@.take(n as int) =~= self.apps@);
        self.filtered = filtered;
        self.selected = 0;
    }

    /// Hands out the selected application's command line as words to run,
    /// if there is one (see `launch_command`), and stops the launcher.
    fn launch_selected(&mut self) -> (r: Option<Vec<String>>)
        requires
            old(self).wf(),
        ensures
            !final(self).running,
            final(self).query == old(self).query,
            final(self).apps == old(self).apps,
            final(self).filtered == old(self).filtered,
            final(self).selected == old(self).selected,
            final(self).config == old(self).config,
            final(self).width == old(self).width,
            final(self).height == old(self).height,
            match r {
                Some(parts) => old(self).launch_command() == Some(parts@.map_values(|p: String| p@)),
                None => old(self).launch_command() is None,
            },
    {
        let _n = self.apps.len();
        proof {
            lemma_matching_indices(self.apps@, lowercase(self.query@));
        }
        let mut r: Option<Vec<String>> = None;
        if self.selected < self.filtered.len() {
            let idx = self.filtered[self.selected];
            let cs = chars_of(self.apps[idx].command.as_str());
            let ws = split_words(&cs);
            if ws.len() > 0 {
                let mut parts: Vec<String> = Vec::new();
                let mut k: usize = 0;
                while k < ws.len()
                    invariant
                        k <= ws@.len(),
                        parts@.len() == k,
                        forall|j: int| 0 <= j < k ==> #[trigger] parts@[j]@ == ws@[j]@,
                    decreases ws@.len() - k,
                {
                    parts.push(string_of(&ws[k]));
                    k = k + 1;
                }
                assert(parts@.map_values(|p: String| p@) =~= words(cs@));
                r = Some(parts);
            }
        }
        self.running = false;
        r
    }

    /// Handles a pressed key: Escape closes; Enter launches the selection
    /// and closes; Backspace erases the last character of the query; the
    /// up and down arrows move the selection; a key that types a character
    /// (see `key_char`) appends it to the query. Editing the query filters
    /// the applications anew and selects the first match.
    pub fn handle_key(&mut self, scancode: u32) -> (a: KeyAction)
        requires
            old(self).wf(),
        ensures
            final(self).wf(),
            final(self).apps == old(self).apps,
            final(self).config == old(self).config,
            final(self).width == old(self).width,
            final(self).height == old(self).height,
            scancode == KEY_ESCAPE ==> {
                &&& !final(self).running
                &&& final(self).query == old(self).query
                &&& final(self).filtered == old(self).filtered
                &&& final(self).selected == old(self).selected
                &&& a is Nothing
            },
            scancode == KEY_ENTER ==> {
                &&& !final(self).running
                &&& final(self).query == old(self).query
                &&& final(self).filtered == old(self).filtered
                &&& final(self).selected == old(self).selected
                &&& match a {
                    KeyAction::Launch(parts) => old(self).launch_command() == Some(parts@.map_values(|p: String| p@)),
                    KeyAction::Nothing => old(self).launch_command() is None,
                    KeyAction::Redraw => false,
                }
            },
            scancode == KEY_BACKSPACE ==> {
                &&& final(self).running == old(self).running
                &&& final(self).query@ == erase_last(old(self).query@)
                &&& final(self).selected == 0
                &&& a is Redraw
            },
            scancode == KEY_UP ==> {
                &&& final(self).running == old(self).running
                &&& final(self).query == old(self).query
                &&& final(self).filtered == old(self).filtered
                &&& final(self).selected == select_up(old(self).selected)
                &&& a is Redraw
            },
            scancode == KEY_DOWN ==> {
                &&& final(self).running == old(self).running
                &&& final(self).query == old(self).query
                &&& final(self).filtered == old(self).filtered
                &&& final(self).selected == select_down(old(self).selected, old(self).filtered@.len())
                &&& a is Redraw
            },
            scancode != KEY_ESCAPE && scancode != KEY_ENTER && scancode != KEY_BACKSPACE
                && scancode != KEY_UP && scancode != KEY_DOWN ==> match key_char(scancode) {
                Some(c) => {
                    &&& final(self).running == old(self).running
                    &&& final(self).query@ == old(self).query@.push(c)
                    &&& final(self).selected == 0
                    &&& a is Redraw
                },
                None => {
                    &&& final(self).running == old(self).running
                    &&& final(self).query == old(self).query
                    &&& final(self).filtered == old(self).filtered
                    &&& final(self).selected == old(self).selected
                    &&& a is Nothing
                },
            },
    {
        if scancode == KEY_ESCAPE {
            self.running = false;
            KeyAction::Nothing
        } else if scancode == KEY_ENTER {
            match self.launch_selected() {
                Some(parts) => KeyAction::Launch(parts),
                None => KeyAction::Nothing,
            }
        } else if scancode == KEY_BACKSPACE {
            let _ = pop_char(&mut self.query);
            self.update_filter();
            KeyAction::Redraw
        } else if scancode == KEY_UP {
            if self.selected > 0 {
                self.selected = self.selected - 1;
            }
            KeyAction::Redraw
        } else if scancode == KEY_DOWN {
            let max = if self.filtered.len() > 0 {
                self.filtered.len() - 1
            } else {
                0
            };
            if self.selected < max {
                self.selected = self.selected + 1;
            }
            KeyAction::Redraw
        } else {
            match scancode_to_char(scancode) {
                Some(ch) => {
                    push_char(&mut self.query, ch);
                    self.update_filter();
                    KeyAction::Redraw
                },
                None => KeyAction::Nothing,
            }
        }
    }

    /// The layer surface to ask for: `pepos-launcher` in the overlay layer,
    /// not anchored (so centred), sized to the panel, taking all keyboard input.
    pub fn surface_request(&self) -> (r: SurfaceRequest)
        ensures
            r.namespace@ == "pepos-launcher"@,
            r.layer == Layer::Overlay,
            r.anchor == (Anchor { top: false, bottom: false, left: false, right: false }),
            r.width == self.width,
            r.height == self.height,
            r.exclusive_zone is None,
            r.keyboard == KeyboardInteractivity::Exclusive,
    {
        SurfaceRequest {
            namespace: "pepos-launcher".to_owned(),
            layer: Layer::Overlay,
            anchor: Anchor { top: false, bottom: false, left: false, right: false },
            width: self.width,
            height: self.height,
            exclusive_zone: None,
            keyboard: KeyboardInteractivity::Exclusive,
        }
    }

    /// Takes the size of a configure event; a dimension of 0 keeps the current one.
    pub fn configure(&mut self, width: u32, height: u32)
        ensures
            old(self).wf() ==> final(self).wf(),
            (final(self).width, final(self).height) == configured(old(self).width, old(self).height, width, height),
            final(self).running == old(self).running,
            final(self).config == old(self).config,
            final(self).query == old(self).query,
            final(self).apps == old(self).apps,
            final(self).filtered == old(self).filtered,
            final(self).selected == old(self).selected,
    {
        let (w, h) = configured_size(self.width, self.height, width, height);
        self.width = w;
        self.height = h;
    }

    /// The compositor closed the surface: stop.
    pub fn close(&mut self)
        ensures
            old(self).wf() ==> final(self).wf(),
            !final(self).running,
            final(self).width == old(self).width,
            final(self).height == old(self).height,
            final(self).config == old(self).config,
            final(self).query == old(self).query,
            final(self).apps == old(self).apps,
            final(self).filtered == old(self).filtered,
            final(self).selected == old(self).selected,
    {
        self.running = false;
    }

    /// How to render the next frame, given whether `wl_shm` is bound and the
    /// size of the current buffer, if any (see `frame_plan`).
    pub fn plan_frame(&self, has_shm: bool, buffer: Option<(u32, u32)>) -> (p: FramePlan)
        ensures
            p == frame_plan(self.width, self.height, has_shm, buffer),
    {
        plan_frame(self.width, self.height, has_shm, buffer)
    }
}

/// The matches are valid application indices in strictly increasing order,
/// and an index is among them exactly when that application's lowercase
/// name contains the query.
pub proof fn lemma_matching_indices(apps: Seq<App>, q: Seq<char>)
    requires
        apps.len() <= usize::MAX,
    ensures
        forall|k: int| 0 <= k < matching(apps, q).len() ==> #[trigger] matching(apps, q)[k] < apps.len(),
        forall|k: int, l: int| 0 <= k < l < matching(apps, q).len() ==> #[trigger] matching(apps, q)[k] < #[trigger] matching(apps, q)[l],
        forall|i: int|
            0 <= i < apps.len() ==> (matching(apps, q).contains(i as usize) <==> contains(lowercase(#[trigger] apps[i].name@), q)),
    decreases apps.len(),
{
    if apps.len() > 0 {
        let prev = apps.drop_last();
        lemma_matching_indices(prev, q);
        let m = matching(prev, q);
        let last = (apps.len() - 1) as usize;
        assert forall|i: int| 0 <= i < apps.len() implies (matching(apps, q).contains(i as usize) <==> contains(lowercase(#[trigger] apps[i].name@), q)) by {
            if i < apps.len() - 1 {
                assert(prev[i] == apps[i]);
                if matching(apps, q).contains(i as usize) {
                    let k = choose|k: int| 0 <= k < matching(apps, q).len() && matching(apps, q)[k] == i as usize;
                    if k < m.len() {
                        assert(m[k] == i as usize);
                    }
                }
                if m.contains(i as usize) {
                    let k = choose|k: int| 0 <= k < m.len() && m[k] == i as usize;
                    assert(matching(apps, q)[k] == i as usize);
                }
            } else {
                if contains(lowercase(apps.last().name@), q) {
                    assert(matching(apps, q)[m.len() as int] == last);
                } else {
                    if matching(apps, q).contains(i as usize) {
                        let k = choose|k: int| 0 <= k < matching(apps, q).len() && matching(apps, q)[k] == i as usize;
                        assert(m[k] < prev.len());
                    }
                }
            }
        }
    }
}

/// Enter launches one of the current matches. When there is something to
/// launch, it is the words of the command line of the application at the
/// selected position among the results, and that application's lowercase
/// name contains the lowercase query. A selected result whose command line
/// has words is always launched.
pub proof fn lemma_launch_is_a_match(s: AppState)
    requires
        s.wf(),
        s.apps@.len() <= usize::MAX,
    ensures
        s.launch_command() is Some ==> exists|i: int|
            0 <= i < s.apps@.len() && i == s.filtered@[s.selected as int] as int && contains(
                lowercase(#[trigger] s.apps@[i].name@),
                lowercase(s.query@),
            ) && s.launch_command() == Some(words(s.apps@[i].command@)),
        s.selected < s.filtered@.len() && words(
            s.apps@[s.filtered@[s.selected as int] as int].command@,
        ).len() > 0 ==> s.launch_command() is Some,
{
    let q = lowercase(s.query@);
    lemma_matching_indices(s.apps@, q);
    if s.launch_command() is Some {
        let m = matching(s.apps@, q);
        let k = s.selected as int;
        let i = s.filtered@[k] as int;
        assert(m[k] < s.apps@.len());
        assert(m.contains(i as usize));
        assert(contains(lowercase(s.apps@[i].name@), q));
    }
}

/// The keys that type a character, in the US QWERTY layout without shift:
/// the number row (keycodes 2 to 11 type `1` to `9`, then `0`), the three
/// letter rows (16 to 25 type `qwertyuiop`, 30 to 38 `asdfghjkl`, 44 to 50
/// `zxcvbnm`) and the space bar (57). No other key types anything.
pub proof fn lemma_key_char_layout(code: u32)
    ensures
        2 <= code <= 11 ==> key_char(code) == Some(
            seq!['1', '2', '3', '4', '5', '6', '7', '8', '9', '0'][code - 2],
        ),
        16 <= code <= 25 ==> key_char(code) == Some(
            seq!['q', 'w', 'e', 'r', 't', 'y', 'u', 'i', 'o', 'p'][code - 16],
        ),
        30 <= code <= 38 ==> key_char(code) == Some(
            seq!['a', 's', 'd', 'f', 'g', 'h', 'j', 'k', 'l'][code - 30],
        ),
        44 <= code <= 50 ==> key_char(code) == Some(seq!['z', 'x', 'c', 'v', 'b', 'n', 'm'][code - 44]),
        code == 57 ==> key_char(code) == Some(' '),
        key_char(code) is Some <==> (2 <= code <= 11 || 16 <= code <= 25 || 30 <= code <= 38 || 44
            <= code <= 50 || code == 57),
{
}

/// No two keys type the same character.
pub proof fn lemma_key_char_injective(a: u32, b: u32)
    requires
        key_char(a) is Some,
        key_char(a) == key_char(b),
    ensures
        a == b,
{
}

/// The arrows move the selection by one place at most and keep it among
/// `n` results: up stays put exactly at the top, down stays put exactly at
/// the last result (or when there is none).
pub proof fn lemma_selection_steps(selected: usize, n: nat)
    requires
        selected < n || selected == 0,
        n <= usize::MAX,
    ensures
        select_up(selected) <= selected <= select_up(selected) + 1,
        select_up(selected) == selected <==> selected == 0,
        selected <= select_down(selected, n) <= selected + 1,
        select_down(selected, n) == selected <==> selected + 1 >= n,
        n > 0 ==> select_up(selected) < n && select_down(selected, n) < n,
{
}

/// Moving the selection down and then up, when the first move went
/// anywhere, comes back to where it was; likewise up and then down.
pub proof fn lemma_down_then_up(selected: usize, n: nat)
    requires
        n <= usize::MAX,
    ensures
        selected + 1 < n ==> select_up(select_down(selected, n)) == selected,
        0 < selected < n ==> select_down(select_up(selected), n) == selected,
{
}

/// Typing a character and then erasing it gives back the query, and so
/// the same matches.
pub proof fn lemma_type_then_erase(apps: Seq<App>, q: Seq<char>, c: char)
    ensures
        erase_last(q.push(c)) == q,
        matching(apps, lowercase(erase_last(q.push(c)))) == matching(apps, lowercase(q)),
{
    assert(q.push(c).drop_last() =~= q);
}

/// A query that contains another, once both are lowercased, matches no
/// application the other does not: typing more never adds results.
pub proof fn lemma_longer_query_narrows(apps: Seq<App>, q1: Seq<char>, q2: Seq<char>)
    requires
        apps.len() <= usize::MAX,
        contains(lowercase(q2), lowercase(q1)),
    ensures
        forall|k: int|
            0 <= k < matching(apps, lowercase(q2)).len() ==> matching(apps, lowercase(q1)).contains(
                #[trigger] matching(apps, lowercase(q2))[k],
            ),
{
    let l1 = lowercase(q1);
    let l2 = lowercase(q2);
    lemma_matching_indices(apps, l1);
    lemma_matching_indices(apps, l2);
    assert forall|k: int| 0 <= k < matching(apps, l2).len() implies matching(apps, l1).contains(
        #[trigger] matching(apps, l2)[k],
    ) by {
        let m2 = matching(apps, l2);
        let i = m2[k] as int;
        assert(m2.contains(i as usize));
        let name = lowercase(apps[i].name@);
        assert(contains(name, l2));
        lemma_contains_transitive(name, l2, l1);
    }
}

/// An occurrence of `p` inside an occurrence of `q` is an occurrence in `s`.
proof fn lemma_contains_transitive(s: Seq<char>, q: Seq<char>, p: Seq<char>)
    requires
        contains(s, q),
        contains(q, p),
    ensures
        contains(s, p),
{
    let i = choose|i: int| 0 <= i && i + q.len() <= s.len() && #[trigger] s.subrange(i, i + q.len()) == q;
    let j = choose|j: int| 0 <= j && j + p.len() <= q.len() && #[trigger] q.subrange(j, j + p.len()) == p;
    assert(s.subrange(i + j, i + j + p.len()) =~= q.subrange(j, j + p.len()));
}

/// With a query that every name contains, every application matches.
proof fn lemma_matching_everything(apps: Seq<App>, q: Seq<char>)
    requires
        q.len() == 0,
        apps.len() <= usize::MAX,
    ensures
        matching(apps, q) == Seq::new(apps.len(), |i: int| i as usize),
    decreases apps.len(),
{
    if apps.len() > 0 {
        lemma_matching_everything(apps.drop_last(), q);
        let name = lowercase(apps.last().name@);
        assert(name.subrange(0int, 0int + q.len()) =~= q);
        assert(contains(name, q));
        assert(matching(apps, q) =~= Seq::new(apps.len(), |i: int| i as usize));
    }
}

} // verus!
