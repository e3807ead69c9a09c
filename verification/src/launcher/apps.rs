//! Installed applications, read from freedesktop `.desktop` entries.

use vstd::prelude::*;
use crate::text::{
    chars_eq, chars_lt, chars_of, chars_skip, chars_start_with, lemma_lex_lt_irreflexive,
    lemma_lex_lt_transitive, lemma_strip_codes_idempotent, lex_lt, lines, lowercase, starts_with,
    string_of, strip_codes, strip_codes_chars, to_lowercase, trim, trim_chars, words,
};

verus! {

/// An installed application: the name shown in the launcher and the command
/// line that starts it.
pub struct App {
    pub name: String,
    pub command: String,
}

/// What has been read of a `.desktop` file so far: whether the current
/// section is `[Desktop Entry]`, the last `Type=` verdict, whether the entry
/// is hidden, and the first `Name=` and (field-code-free) `Exec=` values.
pub struct EntryScan {
    pub in_entry: bool,
    pub is_app: bool,
    pub hidden: bool,
    pub name: Option<Seq<char>>,
    pub command: Option<Seq<char>>,
}

/// Nothing read yet.
pub open spec fn scan_start() -> EntryScan {
    EntryScan { in_entry: false, is_app: false, hidden: false, name: None, command: None }
}

/// The effect of one trimmed line of a `.desktop` file. `[Desktop Entry]`
/// opens the section that counts, any other `[...]` header closes it, and
/// inside it `Type=`, `NoDisplay=`, `Hidden=`, `Name=` and `Exec=` lines are
/// taken into account.
pub open spec fn scan_line(st: EntryScan, line: Seq<char>) -> EntryScan {
    if line == "[Desktop Entry]"@ {
        EntryScan { in_entry: true, is_app: st.is_app, hidden: st.hidden, name: st.name, command: st.command }
    } else if line.len() > 0 && line[0] == '[' {
        EntryScan { in_entry: false, is_app: st.is_app, hidden: st.hidden, name: st.name, command: st.command }
    } else if !st.in_entry {
        st
    } else {
        let is_app = if starts_with(line, "Type="@) {
            line == "Type=Application"@
        } else {
            st.is_app
        };
        let hidden1 = if starts_with(line, "NoDisplay="@) {
            line == "NoDisplay=true"@
        } else {
            st.hidden
        };
        let hidden = if starts_with(line, "Hidden="@) {
            hidden1 || line == "Hidden=true"@
        } else {
            hidden1
        };
        let name = if starts_with(line, "Name="@) && st.name is None {
            Some(line.skip("Name="@.len() as int))
        } else {
            st.name
        };
        let command = if starts_with(line, "Exec="@) && st.command is None {
            Some(strip_codes(line.skip("Exec="@.len() as int)))
        } else {
            st.command
        };
        EntryScan { in_entry: true, is_app, hidden, name, command }
    }
}

/// The state after reading the given lines, each trimmed, in order.
pub open spec fn scan_lines(ls: Seq<Seq<char>>) -> EntryScan
    decreases ls.len(),
{
    if ls.len() == 0 {
        scan_start()
    } else {
        scan_line(scan_lines(ls.drop_last()), trim(ls.last()))
    }
}

/// The application a `.desktop` file describes, as `(name, command)`: present
/// when, within its `[Desktop Entry]` section, the last `Type=` line is
/// `Type=Application`, the entry is not hidden (a `NoDisplay=` line sets
/// the flag to whether it says `true`, a `Hidden=true` line sets it), and
/// there is a `Name=` and an `Exec=` line; the first of each counts.
pub open spec fn desktop_app(content: Seq<char>) -> Option<(Seq<char>, Seq<char>)> {
    let st = scan_lines(lines(content));
    if st.is_app && !st.hidden && st.name is Some && st.command is Some {
        Some((st.name->0, st.command->0))
    } else {
        None
    }
}

struct Keys {
    header: Vec<char>,
    type_key: Vec<char>,
    type_app: Vec<char>,
    no_display_key: Vec<char>,
    no_display_true: Vec<char>,
    hidden_key: Vec<char>,
    hidden_true: Vec<char>,
    name_key: Vec<char>,
    exec_key: Vec<char>,
}

impl Keys {
    spec fn wf(&self) -> bool {
        &&& self.header@ == "[Desktop Entry]"@
        &&& self.type_key@ == "Type="@
        &&& self.type_app@ == "Type=Application"@
        &&& self.no_display_key@ == "NoDisplay="@
        &&& self.no_display_true@ == "NoDisplay=true"@
        &&& self.hidden_key@ == "Hidden="@
        &&& self.hidden_true@ == "Hidden=true"@
        &&& self.name_key@ == "Name="@
        &&& self.exec_key@ == "Exec="@
    }

    fn new() -> (k: Keys)
        ensures
            k.wf(),
    {
        Keys {
            header: chars_of("[Desktop Entry]"),
            type_key: chars_of("Type="),
            type_app: chars_of("Type=Application"),
            no_display_key: chars_of("NoDisplay="),
            no_display_true: chars_of("NoDisplay=true"),
            hidden_key: chars_of("Hidden="),
            hidden_true: chars_of("Hidden=true"),
            name_key: chars_of("Name="),
            exec_key: chars_of("Exec="),
        }
    }
}

struct Scanner {
    in_entry: bool,
    is_app: bool,
    hidden: bool,
    name: Option<Vec<char>>,
    command: Option<Vec<char>>,
}

impl Scanner {
    spec fn view(&self) -> EntryScan {
        EntryScan {
            in_entry: self.in_entry,
            is_app: self.is_app,
            hidden: self.hidden,
            name: match self.name {
                Some(v) => Some(v@),
                None => None,
            },
            command: match self.command {
                Some(v) => Some(v@),
                None => None,
            },
        }
    }

    fn step(&mut self, keys: &Keys, line: &Vec<char>)
        requires
            keys.wf(),
        ensures
            final(self).view() == scan_line(old(self).view(), line@),
    {
        if chars_eq(line, &keys.header) {
            self.in_entry = true;
        } else if line.len() > 0 && line[0] == '[' {
            self.in_entry = false;
        } else if self.in_entry {
            if chars_start_with(line, &keys.type_key) {
                self.is_app = chars_eq(line, &keys.type_app);
            }
            if chars_start_with(line, &keys.no_display_key) {
                self.hidden = chars_eq(line, &keys.no_display_true);
            }
            if chars_start_with(line, &keys.hidden_key) {
                self.hidden = self.hidden || chars_eq(line, &keys.hidden_true);
            }
            if chars_start_with(line, &keys.name_key) && self.name.is_none() {
                self.name = Some(chars_skip(line, keys.name_key.len()));
            }
            if chars_start_with(line, &keys.exec_key) && self.command.is_none() {
                let rest = chars_skip(line, keys.exec_key.len());
                self.command = Some(strip_codes_chars(&rest));
            }
        }
    }
}

/// Reads the application that the text of a `.desktop` file describes (see
/// `desktop_app`); lines are trimmed, and the `Exec=` command line loses
/// its field codes.
pub fn parse(content: &str) -> (r: Option<App>)
    ensures
        match r {
            Some(app) => desktop_app(content@) == Some((app.name@, app.command@)),
            None => desktop_app(content@) is None,
        },
{
    let keys = Keys::new();
    let cs = chars_of(content);
    let mut sc = Scanner { in_entry: false, is_app: false, hidden: false, name: None, command: None };
    let mut line: Vec<char> = Vec::new();
    let ghost mut done: Seq<Seq<char>> = Seq::empty();
    let mut i: usize = 0;
    while i < cs.len()
        invariant
            keys.wf(),
            i <= cs@.len(),
            lines(cs@.take(i as int)) == done.push(line@),
            sc.view() == scan_lines(done),
        decreases cs@.len() - i,
    {
        let c = cs[i];
        let ghost pre = cs@.take(i as int);
        let ghost next = cs@.take(i + 1);
        assert(next.drop_last() =~= pre);
        assert(next.last() == c);
        if c == '\n' {
            let t = trim_chars(&line);
            sc.step(&keys, &t);
            proof {
                assert(done.push(line@).drop_last() =~= done);
                done = done.push(line@);
            }
            line = Vec::new();
            assert(lines(next) =~= done.push(line@));
        } else {
            line.push(c);
            assert(lines(next) =~= done.push(line@));
        }
        i = i + 1;
    }
    assert(cs@.take(cs@.len() as int) =~= cs@);
    let t = trim_chars(&line);
    sc.step(&keys, &t);
    assert(done.push(line@).drop_last() =~= done);
    if sc.is_app && !sc.hidden {
        match (sc.name, sc.command) {
            (Some(n), Some(e)) => Some(App { name: string_of(&n), command: string_of(&e) }),
            _ => None,
        }
    } else {
        None
    }
}


/// The key the launcher sorts applications by: the lowercase name.
pub open spec fn sort_key(a: App) -> Seq<char> {
    lowercase(a.name@)
}

/// `a` inserted into `s` just before the first element whose key is
/// greater than `a`'s (after all elements with a key not greater).
pub open spec fn insert_by_key(s: Seq<App>, a: App) -> Seq<App>
    decreases s.len(),
{
    if s.len() == 0 {
        seq![a]
    } else if lex_lt(sort_key(a), sort_key(s[0])) {
        seq![a] + s
    } else {
        seq![s[0]] + insert_by_key(s.drop_first(), a)
    }
}

/// `s` stably sorted by lowercase name: equal keys keep their order.
pub open spec fn sort_by_name(s: Seq<App>) -> Seq<App>
    decreases s.len(),
{
    if s.len() == 0 {
        s
    } else {
        insert_by_key(sort_by_name(s.drop_last()), s.last())
    }
}

/// `s` with every element dropped whose name equals that of the last element kept.
pub open spec fn dedup_names(s: Seq<App>) -> Seq<App>
    decreases s.len(),
{
    if s.len() == 0 {
        s
    } else {
        let d = dedup_names(s.drop_last());
        if d.len() > 0 && d.last().name@ == s.last().name@ {
            d
        } else {
            d.push(s.last())
        }
    }
}

proof fn lemma_insert_by_key_at(s: Seq<App>, a: App, p: int)
    requires
        0 <= p <= s.len(),
        forall|j: int| 0 <= j < p ==> !lex_lt(sort_key(a), #[trigger] sort_key(s[j])),
        p < s.len() ==> lex_lt(sort_key(a), sort_key(s[p])),
    ensures
        insert_by_key(s, a) == s.insert(p, a),
    decreases s.len(),
{
    if s.len() == 0 {
        assert(s.insert(p, a) =~= seq![a]);
    } else if p == 0 {
        assert(s.insert(p, a) =~= seq![a] + s);
    } else {
        let t = s.drop_first();
        assert forall|j: int| 0 <= j < p - 1 implies !lex_lt(sort_key(a), #[trigger] sort_key(t[j])) by {
            assert(t[j] == s[j + 1]);
        }
        assert(!lex_lt(sort_key(a), sort_key(s[0])));
        lemma_insert_by_key_at(t, a, p - 1);
        assert(seq![s[0]] + t.insert(p - 1, a) =~= s.insert(p, a));
    }
}

/// Sorts applications by lowercase name, keeping the order of equal names,
/// then drops each application whose name is the same as the one kept before it.
pub fn sort_and_dedup(apps: Vec<App>) -> (r: Vec<App>)
    ensures
        r@ == dedup_names(sort_by_name(apps@)),
{
    let ghost input = apps@;
    let mut rest = apps;
    let mut sorted: Vec<App> = Vec::new();
    let mut keys: Vec<Vec<char>> = Vec::new();
    let mut i: usize = 0;
    let n = rest.len();
    while i < n
        invariant
            i <= n,
            n == input.len(),
            rest@ == input.skip(i as int),
            sorted@ == sort_by_name(input.take(i as int)),
            keys@.len() == sorted@.len(),
            forall|k: int| 0 <= k < keys@.len() ==> #[trigger] keys@[k]@ == sort_key(sorted@[k]),
        decreases n - i,
    {
        let a = rest.remove(0);
        assert(a == input[i as int]);
        assert(rest@ =~= input.skip(i + 1));
        let lower = to_lowercase(a.name.as_str());
        let key = chars_of(lower.as_str());
        let mut p: usize = 0;
        while p < keys.len() && !chars_lt(&key, &keys[p])
            invariant
                p <= keys@.len(),
                keys@.len() == sorted@.len(),
                key@ == sort_key(a),
                forall|k: int| 0 <= k < keys@.len() ==> #[trigger] keys@[k]@ == sort_key(sorted@[k]),
                forall|j: int| 0 <= j < p ==> !lex_lt(sort_key(a), #[trigger] sort_key(sorted@[j])),
            decreases keys@.len() - p,
        {
            p = p + 1;
        }
        proof {
            lemma_insert_by_key_at(sorted@, a, p as int);
            assert(input.take(i + 1).drop_last() =~= input.take(i as int));
        }
        let ghost old_keys = keys@;
        let ghost old_sorted = sorted@;
        sorted.insert(p, a);
        keys.insert(p, key);
        assert forall|k: int| 0 <= k < keys@.len() implies #[trigger] keys@[k]@ == sort_key(sorted@[k]) by {
            if k < p {
                assert(keys@[k] == old_keys[k]);
                assert(sorted@[k] == old_sorted[k]);
            } else if k > p {
                assert(keys@[k] == old_keys[k - 1]);
                assert(sorted@[k] == old_sorted[k - 1]);
            }
        }
        i = i + 1;
    }
    assert(input.take(n as int) =~= input);
    let ghost all = sorted@;
    let mut out: Vec<App> = Vec::new();
    let mut j: usize = 0;
    let m = sorted.len();
    while j < m
        invariant
            j <= m,
            m == all.len(),
            sorted@ == all.skip(j as int),
            out@ == dedup_names(all.take(j as int)),
        decreases m - j,
    {
        let a = sorted.remove(0);
        assert(a == all[j as int]);
        assert(sorted@ =~= all.skip(j + 1));
        assert(all.take(j + 1).drop_last() =~= all.take(j as int));
        let keep = if out.len() == 0 {
            true
        } else {
            let last = out.len() - 1;
            !(out[last].name == a.name)
        };
        if keep {
            out.push(a);
        }
        j = j + 1;
    }
    assert(all.take(m as int) =~= all);
    out
}


/// No element's key is smaller than that of an element before it.
pub open spec fn sorted_by_name(s: Seq<App>) -> bool {
    forall|i: int, j: int| 0 <= i < j < s.len() ==> !lex_lt(#[trigger] sort_key(s[j]), #[trigger] sort_key(s[i]))
}

/// No two neighbours have the same name.
pub open spec fn names_distinct_neighbours(s: Seq<App>) -> bool {
    forall|i: int| 0 <= i < s.len() - 1 ==> #[trigger] s[i].name@ != s[i + 1].name@
}

proof fn lemma_insert_sorted(s: Seq<App>, a: App)
    requires
        sorted_by_name(s),
    ensures
        sorted_by_name(insert_by_key(s, a)),
        forall|k: int| 0 <= k < s.len() ==> insert_by_key(s, a).contains(#[trigger] s[k]),
        insert_by_key(s, a).contains(a),
    decreases s.len(),
{
    if s.len() == 0 {
        assert(insert_by_key(s, a)[0] == a);
    } else if lex_lt(sort_key(a), sort_key(s[0])) {
        let r = seq![a] + s;
        assert forall|i: int, j: int| 0 <= i < j < r.len() implies !lex_lt(#[trigger] sort_key(r[j]), #[trigger] sort_key(r[i])) by {
            if i == 0 {
                assert(r[j] == s[j - 1]);
                if lex_lt(sort_key(r[j]), sort_key(a)) {
                    lemma_lex_lt_transitive(sort_key(r[j]), sort_key(a), sort_key(s[0]));
                    if j == 1 {
                        lemma_lex_lt_irreflexive(sort_key(s[0]));
                    }
                }
            } else {
                assert(r[i] == s[i - 1]);
                assert(r[j] == s[j - 1]);
            }
        }
        assert forall|k: int| 0 <= k < s.len() implies r.contains(#[trigger] s[k]) by {
            assert(r[k + 1] == s[k]);
        }
        assert(r[0] == a);
    } else {
        let t = s.drop_first();
        assert(sorted_by_name(t)) by {
            assert forall|i: int, j: int| 0 <= i < j < t.len() implies !lex_lt(#[trigger] sort_key(t[j]), #[trigger] sort_key(t[i])) by {
                assert(t[i] == s[i + 1]);
                assert(t[j] == s[j + 1]);
            }
        }
        lemma_insert_sorted(t, a);
        let it = insert_by_key(t, a);
        let r = seq![s[0]] + it;
        assert forall|i: int, j: int| 0 <= i < j < r.len() implies !lex_lt(#[trigger] sort_key(r[j]), #[trigger] sort_key(r[i])) by {
            if i == 0 {
                assert(r[j] == it[j - 1]);
                assert(it.contains(it[j - 1]));
                if it[j - 1] == a {
                } else {
                    lemma_insert_by_key_members(t, a, it[j - 1]);
                    let m = choose|m: int| 0 <= m < t.len() && t[m] == it[j - 1];
                    assert(t[m] == s[m + 1]);
                }
            } else {
                assert(r[i] == it[i - 1]);
                assert(r[j] == it[j - 1]);
            }
        }
        assert forall|k: int| 0 <= k < s.len() implies r.contains(#[trigger] s[k]) by {
            if k == 0 {
                assert(r[0] == s[0]);
            } else {
                assert(t[k - 1] == s[k]);
                assert(it.contains(t[k - 1]));
                let m = choose|m: int| 0 <= m < it.len() && it[m] == t[k - 1];
                assert(r[m + 1] == s[k]);
            }
        }
        let m = choose|m: int| 0 <= m < it.len() && it[m] == a;
        assert(r[m + 1] == a);
    }
}

proof fn lemma_insert_by_key_members(s: Seq<App>, a: App, x: App)
    requires
        insert_by_key(s, a).contains(x),
        x != a,
    ensures
        s.contains(x),
    decreases s.len(),
{
    if s.len() == 0 {
        assert(insert_by_key(s, a) =~= seq![a]);
    } else if lex_lt(sort_key(a), sort_key(s[0])) {
        let r = seq![a] + s;
        let k = choose|k: int| 0 <= k < r.len() && r[k] == x;
        assert(s[k - 1] == x);
    } else {
        let t = s.drop_first();
        let r = seq![s[0]] + insert_by_key(t, a);
        let k = choose|k: int| 0 <= k < r.len() && r[k] == x;
        if k == 0 {
            assert(s[0] == x);
        } else {
            assert(insert_by_key(t, a)[k - 1] == x);
            lemma_insert_by_key_members(t, a, x);
            let m = choose|m: int| 0 <= m < t.len() && t[m] == x;
            assert(s[m + 1] == x);
        }
    }
}

proof fn lemma_sort_by_name(s: Seq<App>)
    ensures
        sorted_by_name(sort_by_name(s)),
        forall|k: int| 0 <= k < s.len() ==> sort_by_name(s).contains(#[trigger] s[k]),
    decreases s.len(),
{
    if s.len() > 0 {
        let p = s.drop_last();
        lemma_sort_by_name(p);
        lemma_insert_sorted(sort_by_name(p), s.last());
        assert forall|k: int| 0 <= k < s.len() implies sort_by_name(s).contains(#[trigger] s[k]) by {
            if k < s.len() - 1 {
                assert(p[k] == s[k]);
                let m = choose|m: int| 0 <= m < sort_by_name(p).len() && sort_by_name(p)[m] == p[k];
                assert(sort_by_name(s).contains(sort_by_name(p)[m]));
            }
        }
    }
}

proof fn lemma_dedup_members(s: Seq<App>)
    ensures
        forall|k: int| 0 <= k < dedup_names(s).len() ==> s.contains(#[trigger] dedup_names(s)[k]),
    decreases s.len(),
{
    if s.len() > 0 {
        let p = s.drop_last();
        lemma_dedup_members(p);
        let d = dedup_names(p);
        let r = dedup_names(s);
        assert forall|k: int| 0 <= k < r.len() implies s.contains(#[trigger] r[k]) by {
            if k < d.len() {
                assert(r[k] == d[k]);
                assert(p.contains(d[k]));
                let m = choose|m: int| 0 <= m < p.len() && p[m] == d[k];
                assert(s[m] == d[k]);
            } else {
                assert(s[s.len() - 1] == r[k]);
            }
        }
    }
}

proof fn lemma_dedup_sorted(s: Seq<App>)
    requires
        sorted_by_name(s),
    ensures
        sorted_by_name(dedup_names(s)),
    decreases s.len(),
{
    if s.len() > 0 {
        let p = s.drop_last();
        assert(sorted_by_name(p)) by {
            assert forall|i: int, j: int| 0 <= i < j < p.len() implies !lex_lt(#[trigger] sort_key(p[j]), #[trigger] sort_key(p[i])) by {
                assert(p[i] == s[i]);
                assert(p[j] == s[j]);
            }
        }
        lemma_dedup_sorted(p);
        lemma_dedup_members(p);
        let d = dedup_names(p);
        let r = dedup_names(s);
        if !(d.len() > 0 && d.last().name@ == s.last().name@) {
            assert forall|i: int, j: int| 0 <= i < j < r.len() implies !lex_lt(#[trigger] sort_key(r[j]), #[trigger] sort_key(r[i])) by {
                assert(r[i] == d[i]);
                if j == d.len() {
                    assert(p.contains(d[i]));
                    let m = choose|m: int| 0 <= m < p.len() && p[m] == d[i];
                    assert(s[m] == d[i]);
                    assert(r[j] == s[s.len() - 1]);
                } else {
                    assert(r[j] == d[j]);
                }
            }
        }
    }
}

proof fn lemma_dedup_neighbours(s: Seq<App>)
    ensures
        names_distinct_neighbours(dedup_names(s)),
    decreases s.len(),
{
    if s.len() > 0 {
        let p = s.drop_last();
        lemma_dedup_neighbours(p);
        let d = dedup_names(p);
        let r = dedup_names(s);
        if !(d.len() > 0 && d.last().name@ == s.last().name@) {
            assert forall|i: int| 0 <= i < r.len() - 1 implies #[trigger] r[i].name@ != r[i + 1].name@ by {
                assert(r[i] == d[i]);
                if i + 1 < d.len() {
                    assert(r[i + 1] == d[i + 1]);
                }
            }
        }
    }
}

proof fn lemma_dedup_keeps_names(s: Seq<App>)
    ensures
        forall|j: int| 0 <= j < s.len() ==> exists|k: int| 0 <= k < dedup_names(s).len() && #[trigger] dedup_names(s)[k].name@ == (#[trigger] s[j]).name@,
    decreases s.len(),
{
    if s.len() > 0 {
        let p = s.drop_last();
        lemma_dedup_keeps_names(p);
        let d = dedup_names(p);
        let r = dedup_names(s);
        assert forall|j: int| 0 <= j < s.len() implies exists|k: int| 0 <= k < r.len() && #[trigger] r[k].name@ == (#[trigger] s[j]).name@ by {
            let keep = d.len() > 0 && d.last().name@ == s.last().name@;
            if keep {
                assert(r == d);
            } else {
                assert(r == d.push(s.last()));
            }
            if j < s.len() - 1 {
                assert(p[j] == s[j]);
                let k = choose|k: int| 0 <= k < d.len() && #[trigger] d[k].name@ == (#[trigger] p[j]).name@;
                assert(r[k] == d[k]);
                assert(r[k].name@ == s[j].name@);
            } else if keep {
                let k = d.len() - 1;
                assert(r[k].name@ == s[j].name@);
            } else {
                let k = d.len() as int;
                assert(r[k] == s[j]);
                assert(r[k].name@ == s[j].name@);
            }
        }
    }
}

/// What `sort_and_dedup` returns is sorted by lowercase name, has no two
/// neighbours with the same name, holds only applications of the input,
/// and keeps every name of the input.
pub proof fn lemma_sort_and_dedup(apps: Seq<App>)
    ensures
        sorted_by_name(dedup_names(sort_by_name(apps))),
        names_distinct_neighbours(dedup_names(sort_by_name(apps))),
        forall|k: int| 0 <= k < dedup_names(sort_by_name(apps)).len() ==> apps.contains(#[trigger] dedup_names(sort_by_name(apps))[k]),
        forall|j: int| 0 <= j < apps.len() ==> exists|k: int| 0 <= k < dedup_names(sort_by_name(apps)).len() && #[trigger] dedup_names(sort_by_name(apps))[k].name@ == (#[trigger] apps[j]).name@,
{
    let sorted = sort_by_name(apps);
    lemma_sort_by_name(apps);
    lemma_sort_members(apps);
    lemma_dedup_sorted(sorted);
    lemma_dedup_neighbours(sorted);
    lemma_dedup_members(sorted);
    lemma_dedup_keeps_names(sorted);
    let d = dedup_names(sorted);
    assert forall|j: int| 0 <= j < apps.len() implies exists|k: int| 0 <= k < d.len() && #[trigger] d[k].name@ == (#[trigger] apps[j]).name@ by {
        assert(sorted.contains(apps[j]));
        let m = choose|m: int| 0 <= m < sorted.len() && sorted[m] == apps[j];
        let k = choose|k: int| 0 <= k < d.len() && #[trigger] d[k].name@ == sorted[m].name@;
    }
    assert forall|k: int| 0 <= k < d.len() implies apps.contains(#[trigger] d[k]) by {
        assert(sorted.contains(d[k]));
    }
}

proof fn lemma_filter_none(t: Seq<App>, pred: spec_fn(App) -> bool)
    requires
        forall|j: int| 0 <= j < t.len() ==> !pred(#[trigger] t[j]),
    ensures
        t.filter(pred) == Seq::<App>::empty(),
    decreases t.len(),
{
    reveal(Seq::filter);
    if t.len() > 0 {
        let p = t.drop_last();
        assert forall|j: int| 0 <= j < p.len() implies !pred(#[trigger] p[j]) by {
            assert(p[j] == t[j]);
        }
        lemma_filter_none(p, pred);
        assert(!pred(t[t.len() - 1]));
    }
}

proof fn lemma_filter_single(x: App, pred: spec_fn(App) -> bool)
    ensures
        seq![x].filter(pred) == if pred(x) {
            seq![x]
        } else {
            Seq::<App>::empty()
        },
{
    reveal(Seq::filter);
    assert(seq![x].drop_last() =~= Seq::<App>::empty());
    assert(Seq::<App>::empty().filter(pred) =~= Seq::<App>::empty());
    assert(Seq::<App>::empty().push(x) =~= seq![x]);
}

proof fn lemma_insert_by_key_filter(t: Seq<App>, x: App, key: Seq<char>, pred: spec_fn(App) -> bool)
    requires
        sorted_by_name(t),
        forall|a: App| #[trigger] pred(a) == (sort_key(a) == key),
    ensures
        insert_by_key(t, x).filter(pred) == if sort_key(x) == key {
            t.filter(pred).push(x)
        } else {
            t.filter(pred)
        },
    decreases t.len(),
{
    lemma_filter_single(x, pred);
    if t.len() == 0 {
        lemma_filter_none(t, pred);
        assert(Seq::<App>::empty().push(x) =~= seq![x]);
    } else if lex_lt(sort_key(x), sort_key(t[0])) {
        Seq::filter_distributes_over_add(seq![x], t, pred);
        if sort_key(x) == key {
            assert forall|j: int| 0 <= j < t.len() implies !pred(#[trigger] t[j]) by {
                if sort_key(t[j]) == key {
                    if j == 0 {
                        lemma_lex_lt_irreflexive(sort_key(x));
                    } else {
                        assert(!lex_lt(sort_key(t[j]), sort_key(t[0])));
                    }
                }
            }
            lemma_filter_none(t, pred);
            assert(seq![x] + Seq::<App>::empty() =~= Seq::<App>::empty().push(x));
        } else {
            assert(Seq::<App>::empty() + t.filter(pred) =~= t.filter(pred));
        }
    } else {
        let rest = t.drop_first();
        assert(sorted_by_name(rest)) by {
            assert forall|i: int, j: int| 0 <= i < j < rest.len() implies !lex_lt(#[trigger] sort_key(rest[j]), #[trigger] sort_key(rest[i])) by {
                assert(rest[i] == t[i + 1]);
                assert(rest[j] == t[j + 1]);
            }
        }
        lemma_insert_by_key_filter(rest, x, key, pred);
        lemma_filter_single(t[0], pred);
        Seq::filter_distributes_over_add(seq![t[0]], insert_by_key(rest, x), pred);
        Seq::filter_distributes_over_add(seq![t[0]], rest, pred);
        assert(seq![t[0]] + rest =~= t);
        if sort_key(x) == key {
            assert(seq![t[0]].filter(pred) + rest.filter(pred).push(x) =~= (seq![t[0]].filter(pred)
                + rest.filter(pred)).push(x));
        }
    }
}

/// Sorting by name is stable: for every key, the applications whose
/// lowercase name is that key come out all of them, in the order in which
/// they went in.
pub proof fn lemma_sort_by_name_stable(s: Seq<App>, key: Seq<char>)
    ensures
        sort_by_name(s).filter(|a: App| lowercase(a.name@) == key) == s.filter(
            |a: App| lowercase(a.name@) == key,
        ),
    decreases s.len(),
{
    let pred = |a: App| lowercase(a.name@) == key;
    if s.len() == 0 {
    } else {
        let p = s.drop_last();
        lemma_sort_by_name_stable(p, key);
        lemma_sort_by_name(p);
        lemma_insert_by_key_filter(sort_by_name(p), s.last(), key, pred);
        p.lemma_filter_push(s.last(), pred);
        assert(p.push(s.last()) =~= s);
    }
}

proof fn lemma_dedup_last(s: Seq<App>)
    requires
        s.len() > 0,
    ensures
        dedup_names(s).len() > 0,
        dedup_names(s)[0] == s[0],
        dedup_names(s).last().name@ == s.last().name@,
    decreases s.len(),
{
    let p = s.drop_last();
    if s.len() > 1 {
        lemma_dedup_last(p);
        assert(p[0] == s[0]);
    } else {
        assert(dedup_names(p).len() == 0);
        assert(dedup_names(s) == dedup_names(p).push(s.last()));
    }
}

/// Deduplicating drops exactly the elements whose name is that of the
/// element just before them: the first element is kept; appending an
/// element with the last element's name adds nothing, and appending one
/// with another name adds it at the end.
pub proof fn lemma_dedup_names_push(s: Seq<App>, x: App)
    ensures
        s.len() > 0 ==> dedup_names(s)[0] == s[0],
        s.len() > 0 && x.name@ == s.last().name@ ==> dedup_names(s.push(x)) == dedup_names(s),
        (s.len() == 0 || x.name@ != s.last().name@) ==> dedup_names(s.push(x)) == dedup_names(s).push(x),
{
    assert(s.push(x).drop_last() =~= s);
    if s.len() > 0 {
        lemma_dedup_last(s);
    }
}

proof fn lemma_sort_of_sorted(s: Seq<App>)
    requires
        sorted_by_name(s),
    ensures
        sort_by_name(s) == s,
    decreases s.len(),
{
    if s.len() > 0 {
        let p = s.drop_last();
        assert(sorted_by_name(p)) by {
            assert forall|i: int, j: int| 0 <= i < j < p.len() implies !lex_lt(#[trigger] sort_key(p[j]), #[trigger] sort_key(p[i])) by {
                assert(p[i] == s[i]);
                assert(p[j] == s[j]);
            }
        }
        lemma_sort_of_sorted(p);
        assert forall|j: int| 0 <= j < p.len() implies !lex_lt(sort_key(s.last()), #[trigger] sort_key(p[j])) by {
            assert(p[j] == s[j]);
        }
        lemma_insert_by_key_at(p, s.last(), p.len() as int);
        assert(p.insert(p.len() as int, s.last()) =~= s);
    }
}

proof fn lemma_dedup_of_distinct(s: Seq<App>)
    requires
        names_distinct_neighbours(s),
    ensures
        dedup_names(s) == s,
    decreases s.len(),
{
    if s.len() > 0 {
        let p = s.drop_last();
        assert(names_distinct_neighbours(p)) by {
            assert forall|i: int| 0 <= i < p.len() - 1 implies #[trigger] p[i].name@ != p[i + 1].name@ by {
                assert(p[i] == s[i]);
                assert(p[i + 1] == s[i + 1]);
            }
        }
        lemma_dedup_of_distinct(p);
        if p.len() > 0 {
            assert(s[s.len() - 2].name@ != s[s.len() - 1].name@);
        }
        assert(p.push(s.last()) =~= s);
    }
}

/// Sorting and deduplicating a list that has already been sorted and
/// deduplicated changes nothing.
pub proof fn lemma_sort_and_dedup_idempotent(apps: Seq<App>)
    ensures
        dedup_names(sort_by_name(dedup_names(sort_by_name(apps)))) == dedup_names(sort_by_name(apps)),
{
    let once = dedup_names(sort_by_name(apps));
    lemma_sort_and_dedup(apps);
    lemma_sort_of_sorted(once);
    lemma_dedup_of_distinct(once);
}

proof fn lemma_sort_members(s: Seq<App>)
    ensures
        forall|x: App| sort_by_name(s).contains(x) ==> s.contains(x),
    decreases s.len(),
{
    if s.len() > 0 {
        let p = s.drop_last();
        lemma_sort_members(p);
        assert forall|x: App| sort_by_name(s).contains(x) implies s.contains(x) by {
            if x == s.last() {
                assert(s[s.len() - 1] == x);
            } else {
                lemma_insert_by_key_members(sort_by_name(p), s.last(), x);
                assert(p.contains(x));
                let m = choose|m: int| 0 <= m < p.len() && p[m] == x;
                assert(s[m] == x);
            }
        }
    }
}

/// How one trimmed line changes what has been read. A line outside the
/// `[Desktop Entry]` section that is not a section header changes nothing.
/// Within the section, the first `Name=` and the first `Exec=` line count:
/// such a line sets the value when none was read yet (the text after the
/// key; for `Exec=` without field codes), and once a value is read no later
/// line changes it. A `Type=` line decides, until the next one, whether the
/// entry is an application: exactly when it reads `Type=Application`.
pub proof fn lemma_scan_line_keys(st: EntryScan, line: Seq<char>)
    ensures
        st.name is Some ==> scan_line(st, line).name == st.name,
        st.command is Some ==> scan_line(st, line).command == st.command,
        !st.in_entry && !(line.len() > 0 && line[0] == '[') ==> scan_line(st, line) == st,
        st.in_entry && st.name is None && line.len() >= 5 && line.take(5) == seq!['N', 'a', 'm', 'e', '=']
            ==> scan_line(st, line).name == Some(line.skip(5)),
        st.in_entry && st.command is None && line.len() >= 5 && line.take(5) == seq!['E', 'x', 'e', 'c', '=']
            ==> scan_line(st, line).command == Some(strip_codes(line.skip(5))),
        st.in_entry && line.len() >= 5 && line.take(5) == seq!['T', 'y', 'p', 'e', '='] ==> (scan_line(
            st,
            line,
        ).is_app <==> line == seq!['T', 'y', 'p', 'e', '=', 'A', 'p', 'p', 'l', 'i', 'c', 'a', 't', 'i', 'o', 'n']),
{
    reveal_strlit("[Desktop Entry]");
    reveal_strlit("Name=");
    reveal_strlit("Exec=");
    reveal_strlit("Type=");
    reveal_strlit("Type=Application");
    if line.len() >= 5 {
        let h = line.take(5);
        assert(h[0] == line[0]);
        if h == seq!['N', 'a', 'm', 'e', '='] {
            assert(h =~= "Name="@);
            assert(line.subrange(0, 5) =~= h);
            assert(line != "[Desktop Entry]"@);
        }
        if h == seq!['E', 'x', 'e', 'c', '='] {
            assert(h =~= "Exec="@);
            assert(line.subrange(0, 5) =~= h);
            assert(line != "[Desktop Entry]"@);
        }
        if h == seq!['T', 'y', 'p', 'e', '='] {
            assert(h =~= "Type="@);
            assert(line.subrange(0, 5) =~= h);
            assert(line != "[Desktop Entry]"@);
            assert("Type=Application"@ =~= seq!['T', 'y', 'p', 'e', '=', 'A', 'p', 'p', 'l', 'i', 'c', 'a', 't', 'i', 'o', 'n']);
        }
    }
}

proof fn lemma_scan_command(ls: Seq<Seq<char>>)
    ensures
        scan_lines(ls).command matches Some(c) ==> exists|x: Seq<char>| c == #[trigger] strip_codes(x),
    decreases ls.len(),
{
    if ls.len() > 0 {
        lemma_scan_command(ls.drop_last());
    }
}

/// The command line of a parsed application has no field codes: none of
/// its words starts with `%`, and stripping field codes again changes nothing.
pub proof fn lemma_parsed_command_plain(content: Seq<char>)
    ensures
        desktop_app(content) matches Some((name, cmd)) ==> {
            &&& strip_codes(cmd) == cmd
            &&& forall|k: int| 0 <= k < words(cmd).len() ==> (#[trigger] words(cmd)[k])[0] != '%'
        },
{
    lemma_scan_command(lines(content));
    if let Some((name, cmd)) = desktop_app(content) {
        let x = choose|x: Seq<char>| cmd == #[trigger] strip_codes(x);
        lemma_strip_codes_idempotent(x);
    }
}

} // verus!
