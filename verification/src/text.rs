//! Text on characters: Unicode white space, words, trimming, lines,
//! prefixes, substring search and ordering, and the few `String` and `str`
//! operations the library relies on from std.

use vstd::prelude::*;

verus! {

/// Unicode `White_Space`, the property behind `char::is_whitespace`.
pub open spec fn is_whitespace(c: char) -> bool {
    let u = c as u32;
    ||| u == 0x20
    ||| (0x09 <= u && u <= 0x0d)
    ||| u == 0x85
    ||| u == 0xa0
    ||| u == 0x1680
    ||| (0x2000 <= u && u <= 0x200a)
    ||| u == 0x2028
    ||| u == 0x2029
    ||| u == 0x202f
    ||| u == 0x205f
    ||| u == 0x3000
}

/// Whether `c` is Unicode white space.
pub fn char_is_whitespace(c: char) -> (b: bool)
    ensures
        b == is_whitespace(c),
{
    let u = c as u32;
    u == 0x20 || (0x09 <= u && u <= 0x0d) || u == 0x85 || u == 0xa0 || u == 0x1680 || (0x2000 <= u
        && u <= 0x200a) || u == 0x2028 || u == 0x2029 || u == 0x202f || u == 0x205f || u == 0x3000
}

/// The characters of `s`.
pub fn chars_of(s: &str) -> (v: Vec<char>)
    ensures
        v@ == s@,
{
    let mut v: Vec<char> = Vec::new();
    for c in it: s.chars()
        invariant
            v@ == it.seq().take(it.index() as int),
            it.seq() == s@,
    {
        v.push(c);
    }
    v
}


/// Appends `c` to `s`; calls `String::push`.
#[verifier::external_body]
pub(crate) fn push_char(s: &mut String, c: char)
    ensures
        final(s)@ == old(s)@.push(c),
{
    s.push(c);
}

/// Removes and returns the last character of `s`, if any; calls `String::pop`.
#[verifier::external_body]
pub(crate) fn pop_char(s: &mut String) -> (r: Option<char>)
    ensures
        old(s)@.len() == 0 ==> r is None && final(s)@ == old(s)@,
        old(s)@.len() > 0 ==> r == Some(old(s)@.last()) && final(s)@ == old(s)@.drop_last(),
{
    s.pop()
}

/// The lowercase form of a text under the Unicode `Lowercase` mapping, as
/// `str::to_lowercase` computes it.
pub uninterp spec fn lowercase(s: Seq<char>) -> Seq<char>;

/// The ASCII lowercase of a character; other characters are kept.
pub open spec fn ascii_lower(c: char) -> char {
    if 'A' <= c && c <= 'Z' {
        ((c as u32) + 32) as char
    } else {
        c
    }
}

/// Whether every character is ASCII.
pub open spec fn all_ascii(s: Seq<char>) -> bool {
    forall|i: int| 0 <= i < s.len() ==> (#[trigger] s[i] as u32) < 128
}

/// The lowercase form of `s`; calls `str::to_lowercase`. An ASCII text maps
/// letter by letter, `A`-`Z` to `a`-`z`, everything else kept.
#[verifier::external_body]
pub(crate) fn to_lowercase(s: &str) -> (r: String)
    ensures
        r@ == lowercase(s@),
        all_ascii(s@) ==> r@ == s@.map_values(|c: char| ascii_lower(c)),
{
    s.to_lowercase()
}

/// A `String` holding the characters `v`.
pub fn string_of(v: &Vec<char>) -> (s: String)
    ensures
        s@ == v@,
{
    let mut s = String::new();
    let mut i: usize = 0;
    while i < v.len()
        invariant
            i <= v@.len(),
            s@ == v@.take(i as int),
        decreases v@.len() - i,
    {
        push_char(&mut s, v[i]);
        assert(v@.take(i + 1) =~= v@.take(i as int).push(v@[i as int]));
        i = i + 1;
    }
    assert(v@.take(v@.len() as int) =~= v@);
    s
}

/// The whitespace-separated words of `s`, in order: its maximal runs of
/// characters that are not white space (what `str::split_whitespace` yields).
pub open spec fn words(s: Seq<char>) -> Seq<Seq<char>>
    decreases s.len(),
{
    if s.len() == 0 {
        Seq::empty()
    } else {
        let prev = words(s.drop_last());
        let c = s.last();
        if is_whitespace(c) {
            prev
        } else if s.len() >= 2 && !is_whitespace(s[s.len() - 2]) {
            prev.update(prev.len() - 1, prev.last().push(c))
        } else {
            prev.push(seq![c])
        }
    }
}

/// The words of `ws` joined with single spaces.
pub open spec fn join_words(ws: Seq<Seq<char>>) -> Seq<char>
    decreases ws.len(),
{
    if ws.len() == 0 {
        Seq::empty()
    } else if ws.len() == 1 {
        ws[0]
    } else {
        join_words(ws.drop_last()) + seq![' '] + ws.last()
    }
}

/// The words of `ws` that do not start with `%`, in order.
pub open spec fn plain_words(ws: Seq<Seq<char>>) -> Seq<Seq<char>>
    decreases ws.len(),
{
    if ws.len() == 0 {
        ws
    } else if ws.last().len() > 0 && ws.last()[0] == '%' {
        plain_words(ws.drop_last())
    } else {
        plain_words(ws.drop_last()).push(ws.last())
    }
}

/// A command line with its freedesktop field codes (`%f`, `%U`, ...) left out:
/// the words that do not start with `%`, joined with single spaces.
pub open spec fn strip_codes(s: Seq<char>) -> Seq<char> {
    join_words(plain_words(words(s)))
}

/// A word: not empty, without white space.
pub open spec fn is_word(w: Seq<char>) -> bool {
    w.len() > 0 && forall|i: int| 0 <= i < w.len() ==> !is_whitespace(#[trigger] w[i])
}

proof fn lemma_words_last(s: Seq<char>)
    requires
        s.len() > 0,
        !is_whitespace(s.last()),
    ensures
        words(s).len() > 0,
    decreases s.len(),
{
    if s.len() >= 2 && !is_whitespace(s[s.len() - 2]) {
        lemma_words_last(s.drop_last());
    }
}

/// Every element of `words(s)` is a word.
pub proof fn lemma_words_are_words(s: Seq<char>)
    ensures
        forall|k: int| 0 <= k < words(s).len() ==> is_word(#[trigger] words(s)[k]),
    decreases s.len(),
{
    if s.len() > 0 {
        lemma_words_are_words(s.drop_last());
        let prev = words(s.drop_last());
        let c = s.last();
        if !is_whitespace(c) && s.len() >= 2 && !is_whitespace(s[s.len() - 2]) {
            lemma_words_last(s.drop_last());
            let w = prev.last().push(c);
            assert(is_word(prev[prev.len() - 1]));
            assert forall|i: int| 0 <= i < w.len() implies !is_whitespace(#[trigger] w[i]) by {
                if i < w.len() - 1 {
                    assert(w[i] == prev[prev.len() - 1][i]);
                }
            }
        }
        if !is_whitespace(c) && !(s.len() >= 2 && !is_whitespace(s[s.len() - 2])) {
            let w = seq![c];
            assert forall|i: int| 0 <= i < w.len() implies !is_whitespace(#[trigger] w[i]) by {}
        }
    }
}

proof fn lemma_words_of_word(w: Seq<char>)
    requires
        is_word(w),
    ensures
        words(w) == seq![w],
    decreases w.len(),
{
    if w.len() == 1 {
        assert(w.drop_last() =~= Seq::<char>::empty());
        assert(words(w.drop_last()) =~= Seq::<Seq<char>>::empty());
        assert(!is_whitespace(w.last()));
        assert(seq![w.last()] =~= w);
        assert(words(w) =~= Seq::<Seq<char>>::empty().push(seq![w.last()]));
        assert(words(w) =~= seq![w]);
    } else {
        let w2 = w.drop_last();
        assert(is_word(w2)) by {
            assert forall|i: int| 0 <= i < w2.len() implies !is_whitespace(#[trigger] w2[i]) by {
                assert(w2[i] == w[i]);
            }
        }
        lemma_words_of_word(w2);
        assert(!is_whitespace(w[w.len() - 1]));
        assert(!is_whitespace(w[w.len() - 2]));
        assert(w2.push(w.last()) =~= w);
        assert(words(w) =~= seq![w2].update(0, w2.push(w.last())));
        assert(words(w) =~= seq![w]);
    }
}

proof fn lemma_words_append_word(p: Seq<char>, w: Seq<char>)
    requires
        is_word(w),
    ensures
        words(p + seq![' '] + w) == words(p).push(w),
    decreases w.len(),
{
    let t = p + seq![' '] + w;
    assert(!is_whitespace(w[w.len() - 1]));
    if w.len() == 1 {
        assert(t.drop_last() =~= p + seq![' ']);
        assert((p + seq![' ']).drop_last() =~= p);
        assert(is_whitespace(' '));
        assert(t[t.len() - 2] == ' ');
        assert(seq![w.last()] =~= w);
        assert(words(p + seq![' ']) == words(p));
        assert(t.last() == w.last());
        assert(words(t) =~= words(p).push(seq![w.last()]));
    } else {
        let w2 = w.drop_last();
        assert(is_word(w2)) by {
            assert forall|i: int| 0 <= i < w2.len() implies !is_whitespace(#[trigger] w2[i]) by {
                assert(w2[i] == w[i]);
            }
        }
        lemma_words_append_word(p, w2);
        assert(t.drop_last() =~= p + seq![' '] + w2);
        assert(t[t.len() - 2] == w[w.len() - 2]);
        assert(!is_whitespace(w[w.len() - 2]));
        assert(w2.push(w.last()) =~= w);
        assert(words(t) =~= words(p).push(w));
    }
}

/// Joining words with single spaces and splitting the result into words
/// gives back the same words.
pub proof fn lemma_words_of_join(ws: Seq<Seq<char>>)
    requires
        forall|k: int| 0 <= k < ws.len() ==> is_word(#[trigger] ws[k]),
    ensures
        words(join_words(ws)) == ws,
    decreases ws.len(),
{
    if ws.len() == 0 {
    } else if ws.len() == 1 {
        assert(is_word(ws[0]));
        lemma_words_of_word(ws[0]);
        assert(seq![ws[0]] =~= ws);
    } else {
        let ws2 = ws.drop_last();
        assert forall|k: int| 0 <= k < ws2.len() implies is_word(#[trigger] ws2[k]) by {
            assert(ws2[k] == ws[k]);
        }
        lemma_words_of_join(ws2);
        assert(is_word(ws[ws.len() - 1]));
        lemma_words_append_word(join_words(ws2), ws.last());
        assert(ws2.push(ws.last()) =~= ws);
    }
}

proof fn lemma_plain_words_sub(ws: Seq<Seq<char>>)
    requires
        forall|k: int| 0 <= k < ws.len() ==> is_word(#[trigger] ws[k]),
    ensures
        forall|k: int| 0 <= k < plain_words(ws).len() ==> is_word(#[trigger] plain_words(ws)[k]),
        forall|k: int| 0 <= k < plain_words(ws).len() ==> (#[trigger] plain_words(ws)[k])[0] != '%',
        plain_words(plain_words(ws)) == plain_words(ws),
    decreases ws.len(),
{
    if ws.len() > 0 {
        let ws2 = ws.drop_last();
        assert forall|k: int| 0 <= k < ws2.len() implies is_word(#[trigger] ws2[k]) by {
            assert(ws2[k] == ws[k]);
        }
        lemma_plain_words_sub(ws2);
        assert(is_word(ws[ws.len() - 1]));
        let p2 = plain_words(ws2);
        if !(ws.last().len() > 0 && ws.last()[0] == '%') {
            let p = p2.push(ws.last());
            assert(p.drop_last() =~= p2);
            assert forall|k: int| 0 <= k < p.len() implies is_word(#[trigger] p[k]) by {
                if k < p2.len() {
                    assert(p[k] == p2[k]);
                }
            }
            assert forall|k: int| 0 <= k < p.len() implies (#[trigger] p[k])[0] != '%' by {
                if k < p2.len() {
                    assert(p[k] == p2[k]);
                }
            }
        }
    }
}

/// Stripping field codes keeps exactly the words that do not start with
/// `%`, so no word of the result starts with `%`, and stripping again
/// changes nothing.
pub proof fn lemma_strip_codes_idempotent(s: Seq<char>)
    ensures
        words(strip_codes(s)) == plain_words(words(s)),
        forall|k: int|
            0 <= k < words(strip_codes(s)).len() ==> (#[trigger] words(strip_codes(s))[k])[0] != '%',
        strip_codes(strip_codes(s)) == strip_codes(s),
{
    lemma_words_are_words(s);
    lemma_plain_words_sub(words(s));
    lemma_words_of_join(plain_words(words(s)));
}

/// A character is white space exactly when its code point is one of those
/// listed here one by one: U+0009 to U+000D, U+0020, U+0085, U+00A0, U+1680,
/// U+2000 to U+200A, U+2028, U+2029, U+202F, U+205F and U+3000. In
/// particular no printable ASCII character (`!` to `~`) is white space.
pub proof fn lemma_whitespace_code_points(c: char)
    ensures
        is_whitespace(c) <==> seq![
            0x09u32, 0x0a, 0x0b, 0x0c, 0x0d, 0x20, 0x85, 0xa0, 0x1680,
            0x2000, 0x2001, 0x2002, 0x2003, 0x2004, 0x2005, 0x2006, 0x2007, 0x2008, 0x2009, 0x200a,
            0x2028, 0x2029, 0x202f, 0x205f, 0x3000,
        ].contains(c as u32),
        0x21 <= c as u32 <= 0x7e ==> !is_whitespace(c),
{
    let ws = seq![
        0x09u32, 0x0a, 0x0b, 0x0c, 0x0d, 0x20, 0x85, 0xa0, 0x1680,
        0x2000, 0x2001, 0x2002, 0x2003, 0x2004, 0x2005, 0x2006, 0x2007, 0x2008, 0x2009, 0x200a,
        0x2028, 0x2029, 0x202f, 0x205f, 0x3000,
    ];
    let u = c as u32;
    assert(ws.len() == 25);
    assert(ws[0] == 0x09 && ws[1] == 0x0a && ws[2] == 0x0b && ws[3] == 0x0c && ws[4] == 0x0d);
    assert(ws[5] == 0x20 && ws[6] == 0x85 && ws[7] == 0xa0 && ws[8] == 0x1680);
    assert(ws[9] == 0x2000 && ws[10] == 0x2001 && ws[11] == 0x2002 && ws[12] == 0x2003);
    assert(ws[13] == 0x2004 && ws[14] == 0x2005 && ws[15] == 0x2006 && ws[16] == 0x2007);
    assert(ws[17] == 0x2008 && ws[18] == 0x2009 && ws[19] == 0x200a);
    assert(ws[20] == 0x2028 && ws[21] == 0x2029 && ws[22] == 0x202f && ws[23] == 0x205f);
    assert(ws[24] == 0x3000);
    if is_whitespace(c) {
        if 0x09 <= u <= 0x0d {
            assert(ws[u - 0x09] == u);
        } else if 0x2000 <= u <= 0x200a {
            assert(ws[u - 0x2000 + 9] == u);
        } else if u == 0x20 {
            assert(ws[5] == u);
        } else if u == 0x85 {
            assert(ws[6] == u);
        } else if u == 0xa0 {
            assert(ws[7] == u);
        } else if u == 0x1680 {
            assert(ws[8] == u);
        } else if u == 0x2028 {
            assert(ws[20] == u);
        } else if u == 0x2029 {
            assert(ws[21] == u);
        } else if u == 0x202f {
            assert(ws[22] == u);
        } else if u == 0x205f {
            assert(ws[23] == u);
        } else {
            assert(ws[24] == u);
        }
    }
    if ws.contains(u) {
        let k = choose|k: int| 0 <= k < ws.len() && ws[k] == u;
        assert(is_whitespace(c));
    }
}

/// A single word of printable ASCII (`!` to `~`) that does not start with
/// `%`, such as an absolute program path, has no field codes: it is its
/// only word, and stripping field codes keeps it as it is.
pub proof fn lemma_strip_codes_keeps_printable_word(s: Seq<char>)
    requires
        s.len() > 0,
        s[0] != '%',
        forall|i: int| 0 <= i < s.len() ==> '!' <= #[trigger] s[i] && s[i] <= '~',
    ensures
        words(s) == seq![s],
        strip_codes(s) == s,
{
    assert forall|i: int| 0 <= i < s.len() implies !is_whitespace(#[trigger] s[i]) by {
        lemma_whitespace_code_points(s[i]);
    }
    lemma_words_of_word(s);
    let ws = seq![s];
    assert(ws.drop_last() =~= Seq::<Seq<char>>::empty());
    assert(ws.last() == s);
    assert(plain_words(ws.drop_last()) =~= Seq::<Seq<char>>::empty());
    assert(plain_words(ws) =~= Seq::<Seq<char>>::empty().push(s));
    assert(plain_words(ws) =~= ws);
}

/// Splits `s` into its whitespace-separated words.
pub fn split_words(s: &Vec<char>) -> (ws: Vec<Vec<char>>)
    ensures
        ws@.len() == words(s@).len(),
        forall|k: int| 0 <= k < ws@.len() ==> #[trigger] ws@[k]@ == words(s@)[k],
{
    let mut out: Vec<Vec<char>> = Vec::new();
    let mut cur: Vec<char> = Vec::new();
    let mut in_word = false;
    let mut i: usize = 0;
    while i < s.len()
        invariant
            i <= s@.len(),
            in_word <==> (i > 0 && !is_whitespace(s@[i - 1])),
            !in_word ==> cur@.len() == 0,
            !in_word ==> out@.len() == words(s@.take(i as int)).len(),
            in_word ==> out@.len() + 1 == words(s@.take(i as int)).len(),
            in_word ==> cur@ == words(s@.take(i as int)).last(),
            forall|k: int| 0 <= k < out@.len() ==> #[trigger] out@[k]@ == words(s@.take(i as int))[k],
        decreases s@.len() - i,
    {
        let c = s[i];
        let ghost pre = s@.take(i as int);
        let ghost next = s@.take(i + 1);
        assert(next.drop_last() =~= pre);
        assert(next.last() == c);
        if char_is_whitespace(c) {
            if in_word {
                out.push(cur);
                cur = Vec::new();
            }
            in_word = false;
        } else {
            if in_word {
                assert(next[next.len() - 2] == s@[i - 1]);
                cur.push(c);
            } else {
                cur.push(c);
                assert(cur@ =~= seq![c]);
                in_word = true;
            }
        }
        i = i + 1;
    }
    assert(s@.take(s@.len() as int) =~= s@);
    if in_word {
        out.push(cur);
    }
    out
}

/// The words of `ws` joined with single spaces.
fn join_with_spaces(ws: &Vec<Vec<char>>) -> (r: Vec<char>)
    ensures
        r@ == join_words(ws@.map_values(|w: Vec<char>| w@)),
{
    let ghost views = ws@.map_values(|w: Vec<char>| w@);
    let mut r: Vec<char> = Vec::new();
    let mut i: usize = 0;
    while i < ws.len()
        invariant
            i <= ws@.len(),
            views == ws@.map_values(|w: Vec<char>| w@),
            r@ == join_words(views.take(i as int)),
        decreases ws@.len() - i,
    {
        assert(views.take(i + 1).drop_last() =~= views.take(i as int));
        if i > 0 {
            r.push(' ');
        }
        let w = &ws[i];
        let mut j: usize = 0;
        let ghost base = r@;
        while j < w.len()
            invariant
                j <= w@.len(),
                r@ == base + w@.take(j as int),
            decreases w@.len() - j,
        {
            r.push(w[j]);
            assert(w@.take(j + 1) =~= w@.take(j as int).push(w@[j as int]));
            j = j + 1;
        }
        assert(w@.take(w@.len() as int) =~= w@);
        proof {
            if i == 0 {
                assert(r@ =~= join_words(views.take(1)));
            } else {
                assert(r@ =~= join_words(views.take(i as int)) + seq![' '] + views[i as int]);
            }
        }
        i = i + 1;
    }
    assert(views.take(ws@.len() as int) =~= views);
    r
}

/// `s` with its freedesktop field codes left out (see `strip_codes`).
pub fn strip_codes_chars(s: &Vec<char>) -> (r: Vec<char>)
    ensures
        r@ == strip_codes(s@),
{
    let ws = split_words(s);
    let ghost all = words(s@);
    let mut kept: Vec<Vec<char>> = Vec::new();
    let mut i: usize = 0;
    while i < ws.len()
        invariant
            i <= ws@.len(),
            all == words(s@),
            ws@.len() == all.len(),
            forall|k: int| 0 <= k < ws@.len() ==> #[trigger] ws@[k]@ == all[k],
            kept@.map_values(|w: Vec<char>| w@) == plain_words(all.take(i as int)),
        decreases ws@.len() - i,
    {
        assert(all.take(i + 1).drop_last() =~= all.take(i as int));
        assert(ws@[i as int]@ == all[i as int]);
        let w = &ws[i];
        if w.len() > 0 && w[0] == '%' {
        } else {
            kept.push(w.clone());
            assert(kept@.map_values(|w: Vec<char>| w@) =~= plain_words(all.take(i as int)).push(all[i as int]));
        }
        i = i + 1;
    }
    assert(all.take(all.len() as int) =~= all);
    join_with_spaces(&kept)
}

/// Removes freedesktop field codes like `%f`, `%u`, `%F`, `%U` from a
/// command line: keeps the words that do not start with `%` and joins them
/// with single spaces.
pub fn strip_field_codes(exec: &str) -> (r: String)
    ensures
        r@ == strip_codes(exec@),
{
    let cs = chars_of(exec);
    let out = strip_codes_chars(&cs);
    string_of(&out)
}


/// `s` without its leading white space.
pub open spec fn trim_start(s: Seq<char>) -> Seq<char>
    decreases s.len(),
{
    if s.len() > 0 && is_whitespace(s[0]) {
        trim_start(s.drop_first())
    } else {
        s
    }
}

/// `s` without its trailing white space.
pub open spec fn trim_end(s: Seq<char>) -> Seq<char>
    decreases s.len(),
{
    if s.len() > 0 && is_whitespace(s.last()) {
        trim_end(s.drop_last())
    } else {
        s
    }
}

/// `s` without leading and trailing white space (what `str::trim` gives).
pub open spec fn trim(s: Seq<char>) -> Seq<char> {
    trim_end(trim_start(s))
}

proof fn lemma_trim_start_shape(s: Seq<char>)
    ensures
        trim_start(s).len() <= s.len(),
        trim_start(s) == s.subrange(s.len() - trim_start(s).len(), s.len() as int),
        forall|i: int| 0 <= i < s.len() - trim_start(s).len() ==> is_whitespace(#[trigger] s[i]),
        trim_start(s).len() > 0 ==> !is_whitespace(trim_start(s)[0]),
    decreases s.len(),
{
    if s.len() > 0 && is_whitespace(s[0]) {
        let t = s.drop_first();
        lemma_trim_start_shape(t);
        assert forall|i: int| 0 <= i < s.len() - trim_start(s).len() implies is_whitespace(#[trigger] s[i]) by {
            if i > 0 {
                assert(s[i] == t[i - 1]);
            }
        }
        assert(t.subrange(t.len() - trim_start(t).len(), t.len() as int) =~= s.subrange(
            s.len() - trim_start(s).len(),
            s.len() as int,
        ));
    } else {
        assert(s.subrange(0, s.len() as int) =~= s);
    }
}

proof fn lemma_trim_end_shape(s: Seq<char>)
    ensures
        trim_end(s).len() <= s.len(),
        trim_end(s) == s.subrange(0, trim_end(s).len() as int),
        forall|i: int| trim_end(s).len() <= i < s.len() ==> is_whitespace(#[trigger] s[i]),
        trim_end(s).len() > 0 ==> !is_whitespace(trim_end(s).last()),
    decreases s.len(),
{
    if s.len() > 0 && is_whitespace(s.last()) {
        let t = s.drop_last();
        lemma_trim_end_shape(t);
        assert forall|i: int| trim_end(s).len() <= i < s.len() implies is_whitespace(#[trigger] s[i]) by {
            if i < s.len() - 1 {
                assert(s[i] == t[i]);
            }
        }
        assert(t.subrange(0, trim_end(t).len() as int) =~= s.subrange(0, trim_end(s).len() as int));
    } else {
        assert(s.subrange(0, s.len() as int) =~= s);
    }
}

/// Trimming removes white space at both ends and nothing else: what is left
/// is a run of consecutive characters of `s`, everything before it and after
/// it is white space, and it neither starts nor ends with white space.
pub proof fn lemma_trim_removes_outer_whitespace(s: Seq<char>)
    ensures
        exists|a: int, b: int|
            0 <= a <= b <= s.len() && #[trigger] s.subrange(a, b) == trim(s) && (forall|i: int|
                0 <= i < a ==> is_whitespace(#[trigger] s[i])) && (forall|i: int|
                b <= i < s.len() ==> is_whitespace(#[trigger] s[i])),
        trim(s).len() > 0 ==> !is_whitespace(trim(s)[0]) && !is_whitespace(trim(s).last()),
{
    let t = trim_start(s);
    lemma_trim_start_shape(s);
    lemma_trim_end_shape(t);
    let a = s.len() - t.len();
    let m = trim_end(t).len() as int;
    let b = a + m;
    assert(s.subrange(a, b) =~= trim(s));
    assert forall|i: int| b <= i < s.len() implies is_whitespace(#[trigger] s[i]) by {
        assert(s[i] == t[i - a]);
    }
    if m > 0 {
        assert(trim(s)[0] == t[0]);
    }
}

/// `s` without leading and trailing white space.
pub fn trim_chars(s: &Vec<char>) -> (r: Vec<char>)
    ensures
        r@ == trim(s@),
{
    let n = s.len();
    let mut a: usize = 0;
    assert(s@.subrange(0, n as int) =~= s@);
    while a < n && char_is_whitespace(s[a])
        invariant
            a <= n,
            n == s@.len(),
            trim_start(s@) == trim_start(s@.subrange(a as int, n as int)),
        decreases n - a,
    {
        assert(s@.subrange(a as int, n as int).drop_first() =~= s@.subrange(a + 1, n as int));
        a = a + 1;
    }
    let ghost t = s@.subrange(a as int, n as int);
    assert(trim_start(s@) == t);
    let mut b: usize = n;
    assert(t.subrange(0, (b - a) as int) =~= t);
    while b > a && char_is_whitespace(s[b - 1])
        invariant
            a <= b <= n,
            n == s@.len(),
            t == s@.subrange(a as int, n as int),
            trim_end(t) == trim_end(t.subrange(0, (b - a) as int)),
        decreases b - a,
    {
        assert(t.subrange(0, (b - a) as int).drop_last() =~= t.subrange(0, (b - 1 - a) as int));
        b = b - 1;
    }
    let mut r: Vec<char> = Vec::new();
    let mut i: usize = a;
    while i < b
        invariant
            a <= i <= b <= n,
            n == s@.len(),
            r@ == s@.subrange(a as int, i as int),
        decreases b - i,
    {
        r.push(s[i]);
        assert(s@.subrange(a as int, i + 1) =~= s@.subrange(a as int, i as int).push(s@[i as int]));
        i = i + 1;
    }
    assert(r@ =~= t.subrange(0, (b - a) as int));
    r
}

/// The lines of `s`: the pieces between `'\n'` characters, the last piece
/// included even when empty.
pub open spec fn lines(s: Seq<char>) -> Seq<Seq<char>>
    decreases s.len(),
{
    if s.len() == 0 {
        seq![Seq::empty()]
    } else {
        let prev = lines(s.drop_last());
        if s.last() == '\n' {
            prev.push(Seq::empty())
        } else {
            prev.update(prev.len() - 1, prev.last().push(s.last()))
        }
    }
}

proof fn lemma_lines_not_empty(s: Seq<char>)
    ensures
        lines(s).len() >= 1,
    decreases s.len(),
{
    if s.len() > 0 {
        lemma_lines_not_empty(s.drop_last());
    }
}

proof fn lemma_lines_single(s: Seq<char>)
    requires
        !s.contains('\n'),
    ensures
        lines(s) == seq![s],
    decreases s.len(),
{
    if s.len() == 0 {
        assert(s =~= Seq::<char>::empty());
        assert(lines(s) =~= seq![s]);
    } else {
        let p = s.drop_last();
        assert(!p.contains('\n')) by {
            if p.contains('\n') {
                let k = choose|k: int| 0 <= k < p.len() && p[k] == '\n';
                assert(s[k] == '\n');
            }
        }
        lemma_lines_single(p);
        assert(s[s.len() - 1] != '\n');
        assert(p.push(s.last()) =~= s);
        assert(lines(s) =~= seq![s]);
    }
}

proof fn lemma_lines_append(a: Seq<char>, b: Seq<char>)
    ensures
        lines(a + seq!['\n'] + b) == lines(a) + lines(b),
    decreases b.len(),
{
    let t = a + seq!['\n'] + b;
    if b.len() == 0 {
        assert(t =~= a.push('\n'));
        assert(t.drop_last() =~= a);
        assert(lines(b) =~= seq![Seq::<char>::empty()]);
        assert(lines(t) =~= lines(a) + lines(b));
    } else {
        let b2 = b.drop_last();
        lemma_lines_append(a, b2);
        lemma_lines_not_empty(b2);
        lemma_lines_not_empty(a);
        assert(t.drop_last() =~= a + seq!['\n'] + b2);
        assert(t.last() == b.last());
        assert(lines(t) =~= lines(a) + lines(b));
    }
}

/// Splitting into lines cuts exactly at the line breaks: text without a
/// `'\n'` is one line, and the lines of `a`, a `'\n'` and `b` are the
/// lines of `a` followed by those of `b`.
pub proof fn lemma_lines_at_breaks(a: Seq<char>, b: Seq<char>)
    ensures
        !a.contains('\n') ==> lines(a) == seq![a],
        lines(a + seq!['\n'] + b) == lines(a) + lines(b),
{
    if !a.contains('\n') {
        lemma_lines_single(a);
    }
    lemma_lines_append(a, b);
}

/// Whether `s` begins with `p`.
pub open spec fn starts_with(s: Seq<char>, p: Seq<char>) -> bool {
    p.len() <= s.len() && s.subrange(0, p.len() as int) == p
}

/// Whether `p` occurs in `s` as a run of consecutive characters.
pub open spec fn contains(s: Seq<char>, p: Seq<char>) -> bool {
    exists|i: int| 0 <= i && i + p.len() <= s.len() && #[trigger] s.subrange(i, i + p.len()) == p
}

/// Whether the characters of `s` from `start` on begin with `p`.
fn matches_at(s: &Vec<char>, p: &Vec<char>, start: usize) -> (b: bool)
    requires
        start + p@.len() <= s@.len(),
    ensures
        b == (s@.subrange(start as int, start + p@.len()) == p@),
{
    let mut j: usize = 0;
    let ghost slen = s.len();
    while j < p.len()
        invariant
            j <= p@.len(),
            slen == s@.len(),
            slen <= usize::MAX,
            start + p@.len() <= s@.len(),
            forall|k: int| 0 <= k < j ==> s@[start + k] == p@[k],
        decreases p@.len() - j,
    {
        if s[start + j] != p[j] {
            assert(s@.subrange(start as int, start + p@.len())[j as int] != p@[j as int]);
            return false;
        }
        j = j + 1;
    }
    assert(s@.subrange(start as int, start + p@.len()) =~= p@);
    true
}

/// Whether `s` begins with `p`.
pub fn chars_start_with(s: &Vec<char>, p: &Vec<char>) -> (b: bool)
    ensures
        b == starts_with(s@, p@),
{
    if p.len() > s.len() {
        false
    } else {
        matches_at(s, p, 0)
    }
}

/// Whether `s` and `p` hold the same characters.
pub fn chars_eq(s: &Vec<char>, p: &Vec<char>) -> (b: bool)
    ensures
        b == (s@ == p@),
{
    if p.len() != s.len() {
        false
    } else {
        let b = matches_at(s, p, 0);
        assert(s@.subrange(0, p@.len() as int) =~= s@);
        b
    }
}

/// Whether `p` occurs in `s`.
pub fn chars_contain(s: &Vec<char>, p: &Vec<char>) -> (b: bool)
    ensures
        b == contains(s@, p@),
{
    if p.len() > s.len() {
        return false;
    }
    let last = s.len() - p.len();
    let mut i: usize = 0;
    while i < last
        invariant
            i <= last,
            last + p@.len() == s@.len(),
            forall|k: int| 0 <= k < i ==> #[trigger] s@.subrange(k, k + p@.len()) != p@,
        decreases last - i,
    {
        if matches_at(s, p, i) {
            return true;
        }
        i = i + 1;
    }
    matches_at(s, p, last)
}

/// The characters `s` with the first `n` left out.
pub fn chars_skip(s: &Vec<char>, n: usize) -> (r: Vec<char>)
    requires
        n <= s@.len(),
    ensures
        r@ == s@.skip(n as int),
{
    let mut r: Vec<char> = Vec::new();
    let mut i: usize = n;
    while i < s.len()
        invariant
            n <= i <= s@.len(),
            r@ == s@.subrange(n as int, i as int),
        decreases s@.len() - i,
    {
        r.push(s[i]);
        assert(s@.subrange(n as int, i + 1) =~= s@.subrange(n as int, i as int).push(s@[i as int]));
        i = i + 1;
    }
    assert(r@ =~= s@.skip(n as int));
    r
}

/// Lexicographic order on character sequences by code point, from position
/// `i` on: the first difference decides, and a proper prefix comes first.
pub open spec fn lex_lt_from(a: Seq<char>, b: Seq<char>, i: int) -> bool
    decreases a.len() - i,
{
    if i < 0 || i >= a.len() {
        0 <= i < b.len()
    } else if i >= b.len() {
        false
    } else if a[i] != b[i] {
        (a[i] as u32) < (b[i] as u32)
    } else {
        lex_lt_from(a, b, i + 1)
    }
}

/// `a` sorts strictly before `b` (the order of `str`'s `Ord`).
pub open spec fn lex_lt(a: Seq<char>, b: Seq<char>) -> bool {
    lex_lt_from(a, b, 0)
}

/// Nothing sorts before itself.
pub proof fn lemma_lex_lt_irreflexive(a: Seq<char>)
    ensures
        !lex_lt(a, a),
{
    lemma_lex_lt_from_irreflexive(a, 0);
}

proof fn lemma_lex_lt_from_irreflexive(a: Seq<char>, i: int)
    requires
        0 <= i,
    ensures
        !lex_lt_from(a, a, i),
    decreases a.len() - i,
{
    if i < a.len() {
        lemma_lex_lt_from_irreflexive(a, i + 1);
    }
}

/// The order is transitive.
pub proof fn lemma_lex_lt_transitive(a: Seq<char>, b: Seq<char>, c: Seq<char>)
    requires
        lex_lt(a, b),
        lex_lt(b, c),
    ensures
        lex_lt(a, c),
{
    lemma_lex_lt_from_transitive(a, b, c, 0);
}

proof fn lemma_lex_lt_from_transitive(a: Seq<char>, b: Seq<char>, c: Seq<char>, i: int)
    requires
        0 <= i,
        lex_lt_from(a, b, i),
        lex_lt_from(b, c, i),
    ensures
        lex_lt_from(a, c, i),
    decreases a.len() - i,
{
    if i < a.len() && i < b.len() && i < c.len() && a[i] == b[i] && b[i] == c[i] {
        lemma_lex_lt_from_transitive(a, b, c, i + 1);
    }
}

/// `a` sorts before `b` exactly when, at some position `j` up to which the two
/// agree, either `a` ends while `b` goes on, or both go on and `a`'s
/// character there has the smaller code point: the order of the first
/// difference, with a proper prefix first.
pub proof fn lemma_lex_lt_first_difference(a: Seq<char>, b: Seq<char>)
    ensures
        lex_lt(a, b) <==> exists|j: int|
            0 <= j <= a.len() && j <= b.len() && #[trigger] a.take(j) == b.take(j) && ((j == a.len()
                && j < b.len()) || (j < a.len() && j < b.len() && (a[j] as u32) < (b[j] as u32))),
{
    assert(a.take(0) =~= b.take(0));
    lemma_lex_lt_from_first_difference(a, b, 0);
}

proof fn lemma_lex_lt_from_first_difference(a: Seq<char>, b: Seq<char>, i: int)
    requires
        0 <= i <= a.len(),
        i <= b.len(),
        a.take(i) == b.take(i),
    ensures
        lex_lt_from(a, b, i) <==> exists|j: int|
            0 <= j <= a.len() && j <= b.len() && #[trigger] a.take(j) == b.take(j) && ((j == a.len()
                && j < b.len()) || (j < a.len() && j < b.len() && (a[j] as u32) < (b[j] as u32))),
    decreases a.len() - i,
{
    assert forall|k: int| 0 <= k < i implies a[k] == b[k] by {
        assert(a.take(i)[k] == a[k]);
        assert(b.take(i)[k] == b[k]);
    }
    if i == a.len() && i == b.len() {
        assert(a =~= b);
        if exists|j: int|
            0 <= j <= a.len() && j <= b.len() && #[trigger] a.take(j) == b.take(j) && ((j == a.len()
                && j < b.len()) || (j < a.len() && j < b.len() && (a[j] as u32) < (b[j] as u32))) {
            let j = choose|j: int|
                0 <= j <= a.len() && j <= b.len() && #[trigger] a.take(j) == b.take(j) && ((j == a.len()
                    && j < b.len()) || (j < a.len() && j < b.len() && (a[j] as u32) < (b[j] as u32)));
            assert(a[j] == b[j]);
        }
    } else if i == a.len() {
        assert(lex_lt_from(a, b, i));
    } else if i == b.len() {
        if exists|j: int|
            0 <= j <= a.len() && j <= b.len() && #[trigger] a.take(j) == b.take(j) && ((j == a.len()
                && j < b.len()) || (j < a.len() && j < b.len() && (a[j] as u32) < (b[j] as u32))) {
            let j = choose|j: int|
                0 <= j <= a.len() && j <= b.len() && #[trigger] a.take(j) == b.take(j) && ((j == a.len()
                    && j < b.len()) || (j < a.len() && j < b.len() && (a[j] as u32) < (b[j] as u32)));
            assert(a[j] == b[j]);
        }
    } else if a[i] != b[i] {
        if (a[i] as u32) < (b[i] as u32) {
            assert(lex_lt_from(a, b, i));
        } else if exists|j: int|
            0 <= j <= a.len() && j <= b.len() && #[trigger] a.take(j) == b.take(j) && ((j == a.len()
                && j < b.len()) || (j < a.len() && j < b.len() && (a[j] as u32) < (b[j] as u32))) {
            let j = choose|j: int|
                0 <= j <= a.len() && j <= b.len() && #[trigger] a.take(j) == b.take(j) && ((j == a.len()
                    && j < b.len()) || (j < a.len() && j < b.len() && (a[j] as u32) < (b[j] as u32)));
            if j < i {
                assert(a[j] == b[j]);
            } else if j > i {
                assert(a.take(j)[i] == a[i]);
                assert(b.take(j)[i] == b[i]);
            }
        }
    } else {
        assert(a.take(i + 1) =~= b.take(i + 1));
        lemma_lex_lt_from_first_difference(a, b, i + 1);
    }
}

/// A common prefix does not change the order: `p + x` sorts before `p + y`
/// exactly when `x` sorts before `y`.
pub proof fn lemma_lex_lt_common_prefix(p: Seq<char>, x: Seq<char>, y: Seq<char>)
    ensures
        lex_lt(p + x, p + y) == lex_lt(x, y),
{
    lemma_lex_lt_from_prefix(p, x, y, 0);
    lemma_lex_lt_from_shift(p, x, y, 0);
}

proof fn lemma_lex_lt_from_prefix(p: Seq<char>, x: Seq<char>, y: Seq<char>, i: int)
    requires
        0 <= i <= p.len(),
    ensures
        lex_lt_from(p + x, p + y, i) == lex_lt_from(p + x, p + y, p.len() as int),
    decreases p.len() - i,
{
    if i < p.len() {
        assert((p + x)[i] == p[i]);
        assert((p + y)[i] == p[i]);
        lemma_lex_lt_from_prefix(p, x, y, i + 1);
    }
}

proof fn lemma_lex_lt_from_shift(p: Seq<char>, x: Seq<char>, y: Seq<char>, k: int)
    requires
        0 <= k,
    ensures
        lex_lt_from(p + x, p + y, p.len() + k) == lex_lt_from(x, y, k),
    decreases x.len() - k,
{
    let i = p.len() + k;
    if k < x.len() {
        assert((p + x)[i] == x[k]);
    }
    if k < y.len() {
        assert((p + y)[i] == y[k]);
    }
    if k < x.len() && k < y.len() && x[k] == y[k] {
        lemma_lex_lt_from_shift(p, x, y, k + 1);
    }
}

/// Of two different sequences, one sorts before the other.
pub proof fn lemma_lex_lt_total(a: Seq<char>, b: Seq<char>)
    requires
        a != b,
    ensures
        lex_lt(a, b) || lex_lt(b, a),
{
    assert(a.take(0) =~= b.take(0));
    lemma_lex_lt_from_total(a, b, 0);
}

proof fn lemma_lex_lt_from_total(a: Seq<char>, b: Seq<char>, i: int)
    requires
        0 <= i <= a.len(),
        i <= b.len(),
        a.take(i) == b.take(i),
        a != b,
    ensures
        lex_lt_from(a, b, i) || lex_lt_from(b, a, i),
    decreases a.len() - i,
{
    if i == a.len() && i == b.len() {
        assert forall|k: int| 0 <= k < i implies a[k] == b[k] by {
            assert(a.take(i)[k] == a[k]);
            assert(b.take(i)[k] == b[k]);
        }
        assert(a =~= b);
    } else if i < a.len() && i < b.len() && a[i] == b[i] {
        assert(a.take(i + 1) =~= b.take(i + 1));
        lemma_lex_lt_from_total(a, b, i + 1);
    } else if i < a.len() && i < b.len() {
        vstd::utf8::char_u32_cast(a[i], a[i] as u32);
        vstd::utf8::char_u32_cast(b[i], b[i] as u32);
    }
}

/// Whether `a` sorts strictly before `b`.
pub fn chars_lt(a: &Vec<char>, b: &Vec<char>) -> (r: bool)
    ensures
        r == lex_lt(a@, b@),
{
    let mut i: usize = 0;
    while i < a.len() && i < b.len() && a[i] == b[i]
        invariant
            i <= a@.len(),
            i <= b@.len(),
            lex_lt(a@, b@) == lex_lt_from(a@, b@, i as int),
        decreases a@.len() - i,
    {
        i = i + 1;
    }
    if i >= a.len() {
        i < b.len()
    } else if i >= b.len() {
        false
    } else {
        (a[i] as u32) < (b[i] as u32)
    }
}

} // verus!
