//! Colours: CSS hex colour texts to RGBA, and RGBA pixels to the byte
//! order of Wayland ARGB8888 buffers.

use vstd::prelude::*;
use vstd::utf8::{encode_scalar, encode_utf8, is_ascii_chars, is_ascii_chars_encode_utf8};

verus! {

/// The value of an ASCII hexadecimal digit, or `None` for any other byte.
pub open spec fn hex_digit_value(b: u8) -> Option<u8> {
    if 0x30 <= b && b <= 0x39 {
        Some((b - 0x30) as u8)
    } else if 0x61 <= b && b <= 0x66 {
        Some((b - 0x61 + 10) as u8)
    } else if 0x41 <= b && b <= 0x46 {
        Some((b - 0x41 + 10) as u8)
    } else {
        None
    }
}

/// What `u8::from_str_radix` in base 16 yields for a two-byte field, with a
/// field that does not parse counted as 0: either two hex digits, or a `+`
/// sign followed by one hex digit.
pub open spec fn hex_field(b0: u8, b1: u8) -> u8 {
    if b0 == 0x2b {
        match hex_digit_value(b1) {
            Some(d) => d,
            None => 0,
        }
    } else {
        match (hex_digit_value(b0), hex_digit_value(b1)) {
            (Some(hi), Some(lo)) => (hi * 16 + lo) as u8,
            _ => 0,
        }
    }
}

/// The bytes left after removing every leading `#`.
pub open spec fn skip_hashes(b: Seq<u8>) -> Seq<u8>
    decreases b.len(),
{
    if b.len() > 0 && b[0] == 0x23 {
        skip_hashes(b.drop_first())
    } else {
        b
    }
}

/// Whether byte offset `i` of the UTF-8 text `b` starts a character (or is its end).
pub open spec fn is_boundary(b: Seq<u8>, i: int) -> bool {
    i == 0 || i == b.len() || (0 < i < b.len() && !(0x80 <= b[i] && b[i] <= 0xbf))
}

/// The colour text (without its leading `#`s) has whole characters in each
/// of the byte ranges 0..2, 2..4, 4..6 and, when it is that long, 6..8.
pub open spec fn hex_fields_sliceable(h: Seq<u8>) -> bool {
    &&& h.len() >= 6
    &&& is_boundary(h, 2)
    &&& is_boundary(h, 4)
    &&& is_boundary(h, 6)
    &&& h.len() >= 8 ==> is_boundary(h, 8)
}

/// The colour that a hex colour text denotes: red, green and blue from the
/// first three byte pairs, alpha from the fourth pair if there is one, else opaque.
pub open spec fn rgba_from_hex(h: Seq<u8>) -> (u8, u8, u8, u8) {
    (
        hex_field(h[0], h[1]),
        hex_field(h[2], h[3]),
        hex_field(h[4], h[5]),
        if h.len() >= 8 {
            hex_field(h[6], h[7])
        } else {
            255
        },
    )
}

/// Whether the colour text `text` can be parsed: its UTF-8 bytes, after
/// the leading `#`s, can be cut into the byte pairs (see `hex_fields_sliceable`).
pub open spec fn hex_color_ok(text: Seq<char>) -> bool {
    hex_fields_sliceable(skip_hashes(encode_utf8(text)))
}

/// The colour that the text `text` denotes (see `rgba_from_hex`).
pub open spec fn color_of(text: Seq<char>) -> (u8, u8, u8, u8) {
    rgba_from_hex(skip_hashes(encode_utf8(text)))
}

proof fn lemma_skip_hashes_step(b: Seq<u8>, i: int)
    requires
        0 <= i < b.len(),
        b[i] == 0x23,
    ensures
        skip_hashes(b.subrange(i, b.len() as int)) == skip_hashes(b.subrange(i + 1, b.len() as int)),
{
    assert(b.subrange(i, b.len() as int).drop_first() =~= b.subrange(i + 1, b.len() as int));
}

fn hex_digit(b: u8) -> (r: Option<u8>)
    ensures
        r == hex_digit_value(b),
{
    if 0x30 <= b && b <= 0x39 {
        Some(b - 0x30)
    } else if 0x61 <= b && b <= 0x66 {
        Some(b - 0x61 + 10)
    } else if 0x41 <= b && b <= 0x46 {
        Some(b - 0x41 + 10)
    } else {
        None
    }
}

fn parse_field(b0: u8, b1: u8) -> (r: u8)
    ensures
        r == hex_field(b0, b1),
{
    if b0 == 0x2b {
        match hex_digit(b1) {
            Some(d) => d,
            None => 0,
        }
    } else {
        match (hex_digit(b0), hex_digit(b1)) {
            (Some(hi), Some(lo)) => hi * 16 + lo,
            _ => 0,
        }
    }
}

/// Index of the first byte of `b` that is not `#`.
fn hashes_end(b: &[u8]) -> (k: usize)
    ensures
        k <= b@.len(),
        skip_hashes(b@) == b@.subrange(k as int, b@.len() as int),
{
    let mut k: usize = 0;
    assert(b@.subrange(0, b@.len() as int) =~= b@);
    while k < b.len() && b[k] == 0x23
        invariant
            k <= b@.len(),
            skip_hashes(b@) == skip_hashes(b@.subrange(k as int, b@.len() as int)),
        decreases b@.len() - k,
    {
        proof {
            lemma_skip_hashes_step(b@, k as int);
        }
        k = k + 1;
    }
    k
}

/// Whether `hex_to_rgba` can slice the colour text `hex`: after its leading
/// `#`s it holds at least six bytes, cut at character boundaries.
pub fn hex_is_sliceable(hex: &str) -> (ok: bool)
    ensures
        ok == hex_color_ok(hex@),
{
    let b = hex.as_bytes();
    let k = hashes_end(b);
    let n = b.len() - k;
    let boundary = |i: usize| -> (r: bool)
        requires
            i <= n,
        ensures
            r == is_boundary(b@.subrange(k as int, b@.len() as int), i as int),
        { i == 0 || i == n || !(0x80 <= b[k + i] && b[k + i] <= 0xbf) };
    n >= 6 && boundary(2) && boundary(4) && boundary(6) && (n < 8 || boundary(8))
}

/// Parses a CSS-style hex colour such as `"#1a1a1a"` or `"#5e9bffcc"` into
/// `(r, g, b, a)`. A field that is not hexadecimal reads as 0; without a
/// fourth field the colour is opaque.
pub fn hex_to_rgba(hex: &str) -> (c: (u8, u8, u8, u8))
    requires
        hex_color_ok(hex@),
    ensures
        c == color_of(hex@),
{
    let b = hex.as_bytes();
    let k = hashes_end(b);
    let n = b.len() - k;
    let a = if n >= 8 {
        parse_field(b[k + 6], b[k + 7])
    } else {
        255
    };
    (parse_field(b[k], b[k + 1]), parse_field(b[k + 2], b[k + 3]), parse_field(b[k + 4], b[k + 5]), a)
}


/// The lowercase ASCII hex digit for a nibble.
pub open spec fn hex_digit_char(n: u8) -> u8 {
    if n < 10 {
        (0x30 + n) as u8
    } else {
        (0x61 + n - 10) as u8
    }
}

/// The two lowercase hex digits of a byte.
pub open spec fn hex_pair(v: u8) -> Seq<u8> {
    seq![hex_digit_char(v / 16), hex_digit_char(v % 16)]
}

/// The bytes of the CSS colour text `#rrggbb`.
pub open spec fn css_rgb(r: u8, g: u8, b: u8) -> Seq<u8> {
    seq![0x23u8] + hex_pair(r) + hex_pair(g) + hex_pair(b)
}

/// The bytes of the CSS colour text `#rrggbbaa`.
pub open spec fn css_rgba(r: u8, g: u8, b: u8, a: u8) -> Seq<u8> {
    css_rgb(r, g, b) + hex_pair(a)
}

proof fn lemma_hex_pair_field(v: u8)
    ensures
        hex_field(hex_pair(v)[0], hex_pair(v)[1]) == v,
        !(0x80 <= hex_pair(v)[0] && hex_pair(v)[0] <= 0xbf),
        !(0x80 <= hex_pair(v)[1] && hex_pair(v)[1] <= 0xbf),
        hex_pair(v)[0] != 0x23,
{
}

/// The hex digits are `0`-`9`, `a`-`f` and `A`-`F` and nothing else; each
/// lowercase digit `hex_digit_char(n)` has the value `n`, and an uppercase
/// digit has the value of its lowercase form.
pub proof fn lemma_hex_digit_values(b: u8, n: u8)
    ensures
        hex_digit_value(b) is Some <==> (0x30 <= b <= 0x39 || 0x61 <= b <= 0x66 || 0x41 <= b <= 0x46),
        0x41 <= b <= 0x46 ==> hex_digit_value(b) == hex_digit_value((b + 0x20) as u8),
        n < 16 ==> hex_digit_value(hex_digit_char(n)) == Some(n),
{
}

/// The text of ASCII bytes.
pub open spec fn ascii_text(b: Seq<u8>) -> Seq<char> {
    b.map_values(|x: u8| x as char)
}

proof fn lemma_ascii_text_bytes(b: Seq<u8>)
    requires
        forall|i: int| 0 <= i < b.len() ==> #[trigger] b[i] < 128,
    ensures
        encode_utf8(ascii_text(b)) == b,
{
    let t = ascii_text(b);
    assert(is_ascii_chars(t)) by {
        assert forall|i: int| 0 <= i < t.len() implies '\0' <= #[trigger] t[i] <= '\u{7f}' by {
            assert(b[i] < 128);
        }
    }
    is_ascii_chars_encode_utf8(t);
    assert forall|i: int| 0 <= i < b.len() implies #[trigger] encode_utf8(t)[i] == b[i] by {
        assert(t[i] as u8 == encode_utf8(t)[i]);
        assert(t[i] == b[i] as char);
    }
    assert(encode_utf8(t) =~= b);
}

/// A colour written as `#rrggbb` in lowercase hex reads back as itself, opaque.
pub proof fn lemma_hex_round_trip_rgb(r: u8, g: u8, b: u8)
    ensures
        hex_color_ok(ascii_text(css_rgb(r, g, b))),
        color_of(ascii_text(css_rgb(r, g, b))) == (r, g, b, 255u8),
{
    let t = css_rgb(r, g, b);
    let h = hex_pair(r) + hex_pair(g) + hex_pair(b);
    lemma_hex_pair_field(r);
    lemma_hex_pair_field(g);
    lemma_hex_pair_field(b);
    assert(t.drop_first() =~= h);
    assert(skip_hashes(h) == h);
    assert(skip_hashes(t) == h);
    lemma_ascii_text_bytes(t);
}

/// A colour written as `#rrggbbaa` in lowercase hex reads back as itself.
pub proof fn lemma_hex_round_trip_rgba(r: u8, g: u8, b: u8, a: u8)
    ensures
        hex_color_ok(ascii_text(css_rgba(r, g, b, a))),
        color_of(ascii_text(css_rgba(r, g, b, a))) == (r, g, b, a),
{
    let t = css_rgba(r, g, b, a);
    let h = hex_pair(r) + hex_pair(g) + hex_pair(b) + hex_pair(a);
    lemma_hex_pair_field(r);
    lemma_hex_pair_field(g);
    lemma_hex_pair_field(b);
    lemma_hex_pair_field(a);
    assert(t.drop_first() =~= h);
    assert(skip_hashes(h) == h);
    assert(skip_hashes(t) == h);
    lemma_ascii_text_bytes(t);
}

/// Leading `#`s make no difference to the colour a text denotes.
pub proof fn lemma_extra_hash_ignored(t: Seq<char>)
    ensures
        hex_color_ok(seq!['#'] + t) == hex_color_ok(t),
        color_of(seq!['#'] + t) == color_of(t),
{
    let u = seq!['#'] + t;
    assert(u.drop_first() =~= t);
    assert(0x23u32 & 0x7f == 0x23) by (bit_vector);
    assert('#' as u32 == 0x23);
    assert(encode_scalar('#' as u32) =~= seq![0x23u8]);
    let e = encode_utf8(u);
    assert(e == seq![0x23u8] + encode_utf8(t));
    assert(e.drop_first() =~= encode_utf8(t));
}

/// Which source byte of an RGBA pixel lands at offset `c` of a BGRA
/// (Wayland ARGB8888, little-endian) pixel: red and blue trade places.
pub open spec fn swapped_channel(c: int) -> int {
    if c == 0 {
        2
    } else if c == 2 {
        0
    } else {
        c
    }
}

/// The number of whole 4-byte pixels that a conversion from `src` into `dst` copies.
pub open spec fn pixel_count(dst_len: int, src_len: int) -> int {
    if dst_len / 4 <= src_len / 4 {
        dst_len / 4
    } else {
        src_len / 4
    }
}

/// `dst` after the pixels of the RGBA buffer `src` are written into it in
/// BGRA byte order; bytes beyond the shorter buffer's whole pixels are kept.
pub open spec fn rgba_to_argb_spec(dst: Seq<u8>, src: Seq<u8>) -> Seq<u8> {
    Seq::new(
        dst.len(),
        |k: int|
            if k < 4 * pixel_count(dst.len() as int, src.len() as int) {
                src[k - k % 4 + swapped_channel(k % 4)]
            } else {
                dst[k]
            },
    )
}

/// Copies the RGBA pixels of `src` into `dst` as Wayland ARGB8888, that is
/// with bytes in B, G, R, A order, pixel by pixel over the whole pixels that
/// both buffers hold.
pub fn rgba_to_argb8888(dst: &mut [u8], src: &[u8])
    ensures
        final(dst)@ == rgba_to_argb_spec(old(dst)@, src@),
{
    let n = if dst.len() / 4 <= src.len() / 4 {
        dst.len() / 4
    } else {
        src.len() / 4
    };
    let ghost d0 = dst@;
    let mut i: usize = 0;
    while i < n
        invariant
            n == pixel_count(d0.len() as int, src@.len() as int),
            i <= n,
            n <= dst@.len() / 4,
            n <= src@.len() / 4,
            dst@.len() <= usize::MAX,
            dst@.len() == d0.len(),
            forall|k: int|
                0 <= k < dst@.len() ==> #[trigger] dst@[k] == if k < 4 * i {
                    src@[k - k % 4 + swapped_channel(k % 4)]
                } else {
                    d0[k]
                },
        decreases n - i,
    {
        let b = 4 * i;
        let s0 = src[b];
        let s1 = src[b + 1];
        let s2 = src[b + 2];
        let s3 = src[b + 3];
        dst[b] = s2;
        dst[b + 1] = s1;
        dst[b + 2] = s0;
        dst[b + 3] = s3;
        i = i + 1;
    }
    assert(dst@ =~= rgba_to_argb_spec(d0, src@));
}

/// Each whole pixel that both buffers hold comes out as the blue, green,
/// red and alpha bytes of the source pixel, in that order; every byte from
/// the first pixel that one of the buffers does not hold whole on is kept.
pub proof fn lemma_argb_pixel(dst: Seq<u8>, src: Seq<u8>, p: int)
    requires
        0 <= p,
    ensures
        rgba_to_argb_spec(dst, src).len() == dst.len(),
        4 * p + 4 <= dst.len() && 4 * p + 4 <= src.len() ==> {
            let out = rgba_to_argb_spec(dst, src);
            &&& out[4 * p] == src[4 * p + 2]
            &&& out[4 * p + 1] == src[4 * p + 1]
            &&& out[4 * p + 2] == src[4 * p]
            &&& out[4 * p + 3] == src[4 * p + 3]
        },
        forall|k: int|
            0 <= k < dst.len() && (k / 4 >= dst.len() / 4 || k / 4 >= src.len() / 4) ==> #[trigger] rgba_to_argb_spec(
                dst,
                src,
            )[k] == dst[k],
{
    let out = rgba_to_argb_spec(dst, src);
    if 4 * p + 4 <= dst.len() && 4 * p + 4 <= src.len() {
        assert(p < dst.len() / 4);
        assert(p < src.len() / 4);
        assert((4 * p) % 4 == 0);
        assert((4 * p + 1) % 4 == 1);
        assert((4 * p + 2) % 4 == 2);
        assert((4 * p + 3) % 4 == 3);
    }
}

/// Converting a buffer of whole pixels twice, each time into a buffer of the
/// same size, gives back the bytes it started from: the channel swap is its own inverse.
pub proof fn lemma_argb_swap_involution(a: Seq<u8>, d1: Seq<u8>, d2: Seq<u8>)
    requires
        a.len() % 4 == 0,
        d1.len() == a.len(),
        d2.len() == a.len(),
    ensures
        rgba_to_argb_spec(d2, rgba_to_argb_spec(d1, a)) == a,
{
    let once = rgba_to_argb_spec(d1, a);
    let twice = rgba_to_argb_spec(d2, once);
    assert forall|k: int| 0 <= k < a.len() implies #[trigger] twice[k] == a[k] by {
        let j = k - k % 4 + swapped_channel(k % 4);
        assert(j % 4 == swapped_channel(k % 4));
        assert(j - j % 4 == k - k % 4);
    }
    assert(twice =~= a);
}

} // verus!
