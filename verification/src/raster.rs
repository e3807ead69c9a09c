//! Compositing rasterized glyphs onto an RGBA canvas.

use vstd::prelude::*;
use vstd::arithmetic::div_mod::lemma_fundamental_div_mod_converse;
use vstd::arithmetic::div_mod::lemma_fundamental_div_mod;

verus! {

/// One channel of a glyph colour composited over a background byte with the
/// glyph's coverage used as alpha: `(fg * cov + bg * (255 - cov)) / 255`.
pub open spec fn blend_channel(fg: u8, cov: u8, bg: u8) -> u8 {
    ((fg as int * cov as int + bg as int * (255 - cov as int)) / 255) as u8
}

/// Full coverage paints the glyph colour, no coverage keeps the background,
/// and any coverage gives a value between the two.
pub proof fn lemma_blend_channel_range(fg: u8, cov: u8, bg: u8)
    ensures
        blend_channel(fg, 255, bg) == fg,
        blend_channel(fg, 0, bg) == bg,
        fg <= bg ==> fg <= blend_channel(fg, cov, bg) <= bg,
        bg <= fg ==> bg <= blend_channel(fg, cov, bg) <= fg,
{
    let n = fg as int * cov as int + bg as int * (255 - cov as int);
    assert((bg as int * 255) / 255 == bg) by (nonlinear_arith);
    assert((fg as int * 255) / 255 == fg) by (nonlinear_arith);
    assert(fg as int * 0 + bg as int * (255 - 0) == bg as int * 255);
    assert(fg as int * 255 + bg as int * (255 - 255) == fg as int * 255);
    assert(fg <= bg ==> 255 * fg <= n <= 255 * bg) by (nonlinear_arith)
        requires
            n == fg as int * cov as int + bg as int * (255 - cov as int),
            0 <= cov <= 255,
    ;
    assert(bg <= fg ==> 255 * bg <= n <= 255 * fg) by (nonlinear_arith)
        requires
            n == fg as int * cov as int + bg as int * (255 - cov as int),
            0 <= cov <= 255,
    ;
    assert(0 <= n <= 255 * 255) by (nonlinear_arith)
        requires
            n == fg as int * cov as int + bg as int * (255 - cov as int),
            0 <= cov <= 255,
            0 <= fg <= 255,
            0 <= bg <= 255,
    ;
}

/// A blended channel is the coverage-weighted mean of the glyph colour and
/// the background, rounded down: `255` times the result is at most
/// `fg * cov + bg * (255 - cov)` and falls short of it by less than `255`.
pub proof fn lemma_blend_channel_weighted_mean(fg: u8, cov: u8, bg: u8)
    ensures
        0 <= fg as int * cov as int + bg as int * (255 - cov as int) - 255 * (blend_channel(fg, cov, bg) as int),
        fg as int * cov as int + bg as int * (255 - cov as int) - 255 * (blend_channel(fg, cov, bg) as int) < 255,
{
    let n = fg as int * cov as int + bg as int * (255 - cov as int);
    assert(0 <= n <= 255 * 255) by (nonlinear_arith)
        requires
            n == fg as int * cov as int + bg as int * (255 - cov as int),
            0 <= cov <= 255,
            0 <= fg <= 255,
            0 <= bg <= 255,
    ;
    lemma_fundamental_div_mod(n, 255);
    assert(0 <= n % 255 < 255);
    assert(0 <= n / 255 <= 255);
}

/// What compositing does to one pixel: take the pixel under cell
/// `(row, col)` of the bitmap, lying on the canvas, and its byte for
/// channel `c` (red, green, blue, alpha). Where the cell's coverage is zero
/// the byte is kept; otherwise the alpha byte becomes 255, and a colour
/// byte becomes the coverage-weighted mean of the glyph's colour and the
/// old byte, rounded down.
pub proof fn lemma_blend_spec_pixel(
    d: Seq<u8>,
    width: u32,
    height: u32,
    bitmap: Seq<u8>,
    gw: int,
    gh: int,
    x: int,
    y: int,
    r: u8,
    g: u8,
    b: u8,
    row: int,
    col: int,
    c: int,
)
    requires
        0 <= row < gh,
        0 <= col < gw,
        0 <= x + col < (width as i32) as int,
        0 <= y + row < (height as i32) as int,
        0 <= c < 4,
        ((y + row) * (width as i32) as int + (x + col)) * 4 + c < d.len(),
    ensures
        ({
            let k = ((y + row) * (width as i32) as int + (x + col)) * 4 + c;
            let cov = bitmap[row * gw + col];
            let fg = if c == 0 {
                r
            } else if c == 1 {
                g
            } else {
                b
            };
            let out = blend_spec(d, width, height, bitmap, gw, gh, x, y, r, g, b);
            &&& out.len() == d.len()
            &&& cov == 0 ==> out[k] == d[k]
            &&& cov != 0 && c == 3 ==> out[k] == 255
            &&& cov != 0 && c < 3 ==> 0 <= fg as int * cov as int + d[k] as int * (255 - cov as int)
                - 255 * (out[k] as int) < 255
        }),
{
    let wi = (width as i32) as int;
    let p = (y + row) * wi + (x + col);
    let k = p * 4 + c;
    assert(0 <= (y + row) * wi) by (nonlinear_arith)
        requires
            0 <= y + row,
            0 < wi,
    ;
    lemma_pixel_cell_exact(width, height, gw, gh, x, y, row, col, k);
    lemma_cell_index_bound(row, col, gw, gh);
    lemma_fundamental_div_mod_converse(k, 4, p, c);
    let cov = bitmap[row * gw + col];
    let fg = if c == 0 {
        r
    } else if c == 1 {
        g
    } else {
        b
    };
    lemma_blend_channel_weighted_mean(fg, cov, d[k]);
}

/// The glyph cell (row-major index into the coverage bitmap) that is drawn
/// at byte `k` of an RGBA canvas `width` pixels wide and `height` high, when
/// the `gw` x `gh` bitmap is placed with its top-left corner at `(x, y)`;
/// -1 when no cell lands on that byte's pixel. Canvas sizes are read as
/// `i32`, as the drawing code compares in `i32`.
pub open spec fn pixel_cell(width: u32, height: u32, gw: int, gh: int, x: int, y: int, k: int) -> int {
    let wi = (width as i32) as int;
    let hi = (height as i32) as int;
    if wi <= 0 || hi <= 0 || k < 0 {
        -1
    } else {
        let p = k / 4;
        let px = p % wi;
        let py = p / wi;
        let row = py - y;
        let col = px - x;
        if py < hi && 0 <= row < gh && 0 <= col < gw {
            row * gw + col
        } else {
            -1
        }
    }
}

/// The canvas `d` after compositing the first `n` cells (in row-major order)
/// of the coverage bitmap in colour `(r, g, b)`: every pixel under a cell of
/// non-zero coverage gets its red, green and blue blended and its alpha set
/// to 255; every other byte is kept.
pub open spec fn blend_cells(
    d: Seq<u8>,
    width: u32,
    height: u32,
    bitmap: Seq<u8>,
    gw: int,
    gh: int,
    x: int,
    y: int,
    r: u8,
    g: u8,
    b: u8,
    n: int,
) -> Seq<u8> {
    Seq::new(
        d.len(),
        |k: int|
            {
                let j = pixel_cell(width, height, gw, gh, x, y, k);
                if 0 <= j < n && bitmap[j] != 0 {
                    let c = k % 4;
                    if c == 3 {
                        255u8
                    } else {
                        blend_channel(
                            if c == 0 {
                                r
                            } else if c == 1 {
                                g
                            } else {
                                b
                            },
                            bitmap[j],
                            d[k],
                        )
                    }
                } else {
                    d[k]
                }
            },
    )
}

/// The whole glyph composited: `blend_cells` over all `gw * gh` cells.
pub open spec fn blend_spec(
    d: Seq<u8>,
    width: u32,
    height: u32,
    bitmap: Seq<u8>,
    gw: int,
    gh: int,
    x: int,
    y: int,
    r: u8,
    g: u8,
    b: u8,
) -> Seq<u8> {
    blend_cells(d, width, height, bitmap, gw, gh, x, y, r, g, b, gw * gh)
}

/// The pixel coordinates of cell `(row, col)` fit in `i32`, and if the
/// pixel lies on the canvas its byte offset fits in `i32` and in the buffer.
pub open spec fn cell_fits(
    data_len: int,
    width: u32,
    height: u32,
    x: int,
    y: int,
    row: int,
    col: int,
) -> bool {
    let px = x + col;
    let py = y + row;
    let wi = (width as i32) as int;
    let hi = (height as i32) as int;
    &&& i32::MIN <= px <= i32::MAX
    &&& i32::MIN <= py <= i32::MAX
    &&& (0 <= px < wi && 0 <= py < hi) ==> {
        &&& (py * wi + px) * 4 <= i32::MAX
        &&& (py * wi + px) * 4 + 3 < data_len
    }
}

/// What compositing a glyph needs of its inputs: the bitmap holds all
/// `gw * gh` cells, the glyph's sides fit in `i32`, and every cell of
/// non-zero coverage fits (see `cell_fits`).
pub open spec fn stamp_fits(
    data_len: int,
    width: u32,
    height: u32,
    bitmap: Seq<u8>,
    gw: int,
    gh: int,
    x: int,
    y: int,
) -> bool {
    &&& gw * gh <= bitmap.len()
    &&& gw <= i32::MAX
    &&& gh <= i32::MAX
    &&& forall|row: int, col: int|
        0 <= row < gh && 0 <= col < gw && bitmap[row * gw + col] != 0 ==> #[trigger] cell_fits(
            data_len,
            width,
            height,
            x,
            y,
            row,
            col,
        )
}

proof fn lemma_cell_index_bound(row: int, col: int, gw: int, gh: int)
    requires
        0 <= row < gh,
        0 <= col < gw,
    ensures
        0 <= row * gw + col < gw * gh,
{
    assert(row * gw + col < gw * gh) by (nonlinear_arith)
        requires
            0 <= row < gh,
            0 <= col < gw,
    ;
    assert(0 <= row * gw) by (nonlinear_arith)
        requires
            0 <= row,
            0 <= gw,
    ;
}

proof fn lemma_cell_unique(row: int, col: int, row2: int, col2: int, gw: int)
    requires
        0 <= col < gw,
        0 <= col2 < gw,
        row * gw + col == row2 * gw + col2,
    ensures
        row == row2,
        col == col2,
{
    lemma_fundamental_div_mod_converse(row * gw + col, gw, row, col);
    lemma_fundamental_div_mod_converse(row2 * gw + col2, gw, row2, col2);
}

/// The bytes of the pixel under cell `(row, col)` are exactly those whose
/// `pixel_cell` is that cell's index.
proof fn lemma_pixel_cell_exact(
    width: u32,
    height: u32,
    gw: int,
    gh: int,
    x: int,
    y: int,
    row: int,
    col: int,
    k: int,
)
    requires
        0 <= row < gh,
        0 <= col < gw,
        0 <= x + col < (width as i32) as int,
        0 <= y + row < (height as i32) as int,
        k >= 0,
    ensures
        (pixel_cell(width, height, gw, gh, x, y, k) == row * gw + col) <==> (((y + row) * (
        width as i32) as int + (x + col)) * 4 <= k < ((y + row) * (width as i32) as int + (x
            + col)) * 4 + 4),
{
    let wi = (width as i32) as int;
    let p = (y + row) * wi + (x + col);
    lemma_fundamental_div_mod_converse(p, wi, y + row, x + col);
    if p * 4 <= k < p * 4 + 4 {
        lemma_fundamental_div_mod_converse(k, 4, p, k - p * 4);
    }
    if pixel_cell(width, height, gw, gh, x, y, k) == row * gw + col {
        let q = k / 4;
        let px = q % wi;
        let py = q / wi;
        lemma_cell_unique(py - y, px - x, row, col, gw);
        lemma_fundamental_div_mod(q, wi);
        lemma_fundamental_div_mod(k, 4);
        assert(q == py * wi + px) by (nonlinear_arith)
            requires
                q == wi * (q / wi) + q % wi,
                py == q / wi,
                px == q % wi,
        ;
    }
}

proof fn lemma_blend_bound(fg: u8, a: u32, bg: u8)
    requires
        a <= 255,
    ensures
        fg as u32 * a + bg as u32 * (255 - a) <= 255 * 255,
{
    assert(fg as u32 * a + bg as u32 * (255 - a) <= 255 * 255) by (nonlinear_arith)
        requires
            a <= 255,
            fg <= 255,
            bg <= 255,
    ;
}

/// Alpha-blends a glyph coverage bitmap of `gw` x `gh` cells in colour
/// `(r, g, b)` onto an RGBA canvas `width` x `height` with the glyph's
/// top-left corner at `(x, y)`. Cells of zero coverage and pixels off the
/// canvas are skipped; a covered pixel gets each colour channel blended
/// with the coverage as alpha and its alpha set to 255.
pub fn blend_glyph(
    data: &mut [u8],
    width: u32,
    height: u32,
    bitmap: &[u8],
    gw: usize,
    gh: usize,
    x: i32,
    y: i32,
    r: u8,
    g: u8,
    b: u8,
)
    requires
        stamp_fits(old(data)@.len() as int, width, height, bitmap@, gw as int, gh as int, x as int, y as int),
    ensures
        final(data)@ == blend_spec(old(data)@, width, height, bitmap@, gw as int, gh as int, x as int, y as int, r, g, b),
{
    let ghost d0 = data@;
    let ghost gwi = gw as int;
    let ghost ghi = gh as int;
    let ghost xi = x as int;
    let ghost yi = y as int;
    assert(data@ =~= blend_cells(d0, width, height, bitmap@, gwi, ghi, xi, yi, r, g, b, 0));
    let ghost blen = bitmap.len();
    let mut row: usize = 0;
    while row < gh
        invariant
            row <= gh,
            stamp_fits(d0.len() as int, width, height, bitmap@, gwi, ghi, xi, yi),
            blen == bitmap@.len(),
            blen <= usize::MAX,
            gwi == gw,
            ghi == gh,
            xi == x,
            yi == y,
            data@ == blend_cells(d0, width, height, bitmap@, gwi, ghi, xi, yi, r, g, b, row * gwi),
        decreases gh - row,
    {
        let mut col: usize = 0;
        while col < gw
            invariant
                row < gh,
                col <= gw,
                stamp_fits(d0.len() as int, width, height, bitmap@, gwi, ghi, xi, yi),
                blen == bitmap@.len(),
                blen <= usize::MAX,
                gwi == gw,
                ghi == gh,
                xi == x,
                yi == y,
                data@ == blend_cells(d0, width, height, bitmap@, gwi, ghi, xi, yi, r, g, b, row * gwi + col),
            decreases gw - col,
        {
            proof {
                lemma_cell_index_bound(row as int, col as int, gwi, ghi);
            }
            let j = row * gw + col;
            let ghost before = data@;
            let cov = bitmap[j];
            if cov != 0 {
                assert(cell_fits(d0.len() as int, width, height, xi, yi, row as int, col as int));
                let px = x + col as i32;
                let py = y + row as i32;
                if !(px < 0 || py < 0 || px >= width as i32 || py >= height as i32) {
                    let idx = ((py * width as i32 + px) * 4) as usize;
                    let a = cov as u32;
                    let ia = 255 - a;
                    proof {
                        assert(0 <= py * width as i32) by (nonlinear_arith)
                            requires
                                0 <= py,
                                0 < width as i32,
                        ;
                        assert forall|k: int| 0 <= k < d0.len() implies (pixel_cell(width, height, gwi, ghi, xi, yi, k) == j) <==> (idx <= k < idx + 4) by {
                            lemma_pixel_cell_exact(width, height, gwi, ghi, xi, yi, row as int, col as int, k);
                        }
                        assert(before[idx as int] == d0[idx as int]);
                        assert(before[idx + 1] == d0[idx + 1]);
                        assert(before[idx + 2] == d0[idx + 2]);
                        lemma_blend_bound(r, a, data@[idx as int]);
                        lemma_blend_bound(g, a, data@[idx + 1]);
                        lemma_blend_bound(b, a, data@[idx + 2]);
                    }
                    data[idx] = ((r as u32 * a + data[idx] as u32 * ia) / 255) as u8;
                    data[idx + 1] = ((g as u32 * a + data[idx + 1] as u32 * ia) / 255) as u8;
                    data[idx + 2] = ((b as u32 * a + data[idx + 2] as u32 * ia) / 255) as u8;
                    data[idx + 3] = 255;
                    proof {
                        let next = blend_cells(d0, width, height, bitmap@, gwi, ghi, xi, yi, r, g, b, j + 1);
                        assert forall|k: int| 0 <= k < data@.len() implies #[trigger] data@[k] == next[k] by {
                            lemma_pixel_cell_exact(width, height, gwi, ghi, xi, yi, row as int, col as int, k);
                            if idx <= k < idx + 4 {
                                lemma_fundamental_div_mod_converse(k, 4, (idx / 4) as int, k - idx);
                            }
                        }
                        assert(data@ =~= next);
                    }
                } else {
                    proof {
                        let next = blend_cells(d0, width, height, bitmap@, gwi, ghi, xi, yi, r, g, b, j + 1);
                        assert forall|k: int| 0 <= k < data@.len() implies #[trigger] data@[k] == next[k] by {
                            let pc = pixel_cell(width, height, gwi, ghi, xi, yi, k);
                            if pc == j {
                                let wi = (width as i32) as int;
                                let q = k / 4;
                                lemma_cell_unique(q / wi - yi, q % wi - xi, row as int, col as int, gwi);
                            }
                        }
                        assert(data@ =~= next);
                    }
                }
            } else {
                assert(data@ =~= blend_cells(d0, width, height, bitmap@, gwi, ghi, xi, yi, r, g, b, j + 1));
            }
            col = col + 1;
        }
        proof {
            assert((row + 1) * gwi == row * gwi + gwi) by (nonlinear_arith);
        }
        row = row + 1;
    }
    assert(row * gwi == gwi * ghi) by (nonlinear_arith)
        requires
            row == ghi,
    ;
}


/// Whether a glyph can be composited (see `stamp_fits`): the check to make
/// before `blend_glyph`.
pub fn glyph_fits_canvas(
    data_len: usize,
    width: u32,
    height: u32,
    bitmap: &[u8],
    gw: usize,
    gh: usize,
    x: i32,
    y: i32,
) -> (b: bool)
    ensures
        b == stamp_fits(data_len as int, width, height, bitmap@, gw as int, gh as int, x as int, y as int),
{
    let ghost gwi = gw as int;
    let ghost ghi = gh as int;
    if gw > 0x7fff_ffff || gh > 0x7fff_ffff {
        return false;
    }
    assert(gw as u64 * gh as u64 <= 0x7fff_ffff * 0x7fff_ffff) by (nonlinear_arith)
        requires
            gw <= 0x7fff_ffff,
            gh <= 0x7fff_ffff,
    ;
    let cells: u64 = gw as u64 * gh as u64;
    let blen = bitmap.len();
    if cells > blen as u64 {
        return false;
    }
    let wi = width as i32;
    let hi = height as i32;
    let mut row: usize = 0;
    while row < gh
        invariant
            row <= gh,
            gwi == gw,
            ghi == gh,
            gw <= 0x7fff_ffff,
            gh <= 0x7fff_ffff,
            gw * gh <= bitmap@.len(),
            blen == bitmap@.len(),
            wi == width as i32,
            hi == height as i32,
            forall|r: int, c: int|
                0 <= r < row && 0 <= c < gw && bitmap@[r * gwi + c] != 0 ==> #[trigger] cell_fits(
                    data_len as int,
                    width,
                    height,
                    x as int,
                    y as int,
                    r,
                    c,
                ),
        decreases gh - row,
    {
        let mut col: usize = 0;
        while col < gw
            invariant
                row < gh,
                col <= gw,
                gwi == gw,
                ghi == gh,
                gw <= 0x7fff_ffff,
                gh <= 0x7fff_ffff,
                gw * gh <= bitmap@.len(),
                blen == bitmap@.len(),
                wi == width as i32,
                hi == height as i32,
                forall|r: int, c: int|
                    0 <= c < gw && (0 <= r < row || (r == row && c < col)) && bitmap@[r * gwi + c] != 0
                        ==> #[trigger] cell_fits(data_len as int, width, height, x as int, y as int, r, c),
            decreases gw - col,
        {
            proof {
                lemma_cell_index_bound(row as int, col as int, gwi, ghi);
            }
            let j = row * gw + col;
            if bitmap[j] != 0 {
                let px: i64 = x as i64 + col as i64;
                let py: i64 = y as i64 + row as i64;
                if px < -0x8000_0000 || px > 0x7fff_ffff || py < -0x8000_0000 || py > 0x7fff_ffff {
                    assert(!cell_fits(data_len as int, width, height, x as int, y as int, row as int, col as int));
                    return false;
                }
                if 0 <= px && px < wi as i64 && 0 <= py && py < hi as i64 {
                    proof {
                        assert(0 <= py * (wi as i64) <= 0x7fff_ffff * 0x7fff_ffff) by (nonlinear_arith)
                            requires
                                0 <= py <= 0x7fff_ffff,
                                0 < wi <= 0x7fff_ffff,
                        ;
                    }
                    let idx: i128 = (py as i128 * wi as i128 + px as i128) * 4;
                    if idx > 0x7fff_ffff || idx as u64 + 3 >= data_len as u64 {
                        assert(!cell_fits(data_len as int, width, height, x as int, y as int, row as int, col as int));
                        return false;
                    }
                }
                assert(cell_fits(data_len as int, width, height, x as int, y as int, row as int, col as int));
            }
            col = col + 1;
        }
        row = row + 1;
    }
    true
}

/// Whether a line of glyphs can be drawn (see `text_fits`): the check to
/// make before `draw_text`.
pub fn text_fits_canvas(data_len: usize, width: u32, height: u32, glyphs: &[Glyph], x: i32, baseline: i32) -> (b: bool)
    ensures
        b == text_fits(data_len as int, width, height, glyphs@, x as int, baseline as int),
{
    let mut cx: i64 = x as i64;
    let mut k: usize = 0;
    while k < glyphs.len()
        invariant
            k <= glyphs@.len(),
            cx == pen_x(glyphs@, x as int, k as int),
            i32::MIN <= cx <= i32::MAX,
            forall|i: int|
                0 <= i < k ==> {
                    &&& i32::MIN <= #[trigger] pen_x(glyphs@, x as int, i + 1) <= i32::MAX
                    &&& glyph_fits(data_len as int, width, height, glyphs@[i], pen_x(glyphs@, x as int, i), baseline as int)
                },
        decreases glyphs@.len() - k,
    {
        let gl = &glyphs[k];
        assert(pen_x(glyphs@, x as int, k + 1) == cx + gl.advance);
        assert(gl.width as u128 * gl.height as u128 <= 0xffff_ffff_ffff_ffff * 0xffff_ffff_ffff_ffffu128) by (nonlinear_arith)
            requires
                gl.width <= 0xffff_ffff_ffff_ffff,
                gl.height <= 0xffff_ffff_ffff_ffff,
        ;
        let cells: u128 = gl.width as u128 * gl.height as u128;
        if cells != gl.coverage.len() as u128 {
            assert(!glyph_fits(data_len as int, width, height, glyphs@[k as int], cx as int, baseline as int));
            return false;
        }
        if gl.width != 0 && gl.height != 0 {
            let left: i64 = cx + gl.xmin as i64;
            let raised: i64 = baseline as i64 - gl.ymin as i64;
            if left < -0x8000_0000 || left > 0x7fff_ffff || raised < -0x8000_0000 || raised > 0x7fff_ffff {
                assert(!glyph_fits(data_len as int, width, height, glyphs@[k as int], cx as int, baseline as int));
                return false;
            }
            if gl.height > 0x7fff_ffff {
                assert(!glyph_fits(data_len as int, width, height, glyphs@[k as int], cx as int, baseline as int));
                return false;
            }
            let top: i64 = raised - gl.height as i64;
            if top < -0x8000_0000 {
                assert(!glyph_fits(data_len as int, width, height, glyphs@[k as int], cx as int, baseline as int));
                return false;
            }
            if !glyph_fits_canvas(data_len, width, height, gl.coverage.as_slice(), gl.width, gl.height, left as i32, top as i32) {
                assert(!glyph_fits(data_len as int, width, height, glyphs@[k as int], cx as int, baseline as int));
                return false;
            }
        }
        let next: i64 = cx + gl.advance as i64;
        if next < -0x8000_0000 || next > 0x7fff_ffff {
            return false;
        }
        cx = next;
        k = k + 1;
    }
    true
}

/// A rasterized character: its coverage bitmap (`width * height` bytes,
/// row-major, top row first), the offset of the bitmap's bottom-left corner
/// from the pen position on the baseline (`xmin` right, `ymin` up), and how
/// far the pen moves on after it, in whole pixels.
pub struct Glyph {
    pub width: usize,
    pub height: usize,
    pub xmin: i32,
    pub ymin: i32,
    pub advance: i32,
    pub coverage: Vec<u8>,
}

impl Glyph {
    /// The bitmap holds exactly one byte per cell.
    pub open spec fn wf(&self) -> bool {
        self.coverage@.len() == self.width * self.height
    }

    /// Whether the glyph draws anything at all.
    pub open spec fn has_area(&self) -> bool {
        self.width != 0 && self.height != 0
    }
}

/// The pen position on the baseline before glyph `k` of a text that starts at `x`.
pub open spec fn pen_x(glyphs: Seq<Glyph>, x: int, k: int) -> int
    decreases k,
{
    if k <= 0 {
        x
    } else {
        pen_x(glyphs, x, k - 1) + glyphs[k - 1].advance
    }
}

/// Where a glyph drawn with the pen at `cx` puts its bitmap's top-left corner.
pub open spec fn glyph_left(gl: Glyph, cx: int) -> int {
    cx + gl.xmin
}

/// The top row of a glyph's bitmap for a text on `baseline` (rows grow downwards).
pub open spec fn glyph_top(gl: Glyph, baseline: int) -> int {
    baseline - gl.ymin - gl.height
}

/// A glyph with area, drawn with the pen at `cx` on `baseline`, has its
/// position computable in `i32` and fits the canvas (see `stamp_fits`).
pub open spec fn glyph_fits(data_len: int, width: u32, height: u32, gl: Glyph, cx: int, baseline: int) -> bool {
    gl.wf() && (gl.has_area() ==> {
        &&& i32::MIN <= glyph_left(gl, cx) <= i32::MAX
        &&& i32::MIN <= baseline - gl.ymin <= i32::MAX
        &&& i32::MIN <= glyph_top(gl, baseline) <= i32::MAX
        &&& stamp_fits(
            data_len,
            width,
            height,
            gl.coverage@,
            gl.width as int,
            gl.height as int,
            glyph_left(gl, cx),
            glyph_top(gl, baseline),
        )
    })
}

/// Every pen position of the text fits in `i32` and every glyph fits.
pub open spec fn text_fits(data_len: int, width: u32, height: u32, glyphs: Seq<Glyph>, x: int, baseline: int) -> bool {
    forall|k: int|
        0 <= k < glyphs.len() ==> {
            &&& i32::MIN <= #[trigger] pen_x(glyphs, x, k + 1) <= i32::MAX
            &&& glyph_fits(data_len, width, height, glyphs[k], pen_x(glyphs, x, k), baseline)
        }
}

/// The canvas after drawing the first `k` glyphs of a text.
pub open spec fn draw_glyphs(
    d: Seq<u8>,
    width: u32,
    height: u32,
    glyphs: Seq<Glyph>,
    x: int,
    baseline: int,
    r: u8,
    g: u8,
    b: u8,
    k: int,
) -> Seq<u8>
    decreases k,
{
    if k <= 0 {
        d
    } else {
        let prev = draw_glyphs(d, width, height, glyphs, x, baseline, r, g, b, k - 1);
        let gl = glyphs[k - 1];
        if gl.has_area() {
            blend_spec(
                prev,
                width,
                height,
                gl.coverage@,
                gl.width as int,
                gl.height as int,
                glyph_left(gl, pen_x(glyphs, x, k - 1)),
                glyph_top(gl, baseline),
                r,
                g,
                b,
            )
        } else {
            prev
        }
    }
}

proof fn lemma_draw_glyphs_len(
    d: Seq<u8>,
    width: u32,
    height: u32,
    glyphs: Seq<Glyph>,
    x: int,
    baseline: int,
    r: u8,
    g: u8,
    b: u8,
    k: int,
)
    ensures
        draw_glyphs(d, width, height, glyphs, x, baseline, r, g, b, k).len() == d.len(),
    decreases k,
{
    if k > 0 {
        lemma_draw_glyphs_len(d, width, height, glyphs, x, baseline, r, g, b, k - 1);
    }
}

/// Draws a line of rasterized text in colour `(r, g, b)` onto an RGBA canvas
/// `width` x `height`, starting with the pen at `x` on `baseline`: each glyph
/// with area is composited (see `blend_glyph`) at its offset from the pen,
/// and the pen then moves on by the glyph's advance.
pub fn draw_text(
    data: &mut [u8],
    width: u32,
    height: u32,
    glyphs: &[Glyph],
    x: i32,
    baseline: i32,
    r: u8,
    g: u8,
    b: u8,
)
    requires
        text_fits(old(data)@.len() as int, width, height, glyphs@, x as int, baseline as int),
    ensures
        final(data)@ == draw_glyphs(old(data)@, width, height, glyphs@, x as int, baseline as int, r, g, b, glyphs@.len() as int),
{
    let ghost d0 = data@;
    let mut cx: i32 = x;
    let mut i: usize = 0;
    while i < glyphs.len()
        invariant
            i <= glyphs@.len(),
            text_fits(d0.len() as int, width, height, glyphs@, x as int, baseline as int),
            cx as int == pen_x(glyphs@, x as int, i as int),
            data@ == draw_glyphs(d0, width, height, glyphs@, x as int, baseline as int, r, g, b, i as int),
        decreases glyphs@.len() - i,
    {
        let gl = &glyphs[i];
        assert(i32::MIN <= pen_x(glyphs@, x as int, i + 1) <= i32::MAX);
        proof {
            lemma_draw_glyphs_len(d0, width, height, glyphs@, x as int, baseline as int, r, g, b, i as int);
        }
        if gl.width != 0 && gl.height != 0 {
            let gx = cx + gl.xmin;
            let gy = baseline - gl.ymin - gl.height as i32;
            blend_glyph(data, width, height, gl.coverage.as_slice(), gl.width, gl.height, gx, gy, r, g, b);
        }
        cx = cx + gl.advance;
        i = i + 1;
    }
}

} // verus!
