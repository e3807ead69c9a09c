use pepos::dock::render::blend_glyph;
use pepos::raster::{draw_text, Glyph};

#[test]
fn full_coverage_paints_the_colour() {
    let mut data = vec![10u8; 4 * 4 * 4];
    blend_glyph(&mut data, 4, 4, &[255], 1, 1, 1, 2, 200, 100, 50);
    let idx = (2 * 4 + 1) * 4;
    assert_eq!(&data[idx..idx + 4], &[200, 100, 50, 255]);
    let changed = data.iter().enumerate().filter(|(i, _)| *i < idx || *i >= idx + 4).all(|(_, &v)| v == 10);
    assert!(changed);
}

#[test]
fn partial_coverage_blends() {
    let mut data = vec![0u8; 4];
    blend_glyph(&mut data, 1, 1, &[128], 1, 1, 0, 0, 255, 255, 255);
    assert_eq!(data, vec![128, 128, 128, 255]);
    let mut data = vec![100u8, 50, 0, 7];
    blend_glyph(&mut data, 1, 1, &[51], 1, 1, 0, 0, 200, 100, 255);
    // (200*51 + 100*204)/255 = 120, (100*51 + 50*204)/255 = 60, (255*51 + 0)/255 = 51
    assert_eq!(data, vec![120, 60, 51, 255]);
}

#[test]
fn zero_coverage_and_off_canvas_cells_are_skipped() {
    let mut data = vec![7u8; 2 * 2 * 4];
    let bitmap = [0u8, 255, 255, 255];
    blend_glyph(&mut data, 2, 2, &bitmap, 2, 2, 1, -1, 1, 2, 3);
    // cells (0,*) are above the canvas; cell (1,0) lands on (1,0); cell (1,1) is right of it.
    let mut expected = vec![7u8; 16];
    expected[4..8].copy_from_slice(&[1, 2, 3, 255]);
    assert_eq!(data, expected);
}

#[test]
fn glyph_fully_outside_changes_nothing() {
    let mut data = vec![3u8; 3 * 3 * 4];
    blend_glyph(&mut data, 3, 3, &[255; 4], 2, 2, 5, 5, 0, 0, 0);
    assert_eq!(data, vec![3u8; 36]);
    blend_glyph(&mut data, 3, 3, &[255; 4], 2, 2, -2, -2, 0, 0, 0);
    assert_eq!(data, vec![3u8; 36]);
}

fn dot(advance: i32) -> Glyph {
    Glyph { width: 1, height: 1, xmin: 0, ymin: 0, advance, coverage: vec![255] }
}

#[test]
fn draw_text_moves_the_pen() {
    let mut data = vec![0u8; 8 * 2 * 4];
    let space = Glyph { width: 0, height: 0, xmin: 0, ymin: 0, advance: 2, coverage: vec![] };
    let glyphs = vec![dot(3), space, dot(1)];
    draw_text(&mut data, 8, 2, &glyphs, 1, 2, 9, 8, 7);
    // baseline 2, height 1, ymin 0: the glyph row is y = 1; pens at x = 1, 4, 6.
    for x in 0..8usize {
        let idx = (8 + x) * 4;
        let px = &data[idx..idx + 4];
        if x == 1 || x == 6 {
            assert_eq!(px, &[9, 8, 7, 255]);
        } else {
            assert_eq!(px, &[0, 0, 0, 0]);
        }
    }
    assert!(data[..32].iter().all(|&v| v == 0));
}

#[test]
fn draw_text_uses_glyph_offsets() {
    let mut data = vec![0u8; 4 * 4 * 4];
    let g = Glyph { width: 1, height: 2, xmin: 1, ymin: -1, advance: 0, coverage: vec![255, 0] };
    draw_text(&mut data, 4, 4, &[g], 0, 2, 5, 5, 5);
    // left = 0 + 1, top = 2 - (-1) - 2 = 1: the covered cell is at (1, 1).
    let idx = (4 + 1) * 4;
    assert_eq!(&data[idx..idx + 4], &[5, 5, 5, 255]);
    assert_eq!(data.iter().filter(|&&v| v != 0).count(), 4);
}
