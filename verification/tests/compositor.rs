use y2aa::font::{Font, PixelMode, RawGlyph};
use y2aa::CoreError;

/// Builds an atlas of 95 glyphs of the given cell size from one packed row
/// pattern per glyph row, overriding single characters where a test needs a
/// recognizable bitmap.
fn atlas(width: usize, rows: usize, row_bytes: &[u8]) -> Vec<RawGlyph> {
    let pitch = row_bytes.len() / rows;
    let mut glyphs = Vec::new();
    for _ in 0..95 {
        glyphs.push(RawGlyph {
            data: row_bytes.to_vec(),
            width,
            rows,
            pitch: pitch as i32,
            mode: PixelMode::Mono,
        });
    }
    glyphs
}

#[test]
fn grid_size_mismatch_leaves_frame_untouched() {
    let font = Font::from_glyphs(&atlas(4, 2, &[0xF0, 0xF0])).unwrap();
    let mut out = vec![7u8; 8 * 4];
    // 8 x 4 frame with 4 x 2 cells wants a 2 x 2 grid; hand it 3 codes.
    let text = vec![65u8, 65, 65];
    assert_eq!(
        font.render(&text, 8, 4, &mut out).unwrap_err(),
        CoreError::GridSizeMismatch
    );
    assert_eq!(out, vec![7u8; 32]);
}

#[test]
fn padding_right_of_cells_is_black() {
    // origWidth 10 with glyph width 4: two columns of cells and 2 samples of
    // right padding on every glyph-covered row.
    let font = Font::from_glyphs(&atlas(4, 2, &[0xF0, 0xF0])).unwrap();
    let mut out = vec![9u8; 10 * 4];
    let text = vec![33u8; 4];
    font.render(&text, 10, 4, &mut out).unwrap();
    for y in 0..4 {
        for x in 0..8 {
            assert_eq!(out[y * 10 + x], 255);
        }
        assert_eq!(out[y * 10 + 8], 0);
        assert_eq!(out[y * 10 + 9], 0);
    }
}

#[test]
fn padding_below_cells_is_black() {
    // origHeight 5 with glyph height 2: two cell rows and one fully black
    // padding row at the bottom.
    let font = Font::from_glyphs(&atlas(4, 2, &[0xF0, 0xF0])).unwrap();
    let mut out = vec![9u8; 8 * 5];
    let text = vec![33u8; 4];
    font.render(&text, 8, 5, &mut out).unwrap();
    for x in 0..8 {
        assert_eq!(out[4 * 8 + x], 0);
    }
    for y in 0..4 {
        for x in 0..8 {
            assert_eq!(out[y * 8 + x], 255);
        }
    }
}

#[test]
fn renders_distinct_glyphs_in_place() {
    // Character 33 ('!') is solid, the others blank; check the exact layout
    // of a 2 x 1 grid.
    let mut glyphs = atlas(4, 2, &[0x00, 0x00]);
    glyphs[1] = RawGlyph {
        data: vec![0xF0, 0xF0],
        width: 4,
        rows: 2,
        pitch: 1,
        mode: PixelMode::Mono,
    };
    let font = Font::from_glyphs(&glyphs).unwrap();
    let mut out = vec![9u8; 8 * 2];
    let text = vec![33u8, 32];
    font.render(&text, 8, 2, &mut out).unwrap();
    let expected = vec![
        255, 255, 255, 255, 0, 0, 0, 0, //
        255, 255, 255, 255, 0, 0, 0, 0,
    ];
    assert_eq!(out, expected);
}

#[test]
fn frame_smaller_than_cell_is_all_padding() {
    let font = Font::from_glyphs(&atlas(4, 2, &[0xF0, 0xF0])).unwrap();
    let mut out = vec![9u8; 3 * 1];
    let text: Vec<u8> = vec![];
    font.render(&text, 3, 1, &mut out).unwrap();
    assert_eq!(out, vec![0, 0, 0]);
}
