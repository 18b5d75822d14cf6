use y2aa::font::{Font, PixelMode, RawGlyph};
use y2aa::CoreError;

fn glyph(data: Vec<u8>, width: usize, rows: usize, pitch: i32, mode: PixelMode) -> RawGlyph {
    RawGlyph { data, width, rows, pitch, mode }
}

fn uniform_glyphs(width: usize, rows: usize, pitch: i32, byte: u8) -> Vec<RawGlyph> {
    let mut glyphs = Vec::new();
    for _ in 0..95 {
        glyphs.push(glyph(
            vec![byte; rows * pitch as usize],
            width,
            rows,
            pitch,
            PixelMode::Mono,
        ));
    }
    glyphs
}

#[test]
fn unpack_full_byte() {
    let src: Vec<u8> = vec![0b1011_0000];
    let out = Font::mono2gray(&src, 8, 1, 1);
    assert_eq!(out, vec![255, 0, 255, 255, 0, 0, 0, 0]);
}

#[test]
fn unpack_partial_byte() {
    let src: Vec<u8> = vec![0b1010_0000];
    let out = Font::mono2gray(&src, 5, 1, 1);
    assert_eq!(out, vec![255, 0, 255, 0, 0]);
}

#[test]
fn unpack_ignores_pitch_padding() {
    // Two rows of three pixels, each row padded to a pitch of two bytes; the
    // padding bytes must not reach the output.
    let src: Vec<u8> = vec![0b1110_0000, 0xFF, 0b0100_0000, 0xFF];
    let out = Font::mono2gray(&src, 3, 2, 2);
    assert_eq!(out, vec![255, 255, 255, 0, 255, 0]);
}

#[test]
fn unpack_multi_byte_row() {
    let src: Vec<u8> = vec![0b1000_0001, 0b1100_0000];
    let out = Font::mono2gray(&src, 10, 1, 2);
    assert_eq!(out, vec![255, 0, 0, 0, 0, 0, 0, 255, 255, 255]);
}

#[test]
fn to8_maps_bits() {
    assert_eq!(Font::to8(0), 0);
    assert_eq!(Font::to8(1), 255);
    assert_eq!(Font::to8(0x80), 255);
}

#[test]
fn normalize_accepts_mono() {
    let g = glyph(vec![0b1111_0000], 4, 1, 1, PixelMode::Mono);
    assert_eq!(Font::normalize(&g).unwrap(), vec![255, 255, 255, 255]);
}

#[test]
fn normalize_rejects_gray() {
    let g = glyph(vec![0, 0, 0, 0], 2, 2, 1, PixelMode::Gray);
    assert_eq!(Font::normalize(&g).unwrap_err(), CoreError::UnsupportedGlyphFormat);
}

#[test]
fn normalize_rejects_other_modes() {
    let g = glyph(vec![0, 0], 2, 1, 1, PixelMode::Other);
    assert_eq!(Font::normalize(&g).unwrap_err(), CoreError::UnsupportedGlyphFormat);
}

#[test]
fn normalize_rejects_nonpositive_pitch() {
    let g = glyph(vec![0], 2, 1, 0, PixelMode::Mono);
    assert_eq!(Font::normalize(&g).unwrap_err(), CoreError::UnsupportedGlyphFormat);
}

#[test]
fn atlas_from_uniform_glyphs() {
    let glyphs = uniform_glyphs(8, 2, 1, 0xFF);
    let font = Font::from_glyphs(&glyphs).unwrap();
    assert_eq!(font.get_width(), 8);
    assert_eq!(font.get_height(), 2);
    assert_eq!(font.chars.len(), 95);
    assert_eq!(font.chars[0], vec![255u8; 16]);
}

#[test]
fn atlas_rejects_mismatched_dimensions() {
    let mut glyphs = uniform_glyphs(8, 2, 1, 0);
    glyphs[40] = glyph(vec![0; 3], 8, 3, 1, PixelMode::Mono);
    assert_eq!(
        Font::from_glyphs(&glyphs).unwrap_err(),
        CoreError::InconsistentGlyphDimensions
    );
}

#[test]
fn atlas_rejects_bad_format_glyph() {
    let mut glyphs = uniform_glyphs(8, 2, 1, 0);
    glyphs[10] = glyph(vec![0; 2], 8, 2, 1, PixelMode::Gray);
    assert_eq!(
        Font::from_glyphs(&glyphs).unwrap_err(),
        CoreError::UnsupportedGlyphFormat
    );
}

#[test]
fn atlas_dimension_check_precedes_format_check() {
    // The same glyph is both the wrong size and the wrong format: the size
    // check comes first.
    let mut glyphs = uniform_glyphs(8, 2, 1, 0);
    glyphs[10] = glyph(vec![0; 4], 4, 4, 1, PixelMode::Gray);
    assert_eq!(
        Font::from_glyphs(&glyphs).unwrap_err(),
        CoreError::InconsistentGlyphDimensions
    );
}
