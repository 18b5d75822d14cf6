//! Glyph atlas: normalization of raw 1-bit glyph bitmaps into dense 8-bit
//! buffers, and the compositor that rasterizes a character grid back into a
//! full-resolution frame.
//!
//! Raw bitmaps arrive from the font-rasterization collaborator as packed
//! 1-bit-per-pixel rows, most significant bit first, with a row pitch that
//! may carry alignment padding. All 95 printable glyphs (codes 32 through
//! 126) must share one cell size; the first glyph fixes it.

use vstd::arithmetic::div_mod::{
    lemma_div_nonincreasing, lemma_div_pos_is_pos, lemma_fundamental_div_mod,
    lemma_fundamental_div_mod_converse_div, lemma_fundamental_div_mod_converse_mod,
    lemma_mod_division_less_than_divisor, lemma_multiply_divide_lt,
};
use vstd::pervasive::VecAdditionalExecFns;
use vstd::prelude::*;

use crate::geometry::MAX_DIM;
use crate::CoreError;

verus! {

/// Pixel storage formats a glyph bitmap can report. Only 1-bit monochrome is
/// supported by the normalizer.
#[derive(Clone, Copy, Debug, PartialEq, Eq, Structural)]
pub enum PixelMode {
    Mono,
    Gray,
    Other,
}

/// One glyph bitmap as delivered by the font-rasterization collaborator:
/// packed rows plus the metadata needed to decode them.
pub struct RawGlyph {
    pub data: Vec<u8>,
    pub width: usize,
    pub rows: usize,
    pub pitch: i32,
    pub mode: PixelMode,
}

/// Maps a raw sample to its dense 8-bit value: clear bits become 0, set bits
/// become 255.
pub open spec fn to8_spec(v: u8) -> u8 {
    if v == 0 {
        0u8
    } else {
        255u8
    }
}

/// The single-bit mask selecting bit `k` of a byte, most significant first.
pub open spec fn msb_mask(k: int) -> u8 {
    if k == 0 {
        0x80u8
    } else if k == 1 {
        0x40u8
    } else if k == 2 {
        0x20u8
    } else if k == 3 {
        0x10u8
    } else if k == 4 {
        0x08u8
    } else if k == 5 {
        0x04u8
    } else if k == 6 {
        0x02u8
    } else if k == 7 {
        0x01u8
    } else {
        0u8
    }
}

/// The dense value of pixel `(row, col)` of a packed 1-bit bitmap with the
/// given row pitch: bit `col % 8` of byte `col / 8` of the row, MSB first.
pub open spec fn mono_pixel_of(src: Seq<u8>, pitch: int, row: int, col: int) -> u8 {
    to8_spec(src[row * pitch + col / 8] & msb_mask(col % 8))
}

/// A glyph the normalizer accepts: 1-bit monochrome with positive pitch.
pub open spec fn glyph_format_ok(g: RawGlyph) -> bool {
    g.mode == PixelMode::Mono && g.pitch >= 1
}

/// The glyph's buffer is large enough for its own metadata: each row spans
/// `pitch` bytes and covers at least `ceil(width / 8)` significant bytes.
pub open spec fn glyph_buffer_ok(g: RawGlyph) -> bool {
    &&& g.width <= 8 * g.pitch
    &&& g.rows * g.pitch <= g.data@.len()
}

/// The glyph matches the cell size fixed by the first glyph.
pub open spec fn glyph_shape_ok(g: RawGlyph, w0: int, h0: int) -> bool {
    g.width == w0 && g.rows == h0
}

/// A glyph the atlas builder accepts outright.
pub open spec fn glyph_ok(g: RawGlyph, w0: int, h0: int) -> bool {
    glyph_shape_ok(g, w0, h0) && glyph_format_ok(g)
}

/// The expected value of one composited output sample `k` of an
/// `ow x oh` frame: the glyph pixel under `k` where a character cell covers
/// `k`, and black padding to the right of the last full cell and below the
/// last full cell row.
pub open spec fn rendered_pixel(f: Font, text: Seq<u8>, ow: int, oh: int, k: int) -> u8 {
    let y = k / ow;
    let x = k % ow;
    let fw = f.width as int;
    let fh = f.height as int;
    let nline = y / fh;
    let row = y % fh;
    let cols = ow / fw;
    let nlines = oh / fh;
    if nline < nlines && x < fw * cols {
        let i = x / fw;
        let j = x % fw;
        let ch = text[nline * cols + i];
        f.chars@[ch - 32]@[row * fw + j]
    } else {
        0u8
    }
}

/// Normalized glyph atlas for the 95 printable ASCII characters, all sharing
/// one cell size; entry `c - 32` holds the dense bitmap of character `c`.
#[derive(Debug)]
pub struct Font {
    /// Dense `width * height` bitmaps, one per printable character.
    pub chars: Vec<Vec<u8>>,
    /// Dimensions of each bitmap.
    pub width: usize,
    pub height: usize,
}

impl Font {
    pub open spec fn wf(self) -> bool {
        &&& 1 <= self.width
        &&& 1 <= self.height
        &&& self.chars@.len() == 95
        &&& forall|i: int|
            0 <= i < 95 ==> (#[trigger] self.chars@[i])@.len() == self.width * self.height
    }

    /// Dense sample for one raw bit: 0 stays 0, anything set becomes 255.
    pub fn to8(v: u8) -> (r: u8)
        ensures
            r == to8_spec(v),
    {
        if v == 0 {
            0
        } else {
            255
        }
    }

    /// Unpacks a packed 1-bit bitmap into one dense byte per pixel, row by
    /// row, most significant bit of each byte first; only the first
    /// `ceil(width / 8)` bytes of each `pitch`-byte row carry pixels.
    #[verifier::loop_isolation(false)]
    pub fn mono2gray(src: &[u8], width: usize, rows: usize, pitch: usize) -> (r: Vec<u8>)
        requires
            1 <= pitch,
            width <= 8 * pitch,
            rows * pitch <= src@.len(),
        ensures
            r@.len() == width * rows,
            forall|i: int, j: int|
                0 <= i < rows && 0 <= j < width ==> r@[i * width + j] == mono_pixel_of(
                    src@,
                    pitch as int,
                    i,
                    j,
                ),
    {
        let src_len = src.len();
        let mut dst: Vec<u8> = Vec::new();
        let mut i: usize = 0;
        while i < rows
            invariant
                i <= rows,
                dst@.len() == i * width,
                forall|i2: int, j2: int|
                    0 <= i2 < i && 0 <= j2 < width ==> dst@[i2 * width + j2] == mono_pixel_of(
                        src@,
                        pitch as int,
                        i2,
                        j2,
                    ),
            decreases rows - i,
        {
            proof {
                assert(i * pitch + pitch <= rows * pitch) by (nonlinear_arith)
                    requires
                        i < rows,
                        0 <= pitch,
                ;
            }
            let row_base = i * pitch;
            let mut col: usize = 0;
            while col < width
                invariant
                    col <= width,
                    dst@.len() == i * width + col,
                    forall|i2: int, j2: int|
                        0 <= i2 < i && 0 <= j2 < width ==> dst@[i2 * width + j2] == mono_pixel_of(
                            src@,
                            pitch as int,
                            i2,
                            j2,
                        ),
                    forall|j2: int|
                        0 <= j2 < col ==> dst@[i * width + j2] == mono_pixel_of(
                            src@,
                            pitch as int,
                            i as int,
                            j2,
                        ),
                decreases width - col,
            {
                proof {
                    lemma_div_pos_is_pos(col as int, 8);
                    lemma_mod_division_less_than_divisor(col as int, 8);
                    lemma_multiply_divide_lt(col as int, 8, pitch as int);
                }
                proof {
                    assert(row_base + col / 8 < src_len);
                }
                let b = src[row_base + col / 8];
                dst.push(Self::to8(b & Self::mask_for(col % 8)));
                proof {
                    assert forall|i2: int, j2: int|
                        0 <= i2 < i && 0 <= j2 < width implies dst@[i2 * width + j2]
                        == mono_pixel_of(src@, pitch as int, i2, j2) by {
                        assert(0 <= i2 * width + j2 < i * width) by (nonlinear_arith)
                            requires
                                0 <= i2 < i,
                                0 <= j2 < width,
                        ;
                    }
                }
                col = col + 1;
            }
            proof {
                assert(i * width + width == (i + 1) * width) by (nonlinear_arith);
            }
            i = i + 1;
        }
        proof {
            assert(rows * width == width * rows) by (nonlinear_arith);
        }
        dst
    }

    /// The executable mask for bit `t` of a byte, most significant first.
    pub fn mask_for(t: usize) -> (r: u8)
        requires
            t < 8,
        ensures
            r == msb_mask(t as int),
    {
        if t == 0 {
            0x80
        } else if t == 1 {
            0x40
        } else if t == 2 {
            0x20
        } else if t == 3 {
            0x10
        } else if t == 4 {
            0x08
        } else if t == 5 {
            0x04
        } else if t == 6 {
            0x02
        } else {
            0x01
        }
    }

    /// Normalizes one raw glyph into a dense `width * rows` bitmap.
    /// Fails with `UnsupportedGlyphFormat` exactly when the bitmap is not
    /// 1-bit monochrome or its pitch is not positive.
    pub fn normalize(g: &RawGlyph) -> (r: Result<Vec<u8>, CoreError>)
        requires
            glyph_format_ok(*g) ==> glyph_buffer_ok(*g),
        ensures
            r is Ok <==> glyph_format_ok(*g),
            r matches Err(e) ==> e == CoreError::UnsupportedGlyphFormat,
            r matches Ok(v) ==> {
                &&& v@.len() == g.width * g.rows
                &&& forall|i: int, j: int|
                    0 <= i < g.rows && 0 <= j < g.width ==> v@[i * g.width + j] == mono_pixel_of(
                        g.data@,
                        g.pitch as int,
                        i,
                        j,
                    )
            },
    {
        if g.pitch < 1 {
            return Err(CoreError::UnsupportedGlyphFormat);
        }
        match g.mode {
            PixelMode::Mono => Ok(Self::mono2gray(g.data.as_slice(), g.width, g.rows, g.pitch as usize)),
            PixelMode::Gray => Err(CoreError::UnsupportedGlyphFormat),
            PixelMode::Other => Err(CoreError::UnsupportedGlyphFormat),
        }
    }

    /// Builds the atlas from the 95 printable-character glyphs, in code
    /// order. The first glyph fixes the cell size; a later glyph of another
    /// size fails with `InconsistentGlyphDimensions`, and a glyph in an
    /// unsupported format fails with `UnsupportedGlyphFormat`, whichever
    /// check the first offending glyph fails first.
    #[verifier::loop_isolation(false)]
    pub fn from_glyphs(glyphs: &Vec<RawGlyph>) -> (r: Result<Font, CoreError>)
        requires
            glyphs@.len() == 95,
            1 <= glyphs@[0].width,
            1 <= glyphs@[0].rows,
            forall|i: int|
                0 <= i < 95 ==> (glyph_format_ok(#[trigger] glyphs@[i]) ==> glyph_buffer_ok(
                    glyphs@[i],
                )),
        ensures
            ({
                let w0 = glyphs@[0].width as int;
                let h0 = glyphs@[0].rows as int;
                &&& (r is Ok <==> (forall|i: int|
                    0 <= i < 95 ==> glyph_ok(#[trigger] glyphs@[i], w0, h0)))
                &&& (r matches Ok(f) ==> {
                    &&& f.wf()
                    &&& f.width == w0
                    &&& f.height == h0
                    &&& forall|i: int, row: int, col: int|
                        0 <= i < 95 && 0 <= row < h0 && 0 <= col < w0 ==> f.chars@[i]@[row * w0
                            + col] == #[trigger] mono_pixel_of(
                            glyphs@[i].data@,
                            glyphs@[i].pitch as int,
                            row,
                            col,
                        )
                })
                &&& (r matches Err(e) ==> exists|i: int|
                    0 <= i < 95 && !(#[trigger] glyph_ok(glyphs@[i], w0, h0)) && (forall|j: int|
                        0 <= j < i ==> glyph_ok(#[trigger] glyphs@[j], w0, h0)) && e == (
                    if !glyph_shape_ok(glyphs@[i], w0, h0) {
                        CoreError::InconsistentGlyphDimensions
                    } else {
                        CoreError::UnsupportedGlyphFormat
                    }))
            }),
    {
        let width = glyphs[0].width;
        let height = glyphs[0].rows;
        let mut chars: Vec<Vec<u8>> = Vec::new();
        let mut idx: usize = 0;
        while idx < 95
            invariant
                idx <= 95,
                chars@.len() == idx,
                forall|i: int| 0 <= i < idx ==> glyph_ok(#[trigger] glyphs@[i], width as int, height as int),
                forall|i: int|
                    0 <= i < idx ==> (#[trigger] chars@[i])@.len() == width * height,
                forall|i: int, row: int, col: int|
                    0 <= i < idx && 0 <= row < height && 0 <= col < width ==> chars@[i]@[row
                        * width + col] == #[trigger] mono_pixel_of(
                        glyphs@[i].data@,
                        glyphs@[i].pitch as int,
                        row,
                        col,
                    ),
            decreases 95 - idx,
        {
            let g = &glyphs[idx];
            if g.width != width || g.rows != height {
                proof {
                    assert(!glyph_shape_ok(glyphs@[idx as int], width as int, height as int));
                    assert(!glyph_ok(glyphs@[idx as int], width as int, height as int));
                }
                return Err(CoreError::InconsistentGlyphDimensions);
            }
            match Self::normalize(g) {
                Ok(v) => {
                    chars.push(v);
                },
                Err(e) => {
                    proof {
                        assert(glyph_shape_ok(glyphs@[idx as int], width as int, height as int));
                        assert(!glyph_format_ok(glyphs@[idx as int]));
                        assert(!glyph_ok(glyphs@[idx as int], width as int, height as int));
                    }
                    return Err(e);
                },
            }
            idx = idx + 1;
        }
        Ok(Font { chars, width, height })
    }

    pub fn get_width(&self) -> (r: usize)
        ensures
            r == self.width,
    {
        self.width
    }

    pub fn get_height(&self) -> (r: usize)
        ensures
            r == self.height,
    {
        self.height
    }

    /// Rasterizes one character grid into the output frame: for each of the
    /// `nlines` full cell rows, each glyph row of each character is copied
    /// into place, the `orig_width % width` samples right of the last full
    /// cell are zeroed, and every remaining output row below the last full
    /// cell row is zeroed. Fails with `GridSizeMismatch`, leaving the frame
    /// untouched, exactly when the grid length is not `cols * rows` for this
    /// frame and cell size.
    #[verifier::loop_isolation(false)]
    pub fn render(
        &self,
        text: &[u8],
        orig_width: usize,
        orig_height: usize,
        out: &mut Vec<u8>,
    ) -> (r: Result<(), CoreError>)
        requires
            self.wf(),
            1 <= orig_width <= MAX_DIM,
            1 <= orig_height <= MAX_DIM,
            old(out)@.len() == orig_width * orig_height,
            forall|i: int| 0 <= i < text@.len() ==> 32 <= #[trigger] text@[i] <= 126,
        ensures
            final(out)@.len() == old(out)@.len(),
            r is Ok <==> text@.len() == (orig_width as int / self.width as int) * (
            orig_height as int / self.height as int),
            r matches Err(e) ==> e == CoreError::GridSizeMismatch && final(out)@ == old(out)@,
            r is Ok ==> forall|k: int|
                0 <= k < final(out)@.len() ==> final(out)@[k] == rendered_pixel(
                    *self,
                    text@,
                    orig_width as int,
                    orig_height as int,
                    k,
                ),
    {
        let total = out.len();
        let tlen = text.len();
        let fw = self.width;
        let fh = self.height;
        let line_len = orig_width / fw;
        let nlines = orig_height / fh;
        let pad_x = orig_width % fw;
        let pad_y = orig_height % fh;
        proof {
            lemma_fundamental_div_mod(orig_width as int, fw as int);
            lemma_fundamental_div_mod(orig_height as int, fh as int);
            lemma_mod_division_less_than_divisor(orig_width as int, fw as int);
            lemma_mod_division_less_than_divisor(orig_height as int, fh as int);
            lemma_div_pos_is_pos(orig_width as int, fw as int);
            lemma_div_pos_is_pos(orig_height as int, fh as int);
            lemma_div_nonincreasing(orig_width as int, fw as int);
            lemma_div_nonincreasing(orig_height as int, fh as int);
            assert(fw * line_len <= orig_width);
            assert(fh * nlines <= orig_height);
            assert(line_len * nlines <= 65535 * 65535) by (nonlinear_arith)
                requires
                    0 <= line_len <= 65535,
                    0 <= nlines <= 65535,
            ;
        }
        let line_w = fw * line_len;
        if tlen != line_len * nlines {
            return Err(CoreError::GridSizeMismatch);
        }
        let mut nline: usize = 0;
        proof {
            assert(orig_width * (fh * nline) == 0) by (nonlinear_arith)
                requires
                    nline == 0,
            ;
        }
        while nline < nlines
            invariant
                nline <= nlines,
                out@.len() == total,
                forall|k: int|
                    0 <= k < orig_width * (fh * nline) ==> #[trigger] out@[k] == rendered_pixel(
                        *self,
                        text@,
                        orig_width as int,
                        orig_height as int,
                        k,
                    ),
            decreases nlines - nline,
        {
            let mut row: usize = 0;
            while row < fh
                invariant
                    row <= fh,
                    out@.len() == total,
                    forall|k: int|
                        0 <= k < orig_width * (fh * nline + row) ==> #[trigger] out@[k]
                            == rendered_pixel(
                            *self,
                            text@,
                            orig_width as int,
                            orig_height as int,
                            k,
                        ),
                decreases fh - row,
            {
                proof {
                    assert(fh * nline + row < fh * nlines) by (nonlinear_arith)
                        requires
                            nline < nlines,
                            0 <= row < fh,
                    ;
                    assert(orig_width * (fh * nline + row) + orig_width <= orig_width
                        * orig_height) by (nonlinear_arith)
                        requires
                            0 <= fh * nline + row < orig_height,
                            0 <= orig_width,
                    ;
                }
                let out_base = orig_width * (fh * nline + row);
                let mut i: usize = 0;
                proof {
                    assert(0 * fw == 0) by (nonlinear_arith);
                }
                while i < line_len
                    invariant
                        i <= line_len,
                        out@.len() == total,
                        forall|k: int|
                            0 <= k < out_base + i * fw ==> #[trigger] out@[k] == rendered_pixel(
                                *self,
                                text@,
                                orig_width as int,
                                orig_height as int,
                                k,
                            ),
                    decreases line_len - i,
                {
                    proof {
                        assert(line_len * nline + i < line_len * nlines) by (nonlinear_arith)
                            requires
                                nline < nlines,
                                0 <= i < line_len,
                        ;
                    }
                    let ch = text[line_len * nline + i];
                    let ch_data = &self.chars[(ch - 32) as usize];
                    proof {
                        assert(i * fw + fw <= line_len * fw) by (nonlinear_arith)
                            requires
                                0 <= i < line_len,
                                0 <= fw,
                        ;
                        assert(line_len * fw == fw * line_len) by (nonlinear_arith);
                        assert(fw <= orig_width) by (nonlinear_arith)
                            requires
                                1 <= line_len,
                                fw * line_len <= orig_width,
                                0 <= fw,
                        ;
                        assert(fw * row + fw <= fw * fh) by (nonlinear_arith)
                            requires
                                0 <= row < fh,
                                0 <= fw,
                        ;
                        assert(fh <= orig_height) by (nonlinear_arith)
                            requires
                                1 <= nlines,
                                fh * nlines <= orig_height,
                                0 <= fh,
                        ;
                        assert(fw * row + fw <= 65535 * 65535) by (nonlinear_arith)
                            requires
                                0 <= fw <= 65535,
                                0 <= row < fh <= 65535,
                        ;
                    }
                    let w = i * fw;
                    let ch_base = fw * row;
                    let mut j: usize = 0;
                    while j < fw
                        invariant
                            j <= fw,
                            out@.len() == total,
                            forall|k: int|
                                0 <= k < out_base + w + j ==> #[trigger] out@[k] == rendered_pixel(
                                    *self,
                                    text@,
                                    orig_width as int,
                                    orig_height as int,
                                    k,
                                ),
                        decreases fw - j,
                    {
                        out.set(out_base + w + j, ch_data[ch_base + j]);
                        proof {
                            let ow = orig_width as int;
                            let oh = orig_height as int;
                            let p = out_base + w + j;
                            let y = fh * nline + row;
                            let x = i * fw + j;
                            assert(0 <= x < ow);
                            assert(ow * (fh * nline + row) == (fh * nline + row) * ow)
                                by (nonlinear_arith);
                            lemma_fundamental_div_mod_converse_div(p as int, ow, y as int, x as int);
                            lemma_fundamental_div_mod_converse_mod(p as int, ow, y as int, x as int);
                            assert(fh * nline == nline * fh) by (nonlinear_arith);
                            lemma_fundamental_div_mod_converse_div(y as int, fh as int, nline as int, row as int);
                            lemma_fundamental_div_mod_converse_mod(y as int, fh as int, nline as int, row as int);
                            lemma_fundamental_div_mod_converse_div(x as int, fw as int, i as int, j as int);
                            lemma_fundamental_div_mod_converse_mod(x as int, fw as int, i as int, j as int);
                            assert(nline * (ow / fw as int) == line_len * nline) by (nonlinear_arith)
                                requires
                                    line_len == ow / fw as int,
                            ;
                            assert(row * fw == fw * row) by (nonlinear_arith);
                            assert(out@[p as int] == rendered_pixel(*self, text@, ow, oh, p as int));
                        }
                        j = j + 1;
                    }
                    proof {
                        assert(i * fw + fw == (i + 1) * fw) by (nonlinear_arith);
                    }
                    i = i + 1;
                }
                let mut j: usize = 0;
                while j < pad_x
                    invariant
                        j <= pad_x,
                        out@.len() == total,
                        forall|k: int|
                            0 <= k < out_base + line_w + j ==> #[trigger] out@[k]
                                == rendered_pixel(
                                *self,
                                text@,
                                orig_width as int,
                                orig_height as int,
                                k,
                            ),
                    decreases pad_x - j,
                {
                    out.set(out_base + line_w + j, 0);
                    proof {
                        let ow = orig_width as int;
                        let oh = orig_height as int;
                        let p = out_base + line_w + j;
                        let y = fh * nline + row;
                        let x = line_w + j;
                        assert(0 <= x < ow);
                        assert(ow * (fh * nline + row) == (fh * nline + row) * ow)
                            by (nonlinear_arith);
                        lemma_fundamental_div_mod_converse_div(p as int, ow, y as int, x as int);
                        lemma_fundamental_div_mod_converse_mod(p as int, ow, y as int, x as int);
                        assert(fh * nline == nline * fh) by (nonlinear_arith);
                        lemma_fundamental_div_mod_converse_div(y as int, fh as int, nline as int, row as int);
                        lemma_fundamental_div_mod_converse_mod(y as int, fh as int, nline as int, row as int);
                        assert(out@[p as int] == rendered_pixel(*self, text@, ow, oh, p as int));
                    }
                    j = j + 1;
                }
                proof {
                    assert(out_base + line_w + pad_x == out_base + orig_width);
                    assert(orig_width * (fh * nline + row) + orig_width == orig_width * (fh * nline
                        + row + 1)) by (nonlinear_arith);
                }
                row = row + 1;
            }
            proof {
                assert(fh * nline + fh == fh * (nline + 1)) by (nonlinear_arith);
            }
            nline = nline + 1;
        }
        let mut row: usize = 0;
        while row < pad_y
            invariant
                row <= pad_y,
                out@.len() == total,
                forall|k: int|
                    0 <= k < orig_width * (fh * nlines + row) ==> #[trigger] out@[k]
                        == rendered_pixel(
                        *self,
                        text@,
                        orig_width as int,
                        orig_height as int,
                        k,
                    ),
            decreases pad_y - row,
        {
            proof {
                assert(fh * nlines + row < orig_height);
                assert(orig_width * (fh * nlines + row) + orig_width <= orig_width * orig_height)
                    by (nonlinear_arith)
                    requires
                        0 <= fh * nlines + row < orig_height,
                        0 <= orig_width,
                ;
            }
            let out_base = orig_width * (fh * nlines + row);
            let mut j: usize = 0;
            while j < orig_width
                invariant
                    j <= orig_width,
                    out@.len() == total,
                    forall|k: int|
                        0 <= k < out_base + j ==> #[trigger] out@[k] == rendered_pixel(
                            *self,
                            text@,
                            orig_width as int,
                            orig_height as int,
                            k,
                        ),
                decreases orig_width - j,
            {
                out.set(out_base + j, 0);
                proof {
                    let ow = orig_width as int;
                    let oh = orig_height as int;
                    let p = out_base + j;
                    let y = fh * nlines + row;
                    assert(ow * (fh * nlines + row) == (fh * nlines + row) * ow)
                        by (nonlinear_arith);
                    lemma_fundamental_div_mod_converse_div(p as int, ow, y as int, j as int);
                    lemma_fundamental_div_mod_converse_mod(p as int, ow, y as int, j as int);
                    assert(fh * nlines == nlines * fh) by (nonlinear_arith);
                    lemma_fundamental_div_mod_converse_div(y as int, fh as int, nlines as int, row as int);
                    lemma_fundamental_div_mod_converse_mod(y as int, fh as int, nlines as int, row as int);
                    assert(out@[p as int] == rendered_pixel(*self, text@, ow, oh, p as int));
                }
                j = j + 1;
            }
            proof {
                assert(orig_width * (fh * nlines + row) + orig_width == orig_width * (fh * nlines
                    + row + 1)) by (nonlinear_arith);
            }
            row = row + 1;
        }
        proof {
            assert(fh * nlines + pad_y == orig_height);
            assert(orig_width * (fh * nlines + pad_y) == orig_width * orig_height);
        }
        Ok(())
    }
}

/// Compositor padding law: every output sample to the right of the last full
/// character column, and every sample on a row below the last full cell row,
/// is exact black, whatever the character grid holds.
pub proof fn lemma_render_padding(f: Font, text: Seq<u8>, ow: int, oh: int, k: int)
    requires
        f.wf(),
        1 <= ow,
        1 <= oh,
        0 <= k < ow * oh,
        k % ow >= f.width as int * (ow / f.width as int) || k / ow >= f.height as int * (
        oh / f.height as int),
    ensures
        rendered_pixel(f, text, ow, oh, k) == 0,
{
    let fw = f.width as int;
    let fh = f.height as int;
    let x = k % ow;
    let y = k / ow;
    let nline = y / fh;
    let row = y % fh;
    let cols = ow / fw;
    let nlines = oh / fh;
    if x >= fw * cols {
    } else {
        lemma_fundamental_div_mod(y, fh);
        lemma_mod_division_less_than_divisor(y, fh);
        assert(nline >= nlines) by (nonlinear_arith)
            requires
                y == fh * nline + row,
                0 <= row < fh,
                y >= fh * nlines,
        ;
    }
}

} // verus!
