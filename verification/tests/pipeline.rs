use y2aa::font::{Font, PixelMode, RawGlyph};
use y2aa::geometry::{check_dimensions, Geometry};
use y2aa::resizer::{CoeffsLine, Resizer, FP_ONE};
use y2aa::stream::{FrameCollector, ReadStep};

#[test]
fn dimension_limits() {
    assert!(check_dimensions(1, 1));
    assert!(check_dimensions(65535, 65535));
    assert!(!check_dimensions(0, 100));
    assert!(!check_dimensions(100, 0));
    assert!(!check_dimensions(65536, 100));
    assert!(!check_dimensions(100, 65536));
}

#[test]
fn geometry_derives_grid_and_working_sizes() {
    let g = Geometry::compute(1280, 720, 8, 13).unwrap();
    assert_eq!(g.cols, 160);
    assert_eq!(g.rows, 55);
    assert_eq!(g.work_width, 320);
    assert_eq!(g.work_height, 110);
    assert!(Geometry::compute(0, 720, 8, 13).is_none());
    assert!(Geometry::compute(1280, 720, 0, 13).is_none());
}

#[test]
fn end_to_end_checkerboard() {
    // A 16 x 16 all-mid-gray frame with an 8 x 8 cell: the working image is
    // 4 x 4 and stays uniformly 128; a mapper stub that answers '.' for
    // everything plus a checkerboard glyph for '.' must tile the frame with
    // the checkerboard exactly, with no padding anywhere.
    let g = Geometry::compute(16, 16, 8, 8).unwrap();
    assert_eq!((g.cols, g.rows, g.work_width, g.work_height), (2, 2, 4, 4));

    let box4 = |dst: usize| -> Vec<CoeffsLine> {
        (0..dst)
            .map(|d| CoeffsLine { left: d * 4, data: vec![FP_ONE / 4; 4] })
            .collect()
    };
    let mut rz = Resizer::new(16, 16, g.work_width, g.work_height, box4(4), box4(4)).unwrap();
    let src = vec![128u8; 16 * 16];
    let mut work = vec![0u8; 4 * 4];
    rz.run(&src, &mut work);
    assert_eq!(work, vec![128u8; 16]);

    // Mapper stub: every cell of an all-128 working image becomes '.'.
    let text = vec![46u8; (g.cols * g.rows) as usize];

    // Atlas: code 46 is an 8 x 8 checkerboard, everything else blank.
    let mut glyphs: Vec<RawGlyph> = (0..95)
        .map(|_| RawGlyph {
            data: vec![0u8; 8],
            width: 8,
            rows: 8,
            pitch: 1,
            mode: PixelMode::Mono,
        })
        .collect();
    let mut checker = Vec::new();
    for row in 0..8 {
        checker.push(if row % 2 == 0 { 0xAAu8 } else { 0x55u8 });
    }
    glyphs[46 - 32] = RawGlyph { data: checker, width: 8, rows: 8, pitch: 1, mode: PixelMode::Mono };
    let font = Font::from_glyphs(&glyphs).unwrap();

    let mut out = vec![7u8; 16 * 16];
    font.render(&text, 16, 16, &mut out).unwrap();
    for y in 0..16 {
        for x in 0..16 {
            let expected = if (x + y) % 2 == 0 { 255 } else { 0 };
            assert_eq!(out[y * 16 + x], expected, "pixel ({}, {})", x, y);
        }
    }
}

#[test]
fn stream_one_full_frame_then_eof() {
    // One full frame arrives, then the source is exhausted: exactly one
    // frame is processed and termination is clean with no warning.
    let mut fc = FrameCollector::new(64);
    assert_eq!(fc.remaining(), 64);
    assert_eq!(fc.accept(64), ReadStep::FrameReady);
    assert_eq!(fc.remaining(), 64);
    assert_eq!(fc.accept(0), ReadStep::EndOfStream { partial: false });
}

#[test]
fn stream_partial_frame_then_eof() {
    // Half a frame arrives, then the stream ends: no frame is processed and
    // the end is reported as partial (a warning, not a failure).
    let mut fc = FrameCollector::new(64);
    assert_eq!(fc.accept(32), ReadStep::NeedMore(32));
    assert_eq!(fc.remaining(), 32);
    assert_eq!(fc.accept(0), ReadStep::EndOfStream { partial: true });
}

#[test]
fn stream_reassembles_across_chunks() {
    let mut fc = FrameCollector::new(10);
    assert_eq!(fc.accept(3), ReadStep::NeedMore(7));
    assert_eq!(fc.accept(7), ReadStep::FrameReady);
    assert_eq!(fc.accept(10), ReadStep::FrameReady);
    assert_eq!(fc.accept(0), ReadStep::EndOfStream { partial: false });
}
