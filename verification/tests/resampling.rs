use y2aa::resizer::{fix_weight_sum, CoeffsLine, Resizer, FP_ONE};

/// A box-filter table: `dst` lines of `taps` equal weights, requiring
/// `dst * taps == src` and `taps` dividing `FP_ONE` evenly.
fn box_table(dst: usize, taps: usize) -> Vec<CoeffsLine> {
    let weight = FP_ONE / taps as i32;
    (0..dst)
        .map(|d| CoeffsLine { left: d * taps, data: vec![weight; taps] })
        .collect()
}

/// The degenerate table of one unit-weight tap per destination sample.
fn unit_table(len: usize) -> Vec<CoeffsLine> {
    (0..len).map(|d| CoeffsLine { left: d, data: vec![FP_ONE] }).collect()
}

#[test]
fn weight_sum_fixup_exact() {
    // Three equal thirds leave a residual of one unit; it lands on the
    // center tap.
    let w: Vec<i32> = vec![21845, 21845, 21845];
    let fixed = fix_weight_sum(&w).unwrap();
    assert_eq!(fixed, vec![21845, 21846, 21845]);
    assert_eq!(fixed.iter().map(|&x| x as i64).sum::<i64>(), FP_ONE as i64);
}

#[test]
fn weight_sum_fixup_with_negative_lobes() {
    let w: Vec<i32> = vec![-3000, 35000, 35000, -3000];
    let fixed = fix_weight_sum(&w).unwrap();
    assert_eq!(fixed.iter().map(|&x| x as i64).sum::<i64>(), FP_ONE as i64);
    assert_eq!(fixed[0], -3000);
    assert_eq!(fixed[3], -3000);
}

#[test]
fn resizer_rejects_unnormalized_table() {
    let mut cw = unit_table(2);
    cw[1].data = vec![FP_ONE - 1];
    let ch = unit_table(2);
    assert!(Resizer::new(2, 2, 2, 2, cw, ch).is_none());
}

#[test]
fn resizer_rejects_out_of_range_taps() {
    let mut cw = unit_table(2);
    cw[1].left = 2;
    let ch = unit_table(2);
    assert!(Resizer::new(2, 2, 2, 2, cw, ch).is_none());
}

#[test]
fn resizer_rejects_bad_dimensions() {
    assert!(Resizer::new(0, 2, 2, 2, unit_table(2), unit_table(2)).is_none());
    assert!(Resizer::new(2, 2, 2, 0, unit_table(0), unit_table(2)).is_none());
}

#[test]
fn identity_tables_reproduce_ramp() {
    // A 4 x 3 ramp resampled to its own size through unit taps comes back
    // exactly.
    let w: usize = 4;
    let h: usize = 3;
    let src: Vec<u8> = (0..w * h).map(|k| (k * 20) as u8).collect();
    let mut rz = Resizer::new(w, h, w, h, unit_table(w), unit_table(h)).unwrap();
    let mut dst = vec![0u8; w * h];
    rz.run(&src, &mut dst);
    assert_eq!(dst, src);
}

#[test]
fn constant_image_stays_constant() {
    // A uniform frame keeps its value exactly under any normalized table.
    for &v in &[0u8, 128, 255] {
        let src = vec![v; 6 * 4];
        let mut rz = Resizer::new(6, 4, 3, 2, box_table(3, 2), box_table(2, 2)).unwrap();
        let mut dst = vec![0u8; 3 * 2];
        rz.run(&src, &mut dst);
        assert_eq!(dst, vec![v; 6]);
    }
}

#[test]
fn two_tap_average_rounds_half_up() {
    // Averaging 0 and 255 accumulates 127.5 in fixed point, which packs to
    // 128.
    let cw = vec![CoeffsLine { left: 0, data: vec![FP_ONE / 2, FP_ONE / 2] }];
    let ch = unit_table(1);
    let mut rz = Resizer::new(2, 1, 1, 1, cw, ch).unwrap();
    let mut dst = vec![0u8; 1];
    rz.run(&[0, 255], &mut dst);
    assert_eq!(dst, vec![128]);
}

#[test]
fn negative_accumulation_clamps_to_zero() {
    // A line whose outer taps overshoot negatively on a hard edge clamps at
    // zero instead of wrapping.
    let cw = vec![CoeffsLine { left: 0, data: vec![-65536, 131072] }];
    let ch = unit_table(1);
    let mut rz = Resizer::new(2, 1, 1, 1, cw, ch).unwrap();
    let mut dst = vec![9u8; 1];
    rz.run(&[255, 0], &mut dst);
    assert_eq!(dst, vec![0]);
}

#[test]
fn overshoot_clamps_to_255() {
    let cw = vec![CoeffsLine { left: 0, data: vec![131072, -65536] }];
    let ch = unit_table(1);
    let mut rz = Resizer::new(2, 1, 1, 1, cw, ch).unwrap();
    let mut dst = vec![0u8; 1];
    rz.run(&[255, 0], &mut dst);
    assert_eq!(dst, vec![255]);
}
