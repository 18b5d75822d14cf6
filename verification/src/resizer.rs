//! Separable image resampler in 16.16 fixed point.
//!
//! A frame is resampled in two passes: every column is convolved down to the
//! working height, then every row of the intermediate image is convolved down
//! to the working width. The per-destination-sample tap positions and weights
//! are precomputed once per axis; a weight of `FP_ONE` stands for 1.0, and
//! every weight vector sums to exactly `FP_ONE`, so a constant image stays
//! constant and boundary clamping introduces no brightness bias.

use vstd::arithmetic::div_mod::{
    lemma_div_pos_is_pos, lemma_fundamental_div_mod, lemma_fundamental_div_mod_converse_div,
    lemma_fundamental_div_mod_converse_mod, lemma_mod_division_less_than_divisor,
    lemma_multiply_divide_lt,
};
use vstd::pervasive::VecAdditionalExecFns;
use vstd::prelude::*;

use crate::geometry::MAX_DIM;

verus! {

/// The fixed-point representation of the weight 1.0.
pub const FP_ONE: i32 = 65536;

/// One destination sample's taps: the leftmost source index and one
/// fixed-point weight per consecutive source sample.
pub struct CoeffsLine {
    pub left: usize,
    pub data: Vec<i32>,
}

/// Sum of a weight vector, as a mathematical integer.
pub open spec fn sum_w(w: Seq<i32>) -> int
    decreases w.len(),
{
    if w.len() == 0 {
        0
    } else {
        sum_w(w.drop_last()) + w.last()
    }
}

/// Weighted sum of the samples `s` under the weights `w`.
pub open spec fn dot(s: Seq<int>, w: Seq<i32>) -> int
    decreases w.len(),
{
    if w.len() == 0 || s.len() == 0 {
        0
    } else {
        dot(s.drop_last(), w.drop_last()) + s.last() * w.last()
    }
}

/// A valid tap line for a source axis of `src_len` samples: at least one tap,
/// all taps in range, and weights summing to exactly 1.0.
pub open spec fn line_ok(line: CoeffsLine, src_len: int) -> bool {
    &&& 1 <= line.data@.len()
    &&& line.left + line.data@.len() <= src_len
    &&& sum_w(line.data@) == FP_ONE
}

/// A valid coefficient table for resampling an axis of `src_len` samples to
/// `dst_len` samples.
pub open spec fn coeffs_ok(lines: Seq<CoeffsLine>, src_len: int, dst_len: int) -> bool {
    &&& lines.len() == dst_len
    &&& forall|i: int| 0 <= i < lines.len() ==> line_ok(#[trigger] lines[i], src_len)
}

/// Rounds a 16.16 fixed-point accumulator to the nearest integer and clamps
/// it to an 8-bit sample.
pub open spec fn pack_fixed(a: int) -> u8 {
    let q = (a + 32768) / 65536;
    if q < 0 {
        0u8
    } else if q > 255 {
        255u8
    } else {
        q as u8
    }
}

/// Branch-light clamp of a fixed-point accumulator to one 8-bit sample,
/// rounding to the nearest integer.
pub fn pack_u8(a: i64) -> (r: u8)
    requires
        a < 0x4000_0000_0000_0000,
    ensures
        r == pack_fixed(a as int),
{
    if a < -32768 {
        proof {
            let q = (a + 32768) / 65536;
            assert(q < 0) by {
                assert(a + 32768 < 0);
                assert((a + 32768) / 65536 <= -1) by (nonlinear_arith)
                    requires
                        a + 32768 < 0,
                ;
            }
        }
        0
    } else {
        let shifted: u64 = (a + 32768) as u64;
        let q: u64 = shifted / 65536;
        if q > 255 {
            255
        } else {
            q as u8
        }
    }
}

/// The vertical taps for destination column `x1`: consecutive source rows of
/// a `w1`-wide row-major image, starting at row `left`.
pub open spec fn column_taps(src: Seq<u8>, w1: int, x1: int, left: int, n: nat) -> Seq<int> {
    Seq::new(n, |i: int| src[(left + i) * w1 + x1] as int)
}

/// The horizontal taps for destination row `y2`: consecutive columns of the
/// column-major intermediate image of height `h2`, starting at column `left`.
pub open spec fn row_taps(tmp: Seq<u8>, h2: int, y2: int, left: int, n: nat) -> Seq<int> {
    Seq::new(n, |i: int| tmp[(left + i) * h2 + y2] as int)
}

/// One sample of the vertical pass: the taps of column `x1` under `line`.
pub open spec fn vertical_sample(src: Seq<u8>, w1: int, line: CoeffsLine, x1: int) -> u8 {
    pack_fixed(dot(column_taps(src, w1, x1, line.left as int, line.data@.len()), line.data@))
}

/// The full vertical pass: a column-major `w1 x h2` image whose entry
/// `x1 * h2 + y2` resamples source column `x1` under tap line `y2`.
pub open spec fn vertical_pass(src: Seq<u8>, w1: int, h2: int, ch: Seq<CoeffsLine>) -> Seq<u8> {
    Seq::new((w1 * h2) as nat, |k: int| vertical_sample(src, w1, ch[k % h2], k / h2))
}

/// One sample of the horizontal pass: the taps of row `y2` under `line`.
pub open spec fn horizontal_sample(tmp: Seq<u8>, h2: int, line: CoeffsLine, y2: int) -> u8 {
    pack_fixed(dot(row_taps(tmp, h2, y2, line.left as int, line.data@.len()), line.data@))
}

/// The full horizontal pass: a row-major `w2 x h2` image whose entry
/// `y2 * w2 + x2` resamples intermediate row `y2` under tap line `x2`.
pub open spec fn horizontal_pass(tmp: Seq<u8>, w2: int, h2: int, cw: Seq<CoeffsLine>) -> Seq<u8> {
    Seq::new((w2 * h2) as nat, |k: int| horizontal_sample(tmp, h2, cw[k % w2], k / w2))
}

/// The whole resampling transform: the vertical pass followed by the
/// horizontal pass.
pub open spec fn resample(
    src: Seq<u8>,
    w1: int,
    w2: int,
    h2: int,
    cw: Seq<CoeffsLine>,
    ch: Seq<CoeffsLine>,
) -> Seq<u8> {
    horizontal_pass(vertical_pass(src, w1, h2, ch), w2, h2, cw)
}

proof fn lemma_sum_take_step(w: Seq<i32>, i: int)
    requires
        0 <= i < w.len(),
    ensures
        sum_w(w.take(i + 1)) == sum_w(w.take(i)) + w[i],
{
    assert(w.take(i + 1).drop_last() =~= w.take(i));
    assert(w.take(i + 1).last() == w[i]);
}

proof fn lemma_sum_update(w: Seq<i32>, i: int, x: i32)
    requires
        0 <= i < w.len(),
    ensures
        sum_w(w.update(i, x)) == sum_w(w) - w[i] + x,
    decreases w.len(),
{
    if i == w.len() - 1 {
        assert(w.update(i, x).drop_last() =~= w.drop_last());
        assert(w.update(i, x).last() == x);
    } else {
        lemma_sum_update(w.drop_last(), i, x);
        assert(w.update(i, x).drop_last() =~= w.drop_last().update(i, x));
        assert(w.update(i, x).last() == w.last());
    }
}

/// Nudges one weight so the vector sums to exactly 1.0 in fixed point: the
/// residual left by rounding each weight separately is folded into the center
/// tap. `None` exactly when the adjusted center tap would not fit in an `i32`.
pub fn fix_weight_sum(w: &Vec<i32>) -> (r: Option<Vec<i32>>)
    requires
        1 <= w.len() <= 65535,
    ensures
        ({
            let mid = w@.len() as int / 2;
            let adj = w@[mid] + FP_ONE - sum_w(w@);
            &&& (r is Some <==> i32::MIN <= adj <= i32::MAX)
            &&& (r matches Some(v) ==> v@ == w@.update(mid, adj as i32) && sum_w(v@) == FP_ONE)
        }),
{
    let n = w.len();
    let mut s: i64 = 0;
    let mut i: usize = 0;
    while i < n
        invariant
            n == w.len(),
            n <= 65535,
            i <= n,
            s == sum_w(w@.take(i as int)),
            -(i as int) * 0x8000_0000 <= s <= (i as int) * 0x7fff_ffff,
        decreases n - i,
    {
        proof {
            lemma_sum_take_step(w@, i as int);
        }
        s = s + w[i] as i64;
        i = i + 1;
    }
    proof {
        assert(w@.take(n as int) =~= w@);
    }
    let mid = n / 2;
    let adj: i64 = w[mid] as i64 + FP_ONE as i64 - s;
    if adj < i32::MIN as i64 || adj > i32::MAX as i64 {
        None
    } else {
        let mut v: Vec<i32> = Vec::new();
        let mut k: usize = 0;
        while k < n
            invariant
                n == w.len(),
                mid == n as int / 2,
                k <= n,
                v@.len() == k,
                i32::MIN <= adj <= i32::MAX,
                forall|j: int|
                    0 <= j < k ==> v@[j] == (if j == mid as int {
                        adj as i32
                    } else {
                        w@[j]
                    }),
            decreases n - k,
        {
            if k == mid {
                v.push(adj as i32);
            } else {
                v.push(w[k]);
            }
            k = k + 1;
        }
        proof {
            assert(v@ =~= w@.update(mid as int, adj as i32));
            lemma_sum_update(w@, mid as int, adj as i32);
        }
        Some(v)
    }
}

proof fn lemma_dot_take_step(s: Seq<int>, w: Seq<i32>, i: int)
    requires
        0 <= i < s.len(),
        i < w.len(),
    ensures
        dot(s.take(i + 1), w.take(i + 1)) == dot(s.take(i), w.take(i)) + s[i] * w[i],
{
    assert(s.take(i + 1).drop_last() =~= s.take(i));
    assert(w.take(i + 1).drop_last() =~= w.take(i));
    assert(s.take(i + 1).last() == s[i]);
    assert(w.take(i + 1).last() == w[i]);
}

/// Checks that a tap line is valid for a source axis of `src_len` samples.
pub fn check_line(line: &CoeffsLine, src_len: usize) -> (r: bool)
    requires
        src_len <= MAX_DIM,
    ensures
        r <==> line_ok(*line, src_len as int),
{
    let n = line.data.len();
    if n < 1 || line.left > src_len || n > src_len - line.left {
        return false;
    }
    let mut s: i64 = 0;
    let mut i: usize = 0;
    while i < n
        invariant
            n == line.data@.len(),
            n <= 65535,
            i <= n,
            s == sum_w(line.data@.take(i as int)),
            -(i as int) * 0x8000_0000 <= s <= (i as int) * 0x7fff_ffff,
        decreases n - i,
    {
        proof {
            lemma_sum_take_step(line.data@, i as int);
        }
        s = s + line.data[i] as i64;
        i = i + 1;
    }
    proof {
        assert(line.data@.take(n as int) =~= line.data@);
    }
    s == FP_ONE as i64
}

/// Checks a whole coefficient table against its axis lengths.
pub fn check_table(lines: &Vec<CoeffsLine>, src_len: usize, dst_len: usize) -> (r: bool)
    requires
        src_len <= MAX_DIM,
    ensures
        r <==> coeffs_ok(lines@, src_len as int, dst_len as int),
{
    if lines.len() != dst_len {
        return false;
    }
    let mut i: usize = 0;
    while i < lines.len()
        invariant
            src_len <= MAX_DIM,
            i <= lines@.len(),
            lines@.len() == dst_len,
            forall|j: int| 0 <= j < i ==> line_ok(#[trigger] lines@[j], src_len as int),
        decreases lines@.len() - i,
    {
        if !check_line(&lines[i], src_len) {
            return false;
        }
        i = i + 1;
    }
    true
}

/// Separable resampler with preallocated intermediate buffer and fixed-point
/// coefficient tables for one fixed pair of image sizes.
pub struct Resizer {
    /// Source width and height.
    pub w1: usize,
    pub h1: usize,
    /// Destination width and height.
    pub w2: usize,
    pub h2: usize,
    /// Column-major `w1 x h2` intermediate image, reused across frames.
    pub tmp: Vec<u8>,
    /// Horizontal tap lines, one per destination column.
    pub coeffs_w: Vec<CoeffsLine>,
    /// Vertical tap lines, one per destination row.
    pub coeffs_h: Vec<CoeffsLine>,
}

impl Resizer {
    pub open spec fn wf(self) -> bool {
        &&& 1 <= self.w1 <= MAX_DIM
        &&& 1 <= self.h1 <= MAX_DIM
        &&& 1 <= self.w2 <= MAX_DIM
        &&& 1 <= self.h2 <= MAX_DIM
        &&& self.tmp@.len() == self.w1 * self.h2
        &&& coeffs_ok(self.coeffs_w@, self.w1 as int, self.w2 as int)
        &&& coeffs_ok(self.coeffs_h@, self.h1 as int, self.h2 as int)
    }

    /// Builds a resampler from validated tables; `None` exactly when a
    /// dimension is out of range or a table does not fit its axis.
    pub fn new(
        w1: usize,
        h1: usize,
        w2: usize,
        h2: usize,
        coeffs_w: Vec<CoeffsLine>,
        coeffs_h: Vec<CoeffsLine>,
    ) -> (r: Option<Resizer>)
        ensures
            r is Some <==> (1 <= w1 <= MAX_DIM && 1 <= h1 <= MAX_DIM && 1 <= w2 <= MAX_DIM && 1
                <= h2 <= MAX_DIM && coeffs_ok(coeffs_w@, w1 as int, w2 as int) && coeffs_ok(
                coeffs_h@,
                h1 as int,
                h2 as int,
            )),
            r matches Some(rz) ==> {
                &&& rz.wf()
                &&& rz.w1 == w1
                &&& rz.h1 == h1
                &&& rz.w2 == w2
                &&& rz.h2 == h2
                &&& rz.coeffs_w == coeffs_w
                &&& rz.coeffs_h == coeffs_h
            },
    {
        if w1 < 1 || w1 > MAX_DIM || h1 < 1 || h1 > MAX_DIM || w2 < 1 || w2 > MAX_DIM || h2 < 1
            || h2 > MAX_DIM {
            return None;
        }
        if !check_table(&coeffs_w, w1, w2) || !check_table(&coeffs_h, h1, h2) {
            return None;
        }
        proof {
            assert(w1 as int * h2 as int <= 65535 * 65535) by (nonlinear_arith)
                requires
                    1 <= w1 <= 65535,
                    1 <= h2 <= 65535,
            ;
        }
        let tmp: Vec<u8> = vec![0u8; w1 * h2];
        Some(Resizer { w1, h1, w2, h2, tmp, coeffs_w, coeffs_h })
    }

    /// Vertical pass: resamples the `w1 x h1` source into the column-major
    /// `w1 x h2` intermediate buffer.
    #[verifier::loop_isolation(false)]
    pub fn sample_rows(&mut self, src: &[u8])
        requires
            old(self).wf(),
            src@.len() == old(self).w1 * old(self).h1,
        ensures
            final(self).w1 == old(self).w1,
            final(self).h1 == old(self).h1,
            final(self).w2 == old(self).w2,
            final(self).h2 == old(self).h2,
            final(self).coeffs_w == old(self).coeffs_w,
            final(self).coeffs_h == old(self).coeffs_h,
            final(self).wf(),
            final(self).tmp@ == vertical_pass(
                src@,
                old(self).w1 as int,
                old(self).h2 as int,
                old(self).coeffs_h@,
            ),
    {
        let w1 = self.w1;
        let h1 = self.h1;
        let h2 = self.h2;
        let mut offset: usize = 0;
        let mut x1: usize = 0;
        while x1 < w1
            invariant
                self.w1 == old(self).w1,
                self.h1 == old(self).h1,
                self.w2 == old(self).w2,
                self.h2 == old(self).h2,
                self.coeffs_w == old(self).coeffs_w,
                self.coeffs_h == old(self).coeffs_h,
                self.wf(),
                x1 <= w1,
                offset == x1 * h2,
                forall|k: int|
                    0 <= k < offset ==> #[trigger] self.tmp@[k] == vertical_sample(
                        src@,
                        w1 as int,
                        self.coeffs_h@[k % (h2 as int)],
                        k / (h2 as int),
                    ),
            decreases w1 - x1,
        {
            let mut y2: usize = 0;
            while y2 < h2
                invariant
                    self.w1 == old(self).w1,
                    self.h1 == old(self).h1,
                    self.w2 == old(self).w2,
                    self.h2 == old(self).h2,
                    self.coeffs_w == old(self).coeffs_w,
                    self.coeffs_h == old(self).coeffs_h,
                    self.wf(),
                    y2 <= h2,
                    offset == x1 * h2 + y2,
                    forall|k: int|
                        0 <= k < offset ==> #[trigger] self.tmp@[k] == vertical_sample(
                            src@,
                            w1 as int,
                            self.coeffs_h@[k % (h2 as int)],
                            k / (h2 as int),
                        ),
                decreases h2 - y2,
            {
                let line = &self.coeffs_h[y2];
                let n = line.data.len();
                proof {
                    assert(line_ok(self.coeffs_h@[y2 as int], h1 as int));
                    assert(n <= 65535);
                }
                let ghost taps = column_taps(src@, w1 as int, x1 as int, line.left as int, n as nat);
                let mut accum: i64 = 0;
                let mut i: usize = 0;
                while i < n
                    invariant
                        i <= n,
                        accum == dot(taps.take(i as int), line.data@.take(i as int)),
                        -(i as int) * (0x8000_0000i64 * 255) <= accum <= (i as int) * (
                        0x8000_0000i64 * 255),
                    decreases n - i,
                {
                    proof {
                        assert(line.left + i < h1);
                        assert((line.left + i) * w1 + x1 < h1 * w1 && (line.left + i) * w1 + x1
                            < 4294836225) by (nonlinear_arith)
                            requires
                                line.left + i < h1,
                                x1 < w1,
                                h1 <= 65535,
                                w1 <= 65535,
                        ;
                        assert(h1 * w1 == w1 * h1) by (nonlinear_arith);
                        lemma_dot_take_step(taps, line.data@, i as int);
                    }
                    let p = src[(line.left + i) * w1 + x1];
                    proof {
                        assert(-(0x8000_0000i64 * 255) <= (p as int) * (line.data@[i as int] as int)
                            <= 0x8000_0000i64 * 255) by (nonlinear_arith)
                            requires
                                0 <= p <= 255,
                                -0x8000_0000 <= line.data@[i as int] <= 0x7fff_ffff,
                        ;
                    }
                    accum = accum + (p as i64) * (line.data[i] as i64);
                    i = i + 1;
                }
                proof {
                    assert(taps.take(n as int) =~= taps);
                    assert(line.data@.take(n as int) =~= line.data@);
                    assert(offset < self.tmp@.len() && offset < 4294836225) by {
                        assert(x1 * h2 + y2 < w1 * h2 && x1 * h2 + y2 < 4294836225)
                            by (nonlinear_arith)
                            requires
                                x1 < w1,
                                y2 < h2,
                                w1 <= 65535,
                                h2 <= 65535,
                        ;
                    }
                }
                let v = pack_u8(accum);
                self.tmp.set(offset, v);
                proof {
                    lemma_fundamental_div_mod_converse_div(
                        offset as int,
                        h2 as int,
                        x1 as int,
                        y2 as int,
                    );
                    lemma_fundamental_div_mod_converse_mod(
                        offset as int,
                        h2 as int,
                        x1 as int,
                        y2 as int,
                    );
                    assert(self.tmp@[offset as int] == vertical_sample(
                        src@,
                        w1 as int,
                        self.coeffs_h@[offset as int % (h2 as int)],
                        offset as int / (h2 as int),
                    ));
                }
                offset = offset + 1;
                y2 = y2 + 1;
            }
            x1 = x1 + 1;
            proof {
                assert(offset == x1 * h2) by (nonlinear_arith)
                    requires
                        offset == (x1 - 1) * h2 + h2,
                ;
            }
        }
        proof {
            assert(offset == w1 * h2);
            assert(self.tmp@ =~= vertical_pass(src@, w1 as int, h2 as int, self.coeffs_h@));
        }
    }

    /// Horizontal pass: resamples the column-major intermediate buffer into
    /// the row-major `w2 x h2` destination.
    #[verifier::loop_isolation(false)]
    pub fn sample_cols(&self, dst: &mut Vec<u8>)
        requires
            self.wf(),
            old(dst)@.len() == self.w2 * self.h2,
        ensures
            final(dst)@.len() == old(dst)@.len(),
            final(dst)@ == horizontal_pass(
                self.tmp@,
                self.w2 as int,
                self.h2 as int,
                self.coeffs_w@,
            ),
    {
        let w1 = self.w1;
        let w2 = self.w2;
        let h2 = self.h2;
        let mut offset: usize = 0;
        let mut y2: usize = 0;
        while y2 < h2
            invariant
                y2 <= h2,
                offset == y2 * w2,
                dst@.len() == w2 * h2,
                forall|k: int|
                    0 <= k < offset ==> #[trigger] dst@[k] == horizontal_sample(
                        self.tmp@,
                        h2 as int,
                        self.coeffs_w@[k % (w2 as int)],
                        k / (w2 as int),
                    ),
            decreases h2 - y2,
        {
            let mut x2: usize = 0;
            while x2 < w2
                invariant
                    x2 <= w2,
                    offset == y2 * w2 + x2,
                    dst@.len() == w2 * h2,
                    forall|k: int|
                        0 <= k < offset ==> #[trigger] dst@[k] == horizontal_sample(
                            self.tmp@,
                            h2 as int,
                            self.coeffs_w@[k % (w2 as int)],
                            k / (w2 as int),
                        ),
                decreases w2 - x2,
            {
                let line = &self.coeffs_w[x2];
                let n = line.data.len();
                proof {
                    assert(line_ok(self.coeffs_w@[x2 as int], w1 as int));
                    assert(n <= 65535);
                }
                let ghost taps = row_taps(self.tmp@, h2 as int, y2 as int, line.left as int, n as nat);
                let mut accum: i64 = 0;
                let mut i: usize = 0;
                while i < n
                    invariant
                        i <= n,
                        accum == dot(taps.take(i as int), line.data@.take(i as int)),
                        -(i as int) * (0x8000_0000i64 * 255) <= accum <= (i as int) * (
                        0x8000_0000i64 * 255),
                    decreases n - i,
                {
                    proof {
                        assert(line.left + i < w1);
                        assert((line.left + i) * h2 + y2 < w1 * h2 && (line.left + i) * h2 + y2
                            < 4294836225) by (nonlinear_arith)
                            requires
                                line.left + i < w1,
                                y2 < h2,
                                w1 <= 65535,
                                h2 <= 65535,
                        ;
                        lemma_dot_take_step(taps, line.data@, i as int);
                    }
                    let p = self.tmp[(line.left + i) * h2 + y2];
                    proof {
                        assert(-(0x8000_0000i64 * 255) <= (p as int) * (line.data@[i as int] as int)
                            <= 0x8000_0000i64 * 255) by (nonlinear_arith)
                            requires
                                0 <= p <= 255,
                                -0x8000_0000 <= line.data@[i as int] <= 0x7fff_ffff,
                        ;
                    }
                    accum = accum + (p as i64) * (line.data[i] as i64);
                    i = i + 1;
                }
                proof {
                    assert(taps.take(n as int) =~= taps);
                    assert(line.data@.take(n as int) =~= line.data@);
                    assert(offset < dst@.len() && offset < 4294836225) by {
                        assert(y2 * w2 + x2 < h2 * w2 && y2 * w2 + x2 < 4294836225)
                            by (nonlinear_arith)
                            requires
                                x2 < w2,
                                y2 < h2,
                                w2 <= 65535,
                                h2 <= 65535,
                        ;
                        assert(h2 * w2 == w2 * h2) by (nonlinear_arith);
                    }
                }
                let v = pack_u8(accum);
                dst.set(offset, v);
                proof {
                    lemma_fundamental_div_mod_converse_div(
                        offset as int,
                        w2 as int,
                        y2 as int,
                        x2 as int,
                    );
                    lemma_fundamental_div_mod_converse_mod(
                        offset as int,
                        w2 as int,
                        y2 as int,
                        x2 as int,
                    );
                }
                offset = offset + 1;
                x2 = x2 + 1;
            }
            y2 = y2 + 1;
            proof {
                assert(offset == y2 * w2) by (nonlinear_arith)
                    requires
                        offset == (y2 - 1) * w2 + w2,
                ;
            }
        }
        proof {
            assert(offset == h2 * w2);
            assert(h2 * w2 == w2 * h2) by (nonlinear_arith);
            assert(dst@ =~= horizontal_pass(self.tmp@, w2 as int, h2 as int, self.coeffs_w@));
        }
    }

    /// Resamples one full frame: the `w1 x h1` source into the `w2 x h2`
    /// destination, reusing the preallocated intermediate buffer.
    pub fn run(&mut self, src: &[u8], dst: &mut Vec<u8>)
        requires
            old(self).wf(),
            src@.len() == old(self).w1 * old(self).h1,
            old(dst)@.len() == old(self).w2 * old(self).h2,
        ensures
            final(self).w1 == old(self).w1,
            final(self).h1 == old(self).h1,
            final(self).w2 == old(self).w2,
            final(self).h2 == old(self).h2,
            final(self).coeffs_w == old(self).coeffs_w,
            final(self).coeffs_h == old(self).coeffs_h,
            final(self).wf(),
            final(dst)@.len() == old(dst)@.len(),
            final(dst)@ == resample(
                src@,
                old(self).w1 as int,
                old(self).w2 as int,
                old(self).h2 as int,
                old(self).coeffs_w@,
                old(self).coeffs_h@,
            ),
    {
        self.sample_rows(src);
        self.sample_cols(dst);
    }
}

proof fn lemma_dot_constant(s: Seq<int>, w: Seq<i32>, c: int)
    requires
        s.len() == w.len(),
        forall|i: int| 0 <= i < s.len() ==> s[i] == c,
    ensures
        dot(s, w) == c * sum_w(w),
    decreases w.len(),
{
    if w.len() == 0 {
        assert(c * 0 == 0) by (nonlinear_arith);
    } else {
        lemma_dot_constant(s.drop_last(), w.drop_last(), c);
        assert(s.last() == c);
        assert(c * (sum_w(w.drop_last()) + w.last()) == c * sum_w(w.drop_last()) + c * w.last())
            by (nonlinear_arith);
    }
}

/// Decomposes a nonnegative index into its quotient and remainder by a
/// positive divisor.
proof fn lemma_index_decompose(k: int, d: int)
    requires
        0 <= k,
        0 < d,
    ensures
        0 <= k % d < d,
        0 <= k / d,
        k == (k / d) * d + (k % d),
{
    lemma_mod_division_less_than_divisor(k, d);
    lemma_div_pos_is_pos(k, d);
    lemma_fundamental_div_mod(k, d);
    assert(d * (k / d) == (k / d) * d) by (nonlinear_arith);
}

/// Packing a sample scaled by exactly 1.0 in fixed point returns the sample.
proof fn lemma_pack_scaled(v: u8)
    ensures
        pack_fixed(v as int * 65536) == v,
{
    lemma_fundamental_div_mod_converse_div(v as int * 65536 + 32768, 65536, v as int, 32768);
}

/// Resampler identity law: when every tap line is the single unit-weight tap
/// at its own destination index, resampling an `n_w x n_h` image to its own
/// size reproduces the source exactly.
pub proof fn lemma_identity_resample(
    src: Seq<u8>,
    n_w: int,
    n_h: int,
    cw: Seq<CoeffsLine>,
    ch: Seq<CoeffsLine>,
)
    requires
        1 <= n_w <= MAX_DIM,
        1 <= n_h <= MAX_DIM,
        src.len() == n_w * n_h,
        cw.len() == n_w,
        ch.len() == n_h,
        forall|i: int| 0 <= i < n_w ==> (#[trigger] cw[i]).left == i && cw[i].data@ == seq![FP_ONE],
        forall|i: int| 0 <= i < n_h ==> (#[trigger] ch[i]).left == i && ch[i].data@ == seq![FP_ONE],
    ensures
        resample(src, n_w, n_w, n_h, cw, ch) == src,
{
    let tmp = vertical_pass(src, n_w, n_h, ch);
    assert(0 <= n_w * n_h) by (nonlinear_arith)
        requires
            0 <= n_w && 0 <= n_h,
    ;
    assert forall|k: int| 0 <= k < n_w * n_h implies tmp[k] == src[(k % n_h) * n_w + k / n_h] by {
        let x1 = k / n_h;
        let y2 = k % n_h;
        lemma_index_decompose(k, n_h);
        assert(k < n_h * n_w) by (nonlinear_arith)
            requires
                k < n_w * n_h,
        ;
        lemma_multiply_divide_lt(k, n_h, n_w);
        let line = ch[y2];
        assert(line.left == y2 && line.data@ == seq![FP_ONE]);
        let taps = column_taps(src, n_w, x1, y2, 1);
        assert(0 <= (y2 + 0) * n_w + x1 < n_h * n_w) by (nonlinear_arith)
            requires
                0 <= y2 < n_h && 0 <= x1 < n_w,
        ;
        assert(n_h * n_w == n_w * n_h) by (nonlinear_arith);
        assert(taps[0] == src[(y2 + 0) * n_w + x1] as int);
        assert(taps.drop_last().len() == 0 && taps.last() == taps[0]);
        assert(dot(taps, line.data@) == taps[0] * 65536) by {
            assert(line.data@.last() == FP_ONE && line.data@.drop_last().len() == 0);
            assert(dot(taps.drop_last(), line.data@.drop_last()) == 0);
            assert(taps.last() == taps[0]);
        }
        lemma_pack_scaled(src[(y2 + 0) * n_w + x1]);
        assert((y2 + 0) * n_w + x1 == y2 * n_w + x1) by (nonlinear_arith);
        assert(tmp[k] == vertical_sample(src, n_w, ch[y2], x1));
    }
    let out = horizontal_pass(tmp, n_w, n_h, cw);
    assert forall|k: int| 0 <= k < n_w * n_h implies out[k] == src[k] by {
        let x2 = k % n_w;
        let y2 = k / n_w;
        lemma_index_decompose(k, n_w);
        assert(k < n_w * n_h);
        lemma_multiply_divide_lt(k, n_w, n_h);
        let line = cw[x2];
        assert(line.left == x2 && line.data@ == seq![FP_ONE]);
        let taps = row_taps(tmp, n_h, y2, x2, 1);
        let j = (x2 + 0) * n_h + y2;
        assert(0 <= j < n_w * n_h) by (nonlinear_arith)
            requires
                j == (x2 + 0) * n_h + y2 && 0 <= x2 < n_w && 0 <= y2 < n_h,
        ;
        assert(taps[0] == tmp[j] as int);
        lemma_fundamental_div_mod_converse_div(j, n_h, x2, y2);
        lemma_fundamental_div_mod_converse_mod(j, n_h, x2, y2);
        assert(tmp[j] == src[(j % n_h) * n_w + j / n_h]);
        assert((j % n_h) * n_w + j / n_h == y2 * n_w + x2);
        assert(y2 * n_w + x2 == k);
        assert(taps.drop_last().len() == 0 && taps.last() == taps[0]);
        assert(dot(taps, line.data@) == taps[0] * 65536) by {
            assert(line.data@.last() == FP_ONE && line.data@.drop_last().len() == 0);
            assert(dot(taps.drop_last(), line.data@.drop_last()) == 0);
            assert(taps.last() == taps[0]);
        }
        lemma_pack_scaled(src[k]);
        assert(out[k] == horizontal_sample(tmp, n_h, cw[x2], y2));
    }
    assert(out =~= src);
}

/// Resampler flat-field law: because every weight vector sums to exactly 1.0,
/// resampling a uniform image of value `v` under any valid coefficient tables
/// yields a uniform image of value `v`, with no rounding drift.
pub proof fn lemma_constant_resample(
    src: Seq<u8>,
    v: u8,
    w1: int,
    h1: int,
    w2: int,
    h2: int,
    cw: Seq<CoeffsLine>,
    ch: Seq<CoeffsLine>,
)
    requires
        1 <= w1 <= MAX_DIM,
        1 <= h1 <= MAX_DIM,
        1 <= w2 <= MAX_DIM,
        1 <= h2 <= MAX_DIM,
        src.len() == w1 * h1,
        coeffs_ok(cw, w1, w2),
        coeffs_ok(ch, h1, h2),
        forall|k: int| 0 <= k < src.len() ==> src[k] == v,
    ensures
        resample(src, w1, w2, h2, cw, ch).len() == w2 * h2,
        forall|k: int| 0 <= k < w2 * h2 ==> resample(src, w1, w2, h2, cw, ch)[k] == v,
{
    let tmp = vertical_pass(src, w1, h2, ch);
    assert(0 <= w1 * h2 && 0 <= w2 * h2) by (nonlinear_arith)
        requires
            0 <= w1 && 0 <= h2 && 0 <= w2,
    ;
    assert forall|k: int| 0 <= k < w1 * h2 implies tmp[k] == v by {
        let x1 = k / h2;
        let y2 = k % h2;
        lemma_index_decompose(k, h2);
        assert(k < h2 * w1) by (nonlinear_arith)
            requires
                k < w1 * h2,
        ;
        lemma_multiply_divide_lt(k, h2, w1);
        let line = ch[y2];
        assert(line_ok(line, h1));
        let n = line.data@.len();
        let taps = column_taps(src, w1, x1, line.left as int, n);
        assert forall|i: int| 0 <= i < n implies taps[i] == v as int by {
            assert(0 <= (line.left + i) * w1 + x1 < h1 * w1) by (nonlinear_arith)
                requires
                    0 <= line.left + i < h1 && 0 <= x1 < w1,
            ;
            assert(h1 * w1 == w1 * h1) by (nonlinear_arith);
        }
        lemma_dot_constant(taps, line.data@, v as int);
        assert(v as int * sum_w(line.data@) == v as int * 65536);
        lemma_pack_scaled(v);
        assert(tmp[k] == vertical_sample(src, w1, ch[y2], x1));
    }
    let out = horizontal_pass(tmp, w2, h2, cw);
    assert forall|k: int| 0 <= k < w2 * h2 implies out[k] == v by {
        let x2 = k % w2;
        let y2 = k / w2;
        lemma_index_decompose(k, w2);
        assert(k < w2 * h2);
        lemma_multiply_divide_lt(k, w2, h2);
        let line = cw[x2];
        assert(line_ok(line, w1));
        let n = line.data@.len();
        let taps = row_taps(tmp, h2, y2, line.left as int, n);
        assert forall|i: int| 0 <= i < n implies taps[i] == v as int by {
            assert(0 <= (line.left + i) * h2 + y2 < w1 * h2) by (nonlinear_arith)
                requires
                    0 <= line.left + i < w1 && 0 <= y2 < h2,
            ;
        }
        lemma_dot_constant(taps, line.data@, v as int);
        assert(v as int * sum_w(line.data@) == v as int * 65536);
        lemma_pack_scaled(v);
        assert(out[k] == horizontal_sample(tmp, h2, cw[x2], y2));
    }
}

} // verus!
