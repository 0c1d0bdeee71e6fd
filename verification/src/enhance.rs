//! The integer stages of smart document enhancement: shadow removal by
//! division normalization, contrast stretching, percentiles, morphology,
//! speckle removal, binarization, the projection score used for deskewing,
//! and the document heuristic.

use vstd::prelude::*;

use crate::raster::Raster;
use crate::text::{chars_of, push_str};

verus! {

broadcast use vstd::seq_lib::group_seq_properties;

/// Output style of the enhancement.
#[derive(Debug, Clone, Copy, PartialEq, Eq, Structural)]
pub enum EnhanceMode {
    /// Enhanced color: white paper, darker text, colors kept.
    Color,
    /// Enhanced grayscale.
    Gray,
    /// Pure black and white document (adaptive binarization).
    Bw,
}

/// The mode a name selects: "color", "gray" or "bw".
pub open spec fn mode_of_name(name: Seq<char>) -> Option<EnhanceMode> {
    if name == "color"@ {
        Some(EnhanceMode::Color)
    } else if name == "gray"@ {
        Some(EnhanceMode::Gray)
    } else if name == "bw"@ {
        Some(EnhanceMode::Bw)
    } else {
        None
    }
}

fn str_eq(a: &str, b: &str) -> (res: bool)
    ensures
        res == (a@ == b@),
{
    let x = chars_of(a);
    let y = chars_of(b);
    if x.len() != y.len() {
        assert(a@.len() != b@.len());
        return false;
    }
    let n = x.len();
    for i in 0..n
        invariant
            n == x@.len() == y@.len(),
            x@ == a@,
            y@ == b@,
            forall|j: int| 0 <= j < i ==> x@[j] == y@[j],
    {
        if x[i] != y[i] {
            assert(x@[i as int] != y@[i as int]);
            assert(a@ != b@);
            return false;
        }
    }
    assert(x@ =~= y@);
    true
}

/// Reads an enhancement mode name; other names are refused with
/// "未知模式 <name>".
pub fn parse_mode(mode: &str) -> (res: Result<EnhanceMode, String>)
    ensures
        res matches Ok(m) ==> mode_of_name(mode@) == Some(m),
        res matches Err(e) ==> mode_of_name(mode@) is None && e@ == "未知模式 "@ + mode@,
{
    if str_eq(mode, "color") {
        Ok(EnhanceMode::Color)
    } else if str_eq(mode, "gray") {
        Ok(EnhanceMode::Gray)
    } else if str_eq(mode, "bw") {
        Ok(EnhanceMode::Bw)
    } else {
        let mut e = String::new();
        push_str(&mut e, "未知模式 ");
        push_str(&mut e, mode);
        Err(e)
    }
}

// ================================================================== gray planes

/// A single-channel 8-bit image, row-major.
#[derive(Debug, Clone)]
pub struct Gray {
    pub width: u32,
    pub height: u32,
    pub data: Vec<u8>,
}

impl Gray {
    /// The data holds `width * height` samples.
    pub open spec fn wf(&self) -> bool {
        self.data@.len() == self.width * self.height
    }

    /// The sample at column `x`, row `y`.
    pub open spec fn at(&self, x: int, y: int) -> u8 {
        self.data@[y * self.width + x]
    }
}

/// `y * w + x` lies inside a `w` x `h` image.
pub proof fn lemma_index(x: int, y: int, w: int, h: int)
    requires
        0 <= x < w,
        0 <= y < h,
    ensures
        0 <= y * w + x < w * h,
        y * w + x + 1 <= w * h,
{
    assert(y * w + x < w * h) by (nonlinear_arith)
        requires
            0 <= x < w,
            0 <= y < h,
    ;
    assert(0 <= y * w) by (nonlinear_arith)
        requires
            0 <= y,
            0 <= w,
    ;
}

/// White point of the contrast stretch: everything from here up is white.
pub open spec fn white_point() -> int {
    235
}

/// Entry `i` of the contrast-stretch table for dark point `lo`: `(i - lo) *
/// 255 / (235 - lo)` rounded to the nearest integer (halves up) and clamped
/// to 0..=255, with `lo` capped at 120.
pub open spec fn stretch_value(lo: u8, i: int) -> u8 {
    let l: int = if lo > 120 { 120 } else { lo as int };
    let b = white_point() - l;
    if i <= l {
        0
    } else {
        let v = (2 * (i - l) * 255 + b) / (2 * b);
        if v > 255 {
            255
        } else {
            v as u8
        }
    }
}

/// The contrast-stretch table: dark values (text) pushed to black, values
/// from the white point up clamped to white.
pub fn stretch_lut(lo: u8) -> (res: Vec<u8>)
    ensures
        res@.len() == 256,
        forall|i: int| 0 <= i < 256 ==> #[trigger] res@[i] == stretch_value(lo, i),
{
    let l: u32 = if lo > 120 { 120 } else { lo as u32 };
    let b: u32 = 235 - l;
    let mut lut: Vec<u8> = Vec::new();
    for i in 0..256u32
        invariant
            l == (if lo > 120 { 120 } else { lo as int }),
            b == 235 - l,
            lut@.len() == i,
            forall|j: int| 0 <= j < i ==> #[trigger] lut@[j] == stretch_value(lo, j),
    {
        let e: u8 = if i <= l {
            0
        } else {
            let v = (2 * (i - l) * 255 + b) / (2 * b);
            if v > 255 {
                255
            } else {
                v as u8
            }
        };
        lut.push(e);
    }
    lut
}

/// The stretch table is non-decreasing, black up to the dark point and white
/// from the white point.
pub proof fn law_stretch_lut_shape(lo: u8, i: int, j: int)
    requires
        0 <= i <= j < 256,
    ensures
        stretch_value(lo, i) <= stretch_value(lo, j),
        i <= (if lo > 120 { 120 } else { lo as int }) ==> stretch_value(lo, i) == 0,
        j >= white_point() ==> stretch_value(lo, j) == 255,
{
    let l: int = if lo > 120 { 120 } else { lo as int };
    let b = white_point() - l;
    if i > l {
        let vi = (2 * (i - l) * 255 + b) / (2 * b);
        let vj = (2 * (j - l) * 255 + b) / (2 * b);
        assert(vi <= vj) by (nonlinear_arith)
            requires
                i <= j,
                b > 0,
                vi == (2 * (i - l) * 255 + b) / (2 * b),
                vj == (2 * (j - l) * 255 + b) / (2 * b),
        ;
    }
    if j >= white_point() {
        let vj = (2 * (j - l) * 255 + b) / (2 * b);
        assert(vj >= 255) by (nonlinear_arith)
            requires
                j >= 235,
                b == 235 - l,
                0 <= l <= 120,
                vj == (2 * (j - l) * 255 + b) / (2 * b),
        ;
    }
}

/// Maps every sample through a 256-entry table.
pub fn apply_lut(img: &Gray, lut: &Vec<u8>) -> (res: Gray)
    requires
        img.wf(),
        lut@.len() == 256,
    ensures
        res.wf(),
        res.width == img.width,
        res.height == img.height,
        forall|k: int| 0 <= k < img.data@.len() ==> #[trigger] res.data@[k] == lut@[img.data@[k] as int],
{
    let mut out: Vec<u8> = Vec::new();
    for k in 0..img.data.len()
        invariant
            lut@.len() == 256,
            out@.len() == k,
            forall|j: int| 0 <= j < k ==> #[trigger] out@[j] == lut@[img.data@[j] as int],
    {
        out.push(lut[img.data[k] as usize]);
    }
    Gray { width: img.width, height: img.height, data: out }
}

/// Division normalization of one sample: `s * 255 / max(b, 1)` rounded to
/// the nearest integer (halves up), at most 255.
pub open spec fn normalized(s: u8, b: u8) -> u8 {
    let d: int = if b == 0 { 1 } else { b as int };
    let v = (510 * s + d) / (2 * d);
    if v > 255 {
        255
    } else {
        v as u8
    }
}

/// Divides every sample by the background estimate at the same place, so
/// that shadows and uneven light flatten out and the paper turns white.
pub fn divide_normalize(channel: &Gray, bg: &Gray) -> (res: Gray)
    requires
        channel.wf(),
        bg.wf(),
        bg.width == channel.width,
        bg.height == channel.height,
    ensures
        res.wf(),
        res.width == channel.width,
        res.height == channel.height,
        forall|k: int|
            0 <= k < channel.data@.len() ==> #[trigger] res.data@[k] == normalized(
                channel.data@[k],
                bg.data@[k],
            ),
{
    let mut out: Vec<u8> = Vec::new();
    let n = channel.data.len();
    for k in 0..n
        invariant
            n == channel.data@.len() == bg.data@.len(),
            out@.len() == k,
            forall|j: int| 0 <= j < k ==> #[trigger] out@[j] == normalized(channel.data@[j], bg.data@[j]),
    {
        let s = channel.data[k] as u32;
        let b = bg.data[k] as u32;
        let d: u32 = if b == 0 { 1 } else { b };
        let v = (510 * s + d) / (2 * d);
        out.push(if v > 255 { 255 } else { v as u8 });
    }
    Gray { width: channel.width, height: channel.height, data: out }
}

/// Normalization turns every non-black sample at least as bright as its
/// background estimate white: the paper becomes white whatever its shade.
pub proof fn law_normalized_whitens_background(s: u8, b: u8)
    ensures
        s >= b && s > 0 ==> normalized(s, b) == 255,
{
    let d: int = if b == 0 { 1 } else { b as int };
    if s >= b && s > 0 {
        assert(s >= d);
        assert((510 * s + d) / (2 * d) >= 255) by (nonlinear_arith)
            requires
                s >= d,
                d >= 1,
        ;
    }
}

/// Splits samples at a threshold: below it black (0), otherwise white (255).
pub fn binarize(img: &Gray, thr: u8) -> (res: Gray)
    requires
        img.wf(),
    ensures
        res.wf(),
        res.width == img.width,
        res.height == img.height,
        forall|k: int|
            0 <= k < img.data@.len() ==> #[trigger] res.data@[k] == if img.data@[k] < thr {
                0u8
            } else {
                255u8
            },
{
    let mut out: Vec<u8> = Vec::new();
    for k in 0..img.data.len()
        invariant
            out@.len() == k,
            forall|j: int|
                0 <= j < k ==> #[trigger] out@[j] == if img.data@[j] < thr {
                    0u8
                } else {
                    255u8
                },
    {
        out.push(if img.data[k] < thr { 0 } else { 255 });
    }
    Gray { width: img.width, height: img.height, data: out }
}

/// The sample at column `x`, row `y`.
pub fn get(img: &Gray, x: u32, y: u32) -> (res: u8)
    requires
        img.wf(),
        x < img.width,
        y < img.height,
    ensures
        res == img.at(x as int, y as int),
{
    proof {
        lemma_index(x as int, y as int, img.width as int, img.height as int);
    }
    let len = img.data.len();
    assert((y as int) * (img.width as int) + (x as int) < len);
    assert(0 <= (y as int) * (img.width as int));
    img.data[(y as usize) * (img.width as usize) + (x as usize)]
}

/// Pushing row after row, pixel after pixel, puts pixel `(x, y)` at index
/// `y * w + x`.
proof fn lemma_row_major_step(x: int, y: int, w: int)
    requires
        0 <= x < w,
        0 <= y,
    ensures
        y * w + x + 1 == (if x + 1 == w { (y + 1) * w } else { y * w + (x + 1) }),
{
    assert((y + 1) * w == y * w + w) by (nonlinear_arith);
}

// ------------------------------------------------------------------ percentile

/// Number of samples of `s` that are at most `v`.
pub open spec fn count_le(s: Seq<u8>, v: int) -> nat
    decreases s.len(),
{
    if s.len() == 0 {
        0
    } else {
        count_le(s.drop_last(), v) + if s.last() <= v {
            1nat
        } else {
            0nat
        }
    }
}

/// Number of samples of `s` equal to `v`.
pub open spec fn count_eq(s: Seq<u8>, v: int) -> nat
    decreases s.len(),
{
    if s.len() == 0 {
        0
    } else {
        count_eq(s.drop_last(), v) + if s.last() == v {
            1nat
        } else {
            0nat
        }
    }
}

proof fn lemma_count_le_step(s: Seq<u8>, v: int)
    ensures
        v >= 1 ==> count_le(s, v) == count_le(s, v - 1) + count_eq(s, v),
        count_le(s, 0) == count_eq(s, 0),
        count_le(s, 255) == s.len(),
    decreases s.len(),
{
    if s.len() > 0 {
        lemma_count_le_step(s.drop_last(), v);
    }
}

/// The `pct` percentile of the samples: the smallest value `v` such that at
/// least `len * pct / 100` samples are at most `v`.
pub fn percentile(img: &Gray, pct: u8) -> (res: u8)
    requires
        pct <= 100,
    ensures
        count_le(img.data@, res as int) >= img.data@.len() * (pct as int) / 100,
        forall|u: int| 0 <= u < res ==> count_le(img.data@, u) < img.data@.len() * (pct as int) / 100,
{
    let ghost s = img.data@;
    let n = img.data.len();
    let mut hist: Vec<usize> = Vec::new();
    for v in 0..256usize
        invariant
            hist@.len() == v,
            forall|u: int| 0 <= u < v ==> #[trigger] hist@[u] == 0,
    {
        hist.push(0);
    }
    for k in 0..n
        invariant
            n == s.len(),
            s == img.data@,
            hist@.len() == 256,
            forall|u: int| 0 <= u < 256 ==> #[trigger] hist@[u] == count_eq(s.take(k as int), u),
            forall|u: int| 0 <= u < 256 ==> #[trigger] hist@[u] <= k,
    {
        proof {
            assert(s.take(k + 1).drop_last() == s.take(k as int));
        }
        let p = img.data[k] as usize;
        let c = hist[p];
        hist.set(p, c + 1);
    }
    assert(s.take(n as int) == s);
    assert((n as int) * (pct as int) <= 100 * 0x1_0000_0000_0000_0000) by (nonlinear_arith)
        requires
            n <= usize::MAX,
            usize::MAX < 0x1_0000_0000_0000_0000,
            pct <= 100,
    ;
    let target: u128 = (n as u128) * (pct as u128) / 100;
    let mut acc: usize = 0;
    let mut v: usize = 0;
    while v < 256
        invariant
            hist@.len() == 256,
            forall|u: int| 0 <= u < 256 ==> #[trigger] hist@[u] == count_eq(s, u),
            s == img.data@,
            n == s.len(),
            target == n * (pct as int) / 100,
            v <= 256,
            v == 0 ==> acc == 0,
            v > 0 ==> acc == count_le(s, v - 1),
            forall|u: int| 0 <= u < v ==> count_le(s, u) < target,
        decreases 256 - v,
    {
        proof {
            lemma_count_le_step(s, v as int);
            lemma_count_le_step(s, 255);
            if v > 0 {
                assert(count_le(s, v as int) <= n) by {
                    lemma_count_le_monotone(s, v as int, 255);
                }
            }
        }
        acc = acc + hist[v];
        if acc as u128 >= target {
            return v as u8;
        }
        v += 1;
    }
    proof {
        lemma_count_le_step(s, 255);
        assert(count_le(s, 255) == n);
        assert(n >= n * (pct as int) / 100) by (nonlinear_arith)
            requires
                pct <= 100,
                n >= 0,
        ;
    }
    255
}

proof fn lemma_count_le_monotone(s: Seq<u8>, a: int, b: int)
    requires
        a <= b,
    ensures
        count_le(s, a) <= count_le(s, b),
    decreases s.len(),
{
    if s.len() > 0 {
        lemma_count_le_monotone(s.drop_last(), a, b);
    }
}

// ------------------------------------------------------------------ summed-area tables

/// A sample, or its square.
pub open spec fn term(v: u8, squared: bool) -> int {
    if squared {
        v * v
    } else {
        v as int
    }
}

/// The largest value of [`term`].
pub open spec fn term_max(squared: bool) -> int {
    if squared {
        65025
    } else {
        255
    }
}

/// Sum of the terms of row `y` over columns `0..x`.
pub open spec fn row_prefix(img: Gray, y: int, x: int, squared: bool) -> int
    decreases x,
{
    if x <= 0 {
        0
    } else {
        row_prefix(img, y, x - 1, squared) + term(img.at(x - 1, y), squared)
    }
}

/// Sum of the terms over columns `0..x` and rows `0..y`.
pub open spec fn rect_sum(img: Gray, x: int, y: int, squared: bool) -> int
    decreases y,
{
    if y <= 0 {
        0
    } else {
        rect_sum(img, x, y - 1, squared) + row_prefix(img, y - 1, x, squared)
    }
}

/// Entry `(x, y)` of a table laid out row after row, `stride` entries a row.
pub open spec fn cell(t: Seq<u64>, stride: int, x: int, y: int) -> u64 {
    t[y * stride + x]
}

proof fn lemma_term_bound(v: u8, squared: bool)
    ensures
        0 <= term(v, squared) <= term_max(squared),
{
    assert(0 <= v * v <= 65025) by (nonlinear_arith)
        requires
            0 <= v <= 255,
    ;
}

proof fn lemma_row_prefix_bound(img: Gray, y: int, x: int, squared: bool)
    requires
        0 <= x,
    ensures
        0 <= row_prefix(img, y, x, squared) <= term_max(squared) * x,
    decreases x,
{
    if x > 0 {
        lemma_row_prefix_bound(img, y, x - 1, squared);
        lemma_term_bound(img.at(x - 1, y), squared);
        let m = term_max(squared);
        assert(m * (x - 1) + m == m * x) by (nonlinear_arith);
    }
}

proof fn lemma_rect_sum_bound(img: Gray, x: int, y: int, squared: bool)
    requires
        0 <= x,
        0 <= y,
    ensures
        0 <= rect_sum(img, x, y, squared) <= term_max(squared) * x * y,
    decreases y,
{
    if y > 0 {
        lemma_rect_sum_bound(img, x, y - 1, squared);
        lemma_row_prefix_bound(img, y - 1, x, squared);
        let m = term_max(squared);
        assert(m * x * (y - 1) + m * x == m * x * y) by (nonlinear_arith);
    }
}

proof fn lemma_scaled_area(m: int, x: int, y: int, w: int, h: int)
    requires
        0 <= m <= 65025,
        0 <= x <= w,
        0 <= y <= h,
    ensures
        m * x * y <= 65025 * w * h,
{
    assert(0 <= x * y <= w * h) by (nonlinear_arith)
        requires
            0 <= x <= w,
            0 <= y <= h,
    ;
    assert(m * (x * y) <= 65025 * (w * h)) by (nonlinear_arith)
        requires
            0 <= m <= 65025,
            0 <= x * y <= w * h,
    ;
    assert(m * x * y == m * (x * y)) by (nonlinear_arith);
    assert(65025 * w * h == 65025 * (w * h)) by (nonlinear_arith);
}

/// `yy * stride + xx` for a column of the table and a row up to `y` lies
/// before row `y + 1`.
proof fn lemma_cell_index(xx: int, yy: int, y: int, stride: int)
    requires
        0 <= xx < stride,
        0 <= yy <= y,
    ensures
        0 <= yy * stride + xx < (y + 1) * stride,
{
    assert(0 <= yy * stride <= y * stride) by (nonlinear_arith)
        requires
            0 <= yy <= y,
            0 < stride,
    ;
    assert((y + 1) * stride == y * stride + stride) by (nonlinear_arith);
}

/// Summed-area tables of the samples and of their squares. With `stride =
/// width + 1`, entry `(x, y)` of each (index `y * stride + x`) is the sum
/// over the columns left of `x` and the rows above `y`; the first row and the
/// first column are zero. The sums of squares must fit in `u64`.
pub fn integrals(img: &Gray) -> (res: (Vec<u64>, Vec<u64>))
    requires
        img.wf(),
        (img.width + 1) * (img.height + 1) <= usize::MAX,
        65025 * img.width * img.height <= u64::MAX,
    ensures
        res.0@.len() == (img.width + 1) * (img.height + 1),
        res.1@.len() == (img.width + 1) * (img.height + 1),
        forall|x: int, y: int|
            0 <= x <= img.width && 0 <= y <= img.height ==> #[trigger] cell(
                res.0@,
                img.width + 1,
                x,
                y,
            ) == rect_sum(*img, x, y, false),
        forall|x: int, y: int|
            0 <= x <= img.width && 0 <= y <= img.height ==> #[trigger] cell(
                res.1@,
                img.width + 1,
                x,
                y,
            ) == rect_sum(*img, x, y, true),
{
    let w = img.width;
    let h = img.height;
    proof {
        assert((w as int) + 1 <= (w + 1) * (h + 1)) by (nonlinear_arith)
            requires
                0 <= h,
                0 <= w,
        ;
    }
    let stride: usize = (w as usize) + 1;
    let ghost si = stride as int;
    let mut sum: Vec<u64> = Vec::new();
    let mut sq: Vec<u64> = Vec::new();
    let mut x0: usize = 0;
    while x0 < stride
        invariant
            stride == w + 1,
            x0 <= stride,
            sum@.len() == x0,
            sq@.len() == x0,
            forall|k: int| 0 <= k < x0 ==> sum@[k] == 0 && sq@[k] == 0,
        decreases stride - x0,
    {
        sum.push(0);
        sq.push(0);
        x0 += 1;
    }
    assert forall|xx: int, yy: int| 0 <= xx <= w && 0 <= yy <= 0 implies #[trigger] cell(
        sum@,
        si,
        xx,
        yy,
    ) == rect_sum(*img, xx, yy, false) by {
        assert(yy * si + xx == xx);
    }
    assert forall|xx: int, yy: int| 0 <= xx <= w && 0 <= yy <= 0 implies #[trigger] cell(
        sq@,
        si,
        xx,
        yy,
    ) == rect_sum(*img, xx, yy, true) by {
        assert(yy * si + xx == xx);
    }
    let mut y: u32 = 0;
    while y < h
        invariant
            img.wf(),
            w == img.width,
            h == img.height,
            stride == w + 1,
            si == stride,
            y <= h,
            (w + 1) * (h + 1) <= usize::MAX,
            65025 * w * h <= u64::MAX,
            sum@.len() == (y + 1) * si,
            sq@.len() == (y + 1) * si,
            forall|xx: int, yy: int|
                0 <= xx <= w && 0 <= yy <= y ==> #[trigger] cell(sum@, si, xx, yy) == rect_sum(
                    *img,
                    xx,
                    yy,
                    false,
                ),
            forall|xx: int, yy: int|
                0 <= xx <= w && 0 <= yy <= y ==> #[trigger] cell(sq@, si, xx, yy) == rect_sum(
                    *img,
                    xx,
                    yy,
                    true,
                ),
        decreases h - y,
    {
        let ghost prev_sum = sum@;
        let ghost prev_sq = sq@;
        proof {
            assert((y as int + 1) * si + si <= (w + 1) * (h + 1)) by (nonlinear_arith)
                requires
                    si == w + 1,
                    y + 1 <= h,
                    0 <= w,
            ;
            assert((y as int + 1) * si == (y as int) * si + si) by (nonlinear_arith);
        }
        sum.push(0);
        sq.push(0);
        proof {
            lemma_rect_sum_bound(*img, 0, y as int, false);
            lemma_rect_sum_bound(*img, 0, y as int, true);
            assert(cell(sum@, si, 0, y + 1) == sum@[(y + 1) * si]);
            assert(cell(sum@, si, 0, y + 1) == rect_sum(*img, 0, y + 1, false));
            assert(cell(sq@, si, 0, y + 1) == rect_sum(*img, 0, y + 1, true));
        }
        let mut row: u64 = 0;
        let mut row_sq: u64 = 0;
        let mut x: u32 = 0;
        while x < w
            invariant
                img.wf(),
                w == img.width,
                h == img.height,
                stride == w + 1,
                si == stride,
                y < h,
                x <= w,
                (w + 1) * (h + 1) <= usize::MAX,
                65025 * w * h <= u64::MAX,
                (y + 1) * si == y * si + si,
                (y + 1) * si + si <= (w + 1) * (h + 1),
                prev_sum.len() == (y + 1) * si,
                prev_sq.len() == (y + 1) * si,
                sum@.len() == (y + 1) * si + x + 1,
                sq@.len() == (y + 1) * si + x + 1,
                forall|k: int| 0 <= k < (y + 1) * si ==> sum@[k] == prev_sum[k],
                forall|k: int| 0 <= k < (y + 1) * si ==> sq@[k] == prev_sq[k],
                forall|xx: int, yy: int|
                    0 <= xx <= w && 0 <= yy <= y ==> #[trigger] cell(prev_sum, si, xx, yy)
                        == rect_sum(*img, xx, yy, false),
                forall|xx: int, yy: int|
                    0 <= xx <= w && 0 <= yy <= y ==> #[trigger] cell(prev_sq, si, xx, yy)
                        == rect_sum(*img, xx, yy, true),
                row == row_prefix(*img, y as int, x as int, false),
                row_sq == row_prefix(*img, y as int, x as int, true),
                forall|xx: int|
                    0 <= xx <= x ==> #[trigger] cell(sum@, si, xx, y + 1) == rect_sum(
                        *img,
                        xx,
                        y + 1,
                        false,
                    ),
                forall|xx: int|
                    0 <= xx <= x ==> #[trigger] cell(sq@, si, xx, y + 1) == rect_sum(
                        *img,
                        xx,
                        y + 1,
                        true,
                    ),
            decreases w - x,
        {
            let v8 = get(img, x, y);
            let v = v8 as u64;
            let ghost xi = x as int;
            let ghost yi = y as int;
            proof {
                lemma_cell_index(xi + 1, yi, yi, si);
                assert(cell(prev_sum, si, xi + 1, yi) == rect_sum(*img, xi + 1, yi, false));
                assert(cell(prev_sq, si, xi + 1, yi) == rect_sum(*img, xi + 1, yi, true));
                lemma_rect_sum_bound(*img, xi + 1, yi, false);
                lemma_rect_sum_bound(*img, xi + 1, yi, true);
                lemma_rect_sum_bound(*img, xi + 1, yi + 1, false);
                lemma_rect_sum_bound(*img, xi + 1, yi + 1, true);
                lemma_scaled_area(255, xi + 1, yi + 1, w as int, h as int);
                lemma_scaled_area(65025, xi + 1, yi + 1, w as int, h as int);
                assert(v * v <= 65025) by (nonlinear_arith)
                    requires
                        v <= 255,
                ;
                assert(term(v8, true) == v * v);
                assert(row_prefix(*img, yi, xi + 1, false) == row + v);
                assert(row_prefix(*img, yi, xi + 1, true) == row_sq + v * v);
                assert(rect_sum(*img, xi + 1, yi + 1, false) == rect_sum(*img, xi + 1, yi, false)
                    + row_prefix(*img, yi, xi + 1, false));
                assert(rect_sum(*img, xi + 1, yi + 1, true) == rect_sum(*img, xi + 1, yi, true)
                    + row_prefix(*img, yi, xi + 1, true));
                assert(yi * si <= (w + 1) * (h + 1)) by (nonlinear_arith)
                    requires
                        si == w + 1,
                        0 <= yi <= h,
                        0 <= w,
                ;
            }
            row = row + v;
            row_sq = row_sq + v * v;
            let base: usize = (y as usize) * stride;
            let above = sum[base + (x as usize) + 1];
            let above_sq = sq[base + (x as usize) + 1];
            proof {
                assert(base + xi + 1 == yi * si + (xi + 1));
                assert(above == prev_sum[yi * si + (xi + 1)]);
                assert(above_sq == prev_sq[yi * si + (xi + 1)]);
            }
            let ghost old_sum = sum@;
            let ghost old_sq = sq@;
            sum.push(above + row);
            sq.push(above_sq + row_sq);
            proof {
                assert forall|xx: int| 0 <= xx <= xi + 1 implies #[trigger] cell(sum@, si, xx, yi + 1)
                    == rect_sum(*img, xx, yi + 1, false) by {
                    if xx <= xi {
                        assert(cell(old_sum, si, xx, yi + 1) == rect_sum(*img, xx, yi + 1, false));
                        assert(cell(sum@, si, xx, yi + 1) == cell(old_sum, si, xx, yi + 1));
                    } else {
                        assert((yi + 1) * si + xx == old_sum.len());
                    }
                }
                assert forall|xx: int| 0 <= xx <= xi + 1 implies #[trigger] cell(sq@, si, xx, yi + 1)
                    == rect_sum(*img, xx, yi + 1, true) by {
                    if xx <= xi {
                        assert(cell(old_sq, si, xx, yi + 1) == rect_sum(*img, xx, yi + 1, true));
                        assert(cell(sq@, si, xx, yi + 1) == cell(old_sq, si, xx, yi + 1));
                    } else {
                        assert((yi + 1) * si + xx == old_sq.len());
                    }
                }
            }
            x += 1;
        }
        proof {
            assert((y as int + 2) * si == (y as int + 1) * si + si) by (nonlinear_arith);
            assert forall|xx: int, yy: int| 0 <= xx <= w && 0 <= yy <= y + 1 implies #[trigger] cell(
                sum@,
                si,
                xx,
                yy,
            ) == rect_sum(*img, xx, yy, false) by {
                if yy <= y {
                    lemma_cell_index(xx, yy, y as int, si);
                    assert(cell(prev_sum, si, xx, yy) == rect_sum(*img, xx, yy, false));
                }
            }
            assert forall|xx: int, yy: int| 0 <= xx <= w && 0 <= yy <= y + 1 implies #[trigger] cell(
                sq@,
                si,
                xx,
                yy,
            ) == rect_sum(*img, xx, yy, true) by {
                if yy <= y {
                    lemma_cell_index(xx, yy, y as int, si);
                    assert(cell(prev_sq, si, xx, yy) == rect_sum(*img, xx, yy, true));
                }
            }
        }
        y += 1;
    }
    proof {
        assert((h as int + 1) * si == (w + 1) * (h + 1)) by (nonlinear_arith)
            requires
                si == w + 1,
        ;
    }
    (sum, sq)
}

// ------------------------------------------------------------------ speckles

/// A black sample away from the border whose eight neighbours are all
/// non-black.
pub open spec fn isolated_black(img: Gray, x: int, y: int) -> bool {
    &&& 1 <= x < img.width - 1
    &&& 1 <= y < img.height - 1
    &&& img.at(x, y) == 0
    &&& forall|dx: int, dy: int|
        -1 <= dx <= 1 && -1 <= dy <= 1 && (dx != 0 || dy != 0) ==> #[trigger] img.at(x + dx, y + dy) != 0
}

fn is_isolated(img: &Gray, x: u32, y: u32) -> (res: bool)
    requires
        img.wf(),
        1 <= x,
        x + 1 < img.width,
        1 <= y,
        y + 1 < img.height,
    ensures
        res == isolated_black(*img, x as int, y as int),
{
    if get(img, x, y) != 0 {
        return false;
    }
    let a = get(img, x - 1, y - 1);
    let b = get(img, x, y - 1);
    let c = get(img, x + 1, y - 1);
    let d = get(img, x - 1, y);
    let e = get(img, x + 1, y);
    let f = get(img, x - 1, y + 1);
    let g = get(img, x, y + 1);
    let k = get(img, x + 1, y + 1);
    let res = a != 0 && b != 0 && c != 0 && d != 0 && e != 0 && f != 0 && g != 0 && k != 0;
    proof {
        if res {
            assert forall|dx: int, dy: int|
                -1 <= dx <= 1 && -1 <= dy <= 1 && (dx != 0 || dy != 0) implies #[trigger] img.at(
                x + dx,
                y + dy,
            ) != 0 by {
                if dy == -1 {
                    if dx == -1 {
                        assert(img.at(x + dx, y + dy) == a);
                    } else if dx == 0 {
                        assert(img.at(x + dx, y + dy) == b);
                    } else {
                        assert(img.at(x + dx, y + dy) == c);
                    }
                } else if dy == 0 {
                    if dx == -1 {
                        assert(img.at(x + dx, y + dy) == d);
                    } else {
                        assert(img.at(x + dx, y + dy) == e);
                    }
                } else {
                    if dx == -1 {
                        assert(img.at(x + dx, y + dy) == f);
                    } else if dx == 0 {
                        assert(img.at(x + dx, y + dy) == g);
                    } else {
                        assert(img.at(x + dx, y + dy) == k);
                    }
                }
            }
        } else {
            let xi = x as int;
            let yi = y as int;
            assert(img.at(xi + -1, yi + -1) == a);
            assert(img.at(xi + 0, yi + -1) == b);
            assert(img.at(xi + 1, yi + -1) == c);
            assert(img.at(xi + -1, yi + 0) == d);
            assert(img.at(xi + 1, yi + 0) == e);
            assert(img.at(xi + -1, yi + 1) == f);
            assert(img.at(xi + 0, yi + 1) == g);
            assert(img.at(xi + 1, yi + 1) == k);
        }
    }
    res
}

/// Removes isolated noise: a black sample away from the border whose eight
/// neighbours are all non-black turns white. Images narrower or lower than
/// three samples are left alone.
pub fn despeckle(img: &mut Gray)
    requires
        old(img).wf(),
    ensures
        final(img).wf(),
        final(img).width == old(img).width,
        final(img).height == old(img).height,
        forall|x: int, y: int|
            0 <= x < old(img).width && 0 <= y < old(img).height ==> #[trigger] final(img).at(x, y)
                == if old(img).width >= 3 && old(img).height >= 3 && isolated_black(
                *old(img),
                x,
                y,
            ) {
                255u8
            } else {
                old(img).at(x, y)
            },
{
    let (w, h) = (img.width, img.height);
    if w < 3 || h < 3 {
        return;
    }
    let ghost src = *img;
    let mut out: Vec<u8> = Vec::new();
    let mut y: u32 = 0;
    while y < h
        invariant
            src == *img,
            img.wf(),
            w == img.width,
            h == img.height,
            w >= 3,
            h >= 3,
            y <= h,
            out@.len() == y * w,
            forall|k: int| 0 <= k < out@.len() ==> #[trigger] out@[k] == if isolated_black(src, k % (w as int), k / (w as int)) {
                255u8
            } else {
                src.data@[k]
            },
        decreases h - y,
    {
        let mut x: u32 = 0;
        while x < w
            invariant
                src == *img,
                img.wf(),
                w == img.width,
                h == img.height,
                w >= 3,
                h >= 3,
                y < h,
                x <= w,
                out@.len() == y * w + x,
                forall|k: int| 0 <= k < out@.len() ==> #[trigger] out@[k] == if isolated_black(src, k % (w as int), k / (w as int)) {
                    255u8
                } else {
                    src.data@[k]
                },
            decreases w - x,
        {
            let iso = if 1 <= x && x + 1 < w && 1 <= y && y + 1 < h {
                is_isolated(img, x, y)
            } else {
                false
            };
            let v = get(img, x, y);
            proof {
                lemma_index(x as int, y as int, w as int, h as int);
                let k = y * w + x;
                assert(k % (w as int) == x && k / (w as int) == y) by (nonlinear_arith)
                    requires
                        k == y * w + x,
                        0 <= x < w,
                        0 <= y,
                ;
            }
            out.push(if iso { 255 } else { v });
            proof {
                lemma_row_major_step(x as int, y as int, w as int);
            }
            x += 1;
        }
        proof {
            assert((y + 1) * w == y * w + w) by (nonlinear_arith);
        }
        y += 1;
    }
    proof {
        assert(out@.len() == w * h) by (nonlinear_arith)
            requires
                out@.len() == y * w,
                y == h,
        ;
    }
    img.data = out;
    proof {
        assert forall|x: int, y: int| 0 <= x < w && 0 <= y < h implies #[trigger] img.at(x, y) == if isolated_black(src, x, y) {
            255u8
        } else {
            src.at(x, y)
        } by {
            lemma_index(x, y, w as int, h as int);
            let k = y * w + x;
            assert(k % (w as int) == x && k / (w as int) == y) by (nonlinear_arith)
                requires
                    k == y * w + x,
                    0 <= x < w,
                    0 <= y,
            ;
        }
    }
}

// ------------------------------------------------------------------ projection

/// Number of black samples among the first `n` of row `y`.
pub open spec fn row_black(img: Gray, y: int, n: int) -> nat
    decreases n,
{
    if n <= 0 {
        0
    } else {
        row_black(img, y, n - 1) + if img.at(n - 1, y) == 0 {
            1nat
        } else {
            0nat
        }
    }
}

/// Sum over the first `n` rows of the squared count of black samples.
pub open spec fn projection_upto(img: Gray, n: int) -> nat
    decreases n,
{
    if n <= 0 {
        0
    } else {
        projection_upto(img, n - 1) + row_black(img, n - 1, img.width as int) * row_black(
            img,
            n - 1,
            img.width as int,
        )
    }
}

proof fn lemma_row_black_bound(img: Gray, y: int, n: int)
    requires
        0 <= n,
    ensures
        row_black(img, y, n) <= n,
    decreases n,
{
    if n > 0 {
        lemma_row_black_bound(img, y, n - 1);
    }
}

proof fn lemma_projection_bound(img: Gray, n: int)
    requires
        0 <= n,
    ensures
        projection_upto(img, n) <= n * img.width * img.width,
    decreases n,
{
    if n > 0 {
        lemma_projection_bound(img, n - 1);
        let c = row_black(img, n - 1, img.width as int);
        lemma_row_black_bound(img, n - 1, img.width as int);
        assert(c * c <= img.width * img.width) by (nonlinear_arith)
            requires
                c <= img.width,
                c >= 0,
        ;
        assert((n - 1) * img.width * img.width + img.width * img.width == n * img.width * img.width)
            by (nonlinear_arith);
    }
}

/// Projection score of a binarized image: the sum over rows of the squared
/// number of black samples. Text lines that run level concentrate their ink
/// in few rows and score highest.
pub fn projection_score(bin: &Gray) -> (res: u128)
    requires
        bin.wf(),
    ensures
        res == projection_upto(*bin, bin.height as int),
{
    let (w, h) = (bin.width, bin.height);
    let mut score: u128 = 0;
    let mut y: u32 = 0;
    while y < h
        invariant
            bin.wf(),
            w == bin.width,
            h == bin.height,
            y <= h,
            score == projection_upto(*bin, y as int),
        decreases h - y,
    {
        let mut row: u64 = 0;
        let mut x: u32 = 0;
        while x < w
            invariant
                bin.wf(),
                w == bin.width,
                h == bin.height,
                y < h,
                x <= w,
                row == row_black(*bin, y as int, x as int),
                row <= x,
            decreases w - x,
        {
            if get(bin, x, y) == 0 {
                row += 1;
            }
            x += 1;
        }
        proof {
            lemma_projection_bound(*bin, y + 1);
            assert((y + 1) * w * w <= (u32::MAX as int + 1) * u32::MAX * u32::MAX) by (nonlinear_arith)
                requires
                    y + 1 <= u32::MAX as int + 1,
                    w <= u32::MAX,
            ;
        }
        score = score + (row as u128) * (row as u128);
        y += 1;
    }
    score
}

// ------------------------------------------------------------------ laws of speckles and projection

/// Speckle removal turns a sample white exactly when it is a black sample
/// away from the border and all eight of its neighbours, the four diagonal
/// ones included, are non-black: a black sample with a black neighbour in
/// any direction (a stroke, even a one-pixel diagonal one) is kept, as
/// `despeckle`'s contract says through [`isolated_black`].
pub proof fn law_speckle_has_no_black_neighbour(img: Gray, x: int, y: int)
    ensures
        isolated_black(img, x, y) <==> {
            &&& 1 <= x && x + 1 < img.width
            &&& 1 <= y && y + 1 < img.height
            &&& img.at(x, y) == 0
            &&& img.at(x - 1, y - 1) != 0
            &&& img.at(x, y - 1) != 0
            &&& img.at(x + 1, y - 1) != 0
            &&& img.at(x - 1, y) != 0
            &&& img.at(x + 1, y) != 0
            &&& img.at(x - 1, y + 1) != 0
            &&& img.at(x, y + 1) != 0
            &&& img.at(x + 1, y + 1) != 0
        },
{
    if isolated_black(img, x, y) {
        assert(img.at(x + -1, y + -1) != 0);
        assert(img.at(x + 0, y + -1) != 0);
        assert(img.at(x + 1, y + -1) != 0);
        assert(img.at(x + -1, y + 0) != 0);
        assert(img.at(x + 1, y + 0) != 0);
        assert(img.at(x + -1, y + 1) != 0);
        assert(img.at(x + 0, y + 1) != 0);
        assert(img.at(x + 1, y + 1) != 0);
    }
}

/// The samples of row `y`.
pub open spec fn row_samples(img: Gray, y: int) -> Seq<u8> {
    Seq::new(img.width as nat, |x: int| img.at(x, y))
}

/// Sum over the first `n` rows of the squared number of samples equal to
/// zero (black) in the row.
pub open spec fn squared_black_rows(img: Gray, n: int) -> nat
    decreases n,
{
    if n <= 0 {
        0
    } else {
        let b = row_samples(img, n - 1).filter(|v: u8| v == 0).len();
        squared_black_rows(img, n - 1) + b * b
    }
}

proof fn lemma_filter_step<A>(s: Seq<A>, pred: spec_fn(A) -> bool)
    requires
        s.len() > 0,
    ensures
        s.filter(pred).len() == s.drop_last().filter(pred).len() + if pred(s.last()) {
            1int
        } else {
            0int
        },
{
    reveal(Seq::filter);
}

proof fn lemma_row_black_counts_zeros(img: Gray, y: int, n: int)
    requires
        0 <= n <= img.width,
    ensures
        row_black(img, y, n) == Seq::new(n as nat, |x: int| img.at(x, y)).filter(|v: u8| v == 0).len(),
    decreases n,
{
    let s = Seq::new(n as nat, |x: int| img.at(x, y));
    if n > 0 {
        lemma_row_black_counts_zeros(img, y, n - 1);
        lemma_filter_step(s, |v: u8| v == 0);
        assert(s.drop_last() =~= Seq::new((n - 1) as nat, |x: int| img.at(x, y)));
    } else {
        reveal(Seq::filter);
    }
}

/// The projection score is the sum, over the rows, of the square of the
/// number of samples equal to zero in the row.
pub proof fn law_projection_score_squares_black_counts(img: Gray, n: int)
    requires
        0 <= n,
    ensures
        projection_upto(img, n) == squared_black_rows(img, n),
    decreases n,
{
    if n > 0 {
        law_projection_score_squares_black_counts(img, n - 1);
        lemma_row_black_counts_zeros(img, n - 1, img.width as int);
        assert(Seq::new(img.width as nat, |x: int| img.at(x, n - 1)) =~= row_samples(img, n - 1));
    }
}

proof fn lemma_row_black_zero(img: Gray, y: int, n: int)
    requires
        forall|x: int| 0 <= x < n ==> #[trigger] img.at(x, y) != 0,
    ensures
        row_black(img, y, n) == 0,
    decreases n,
{
    if n > 0 {
        lemma_row_black_zero(img, y, n - 1);
        assert(img.at(n - 1, y) != 0);
    }
}

/// An image without black samples scores zero.
pub proof fn law_projection_score_of_white_is_zero(img: Gray, n: int)
    requires
        0 <= n,
        forall|x: int, y: int| 0 <= x < img.width && 0 <= y < n ==> #[trigger] img.at(x, y) != 0,
    ensures
        projection_upto(img, n) == 0,
    decreases n,
{
    if n > 0 {
        law_projection_score_of_white_is_zero(img, n - 1);
        assert forall|x: int| 0 <= x < img.width implies #[trigger] img.at(x, n - 1) != 0 by {
            assert(img.at(x, n - 1) != 0);
        }
        lemma_row_black_zero(img, n - 1, img.width as int);
    }
}

// ------------------------------------------------------------------ morphology

/// The larger (`max`) or smaller of two samples.
pub open spec fn pick(a: u8, b: u8, max: bool) -> u8 {
    if max {
        if a >= b {
            a
        } else {
            b
        }
    } else {
        if a <= b {
            a
        } else {
            b
        }
    }
}

/// First index of the window of radius `r` around `i`.
pub open spec fn win_lo(i: int, r: int) -> int {
    if i >= r {
        i - r
    } else {
        0
    }
}

/// Last index of the window of radius `r` around `i` in `0..n`.
pub open spec fn win_hi(i: int, r: int, n: int) -> int {
    if i + r < n - 1 {
        i + r
    } else {
        n - 1
    }
}

/// The largest (`max`) or smallest of `f(lo)..=f(hi)`.
pub open spec fn wext(f: spec_fn(int) -> u8, lo: int, hi: int, max: bool) -> u8
    decreases hi - lo,
{
    if hi <= lo {
        f(lo)
    } else {
        pick(wext(f, lo, hi - 1, max), f(hi), max)
    }
}

/// Extreme of row `y` over the horizontal window around `x`.
pub open spec fn hval(img: Gray, r: int, max: bool, x: int, y: int) -> u8 {
    wext(|i: int| img.at(i, y), win_lo(x, r), win_hi(x, r, img.width as int), max)
}

/// Extreme over the square window of radius `r` around `(x, y)`, taken row
/// by row and then down the column: the dilation (`max`) or erosion.
pub open spec fn vval(img: Gray, r: int, max: bool, x: int, y: int) -> u8 {
    wext(|j: int| hval(img, r, max, x, j), win_lo(y, r), win_hi(y, r, img.height as int), max)
}

proof fn lemma_wext_congruent(f: spec_fn(int) -> u8, g: spec_fn(int) -> u8, lo: int, hi: int, max: bool)
    requires
        forall|i: int| lo <= i <= hi ==> #[trigger] f(i) == g(i),
        lo <= hi,
    ensures
        wext(f, lo, hi, max) == wext(g, lo, hi, max),
    decreases hi - lo,
{
    if hi > lo {
        lemma_wext_congruent(f, g, lo, hi - 1, max);
    }
}

proof fn lemma_wext_max_bound(f: spec_fn(int) -> u8, lo: int, hi: int, i: int)
    requires
        lo <= i <= hi,
    ensures
        wext(f, lo, hi, true) >= f(i),
    decreases hi - lo,
{
    if hi > lo && i < hi {
        lemma_wext_max_bound(f, lo, hi - 1, i);
    }
}

proof fn lemma_wext_min_bound(f: spec_fn(int) -> u8, lo: int, hi: int, i: int)
    requires
        lo <= i <= hi,
    ensures
        wext(f, lo, hi, false) <= f(i),
    decreases hi - lo,
{
    if hi > lo && i < hi {
        lemma_wext_min_bound(f, lo, hi - 1, i);
    }
}

proof fn lemma_wext_min_above(f: spec_fn(int) -> u8, lo: int, hi: int, c: u8)
    requires
        lo <= hi,
        forall|i: int| lo <= i <= hi ==> #[trigger] f(i) >= c,
    ensures
        wext(f, lo, hi, false) >= c,
    decreases hi - lo,
{
    if hi > lo {
        lemma_wext_min_above(f, lo, hi - 1, c);
    }
}

fn window(i: u32, r: u32, n: u32) -> (res: (u32, u32))
    requires
        i < n,
    ensures
        res.0 == win_lo(i as int, r as int),
        res.1 == win_hi(i as int, r as int, n as int),
        res.0 <= i <= res.1 < n,
{
    let lo = if i >= r { i - r } else { 0 };
    let hi = if (i as u64) + (r as u64) < (n as u64) - 1 { i + r } else { n - 1 };
    (lo, hi)
}

fn pick_exec(a: u8, b: u8, max: bool) -> (res: u8)
    ensures
        res == pick(a, b, max),
{
    if max {
        if a >= b { a } else { b }
    } else {
        if a <= b { a } else { b }
    }
}

/// Horizontal pass: every sample becomes the extreme of its row window.
fn horizontal_pass(img: &Gray, r: u32, max: bool) -> (res: Gray)
    requires
        img.wf(),
    ensures
        res.wf(),
        res.width == img.width,
        res.height == img.height,
        forall|x: int, y: int|
            0 <= x < img.width && 0 <= y < img.height ==> #[trigger] res.at(x, y) == hval(
                *img,
                r as int,
                max,
                x,
                y,
            ),
{
    let (w, h) = (img.width, img.height);
    let mut out: Vec<u8> = Vec::new();
    let mut y: u32 = 0;
    while y < h
        invariant
            img.wf(),
            w == img.width,
            h == img.height,
            y <= h,
            out@.len() == y * w,
            forall|xx: int, yy: int|
                0 <= xx < w && 0 <= yy < y ==> #[trigger] out@[yy * w + xx] == hval(*img, r as int, max, xx, yy),
        decreases h - y,
    {
        let mut x: u32 = 0;
        while x < w
            invariant
                img.wf(),
                w == img.width,
                h == img.height,
                y < h,
                x <= w,
                out@.len() == y * w + x,
                forall|xx: int, yy: int|
                    0 <= xx < w && 0 <= yy < y ==> #[trigger] out@[yy * w + xx] == hval(*img, r as int, max, xx, yy),
                forall|xx: int| 0 <= xx < x ==> #[trigger] out@[y * w + xx] == hval(*img, r as int, max, xx, y as int),
            decreases w - x,
        {
            let (lo, hi) = window(x, r, w);
            let ghost f = |i: int| img.at(i, y as int);
            let mut v = get(img, lo, y);
            let mut xx = lo + 1;
            while xx <= hi
                invariant
                    img.wf(),
                    w == img.width,
                    h == img.height,
                    y < h,
                    lo < xx <= hi + 1,
                    hi < w,
                    f == (|i: int| img.at(i, y as int)),
                    v == wext(f, lo as int, xx - 1, max),
                decreases hi + 1 - xx,
            {
                v = pick_exec(v, get(img, xx, y), max);
                xx += 1;
            }
            proof {
                lemma_index(x as int, y as int, w as int, h as int);
                lemma_row_major_step(x as int, y as int, w as int);
            }
            let ghost before = out@;
            out.push(v);
            proof {
                assert forall|xx: int, yy: int| 0 <= xx < w && 0 <= yy < y implies #[trigger] out@[yy * w + xx] == hval(*img, r as int, max, xx, yy) by {
                    lemma_index(xx, yy, w as int, y as int);
                    assert(w * y == y * w) by (nonlinear_arith);
                    assert(yy * w + xx < before.len());
                    assert(before[yy * w + xx] == out@[yy * w + xx]);
                }
            }
            x += 1;
        }
        proof {
            assert((y + 1) * w == y * w + w) by (nonlinear_arith);
            assert forall|xx: int, yy: int| 0 <= xx < w && 0 <= yy < y + 1 implies #[trigger] out@[yy * w + xx] == hval(*img, r as int, max, xx, yy) by {
                if yy == y {
                    assert(out@[y * w + xx] == hval(*img, r as int, max, xx, y as int));
                }
            }
        }
        y += 1;
    }
    proof {
        assert(out@.len() == w * h) by (nonlinear_arith)
            requires
                out@.len() == y * w,
                y == h,
        ;
    }
    Gray { width: w, height: h, data: out }
}

/// Vertical pass: every sample becomes the extreme of its column window.
fn vertical_pass(img: &Gray, r: u32, max: bool) -> (res: Gray)
    requires
        img.wf(),
    ensures
        res.wf(),
        res.width == img.width,
        res.height == img.height,
        forall|x: int, y: int|
            0 <= x < img.width && 0 <= y < img.height ==> #[trigger] res.at(x, y) == wext(
                |j: int| img.at(x, j),
                win_lo(y, r as int),
                win_hi(y, r as int, img.height as int),
                max,
            ),
{
    let (w, h) = (img.width, img.height);
    let mut out: Vec<u8> = Vec::new();
    let mut y: u32 = 0;
    while y < h
        invariant
            img.wf(),
            w == img.width,
            h == img.height,
            y <= h,
            out@.len() == y * w,
            forall|xx: int, yy: int|
                0 <= xx < w && 0 <= yy < y ==> #[trigger] out@[yy * w + xx] == wext(
                    |j: int| img.at(xx, j),
                    win_lo(yy, r as int),
                    win_hi(yy, r as int, h as int),
                    max,
                ),
        decreases h - y,
    {
        let (lo, hi) = window(y, r, h);
        let mut x: u32 = 0;
        while x < w
            invariant
                img.wf(),
                w == img.width,
                h == img.height,
                y < h,
                x <= w,
                lo == win_lo(y as int, r as int),
                hi == win_hi(y as int, r as int, h as int),
                lo <= y <= hi < h,
                out@.len() == y * w + x,
                forall|xx: int, yy: int|
                    0 <= xx < w && 0 <= yy < y ==> #[trigger] out@[yy * w + xx] == wext(
                        |j: int| img.at(xx, j),
                        win_lo(yy, r as int),
                        win_hi(yy, r as int, h as int),
                        max,
                    ),
                forall|xx: int|
                    0 <= xx < x ==> #[trigger] out@[y * w + xx] == wext(
                        |j: int| img.at(xx, j),
                        lo as int,
                        hi as int,
                        max,
                    ),
            decreases w - x,
        {
            let ghost f = |j: int| img.at(x as int, j);
            let mut v = get(img, x, lo);
            let mut yy = lo + 1;
            while yy <= hi
                invariant
                    img.wf(),
                    w == img.width,
                    h == img.height,
                    x < w,
                    lo < yy <= hi + 1,
                    hi < h,
                    f == (|j: int| img.at(x as int, j)),
                    v == wext(f, lo as int, yy - 1, max),
                decreases hi + 1 - yy,
            {
                v = pick_exec(v, get(img, x, yy), max);
                yy += 1;
            }
            proof {
                lemma_index(x as int, y as int, w as int, h as int);
                lemma_row_major_step(x as int, y as int, w as int);
            }
            let ghost before = out@;
            out.push(v);
            proof {
                assert forall|xx: int, yy: int| 0 <= xx < w && 0 <= yy < y implies #[trigger] out@[yy * w + xx] == wext(
                    |j: int| img.at(xx, j),
                    win_lo(yy, r as int),
                    win_hi(yy, r as int, h as int),
                    max,
                ) by {
                    lemma_index(xx, yy, w as int, y as int);
                    assert(w * y == y * w) by (nonlinear_arith);
                    assert(yy * w + xx < before.len());
                    assert(before[yy * w + xx] == out@[yy * w + xx]);
                }
            }
            x += 1;
        }
        proof {
            assert((y + 1) * w == y * w + w) by (nonlinear_arith);
            assert forall|xx: int, yy: int| 0 <= xx < w && 0 <= yy < y + 1 implies #[trigger] out@[yy * w + xx] == wext(
                |j: int| img.at(xx, j),
                win_lo(yy, r as int),
                win_hi(yy, r as int, h as int),
                max,
            ) by {
                if yy == y {
                    assert(out@[y * w + xx] == wext(|j: int| img.at(xx, j), lo as int, hi as int, max));
                }
            }
        }
        y += 1;
    }
    proof {
        assert(out@.len() == w * h) by (nonlinear_arith)
            requires
                out@.len() == y * w,
                y == h,
        ;
    }
    Gray { width: w, height: h, data: out }
}

/// Sliding-window extreme filter, computed row then column: dilation
/// (`max`, every sample becomes the largest in the square window of radius
/// `radius` around it, clipped at the borders) or erosion (the smallest).
pub fn extremum_filter(img: &Gray, radius: u32, max: bool) -> (res: Gray)
    requires
        img.wf(),
    ensures
        res.wf(),
        res.width == img.width,
        res.height == img.height,
        forall|x: int, y: int|
            0 <= x < img.width && 0 <= y < img.height ==> #[trigger] res.at(x, y) == vval(
                *img,
                radius as int,
                max,
                x,
                y,
            ),
{
    let horiz = horizontal_pass(img, radius, max);
    let out = vertical_pass(&horiz, radius, max);
    proof {
        assert forall|x: int, y: int| 0 <= x < img.width && 0 <= y < img.height implies #[trigger] out.at(x, y) == vval(
            *img,
            radius as int,
            max,
            x,
            y,
        ) by {
            let lo = win_lo(y, radius as int);
            let hi = win_hi(y, radius as int, img.height as int);
            lemma_wext_congruent(
                |j: int| horiz.at(x, j),
                |j: int| hval(*img, radius as int, max, x, j),
                lo,
                hi,
                max,
            );
        }
    }
    out
}

/// Erosion along row `j` of the dilation of radius `r`, around column `x`.
pub open spec fn closing_row(img: Gray, r: int, x: int, j: int) -> u8 {
    wext(|i: int| vval(img, r, true, i, j), win_lo(x, r), win_hi(x, r, img.width as int), false)
}

/// Closing (dilation, then erosion) of radius `r` at `(x, y)`.
pub open spec fn closing_value(img: Gray, r: int, x: int, y: int) -> u8 {
    wext(
        |j: int| closing_row(img, r, x, j),
        win_lo(y, r),
        win_hi(y, r, img.height as int),
        false,
    )
}

/// Morphological closing: removes dark strokes thinner than the window,
/// leaving the lighting and paper background.
pub fn morph_close(img: &Gray, radius: u32) -> (res: Gray)
    requires
        img.wf(),
    ensures
        res.wf(),
        res.width == img.width,
        res.height == img.height,
        forall|x: int, y: int|
            0 <= x < img.width && 0 <= y < img.height ==> #[trigger] res.at(x, y)
                == closing_value(*img, radius as int, x, y),
{
    let dilated = extremum_filter(img, radius, true);
    let out = extremum_filter(&dilated, radius, false);
    proof {
        let r = radius as int;
        assert forall|x: int, y: int| 0 <= x < img.width && 0 <= y < img.height implies #[trigger] out.at(x, y)
            == closing_value(*img, r, x, y) by {
            let xl = win_lo(x, r);
            let xh = win_hi(x, r, img.width as int);
            assert forall|j: int| win_lo(y, r) <= j <= win_hi(y, r, img.height as int) implies #[trigger] hval(dilated, r, false, x, j)
                == closing_row(*img, r, x, j) by {
                lemma_wext_congruent(|i: int| dilated.at(i, j), |i: int| vval(*img, r, true, i, j), xl, xh, false);
            }
            lemma_wext_congruent(
                |j: int| hval(dilated, r, false, x, j),
                |j: int| closing_row(*img, r, x, j),
                win_lo(y, r),
                win_hi(y, r, img.height as int),
                false,
            );
        }
    }
    out
}

/// Dilation never darkens and erosion never brightens a sample.
pub proof fn law_dilation_erosion_bounds(img: Gray, r: int, x: int, y: int)
    requires
        0 <= r,
        0 <= x < img.width,
        0 <= y < img.height,
    ensures
        vval(img, r, true, x, y) >= img.at(x, y),
        vval(img, r, false, x, y) <= img.at(x, y),
{
    lemma_wext_max_bound(|i: int| img.at(i, y), win_lo(x, r), win_hi(x, r, img.width as int), x);
    lemma_wext_max_bound(|j: int| hval(img, r, true, x, j), win_lo(y, r), win_hi(y, r, img.height as int), y);
    lemma_wext_min_bound(|i: int| img.at(i, y), win_lo(x, r), win_hi(x, r, img.width as int), x);
    lemma_wext_min_bound(|j: int| hval(img, r, false, x, j), win_lo(y, r), win_hi(y, r, img.height as int), y);
}

/// Closing never darkens a sample: the background estimate lies on or
/// above the image, so division normalization whitens the background.
pub proof fn law_closing_never_darkens(img: Gray, r: int, x: int, y: int)
    requires
        0 <= r,
        0 <= x < img.width,
        0 <= y < img.height,
    ensures
        closing_value(img, r, x, y) >= img.at(x, y),
{
    let c = img.at(x, y);
    let (w, h) = (img.width as int, img.height as int);
    let xl = win_lo(x, r);
    let xh = win_hi(x, r, w);
    let yl = win_lo(y, r);
    let yh = win_hi(y, r, h);
    assert forall|j: int| yl <= j <= yh implies #[trigger] closing_row(img, r, x, j) >= c by {
        assert forall|i: int| xl <= i <= xh implies #[trigger] vval(img, r, true, i, j) >= c by {
            // (x, y) lies in the window around (i, j), the windows being symmetric
            lemma_wext_max_bound(|i2: int| img.at(i2, y), win_lo(i, r), win_hi(i, r, w), x);
            lemma_wext_max_bound(|j2: int| hval(img, r, true, i, j2), win_lo(j, r), win_hi(j, r, h), y);
        }
        lemma_wext_min_above(|i: int| vval(img, r, true, i, j), xl, xh, c);
    }
    lemma_wext_min_above(|j: int| closing_row(img, r, x, j), yl, yh, c);
}

// ------------------------------------------------------------------ document heuristic

/// Otsu's threshold of a set of samples, as `imageproc::contrast::otsu_level`
/// computes it (it depends on the samples' histogram only).
pub uninterp spec fn otsu_level_of(samples: Seq<u8>) -> u8;

/// Whether Otsu's threshold search on the image stays within its 32-bit
/// arithmetic: `imageproc::contrast::otsu_level` multiplies width by height
/// and each sample value by its count in `u32`.
pub open spec fn otsu_fits_spec(img: Gray) -> bool {
    &&& img.width * img.height <= u32::MAX
    &&& forall|t: int| 0 <= t < 256 ==> t * count_eq(img.data@, t) <= u32::MAX
}

/// `imageproc::contrast::otsu_level` on the image. Its result is named
/// `otsu_level_of`; nothing else of it is stated. It overflows (and panics
/// in a debug build) outside [`otsu_fits_spec`].
#[verifier::external_body]
fn otsu_level(img: &Gray) -> (res: u8)
    requires
        img.wf(),
        otsu_fits_spec(*img),
    ensures
        res == otsu_level_of(img.data@),
{
    let g = image::GrayImage::from_raw(img.width, img.height, img.data.clone()).unwrap();
    imageproc::contrast::otsu_level(&g)
}

/// Whether [`otsu_fits_spec`] holds of the image.
pub fn otsu_fits(img: &Gray) -> (res: bool)
    requires
        img.wf(),
    ensures
        res == otsu_fits_spec(*img),
{
    let (w, h) = (img.width as u64, img.height as u64);
    assert(w * h <= 0xFFFF_FFFF * 0xFFFF_FFFF) by (nonlinear_arith)
        requires
            w <= 0xFFFF_FFFF,
            h <= 0xFFFF_FFFF,
    ;
    let wh = w * h;
    if wh > 0xFFFF_FFFF {
        return false;
    }
    let hist = histogram(&img.data);
    let mut t: usize = 0;
    while t < 256
        invariant
            t <= 256,
            hist@.len() == 256,
            forall|u: int| 0 <= u < 256 ==> #[trigger] hist@[u] == count_eq(img.data@, u),
            forall|u: int| 0 <= u < t ==> u * count_eq(img.data@, u) <= u32::MAX,
        decreases 256 - t,
    {
        proof {
            lemma_count_eq_bound(img.data@, t as int);
        }
        let c = hist[t] as u128;
        let tt = t as u128;
        assert(tt * c <= 256 * c) by (nonlinear_arith)
            requires
                tt <= 256,
                c >= 0,
        ;
        if tt * c > 0xFFFF_FFFF {
            return false;
        }
        t += 1;
    }
    true
}

/// Counts of every sample value.
fn histogram(s: &Vec<u8>) -> (res: Vec<usize>)
    ensures
        res@.len() == 256,
        forall|u: int| 0 <= u < 256 ==> #[trigger] res@[u] == count_eq(s@, u),
{
    let n = s.len();
    let mut hist: Vec<usize> = Vec::new();
    for v in 0..256usize
        invariant
            hist@.len() == v,
            forall|u: int| 0 <= u < v ==> #[trigger] hist@[u] == 0,
    {
        hist.push(0);
    }
    for k in 0..n
        invariant
            n == s@.len(),
            hist@.len() == 256,
            forall|u: int| 0 <= u < 256 ==> #[trigger] hist@[u] == count_eq(s@.take(k as int), u),
            forall|u: int| 0 <= u < 256 ==> #[trigger] hist@[u] <= k,
    {
        proof {
            assert(s@.take(k + 1).drop_last() == s@.take(k as int));
        }
        let p = s[k] as usize;
        let c = hist[p];
        hist.set(p, c + 1);
    }
    assert(s@.take(n as int) == s@);
    hist
}

proof fn lemma_count_eq_bound(s: Seq<u8>, v: int)
    ensures
        count_eq(s, v) <= s.len(),
    decreases s.len(),
{
    if s.len() > 0 {
        lemma_count_eq_bound(s.drop_last(), v);
    }
}

/// The brightest-background candidate: among values 140..=`n`, the one
/// that occurs most often, the last of equals.
pub open spec fn peak_upto(s: Seq<u8>, n: int) -> int
    decreases n,
{
    if n <= 140 {
        140
    } else {
        let p = peak_upto(s, n - 1);
        if count_eq(s, n) >= count_eq(s, p) {
            n
        } else {
            p
        }
    }
}

/// Number of samples with values in `lo..hi`.
pub open spec fn count_range(s: Seq<u8>, lo: int, hi: int) -> nat
    decreases hi - lo,
{
    if hi <= lo {
        0
    } else {
        count_range(s, lo, hi - 1) + count_eq(s, hi - 1)
    }
}

/// Number of pixels `k < n` of an interleaved RGB buffer whose channels
/// differ by less than 40 (low saturation).
pub open spec fn count_low_sat(d: Seq<u8>, n: int) -> nat
    decreases n,
{
    if n <= 0 {
        0
    } else {
        let (r, g, b) = (d[3 * (n - 1)], d[3 * (n - 1) + 1], d[3 * (n - 1) + 2]);
        let mx = if r >= g && r >= b { r } else if g >= b { g } else { b };
        let mn = if r <= g && r <= b { r } else if g <= b { g } else { b };
        count_low_sat(d, n - 1) + if mx - mn < 40 {
            1nat
        } else {
            0nat
        }
    }
}

/// Whether the scaled-down image looks like a document: at least two of a
/// bright background peak holding over 40% of the samples, over 60% of
/// low-saturation pixels, and an ink coverage (samples darker than Otsu's
/// threshold) above 0.3% and below 35%.
pub open spec fn document_votes_spec(gray: Seq<u8>, rgb: Seq<u8>) -> bool {
    document_votes_with(gray, rgb, otsu_level_of(gray))
}

/// The document vote with the ink threshold `thr` given: samples below it
/// count as ink.
pub open spec fn document_votes_with(gray: Seq<u8>, rgb: Seq<u8>, thr: u8) -> bool {
    let total = gray.len() as int;
    let p = peak_upto(gray, 255);
    let lo = if p >= 25 { p - 25 } else { 0 };
    let hi = if p + 25 < 256 { p + 25 } else { 256 };
    let bright_bg = count_eq(gray, p) > 0 && 5 * count_range(gray, lo, hi) > 2 * total;
    let low_sat = 5 * count_low_sat(rgb, total) > 3 * total;
    let fg = if thr == 0 { 0 } else { count_le(gray, thr - 1) as int };
    let ink = 1000 * fg > 3 * total && 20 * fg < 7 * total;
    (if bright_bg { 1int } else { 0 }) + (if low_sat { 1int } else { 0 }) + (if ink { 1int } else { 0 }) >= 2
}

/// The document heuristic on an image already scaled down, given as its
/// gray samples and its RGB pixels (the same pixels, in the same order).
pub fn document_votes(gray: &Gray, rgb: &Raster) -> (res: bool)
    requires
        gray.wf(),
        rgb.wf(),
        rgb.bpp == 3,
        rgb.width == gray.width,
        rgb.height == gray.height,
        otsu_fits_spec(*gray),
    ensures
        res == document_votes_spec(gray.data@, rgb.data@),
{
    let thr = otsu_level(gray);
    document_votes_at(gray, rgb, thr)
}

/// The document heuristic with the ink threshold given: the same votes as
/// [`document_votes`], with samples below `thr` counted as ink.
pub fn document_votes_at(gray: &Gray, rgb: &Raster, thr: u8) -> (res: bool)
    requires
        gray.wf(),
        rgb.wf(),
        rgb.bpp == 3,
        rgb.width == gray.width,
        rgb.height == gray.height,
        gray.width * gray.height <= u32::MAX,
    ensures
        res == document_votes_with(gray.data@, rgb.data@, thr),
{
    let ghost s = gray.data@;
    let total = gray.data.len();
    proof {
        assert(rgb.data@.len() == 3 * total) by (nonlinear_arith)
            requires
                rgb.data@.len() == rgb.height * (rgb.width * 3),
                total == gray.width * gray.height,
                rgb.width == gray.width,
                rgb.height == gray.height,
        ;
        assert(total <= u32::MAX);
    }
    let rgb_len = rgb.data.len();
    let hist = histogram(&gray.data);
    // peak: the most frequent value in 140..=255, the last of equals
    let mut peak: usize = 140;
    let mut v: usize = 141;
    while v < 256
        invariant
            141 <= v <= 256,
            hist@.len() == 256,
            forall|u: int| 0 <= u < 256 ==> #[trigger] hist@[u] == count_eq(s, u),
            peak == peak_upto(s, v - 1),
            140 <= peak < v,
        decreases 256 - v,
    {
        if hist[v] >= hist[peak] {
            peak = v;
        }
        v += 1;
    }
    let lo = if peak >= 25 { peak - 25 } else { 0 };
    let hi = if peak + 25 < 256 { peak + 25 } else { 256 };
    let mut near: u64 = 0;
    let mut u = lo;
    while u < hi
        invariant
            lo <= u <= hi <= 256,
            hi - lo <= 50,
            hist@.len() == 256,
            forall|t: int| 0 <= t < 256 ==> #[trigger] hist@[t] == count_eq(s, t),
            near == count_range(s, lo as int, u as int),
            near <= (u - lo) * total,
            total == s.len(),
            total <= u32::MAX,
        decreases hi - u,
    {
        proof {
            lemma_count_eq_bound(s, u as int);
            assert((u - lo) * total + total == (u + 1 - lo) * total) by (nonlinear_arith);
            assert((u + 1 - lo) * total <= 255 * total) by (nonlinear_arith)
                requires
                    u + 1 - lo <= 255,
                    total >= 0,
            ;
        }
        near = near + hist[u] as u64;
        u += 1;
    }
    proof {
        assert((u - lo) * total <= 255 * total) by (nonlinear_arith)
            requires
                u - lo <= 255,
                total >= 0,
        ;
    }
    let total64 = total as u64;
    let bright_bg = hist[peak] > 0 && 5 * near > 2 * total64;
    // low saturation pixels
    let mut low: u64 = 0;
    let mut k: usize = 0;
    while k < total
        invariant
            k <= total,
            rgb.data@.len() == 3 * total,
            rgb_len == rgb.data@.len(),
            rgb_len == rgb.data@.len(),
            low == count_low_sat(rgb.data@, k as int),
            low <= k,
        decreases total - k,
    {
        let r = rgb.data[3 * k];
        let g = rgb.data[3 * k + 1];
        let b = rgb.data[3 * k + 2];
        let mx = if r >= g && r >= b { r } else if g >= b { g } else { b };
        let mn = if r <= g && r <= b { r } else if g <= b { g } else { b };
        if mx - mn < 40 {
            low += 1;
        }
        k += 1;
    }
    let low_sat = 5 * low > 3 * total64;
    let mut fg: u64 = 0;
    let mut t: usize = 0;
    while t < thr as usize
        invariant
            t <= thr,
            hist@.len() == 256,
            forall|q: int| 0 <= q < 256 ==> #[trigger] hist@[q] == count_eq(s, q),
            t == 0 ==> fg == 0,
            t > 0 ==> fg == count_le(s, t - 1),
            fg <= total,
            total == s.len(),
        decreases thr - t,
    {
        proof {
            lemma_count_le_step(s, t as int);
            lemma_count_le_monotone(s, t as int, 255);
            lemma_count_le_step(s, 255);
        }
        fg = fg + hist[t] as u64;
        t += 1;
    }
    let ink = 1000 * fg > 3 * total64 && 20 * fg < 7 * total64;
    let votes = (if bright_bg { 1u32 } else { 0 }) + (if low_sat { 1u32 } else { 0 }) + (if ink { 1u32 } else { 0 });
    votes >= 2
}

// ------------------------------------------------------------------ laws of the document heuristic

/// Samples equal to `v`.
pub open spec fn equals_value(v: int) -> spec_fn(u8) -> bool {
    |x: u8| x as int == v
}

/// Samples in `[lo, hi)`.
pub open spec fn within(lo: int, hi: int) -> spec_fn(u8) -> bool {
    |x: u8| lo <= x && x < hi
}

/// How many samples equal `v`, by filtering.
pub open spec fn value_count(s: Seq<u8>, v: int) -> nat {
    s.filter(equals_value(v)).len()
}

/// How many samples lie in `[lo, hi)`, by filtering.
pub open spec fn band_count(s: Seq<u8>, lo: int, hi: int) -> nat {
    s.filter(within(lo, hi)).len()
}

/// The pixels of an interleaved RGB buffer, as `(r, g, b)`.
pub open spec fn rgb_pixels(rgb: Seq<u8>, n: nat) -> Seq<(u8, u8, u8)> {
    Seq::new(n, |k: int| (rgb[3 * k], rgb[3 * k + 1], rgb[3 * k + 2]))
}

/// Pixels whose largest and smallest channels differ by less than 40.
pub open spec fn grayish() -> spec_fn((u8, u8, u8)) -> bool {
    |p: (u8, u8, u8)|
        {
            let mx = if p.0 >= p.1 && p.0 >= p.2 { p.0 } else if p.1 >= p.2 { p.1 } else { p.2 };
            let mn = if p.0 <= p.1 && p.0 <= p.2 { p.0 } else if p.1 <= p.2 { p.1 } else { p.2 };
            mx - mn < 40
        }
}

proof fn lemma_count_eq_filter(s: Seq<u8>, v: int)
    ensures
        count_eq(s, v) == value_count(s, v),
    decreases s.len(),
{
    if s.len() > 0 {
        lemma_count_eq_filter(s.drop_last(), v);
        lemma_filter_step(s, equals_value(v));
    } else {
        reveal(Seq::filter);
    }
}

proof fn lemma_count_le_filter(s: Seq<u8>, v: int)
    ensures
        count_le(s, v) == band_count(s, 0, v + 1),
    decreases s.len(),
{
    if s.len() > 0 {
        lemma_count_le_filter(s.drop_last(), v);
        lemma_filter_step(s, within(0, v + 1));
    } else {
        reveal(Seq::filter);
    }
}

proof fn lemma_count_range_last(s: Seq<u8>, lo: int, hi: int)
    requires
        s.len() > 0,
    ensures
        count_range(s, lo, hi) == count_range(s.drop_last(), lo, hi) + if lo <= s.last() < hi {
            1int
        } else {
            0int
        },
    decreases hi - lo,
{
    if hi > lo {
        lemma_count_range_last(s, lo, hi - 1);
    }
}

proof fn lemma_count_range_empty(s: Seq<u8>, lo: int, hi: int)
    requires
        s.len() == 0,
    ensures
        count_range(s, lo, hi) == 0,
    decreases hi - lo,
{
    if hi > lo {
        lemma_count_range_empty(s, lo, hi - 1);
    }
}

proof fn lemma_count_range_filter(s: Seq<u8>, lo: int, hi: int)
    ensures
        count_range(s, lo, hi) == band_count(s, lo, hi),
    decreases s.len(),
{
    if s.len() > 0 {
        lemma_count_range_filter(s.drop_last(), lo, hi);
        lemma_count_range_last(s, lo, hi);
        lemma_filter_step(s, within(lo, hi));
    } else {
        reveal(Seq::filter);
        lemma_count_range_empty(s, lo, hi);
    }
}

proof fn lemma_count_low_sat_filter(rgb: Seq<u8>, n: int)
    requires
        0 <= n,
    ensures
        count_low_sat(rgb, n) == rgb_pixels(rgb, n as nat).filter(grayish()).len(),
    decreases n,
{
    let ps = rgb_pixels(rgb, n as nat);
    if n > 0 {
        lemma_count_low_sat_filter(rgb, n - 1);
        lemma_filter_step(ps, grayish());
        assert(ps.drop_last() =~= rgb_pixels(rgb, (n - 1) as nat));
    } else {
        reveal(Seq::filter);
    }
}

proof fn lemma_peak_upto(s: Seq<u8>, n: int)
    requires
        140 <= n,
    ensures
        140 <= peak_upto(s, n) <= n,
        forall|v: int| 140 <= v <= n ==> #[trigger] count_eq(s, v) <= count_eq(s, peak_upto(s, n)),
        forall|v: int| peak_upto(s, n) < v <= n ==> #[trigger] count_eq(s, v) < count_eq(s, peak_upto(s, n)),
    decreases n,
{
    if n > 140 {
        lemma_peak_upto(s, n - 1);
    }
}

/// The background peak is the most frequent value in 140..=255, the last of
/// the most frequent ones.
pub proof fn law_peak_is_most_frequent_bright_value(s: Seq<u8>)
    ensures
        140 <= peak_upto(s, 255) <= 255,
        forall|v: int|
            140 <= v <= 255 ==> #[trigger] value_count(s, v) <= value_count(s, peak_upto(s, 255)),
        forall|v: int|
            peak_upto(s, 255) < v <= 255 ==> #[trigger] value_count(s, v) < value_count(
                s,
                peak_upto(s, 255),
            ),
{
    lemma_peak_upto(s, 255);
    let p = peak_upto(s, 255);
    lemma_count_eq_filter(s, p);
    assert forall|v: int| 140 <= v <= 255 implies #[trigger] value_count(s, v) <= value_count(s, p) by {
        lemma_count_eq_filter(s, v);
        assert(count_eq(s, v) <= count_eq(s, p));
    }
    assert forall|v: int| p < v <= 255 implies #[trigger] value_count(s, v) < value_count(s, p) by {
        lemma_count_eq_filter(s, v);
        assert(count_eq(s, v) < count_eq(s, p));
    }
}

/// The document heuristic counts three signs and needs two of them: a
/// bright background (the peak value occurs, and the samples within 25 of
/// it, `[peak - 25, peak + 25)`, are more than 40% of all, even when no one
/// value is); low saturation (more than 60% of the pixels have channels
/// within 40 of each other); and a plausible amount of ink (more than 0.3%
/// and less than 35% of the samples below the threshold).
pub proof fn law_document_votes_count_three_signs(gray: Seq<u8>, rgb: Seq<u8>, thr: u8)
    ensures
        document_votes_with(gray, rgb, thr) == {
            let total = gray.len() as int;
            let p = peak_upto(gray, 255);
            let bright = value_count(gray, p) > 0 && 5 * band_count(gray, p - 25, p + 25) > 2 * total;
            let grayish_px = rgb_pixels(rgb, gray.len()).filter(grayish()).len();
            let low_sat = 5 * grayish_px > 3 * total;
            let ink_px = band_count(gray, 0, thr as int);
            let ink = 1000 * ink_px > 3 * total && 20 * ink_px < 7 * total;
            (if bright { 1int } else { 0 }) + (if low_sat { 1int } else { 0 }) + (if ink { 1int } else { 0 }) >= 2
        },
{
    let total = gray.len() as int;
    let p = peak_upto(gray, 255);
    lemma_peak_upto(gray, 255);
    let lo = if p >= 25 { p - 25 } else { 0 };
    let hi = if p + 25 < 256 { p + 25 } else { 256 };
    lemma_count_eq_filter(gray, p);
    lemma_count_range_filter(gray, lo, hi);
    assert(within(lo, hi) =~= within(p - 25, p + 25));
    lemma_count_low_sat_filter(rgb, total);
    if thr > 0 {
        lemma_count_le_filter(gray, thr - 1);
    } else {
        lemma_filter_none(gray, within(0, 0));
    }
}

proof fn lemma_filter_none<A>(s: Seq<A>, pred: spec_fn(A) -> bool)
    requires
        forall|a: A| !#[trigger] pred(a),
    ensures
        s.filter(pred).len() == 0,
    decreases s.len(),
{
    if s.len() > 0 {
        lemma_filter_none(s.drop_last(), pred);
        lemma_filter_step(s, pred);
    } else {
        reveal(Seq::filter);
    }
}

// ------------------------------------------------------------------ denoising

/// `v` clamped to `0..=hi`.
pub open spec fn clamp_to(v: int, hi: int) -> int {
    if v < 0 {
        0
    } else if v > hi {
        hi
    } else {
        v
    }
}

/// The nine samples of the 3x3 window around column `x`, row `y`, the image
/// continued past its edges by repeating the edge samples.
pub open spec fn window3(img: Gray, x: int, y: int) -> Seq<u8> {
    Seq::new(
        9,
        |k: int|
            img.at(
                clamp_to(x + k % 3 - 1, img.width - 1),
                clamp_to(y + k / 3 - 1, img.height - 1),
            ),
    )
}

/// The smallest value from `v` up that at least five of the samples do not
/// exceed.
pub open spec fn median_from(s: Seq<u8>, v: int) -> u8
    decreases 255 - v,
{
    if v >= 255 || count_le(s, v) >= 5 {
        if v >= 255 { 255 } else { v as u8 }
    } else {
        median_from(s, v + 1)
    }
}

/// The median of nine samples: the smallest value that at least five of
/// them do not exceed.
pub open spec fn median9(s: Seq<u8>) -> u8 {
    median_from(s, 0)
}

/// `imageproc::filter::median_filter(_, 1, 1)` on the image: the size is
/// kept and every sample becomes the median of its 3x3 window, the image
/// padded by continuity (the function's documentation; its histogram walk
/// returns the first value at which the running count reaches half of
/// nine). It panics when a side plus the radius exceeds `i32::MAX`, hence
/// the bounds.
#[verifier::external_body]
fn median3(img: &Gray) -> (res: Gray)
    requires
        img.wf(),
        img.width + 1 <= i32::MAX,
        img.height + 1 <= i32::MAX,
    ensures
        res.wf(),
        res.width == img.width,
        res.height == img.height,
        forall|x: int, y: int|
            0 <= x < img.width && 0 <= y < img.height ==> #[trigger] res.at(x, y) == median9(
                window3(*img, x, y),
            ),
{
    let g = image::GrayImage::from_raw(img.width, img.height, img.data.clone()).unwrap();
    let m = imageproc::filter::median_filter(&g, 1, 1);
    Gray { width: img.width, height: img.height, data: m.into_raw() }
}

/// The plane that black-and-white output thresholds: with denoising, the
/// 3x3 median of the normalized plane; without, the plane itself.
pub fn bw_source(norm: &Gray, denoise: bool) -> (res: Gray)
    requires
        norm.wf(),
        denoise ==> norm.width + 1 <= i32::MAX && norm.height + 1 <= i32::MAX,
    ensures
        res.wf(),
        res.width == norm.width,
        res.height == norm.height,
        forall|x: int, y: int|
            0 <= x < norm.width && 0 <= y < norm.height ==> #[trigger] res.at(x, y) == if denoise {
                median9(window3(*norm, x, y))
            } else {
                norm.at(x, y)
            },
{
    if denoise {
        median3(norm)
    } else {
        Gray { width: norm.width, height: norm.height, data: norm.data.clone() }
    }
}

// ------------------------------------------------------------------ channels

/// Channel `c` of an RGB image as a gray plane.
pub fn split_channel(rgb: &Raster, c: usize) -> (res: Gray)
    requires
        rgb.wf(),
        rgb.bpp == 3,
        c < 3,
    ensures
        res.wf(),
        res.width == rgb.width,
        res.height == rgb.height,
        forall|k: int| 0 <= k < res.data@.len() ==> #[trigger] res.data@[k] == rgb.data@[3 * k + c],
{
    let ghost n = rgb.width * rgb.height;
    proof {
        assert(rgb.data@.len() == 3 * n) by (nonlinear_arith)
            requires
                rgb.data@.len() == rgb.height * (rgb.width * 3),
                n == rgb.width * rgb.height,
        ;
    }
    let len = rgb.data.len();
    let m = len / 3;
    let mut out: Vec<u8> = Vec::new();
    for k in 0..m
        invariant
            m == n,
            len == rgb.data@.len(),
            len == 3 * n,
            c < 3,
            out@.len() == k,
            forall|j: int| 0 <= j < k ==> #[trigger] out@[j] == rgb.data@[3 * j + c],
    {
        out.push(rgb.data[3 * k + c]);
    }
    Gray { width: rgb.width, height: rgb.height, data: out }
}

/// An RGB image from three planes of the same size.
pub fn merge_channels(r: &Gray, g: &Gray, b: &Gray, format: u8) -> (res: Raster)
    requires
        r.wf(),
        g.wf(),
        b.wf(),
        g.width == r.width && b.width == r.width,
        g.height == r.height && b.height == r.height,
    ensures
        res.wf(),
        res.width == r.width,
        res.height == r.height,
        res.bpp == 3,
        res.format == format,
        forall|k: int| 0 <= k < r.data@.len() ==> #[trigger] res.data@[3 * k] == r.data@[k],
        forall|k: int| 0 <= k < r.data@.len() ==> #[trigger] res.data@[3 * k + 1] == g.data@[k],
        forall|k: int| 0 <= k < r.data@.len() ==> #[trigger] res.data@[3 * k + 2] == b.data@[k],
{
    let n = r.data.len();
    let mut out: Vec<u8> = Vec::new();
    for k in 0..n
        invariant
            n == r.data@.len() == g.data@.len() == b.data@.len(),
            out@.len() == 3 * k,
            forall|j: int| 0 <= j < k ==> #[trigger] out@[3 * j] == r.data@[j],
            forall|j: int| 0 <= j < k ==> #[trigger] out@[3 * j + 1] == g.data@[j],
            forall|j: int| 0 <= j < k ==> #[trigger] out@[3 * j + 2] == b.data@[j],
    {
        let ghost before = out@;
        out.push(r.data[k]);
        out.push(g.data[k]);
        out.push(b.data[k]);
        proof {
            assert forall|j: int| 0 <= j < k + 1 implies #[trigger] out@[3 * j] == r.data@[j] by {
                if j < k {
                    assert(out@[3 * j] == before[3 * j]);
                }
            }
            assert forall|j: int| 0 <= j < k + 1 implies #[trigger] out@[3 * j + 1] == g.data@[j] by {
                if j < k {
                    assert(out@[3 * j + 1] == before[3 * j + 1]);
                }
            }
            assert forall|j: int| 0 <= j < k + 1 implies #[trigger] out@[3 * j + 2] == b.data@[j] by {
                if j < k {
                    assert(out@[3 * j + 2] == before[3 * j + 2]);
                }
            }
        }
    }
    proof {
        assert(out@.len() == r.height * (r.width * 3)) by (nonlinear_arith)
            requires
                out@.len() == 3 * n,
                n == r.width * r.height,
        ;
    }
    Raster { width: r.width, height: r.height, bpp: 3, format, data: out }
}

/// Maps every byte of an image through a 256-entry table.
pub fn apply_lut_bytes(img: &Raster, lut: &Vec<u8>) -> (res: Raster)
    requires
        img.wf(),
        lut@.len() == 256,
    ensures
        res.wf(),
        res.width == img.width,
        res.height == img.height,
        res.bpp == img.bpp,
        res.format == img.format,
        forall|k: int| 0 <= k < img.data@.len() ==> #[trigger] res.data@[k] == lut@[img.data@[k] as int],
{
    let mut out: Vec<u8> = Vec::new();
    for k in 0..img.data.len()
        invariant
            lut@.len() == 256,
            out@.len() == k,
            forall|j: int| 0 <= j < k ==> #[trigger] out@[j] == lut@[img.data@[j] as int],
    {
        out.push(lut[img.data[k] as usize]);
    }
    Raster { width: img.width, height: img.height, bpp: img.bpp, format: img.format, data: out }
}

/// Window size of the adaptive binarization for an image whose shorter side
/// is `short`: `short / 32`, made odd, kept within 15..=61.
pub fn bw_window(short: u32) -> (res: u32)
    ensures
        res == (if (short / 32) | 1 < 15 {
            15
        } else if (short / 32) | 1 > 61 {
            61
        } else {
            (short / 32) | 1
        }),
        15 <= res <= 61,
{
    let v = (short / 32) | 1;
    if v < 15 {
        15
    } else if v > 61 {
        61
    } else {
        v
    }
}

} // verus!
