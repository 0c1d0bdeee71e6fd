//! The integer part of the sharpness adjustment: the 3x3 smoothing that
//! sharpening pushes away from.

use vstd::prelude::*;

use crate::raster::Raster;

verus! {

/// Byte `k` of an RGBA image after smoothing. Byte `k` is channel `k % 4`
/// of pixel `k / 4`, at column `(k / 4) % width` and row `(k / 4) / width`.
/// A colour byte (channel 0 to 2) of a pixel away from the border becomes
/// the weighted mean of its 3x3 window, centre weight 5 and the others 1,
/// over 13, rounded to the nearest integer (a mean of 13 integers never
/// falls on a half); alpha bytes, border pixels and images narrower or
/// lower than 3 pixels are kept.
pub open spec fn smooth_byte(img: Raster, k: int) -> u8 {
    let w = img.width as int;
    let h = img.height as int;
    let d = img.data@;
    let p = k / 4;
    let x = p % w;
    let y = p / w;
    if w >= 3 && h >= 3 && 1 <= x <= w - 2 && 1 <= y <= h - 2 && k % 4 < 3 {
        let r = 4 * w;
        let s = 5 * d[k] + d[k - r - 4] + d[k - r] + d[k - r + 4] + d[k - 4] + d[k + 4] + d[k + r
            - 4] + d[k + r] + d[k + r + 4];
        ((2 * s + 13) / 26) as u8
    } else {
        d[k]
    }
}

/// Smooths the colour of an RGBA image as [`smooth_byte`] states.
pub fn smooth(img: &Raster) -> (res: Raster)
    requires
        img.wf(),
        img.bpp == 4,
    ensures
        res.wf(),
        res.width == img.width,
        res.height == img.height,
        res.bpp == 4,
        res.format == img.format,
        forall|k: int| 0 <= k < img.data@.len() ==> #[trigger] res.data@[k] == smooth_byte(*img, k),
{
    let w = img.width as usize;
    let h = img.height as usize;
    let len = img.data.len();
    let ghost wi = w as int;
    let ghost hi = h as int;
    proof {
        assert(len == hi * (wi * 4));
        assert(len == 4 * (wi * hi)) by (nonlinear_arith)
            requires
                len == hi * (wi * 4),
        ;
    }
    let mut out: Vec<u8> = Vec::new();
    let mut k: usize = 0;
    while k < len
        invariant
            img.wf(),
            img.bpp == 4,
            w == img.width,
            h == img.height,
            wi == w,
            hi == h,
            len == img.data@.len(),
            len == 4 * (wi * hi),
            k <= len,
            out@.len() == k,
            forall|j: int| 0 <= j < k ==> #[trigger] out@[j] == smooth_byte(*img, j),
        decreases len - k,
    {
        let p = k / 4;
        let x = p % w;
        let y = p / w;
        let v: u8 = if w >= 3 && h >= 3 && 1 <= x && x <= w - 2 && 1 <= y && y <= h - 2 && k % 4 < 3 {
            proof {
                let pi = p as int;
                let ki = k as int;
                assert(pi == (pi / wi) * wi + pi % wi) by (nonlinear_arith)
                    requires
                        wi > 0,
                ;
                assert(ki == 4 * pi + ki % 4);
                assert(pi < wi * hi);
                assert(pi + wi + 1 < wi * hi) by (nonlinear_arith)
                    requires
                        pi == (pi / wi) * wi + pi % wi,
                        pi / wi <= hi - 2,
                        pi % wi <= wi - 2,
                        wi >= 3,
                ;
                assert(pi >= wi + 1) by (nonlinear_arith)
                    requires
                        pi == (pi / wi) * wi + pi % wi,
                        pi / wi >= 1,
                        pi % wi >= 1,
                        wi >= 3,
                ;
                assert(ki + 4 * wi + 4 < len);
                assert(ki >= 4 * wi + 4);
            }
            let r = 4 * w;
            let d = &img.data;
            let s: u32 = 5 * (d[k] as u32) + d[k - r - 4] as u32 + d[k - r] as u32 + d[k - r + 4] as u32
                + d[k - 4] as u32 + d[k + 4] as u32 + d[k + r - 4] as u32 + d[k + r] as u32 + d[k + r
                + 4] as u32;
            assert((2 * s + 13) / 26 <= 255);
            ((2 * s + 13) / 26) as u8
        } else {
            img.data[k]
        };
        out.push(v);
        k += 1;
    }
    proof {
        assert(out@.len() == hi * (wi * 4)) by (nonlinear_arith)
            requires
                out@.len() == 4 * (wi * hi),
        ;
    }
    Raster { width: img.width, height: img.height, bpp: 4, format: img.format, data: out }
}

} // verus!
