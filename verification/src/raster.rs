//! Images as plain pixel data: rows of pixels, each pixel a fixed number of
//! bytes, stored row after row.

use vstd::prelude::*;

verus! {

/// An image: `height` rows of `width` pixels of `bpp` bytes each, stored
/// row-major in `data`. What the bytes of a pixel mean (gray, RGB, RGBA,
/// 16-bit samples) is up to the producer; `format` names it for the
/// producer's own use and is carried through unchanged.
#[derive(Debug, Clone)]
pub struct Raster {
    pub width: u32,
    pub height: u32,
    pub bpp: usize,
    pub format: u8,
    pub data: Vec<u8>,
}

impl Raster {
    /// Bytes in one row.
    pub open spec fn row_len(&self) -> nat {
        (self.width * self.bpp) as nat
    }

    /// The data holds exactly `height` rows.
    pub open spec fn wf(&self) -> bool {
        &&& self.bpp > 0
        &&& self.data@.len() == self.height * self.row_len()
    }

    /// The bytes of row `y`.
    pub open spec fn row(&self, y: int) -> Seq<u8> {
        self.data@.subrange(y * self.row_len(), (y + 1) * self.row_len())
    }

    /// The part of the image that starts at column `x` and row `y`, `w`
    /// pixels wide and `h` high (the image crate's `crop_imm` on an area
    /// inside the image).
    pub fn crop_imm(&self, x: u32, y: u32, w: u32, h: u32) -> (res: Raster)
        requires
            self.wf(),
            x + w <= self.width,
            y + h <= self.height,
        ensures
            res.wf(),
            res.width == w,
            res.height == h,
            res.bpp == self.bpp,
            res.format == self.format,
            forall|r: int|
                0 <= r < h ==> #[trigger] res.row(r) == self.row(y + r).subrange(
                    x * self.bpp,
                    (x + w) * self.bpp,
                ),
    {
        let bpp = self.bpp;
        let mut out: Vec<u8> = Vec::new();
        if h == 0 {
            assert(0 * ((w * bpp) as nat) == 0) by (nonlinear_arith);
            return Raster { width: w, height: 0, bpp, format: self.format, data: out };
        }
        let data_len = self.data.len();
        let ghost total = self.data@.len();
        let ghost rl = self.row_len() as int;
        proof {
            assert(self.height >= 1);
            assert(rl <= self.height * rl) by (nonlinear_arith)
                requires
                    self.height >= 1,
                    rl >= 0,
            ;
        }
        assert(rl <= data_len);
        let row_len: usize = (self.width as usize) * bpp;
        let ghost orl = (w * bpp) as int;
        proof {
            assert(orl <= rl) by (nonlinear_arith)
                requires
                    w <= self.width,
                    bpp >= 0,
                    orl == w * bpp,
                    rl == self.width * bpp,
            ;
            assert((x + w) * bpp <= rl) by (nonlinear_arith)
                requires
                    x + w <= self.width,
                    bpp >= 0,
                    rl == self.width * bpp,
            ;
        }
        assert(x * bpp <= (x + w) * bpp) by (nonlinear_arith)
            requires
                bpp >= 0,
                w >= 0,
        ;
        let out_len: usize = (w as usize) * bpp;
        let lo: usize = (x as usize) * bpp;
        assert(lo + out_len == (x + w) * bpp) by (nonlinear_arith)
            requires
                lo == x * bpp,
                out_len == w * bpp,
        ;
        let mut r: u32 = 0;
        while r < h
            invariant
                self.wf(),
                r <= h,
                y + h <= self.height,
                x + w <= self.width,
                total == self.data@.len(),
                total <= usize::MAX,
                total == self.height * rl,
                rl == self.row_len(),
                row_len == rl,
                orl == out_len,
                orl == w * bpp,
                lo == x * bpp,
                lo + out_len <= row_len,
                bpp == self.bpp,
                out@.len() == r * orl,
                forall|k: int|
                    0 <= k < r ==> #[trigger] out@.subrange(k * orl, (k + 1) * orl)
                        == self.row(y + k).subrange(x * bpp, (x + w) * bpp),
            decreases h - r,
        {
            let ghost before = out@;
            assert(before.len() == r * orl);
            proof {
                assert((y + r + 1) * rl <= self.height * rl) by (nonlinear_arith)
                    requires
                        y + r + 1 <= self.height,
                        rl >= 0,
                ;
                assert((y + r + 1) * rl == (y + r) * rl + rl) by (nonlinear_arith);
                assert((x + w) * bpp == x * bpp + w * bpp) by (nonlinear_arith);
            }
            assert((y + r) * rl + lo + out_len <= total);
            let start: usize = ((y + r) as usize) * row_len + lo;
            let mut i: usize = 0;
            while i < out_len
                invariant
                    i <= out_len,
                    start + out_len <= total,
                    total <= usize::MAX,
                    total == self.data@.len(),
                    out@ == before + self.data@.subrange(start as int, start + i),
                decreases out_len - i,
            {
                out.push(self.data[start + i]);
                assert(self.data@.subrange(start as int, start + i + 1) == self.data@.subrange(
                    start as int,
                    start + i,
                ).push(self.data@[start + i]));
                i += 1;
            }
            proof {
                let row = self.row(y + r);
                assert(row == self.data@.subrange((y + r) * rl, (y + r + 1) * rl));
                assert(row.subrange(x * bpp, (x + w) * bpp) =~= self.data@.subrange(
                    start as int,
                    start + out_len,
                ));
                assert((r + 1) * orl == r * orl + orl) by (nonlinear_arith);
                assert(out@.subrange(r * orl, (r + 1) * orl) =~= self.data@.subrange(
                    start as int,
                    start + out_len,
                ));
                assert forall|k: int| 0 <= k < r + 1 implies #[trigger] out@.subrange(
                    k * orl,
                    (k + 1) * orl,
                ) == self.row(y + k).subrange(x * bpp, (x + w) * bpp) by {
                    if k < r {
                        assert((k + 1) * orl <= r * orl) by (nonlinear_arith)
                            requires
                                k + 1 <= r,
                                orl >= 0,
                        ;
                        assert(k * orl >= 0) by (nonlinear_arith)
                            requires
                                k >= 0,
                                orl >= 0,
                        ;
                        assert(out@.len() == before.len() + out_len);
                        assert((k + 1) * orl == k * orl + orl) by (nonlinear_arith);
                        assert(out@.subrange(0, r * orl) =~= before);
                        assert(out@.subrange(k * orl, (k + 1) * orl) =~= out@.subrange(0, r * orl).subrange(
                            k * orl,
                            (k + 1) * orl,
                        ));
                        assert(out@.subrange(k * orl, (k + 1) * orl) =~= before.subrange(
                            k * orl,
                            (k + 1) * orl,
                        ));
                    }
                }
            }
            r += 1;
        }
        let res = Raster { width: w, height: h, bpp, format: self.format, data: out };
        proof {
            assert(res.row_len() == orl);
            assert forall|k: int| 0 <= k < h implies #[trigger] res.row(k) == self.row(
                y + k,
            ).subrange(x * self.bpp, (x + w) * self.bpp) by {
                assert(res.row(k) == out@.subrange(k * orl, (k + 1) * orl));
            }
        }
        res
    }
}

} // verus!
